//! A map from texts to values, kept as a list of entries in which the entry
//! added last decides what a key holds.
use vstd::prelude::*;
use crate::text::text_eq;

verus! {

/// A map keyed by text. Two keys are the same key when they hold the same
/// characters.
#[derive(Debug)]
pub struct TextMap<V> {
    entries: Vec<(String, V)>,
}

/// The map that a list of entries stands for: each entry overrides what the
/// entries before it say of its key.
pub open spec fn map_of<V>(entries: Seq<(String, V)>) -> Map<Seq<char>, V>
    decreases entries.len(),
{
    if entries.len() == 0 {
        Map::empty()
    } else {
        map_of(entries.drop_last()).insert(entries.last().0@, entries.last().1)
    }
}

/// A key that no entry has is not in the map.
pub proof fn lemma_map_of_absent<V>(entries: Seq<(String, V)>, key: Seq<char>)
    requires
        forall|i: int| 0 <= i < entries.len() ==> (#[trigger] entries[i]).0@ != key,
    ensures
        !map_of(entries).contains_key(key),
    decreases entries.len(),
{
    if entries.len() > 0 {
        let front = entries.drop_last();
        assert forall|i: int| 0 <= i < front.len() implies (#[trigger] front[i]).0@ != key by {
            assert(front[i] == entries[i]);
        }
        lemma_map_of_absent(front, key);
        assert(entries[entries.len() - 1].0@ != key);
    }
}

/// The map holds for a key the value of the last entry that has it.
pub proof fn lemma_map_of_last<V>(entries: Seq<(String, V)>, at: int, key: Seq<char>)
    requires
        0 <= at < entries.len(),
        entries[at].0@ == key,
        forall|j: int| at < j < entries.len() ==> (#[trigger] entries[j]).0@ != key,
    ensures
        map_of(entries).contains_key(key),
        map_of(entries)[key] == entries[at].1,
    decreases entries.len(),
{
    if at < entries.len() - 1 {
        let front = entries.drop_last();
        assert forall|j: int| at < j < front.len() implies (#[trigger] front[j]).0@ != key by {
            assert(front[j] == entries[j]);
        }
        assert(front[at] == entries[at]);
        lemma_map_of_last(front, at, key);
        assert(entries[entries.len() - 1].0@ != key);
    }
}

/// Taking one entry out changes nothing for the keys of the other entries.
pub proof fn lemma_map_of_remove<V>(entries: Seq<(String, V)>, at: int, key: Seq<char>)
    requires
        0 <= at < entries.len(),
        entries[at].0@ != key,
    ensures
        map_of(entries.remove(at)).contains_key(key) == map_of(entries).contains_key(key),
        map_of(entries.remove(at)).contains_key(key) ==> map_of(entries.remove(at))[key] == map_of(
            entries,
        )[key],
    decreases entries.len(),
{
    let last = entries.len() - 1;
    if at == last {
        assert(entries.remove(at) =~= entries.drop_last());
    } else {
        let front = entries.drop_last();
        lemma_map_of_remove(front, at, key);
        assert(entries.remove(at).drop_last() =~= front.remove(at));
        assert(entries.remove(at).last() == entries.last());
    }
}

impl<V> View for TextMap<V> {
    type V = Map<Seq<char>, V>;

    open spec fn view(&self) -> Map<Seq<char>, V> {
        map_of(self.entries())
    }
}

impl<V> TextMap<V> {
    /// The entries that the map is kept as, oldest first.
    pub closed spec fn entries(&self) -> Seq<(String, V)> {
        self.entries@
    }

    /// How many entries the map is kept as.
    pub fn len(&self) -> (r: usize)
        ensures
            r == self.entries().len(),
    {
        self.entries.len()
    }

    /// The key and the value of the entry at `at`.
    pub fn entry(&self, at: usize) -> (r: (&str, &V))
        requires
            at < self.entries().len(),
        ensures
            r.0@ == self.entries()[at as int].0@,
            *r.1 == self.entries()[at as int].1,
    {
        (self.entries[at].0.as_str(), &self.entries[at].1)
    }

    /// The empty map.
    pub fn new() -> (r: Self)
        ensures
            r@ == Map::<Seq<char>, V>::empty(),
            r.entries().len() == 0,
    {
        TextMap { entries: Vec::new() }
    }

    /// The place of the last entry for `key`.
    fn position(&self, key: &str) -> (r: Option<usize>)
        ensures
            match r {
                Some(i) => i < self.entries.len() && self.entries[i as int].0@ == key@
                    && self@.contains_key(key@) && self@[key@] == self.entries[i as int].1,
                None => !self@.contains_key(key@),
            },
    {
        let mut i: usize = self.entries.len();
        while i > 0
            invariant
                i <= self.entries.len(),
                forall|j: int| i <= j < self.entries.len() ==> (#[trigger] self.entries[j]).0@ != key@,
            decreases i,
        {
            i -= 1;
            if text_eq(self.entries[i].0.as_str(), key) {
                proof {
                    lemma_map_of_last(self.entries@, i as int, key@);
                }
                return Some(i);
            }
        }
        proof {
            lemma_map_of_absent(self.entries@, key@);
        }
        None
    }

    /// Whether the map holds a value for `key`.
    pub fn contains_key(&self, key: &str) -> (r: bool)
        ensures
            r == self@.contains_key(key@),
    {
        self.position(key).is_some()
    }

    /// The value held for `key`.
    pub fn get(&self, key: &str) -> (r: Option<&V>)
        ensures
            r == if self@.contains_key(key@) {
                Some(&self@[key@])
            } else {
                None
            },
    {
        match self.position(key) {
            Some(i) => Some(&self.entries[i].1),
            None => None,
        }
    }

    /// Puts `value` under `key` and hands back what the key held before.
    pub fn insert(&mut self, key: String, value: V) -> (previous: Option<V>)
        ensures
            final(self)@ == old(self)@.insert(key@, value),
            previous == if old(self)@.contains_key(key@) {
                Some(old(self)@[key@])
            } else {
                None
            },
    {
        let found = self.position(key.as_str());
        let ghost before = self.entries@;
        let previous = match found {
            Some(i) => Some(self.entries.remove(i).1),
            None => None,
        };
        let ghost middle = self.entries@;
        self.entries.push((key, value));
        proof {
            assert(self.entries@.drop_last() =~= middle);
            assert(map_of(self.entries@) == map_of(middle).insert(key@, value));
            let a = map_of(middle).insert(key@, value);
            let b = map_of(before).insert(key@, value);
            assert forall|k: Seq<char>| a.dom().contains(k) == b.dom().contains(k) by {
                if k != key@ {
                    if let Some(i) = found {
                        lemma_map_of_remove(before, i as int, k);
                    }
                }
            }
            assert forall|k: Seq<char>| #[trigger] a.dom().contains(k) implies a[k] == b[k] by {
                if k != key@ {
                    if let Some(i) = found {
                        lemma_map_of_remove(before, i as int, k);
                    }
                }
            }
            assert(a =~= b);
        }
        previous
    }
}

} // verus!
