//! Text primitives: what the standard library's string operations do to the
//! character sequence of a string, and the `;`-delimited field format that
//! sequences of values are written in.
use vstd::prelude::*;

verus! {

/// What is taken for granted of `String::push` of the standard library:
/// it appends the character to the end of the string.
pub assume_specification[ String::push ](s: &mut String, c: char)
    ensures
        final(s)@ == old(s)@.push(c),
;

/// What is taken for granted of `String::push_str` of the standard
/// library: it appends the characters of `t` to the end of the string.
pub assume_specification[ String::push_str ](s: &mut String, t: &str)
    ensures
        final(s)@ == old(s)@ + t@,
;

/// What is taken for granted of the `==` of string slices of the standard
/// library: two slices are equal exactly when they hold the same
/// characters.
pub assume_specification[ <str as PartialEq>::eq ](a: &str, b: &str) -> (r: bool)
    ensures
        r == (a@ == b@),
;

/// The separator between the fields of a sequence written as text.
pub const DELIMITER: char = ';';

/// Whether two texts hold the same characters.
pub fn text_eq(a: &str, b: &str) -> (r: bool)
    ensures
        r == (a@ == b@),
{
    a.eq(b)
}

/// The characters of `s`, in order.
pub fn chars_of(s: &str) -> (r: Vec<char>)
    ensures
        r@ == s@,
{
    let mut out: Vec<char> = Vec::new();
    for c in it: s.chars()
        invariant
            out@ == it.seq().take(it.index() as int),
    {
        out.push(c);
    }
    out
}

/// The string made of `chars[from..to]`.
pub fn string_of(chars: &Vec<char>, from: usize, to: usize) -> (r: String)
    requires
        from <= to <= chars.len(),
    ensures
        r@ == chars@.subrange(from as int, to as int),
{
    let mut out = String::new();
    let mut i: usize = from;
    while i < to
        invariant
            from <= i <= to <= chars.len(),
            out@ == chars@.subrange(from as int, i as int),
        decreases to - i,
    {
        out.push(chars[i]);
        assert(chars@.subrange(from as int, i + 1) =~= chars@.subrange(from as int, i as int).push(
            chars@[i as int],
        ));
        i += 1;
    }
    out
}

/// Whether `c` occurs in `s`.
pub open spec fn has_char(s: Seq<char>, c: char) -> bool {
    exists|i: int| 0 <= i < s.len() && s[i] == c
}

/// The fields of `parts` written one after the other with a `;` between
/// neighbours. No fields give the empty text, as one empty field does.
pub open spec fn join_fields(parts: Seq<Seq<char>>) -> Seq<char>
    decreases parts.len(),
{
    if parts.len() == 0 {
        Seq::empty()
    } else if parts.len() == 1 {
        parts[0]
    } else {
        join_fields(parts.drop_last()) + seq![DELIMITER] + parts.last()
    }
}

/// The fields of `s`: the maximal runs of characters between its `;`
/// separators. A text without separator is one field, the empty text too.
pub open spec fn split_fields(s: Seq<char>) -> Seq<Seq<char>>
    decreases s.len(),
{
    if s.len() == 0 {
        seq![Seq::empty()]
    } else {
        let before = split_fields(s.drop_last());
        if s.last() == DELIMITER {
            before.push(Seq::empty())
        } else {
            before.drop_last().push(before.last().push(s.last()))
        }
    }
}

/// A text always has at least one field.
pub proof fn lemma_split_nonempty(s: Seq<char>)
    ensures
        split_fields(s).len() >= 1,
    decreases s.len(),
{
    if s.len() > 0 {
        lemma_split_nonempty(s.drop_last());
    }
}

/// No field of a split text holds the separator.
pub proof fn lemma_split_fields_atomic(s: Seq<char>)
    ensures
        forall|i: int|
            0 <= i < split_fields(s).len() ==> !has_char(#[trigger] split_fields(s)[i], DELIMITER),
    decreases s.len(),
{
    if s.len() > 0 {
        lemma_split_fields_atomic(s.drop_last());
        lemma_split_nonempty(s.drop_last());
    }
}

/// Joining the fields of a text gives the text back.
pub proof fn lemma_join_split(s: Seq<char>)
    ensures
        join_fields(split_fields(s)) == s,
    decreases s.len(),
{
    if s.len() == 0 {
        assert(join_fields(seq![Seq::<char>::empty()]) == Seq::<char>::empty());
    } else {
        let head = s.drop_last();
        let before = split_fields(head);
        lemma_join_split(head);
        lemma_split_nonempty(head);
        if s.last() == DELIMITER {
            let after = before.push(Seq::empty());
            assert(after.drop_last() == before);
            assert(join_fields(after) == join_fields(before) + seq![DELIMITER] + Seq::<char>::empty());
            assert(join_fields(after) =~= head.push(DELIMITER));
            assert(s =~= head.push(DELIMITER));
        } else {
            let grown = before.last().push(s.last());
            let after = before.drop_last().push(grown);
            assert(after.drop_last() == before.drop_last());
            if before.len() == 1 {
                assert(join_fields(after) == grown);
                assert(join_fields(before) == before.last());
            } else {
                assert(join_fields(after) == join_fields(before.drop_last()) + seq![DELIMITER]
                    + grown);
                assert(join_fields(before) == join_fields(before.drop_last()) + seq![DELIMITER]
                    + before.last());
            }
            assert(join_fields(after) =~= join_fields(before).push(s.last()));
            assert(s =~= head.push(s.last()));
        }
    }
}

/// Splitting a text that ends in a field without separator: the field is
/// appended to the last field of what came before.
pub proof fn lemma_split_append_atomic(s: Seq<char>, field: Seq<char>)
    requires
        !has_char(field, DELIMITER),
    ensures
        split_fields(s + field) == split_fields(s).drop_last().push(split_fields(s).last() + field),
    decreases field.len(),
{
    lemma_split_nonempty(s);
    if field.len() == 0 {
        assert(s + field =~= s);
        assert(split_fields(s).last() + field =~= split_fields(s).last());
        assert(split_fields(s).drop_last().push(split_fields(s).last()) =~= split_fields(s));
    } else {
        let shorter = field.drop_last();
        assert forall|i: int| 0 <= i < shorter.len() implies shorter[i] != DELIMITER by {
            assert(field[i] == shorter[i]);
        }
        lemma_split_append_atomic(s, shorter);
        assert((s + field).drop_last() =~= s + shorter);
        assert(field[field.len() - 1] != DELIMITER);
        assert((s + field).last() == field.last());
        let before = split_fields(s + shorter);
        assert(before.drop_last() =~= split_fields(s).drop_last());
        assert(before.last().push(field.last()) =~= split_fields(s).last() + field);
    }
}

/// Splitting the joined text of at least one field, none of which holds the
/// separator, gives the fields back.
pub proof fn lemma_split_join(parts: Seq<Seq<char>>)
    requires
        parts.len() >= 1,
        forall|i: int| 0 <= i < parts.len() ==> !has_char(#[trigger] parts[i], DELIMITER),
    ensures
        split_fields(join_fields(parts)) == parts,
    decreases parts.len(),
{
    let last = parts.last();
    if parts.len() == 1 {
        lemma_split_append_atomic(Seq::empty(), last);
        assert(Seq::<char>::empty() + last =~= last);
        assert(split_fields(Seq::<char>::empty()) == seq![Seq::<char>::empty()]);
        assert(Seq::<char>::empty() + last =~= last);
        assert(split_fields(join_fields(parts)) =~= parts);
    } else {
        let front = parts.drop_last();
        lemma_split_join(front);
        let head = join_fields(front) + seq![DELIMITER];
        assert(head.drop_last() =~= join_fields(front));
        assert(split_fields(head) == front.push(Seq::empty()));
        lemma_split_append_atomic(head, last);
        assert(Seq::<char>::empty() + last =~= last);
        assert(split_fields(join_fields(parts)) =~= parts);
    }
}

/// The fields of `s` as strings.
pub fn split_text(s: &str) -> (r: Vec<String>)
    ensures
        r.deep_view() == split_fields(s@),
{
    let mut pieces: Vec<String> = Vec::new();
    let mut current = String::new();
    let ghost mut seen: Seq<char> = Seq::empty();
    for c in it: s.chars()
        invariant
            seen == it.seq().take(it.index() as int),
            split_fields(seen) == pieces.deep_view().push(current@),
    {
        let ghost before_c = seen;
        proof {
            seen = seen.push(c);
            assert(seen =~= it.seq().take(it.index() + 1));
            assert(seen.drop_last() =~= before_c);
        }
        if c == DELIMITER {
            let ghost before = pieces.deep_view();
            pieces.push(current);
            current = String::new();
            assert(pieces.deep_view() =~= before.push(pieces@.last()@));
        } else {
            current.push(c);
            assert(pieces.deep_view().push(current@).drop_last() =~= pieces.deep_view());
            assert(split_fields(seen) =~= pieces.deep_view().push(current@));
        }
    }
    assert(seen =~= s@);
    let ghost before = pieces.deep_view();
    pieces.push(current);
    assert(pieces.deep_view() =~= before.push(pieces@.last()@));
    pieces
}

} // verus!
