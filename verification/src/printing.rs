//! Tree descriptions written as text, and that reading what was written
//! gives the description back.
use vstd::prelude::*;
use crate::document::{
    Element,
    ElementView,
    ParseError,
    find_text,
    holds_at,
    is_name_char,
    is_name_start,
    is_space,
    lemma_weights_index,
    name_end,
    parse_attributes,
    parse_content,
    parse_element,
    parse_text,
    skip_blank,
    skip_spaces,
    weight,
};

verus! {

/// Whether `n` can be the name of an element or of an attribute.
pub open spec fn is_name(n: Seq<char>) -> bool {
    &&& n.len() > 0
    &&& is_name_start(n[0])
    &&& forall|i: int| 0 <= i < n.len() ==> is_name_char(#[trigger] n[i])
}

/// Whether `v` can stand between double quotes.
pub open spec fn quotable(v: Seq<char>) -> bool {
    forall|i: int| 0 <= i < v.len() ==> #[trigger] v[i] != '"'
}

/// Whether the attributes can be written: their names are names, and their
/// values can stand between double quotes.
pub open spec fn writable(attributes: Seq<(Seq<char>, Seq<char>)>) -> bool {
    forall|i: int|
        0 <= i < attributes.len() ==> is_name((#[trigger] attributes[i]).0) && quotable(
            attributes[i].1,
        )
}

/// Whether the element can be written, with all that is inside it.
pub open spec fn printable(element: ElementView) -> bool
    decreases element,
{
    &&& is_name(element.tag)
    &&& writable(element.attributes)
    &&& forall|i: int|
        0 <= i < element.children.len() ==> printable(#[trigger] element.children[i])
}

/// The attributes as text: each after a space, its value between double
/// quotes.
pub open spec fn render_attributes(attributes: Seq<(Seq<char>, Seq<char>)>) -> Seq<char>
    decreases attributes.len(),
{
    if attributes.len() == 0 {
        Seq::empty()
    } else {
        seq![' '] + attributes[0].0 + seq!['=', '"'] + attributes[0].1 + seq!['"']
            + render_attributes(attributes.drop_first())
    }
}

/// The element as text, without any space that could be left out. An
/// element without children is written as a tag that closes itself.
pub open spec fn render(element: ElementView) -> Seq<char>
    decreases element, 0int,
{
    seq!['<'] + element.tag + render_attributes(element.attributes) + if element.children.len()
        == 0 {
        seq!['/', '>']
    } else {
        seq!['>'] + render_all(element.children) + seq!['<', '/'] + element.tag + seq!['>']
    }
}

/// The elements as text, one after the other.
pub open spec fn render_all(elements: Seq<ElementView>) -> Seq<char>
    decreases elements, 1int,
{
    if elements.len() == 0 {
        Seq::empty()
    } else {
        render(elements[0]) + render_all(elements.drop_first())
    }
}

/// A text that holds two texts one after the other holds each of them.
pub proof fn lemma_holds_both(s: Seq<char>, pos: int, a: Seq<char>, b: Seq<char>)
    requires
        holds_at(s, pos, a + b),
    ensures
        holds_at(s, pos, a),
        holds_at(s, pos + a.len(), b),
{
    let whole = s.subrange(pos, pos + (a + b).len());
    assert(s.subrange(pos, pos + a.len()) =~= a) by {
        assert forall|i: int| 0 <= i < a.len() implies s[pos + i] == a[i] by {
            assert(whole[i] == (a + b)[i]);
        }
    }
    assert(s.subrange(pos + a.len(), pos + a.len() + b.len()) =~= b) by {
        assert forall|i: int| 0 <= i < b.len() implies s[pos + a.len() + i] == b[i] by {
            assert(whole[a.len() + i] == (a + b)[a.len() + i]);
        }
    }
}

/// The characters of a text that is held are where they are held.
pub proof fn lemma_holds_char(s: Seq<char>, pos: int, a: Seq<char>, i: int)
    requires
        holds_at(s, pos, a),
        0 <= i < a.len(),
    ensures
        0 <= pos + i < s.len(),
        s[pos + i] == a[i],
{
    assert(s.subrange(pos, pos + a.len())[i] == a[i]);
}

/// A name ends where the first character stands that names do not hold.
pub proof fn lemma_name_end(s: Seq<char>, pos: int, n: int)
    requires
        0 <= pos,
        0 <= n,
        pos + n < s.len(),
        forall|i: int| pos <= i < pos + n ==> is_name_char(#[trigger] s[i]),
        !is_name_char(s[pos + n]),
    ensures
        name_end(s, pos) == pos + n,
    decreases n,
{
    if n > 0 {
        assert(is_name_char(s[pos]));
        lemma_name_end(s, pos + 1, n - 1);
    }
}

/// A quote is found where the first one stands.
pub proof fn lemma_find_quote(s: Seq<char>, pos: int, n: int)
    requires
        0 <= pos,
        0 <= n,
        pos + n < s.len(),
        forall|i: int| pos <= i < pos + n ==> #[trigger] s[i] != '"',
        s[pos + n] == '"',
    ensures
        find_text(s, pos, seq!['"']) == pos + n,
    decreases n,
{
    if n > 0 {
        assert(s[pos] != '"');
        assert(!holds_at(s, pos, seq!['"'])) by {
            if holds_at(s, pos, seq!['"']) {
                assert(s.subrange(pos, pos + 1)[0] == '"');
            }
        }
        lemma_find_quote(s, pos + 1, n - 1);
    } else {
        assert(s.subrange(pos, pos + 1) =~= seq!['"']);
    }
}

/// Reading the attributes that were written gives them back.
pub proof fn lemma_read_attributes(s: Seq<char>, pos: int, attributes: Seq<(Seq<char>, Seq<char>)>)
    requires
        holds_at(s, pos, render_attributes(attributes)),
        writable(attributes),
        pos + render_attributes(attributes).len() < s.len(),
        s[pos + render_attributes(attributes).len()] == '/' || s[pos + render_attributes(
            attributes,
        ).len()] == '>',
    ensures
        parse_attributes(s, pos) == Ok::<(Seq<(Seq<char>, Seq<char>)>, int), ParseError>(
            (attributes, pos + render_attributes(attributes).len()),
        ),
    decreases attributes.len(),
{
    if attributes.len() == 0 {
        assert(skip_spaces(s, pos) == pos);
        assert(attributes =~= Seq::empty());
    } else {
        let name = attributes[0].0;
        let value = attributes[0].1;
        let rest = attributes.drop_first();
        let tail = render_attributes(rest);
        let head = seq![' '] + name + seq!['=', '"'] + value + seq!['"'];
        assert(render_attributes(attributes) == head + tail);
        lemma_holds_both(s, pos, head, tail);
        assert(is_name(name) && quotable(value));
        let p = pos + 1;
        let e = p + name.len();
        let r = e + 1;
        let close = r + 1 + value.len();
        assert(head.len() == close + 1 - pos);
        assert forall|i: int| 0 <= i < head.len() implies s[pos + i] == head[i] by {
            lemma_holds_char(s, pos, head, i);
        }
        assert(s[pos] == ' ') by {
            assert(head[0] == ' ');
        }
        assert forall|i: int| p <= i < e implies is_name_char(#[trigger] s[i]) by {
            assert(head[i - pos] == name[i - p]);
        }
        assert(s[p] == name[0]) by {
            assert(head[1] == name[0]);
        }
        assert(s[e] == '=') by {
            assert(head[e - pos] == '=');
        }
        assert(s[r] == '"') by {
            assert(head[r - pos] == '"');
        }
        assert forall|i: int| r + 1 <= i < close implies #[trigger] s[i] != '"' by {
            assert(head[i - pos] == value[i - r - 1]);
        }
        assert(s[close] == '"') by {
            assert(head[close - pos] == '"');
        }
        assert(skip_spaces(s, pos) == p) by {
            assert(skip_spaces(s, p) == p);
        }
        lemma_name_end(s, p, name.len() as int);
        assert(skip_spaces(s, e) == e);
        assert(skip_spaces(s, e + 1) == r);
        lemma_find_quote(s, r + 1, value.len() as int);
        assert(find_text(s, r + 1, seq![s[r]]) == close);
        assert(s.subrange(p, e) =~= name) by {
            assert forall|i: int| 0 <= i < name.len() implies s[p + i] == name[i] by {
                assert(head[1 + i] == name[i]);
            }
        }
        assert(s.subrange(r + 1, close) =~= value) by {
            assert forall|i: int| 0 <= i < value.len() implies s[r + 1 + i] == value[i] by {
                assert(head[r + 1 - pos + i] == value[i]);
            }
        }
        assert(writable(rest)) by {
            assert forall|i: int| 0 <= i < rest.len() implies is_name((#[trigger] rest[i]).0)
                && quotable(rest[i].1) by {
                assert(rest[i] == attributes[i + 1]);
            }
        }
        lemma_read_attributes(s, close + 1, rest);
        assert(seq![(name, value)] + rest =~= attributes);
    }
}

/// Nothing is passed over where a tag starts.
pub proof fn lemma_no_blank(s: Seq<char>, pos: int)
    requires
        0 <= pos,
        pos + 1 < s.len(),
        s[pos] == '<',
        s[pos + 1] != '!',
        s[pos + 1] != '?',
    ensures
        skip_blank(s, pos) == pos,
{
    assert(skip_spaces(s, pos) == pos);
    assert(!holds_at(s, pos, seq!['<', '!', '-', '-'])) by {
        if holds_at(s, pos, seq!['<', '!', '-', '-']) {
            assert(s.subrange(pos, pos + 4)[1] == '!');
        }
    }
    assert(!holds_at(s, pos, seq!['<', '?'])) by {
        if holds_at(s, pos, seq!['<', '?']) {
            assert(s.subrange(pos, pos + 2)[1] == '?');
        }
    }
}

/// Reading the element that was written gives it back.
pub proof fn lemma_read_element(s: Seq<char>, pos: int, element: ElementView)
    requires
        holds_at(s, pos, render(element)),
        printable(element),
    ensures
        parse_element(s, pos) == Ok::<(ElementView, int), ParseError>(
            (element, pos + render(element).len()),
        ),
    decreases element, 0int,
{
    let tag = element.tag;
    let attributes = render_attributes(element.attributes);
    let tail = if element.children.len() == 0 {
        seq!['/', '>']
    } else {
        seq!['>'] + render_all(element.children) + seq!['<', '/'] + tag + seq!['>']
    };
    let text = render(element);
    assert(text == seq!['<'] + tag + attributes + tail);
    let start = pos + 1;
    let named = start + tag.len();
    let bound = named + attributes.len();
    assert(text =~= (seq!['<'] + tag) + (attributes + tail));
    lemma_holds_both(s, pos, seq!['<'] + tag, attributes + tail);
    lemma_holds_both(s, named, attributes, tail);
    assert forall|i: int| 0 <= i < tag.len() implies s[start + i] == tag[i] by {
        lemma_holds_char(s, pos, seq!['<'] + tag, i + 1);
    }
    assert(s[pos] == '<') by {
        lemma_holds_char(s, pos, seq!['<'] + tag, 0);
    }
    assert(0 <= bound < s.len() && (s[bound] == '/' || s[bound] == '>')) by {
        lemma_holds_char(s, bound, tail, 0);
    }
    assert(!is_name_char(s[named])) by {
        if element.attributes.len() == 0 {
            assert(attributes.len() == 0);
        } else {
            lemma_holds_char(s, named, attributes, 0);
            assert(attributes[0] == ' ');
        }
    }
    assert(is_name_start(s[start])) by {
        assert(s[start + 0] == tag[0]);
    }
    assert forall|i: int| start <= i < named implies is_name_char(#[trigger] s[i]) by {
        assert(s[start + (i - start)] == tag[i - start]);
    }
    lemma_name_end(s, start, tag.len() as int);
    assert(s.subrange(start, named) =~= tag);
    lemma_read_attributes(s, named, element.attributes);
    if element.children.len() == 0 {
        assert(holds_at(s, bound, seq!['/', '>']));
        assert(element.children =~= Seq::<ElementView>::empty());
    } else {
        assert(s[bound] == '>') by {
            lemma_holds_char(s, bound, tail, 0);
        }
        assert(!holds_at(s, bound, seq!['/', '>'])) by {
            if holds_at(s, bound, seq!['/', '>']) {
                assert(s.subrange(bound, bound + 2)[0] == '/');
            }
        }
        let inner = render_all(element.children) + seq!['<', '/'] + tag + seq!['>'];
        assert(tail =~= seq!['>'] + inner);
        lemma_holds_both(s, bound, seq!['>'], inner);
        lemma_read_content(s, bound + 1, tag, element.children);
    }
}

/// Reading the elements that were written, up to the end tag after them,
/// gives them back.
pub proof fn lemma_read_content(s: Seq<char>, pos: int, tag: Seq<char>, elements: Seq<ElementView>)
    requires
        holds_at(s, pos, render_all(elements) + seq!['<', '/'] + tag + seq!['>']),
        is_name(tag),
        forall|i: int| 0 <= i < elements.len() ==> printable(#[trigger] elements[i]),
    ensures
        parse_content(s, pos, tag) == Ok::<(Seq<ElementView>, int), ParseError>(
            (elements, pos + render_all(elements).len() + tag.len() + 3),
        ),
    decreases elements, 1int,
{
    let closing = seq!['<', '/'] + tag + seq!['>'];
    let text = render_all(elements) + seq!['<', '/'] + tag + seq!['>'];
    assert(text =~= render_all(elements) + closing);
    if elements.len() == 0 {
        assert(text =~= closing);
        assert forall|i: int| 0 <= i < closing.len() implies s[pos + i] == closing[i] by {
            lemma_holds_char(s, pos, closing, i);
        }
        assert(s[pos] == '<') by {
            assert(closing[0] == '<');
        }
        assert(s[pos + 1] == '/') by {
            assert(closing[1] == '/');
        }
        let named = pos + 2 + tag.len();
        assert(s[named] == '>') by {
            assert(closing[named - pos] == '>');
        }
        assert forall|i: int| pos + 2 <= i < named implies is_name_char(#[trigger] s[i]) by {
            assert(closing[i - pos] == tag[i - pos - 2]);
        }
        lemma_no_blank(s, pos);
        assert(holds_at(s, pos, seq!['<', '/'])) by {
            assert(s.subrange(pos, pos + 2) =~= seq!['<', '/']);
        }
        lemma_name_end(s, pos + 2, tag.len() as int);
        assert(s.subrange(pos + 2, named) =~= tag) by {
            assert forall|i: int| 0 <= i < tag.len() implies s[pos + 2 + i] == tag[i] by {
                assert(closing[2 + i] == tag[i]);
            }
        }
        assert(skip_spaces(s, named) == named);
        assert(elements =~= Seq::<ElementView>::empty());
    } else {
        let first = elements[0];
        let rest = elements.drop_first();
        let after = render_all(rest) + seq!['<', '/'] + tag + seq!['>'];
        assert(text =~= render(first) + after);
        lemma_holds_both(s, pos, render(first), after);
        assert(printable(first));
        let opening = seq!['<'] + first.tag;
        assert(render(first) =~= opening + (render_attributes(first.attributes) + if first.children.len()
            == 0 {
            seq!['/', '>']
        } else {
            seq!['>'] + render_all(first.children) + seq!['<', '/'] + first.tag + seq!['>']
        }));
        lemma_holds_both(
            s,
            pos,
            opening,
            render_attributes(first.attributes) + if first.children.len() == 0 {
                seq!['/', '>']
            } else {
                seq!['>'] + render_all(first.children) + seq!['<', '/'] + first.tag + seq!['>']
            },
        );
        assert(s[pos] == '<') by {
            lemma_holds_char(s, pos, opening, 0);
        }
        assert(s[pos + 1] == first.tag[0]) by {
            lemma_holds_char(s, pos, opening, 1);
        }
        lemma_no_blank(s, pos);
        assert(!holds_at(s, pos, seq!['<', '/'])) by {
            if holds_at(s, pos, seq!['<', '/']) {
                assert(s.subrange(pos, pos + 2)[1] == '/');
            }
        }
        lemma_read_element(s, pos, first);
        let next = pos + render(first).len();
        assert forall|i: int| 0 <= i < rest.len() implies printable(#[trigger] rest[i]) by {
            assert(rest[i] == elements[i + 1]);
        }
        lemma_read_content(s, next, tag, rest);
        assert(seq![first] + rest =~= elements);
        assert(render_all(elements).len() == render(first).len() + render_all(rest).len());
    }
}

/// The text of an element starts with `<` and the first character of its
/// tag.
pub proof fn lemma_render_opening(element: ElementView)
    requires
        element.tag.len() > 0,
    ensures
        render(element).len() >= 2,
        render(element)[0] == '<',
        render(element)[1] == element.tag[0],
{
    let head = seq!['<'] + element.tag;
    let middle = head + render_attributes(element.attributes);
    assert(head[0] == '<');
    assert(head[1] == element.tag[0]);
    assert(middle[0] == head[0]);
    assert(middle[1] == head[1]);
}

/// Reading what was written gives the description back: the text of an
/// element that can be written denotes that element.
pub proof fn lemma_description_round_trip(element: ElementView)
    requires
        printable(element),
    ensures
        parse_text(render(element)) == Ok::<ElementView, ParseError>(element),
{
    let s = render(element);
    lemma_render_opening(element);
    assert(holds_at(s, 0, s)) by {
        assert(s.subrange(0, s.len() as int) =~= s);
    }
    lemma_no_blank(s, 0);
    lemma_read_element(s, 0, element);
    assert(skip_spaces(s, s.len() as int) == s.len());
    assert(skip_blank(s, s.len() as int) == s.len()) by {
        assert(!holds_at(s, s.len() as int, seq!['<', '!', '-', '-']));
        assert(!holds_at(s, s.len() as int, seq!['<', '?']));
    }
}

/// Appends the attributes of `element` as text.
fn write_attributes(element: &Element, out: &mut String)
    ensures
        final(out)@ == old(out)@ + render_attributes(element@.attributes),
{
    let n = element.attribute_count();
    let ghost all = element@.attributes;
    let mut i: usize = 0;
    let ghost start = out@;
    assert(all.skip(0) =~= all);
    assert(start + render_attributes(all) =~= out@ + render_attributes(all.skip(0)));
    while i < n
        invariant
            i <= n,
            n == all.len(),
            all == element@.attributes,
            start + render_attributes(all) == out@ + render_attributes(all.skip(i as int)),
        decreases n - i,
    {
        let (name, value) = element.attribute_at(i);
        let ghost before = out@;
        let ghost rest = all.skip(i as int);
        proof {
            assert(rest[0] == all[i as int]);
            assert(rest.drop_first() =~= all.skip(i + 1));
        }
        out.push(' ');
        out.push_str(name);
        out.push('=');
        out.push('"');
        out.push_str(value);
        out.push('"');
        proof {
            let head = seq![' '] + name@ + seq!['=', '"'] + value@ + seq!['"'];
            assert(out@ =~= before + head);
            assert(before + render_attributes(rest) =~= (before + head) + render_attributes(
                all.skip(i + 1),
            ));
        }
        i += 1;
    }
    assert(render_attributes(all.skip(n as int)) =~= Seq::<char>::empty());
    assert(out@ =~= start + render_attributes(all));
}

/// Appends the element as text.
pub fn write_element(element: &Element, out: &mut String)
    ensures
        final(out)@ == old(out)@ + render(element@),
    decreases weight(element@),
{
    let ghost start = out@;
    out.push('<');
    out.push_str(element.tag());
    write_attributes(element, out);
    let n = element.child_count();
    if n == 0 {
        out.push('/');
        out.push('>');
        assert(out@ =~= start + render(element@));
    } else {
        out.push('>');
        let ghost opened = out@;
        let ghost children = element@.children;
        let mut i: usize = 0;
        assert(children.skip(0) =~= children);
        assert(opened + render_all(children) =~= out@ + render_all(children.skip(0)));
        while i < n
            invariant
                i <= n,
                n == children.len(),
                children == element@.children,
                opened + render_all(children) == out@ + render_all(children.skip(i as int)),
            decreases n - i,
        {
            let ghost before = out@;
            let ghost rest = children.skip(i as int);
            proof {
                assert(rest[0] == children[i as int]);
                assert(rest.drop_first() =~= children.skip(i + 1));
                lemma_weights_index(children, i as int);
            }
            write_element(element.child(i), out);
            proof {
                assert(before + render_all(rest) =~= (before + render(children[i as int]))
                    + render_all(children.skip(i + 1)));
            }
            i += 1;
        }
        assert(render_all(children.skip(n as int)) =~= Seq::<char>::empty());
        assert(out@ =~= opened + render_all(children));
        out.push('<');
        out.push('/');
        out.push_str(element.tag());
        out.push('>');
        assert(out@ =~= start + render(element@));
    }
}

/// The element as text.
pub fn element_to_text(element: &Element) -> (r: String)
    ensures
        r@ == render(element@),
{
    let mut out = String::new();
    write_element(element, &mut out);
    assert(out@ =~= render(element@));
    out
}

} // verus!
