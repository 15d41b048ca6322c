//! Tree descriptions: the elements that a description is made of, the text
//! form that they are read from, and the shape that a document of trees has.
//!
//! The text form is a small part of XML: elements with attributes, between a
//! start tag and an end tag or in a tag that closes itself; comments and
//! processing instructions, which are passed over; no text between elements,
//! and no character references.
use vstd::prelude::*;
use crate::text::{chars_of, string_of, text_eq};

verus! {

/// Why a text is no tree description.
#[derive(Debug, Clone, Copy, PartialEq, Eq, Structural)]
pub enum ParseError {
    /// The text ends inside an element.
    UnexpectedEnd,
    /// Something else stands where an element must start.
    ExpectedElement,
    /// A tag or an attribute has no name.
    InvalidName,
    /// An attribute's name is not followed by `=`.
    ExpectedEquals,
    /// An attribute's value does not start with a quote.
    ExpectedQuote,
    /// An attribute's value has no closing quote.
    UnterminatedValue,
    /// A tag does not end in `>` or `/>`.
    ExpectedTagEnd,
    /// An end tag does not name the element that is open.
    MismatchedEndTag,
    /// Something follows the outermost element.
    TrailingContent,
    /// The outermost element is not `root`.
    MissingRoot,
    /// An element under `root` is not `BehaviorTree`.
    UnexpectedElement,
    /// A `BehaviorTree` has no `ID`.
    MissingTreeId,
    /// A `BehaviorTree` does not hold exactly one element.
    InvalidTreeBody,
    /// Two trees have the same `ID`.
    DuplicateTreeId,
}

/// An element of a description, with the elements inside it.
#[derive(Debug)]
pub struct Element {
    tag: String,
    attributes: Vec<(String, String)>,
    children: Vec<Element>,
}

/// The model of an [`Element`].
pub struct ElementView {
    pub tag: Seq<char>,
    pub attributes: Seq<(Seq<char>, Seq<char>)>,
    pub children: Seq<ElementView>,
}

/// The model of a list of attributes.
pub open spec fn attributes_view(attributes: Seq<(String, String)>) -> Seq<(Seq<char>, Seq<char>)> {
    Seq::new(attributes.len(), |i: int| (attributes[i].0@, attributes[i].1@))
}

/// The model of an element.
pub closed spec fn element_view(element: Element) -> ElementView
    decreases element,
{
    ElementView {
        tag: element.tag@,
        attributes: attributes_view(element.attributes@),
        children: element_views(element.children@),
    }
}

/// The models of the elements of a list.
pub closed spec fn element_views(elements: Seq<Element>) -> Seq<ElementView>
    decreases elements,
{
    if elements.len() == 0 {
        Seq::empty()
    } else {
        element_views(elements.drop_last()).push(element_view(elements.last()))
    }
}

/// The model of a list holds the model of each element at its place.
pub proof fn lemma_element_views(elements: Seq<Element>)
    ensures
        element_views(elements).len() == elements.len(),
        forall|i: int|
            0 <= i < elements.len() ==> (#[trigger] element_views(elements)[i]) == element_view(
                elements[i],
            ),
    decreases elements.len(),
{
    if elements.len() > 0 {
        lemma_element_views(elements.drop_last());
    }
}

impl View for Element {
    type V = ElementView;

    open spec fn view(&self) -> ElementView {
        element_view(*self)
    }
}

/// How many elements an element is made of.
pub open spec fn weight(element: ElementView) -> nat
    decreases element,
{
    1 + weights(element.children)
}

/// How many elements the elements of a list are made of.
pub open spec fn weights(elements: Seq<ElementView>) -> nat
    decreases elements,
{
    if elements.len() == 0 {
        0
    } else {
        weights(elements.drop_last()) + weight(elements.last())
    }
}

pub proof fn lemma_weights_index(elements: Seq<ElementView>, at: int)
    requires
        0 <= at < elements.len(),
    ensures
        weight(elements[at]) <= weights(elements),
    decreases elements.len(),
{
    if at < elements.len() - 1 {
        lemma_weights_index(elements.drop_last(), at);
    }
}

/// The value of the first attribute named `name`.
pub open spec fn attribute_value(attributes: Seq<(Seq<char>, Seq<char>)>, name: Seq<char>) -> Option<
    Seq<char>,
>
    decreases attributes.len(),
{
    if attributes.len() == 0 {
        None
    } else if attributes[0].0 == name {
        Some(attributes[0].1)
    } else {
        attribute_value(attributes.drop_first(), name)
    }
}

impl Element {
    /// An element without attributes and children.
    pub fn new(tag: &str) -> (r: Element)
        ensures
            r@ == (ElementView { tag: tag@, attributes: Seq::empty(), children: Seq::empty() }),
    {
        let r = Element { tag: tag.to_owned(), attributes: Vec::new(), children: Vec::new() };
        assert(attributes_view(r.attributes@) =~= Seq::empty());
        r
    }

    /// The same element with one more attribute.
    pub fn with_attribute(self, name: &str, value: &str) -> (r: Element)
        ensures
            r@ == (ElementView { attributes: self@.attributes.push((name@, value@)), ..self@ }),
    {
        let mut element = self;
        element.attributes.push((name.to_owned(), value.to_owned()));
        assert(attributes_view(element.attributes@) =~= attributes_view(self.attributes@).push(
            (name@, value@),
        ));
        element
    }

    /// The same element with one more child.
    pub fn with_child(self, child: Element) -> (r: Element)
        ensures
            r@ == (ElementView { children: self@.children.push(child@), ..self@ }),
    {
        let mut element = self;
        element.children.push(child);
        assert(element.children@.drop_last() =~= self.children@);
        element
    }

    pub fn tag(&self) -> (r: &str)
        ensures
            r@ == self@.tag,
    {
        self.tag.as_str()
    }

    pub fn attribute_count(&self) -> (r: usize)
        ensures
            r == self@.attributes.len(),
    {
        self.attributes.len()
    }

    /// The name and the value of the attribute at `at`.
    pub fn attribute_at(&self, at: usize) -> (r: (&str, &str))
        requires
            at < self@.attributes.len(),
        ensures
            r.0@ == self@.attributes[at as int].0,
            r.1@ == self@.attributes[at as int].1,
    {
        (self.attributes[at].0.as_str(), self.attributes[at].1.as_str())
    }

    /// The value of the first attribute named `name`.
    pub fn attribute(&self, name: &str) -> (r: Option<&str>)
        ensures
            match r {
                Some(v) => attribute_value(self@.attributes, name@) == Some(v@),
                None => attribute_value(self@.attributes, name@) is None,
            },
    {
        let ghost all = self@.attributes;
        let mut i: usize = 0;
        assert(all.skip(0) =~= all);
        while i < self.attributes.len()
            invariant
                i <= self.attributes.len(),
                all == attributes_view(self.attributes@),
                attribute_value(all, name@) == attribute_value(all.skip(i as int), name@),
            decreases self.attributes.len() - i,
        {
            proof {
                assert(all.skip(i as int).drop_first() =~= all.skip(i + 1));
                assert(all.skip(i as int)[0] == all[i as int]);
            }
            if text_eq(self.attributes[i].0.as_str(), name) {
                return Some(self.attributes[i].1.as_str());
            }
            i += 1;
        }
        assert(all.skip(i as int).len() == 0);
        None
    }

    pub fn child_count(&self) -> (r: usize)
        ensures
            r == self@.children.len(),
    {
        proof {
            lemma_element_views(self.children@);
        }
        self.children.len()
    }

    /// The child at `at`.
    pub fn child(&self, at: usize) -> (r: &Element)
        requires
            at < self@.children.len(),
        ensures
            r@ == self@.children[at as int],
    {
        proof {
            lemma_element_views(self.children@);
        }
        &self.children[at]
    }
}

/// Whether `c` is a space, a tab or a line break.
pub open spec fn is_space(c: char) -> bool {
    c == ' ' || c == '\t' || c == '\n' || c == '\r'
}

/// Whether a name can start with `c`.
pub open spec fn is_name_start(c: char) -> bool {
    ('a' <= c && c <= 'z') || ('A' <= c && c <= 'Z') || c == '_'
}

/// Whether a name can hold `c`.
pub open spec fn is_name_char(c: char) -> bool {
    is_name_start(c) || ('0' <= c && c <= '9') || c == '-' || c == '.' || c == ':'
}

/// The first place from `pos` on that holds no space; the end of the
/// text if there is none.
pub open spec fn skip_spaces(s: Seq<char>, pos: int) -> int
    decreases s.len() - pos,
{
    if 0 <= pos < s.len() && is_space(s[pos]) {
        skip_spaces(s, pos + 1)
    } else {
        pos
    }
}

/// The first place from `pos` on that holds no character of a name.
pub open spec fn name_end(s: Seq<char>, pos: int) -> int
    decreases s.len() - pos,
{
    if 0 <= pos < s.len() && is_name_char(s[pos]) {
        name_end(s, pos + 1)
    } else {
        pos
    }
}

/// Whether `s` holds `pattern` at `pos`.
pub open spec fn holds_at(s: Seq<char>, pos: int, pattern: Seq<char>) -> bool {
    0 <= pos && pos + pattern.len() <= s.len() && s.subrange(pos, pos + pattern.len()) == pattern
}

/// The first place from `pos` on that holds `pattern`; the end of the
/// text if there is none.
pub open spec fn find_text(s: Seq<char>, pos: int, pattern: Seq<char>) -> int
    decreases s.len() - pos,
{
    if 0 <= pos < s.len() && !holds_at(s, pos, pattern) {
        find_text(s, pos + 1, pattern)
    } else {
        pos
    }
}

/// The first place from `pos` on at which something other than spaces,
/// comments and processing instructions starts.
pub open spec fn skip_blank(s: Seq<char>, pos: int) -> int
    decreases s.len() - pos,
{
    let p = skip_spaces(s, pos);
    if holds_at(s, p, seq!['<', '!', '-', '-']) {
        let q = find_text(s, p + 4, seq!['-', '-', '>']);
        if pos < q + 3 <= s.len() {
            skip_blank(s, q + 3)
        } else {
            p
        }
    } else if holds_at(s, p, seq!['<', '?']) {
        let q = find_text(s, p + 2, seq!['?', '>']);
        if pos < q + 2 <= s.len() {
            skip_blank(s, q + 2)
        } else {
            p
        }
    } else {
        p
    }
}

/// The attributes that stand at `pos`, and the place after them: each is
/// a name, `=` and a value between two quotes of the same kind, after at
/// least one space.
pub open spec fn parse_attributes(s: Seq<char>, pos: int) -> Result<
    (Seq<(Seq<char>, Seq<char>)>, int),
    ParseError,
>
    decreases s.len() - pos,
{
    let p = skip_spaces(s, pos);
    if pos < p < s.len() && is_name_start(s[p]) {
        let e = name_end(s, p);
        let q = skip_spaces(s, e);
        if !(0 <= q < s.len() && s[q] == '=') {
            Err(ParseError::ExpectedEquals)
        } else {
            let r = skip_spaces(s, q + 1);
            if !(0 <= r < s.len() && (s[r] == '"' || s[r] == '\'')) {
                Err(ParseError::ExpectedQuote)
            } else {
                let close = find_text(s, r + 1, seq![s[r]]);
                if !(pos < close < s.len()) {
                    Err(ParseError::UnterminatedValue)
                } else {
                    match parse_attributes(s, close + 1) {
                        Err(e) => Err(e),
                        Ok((rest, end)) => Ok(
                            (seq![(s.subrange(p, e), s.subrange(r + 1, close))] + rest, end),
                        ),
                    }
                }
            }
        }
    } else {
        Ok((Seq::empty(), p))
    }
}

/// The element that starts at `pos`, and the place after it.
pub open spec fn parse_element(s: Seq<char>, pos: int) -> Result<(ElementView, int), ParseError>
    decreases s.len() - pos, 0int,
{
    if !(0 <= pos < s.len()) {
        Err(ParseError::UnexpectedEnd)
    } else if s[pos] != '<' {
        Err(ParseError::ExpectedElement)
    } else if !(pos + 1 < s.len() && is_name_start(s[pos + 1])) {
        Err(ParseError::InvalidName)
    } else {
        let e = name_end(s, pos + 1);
        let tag = s.subrange(pos + 1, e);
        match parse_attributes(s, e) {
            Err(error) => Err(error),
            Ok((attributes, p)) => if holds_at(s, p, seq!['/', '>']) {
                Ok((ElementView { tag, attributes, children: Seq::empty() }, p + 2))
            } else if pos < p < s.len() && s[p] == '>' {
                match parse_content(s, p + 1, tag) {
                    Err(error) => Err(error),
                    Ok((children, end)) => Ok((ElementView { tag, attributes, children }, end)),
                }
            } else {
                Err(ParseError::ExpectedTagEnd)
            },
        }
    }
}

/// The elements that stand at `pos` inside an element `tag`, up to its
/// end tag, and the place after the end tag.
pub open spec fn parse_content(s: Seq<char>, pos: int, tag: Seq<char>) -> Result<
    (Seq<ElementView>, int),
    ParseError,
>
    decreases s.len() - pos, 1int,
{
    let p = skip_blank(s, pos);
    if !(0 <= pos <= p < s.len()) {
        Err(ParseError::UnexpectedEnd)
    } else if holds_at(s, p, seq!['<', '/']) {
        let e = name_end(s, p + 2);
        let q = skip_spaces(s, e);
        if s.subrange(p + 2, e) != tag {
            Err(ParseError::MismatchedEndTag)
        } else if !(0 <= q < s.len() && s[q] == '>') {
            Err(ParseError::ExpectedTagEnd)
        } else {
            Ok((Seq::empty(), q + 1))
        }
    } else {
        match parse_element(s, p) {
            Err(error) => Err(error),
            Ok((child, next)) => if p < next <= s.len() {
                match parse_content(s, next, tag) {
                    Err(error) => Err(error),
                    Ok((rest, end)) => Ok((seq![child] + rest, end)),
                }
            } else {
                Err(ParseError::UnexpectedEnd)
            },
        }
    }
}

/// The element that a text holds: one element, with nothing but spaces,
/// comments and processing instructions before and after it.
pub open spec fn parse_text(s: Seq<char>) -> Result<ElementView, ParseError> {
    match parse_element(s, skip_blank(s, 0)) {
        Err(error) => Err(error),
        Ok((element, end)) => if skip_blank(s, end) >= s.len() {
            Ok(element)
        } else {
            Err(ParseError::TrailingContent)
        },
    }
}

fn space(c: char) -> (r: bool)
    ensures
        r == is_space(c),
{
    c == ' ' || c == '\t' || c == '\n' || c == '\r'
}

fn name_start(c: char) -> (r: bool)
    ensures
        r == is_name_start(c),
{
    (c >= 'a' && c <= 'z') || (c >= 'A' && c <= 'Z') || c == '_'
}

fn name_char(c: char) -> (r: bool)
    ensures
        r == is_name_char(c),
{
    name_start(c) || (c >= '0' && c <= '9') || c == '-' || c == '.' || c == ':'
}

fn scan_spaces(chars: &Vec<char>, pos: usize) -> (r: usize)
    requires
        pos <= chars.len(),
    ensures
        r == skip_spaces(chars@, pos as int),
        pos <= r <= chars.len(),
{
    let mut i: usize = pos;
    while i < chars.len() && space(chars[i])
        invariant
            pos <= i <= chars.len(),
            skip_spaces(chars@, pos as int) == skip_spaces(chars@, i as int),
        decreases chars.len() - i,
    {
        i += 1;
    }
    i
}

fn scan_name(chars: &Vec<char>, pos: usize) -> (r: usize)
    requires
        pos <= chars.len(),
    ensures
        r == name_end(chars@, pos as int),
        pos <= r <= chars.len(),
{
    let mut i: usize = pos;
    while i < chars.len() && name_char(chars[i])
        invariant
            pos <= i <= chars.len(),
            name_end(chars@, pos as int) == name_end(chars@, i as int),
        decreases chars.len() - i,
    {
        i += 1;
    }
    i
}

fn holds(chars: &Vec<char>, pos: usize, pattern: &Vec<char>) -> (r: bool)
    requires
        pos <= chars.len(),
    ensures
        r == holds_at(chars@, pos as int, pattern@),
{
    let n = pattern.len();
    if n > chars.len() - pos {
        return false;
    }
    let mut i: usize = 0;
    while i < n
        invariant
            i <= n,
            n == pattern.len(),
            pos + n <= chars.len(),
            forall|j: int| 0 <= j < i ==> chars@[pos + j] == pattern@[j],
        decreases n - i,
    {
        if chars[pos + i] != pattern[i] {
            assert(chars@.subrange(pos as int, pos + n)[i as int] != pattern@[i as int]);
            return false;
        }
        i += 1;
    }
    assert(chars@.subrange(pos as int, pos + n) =~= pattern@);
    true
}

fn find(chars: &Vec<char>, pos: usize, pattern: &Vec<char>) -> (r: usize)
    requires
        pos <= chars.len(),
    ensures
        r == find_text(chars@, pos as int, pattern@),
        pos <= r <= chars.len(),
{
    let mut i: usize = pos;
    while i < chars.len() && !holds(chars, i, pattern)
        invariant
            pos <= i <= chars.len(),
            find_text(chars@, pos as int, pattern@) == find_text(chars@, i as int, pattern@),
        decreases chars.len() - i,
    {
        i += 1;
    }
    i
}

fn scan_blank(chars: &Vec<char>, pos: usize) -> (r: usize)
    requires
        pos <= chars.len(),
    ensures
        r == skip_blank(chars@, pos as int),
        pos <= r <= chars.len(),
{
    let n = chars.len();
    let mut at: usize = pos;
    loop
        invariant
            pos <= at <= n,
            n == chars.len(),
            skip_blank(chars@, pos as int) == skip_blank(chars@, at as int),
        decreases n - at,
    {
        let p = scan_spaces(chars, at);
        if holds(chars, p, &vec!['<', '!', '-', '-']) {
            let q = find(chars, p + 4, &vec!['-', '-', '>']);
            if n >= 3 && q <= n - 3 {
                at = q + 3;
            } else {
                return p;
            }
        } else if holds(chars, p, &vec!['<', '?']) {
            let q = find(chars, p + 2, &vec!['?', '>']);
            if n >= 2 && q <= n - 2 {
                at = q + 2;
            } else {
                return p;
            }
        } else {
            return p;
        }
    }
}

/// Prepends what was read before to what reading on gives.
pub open spec fn after<A>(front: Seq<A>, rest: Result<(Seq<A>, int), ParseError>) -> Result<
    (Seq<A>, int),
    ParseError,
> {
    match rest {
        Err(e) => Err(e),
        Ok((items, end)) => Ok((front + items, end)),
    }
}

fn read_attributes(chars: &Vec<char>, pos: usize) -> (r: Result<(Vec<(String, String)>, usize), ParseError>)
    requires
        pos <= chars.len(),
    ensures
        match r {
            Ok((attributes, end)) => parse_attributes(chars@, pos as int) == Ok::<
                (Seq<(Seq<char>, Seq<char>)>, int),
                ParseError,
            >((attributes_view(attributes@), end as int)) && pos <= end <= chars.len(),
            Err(e) => parse_attributes(chars@, pos as int) == Err::<
                (Seq<(Seq<char>, Seq<char>)>, int),
                ParseError,
            >(e),
        },
{
    let n = chars.len();
    let ghost s = chars@;
    let mut out: Vec<(String, String)> = Vec::new();
    let mut at: usize = pos;
    assert(attributes_view(out@) =~= Seq::empty());
    loop
        invariant
            pos <= at <= n,
            n == chars.len(),
            s == chars@,
            parse_attributes(s, pos as int) == after(attributes_view(out@), parse_attributes(s, at as int)),
        decreases n - at,
    {
        let ghost front = attributes_view(out@);
        let p = scan_spaces(chars, at);
        if !(at < p && p < n && name_start(chars[p])) {
            assert(front + Seq::<(Seq<char>, Seq<char>)>::empty() =~= front);
            return Ok((out, p));
        }
        let e = scan_name(chars, p);
        let q = scan_spaces(chars, e);
        if !(q < n && chars[q] == '=') {
            return Err(ParseError::ExpectedEquals);
        }
        let r = scan_spaces(chars, q + 1);
        if !(r < n && (chars[r] == '"' || chars[r] == '\'')) {
            return Err(ParseError::ExpectedQuote);
        }
        let quote = vec![chars[r]];
        assert(quote@ =~= seq![s[r as int]]);
        let close = find(chars, r + 1, &quote);
        if !(close < n) {
            return Err(ParseError::UnterminatedValue);
        }
        let name = string_of(chars, p, e);
        let value = string_of(chars, r + 1, close);
        out.push((name, value));
        proof {
            let item = (s.subrange(p as int, e as int), s.subrange(r + 1, close as int));
            assert(attributes_view(out@) =~= front.push(item));
            match parse_attributes(s, close + 1) {
                Ok((rest, end)) => {
                    assert(front + (seq![item] + rest) =~= front.push(item) + rest);
                },
                Err(_) => {},
            }
        }
        at = close + 1;
    }
}

fn read_element(chars: &Vec<char>, pos: usize) -> (r: Result<(Element, usize), ParseError>)
    requires
        pos <= chars.len(),
    ensures
        match r {
            Ok((element, end)) => parse_element(chars@, pos as int) == Ok::<
                (ElementView, int),
                ParseError,
            >((element@, end as int)) && pos < end <= chars.len(),
            Err(e) => parse_element(chars@, pos as int) == Err::<(ElementView, int), ParseError>(e),
        },
    decreases chars.len() - pos, 0int,
{
    let n = chars.len();
    if !(pos < n) {
        return Err(ParseError::UnexpectedEnd);
    }
    if chars[pos] != '<' {
        return Err(ParseError::ExpectedElement);
    }
    if !(pos + 1 < n && name_start(chars[pos + 1])) {
        return Err(ParseError::InvalidName);
    }
    let e = scan_name(chars, pos + 1);
    let tag = string_of(chars, pos + 1, e);
    let (attributes, p) = match read_attributes(chars, e) {
        Ok(found) => found,
        Err(error) => {
            return Err(error);
        },
    };
    if holds(chars, p, &vec!['/', '>']) {
        let element = Element { tag, attributes, children: Vec::new() };
        return Ok((element, p + 2));
    }
    if !(p < n && chars[p] == '>') {
        return Err(ParseError::ExpectedTagEnd);
    }
    match read_content(chars, p + 1, &tag) {
        Ok((children, end)) => {
            let element = Element { tag, attributes, children };
            Ok((element, end))
        },
        Err(error) => Err(error),
    }
}

fn read_content(chars: &Vec<char>, pos: usize, tag: &String) -> (r: Result<(Vec<Element>, usize), ParseError>)
    requires
        pos <= chars.len(),
    ensures
        match r {
            Ok((children, end)) => parse_content(chars@, pos as int, tag@) == Ok::<
                (Seq<ElementView>, int),
                ParseError,
            >((element_views(children@), end as int)) && pos < end <= chars.len(),
            Err(e) => parse_content(chars@, pos as int, tag@) == Err::<
                (Seq<ElementView>, int),
                ParseError,
            >(e),
        },
    decreases chars.len() - pos, 1int,
{
    let n = chars.len();
    let ghost s = chars@;
    let mut out: Vec<Element> = Vec::new();
    let mut at: usize = pos;
    loop
        invariant
            pos <= at <= n,
            n == chars.len(),
            s == chars@,
            out.len() > 0 ==> pos < at,
            parse_content(s, pos as int, tag@) == after(element_views(out@), parse_content(s, at as int, tag@)),
        decreases n - at,
    {
        let ghost front = element_views(out@);
        let p = scan_blank(chars, at);
        if !(p < n) {
            return Err(ParseError::UnexpectedEnd);
        }
        if holds(chars, p, &vec!['<', '/']) {
            let e = scan_name(chars, p + 2);
            let q = scan_spaces(chars, e);
            let name = string_of(chars, p + 2, e);
            if !text_eq(name.as_str(), tag.as_str()) {
                return Err(ParseError::MismatchedEndTag);
            }
            if !(q < n && chars[q] == '>') {
                return Err(ParseError::ExpectedTagEnd);
            }
            assert(front + Seq::<ElementView>::empty() =~= front);
            return Ok((out, q + 1));
        }
        match read_element(chars, p) {
            Err(error) => {
                return Err(error);
            },
            Ok((child, next)) => {
                let ghost child_view = child@;
                let ghost before_push = out@;
                out.push(child);
                proof {
                    assert(element_views(out@.drop_last()) == front) by {
                        assert(out@.drop_last() =~= before_push);
                    }
                    assert(element_views(out@) == front.push(child_view));
                    match parse_content(s, next as int, tag@) {
                        Ok((rest, end)) => {
                            assert(front + (seq![child_view] + rest) =~= front.push(child_view) + rest);
                        },
                        Err(_) => {},
                    }
                }
                at = next;
            },
        }
    }
}

/// Reads a text as one element.
pub fn parse_xml(text: &str) -> (r: Result<Element, ParseError>)
    ensures
        match r {
            Ok(element) => parse_text(text@) == Ok::<ElementView, ParseError>(element@),
            Err(e) => parse_text(text@) == Err::<ElementView, ParseError>(e),
        },
{
    let chars = chars_of(text);
    let start = scan_blank(&chars, 0);
    match read_element(&chars, start) {
        Err(error) => Err(error),
        Ok((element, end)) => {
            if scan_blank(&chars, end) >= chars.len() {
                Ok(element)
            } else {
                Err(ParseError::TrailingContent)
            }
        },
    }
}

/// A tree of a document: the element at its root, under the tree's name.
#[derive(Debug)]
pub struct TreeDefinition {
    id: String,
    root: Element,
}

/// The model of a [`TreeDefinition`].
pub struct TreeDefView {
    pub id: Seq<char>,
    pub root: ElementView,
}

impl View for TreeDefinition {
    type V = TreeDefView;

    closed spec fn view(&self) -> TreeDefView {
        TreeDefView { id: self.id@, root: self.root@ }
    }
}

impl TreeDefinition {
    pub fn new(id: &str, root: Element) -> (r: TreeDefinition)
        ensures
            r@ == (TreeDefView { id: id@, root: root@ }),
    {
        TreeDefinition { id: id.to_owned(), root }
    }

    pub fn id(&self) -> (r: &str)
        ensures
            r@ == self@.id,
    {
        self.id.as_str()
    }

    pub fn root(&self) -> (r: &Element)
        ensures
            r@ == self@.root,
    {
        &self.root
    }
}

/// The models of the trees of a list.
pub open spec fn trees_view(trees: Seq<TreeDefinition>) -> Seq<TreeDefView> {
    Seq::new(trees.len(), |i: int| trees[i]@)
}

/// Whether one of the trees is named `id`.
pub open spec fn has_tree(trees: Seq<TreeDefView>, id: Seq<char>) -> bool {
    exists|i: int| 0 <= i < trees.len() && (#[trigger] trees[i]).id == id
}

/// The tree that an element under `root` describes: a `BehaviorTree` with
/// an `ID`, around exactly one element.
pub open spec fn tree_of(element: ElementView) -> Result<TreeDefView, ParseError> {
    if element.tag != "BehaviorTree"@ {
        Err(ParseError::UnexpectedElement)
    } else {
        match attribute_value(element.attributes, "ID"@) {
            None => Err(ParseError::MissingTreeId),
            Some(id) => if element.children.len() != 1 {
                Err(ParseError::InvalidTreeBody)
            } else {
                Ok(TreeDefView { id, root: element.children[0] })
            },
        }
    }
}

/// The trees that a list of elements describes, in their order, or what is
/// wrong with the first element that is no tree or names a tree again.
pub open spec fn trees_of(elements: Seq<ElementView>) -> Result<Seq<TreeDefView>, ParseError>
    decreases elements.len(),
{
    if elements.len() == 0 {
        Ok(Seq::empty())
    } else {
        match trees_of(elements.drop_last()) {
            Err(e) => Err(e),
            Ok(front) => match tree_of(elements.last()) {
                Err(e) => Err(e),
                Ok(tree) => if has_tree(front, tree.id) {
                    Err(ParseError::DuplicateTreeId)
                } else {
                    Ok(front.push(tree))
                },
            },
        }
    }
}

/// The trees that a document with this outermost element describes.
pub open spec fn document_of(root: ElementView) -> Result<Seq<TreeDefView>, ParseError> {
    if root.tag != "root"@ {
        Err(ParseError::MissingRoot)
    } else {
        trees_of(root.children)
    }
}

/// The trees that a text describes.
pub open spec fn parse_document(text: Seq<char>) -> Result<Seq<TreeDefView>, ParseError> {
    match parse_text(text) {
        Err(e) => Err(e),
        Ok(root) => document_of(root),
    }
}

/// The place of the first tree named `id`.
pub open spec fn tree_index(trees: Seq<TreeDefView>, id: Seq<char>) -> Option<int>
    decreases trees.len(),
{
    if trees.len() == 0 {
        None
    } else if trees[0].id == id {
        Some(0)
    } else {
        match tree_index(trees.drop_first(), id) {
            Some(i) => Some(i + 1),
            None => None,
        }
    }
}

/// The first tree named `id` is a tree named `id`, and there is one
/// exactly when some tree is named `id`.
pub proof fn lemma_tree_index(trees: Seq<TreeDefView>, id: Seq<char>)
    ensures
        match tree_index(trees, id) {
            Some(i) => 0 <= i < trees.len() && trees[i].id == id,
            None => !has_tree(trees, id),
        },
    decreases trees.len(),
{
    if trees.len() > 0 && trees[0].id != id {
        let rest = trees.drop_first();
        lemma_tree_index(rest, id);
        if tree_index(rest, id) is None {
            assert forall|i: int| 0 <= i < trees.len() implies (#[trigger] trees[i]).id != id by {
                if i > 0 {
                    assert(rest[i - 1] == trees[i]);
                }
            }
        }
    }
}

/// The place of the first tree named `id`.
pub fn find_tree(trees: &Vec<TreeDefinition>, id: &str) -> (r: Option<usize>)
    ensures
        match r {
            Some(i) => tree_index(trees_view(trees@), id@) == Some(i as int) && i < trees.len(),
            None => tree_index(trees_view(trees@), id@) is None,
        },
{
    let ghost all = trees_view(trees@);
    let mut i: usize = 0;
    assert(all.skip(0) =~= all);
    while i < trees.len()
        invariant
            i <= trees.len(),
            all == trees_view(trees@),
            tree_index(all, id@) == match tree_index(all.skip(i as int), id@) {
                Some(k) => Some(k + i),
                None => None,
            },
        decreases trees.len() - i,
    {
        proof {
            assert(all.skip(i as int).drop_first() =~= all.skip(i + 1));
            assert(all.skip(i as int)[0] == all[i as int]);
        }
        if text_eq(trees[i].id(), id) {
            return Some(i);
        }
        i += 1;
    }
    assert(all.skip(i as int).len() == 0);
    None
}

/// A document: trees with distinct names.
#[derive(Debug)]
pub struct TreeDocument {
    trees: Vec<TreeDefinition>,
}

impl View for TreeDocument {
    type V = Seq<TreeDefView>;

    closed spec fn view(&self) -> Seq<TreeDefView> {
        trees_view(self.trees@)
    }
}

impl TreeDocument {
    /// The document that the outermost element of a description holds.
    pub fn from_element(root: Element) -> (r: Result<TreeDocument, ParseError>)
        ensures
            match r {
                Ok(document) => document_of(root@) == Ok::<Seq<TreeDefView>, ParseError>(document@),
                Err(e) => document_of(root@) == Err::<Seq<TreeDefView>, ParseError>(e),
            },
    {
        if !text_eq(root.tag.as_str(), "root") {
            return Err(ParseError::MissingRoot);
        }
        let ghost all = root@.children;
        let Element { tag, attributes, children } = root;
        let mut rest = children;
        let mut trees: Vec<TreeDefinition> = Vec::new();
        proof {
            lemma_element_views(rest@);
            assert(all.take(0) =~= Seq::<ElementView>::empty());
            assert(trees_view(trees@) =~= Seq::<TreeDefView>::empty());
        }
        while rest.len() > 0
            invariant
                rest.len() + trees.len() == all.len(),
                document_of(root@) == trees_of(all),
                element_views(rest@) == all.skip(trees.len() as int),
                trees_of(all.take(trees.len() as int)) == Ok::<Seq<TreeDefView>, ParseError>(
                    trees_view(trees@),
                ),
            decreases rest.len(),
        {
            let ghost k = trees.len() as int;
            let ghost before = rest@;
            let ghost done = trees_view(trees@);
            let element = rest.remove(0);
            proof {
                lemma_element_views(before);
                lemma_element_views(rest@);
                assert(element == before[0]);
                assert(element_views(before)[0] == element_view(before[0]));
                assert(all.skip(k)[0] == all[k]);
                assert(element@ == all[k]);
                assert forall|i: int| 0 <= i < rest@.len() implies element_views(rest@)[i] == all.skip(
                    k + 1,
                )[i] by {
                    assert(rest@[i] == before[i + 1]);
                    assert(element_views(before)[i + 1] == element_view(before[i + 1]));
                    assert(all.skip(k)[i + 1] == all[k + 1 + i]);
                }
                assert(element_views(rest@) =~= all.skip(k + 1));
                assert(all.take(k + 1).drop_last() =~= all.take(k));
                assert(all.take(k + 1).last() == all[k]);
            }
            if !text_eq(element.tag.as_str(), "BehaviorTree") {
                proof {
                    lemma_trees_of_error(all, k + 1);
                }
                return Err(ParseError::UnexpectedElement);
            }
            let id = match element.attribute("ID") {
                Some(id) => id.to_owned(),
                None => {
                    proof {
                        lemma_trees_of_error(all, k + 1);
                    }
                    return Err(ParseError::MissingTreeId);
                },
            };
            if element.children.len() != 1 {
                proof {
                    lemma_element_views(element.children@);
                    lemma_trees_of_error(all, k + 1);
                }
                return Err(ParseError::InvalidTreeBody);
            }
            if find_tree(&trees, id.as_str()).is_some() {
                proof {
                    lemma_tree_index(done, id@);
                    lemma_element_views(element.children@);
                    assert(has_tree(done, id@));
                    assert(tree_of(all[k]) is Ok);
                    assert(trees_of(all.take(k + 1)) == Err::<Seq<TreeDefView>, ParseError>(
                        ParseError::DuplicateTreeId,
                    ));
                    lemma_trees_of_error(all, k + 1);
                }
                return Err(ParseError::DuplicateTreeId);
            }
            proof {
                lemma_tree_index(done, id@);
                lemma_element_views(element.children@);
            }
            let Element { tag, attributes, children } = element;
            let mut inner = children;
            let root_element = inner.remove(0);
            trees.push(TreeDefinition { id, root: root_element });
            proof {
                assert(trees_view(trees@) =~= done.push(trees@.last()@));
            }
        }
        proof {
            assert(all.take(all.len() as int) =~= all);
        }
        Ok(TreeDocument { trees })
    }

    pub fn tree_count(&self) -> (r: usize)
        ensures
            r == self@.len(),
    {
        self.trees.len()
    }

    /// The tree at `at`.
    pub fn tree(&self, at: usize) -> (r: &TreeDefinition)
        requires
            at < self@.len(),
        ensures
            r@ == self@[at as int],
    {
        &self.trees[at]
    }

    /// The trees of the document.
    pub fn into_trees(self) -> (r: Vec<TreeDefinition>)
        ensures
            trees_view(r@) == self@,
    {
        self.trees
    }
}

/// What is wrong with the first elements of a list is wrong with the list.
pub proof fn lemma_trees_of_error(elements: Seq<ElementView>, k: int)
    requires
        0 <= k <= elements.len(),
        trees_of(elements.take(k)) is Err,
    ensures
        trees_of(elements) == trees_of(elements.take(k)),
    decreases elements.len() - k,
{
    if k == elements.len() {
        assert(elements.take(k) =~= elements);
    } else {
        assert(elements.drop_last().take(k) =~= elements.take(k));
        lemma_trees_of_error(elements.drop_last(), k);
    }
}

/// Reads a text as a document of trees. The names that the elements of
/// the trees refer to are not looked up here.
pub fn parse(text: &str) -> (r: Result<TreeDocument, ParseError>)
    ensures
        match r {
            Ok(document) => parse_document(text@) == Ok::<Seq<TreeDefView>, ParseError>(document@),
            Err(e) => parse_document(text@) == Err::<Seq<TreeDefView>, ParseError>(e),
        },
{
    match parse_xml(text) {
        Err(e) => Err(e),
        Ok(root) => TreeDocument::from_element(root),
    }
}

} // verus!
