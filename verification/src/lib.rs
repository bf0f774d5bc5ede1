//! A parsing library for [bbcode](https://en.wikipedia.org/wiki/BBCode)
//!
//! Unlike most bbcode "parser"s, this constructs a syntax tree that is
//! easy to transform to a custom representation or analyze for other
//! purposes. Its goal is primarily customizability of the output.
//!
//! Getting the syntax tree for textual bbcode is as easy as calling
//! `parse`:
//!
//! ```
//! use bbcode::{parse, DecorationStyle, Segment};
//!
//! static MESSAGE: &'static str =
//! r#"[quote="Batman"]I'm batman[/quote]
//! Isn't he [i]dreamy[/i]?"#;
//!
//! let ast = parse(MESSAGE);
//! assert_eq!(ast, vec![
//!     Segment::Quote {
//!         attribution: Some("Batman"),
//!         body: vec![Segment::Text("I'm batman")],
//!     },
//!     Segment::Text("\nIsn't he "),
//!     Segment::Decorated {
//!         style: DecorationStyle::Italic,
//!         text: vec![Segment::Text("dreamy")],
//!     },
//!     Segment::Text("?"),
//! ]);
//! ```
//!
//! Markup that is not well formed is no error: it is plain text.
//!
//! The tree borrows its text from the input. What the parser makes of an
//! input is said in [`grammar`], on the bytes of the input. What holds of
//! every input is proved in [`theorems`].

pub mod code;
pub mod decoration;
pub mod grammar;
pub mod list;
pub mod opening;
pub mod quote;
pub mod render;
pub mod scan;
pub mod spelling;
pub mod theorems;
pub mod url;
pub mod visible;

pub use decoration::DecorationStyle;
pub use list::ListStyle;

use grammar::{
    leads_any, spec_closed_body, spec_coded_segment, spec_image, spec_nodes_until, spec_parse,
    spec_segment, spec_simple_tag, spec_text_end, spec_text_segment, spec_text_stops, taken, Node,
};
use opening::lemma_no_stop_inside_character;
use scan::{
    all_ascii, byte_len, delimited_no_case, lemma_ascii_text, lemma_boundary_at,
    starts_with_no_case, strip_no_case, yields, NoMatch,
};
use vstd::prelude::*;
use vstd::string::StringSliceAdditionalSpecFns;
use vstd::utf8::{is_char_boundary, valid_utf8};

verus! {

/// Any logical segment of data- a tag or plain text.
#[allow(inconsistent_fields)]
#[derive(PartialEq, Eq, Debug, Hash)]
pub enum Segment<'a> {
    /// Unadorned text.
    Text(&'a str),
    /// A span of text with simple decoration.
    Decorated { style: DecorationStyle, text: Vec<Segment<'a>> },
    /// A blockquote with a body and optional attribution.
    Quote { attribution: Option<&'a str>, body: Vec<Segment<'a>> },
    /// A block of code, displayed verbatim.
    Code(&'a str),
    /// A list of items with a specified style.
    List { style: ListStyle, items: Vec<Vec<Segment<'a>>> },
    /// A hyperlink.
    Link {
        /// The target of the hyperlink (`href` attribute for HTML `a`).
        target: &'a str,
        text: Vec<Segment<'a>>,
    },
    /// A picture, displayed inline.
    Image { src: &'a str },
}

/// The bytes of an attribution, if there is one.
pub open spec fn attribution_bytes(attribution: Option<&str>) -> Option<Seq<u8>> {
    match attribution {
        Some(a) => Some(a.spec_bytes()),
        None => None,
    }
}

/// What a segment stands for.
pub open spec fn node_of(s: Segment<'_>) -> Node
    decreases s, 0int,
{
    match s {
        Segment::Text(t) => Node::Text(t.spec_bytes()),
        Segment::Decorated { style, text } => Node::Decorated { style, text: nodes_of(text@) },
        Segment::Quote { attribution, body } => Node::Quote {
            attribution: attribution_bytes(attribution),
            body: nodes_of(body@),
        },
        Segment::Code(t) => Node::Code(t.spec_bytes()),
        Segment::List { style, items } => Node::List {
            style,
            items: items_of(items@),
        },
        Segment::Link { target, text } => Node::Link {
            target: target.spec_bytes(),
            text: nodes_of(text@),
        },
        Segment::Image { src } => Node::Image { src: src.spec_bytes() },
    }
}

/// What a sequence of segments stands for.
pub open spec fn nodes_of(v: Seq<Segment<'_>>) -> Seq<Node>
    decreases v, 1int,
{
    Seq::new(
        v.len(),
        |i: int|
            if 0 <= i < v.len() {
                node_of(v[i])
            } else {
                Node::Text(seq![])
            },
    )
}

/// What the items of a list stand for.
pub open spec fn items_of(items: Seq<Vec<Segment<'_>>>) -> Seq<Seq<Node>>
    decreases items, 2int,
{
    Seq::new(
        items.len(),
        |i: int|
            if 0 <= i < items.len() {
                nodes_of(items[i]@)
            } else {
                seq![]
            },
    )
}

impl<'a> View for Segment<'a> {
    type V = Node;

    open spec fn view(&self) -> Node {
        node_of(*self)
    }
}

impl<'a> Clone for Segment<'a> {
    fn clone(&self) -> (copy: Self)
        ensures
            copy@ == self@,
    {
        duplicate(self)
    }
}

/// A copy of `segment`. The text in it is not copied: the copy borrows the
/// same input.
pub fn duplicate<'a>(segment: &Segment<'a>) -> (copy: Segment<'a>)
    ensures
        copy@ == segment@,
    decreases segment,
{
    match segment {
        Segment::Text(t) => Segment::Text(*t),
        Segment::Decorated { style, text } => Segment::Decorated {
            style: *style,
            text: duplicate_all(text),
        },
        Segment::Quote { attribution, body } => Segment::Quote {
            attribution: *attribution,
            body: duplicate_all(body),
        },
        Segment::Code(t) => Segment::Code(*t),
        Segment::List { style, items } => Segment::List {
            style: *style,
            items: duplicate_items(items),
        },
        Segment::Link { target, text } => Segment::Link {
            target: *target,
            text: duplicate_all(text),
        },
        Segment::Image { src } => Segment::Image { src: *src },
    }
}

/// Copies of `segments`, in order.
pub fn duplicate_all<'a>(segments: &Vec<Segment<'a>>) -> (copies: Vec<Segment<'a>>)
    ensures
        nodes_of(copies@) == nodes_of(segments@),
    decreases segments,
{
    let mut copies: Vec<Segment<'a>> = Vec::new();
    let mut i: usize = 0;
    while i < segments.len()
        invariant
            i <= segments.len(),
            copies.len() == i,
            forall|j: int| 0 <= j < i ==> copies@[j]@ == segments@[j]@,
        decreases segments.len() - i,
    {
        copies.push(duplicate(&segments[i]));
        i += 1;
    }
    assert(nodes_of(copies@) =~= nodes_of(segments@));
    copies
}

/// Copies of the items of a list, in order.
pub fn duplicate_items<'a>(items: &Vec<Vec<Segment<'a>>>) -> (copies: Vec<Vec<Segment<'a>>>)
    ensures
        items_of(copies@) == items_of(items@),
    decreases items,
{
    let mut copies: Vec<Vec<Segment<'a>>> = Vec::new();
    let mut i: usize = 0;
    while i < items.len()
        invariant
            i <= items.len(),
            copies.len() == i,
            forall|j: int| 0 <= j < i ==> nodes_of(copies@[j]@) == nodes_of(items@[j]@),
        decreases items.len() - i,
    {
        copies.push(duplicate_all(&items[i]));
        i += 1;
    }
    assert(items_of(copies@) =~= items_of(items@));
    copies
}

/// Pushing a segment adds what it stands for.
pub proof fn lemma_nodes_of_push(v: Seq<Segment<'_>>, s: Segment<'_>)
    ensures
        nodes_of(v.push(s)) == nodes_of(v).push(node_of(s)),
{
    assert(nodes_of(v.push(s)) =~= nodes_of(v).push(node_of(s)));
}

/// Strings that can mark the end of a segment.
///
/// `text_segment` (and thus also `segment`) asks one where a piece of plain
/// text ends when it stands inside a tag.
///
/// When none is required, pass `()`, which never matches.
pub trait Terminal {
    /// The strings, each of which ends a text where it stands.
    spec fn literals(&self) -> Seq<Seq<u8>>;

    /// Each of them is text.
    proof fn literals_are_text(&self)
        ensures
            forall|i: int|
                0 <= i < self.literals().len() ==> valid_utf8(#[trigger] self.literals()[i]),
    ;

    /// Whether `s` begins with one of the strings, ASCII case ignored.
    fn leads(&self, s: &str) -> (b: bool)
        ensures
            b == leads_any(self.literals(), s.spec_bytes()),
    ;
}

/// Never matches the input; appropriate for unbounded segments.
impl Terminal for () {
    open spec fn literals(&self) -> Seq<Seq<u8>> {
        seq![]
    }

    proof fn literals_are_text(&self) {
    }

    fn leads(&self, _s: &str) -> (b: bool) {
        proof {
            reveal(leads_any);
        }
        false
    }
}

/// Simple leading substring match, case-insensitive ASCII-only.
impl<'b> Terminal for &'b str {
    open spec fn literals(&self) -> Seq<Seq<u8>> {
        seq![self.spec_bytes()]
    }

    proof fn literals_are_text(&self) {
        broadcast use vstd::utf8::encode_utf8_valid_utf8;

    }

    fn leads(&self, s: &str) -> (b: bool) {
        let b = starts_with_no_case(s, self);
        proof {
            reveal(leads_any);
            let terms = self.literals();
            assert(terms[0] == self.spec_bytes());
        }
        b
    }
}

/// Leading substring match for any item.
impl<'b, 'c> Terminal for &'b [&'c str; 2] {
    open spec fn literals(&self) -> Seq<Seq<u8>> {
        seq![self@[0].spec_bytes(), self@[1].spec_bytes()]
    }

    proof fn literals_are_text(&self) {
        broadcast use vstd::utf8::encode_utf8_valid_utf8;

    }

    fn leads(&self, s: &str) -> (b: bool) {
        let b = starts_with_no_case(s, self[0]) || starts_with_no_case(s, self[1]);
        proof {
            reveal(leads_any);
            let terms = self.literals();
            assert(terms[0] == self@[0].spec_bytes());
            assert(terms[1] == self@[1].spec_bytes());
        }
        b
    }
}

/// Splits `input` at offset `k`, which lies between two characters.
pub(crate) fn split<'a>(input: &'a str, k: usize) -> (r: (&'a str, &'a str))
    requires
        is_char_boundary(input.spec_bytes(), k as int),
        k <= input.spec_bytes().len(),
    ensures
        r.0.spec_bytes() == input.spec_bytes().subrange(0, k as int),
        r.1.spec_bytes() == input.spec_bytes().skip(k as int),
{
    input.split_at(k)
}

/// Whether plain text has to end before `rest`.
pub fn text_stops<T: Terminal>(rest: &str, terminal: &T) -> (r: bool)
    ensures
        r == spec_text_stops(rest.spec_bytes(), terminal.literals()),
    decreases rest.spec_bytes().len(), 19int, 0int,
{
    terminal.leads(rest) || coded_segment(rest).is_ok()
}

/// Matches any nonzero amount of input that is not a coded segment.
///
/// Terminates at end of input or if the provided terminal is found, but does
/// not consume the terminal.
pub fn text_segment<'a, T: Terminal>(input: &'a str, terminal: T) -> (r: Result<
    (&'a str, &'a str),
    NoMatch,
>)
    ensures
        r matches Ok((rest, text)) ==> yields(
            input,
            rest,
            text.spec_bytes(),
            spec_text_segment(input.spec_bytes(), terminal.literals()),
        ),
        r is Err ==> spec_text_segment(input.spec_bytes(), terminal.literals()) is None,
    decreases input.spec_bytes().len(), 17int, 0int,
{
    let len = byte_len(input);
    if len == 0 || terminal.leads(input) {
        return Err(NoMatch);
    }
    let ghost b = input.spec_bytes();
    let ghost terms = terminal.literals();
    // Every tag was already tried on the first character, so the search for
    // the end starts after it.
    let mut k: usize = 1;
    while k < len
        invariant
            1 <= k <= len,
            len == b.len(),
            b == input.spec_bytes(),
            terms == terminal.literals(),
            !leads_any(terms, b),
            spec_text_end(b, terms, 1) == spec_text_end(b, terms, k as int),
        decreases len - k,
    {
        if input.is_char_boundary(k) {
            let (text, rest) = split(input, k);
            if text_stops(rest, &terminal) {
                return Ok((rest, text));
            }
        } else {
            proof {
                broadcast use vstd::utf8::encode_utf8_valid_utf8;

                terminal.literals_are_text();
                lemma_no_stop_inside_character(b, terms, k as int);
            }
        }
        k += 1;
    }
    proof {
        broadcast use vstd::utf8::encode_utf8_valid_utf8;

        lemma_boundary_at(b, len as int);
        assert(b.subrange(0, len as int) =~= b);
    }
    let (text, rest) = split(input, len);
    Ok((rest, text))
}

/// Recognizes one segment: a coded segment if one stands at the front of
/// the input, otherwise plain text up to `terminal`.
pub fn segment<'a, T: Terminal>(input: &'a str, terminal: T) -> (r: Result<
    (&'a str, Segment<'a>),
    NoMatch,
>)
    ensures
        r matches Ok((rest, segment)) ==> yields(
            input,
            rest,
            segment@,
            spec_segment(input.spec_bytes(), terminal.literals()),
        ),
        r is Err ==> spec_segment(input.spec_bytes(), terminal.literals()) is None,
    decreases input.spec_bytes().len(), 19int, 0int,
{
    match coded_segment(input) {
        Ok(found) => Ok(found),
        Err(_) => match text_segment(input, terminal) {
            Ok((rest, text)) => Ok((rest, Segment::Text(text))),
            Err(e) => Err(e),
        },
    }
}

/// Recognizes any tag with its body.
pub fn coded_segment<'a>(input: &'a str) -> (r: Result<(&'a str, Segment<'a>), NoMatch>)
    ensures
        r matches Ok((rest, segment)) ==> yields(
            input,
            rest,
            segment@,
            spec_coded_segment(input.spec_bytes()),
        ),
        r is Err ==> spec_coded_segment(input.spec_bytes()) is None,
    decreases input.spec_bytes().len(), 18int, 0int,
{
    if let Ok(found) = decoration::decorated(input) {
        return Ok(found);
    }
    if let Ok(found) = code::code(input) {
        return Ok(found);
    }
    if let Ok(found) = image(input) {
        return Ok(found);
    }
    if let Ok(found) = list::list(input) {
        return Ok(found);
    }
    if let Ok(found) = quote::quote(input) {
        return Ok(found);
    }
    url::url(input)
}

/// Recognizes `[img]source[/img]`.
pub fn image<'a>(input: &'a str) -> (r: Result<(&'a str, Segment<'a>), NoMatch>)
    ensures
        r matches Ok((rest, segment)) ==> yields(
            input,
            rest,
            segment@,
            spec_image(input.spec_bytes()),
        ),
        r is Err ==> spec_image(input.spec_bytes()) is None,
{
    proof {
        reveal_strlit("[img]");
        reveal_strlit("[/img]");
        lemma_ascii_text("[img]");
        lemma_ascii_text("[/img]");
    }
    match delimited_no_case(input, "[img]", "[/img]") {
        Ok((rest, src)) => Ok((rest, Segment::Image { src })),
        Err(e) => Err(e),
    }
}

/// Recognizes segments until none begins: where `terminal` stands, or at the
/// end of the input. Returns what is left and the segments.
pub fn segments_until<'a, T: Terminal + Copy>(input: &'a str, terminal: T) -> (r: (
    &'a str,
    Vec<Segment<'a>>,
))
    ensures
        nodes_of(r.1@) == spec_nodes_until(input.spec_bytes(), terminal.literals()).0,
        0 <= spec_nodes_until(input.spec_bytes(), terminal.literals()).1
            <= input.spec_bytes().len(),
        r.0.spec_bytes() == input.spec_bytes().skip(
            spec_nodes_until(input.spec_bytes(), terminal.literals()).1,
        ),
    decreases input.spec_bytes().len(), 20int, 0int,
{
    let ghost b = input.spec_bytes();
    let ghost terms = terminal.literals();
    let mut out: Vec<Segment<'a>> = Vec::new();
    let mut cur: &'a str = input;
    let ghost mut done: int = 0;
    proof {
        assert(b.skip(0) =~= b);
        assert(nodes_of(out@) =~= Seq::<Node>::empty());
        assert(nodes_of(out@) + spec_nodes_until(b, terms).0 =~= spec_nodes_until(b, terms).0);
    }
    loop
        invariant
            b == input.spec_bytes(),
            terms == terminal.literals(),
            0 <= done <= b.len(),
            cur.spec_bytes() == b.skip(done),
            spec_nodes_until(b, terms).0 == nodes_of(out@) + spec_nodes_until(
                cur.spec_bytes(),
                terms,
            ).0,
            spec_nodes_until(b, terms).1 == done + spec_nodes_until(cur.spec_bytes(), terms).1,
        decreases cur.spec_bytes().len(),
    {
        match segment(cur, terminal) {
            Ok((rest, found)) => {
                proof {
                    let c = cur.spec_bytes();
                    let n = taken(spec_segment(c, terms));
                    let tail = spec_nodes_until(rest.spec_bytes(), terms);
                    assert(spec_nodes_until(c, terms) == (seq![found@] + tail.0, n + tail.1));
                    lemma_nodes_of_push(out@, found);
                    assert(nodes_of(out@) + (seq![found@] + tail.0) =~= nodes_of(out@).push(
                        found@,
                    ) + tail.0);
                    assert(rest.spec_bytes() =~= b.skip(done + n));
                    done = done + n;
                }
                out.push(found);
                cur = rest;
            },
            Err(_) => {
                proof {
                    assert(nodes_of(out@) + Seq::<Node>::empty() =~= nodes_of(out@));
                }
                return (cur, out);
            },
        }
    }
}

/// Recognizes a body and the closing tag that ends it.
pub(crate) fn closed_body<'a>(input: &'a str, close: &str) -> (r: Result<
    (&'a str, Vec<Segment<'a>>),
    NoMatch,
>)
    requires
        all_ascii(close.spec_bytes()),
    ensures
        r matches Ok((rest, body)) ==> spec_closed_body(input.spec_bytes(), close.spec_bytes())
            matches Some((nodes, n)) && nodes_of(body@) == nodes && 0 <= n
            <= input.spec_bytes().len() && rest.spec_bytes() == input.spec_bytes().skip(n),
        r is Err ==> spec_closed_body(input.spec_bytes(), close.spec_bytes()) is None,
    decreases input.spec_bytes().len(), 21int, 0int,
{
    let (after, body) = segments_until(input, close);
    match strip_no_case(after, close) {
        Some(rest) => {
            proof {
                let m = spec_nodes_until(input.spec_bytes(), seq![close.spec_bytes()]).1;
                assert(rest.spec_bytes() =~= input.spec_bytes().skip(
                    m + close.spec_bytes().len(),
                ));
            }
            Ok((rest, body))
        },
        None => Err(NoMatch),
    }
}

/// Recognizes an opening tag, a body and the closing tag.
pub(crate) fn simple_tag<'a>(input: &'a str, open: &str, close: &str) -> (r: Result<
    (&'a str, Vec<Segment<'a>>),
    NoMatch,
>)
    requires
        all_ascii(open.spec_bytes()),
        all_ascii(close.spec_bytes()),
        open.spec_bytes().len() > 0,
    ensures
        r matches Ok((rest, body)) ==> yields(
            input,
            rest,
            nodes_of(body@),
            spec_simple_tag(input.spec_bytes(), open.spec_bytes(), close.spec_bytes()),
        ),
        r is Err ==> spec_simple_tag(input.spec_bytes(), open.spec_bytes(), close.spec_bytes())
            is None,
    decreases input.spec_bytes().len(), 15int, 0int,
{
    let after = match strip_no_case(input, open) {
        Some(after) => after,
        None => { return Err(NoMatch); },
    };
    match closed_body(after, close) {
        Ok((rest, body)) => {
            proof {
                let n = open.spec_bytes().len() as int;
                let m = taken(spec_closed_body(after.spec_bytes(), close.spec_bytes()));
                assert(rest.spec_bytes() =~= input.spec_bytes().skip(n + m));
            }
            Ok((rest, body))
        },
        Err(e) => Err(e),
    }
}

/// Every text has a first segment: where no tag stands, the first character
/// is plain text.
pub proof fn lemma_segment_total(input: Seq<u8>)
    requires
        input.len() > 0,
    ensures
        spec_segment(input, seq![]) is Some,
{
    reveal(leads_any);
    let none: Seq<Seq<u8>> = seq![];
    assert(!leads_any(none, input));
}

/// Parse a string into a sequence of `Segment`s.
///
/// Every text has segments: what is no tag, or a tag that is not closed, is
/// plain text.
pub fn parse<'a>(s: &'a str) -> (segments: Vec<Segment<'a>>)
    ensures
        nodes_of(segments@) == spec_parse(s.spec_bytes()),
        visible::nodes_wf(nodes_of(segments@)),
{
    proof {
        visible::lemma_parse_kept(s.spec_bytes());
    }
    _parse(s)
}

/// Recognizes one segment after the other until nothing is left.
fn _parse<'a>(input: &'a str) -> (out: Vec<Segment<'a>>)
    ensures
        nodes_of(out@) == spec_parse(input.spec_bytes()),
{
    let ghost b = input.spec_bytes();
    let mut out: Vec<Segment<'a>> = Vec::new();
    let mut cur: &'a str = input;
    proof {
        assert(nodes_of(out@) =~= Seq::<Node>::empty());
        assert(nodes_of(out@) + spec_parse(b) =~= spec_parse(b));
    }
    while byte_len(cur) > 0
        invariant
            spec_parse(input.spec_bytes()) == nodes_of(out@) + spec_parse(cur.spec_bytes()),
        decreases cur.spec_bytes().len(),
    {
        proof {
            lemma_segment_total(cur.spec_bytes());
        }
        match segment(cur, ()) {
            Ok((rest, found)) => {
                proof {
                    let tail = spec_parse(rest.spec_bytes());
                    lemma_nodes_of_push(out@, found);
                    assert(nodes_of(out@) + (seq![found@] + tail) =~= nodes_of(out@).push(found@)
                        + tail);
                }
                out.push(found);
                cur = rest;
            },
            // A text that is not empty has a first segment.
            Err(_) => vstd::pervasive::unreached(),
        }
    }
    proof {
        assert(nodes_of(out@) + Seq::<Node>::empty() =~= nodes_of(out@));
    }
    out
}

} // verus!
