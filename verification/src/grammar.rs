//! The language, as functions on bytes.
//!
//! Each recognizer is a function from the remaining input to what it yields
//! and how many bytes it consumes, or `None` when it does not apply. Nothing
//! here is executable: these functions say what the parser computes.

use crate::decoration::DecorationStyle;
use crate::list::ListStyle;
use crate::scan::{
    find, leads, leads_no_case, run_len, spec_delimited, ByteClass, CLOSE_BRACKET, DIGIT_ONE,
    EQUALS, HASH, LETTER_A,
};
use vstd::prelude::*;
use vstd::string::StringSliceAdditionalSpecFns;
use vstd::utf8::decode_utf8;

verus! {

/// What a [`crate::Segment`] stands for: the same tree, with every piece of
/// text as its bytes.
#[allow(inconsistent_fields)]
pub enum Node {
    Text(Seq<u8>),
    Decorated { style: DecorationStyle, text: Seq<Node> },
    Quote { attribution: Option<Seq<u8>>, body: Seq<Node> },
    Code(Seq<u8>),
    List { style: ListStyle, items: Seq<Seq<Node>> },
    Link { target: Seq<u8>, text: Seq<Node> },
    Image { src: Seq<u8> },
}

/// The color that a CSS color name stands for, if the name is known.
pub uninterp spec fn named_color(name: Seq<char>) -> Option<(u8, u8, u8)>;

/// How many bytes a recognizer took, where it applied.
pub open spec fn taken<T>(r: Option<(T, int)>) -> int {
    match r {
        Some((_, n)) => n,
        None => 0,
    }
}

/// The first of two alternatives that applies.
pub open spec fn first_of<T>(a: Option<T>, b: Option<T>) -> Option<T> {
    if a is Some {
        a
    } else {
        b
    }
}

/// Whether one of `terms` stands at the front of `input`, ASCII case ignored.
#[verifier::opaque]
pub open spec fn leads_any(terms: Seq<Seq<u8>>, input: Seq<u8>) -> bool {
    exists|i: int| 0 <= i < terms.len() && leads_no_case(#[trigger] terms[i], input)
}

/// The value of one hexadecimal digit.
pub open spec fn hex_value(b: u8) -> int {
    if 0x30 <= b <= 0x39 {
        b - 0x30
    } else if 0x61 <= b <= 0x66 {
        b - 0x61 + 10
    } else {
        b - 0x41 + 10
    }
}

/// The number that decimal digits spell.
pub open spec fn decimal(digits: Seq<u8>) -> int
    decreases digits.len(),
{
    if digits.len() == 0 {
        0
    } else {
        decimal(digits.drop_last()) * 10 + (digits.last() - 0x30)
    }
}

/// A code block, `[code]...[/code]`: the body is everything up to the first
/// closing tag.
pub open spec fn spec_code(input: Seq<u8>) -> Option<(Node, int)> {
    match spec_delimited(input, "[code]".spec_bytes(), "[/code]".spec_bytes()) {
        Some((body, n)) => Some((Node::Code(body), n)),
        None => None,
    }
}

/// An image, `[img]...[/img]`: the body is the source, taken as it stands.
pub open spec fn spec_image(input: Seq<u8>) -> Option<(Node, int)> {
    match spec_delimited(input, "[img]".spec_bytes(), "[/img]".spec_bytes()) {
        Some((src, n)) => Some((Node::Image { src }, n)),
        None => None,
    }
}

/// `#RGB` or `#RRGGBB`. In the short form each digit stands for both halves
/// of its byte.
#[verifier::opaque]
pub open spec fn spec_rgb_color(input: Seq<u8>) -> Option<((u8, u8, u8), int)> {
    if input.len() > 0 && input[0] == HASH {
        let n = run_len(ByteClass::HexDigit, input.skip(1));
        if n == 3 {
            Some(
                (
                    (
                        (17 * hex_value(input[1])) as u8,
                        (17 * hex_value(input[2])) as u8,
                        (17 * hex_value(input[3])) as u8,
                    ),
                    4,
                ),
            )
        } else if n == 6 {
            Some(
                (
                    (
                        (16 * hex_value(input[1]) + hex_value(input[2])) as u8,
                        (16 * hex_value(input[3]) + hex_value(input[4])) as u8,
                        (16 * hex_value(input[5]) + hex_value(input[6])) as u8,
                    ),
                    7,
                ),
            )
        } else {
            None
        }
    } else {
        None
    }
}

/// A CSS color name: the letters and digits at the front of the input, if
/// they name a color.
#[verifier::opaque]
pub open spec fn spec_css_color(input: Seq<u8>) -> Option<((u8, u8, u8), int)> {
    let n = run_len(ByteClass::Alphanumeric, input);
    if n > 0 {
        match named_color(decode_utf8(input.subrange(0, n))) {
            Some(rgb) => Some((rgb, n)),
            None => None,
        }
    } else {
        None
    }
}

/// The opening tag of a colored span, `[color=...]`.
#[verifier::opaque]
pub open spec fn spec_color_head(input: Seq<u8>) -> Option<((u8, u8, u8), int)> {
    let open = "[color=".spec_bytes();
    if leads_no_case(open, input) {
        let rest = input.skip(open.len() as int);
        match first_of(spec_rgb_color(rest), spec_css_color(rest)) {
            Some((rgb, n)) => if 0 <= n < rest.len() && rest[n] == CLOSE_BRACKET {
                Some((rgb, open.len() + n + 1))
            } else {
                None
            },
            None => None,
        }
    } else {
        None
    }
}

/// The opening tag of a sized span, `[size=N]`, with N from 2 to 29.
#[verifier::opaque]
pub open spec fn spec_size_head(input: Seq<u8>) -> Option<(u8, int)> {
    let open = "[size=".spec_bytes();
    if leads_no_case(open, input) {
        let rest = input.skip(open.len() as int);
        let n = run_len(ByteClass::Digit, rest);
        let size = decimal(rest.subrange(0, n));
        if 0 < n < rest.len() && rest[n] == CLOSE_BRACKET && 2 <= size <= 29 {
            Some((size as u8, open.len() + n + 1))
        } else {
            None
        }
    } else {
        None
    }
}

/// The opening tag of a list: `[list]`, `[list=1]` or `[list=a]`.
#[verifier::opaque]
pub open spec fn spec_listhead(input: Seq<u8>) -> Option<(ListStyle, int)> {
    let open = "[list".spec_bytes();
    if leads_no_case(open, input) {
        let rest = input.skip(open.len() as int);
        if rest.len() >= 2 && rest[0] == EQUALS && (rest[1] == LETTER_A || rest[1] == DIGIT_ONE) {
            if rest.len() >= 3 && rest[2] == CLOSE_BRACKET {
                Some(
                    (
                        if rest[1] == LETTER_A {
                            ListStyle::Alphabetic
                        } else {
                            ListStyle::Numeric
                        },
                        open.len() + 3int,
                    ),
                )
            } else {
                None
            }
        } else if rest.len() >= 1 && rest[0] == CLOSE_BRACKET {
            Some((ListStyle::Unordered, open.len() + 1int))
        } else {
            None
        }
    } else {
        None
    }
}

/// The opening tag of a quote: `[quote]` or `[quote="attribution"]`.
#[verifier::opaque]
pub open spec fn spec_qhead(input: Seq<u8>) -> Option<(Option<Seq<u8>>, int)> {
    let open = "[quote".spec_bytes();
    let mark = "=\"".spec_bytes();
    let quote = "\"".spec_bytes();
    if leads_no_case(open, input) {
        let rest = input.skip(open.len() as int);
        let named = if leads(mark, rest) {
            find(quote, rest.skip(mark.len() as int), 0)
        } else {
            None
        };
        match named {
            Some(k) => {
                let end = mark.len() + k + quote.len();
                if 0 <= end < rest.len() && rest[end] == CLOSE_BRACKET {
                    Some(
                        (
                            Some(rest.subrange(mark.len() as int, mark.len() + k)),
                            open.len() + end + 1,
                        ),
                    )
                } else {
                    None
                }
            },
            None => if rest.len() >= 1 && rest[0] == CLOSE_BRACKET {
                Some((None, open.len() + 1int))
            } else {
                None
            },
        }
    } else {
        None
    }
}

/// The target of a link of the form `open` target `close`, and the length of
/// the three together.
#[verifier::opaque]
pub open spec fn spec_url_head(input: Seq<u8>, open: Seq<u8>, close: Seq<u8>) -> Option<
    (Seq<u8>, int),
> {
    if leads_no_case(open, input) {
        match find(close, input.skip(open.len() as int), 0) {
            Some(k) => Some(
                (input.subrange(open.len() as int, open.len() + k), open.len() + k + close.len()),
            ),
            None => None,
        }
    } else {
        None
    }
}

/// The segments at the front of `input`, up to the first place where none
/// begins: where one of `terms` stands, or the end.
pub open spec fn spec_nodes_until(input: Seq<u8>, terms: Seq<Seq<u8>>) -> (Seq<Node>, int)
    decreases input.len(), 20int, 0int,
{
    match spec_segment(input, terms) {
        Some((node, n)) => if 0 < n <= input.len() {
            let (rest, m) = spec_nodes_until(input.skip(n), terms);
            (seq![node] + rest, n + m)
        } else {
            (seq![], 0)
        },
        None => (seq![], 0),
    }
}

/// A body and the closing tag that ends it.
pub open spec fn spec_closed_body(input: Seq<u8>, close: Seq<u8>) -> Option<(Seq<Node>, int)>
    decreases input.len(), 21int, 0int,
{
    let (nodes, m) = spec_nodes_until(input, seq![close]);
    if 0 <= m <= input.len() && leads_no_case(close, input.skip(m)) {
        Some((nodes, m + close.len()))
    } else {
        None
    }
}

/// An opening tag, a body and the closing tag.
pub open spec fn spec_simple_tag(input: Seq<u8>, open: Seq<u8>, close: Seq<u8>) -> Option<
    (Seq<Node>, int),
>
    decreases input.len(), 15int, 0int,
{
    if open.len() > 0 && leads_no_case(open, input) {
        match spec_closed_body(input.skip(open.len() as int), close) {
            Some((nodes, m)) => Some((nodes, open.len() + m)),
            None => None,
        }
    } else {
        None
    }
}

/// `[b]...[/b]`
pub open spec fn spec_bold(input: Seq<u8>) -> Option<(Seq<Node>, int)>
    decreases input.len(), 16int, 0int,
{
    spec_simple_tag(input, "[b]".spec_bytes(), "[/b]".spec_bytes())
}

/// `[i]...[/i]`
pub open spec fn spec_italic(input: Seq<u8>) -> Option<(Seq<Node>, int)>
    decreases input.len(), 16int, 0int,
{
    spec_simple_tag(input, "[i]".spec_bytes(), "[/i]".spec_bytes())
}

/// `[u]...[/u]`
pub open spec fn spec_underline(input: Seq<u8>) -> Option<(Seq<Node>, int)>
    decreases input.len(), 16int, 0int,
{
    spec_simple_tag(input, "[u]".spec_bytes(), "[/u]".spec_bytes())
}

/// `[center]...[/center]`
pub open spec fn spec_center(input: Seq<u8>) -> Option<(Seq<Node>, int)>
    decreases input.len(), 16int, 0int,
{
    spec_simple_tag(input, "[center]".spec_bytes(), "[/center]".spec_bytes())
}

/// A span with the given style around the given children.
pub open spec fn spec_styled(style: DecorationStyle, r: Option<(Seq<Node>, int)>) -> Option<
    (Node, int),
> {
    match r {
        Some((text, n)) => Some((Node::Decorated { style, text }, n)),
        None => None,
    }
}

/// `[color=...]...[/color]`
pub open spec fn spec_color(input: Seq<u8>) -> Option<(Node, int)>
    decreases input.len(), 16int, 0int,
{
    match spec_color_head(input) {
        Some((rgb, n)) => if 0 < n <= input.len() {
            match spec_closed_body(input.skip(n), "[/color]".spec_bytes()) {
                Some((text, m)) => {
                    let style = DecorationStyle::Color(rgb.0, rgb.1, rgb.2);
                    Some((Node::Decorated { style, text }, n + m))
                },
                None => None,
            }
        } else {
            None
        },
        None => None,
    }
}

/// `[size=N]...[/size]`
pub open spec fn spec_size(input: Seq<u8>) -> Option<(Node, int)>
    decreases input.len(), 16int, 0int,
{
    match spec_size_head(input) {
        Some((size, n)) => if 0 < n <= input.len() {
            match spec_closed_body(input.skip(n), "[/size]".spec_bytes()) {
                Some((text, m)) => {
                    let style = DecorationStyle::Size(size);
                    Some((Node::Decorated { style, text }, n + m))
                },
                None => None,
            }
        } else {
            None
        },
        None => None,
    }
}

/// Any decorated span. The styles are tried in a fixed order.
pub open spec fn spec_decorated(input: Seq<u8>) -> Option<(Node, int)>
    decreases input.len(), 17int, 0int,
{
    first_of(
        spec_styled(DecorationStyle::Bold, spec_bold(input)),
        first_of(
            spec_styled(DecorationStyle::Italic, spec_italic(input)),
            first_of(
                spec_styled(DecorationStyle::Underline, spec_underline(input)),
                first_of(
                    spec_styled(DecorationStyle::Center, spec_center(input)),
                    first_of(spec_color(input), spec_size(input)),
                ),
            ),
        ),
    )
}

/// The items of a list: each is a bullet and a body that ends where the next
/// bullet or `close` stands.
pub open spec fn spec_items(input: Seq<u8>, bullet: Seq<u8>, close: Seq<u8>) -> (
    Seq<Seq<Node>>,
    int,
)
    decreases input.len(), 22int, 0int,
{
    if bullet.len() > 0 && leads_no_case(bullet, input) {
        let (item, m) = spec_nodes_until(input.skip(bullet.len() as int), seq![bullet, close]);
        if 0 <= m <= input.len() - bullet.len() {
            let (rest, k) = spec_items(input.skip(bullet.len() + m), bullet, close);
            (seq![item] + rest, bullet.len() + m + k)
        } else {
            (seq![], 0)
        }
    } else {
        (seq![], 0)
    }
}

/// `[list]`, items, `[/list]`
pub open spec fn spec_list(input: Seq<u8>) -> Option<(Node, int)>
    decreases input.len(), 16int, 0int,
{
    let close = "[/list]".spec_bytes();
    match spec_listhead(input) {
        Some((style, n)) => if 0 < n <= input.len() {
            let (items, m) = spec_items(input.skip(n), "[*]".spec_bytes(), close);
            if 0 <= m <= input.len() - n && leads_no_case(close, input.skip(n + m)) {
                Some((Node::List { style, items }, n + m + close.len()))
            } else {
                None
            }
        } else {
            None
        },
        None => None,
    }
}

/// `[quote]...[/quote]`, with or without an attribution.
pub open spec fn spec_quote(input: Seq<u8>) -> Option<(Node, int)>
    decreases input.len(), 16int, 0int,
{
    match spec_qhead(input) {
        Some((attribution, n)) => if 0 < n <= input.len() {
            match spec_closed_body(input.skip(n), "[/quote]".spec_bytes()) {
                Some((body, m)) => Some((Node::Quote { attribution, body }, n + m)),
                None => None,
            }
        } else {
            None
        },
        None => None,
    }
}

/// A link whose target is its body: `[url]target[/url]`.
pub open spec fn spec_url_bare(input: Seq<u8>) -> Option<(Node, int)> {
    match spec_delimited(input, "[url]".spec_bytes(), "[/url]".spec_bytes()) {
        Some((body, n)) => Some((Node::Link { target: body, text: seq![Node::Text(body)] }, n)),
        None => None,
    }
}

/// A link with a target in its opening tag and a parsed body.
pub open spec fn spec_url_with(input: Seq<u8>, open: Seq<u8>, close: Seq<u8>) -> Option<
    (Node, int),
>
    decreases input.len(), 15int, 0int,
{
    match spec_url_head(input, open, close) {
        Some((target, n)) => if 0 < n <= input.len() {
            match spec_closed_body(input.skip(n), "[/url]".spec_bytes()) {
                Some((text, m)) => Some((Node::Link { target, text }, n + m)),
                None => None,
            }
        } else {
            None
        },
        None => None,
    }
}

/// A link in one of its three forms: bare, with a quoted target, with an
/// unquoted target. The first that applies wins.
pub open spec fn spec_url(input: Seq<u8>) -> Option<(Node, int)>
    decreases input.len(), 16int, 0int,
{
    first_of(
        spec_url_bare(input),
        first_of(
            spec_url_with(input, "[url=\"".spec_bytes(), "\"]".spec_bytes()),
            spec_url_with(input, "[url=".spec_bytes(), "]".spec_bytes()),
        ),
    )
}

/// Any tag. The recognizers are tried in a fixed order: decorations, code,
/// image, list, quote, link.
pub open spec fn spec_coded_segment(input: Seq<u8>) -> Option<(Node, int)>
    decreases input.len(), 18int, 0int,
{
    first_of(
        spec_decorated(input),
        first_of(
            spec_code(input),
            first_of(
                spec_image(input),
                first_of(spec_list(input), first_of(spec_quote(input), spec_url(input))),
            ),
        ),
    )
}

/// Whether plain text has to end before `rest`: one of `terms` or a tag
/// stands there.
pub open spec fn spec_text_stops(rest: Seq<u8>, terms: Seq<Seq<u8>>) -> bool
    decreases rest.len(), 19int, 0int,
{
    leads_any(terms, rest) || spec_coded_segment(rest) is Some
}

/// Where plain text that has reached offset `k` of `input` ends: the first
/// offset from `k` on where it has to stop, or the end of the input.
pub open spec fn spec_text_end(input: Seq<u8>, terms: Seq<Seq<u8>>, k: int) -> int
    decreases input.len(), 16int, input.len() - k,
{
    if k <= 0 || k >= input.len() {
        input.len() as int
    } else if spec_text_stops(input.skip(k), terms) {
        k
    } else {
        spec_text_end(input, terms, k + 1)
    }
}

/// Plain text. There is none where the input is empty or one of `terms`
/// stands at the front. Otherwise the first byte is text, and the text runs
/// on to the first offset where one of `terms` or a tag stands. In a text
/// that is UTF-8 that offset lies between two characters, so the first
/// character is text as a whole.
pub open spec fn spec_text_segment(input: Seq<u8>, terms: Seq<Seq<u8>>) -> Option<(Seq<u8>, int)>
    decreases input.len(), 17int, 0int,
{
    if input.len() == 0 || leads_any(terms, input) {
        None
    } else {
        let n = spec_text_end(input, terms, 1);
        Some((input.subrange(0, n), n))
    }
}

/// One segment: a tag if one stands at the front of `input`, else plain
/// text.
pub open spec fn spec_segment(input: Seq<u8>, terms: Seq<Seq<u8>>) -> Option<(Node, int)>
    decreases input.len(), 19int, 0int,
{
    match spec_coded_segment(input) {
        Some(r) => Some(r),
        None => match spec_text_segment(input, terms) {
            Some((text, n)) => Some((Node::Text(text), n)),
            None => None,
        },
    }
}

/// The segments of a whole text.
pub open spec fn spec_parse(input: Seq<u8>) -> Seq<Node>
    decreases input.len(),
{
    if input.len() == 0 {
        seq![]
    } else {
        match spec_segment(input, seq![]) {
            Some((node, n)) => if 0 < n <= input.len() {
                seq![node] + spec_parse(input.skip(n))
            } else {
                seq![]
            },
            None => seq![],
        }
    }
}

} // verus!
