//! How a tree of segments is spelled.
//!
//! A text spells a tree when it is made of the tree's tags and texts, one
//! after the other: each piece of plain text as it stands, each tag as its
//! opening tag, what spells its children, and its closing tag. Nothing of the
//! text is left out, and nothing is used twice. Whatever the parser makes of
//! a text, the text spells it.

use crate::decoration::DecorationStyle;
use crate::grammar::{
    spec_bold, spec_center, spec_closed_body, spec_code, spec_coded_segment, spec_color,
    spec_color_head, spec_decorated, spec_image, spec_italic, spec_items, spec_list, spec_listhead,
    spec_nodes_until, spec_parse, spec_qhead, spec_quote, spec_segment, spec_simple_tag, spec_size,
    spec_size_head, spec_text_segment, spec_underline, spec_url, spec_url_bare, spec_url_head,
    spec_url_with, Node,
};
use crate::lemma_segment_total;
use crate::scan::{leads_no_case, spec_delimited};
use crate::theorems::theorem_text_ends_at_the_first_stop;
use crate::visible::lemma_segment_kept;
use vstd::prelude::*;
use vstd::string::StringSliceAdditionalSpecFns;

verus! {

/// The closing tag of a decorated span.
pub open spec fn decoration_closer(style: DecorationStyle) -> Seq<u8> {
    match style {
        DecorationStyle::Bold => "[/b]".spec_bytes(),
        DecorationStyle::Italic => "[/i]".spec_bytes(),
        DecorationStyle::Underline => "[/u]".spec_bytes(),
        DecorationStyle::Center => "[/center]".spec_bytes(),
        DecorationStyle::Color(_, _, _) => "[/color]".spec_bytes(),
        DecorationStyle::Size(_) => "[/size]".spec_bytes(),
    }
}

/// How long the opening tag of a span of the given style is that stands at
/// the front of `input`, if one stands there.
pub open spec fn decoration_opener(style: DecorationStyle, input: Seq<u8>) -> Option<int> {
    match style {
        DecorationStyle::Bold => literal_opener("[b]".spec_bytes(), input),
        DecorationStyle::Italic => literal_opener("[i]".spec_bytes(), input),
        DecorationStyle::Underline => literal_opener("[u]".spec_bytes(), input),
        DecorationStyle::Center => literal_opener("[center]".spec_bytes(), input),
        DecorationStyle::Color(r, g, b) => match spec_color_head(input) {
            Some((rgb, n)) => if rgb == (r, g, b) {
                Some(n)
            } else {
                None
            },
            None => None,
        },
        DecorationStyle::Size(size) => match spec_size_head(input) {
            Some((s, n)) => if s == size {
                Some(n)
            } else {
                None
            },
            None => None,
        },
    }
}

/// The length of `open`, if it stands at the front of `input`, ASCII case
/// ignored.
pub open spec fn literal_opener(open: Seq<u8>, input: Seq<u8>) -> Option<int> {
    if leads_no_case(open, input) {
        Some(open.len() as int)
    } else {
        None
    }
}

/// Whether the first `n` bytes of `input` hold an opening part of `head`
/// bytes and end with `close`, ASCII case ignored, without the two
/// overlapping.
pub open spec fn encloses(input: Seq<u8>, n: int, head: int, close: Seq<u8>) -> bool {
    &&& 0 < head
    &&& head + close.len() <= n <= input.len()
    &&& leads_no_case(close, input.skip(n - close.len()))
}

/// Whether the first `n` bytes of `input` spell `node`.
pub open spec fn spells(node: Node, input: Seq<u8>, n: int) -> bool
    decreases node, 0int,
{
    match node {
        Node::Text(t) => 0 <= n <= input.len() && t == input.subrange(0, n),
        Node::Code(t) => spec_delimited(input, "[code]".spec_bytes(), "[/code]".spec_bytes())
            == Some((t, n)),
        Node::Image { src } => spec_delimited(input, "[img]".spec_bytes(), "[/img]".spec_bytes())
            == Some((src, n)),
        Node::Decorated { style, text } => {
            let close = decoration_closer(style);
            decoration_opener(style, input) matches Some(head) && encloses(input, n, head, close)
                && spells_all(text, input.skip(head), n - head - close.len())
        },
        Node::Quote { attribution, body } => {
            let close = "[/quote]".spec_bytes();
            spec_qhead(input) matches Some((a, head)) && a == attribution && encloses(
                input,
                n,
                head,
                close,
            ) && spells_all(body, input.skip(head), n - head - close.len())
        },
        Node::List { style, items } => {
            let close = "[/list]".spec_bytes();
            spec_listhead(input) matches Some((s, head)) && s == style && encloses(
                input,
                n,
                head,
                close,
            ) && spells_items(items, input.skip(head), n - head - close.len())
        },
        Node::Link { target, text } => {
            ||| spec_delimited(input, "[url]".spec_bytes(), "[/url]".spec_bytes()) == Some(
                (target, n),
            ) && text == seq![Node::Text(target)]
            ||| spells_link(target, text, input, n, "[url=\"".spec_bytes(), "\"]".spec_bytes())
            ||| spells_link(target, text, input, n, "[url=".spec_bytes(), "]".spec_bytes())
        },
    }
}

/// Whether the first `n` bytes of `input` spell a link with its target
/// between `open` and `mark`.
pub open spec fn spells_link(
    target: Seq<u8>,
    text: Seq<Node>,
    input: Seq<u8>,
    n: int,
    open: Seq<u8>,
    mark: Seq<u8>,
) -> bool
    decreases text, 2int,
{
    let close = "[/url]".spec_bytes();
    spec_url_head(input, open, mark) matches Some((t, head)) && t == target && encloses(
        input,
        n,
        head,
        close,
    ) && spells_all(text, input.skip(head), n - head - close.len())
}

/// Whether the first `n` bytes of `input` spell `nodes`, one after the
/// other.
pub open spec fn spells_all(nodes: Seq<Node>, input: Seq<u8>, n: int) -> bool
    decreases nodes, 1int,
{
    if nodes.len() == 0 {
        n == 0
    } else {
        exists|k: int|
            0 <= k <= n && spells(nodes.first(), input, k) && spells_all(
                nodes.drop_first(),
                #[trigger] input.skip(k),
                n - k,
            )
    }
}

/// Whether the first `n` bytes of `input` spell the items of a list, each
/// behind its bullet.
pub open spec fn spells_items(items: Seq<Seq<Node>>, input: Seq<u8>, n: int) -> bool
    decreases items, 2int,
{
    let bullet = "[*]".spec_bytes();
    let rest = input.skip(bullet.len() as int);
    let m = n - bullet.len();
    if items.len() == 0 {
        n == 0
    } else {
        leads_no_case(bullet, input) && exists|k: int|
            0 <= k <= m && spells_all(items.first(), rest, k) && spells_items(
                items.drop_first(),
                #[trigger] rest.skip(k),
                m - k,
            )
    }
}

/// What spells a segment, and then what spells more, spells all of them.
pub proof fn lemma_spells_prepend(node: Node, rest: Seq<Node>, input: Seq<u8>, n: int, m: int)
    requires
        0 <= n,
        0 <= m,
        spells(node, input, n),
        spells_all(rest, input.skip(n), m),
    ensures
        spells_all(seq![node] + rest, input, n + m),
{
    let all = seq![node] + rest;
    assert(all.first() == node);
    assert(all.drop_first() =~= rest);
    assert(spells_all(all.drop_first(), input.skip(n), (n + m) - n));
}

/// The front of a text spells the segments of its body.
pub proof fn lemma_nodes_until_spelled(input: Seq<u8>, terms: Seq<Seq<u8>>)
    ensures
        spells_all(spec_nodes_until(input, terms).0, input, spec_nodes_until(input, terms).1),
        0 <= spec_nodes_until(input, terms).1 <= input.len(),
    decreases input.len(), 20int, 0int,
{
    lemma_segment_spelled(input, terms);
    match spec_segment(input, terms) {
        Some((node, n)) => {
            if 0 < n <= input.len() {
                lemma_nodes_until_spelled(input.skip(n), terms);
                let tail = spec_nodes_until(input.skip(n), terms);
                lemma_spells_prepend(node, tail.0, input, n, tail.1);
            }
        },
        None => {},
    }
}

/// A body and its closing tag: the body is spelled, and the tag follows it.
pub proof fn lemma_closed_body_spelled(input: Seq<u8>, close: Seq<u8>)
    ensures
        spec_closed_body(input, close) matches Some((nodes, n)) ==> {
            &&& close.len() <= n <= input.len()
            &&& leads_no_case(close, input.skip(n - close.len()))
            &&& spells_all(nodes, input, n - close.len())
        },
    decreases input.len(), 21int, 0int,
{
    lemma_nodes_until_spelled(input, seq![close]);
}

/// What follows an opening part of `head` bytes, spells a body and ends with
/// a closing tag is enclosed.
pub proof fn lemma_enclosed(input: Seq<u8>, head: int, close: Seq<u8>, nodes: Seq<Node>, n: int)
    requires
        0 < head <= input.len(),
        close.len() <= n <= input.len() - head,
        leads_no_case(close, input.skip(head).skip(n - close.len())),
        spells_all(nodes, input.skip(head), n - close.len()),
    ensures
        encloses(input, head + n, head, close),
        spells_all(nodes, input.skip(head), (head + n) - head - close.len()),
{
    assert(input.skip(head).skip(n - close.len()) =~= input.skip(head + n - close.len()));
}

/// A tag with a body is spelled.
pub proof fn lemma_simple_tag_spelled(input: Seq<u8>, open: Seq<u8>, close: Seq<u8>)
    ensures
        spec_simple_tag(input, open, close) matches Some((nodes, n)) ==> {
            &&& literal_opener(open, input) == Some(open.len() as int)
            &&& encloses(input, n, open.len() as int, close)
            &&& spells_all(nodes, input.skip(open.len() as int), n - open.len() - close.len())
        },
    decreases input.len(), 15int, 0int,
{
    if spec_simple_tag(input, open, close) is Some {
        let head = open.len() as int;
        lemma_closed_body_spelled(input.skip(head), close);
        let (nodes, m) = spec_closed_body(input.skip(head), close)->0;
        lemma_enclosed(input, head, close, nodes, m);
    }
}

/// A colored span is spelled.
pub proof fn lemma_color_spelled(input: Seq<u8>)
    ensures
        spec_color(input) matches Some((node, n)) ==> spells(node, input, n),
    decreases input.len(), 16int, 0int,
{
    if spec_color(input) is Some {
        let close = "[/color]".spec_bytes();
        let (rgb, head) = spec_color_head(input)->0;
        lemma_closed_body_spelled(input.skip(head), close);
        let (text, m) = spec_closed_body(input.skip(head), close)->0;
        lemma_enclosed(input, head, close, text, m);
    }
}

/// A sized span is spelled.
pub proof fn lemma_size_spelled(input: Seq<u8>)
    ensures
        spec_size(input) matches Some((node, n)) ==> spells(node, input, n),
    decreases input.len(), 16int, 0int,
{
    if spec_size(input) is Some {
        let close = "[/size]".spec_bytes();
        let (size, head) = spec_size_head(input)->0;
        lemma_closed_body_spelled(input.skip(head), close);
        let (text, m) = spec_closed_body(input.skip(head), close)->0;
        lemma_enclosed(input, head, close, text, m);
    }
}

/// A decorated span is spelled.
pub proof fn lemma_decorated_spelled(input: Seq<u8>)
    ensures
        spec_decorated(input) matches Some((node, n)) ==> spells(node, input, n),
    decreases input.len(), 17int, 0int,
{
    if spec_bold(input) is Some {
        lemma_simple_tag_spelled(input, "[b]".spec_bytes(), "[/b]".spec_bytes());
    } else if spec_italic(input) is Some {
        lemma_simple_tag_spelled(input, "[i]".spec_bytes(), "[/i]".spec_bytes());
    } else if spec_underline(input) is Some {
        lemma_simple_tag_spelled(input, "[u]".spec_bytes(), "[/u]".spec_bytes());
    } else if spec_center(input) is Some {
        lemma_simple_tag_spelled(input, "[center]".spec_bytes(), "[/center]".spec_bytes());
    } else if spec_color(input) is Some {
        lemma_color_spelled(input);
    } else {
        lemma_size_spelled(input);
    }
}

/// The items of a list are spelled.
pub proof fn lemma_items_spelled(input: Seq<u8>)
    ensures
        spells_items(
            spec_items(input, "[*]".spec_bytes(), "[/list]".spec_bytes()).0,
            input,
            spec_items(input, "[*]".spec_bytes(), "[/list]".spec_bytes()).1,
        ),
        0 <= spec_items(input, "[*]".spec_bytes(), "[/list]".spec_bytes()).1 <= input.len(),
    decreases input.len(), 22int, 0int,
{
    let bullet = "[*]".spec_bytes();
    let close = "[/list]".spec_bytes();
    let from = bullet.len() as int;
    if bullet.len() > 0 && leads_no_case(bullet, input) {
        lemma_nodes_until_spelled(input.skip(from), seq![bullet, close]);
        let (item, m) = spec_nodes_until(input.skip(from), seq![bullet, close]);
        if 0 <= m <= input.len() - bullet.len() {
            lemma_items_spelled(input.skip(from + m));
            let (rest, k) = spec_items(input.skip(from + m), bullet, close);
            let all = seq![item] + rest;
            assert(all.first() == item);
            assert(all.drop_first() =~= rest);
            assert(input.skip(from).skip(m) =~= input.skip(from + m));
            assert(spells_items(
                all.drop_first(),
                input.skip(from).skip(m),
                ((from + m + k) - from) - m,
            ));
        }
    }
}

/// A list is spelled.
pub proof fn lemma_list_spelled(input: Seq<u8>)
    ensures
        spec_list(input) matches Some((node, n)) ==> spells(node, input, n),
    decreases input.len(), 16int, 0int,
{
    if spec_list(input) is Some {
        let (style, head) = spec_listhead(input)->0;
        lemma_items_spelled(input.skip(head));
    }
}

/// A quote is spelled.
pub proof fn lemma_quote_spelled(input: Seq<u8>)
    ensures
        spec_quote(input) matches Some((node, n)) ==> spells(node, input, n),
    decreases input.len(), 16int, 0int,
{
    if spec_quote(input) is Some {
        let close = "[/quote]".spec_bytes();
        let (attribution, head) = spec_qhead(input)->0;
        lemma_closed_body_spelled(input.skip(head), close);
        let (body, m) = spec_closed_body(input.skip(head), close)->0;
        lemma_enclosed(input, head, close, body, m);
    }
}

/// A link with its target in the opening tag is spelled.
pub proof fn lemma_url_with_spelled(input: Seq<u8>, open: Seq<u8>, mark: Seq<u8>)
    ensures
        spec_url_with(input, open, mark) matches Some((node, n)) ==> node matches Node::Link {
            target,
            text,
        } && spells_link(target, text, input, n, open, mark),
    decreases input.len(), 15int, 0int,
{
    if spec_url_with(input, open, mark) is Some {
        let close = "[/url]".spec_bytes();
        let (target, head) = spec_url_head(input, open, mark)->0;
        lemma_closed_body_spelled(input.skip(head), close);
        let (text, m) = spec_closed_body(input.skip(head), close)->0;
        lemma_enclosed(input, head, close, text, m);
    }
}

/// A link is spelled.
pub proof fn lemma_url_spelled(input: Seq<u8>)
    ensures
        spec_url(input) matches Some((node, n)) ==> spells(node, input, n),
    decreases input.len(), 16int, 0int,
{
    if spec_url_bare(input) is Some {
    } else if spec_url_with(input, "[url=\"".spec_bytes(), "\"]".spec_bytes()) is Some {
        lemma_url_with_spelled(input, "[url=\"".spec_bytes(), "\"]".spec_bytes());
    } else {
        lemma_url_with_spelled(input, "[url=".spec_bytes(), "]".spec_bytes());
    }
}

/// A tag with its body is spelled.
pub proof fn lemma_coded_segment_spelled(input: Seq<u8>)
    ensures
        spec_coded_segment(input) matches Some((node, n)) ==> spells(node, input, n),
    decreases input.len(), 18int, 0int,
{
    if spec_decorated(input) is Some {
        lemma_decorated_spelled(input);
    } else if spec_code(input) is Some {
    } else if spec_image(input) is Some {
    } else if spec_list(input) is Some {
        lemma_list_spelled(input);
    } else if spec_quote(input) is Some {
        lemma_quote_spelled(input);
    } else {
        lemma_url_spelled(input);
    }
}

/// A segment is spelled by what it takes.
pub proof fn lemma_segment_spelled(input: Seq<u8>, terms: Seq<Seq<u8>>)
    ensures
        spec_segment(input, terms) matches Some((node, n)) ==> spells(node, input, n),
    decreases input.len(), 19int, 0int,
{
    if spec_coded_segment(input) is Some {
        lemma_coded_segment_spelled(input);
    } else if spec_text_segment(input, terms) is Some {
        theorem_text_ends_at_the_first_stop(input, terms, 1);
    }
}

/// A text spells what it is parsed to.
pub proof fn lemma_parse_spelled(input: Seq<u8>)
    ensures
        spells_all(spec_parse(input), input, input.len() as int),
    decreases input.len(),
{
    if input.len() > 0 {
        lemma_segment_total(input);
        lemma_segment_spelled(input, seq![]);
        lemma_segment_kept(input, seq![]);
        let (node, n) = spec_segment(input, seq![])->0;
        lemma_parse_spelled(input.skip(n));
        lemma_spells_prepend(node, spec_parse(input.skip(n)), input, n, input.len() - n);
    }
}

} // verus!

