//! The text that a reader sees, and where it comes from.
//!
//! The visible text of a tree is what its text and code leaves hold, in
//! document order. Whatever the parser makes of an input, the visible text
//! of the result is made of bytes of the input, in their order, each used
//! once.

use crate::grammar::{
    spec_bold, spec_center, spec_closed_body, spec_code, spec_coded_segment, spec_color,
    spec_color_head, spec_decorated, spec_image, spec_italic, spec_items, spec_list, spec_listhead,
    spec_nodes_until, spec_parse, spec_qhead, spec_quote, spec_segment, spec_simple_tag, spec_size,
    spec_size_head, spec_text_end, spec_text_segment, spec_underline, spec_url, spec_url_bare,
    spec_url_head, spec_url_with, Node,
};
use crate::lemma_segment_total;
use crate::scan::{leads_no_case, lemma_ascii_text, lemma_find_no_case_found, spec_delimited};
use crate::theorems::theorem_text_ends_at_the_first_stop;
use vstd::prelude::*;
use vstd::string::StringSliceAdditionalSpecFns;

verus! {

/// The text that a reader of this segment sees: the text and code in it, in
/// document order. Targets, sources and attributions are not part of it.
pub open spec fn visible(node: Node) -> Seq<u8>
    decreases node, 0int,
{
    match node {
        Node::Text(t) => t,
        Node::Decorated { style, text } => visible_all(text),
        Node::Quote { attribution, body } => visible_all(body),
        Node::Code(t) => t,
        Node::List { style, items } => visible_items(items),
        Node::Link { target, text } => visible_all(text),
        Node::Image { src } => seq![],
    }
}

/// The text that a reader of these segments sees.
pub open spec fn visible_all(nodes: Seq<Node>) -> Seq<u8>
    decreases nodes, 1int,
{
    if nodes.len() == 0 {
        seq![]
    } else {
        visible(nodes.first()) + visible_all(nodes.drop_first())
    }
}

/// The text that a reader of these list items sees.
pub open spec fn visible_items(items: Seq<Seq<Node>>) -> Seq<u8>
    decreases items, 2int,
{
    if items.len() == 0 {
        seq![]
    } else {
        visible_all(items.first()) + visible_items(items.drop_first())
    }
}

/// Whether `a` can be had from `b` by leaving bytes out: the bytes of `a`
/// are bytes of `b`, in the same order, each used once.
pub open spec fn embeds(a: Seq<u8>, b: Seq<u8>) -> bool
    decreases b.len(),
{
    if a.len() == 0 {
        true
    } else if b.len() == 0 {
        false
    } else if a.last() == b.last() && embeds(a.drop_last(), b.drop_last()) {
        true
    } else {
        embeds(a, b.drop_last())
    }
}

/// A text can be had from itself.
pub proof fn lemma_embeds_itself(a: Seq<u8>)
    ensures
        embeds(a, a),
    decreases a.len(),
{
    if a.len() > 0 {
        lemma_embeds_itself(a.drop_last());
    }
}

/// What can be had from a text can be had from a longer one.
pub proof fn lemma_embeds_longer(a: Seq<u8>, b: Seq<u8>, more: Seq<u8>)
    requires
        embeds(a, b),
    ensures
        embeds(a, b + more),
        embeds(a, more + b),
    decreases more.len() + b.len(), more.len(),
{
    if more.len() == 0 {
        assert(b + more =~= b);
        assert(more + b =~= b);
    } else {
        lemma_embeds_longer(a, b, more.drop_last());
        assert((b + more).drop_last() =~= b + more.drop_last());
        if a.len() == 0 {
        } else if b.len() == 0 {
        } else {
            assert((more + b).drop_last() =~= more + b.drop_last());
            assert((more + b).last() == b.last());
            if a.last() == b.last() && embeds(a.drop_last(), b.drop_last()) {
                lemma_embeds_longer(a.drop_last(), b.drop_last(), more);
            } else {
                lemma_embeds_longer(a, b.drop_last(), more);
            }
        }
    }
}

/// What can be had from two texts, piece by piece, can be had from the two
/// one after the other.
pub proof fn lemma_embeds_both(a1: Seq<u8>, b1: Seq<u8>, a2: Seq<u8>, b2: Seq<u8>)
    requires
        embeds(a1, b1),
        embeds(a2, b2),
    ensures
        embeds(a1 + a2, b1 + b2),
    decreases b2.len(),
{
    if a2.len() == 0 {
        assert(a1 + a2 =~= a1);
        lemma_embeds_longer(a1, b1, b2);
    } else {
        assert((b1 + b2).drop_last() =~= b1 + b2.drop_last());
        assert((b1 + b2).last() == b2.last());
        if a2.last() == b2.last() && embeds(a2.drop_last(), b2.drop_last()) {
            lemma_embeds_both(a1, b1, a2.drop_last(), b2.drop_last());
            assert((a1 + a2).drop_last() =~= a1 + a2.drop_last());
            assert((a1 + a2).last() == a2.last());
        } else {
            lemma_embeds_both(a1, b1, a2, b2.drop_last());
        }
    }
}

/// Whether every size in this segment lies strictly between 1 and 30.
pub open spec fn node_wf(node: Node) -> bool
    decreases node, 0int,
{
    match node {
        Node::Decorated { style, text } => style.wf() && nodes_wf(text),
        Node::Quote { attribution, body } => nodes_wf(body),
        Node::List { style, items } => forall|i: int|
            0 <= i < items.len() ==> nodes_wf(#[trigger] items[i]),
        Node::Link { target, text } => nodes_wf(text),
        _ => true,
    }
}

/// Whether every size in these segments lies strictly between 1 and 30.
pub open spec fn nodes_wf(nodes: Seq<Node>) -> bool
    decreases nodes, 1int,
{
    forall|i: int| 0 <= i < nodes.len() ==> node_wf(#[trigger] nodes[i])
}

/// What holds of a segment that was read off the front of `input` and took
/// `n` bytes: it took at least one byte and no more than there are, its
/// sizes are sizes, and its visible text can be had from the bytes it took.
pub open spec fn kept(input: Seq<u8>, node: Node, n: int) -> bool {
    &&& 0 < n <= input.len()
    &&& node_wf(node)
    &&& embeds(visible(node), input.subrange(0, n))
}

/// What holds of segments that were read off the front of `input` and took
/// `n` bytes together.
pub open spec fn kept_all(input: Seq<u8>, nodes: Seq<Node>, n: int) -> bool {
    &&& 0 <= n <= input.len()
    &&& nodes_wf(nodes)
    &&& embeds(visible_all(nodes), input.subrange(0, n))
}

/// What holds of list items that were read off the front of `input` and took
/// `n` bytes together.
pub open spec fn kept_items(input: Seq<u8>, items: Seq<Seq<Node>>, n: int) -> bool {
    &&& 0 <= n <= input.len()
    &&& forall|i: int| 0 <= i < items.len() ==> nodes_wf(#[trigger] items[i])
    &&& embeds(visible_items(items), input.subrange(0, n))
}

/// What can be had from a piece of a text can be had from a longer piece
/// around it.
pub proof fn lemma_embeds_around(a: Seq<u8>, input: Seq<u8>, from: int, n: int, more: int)
    requires
        0 <= from,
        0 <= n,
        0 <= more,
        from + n + more <= input.len(),
        embeds(a, input.skip(from).subrange(0, n)),
    ensures
        embeds(a, input.subrange(0, from + n + more)),
{
    let mid = input.skip(from).subrange(0, n);
    let head = input.subrange(0, from);
    let tail = input.subrange(from + n, from + n + more);
    lemma_embeds_longer(a, mid, head);
    lemma_embeds_longer(a, head + mid, tail);
    assert(head + mid + tail =~= input.subrange(0, from + n + more));
}

/// Segments with one more in front.
pub proof fn lemma_kept_prepend(input: Seq<u8>, node: Node, n: int, rest: Seq<Node>, m: int)
    requires
        kept(input, node, n),
        kept_all(input.skip(n), rest, m),
    ensures
        kept_all(input, seq![node] + rest, n + m),
{
    let all = seq![node] + rest;
    assert(all.first() == node);
    assert(all.drop_first() =~= rest);
    assert forall|i: int| 0 <= i < all.len() implies node_wf(#[trigger] all[i]) by {
        if i > 0 {
            assert(all[i] == rest[i - 1]);
        }
    }
    lemma_embeds_both(
        visible(node),
        input.subrange(0, n),
        visible_all(rest),
        input.skip(n).subrange(0, m),
    );
    assert(input.subrange(0, n) + input.skip(n).subrange(0, m) =~= input.subrange(0, n + m));
}

/// The segments of a body are kept.
pub proof fn lemma_nodes_until_kept(input: Seq<u8>, terms: Seq<Seq<u8>>)
    ensures
        kept_all(input, spec_nodes_until(input, terms).0, spec_nodes_until(input, terms).1),
    decreases input.len(), 20int, 0int,
{
    lemma_segment_kept(input, terms);
    match spec_segment(input, terms) {
        Some((node, n)) => {
            if 0 < n <= input.len() {
                lemma_nodes_until_kept(input.skip(n), terms);
                let tail = spec_nodes_until(input.skip(n), terms);
                lemma_kept_prepend(input, node, n, tail.0, tail.1);
            }
        },
        None => {},
    }
}

/// A body with its closing tag is kept.
pub proof fn lemma_closed_body_kept(input: Seq<u8>, close: Seq<u8>)
    ensures
        spec_closed_body(input, close) matches Some((nodes, n)) ==> kept_all(input, nodes, n),
    decreases input.len(), 21int, 0int,
{
    lemma_nodes_until_kept(input, seq![close]);
    let (nodes, m) = spec_nodes_until(input, seq![close]);
    if spec_closed_body(input, close) is Some {
        assert(input.skip(0) =~= input);
        lemma_embeds_around(visible_all(nodes), input, 0, m, close.len() as int);
    }
}

/// What stands after an opening part of `from` bytes is kept with it.
pub proof fn lemma_kept_after(input: Seq<u8>, from: int, nodes: Seq<Node>, n: int)
    requires
        0 < from <= input.len(),
        kept_all(input.skip(from), nodes, n),
    ensures
        kept_all(input, nodes, from + n),
        0 < from + n <= input.len(),
{
    lemma_embeds_around(visible_all(nodes), input, from, n, 0);
}

/// A tag with a body is kept.
pub proof fn lemma_simple_tag_kept(input: Seq<u8>, open: Seq<u8>, close: Seq<u8>)
    ensures
        spec_simple_tag(input, open, close) matches Some((nodes, n)) ==> kept_all(input, nodes, n)
            && 0 < n,
    decreases input.len(), 15int, 0int,
{
    if spec_simple_tag(input, open, close) is Some {
        let after = input.skip(open.len() as int);
        lemma_closed_body_kept(after, close);
        let (nodes, m) = spec_closed_body(after, close)->0;
        lemma_kept_after(input, open.len() as int, nodes, m);
    }
}

/// A colored span is kept.
pub proof fn lemma_color_kept(input: Seq<u8>)
    ensures
        spec_color(input) matches Some((node, n)) ==> kept(input, node, n),
    decreases input.len(), 16int, 0int,
{
    if spec_color(input) is Some {
        let (rgb, n) = spec_color_head(input)->0;
        lemma_closed_body_kept(input.skip(n), "[/color]".spec_bytes());
        let (text, m) = spec_closed_body(input.skip(n), "[/color]".spec_bytes())->0;
        lemma_kept_after(input, n, text, m);
    }
}

/// A sized span is kept.
pub proof fn lemma_size_kept(input: Seq<u8>)
    ensures
        spec_size(input) matches Some((node, n)) ==> kept(input, node, n),
    decreases input.len(), 16int, 0int,
{
    if spec_size(input) is Some {
        reveal(spec_size_head);
        let (size, n) = spec_size_head(input)->0;
        lemma_closed_body_kept(input.skip(n), "[/size]".spec_bytes());
        let (text, m) = spec_closed_body(input.skip(n), "[/size]".spec_bytes())->0;
        lemma_kept_after(input, n, text, m);
    }
}

/// A decorated span is kept.
pub proof fn lemma_decorated_kept(input: Seq<u8>)
    ensures
        spec_decorated(input) matches Some((node, n)) ==> kept(input, node, n),
    decreases input.len(), 17int, 0int,
{
    if spec_bold(input) is Some {
        lemma_simple_tag_kept(input, "[b]".spec_bytes(), "[/b]".spec_bytes());
    } else if spec_italic(input) is Some {
        lemma_simple_tag_kept(input, "[i]".spec_bytes(), "[/i]".spec_bytes());
    } else if spec_underline(input) is Some {
        lemma_simple_tag_kept(input, "[u]".spec_bytes(), "[/u]".spec_bytes());
    } else if spec_center(input) is Some {
        lemma_simple_tag_kept(input, "[center]".spec_bytes(), "[/center]".spec_bytes());
    } else if spec_color(input) is Some {
        lemma_color_kept(input);
    } else {
        lemma_size_kept(input);
    }
}

/// What stands between two tags, taken as it is, can be had from the whole.
pub proof fn lemma_delimited_kept(input: Seq<u8>, open: Seq<u8>, close: Seq<u8>)
    requires
        open.len() > 0,
    ensures
        spec_delimited(input, open, close) matches Some((body, n)) ==> 0 < n <= input.len()
            && embeds(body, input.subrange(0, n)),
{
    reveal(spec_delimited);
    if spec_delimited(input, open, close) is Some {
        let from = open.len() as int;
        lemma_find_no_case_found(close, input.skip(from), 0);
        let (body, n) = spec_delimited(input, open, close)->0;
        lemma_embeds_itself(body);
        assert(body =~= input.skip(from).subrange(0, body.len() as int));
        lemma_embeds_around(body, input, from, body.len() as int, close.len() as int);
    }
}

/// The items of a list are kept.
pub proof fn lemma_items_kept(input: Seq<u8>, bullet: Seq<u8>, close: Seq<u8>)
    ensures
        kept_items(
            input,
            spec_items(input, bullet, close).0,
            spec_items(input, bullet, close).1,
        ),
    decreases input.len(), 22int, 0int,
{
    let from = bullet.len() as int;
    if bullet.len() > 0 && leads_no_case(bullet, input) {
        lemma_nodes_until_kept(input.skip(from), seq![bullet, close]);
        let (item, m) = spec_nodes_until(input.skip(from), seq![bullet, close]);
        if 0 <= m <= input.len() - bullet.len() {
            let rest_input = input.skip(from + m);
            lemma_items_kept(rest_input, bullet, close);
            let (rest, k) = spec_items(rest_input, bullet, close);
            let all = seq![item] + rest;
            assert(all.first() == item);
            assert(all.drop_first() =~= rest);
            assert forall|i: int| 0 <= i < all.len() implies nodes_wf(#[trigger] all[i]) by {
                if i > 0 {
                    assert(all[i] == rest[i - 1]);
                }
            }
            lemma_embeds_around(visible_all(item), input, from, m, 0);
            lemma_embeds_both(
                visible_all(item),
                input.subrange(0, from + m),
                visible_items(rest),
                rest_input.subrange(0, k),
            );
            assert(input.subrange(0, from + m) + rest_input.subrange(0, k) =~= input.subrange(
                0,
                from + m + k,
            ));
        }
    }
}

/// A list is kept.
pub proof fn lemma_list_kept(input: Seq<u8>)
    ensures
        spec_list(input) matches Some((node, n)) ==> kept(input, node, n),
    decreases input.len(), 16int, 0int,
{
    if spec_list(input) is Some {
        let close = "[/list]".spec_bytes();
        let (style, n) = spec_listhead(input)->0;
        lemma_items_kept(input.skip(n), "[*]".spec_bytes(), close);
        let (items, m) = spec_items(input.skip(n), "[*]".spec_bytes(), close);
        lemma_embeds_around(visible_items(items), input, n, m, close.len() as int);
    }
}

/// A quote is kept.
pub proof fn lemma_quote_kept(input: Seq<u8>)
    ensures
        spec_quote(input) matches Some((node, n)) ==> kept(input, node, n),
    decreases input.len(), 16int, 0int,
{
    if spec_quote(input) is Some {
        let (attribution, n) = spec_qhead(input)->0;
        lemma_closed_body_kept(input.skip(n), "[/quote]".spec_bytes());
        let (body, m) = spec_closed_body(input.skip(n), "[/quote]".spec_bytes())->0;
        lemma_kept_after(input, n, body, m);
    }
}

/// A link with its target in the opening tag is kept.
pub proof fn lemma_url_with_kept(input: Seq<u8>, open: Seq<u8>, close: Seq<u8>)
    ensures
        spec_url_with(input, open, close) matches Some((node, n)) ==> kept(input, node, n),
    decreases input.len(), 15int, 0int,
{
    if spec_url_with(input, open, close) is Some {
        let (target, n) = spec_url_head(input, open, close)->0;
        lemma_closed_body_kept(input.skip(n), "[/url]".spec_bytes());
        let (text, m) = spec_closed_body(input.skip(n), "[/url]".spec_bytes())->0;
        lemma_kept_after(input, n, text, m);
    }
}

/// A link whose target is its body is kept.
pub proof fn lemma_url_bare_kept(input: Seq<u8>)
    ensures
        spec_url_bare(input) matches Some((node, n)) ==> kept(input, node, n),
{
    reveal_strlit("[url]");
    lemma_ascii_text("[url]");
    lemma_delimited_kept(input, "[url]".spec_bytes(), "[/url]".spec_bytes());
    if spec_url_bare(input) is Some {
        let (body, n) = spec_delimited(input, "[url]".spec_bytes(), "[/url]".spec_bytes())->0;
        let text = seq![Node::Text(body)];
        assert(text.first() == Node::Text(body));
        assert(text.drop_first() =~= Seq::<Node>::empty());
        assert(visible_all(text.drop_first()) =~= Seq::<u8>::empty());
        assert(visible(text.first()) == body);
        assert(visible_all(text) =~= body);
        assert(nodes_wf(text));
    }
}

/// A link is kept.
pub proof fn lemma_url_kept(input: Seq<u8>)
    ensures
        spec_url(input) matches Some((node, n)) ==> kept(input, node, n),
    decreases input.len(), 16int, 0int,
{
    lemma_url_bare_kept(input);
    lemma_url_with_kept(input, "[url=\"".spec_bytes(), "\"]".spec_bytes());
    lemma_url_with_kept(input, "[url=".spec_bytes(), "]".spec_bytes());
}

/// A code block is kept.
pub proof fn lemma_code_kept(input: Seq<u8>)
    ensures
        spec_code(input) matches Some((node, n)) ==> kept(input, node, n),
{
    reveal_strlit("[code]");
    lemma_ascii_text("[code]");
    lemma_delimited_kept(input, "[code]".spec_bytes(), "[/code]".spec_bytes());
}

/// An image is kept.
pub proof fn lemma_image_kept(input: Seq<u8>)
    ensures
        spec_image(input) matches Some((node, n)) ==> kept(input, node, n),
{
    reveal_strlit("[img]");
    lemma_ascii_text("[img]");
    lemma_delimited_kept(input, "[img]".spec_bytes(), "[/img]".spec_bytes());
}

/// A tag with its body is kept.
pub proof fn lemma_coded_segment_kept(input: Seq<u8>)
    ensures
        spec_coded_segment(input) matches Some((node, n)) ==> kept(input, node, n),
    decreases input.len(), 18int, 0int,
{
    if spec_decorated(input) is Some {
        lemma_decorated_kept(input);
    } else if spec_code(input) is Some {
        lemma_code_kept(input);
    } else if spec_image(input) is Some {
        lemma_image_kept(input);
    } else if spec_list(input) is Some {
        lemma_list_kept(input);
    } else if spec_quote(input) is Some {
        lemma_quote_kept(input);
    } else {
        lemma_url_kept(input);
    }
}

/// Plain text is kept.
pub proof fn lemma_text_segment_kept(input: Seq<u8>, terms: Seq<Seq<u8>>)
    ensures
        spec_text_segment(input, terms) matches Some((text, n)) ==> kept(
            input,
            Node::Text(text),
            n,
        ),
{
    if spec_text_segment(input, terms) is Some {
        theorem_text_ends_at_the_first_stop(input, terms, 1);
        lemma_embeds_itself(input.subrange(0, spec_text_end(input, terms, 1)));
    }
}

/// A segment is kept.
pub proof fn lemma_segment_kept(input: Seq<u8>, terms: Seq<Seq<u8>>)
    ensures
        spec_segment(input, terms) matches Some((node, n)) ==> kept(input, node, n),
    decreases input.len(), 19int, 0int,
{
    if spec_coded_segment(input) is Some {
        lemma_coded_segment_kept(input);
    } else {
        lemma_text_segment_kept(input, terms);
    }
}

/// The segments of a whole text are kept.
pub proof fn lemma_parse_kept(input: Seq<u8>)
    ensures
        kept_all(input, spec_parse(input), input.len() as int),
    decreases input.len(),
{
    if input.len() == 0 {
    } else {
        lemma_segment_total(input);
        lemma_segment_kept(input, seq![]);
        let (node, n) = spec_segment(input, seq![])->0;
        lemma_parse_kept(input.skip(n));
        lemma_kept_prepend(input, node, n, spec_parse(input.skip(n)), input.len() - n);
    }
}

} // verus!
