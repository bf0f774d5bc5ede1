//! What holds of the parser and of the renderer on every input.

use crate::grammar::{
    leads_any, spec_coded_segment, spec_parse, spec_segment, spec_size_head, spec_text_end,
    spec_text_stops, spec_url_bare, Node,
};
use crate::lemma_segment_total;
use crate::list::ListStyle;
use crate::opening::lemma_coded_segment_opens;
use crate::render::{
    escaped, events_of, events_of_all, events_of_items, html, html_event, html_events, Escaping,
    Event, AMPERSAND, GREATER_THAN, LESS_THAN, LINE_FEED,
};
use crate::scan::{
    agrees_no_case, find_no_case, leads_no_case, lemma_find_no_case_found, lower, spec_delimited,
    yields, OPEN_BRACKET,
};
use crate::spelling::{
    decoration_closer, lemma_coded_segment_spelled, lemma_parse_spelled, lemma_segment_spelled,
    spells, spells_all,
};
use crate::visible::{embeds, lemma_parse_kept, lemma_segment_kept, nodes_wf, visible_all};
use vstd::prelude::*;
use vstd::string::StringSliceAdditionalSpecFns;

verus! {

/// Matching a literal ignores ASCII case: two texts that differ in nothing
/// but the case of ASCII letters begin with the same literals, and a text
/// begins with two literals that differ in nothing but case, or with
/// neither.
pub proof fn theorem_matching_ignores_case(lit: Seq<u8>, other: Seq<u8>, s: Seq<u8>, t: Seq<u8>)
    requires
        lit.len() == other.len(),
        forall|i: int| 0 <= i < lit.len() ==> lower(lit[i]) == lower(other[i]),
        s.len() == t.len(),
        forall|i: int| 0 <= i < s.len() ==> lower(s[i]) == lower(t[i]),
    ensures
        leads_no_case(lit, s) == leads_no_case(other, t),
{
    reveal(agrees_no_case);
    if leads_no_case(lit, s) {
        assert forall|i: int| 0 <= i < other.len() implies lower(#[trigger] t[i]) == lower(
            other[i],
        ) by {
            assert(lower(s[i]) == lower(lit[i]));
        }
    }
    if leads_no_case(other, t) {
        assert forall|i: int| 0 <= i < lit.len() implies lower(#[trigger] s[i]) == lower(
            lit[i],
        ) by {
            assert(lower(t[i]) == lower(other[i]));
        }
    }
}

/// A link without a target of its own shows its target: the one child is
/// the target as plain text.
pub proof fn theorem_bare_link_shows_target(input: Seq<u8>)
    ensures
        spec_url_bare(input) matches Some((node, _)) ==> node matches Node::Link { target, text }
            && text == seq![Node::Text(target)],
{
}

/// Escaping running text alters nothing but `&`, `<`, `>` and line feeds:
/// text without them stands for itself.
pub proof fn theorem_escaping_keeps_other_bytes(s: Seq<u8>)
    requires
        forall|i: int|
            0 <= i < s.len() ==> s[i] != AMPERSAND && s[i] != LESS_THAN && s[i] != GREATER_THAN
                && s[i] != LINE_FEED,
    ensures
        escaped(Escaping::Text, s) == s,
    decreases s.len(),
{
    if s.len() > 0 {
        theorem_escaping_keeps_other_bytes(s.drop_last());
        assert(s.drop_last() + seq![s.last()] =~= s);
    }
}

/// Plain text is rendered to HTML as itself with `&`, `<`, `>` and line
/// feeds replaced, and with nothing before or after it.
pub proof fn theorem_text_renders_escaped(t: Seq<u8>)
    ensures
        html(seq![Node::Text(t)]) == escaped(Escaping::Text, t),
{
    let nodes = seq![Node::Text(t)];
    assert(nodes.drop_last() =~= Seq::<Node>::empty());
    assert(events_of_all(nodes.drop_last()) =~= Seq::<Event>::empty());
    assert(events_of(nodes.last()) =~= seq![Event::Text(t)]);
    let events = events_of_all(nodes);
    assert(events =~= seq![Event::Text(t)]);
    assert(events.drop_last() =~= Seq::<Event>::empty());
    assert(html_events(events.drop_last()) =~= Seq::<u8>::empty());
    assert(html_events(events) =~= html_event(Event::Text(t)));
}

/// Escaping goes byte by byte: what stands for two texts, one after the
/// other, is what stands for the first and then what stands for the second.
pub proof fn theorem_escaping_is_bytewise(rule: Escaping, s: Seq<u8>, t: Seq<u8>)
    ensures
        escaped(rule, s + t) == escaped(rule, s) + escaped(rule, t),
    decreases t.len(),
{
    if t.len() == 0 {
        assert(s + t =~= s);
        assert(escaped(rule, s) + escaped(rule, t) =~= escaped(rule, s));
    } else {
        theorem_escaping_is_bytewise(rule, s, t.drop_last());
        assert((s + t).drop_last() =~= s + t.drop_last());
        assert((s + t).last() == t.last());
        assert(escaped(rule, s + t) =~= escaped(rule, s) + escaped(rule, t));
    }
}

/// A segment that can have children and has none is rendered as its begin
/// hook followed at once by its end hook.
pub proof fn theorem_empty_body_begins_and_ends(node: Node)
    ensures
        node matches Node::Decorated { style, text } ==> text.len() == 0 ==> events_of(node)
            == seq![Event::DecorationBegin(style), Event::DecorationEnd(style)],
        node matches Node::Quote { attribution, body } ==> body.len() == 0 ==> events_of(node)
            == seq![Event::QuoteBegin(attribution), Event::QuoteEnd(attribution)],
        node matches Node::List { style, items } ==> items.len() == 0 ==> events_of(node)
            == seq![Event::ListBegin(style), Event::ListEnd(style)],
        node matches Node::Link { target, text } ==> text.len() == 0 ==> events_of(node)
            == seq![Event::LinkBegin(target), Event::LinkEnd(target)],
{
    match node {
        Node::Decorated { style, text } => {
            if text.len() == 0 {
                assert(events_of(node) =~= seq![
                    Event::DecorationBegin(style),
                    Event::DecorationEnd(style),
                ]);
            }
        },
        Node::Quote { attribution, body } => {
            if body.len() == 0 {
                assert(events_of(node) =~= seq![
                    Event::QuoteBegin(attribution),
                    Event::QuoteEnd(attribution),
                ]);
            }
        },
        Node::List { style, items } => {
            if items.len() == 0 {
                assert(events_of(node) =~= seq![Event::ListBegin(style), Event::ListEnd(style)]);
            }
        },
        Node::Link { target, text } => {
            if text.len() == 0 {
                assert(events_of(node) =~= seq![Event::LinkBegin(target), Event::LinkEnd(target)]);
            }
        },
        _ => {},
    }
}

/// An item of a list that has no children is rendered as the item's begin
/// hook followed at once by its end hook.
pub proof fn theorem_empty_item_begins_and_ends(style: ListStyle)
    ensures
        events_of_items(style, seq![seq![]]) == seq![
            Event::ListItemBegin(style),
            Event::ListItemEnd(style),
        ],
{
    let items: Seq<Seq<Node>> = seq![seq![]];
    assert(items.drop_last() =~= Seq::<Seq<Node>>::empty());
    assert(items.last() =~= Seq::<Node>::empty());
    assert(events_of_items(style, items.drop_last()) =~= Seq::<Event>::empty());
    assert(events_of_all(items.last()) =~= Seq::<Event>::empty());
    assert(events_of_items(style, items) =~= seq![
        Event::ListItemBegin(style),
        Event::ListItemEnd(style),
    ]);
}

/// Every text that is not empty has a first segment, which takes at least
/// one byte of it: where no tag applies, the first character is plain text.
pub proof fn theorem_first_segment(input: Seq<u8>)
    requires
        input.len() > 0,
    ensures
        spec_segment(input, seq![]) matches Some((_, n)) && 0 < n <= input.len(),
{
    lemma_segment_total(input);
    lemma_segment_kept(input, seq![]);
}

/// Plain text ends at the first offset where it has to stop: it does not
/// have to stop anywhere before its end, and it ends either where it has to
/// stop or where the input ends.
pub proof fn theorem_text_ends_at_the_first_stop(input: Seq<u8>, terms: Seq<Seq<u8>>, k: int)
    requires
        0 < k <= input.len(),
    ensures
        k <= spec_text_end(input, terms, k) <= input.len(),
        forall|j: int|
            k <= j < spec_text_end(input, terms, k) ==> !spec_text_stops(
                #[trigger] input.skip(j),
                terms,
            ),
        spec_text_end(input, terms, k) < input.len() ==> spec_text_stops(
            input.skip(spec_text_end(input, terms, k)),
            terms,
        ),
    decreases input.len() - k,
{
    if k < input.len() && !spec_text_stops(input.skip(k), terms) {
        theorem_text_ends_at_the_first_stop(input, terms, k + 1);
    }
}

/// A text spells what it is parsed to: it is made of the tags and the plain
/// texts of the result, one after the other, with nothing between them,
/// nothing left out and nothing used twice. Only the spelling of the tags is
/// not kept in the result: the case of their letters, and the form of a
/// color or a size.
pub proof fn theorem_text_spells_its_parse(input: Seq<u8>)
    ensures
        spells_all(spec_parse(input), input, input.len() as int),
{
    lemma_parse_spelled(input);
}

/// What a segment takes of a text spells the segment, whatever encloses it.
pub proof fn theorem_segment_is_spelled(input: Seq<u8>, terms: Seq<Seq<u8>>)
    ensures
        spec_segment(input, terms) matches Some((node, n)) ==> spells(node, input, n),
{
    lemma_segment_spelled(input, terms);
}

/// The visible text of what a text is parsed to is made of bytes of that
/// text, in their order, each used once: nothing is added, repeated or moved.
pub proof fn theorem_visible_text_comes_from_input(input: Seq<u8>)
    ensures
        embeds(visible_all(spec_parse(input)), input),
{
    lemma_parse_kept(input);
    assert(input.subrange(0, input.len() as int) =~= input);
}

/// A text without an opening bracket is parsed to itself, as one piece of
/// plain text: nothing of it is lost.
pub proof fn theorem_text_without_brackets(input: Seq<u8>)
    requires
        input.len() > 0,
        forall|i: int| 0 <= i < input.len() ==> input[i] != OPEN_BRACKET,
    ensures
        spec_parse(input) == seq![Node::Text(input)],
{
    let none: Seq<Seq<u8>> = seq![];
    lemma_plain_to_the_end(input, 1);
    lemma_coded_segment_opens(input);
    assert(!leads_any(none, input)) by {
        reveal(leads_any);
    }
    assert(input.subrange(0, input.len() as int) =~= input);
    assert(input.skip(input.len() as int) =~= Seq::<u8>::empty());
    assert(spec_parse(input.skip(input.len() as int)) =~= Seq::<Node>::empty());
    assert(seq![Node::Text(input)] + Seq::<Node>::empty() =~= seq![Node::Text(input)]);
}

/// Where nothing encloses the text, it has to stop only before an opening
/// bracket.
proof fn lemma_stops_before_bracket(rest: Seq<u8>)
    requires
        rest.len() > 0,
        rest[0] != OPEN_BRACKET,
    ensures
        !spec_text_stops(rest, seq![]),
{
    let none: Seq<Seq<u8>> = seq![];
    lemma_coded_segment_opens(rest);
    assert(!leads_any(none, rest)) by {
        reveal(leads_any);
    }
}

/// Plain text without an opening bracket runs to the end.
proof fn lemma_plain_to_the_end(input: Seq<u8>, k: int)
    requires
        0 < k <= input.len(),
        forall|i: int| 0 <= i < input.len() ==> input[i] != OPEN_BRACKET,
    ensures
        spec_text_end(input, seq![], k) == input.len(),
    decreases input.len() - k,
{
    if k < input.len() {
        assert(input.skip(k)[0] == input[k]);
        lemma_stops_before_bracket(input.skip(k));
        lemma_plain_to_the_end(input, k + 1);
    }
}

/// Every size that the parser yields lies strictly between 1 and 30.
pub proof fn theorem_sizes_are_in_bounds(input: Seq<u8>)
    ensures
        nodes_wf(spec_parse(input)),
        spec_size_head(input) matches Some((size, _)) ==> 2 <= size <= 29,
{
    lemma_parse_kept(input);
    reveal(spec_size_head);
}

/// The closing tag of a segment that has one.
pub open spec fn closer_of(node: Node) -> Seq<u8> {
    match node {
        Node::Text(_) => seq![],
        Node::Decorated { style, text } => decoration_closer(style),
        Node::Quote { attribution, body } => "[/quote]".spec_bytes(),
        Node::Code(_) => "[/code]".spec_bytes(),
        Node::List { style, items } => "[/list]".spec_bytes(),
        Node::Link { target, text } => "[/url]".spec_bytes(),
        Node::Image { src } => "[/img]".spec_bytes(),
    }
}

/// Whether the first `n` bytes of `input` end with `close`, ASCII case
/// ignored.
pub open spec fn ends_with(input: Seq<u8>, n: int, close: Seq<u8>) -> bool {
    close.len() <= n <= input.len() && leads_no_case(close, input.skip(n - close.len()))
}

/// What is delimited ends with its closing tag.
proof fn lemma_delimited_ends(input: Seq<u8>, open: Seq<u8>, close: Seq<u8>)
    ensures
        spec_delimited(input, open, close) matches Some((_, n)) ==> ends_with(input, n, close),
{
    reveal(spec_delimited);
    if spec_delimited(input, open, close) is Some {
        let after = input.skip(open.len() as int);
        lemma_find_no_case_found(close, after, 0);
        let k = find_no_case(close, after, 0)->0;
        assert(after.skip(k) =~= input.skip(open.len() + k));
    }
}

/// No tag without its closing tag: where a tag is recognized, what it takes
/// ends with the closing tag of its kind, so an opening tag that no such
/// closing tag follows is never made into a decorated span, a quote, a
/// list, a link, a code block or an image.
pub proof fn theorem_tag_ends_with_its_closer(input: Seq<u8>)
    ensures
        spec_coded_segment(input) matches Some((node, n)) ==> ends_with(input, n, closer_of(node))
            && find_no_case(closer_of(node), input, 0) is Some,
{
    if spec_coded_segment(input) is Some {
        let (node, n) = spec_coded_segment(input)->0;
        lemma_coded_segment_spelled(input);
        lemma_delimited_ends(input, "[code]".spec_bytes(), "[/code]".spec_bytes());
        lemma_delimited_ends(input, "[img]".spec_bytes(), "[/img]".spec_bytes());
        lemma_delimited_ends(input, "[url]".spec_bytes(), "[/url]".spec_bytes());
        assert(ends_with(input, n, closer_of(node)));
        lemma_find_no_case_found(closer_of(node), input, 0);
    }
}

} // verus!
