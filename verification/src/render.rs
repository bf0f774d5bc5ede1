//! Turning a tree of segments into output.
//!
//! A [`Renderer`] has one pair of hooks for each kind of segment that has
//! children and one hook for each kind that has none. [`render`] walks a
//! tree and calls them in document order: [`events_of_all`] says which calls
//! that makes. Where a hook fails, the walk ends there, with what the hook
//! failed with. [`SimpleHtml`] is a renderer that writes HTML into a buffer,
//! and never fails.

use core::convert::Infallible;
use crate::{attribution_bytes, items_of, nodes_of, Segment};
use crate::decoration::DecorationStyle;
use crate::grammar::Node;
use crate::list::ListStyle;
use vstd::prelude::*;
use vstd::string::StringSliceAdditionalSpecFns;

verus! {

/// One call of a hook, with what it was called on.
pub enum Event {
    Text(Seq<u8>),
    DecorationBegin(DecorationStyle),
    DecorationEnd(DecorationStyle),
    QuoteBegin(Option<Seq<u8>>),
    QuoteEnd(Option<Seq<u8>>),
    Code(Seq<u8>),
    ListBegin(ListStyle),
    ListItemBegin(ListStyle),
    ListItemEnd(ListStyle),
    ListEnd(ListStyle),
    LinkBegin(Seq<u8>),
    LinkEnd(Seq<u8>),
    Image(Seq<u8>),
}

/// The calls that rendering one segment makes, in order: for a segment with
/// children its begin hook, the calls for each child, its end hook; for
/// another its one hook.
pub open spec fn events_of(node: Node) -> Seq<Event>
    decreases node, 0int,
{
    match node {
        Node::Text(t) => seq![Event::Text(t)],
        Node::Decorated { style, text } => seq![Event::DecorationBegin(style)] + events_of_all(text)
            + seq![Event::DecorationEnd(style)],
        Node::Quote { attribution, body } => seq![Event::QuoteBegin(attribution)] + events_of_all(
            body,
        ) + seq![Event::QuoteEnd(attribution)],
        Node::Code(t) => seq![Event::Code(t)],
        Node::List { style, items } => seq![Event::ListBegin(style)] + events_of_items(style, items)
            + seq![Event::ListEnd(style)],
        Node::Link { target, text } => seq![Event::LinkBegin(target)] + events_of_all(text) + seq![
            Event::LinkEnd(target),
        ],
        Node::Image { src } => seq![Event::Image(src)],
    }
}

/// The calls that rendering a sequence of segments makes.
pub open spec fn events_of_all(nodes: Seq<Node>) -> Seq<Event>
    decreases nodes, 1int,
{
    if nodes.len() == 0 {
        seq![]
    } else {
        events_of_all(nodes.drop_last()) + events_of(nodes.last())
    }
}

/// The calls that rendering the items of a list makes: each item stands
/// between the two item hooks.
pub open spec fn events_of_items(style: ListStyle, items: Seq<Seq<Node>>) -> Seq<Event>
    decreases items, 1int,
{
    if items.len() == 0 {
        seq![]
    } else {
        events_of_items(style, items.drop_last()) + (seq![Event::ListItemBegin(style)]
            + events_of_all(items.last()) + seq![Event::ListItemEnd(style)])
    }
}

/// Whether `states` are what `before` becomes, one state after the other,
/// while it takes the steps that `events` name, and `after` is the last.
pub open spec fn is_run<R>(
    step: spec_fn(R, Event, R) -> bool,
    states: Seq<R>,
    before: R,
    events: Seq<Event>,
    after: R,
) -> bool {
    &&& states.len() == events.len() + 1
    &&& states[0] == before
    &&& states[events.len() as int] == after
    &&& forall|i: int|
        0 <= i < events.len() ==> step(states[i], #[trigger] events[i], states[i + 1])
}

/// Whether `after` is `before` once it has taken the steps that `events`
/// name, one after the other and no others.
pub open spec fn runs<R>(
    step: spec_fn(R, Event, R) -> bool,
    before: R,
    events: Seq<Event>,
    after: R,
) -> bool {
    exists|states: Seq<R>| #[trigger] is_run(step, states, before, events, after)
}

/// Taking no step is a run.
pub proof fn lemma_runs_none<R>(step: spec_fn(R, Event, R) -> bool, state: R)
    ensures
        runs(step, state, seq![], state),
{
    assert(is_run(step, seq![state], state, seq![], state));
}

/// One step is a run.
pub proof fn lemma_runs_one<R>(
    step: spec_fn(R, Event, R) -> bool,
    before: R,
    event: Event,
    after: R,
)
    requires
        step(before, event, after),
    ensures
        runs(step, before, seq![event], after),
{
    assert(is_run(step, seq![before, after], before, seq![event], after));
}

/// Two runs, one after the other, are one run.
pub proof fn lemma_runs_both<R>(
    step: spec_fn(R, Event, R) -> bool,
    before: R,
    first: Seq<Event>,
    mid: R,
    second: Seq<Event>,
    after: R,
)
    requires
        runs(step, before, first, mid),
        runs(step, mid, second, after),
    ensures
        runs(step, before, first + second, after),
{
    let a = choose|a: Seq<R>| is_run(step, a, before, first, mid);
    let b = choose|b: Seq<R>| is_run(step, b, mid, second, after);
    let states = a + b.subrange(1, b.len() as int);
    let events = first + second;
    assert forall|i: int| 0 <= i < events.len() implies step(
        states[i],
        #[trigger] events[i],
        states[i + 1],
    ) by {
        if i < first.len() {
            assert(step(a[i], first[i], a[i + 1]));
            if i + 1 == first.len() {
                assert(states[i + 1] == mid);
            }
        } else {
            let j = i - first.len();
            assert(step(b[j], second[j], b[j + 1]));
            assert(states[i + 1] == b[j + 1]);
            if j == 0 {
                assert(states[i] == mid);
            } else {
                assert(states[i] == b[j]);
            }
        }
    }
    assert(is_run(step, states, before, events, after));
}

/// What renders a tree of segments: one pair of hooks for each kind of
/// segment with children, one hook for each other kind.
///
/// What a hook does is for the renderer to say: `handles` says what holds
/// when a hook returns, `fails` what holds when it fails.
pub trait Renderer: Sized {
    /// What a hook fails with.
    type Err;

    /// Whether `after` is this renderer once it has handled `event`. This is
    /// what each hook promises of itself. A renderer that leaves it as it
    /// stands here promises nothing.
    open spec fn handles(&self, event: Event, after: Self) -> bool {
        true
    }

    /// Whether `after` is this renderer once its hook for `event` has failed
    /// with `error`. A renderer that leaves it as it stands here promises
    /// nothing.
    open spec fn fails(&self, event: Event, after: Self, error: Self::Err) -> bool {
        true
    }

    /// Whether a hook of this renderer can fail. A renderer that leaves it
    /// as it stands here does not promise to succeed.
    open spec fn fallible() -> bool {
        true
    }

    /// Output some plain text.
    fn text(&mut self, s: &str) -> (r: Result<(), Self::Err>)
        ensures
            r is Ok ==> old(self).handles(Event::Text(s.spec_bytes()), *final(self)),
            r matches Err(error) ==> Self::fallible() && old(self).fails(
                Event::Text(s.spec_bytes()),
                *final(self),
                error,
            ),
    ;

    /// Output the beginning of a decorated text block.
    fn decoration_begin(&mut self, style: DecorationStyle) -> (r: Result<(), Self::Err>)
        ensures
            r is Ok ==> old(self).handles(Event::DecorationBegin(style), *final(self)),
            r matches Err(error) ==> Self::fallible() && old(self).fails(
                Event::DecorationBegin(style),
                *final(self),
                error,
            ),
    ;

    /// Output the end of a decorated text block.
    fn decoration_end(&mut self, style: DecorationStyle) -> (r: Result<(), Self::Err>)
        ensures
            r is Ok ==> old(self).handles(Event::DecorationEnd(style), *final(self)),
            r matches Err(error) ==> Self::fallible() && old(self).fails(
                Event::DecorationEnd(style),
                *final(self),
                error,
            ),
    ;

    /// Output the beginning of a block quote.
    fn quote_begin(&mut self, attribution: &Option<&str>) -> (r: Result<(), Self::Err>)
        ensures
            r is Ok ==> old(self).handles(
                Event::QuoteBegin(attribution_bytes(*attribution)),
                *final(self),
            ),
            r matches Err(error) ==> Self::fallible() && old(self).fails(
                Event::QuoteBegin(attribution_bytes(*attribution)),
                *final(self),
                error,
            ),
    ;

    /// Output the end of a block quote.
    fn quote_end(&mut self, attribution: &Option<&str>) -> (r: Result<(), Self::Err>)
        ensures
            r is Ok ==> old(self).handles(
                Event::QuoteEnd(attribution_bytes(*attribution)),
                *final(self),
            ),
            r matches Err(error) ==> Self::fallible() && old(self).fails(
                Event::QuoteEnd(attribution_bytes(*attribution)),
                *final(self),
                error,
            ),
    ;

    /// Output a block of code with contents `s`.
    fn code(&mut self, s: &str) -> (r: Result<(), Self::Err>)
        ensures
            r is Ok ==> old(self).handles(Event::Code(s.spec_bytes()), *final(self)),
            r matches Err(error) ==> Self::fallible() && old(self).fails(
                Event::Code(s.spec_bytes()),
                *final(self),
                error,
            ),
    ;

    /// Output the beginning of a list.
    fn list_begin(&mut self, style: ListStyle) -> (r: Result<(), Self::Err>)
        ensures
            r is Ok ==> old(self).handles(Event::ListBegin(style), *final(self)),
            r matches Err(error) ==> Self::fallible() && old(self).fails(
                Event::ListBegin(style),
                *final(self),
                error,
            ),
    ;

    /// Output the beginning of a list item.
    fn list_item_begin(&mut self, style: ListStyle) -> (r: Result<(), Self::Err>)
        ensures
            r is Ok ==> old(self).handles(Event::ListItemBegin(style), *final(self)),
            r matches Err(error) ==> Self::fallible() && old(self).fails(
                Event::ListItemBegin(style),
                *final(self),
                error,
            ),
    ;

    /// Output the end of a list item.
    fn list_item_end(&mut self, style: ListStyle) -> (r: Result<(), Self::Err>)
        ensures
            r is Ok ==> old(self).handles(Event::ListItemEnd(style), *final(self)),
            r matches Err(error) ==> Self::fallible() && old(self).fails(
                Event::ListItemEnd(style),
                *final(self),
                error,
            ),
    ;

    /// Output the end of a list.
    fn list_end(&mut self, style: ListStyle) -> (r: Result<(), Self::Err>)
        ensures
            r is Ok ==> old(self).handles(Event::ListEnd(style), *final(self)),
            r matches Err(error) ==> Self::fallible() && old(self).fails(
                Event::ListEnd(style),
                *final(self),
                error,
            ),
    ;

    /// Output the beginning of a link.
    fn link_begin(&mut self, target: &str) -> (r: Result<(), Self::Err>)
        ensures
            r is Ok ==> old(self).handles(Event::LinkBegin(target.spec_bytes()), *final(self)),
            r matches Err(error) ==> Self::fallible() && old(self).fails(
                Event::LinkBegin(target.spec_bytes()),
                *final(self),
                error,
            ),
    ;

    /// Output the end of a link.
    fn link_end(&mut self, target: &str) -> (r: Result<(), Self::Err>)
        ensures
            r is Ok ==> old(self).handles(Event::LinkEnd(target.spec_bytes()), *final(self)),
            r matches Err(error) ==> Self::fallible() && old(self).fails(
                Event::LinkEnd(target.spec_bytes()),
                *final(self),
                error,
            ),
    ;

    /// Output an image.
    fn image(&mut self, src: &str) -> (r: Result<(), Self::Err>)
        ensures
            r is Ok ==> old(self).handles(Event::Image(src.spec_bytes()), *final(self)),
            r matches Err(error) ==> Self::fallible() && old(self).fails(
                Event::Image(src.spec_bytes()),
                *final(self),
                error,
            ),
    ;
}

/// What a hook promises: where it returns, the renderer has handled the
/// event; where it fails, the renderer is one that can fail, and what holds
/// of a failed hook holds.
pub open spec fn done<R: Renderer>(
    before: R,
    event: Event,
    after: R,
    r: Result<(), R::Err>,
) -> bool {
    match r {
        Ok(_) => before.handles(event, after),
        Err(error) => R::fallible() && before.fails(event, after, error),
    }
}

/// The steps that a renderer of type `R` takes: what its hooks promise.
pub open spec fn steps_of<R: Renderer>() -> spec_fn(R, Event, R) -> bool {
    |before: R, event: Event, after: R| before.handles(event, after)
}

/// Whether `after` is `before` once it has handled some of `events`, from
/// the first on and one after the other, and its hook for the next has
/// failed with `error`: no hook was called after the one that failed.
pub open spec fn stops<R: Renderer>(
    before: R,
    events: Seq<Event>,
    after: R,
    error: R::Err,
) -> bool {
    exists|k: int, mid: R|
        0 <= k < events.len() && #[trigger] runs(
            steps_of::<R>(),
            before,
            events.subrange(0, k),
            mid,
        ) && mid.fails(events[k], after, error)
}

/// What holds of a renderer that was given `events` to handle: where that
/// went well, it has handled them all; where not, it has stopped at the hook
/// that failed, and failed with what that hook failed with.
pub open spec fn rendered<R: Renderer>(
    before: R,
    events: Seq<Event>,
    after: R,
    r: Result<(), R::Err>,
) -> bool {
    match r {
        Ok(_) => runs(steps_of::<R>(), before, events, after),
        Err(error) => R::fallible() && stops(before, events, after, error),
    }
}

/// A renderer that stops within some events stops within them and more.
pub proof fn lemma_stops_early<R: Renderer>(
    before: R,
    events: Seq<Event>,
    more: Seq<Event>,
    after: R,
    error: R::Err,
)
    requires
        stops(before, events, after, error),
    ensures
        stops(before, events + more, after, error),
{
    let (k, mid) = choose|k: int, mid: R|
        0 <= k < events.len() && #[trigger] runs(
            steps_of::<R>(),
            before,
            events.subrange(0, k),
            mid,
        ) && mid.fails(events[k], after, error);
    assert((events + more).subrange(0, k) =~= events.subrange(0, k));
    assert(runs(steps_of::<R>(), before, (events + more).subrange(0, k), mid));
}

/// A renderer that has handled some events and then stops within more stops
/// within all of them.
pub proof fn lemma_stops_later<R: Renderer>(
    before: R,
    first: Seq<Event>,
    mid: R,
    events: Seq<Event>,
    after: R,
    error: R::Err,
)
    requires
        runs(steps_of::<R>(), before, first, mid),
        stops(mid, events, after, error),
    ensures
        stops(before, first + events, after, error),
{
    let (k, last) = choose|k: int, last: R|
        0 <= k < events.len() && #[trigger] runs(
            steps_of::<R>(),
            mid,
            events.subrange(0, k),
            last,
        ) && last.fails(events[k], after, error);
    lemma_runs_both(steps_of::<R>(), before, first, mid, events.subrange(0, k), last);
    let all = first + events;
    assert(all.subrange(0, first.len() + k) =~= first + events.subrange(0, k));
    assert(all[first.len() + k] == events[k]);
    assert(runs(steps_of::<R>(), before, all.subrange(0, first.len() + k), last));
}

/// A renderer whose hook for the next event fails stops there.
pub proof fn lemma_stops_here<R: Renderer>(
    before: R,
    first: Seq<Event>,
    mid: R,
    event: Event,
    after: R,
    error: R::Err,
)
    requires
        runs(steps_of::<R>(), before, first, mid),
        mid.fails(event, after, error),
    ensures
        stops(before, first + seq![event], after, error),
{
    let all = first + seq![event];
    assert(all.subrange(0, first.len() as int) =~= first);
    assert(all[first.len() as int] == event);
    assert(runs(steps_of::<R>(), before, all.subrange(0, first.len() as int), mid));
}

/// What one hook has done is what rendering its one event has done.
pub proof fn lemma_rendered_one<R: Renderer>(
    before: R,
    event: Event,
    after: R,
    r: Result<(), R::Err>,
)
    requires
        done(before, event, after, r),
    ensures
        rendered(before, seq![event], after, r),
{
    match r {
        Ok(_) => {
            lemma_runs_one(steps_of::<R>(), before, event, after);
        },
        Err(error) => {
            lemma_runs_none(steps_of::<R>(), before);
            lemma_stops_here(before, seq![], before, event, after, error);
            assert(Seq::<Event>::empty() + seq![event] =~= seq![event]);
        },
    }
}

/// What rendering some events and then more has done is what rendering all
/// of them has done, where the first went well.
pub proof fn lemma_rendered_then<R: Renderer>(
    before: R,
    first: Seq<Event>,
    mid: R,
    second: Seq<Event>,
    after: R,
    r: Result<(), R::Err>,
)
    requires
        runs(steps_of::<R>(), before, first, mid),
        rendered(mid, second, after, r),
    ensures
        rendered(before, first + second, after, r),
{
    match r {
        Ok(_) => {
            lemma_runs_both(steps_of::<R>(), before, first, mid, second, after);
        },
        Err(error) => {
            lemma_stops_later(before, first, mid, second, after, error);
        },
    }
}

/// Where rendering some events failed, rendering them and more has failed
/// in the same way.
pub proof fn lemma_rendered_short<R: Renderer>(
    before: R,
    events: Seq<Event>,
    more: Seq<Event>,
    after: R,
    r: Result<(), R::Err>,
)
    requires
        r is Err,
        rendered(before, events, after, r),
    ensures
        rendered(before, events + more, after, r),
{
    lemma_stops_early(before, events, more, after, r->Err_0);
}

/// The calls for segments, and then for more, are the calls for all of them.
pub proof fn lemma_events_of_both(first: Seq<Node>, second: Seq<Node>)
    ensures
        events_of_all(first + second) == events_of_all(first) + events_of_all(second),
    decreases second.len(),
{
    if second.len() == 0 {
        assert(first + second =~= first);
        assert(events_of_all(first) + events_of_all(second) =~= events_of_all(first));
    } else {
        lemma_events_of_both(first, second.drop_last());
        assert((first + second).drop_last() =~= first + second.drop_last());
        assert((first + second).last() == second.last());
        assert(events_of_all(first + second) =~= events_of_all(first) + events_of_all(second));
    }
}

/// The calls for items, and then for more, are the calls for all of them.
pub proof fn lemma_events_of_items_both(
    style: ListStyle,
    first: Seq<Seq<Node>>,
    second: Seq<Seq<Node>>,
)
    ensures
        events_of_items(style, first + second) == events_of_items(style, first) + events_of_items(
            style,
            second,
        ),
    decreases second.len(),
{
    if second.len() == 0 {
        assert(first + second =~= first);
        assert(events_of_items(style, first) + events_of_items(style, second) =~= events_of_items(
            style,
            first,
        ));
    } else {
        lemma_events_of_items_both(style, first, second.drop_last());
        assert((first + second).drop_last() =~= first + second.drop_last());
        assert((first + second).last() == second.last());
        assert(events_of_items(style, first + second) =~= events_of_items(style, first)
            + events_of_items(style, second));
    }
}

/// Renders `segments` in order: calls the begin hook of each segment with
/// children, renders the children, calls the end hook; calls the one hook of
/// each other segment. Stops at the first hook that fails, and fails with
/// what that hook failed with. Where no hook fails, and so where there is
/// nothing to render, it succeeds.
pub fn render<R: Renderer>(renderer: &mut R, segments: &Vec<Segment>) -> (r: Result<(), R::Err>)
    ensures
        rendered(*old(renderer), events_of_all(nodes_of(segments@)), *final(renderer), r),
    decreases segments,
{
    let ghost start = *renderer;
    let ghost nodes = nodes_of(segments@);
    let mut i: usize = 0;
    proof {
        assert(nodes.subrange(0, 0) =~= Seq::<Node>::empty());
        lemma_runs_none(steps_of::<R>(), start);
    }
    while i < segments.len()
        invariant
            i <= segments.len(),
            start == *old(renderer),
            nodes == nodes_of(segments@),
            runs(steps_of::<R>(), start, events_of_all(nodes.subrange(0, i as int)), *renderer),
        decreases segments.len() - i,
    {
        let ghost before = *renderer;
        let ghost handled = events_of_all(nodes.subrange(0, i as int));
        let r = render_segment(renderer, &segments[i]);
        proof {
            let upto = nodes.subrange(0, i + 1);
            assert(upto.drop_last() =~= nodes.subrange(0, i as int));
            assert(upto.last() == segments@[i as int]@);
            lemma_rendered_then(start, handled, before, events_of(nodes[i as int]), *renderer, r);
            if r is Err {
                let rest = nodes.subrange(i + 1, nodes.len() as int);
                lemma_events_of_both(upto, rest);
                assert(upto + rest =~= nodes);
                lemma_rendered_short(
                    start,
                    events_of_all(upto),
                    events_of_all(rest),
                    *renderer,
                    r,
                );
            }
        }
        if r.is_err() {
            return r;
        }
        i += 1;
    }
    proof {
        assert(nodes.subrange(0, i as int) =~= nodes);
    }
    Ok(())
}

/// Renders one segment.
pub fn render_segment<R: Renderer>(renderer: &mut R, segment: &Segment) -> (r: Result<(), R::Err>)
    ensures
        rendered(*old(renderer), events_of(segment@), *final(renderer), r),
    decreases segment,
{
    let ghost start = *renderer;
    match segment {
        Segment::Text(s) => {
            let r = renderer.text(s);
            proof {
                lemma_rendered_one(start, Event::Text(s.spec_bytes()), *renderer, r);
            }
            r
        },
        Segment::Code(s) => {
            let r = renderer.code(s);
            proof {
                lemma_rendered_one(start, Event::Code(s.spec_bytes()), *renderer, r);
            }
            r
        },
        Segment::Image { src } => {
            let r = renderer.image(src);
            proof {
                lemma_rendered_one(start, Event::Image(src.spec_bytes()), *renderer, r);
            }
            r
        },
        Segment::Decorated { style, text } => {
            let ghost begin = Event::DecorationBegin(*style);
            let ghost end = Event::DecorationEnd(*style);
            let ghost inner = events_of_all(nodes_of(text@));
            let r = renderer.decoration_begin(*style);
            proof {
                lemma_begun(start, begin, inner, end, *renderer, r);
            }
            if r.is_err() {
                return r;
            }
            let ghost opened = *renderer;
            let r = render(renderer, text);
            proof {
                lemma_filled(start, begin, opened, inner, end, *renderer, r);
            }
            if r.is_err() {
                return r;
            }
            let ghost filled = *renderer;
            let r = renderer.decoration_end(*style);
            proof {
                lemma_ended(start, begin, inner, filled, end, *renderer, r);
            }
            r
        },
        Segment::Quote { attribution, body } => {
            let ghost begin = Event::QuoteBegin(attribution_bytes(*attribution));
            let ghost end = Event::QuoteEnd(attribution_bytes(*attribution));
            let ghost inner = events_of_all(nodes_of(body@));
            let r = renderer.quote_begin(attribution);
            proof {
                lemma_begun(start, begin, inner, end, *renderer, r);
            }
            if r.is_err() {
                return r;
            }
            let ghost opened = *renderer;
            let r = render(renderer, body);
            proof {
                lemma_filled(start, begin, opened, inner, end, *renderer, r);
            }
            if r.is_err() {
                return r;
            }
            let ghost filled = *renderer;
            let r = renderer.quote_end(attribution);
            proof {
                lemma_ended(start, begin, inner, filled, end, *renderer, r);
            }
            r
        },
        Segment::Link { target, text } => {
            let ghost begin = Event::LinkBegin(target.spec_bytes());
            let ghost end = Event::LinkEnd(target.spec_bytes());
            let ghost inner = events_of_all(nodes_of(text@));
            let r = renderer.link_begin(target);
            proof {
                lemma_begun(start, begin, inner, end, *renderer, r);
            }
            if r.is_err() {
                return r;
            }
            let ghost opened = *renderer;
            let r = render(renderer, text);
            proof {
                lemma_filled(start, begin, opened, inner, end, *renderer, r);
            }
            if r.is_err() {
                return r;
            }
            let ghost filled = *renderer;
            let r = renderer.link_end(target);
            proof {
                lemma_ended(start, begin, inner, filled, end, *renderer, r);
            }
            r
        },
        Segment::List { style, items } => {
            let ghost begin = Event::ListBegin(*style);
            let ghost end = Event::ListEnd(*style);
            let ghost inner = events_of_items(*style, items_of(items@));
            let r = renderer.list_begin(*style);
            proof {
                lemma_begun(start, begin, inner, end, *renderer, r);
            }
            if r.is_err() {
                return r;
            }
            let ghost opened = *renderer;
            let r = render_items(renderer, *style, items);
            proof {
                lemma_filled(start, begin, opened, inner, end, *renderer, r);
            }
            if r.is_err() {
                return r;
            }
            let ghost filled = *renderer;
            let r = renderer.list_end(*style);
            proof {
                lemma_ended(start, begin, inner, filled, end, *renderer, r);
            }
            r
        },
    }
}

/// Renders the items of a list, each between the two item hooks.
pub fn render_items<R: Renderer>(
    renderer: &mut R,
    style: ListStyle,
    items: &Vec<Vec<Segment>>,
) -> (r: Result<(), R::Err>)
    ensures
        rendered(*old(renderer), events_of_items(style, items_of(items@)), *final(renderer), r),
    decreases items,
{
    let ghost start = *renderer;
    let ghost all = items_of(items@);
    let ghost begin = Event::ListItemBegin(style);
    let ghost end = Event::ListItemEnd(style);
    let mut i: usize = 0;
    proof {
        assert(all.subrange(0, 0) =~= Seq::<Seq<Node>>::empty());
        lemma_runs_none(steps_of::<R>(), start);
    }
    while i < items.len()
        invariant
            i <= items.len(),
            start == *old(renderer),
            all == items_of(items@),
            begin == Event::ListItemBegin(style),
            end == Event::ListItemEnd(style),
            runs(
                steps_of::<R>(),
                start,
                events_of_items(style, all.subrange(0, i as int)),
                *renderer,
            ),
        decreases items.len() - i,
    {
        let ghost before = *renderer;
        let ghost handled = events_of_items(style, all.subrange(0, i as int));
        let ghost inner = events_of_all(all[i as int]);
        let ghost upto = all.subrange(0, i + 1);
        let ghost rest = all.subrange(i + 1, all.len() as int);
        proof {
            assert(upto.drop_last() =~= all.subrange(0, i as int));
            assert(upto.last() == all[i as int]);
            assert(upto + rest =~= all);
            lemma_events_of_items_both(style, upto, rest);
        }
        let r = renderer.list_item_begin(style);
        proof {
            lemma_begun(before, begin, inner, end, *renderer, r);
            lemma_item_rendered(
                style,
                start,
                handled,
                before,
                begin,
                inner,
                end,
                rest,
                *renderer,
                r,
            );
        }
        if r.is_err() {
            return r;
        }
        let ghost opened = *renderer;
        let r = render(renderer, &items[i]);
        proof {
            lemma_filled(before, begin, opened, inner, end, *renderer, r);
            lemma_item_rendered(
                style,
                start,
                handled,
                before,
                begin,
                inner,
                end,
                rest,
                *renderer,
                r,
            );
        }
        if r.is_err() {
            return r;
        }
        let ghost filled = *renderer;
        let r = renderer.list_item_end(style);
        proof {
            lemma_ended(before, begin, inner, filled, end, *renderer, r);
            lemma_rendered_then(
                start,
                handled,
                before,
                seq![begin] + inner + seq![end],
                *renderer,
                r,
            );
            lemma_item_rendered(
                style,
                start,
                handled,
                before,
                begin,
                inner,
                end,
                rest,
                *renderer,
                r,
            );
        }
        if r.is_err() {
            return r;
        }
        i += 1;
    }
    proof {
        assert(all.subrange(0, i as int) =~= all);
    }
    Ok(())
}

/// Where a hook within an item has failed, rendering the items has failed in
/// the same way.
proof fn lemma_item_rendered<R: Renderer>(
    style: ListStyle,
    start: R,
    handled: Seq<Event>,
    before: R,
    begin: Event,
    inner: Seq<Event>,
    end: Event,
    rest: Seq<Seq<Node>>,
    after: R,
    r: Result<(), R::Err>,
)
    requires
        runs(steps_of::<R>(), start, handled, before),
        r is Err ==> rendered(before, seq![begin] + inner + seq![end], after, r),
    ensures
        r is Err ==> rendered(
            start,
            handled + (seq![begin] + inner + seq![end]) + events_of_items(style, rest),
            after,
            r,
        ),
{
    if r is Err {
        let item = seq![begin] + inner + seq![end];
        lemma_rendered_then(start, handled, before, item, after, r);
        lemma_rendered_short(start, handled + item, events_of_items(style, rest), after, r);
    }
}

/// What the begin hook of a segment with children has done: where it
/// failed, rendering the segment has failed in the same way.
proof fn lemma_begun<R: Renderer>(
    start: R,
    begin: Event,
    inner: Seq<Event>,
    end: Event,
    after: R,
    r: Result<(), R::Err>,
)
    requires
        done(start, begin, after, r),
    ensures
        r is Err ==> rendered(start, seq![begin] + inner + seq![end], after, r),
        r is Ok ==> start.handles(begin, after),
{
    if r is Err {
        lemma_rendered_one(start, begin, after, r);
        lemma_rendered_short(start, seq![begin], inner + seq![end], after, r);
        assert(seq![begin] + (inner + seq![end]) =~= seq![begin] + inner + seq![end]);
    }
}

/// What rendering the children of a segment has done: where it failed,
/// rendering the segment has failed in the same way.
proof fn lemma_filled<R: Renderer>(
    start: R,
    begin: Event,
    opened: R,
    inner: Seq<Event>,
    end: Event,
    after: R,
    r: Result<(), R::Err>,
)
    requires
        start.handles(begin, opened),
        rendered(opened, inner, after, r),
    ensures
        r is Err ==> rendered(start, seq![begin] + inner + seq![end], after, r),
        r is Ok ==> runs(steps_of::<R>(), start, seq![begin] + inner, after),
{
    lemma_runs_one(steps_of::<R>(), start, begin, opened);
    lemma_rendered_then(start, seq![begin], opened, inner, after, r);
    if r is Err {
        lemma_rendered_short(start, seq![begin] + inner, seq![end], after, r);
    }
}

/// What the end hook of a segment with children has done is what rendering
/// the segment has done.
proof fn lemma_ended<R: Renderer>(
    start: R,
    begin: Event,
    inner: Seq<Event>,
    filled: R,
    end: Event,
    after: R,
    r: Result<(), R::Err>,
)
    requires
        runs(steps_of::<R>(), start, seq![begin] + inner, filled),
        done(filled, end, after, r),
    ensures
        rendered(start, seq![begin] + inner + seq![end], after, r),
{
    lemma_rendered_one(filled, end, after, r);
    lemma_rendered_then(start, seq![begin] + inner, filled, seq![end], after, r);
}

/// `&`
pub const AMPERSAND: u8 = 0x26;

/// `<`
pub const LESS_THAN: u8 = 0x3c;

/// `>`
pub const GREATER_THAN: u8 = 0x3e;

/// `"`
pub const QUOTATION_MARK: u8 = 0x22;

/// A line feed.
pub const LINE_FEED: u8 = 0x0a;

/// Where a piece of text goes, which decides what has to be replaced in it.
#[derive(PartialEq, Eq, Structural, Debug, Clone, Copy, Hash)]
pub enum Escaping {
    /// Running text: `&`, `<` and `>` are escaped, and a line feed becomes a
    /// line break.
    Text,
    /// Preformatted text: `&`, `<` and `>` are escaped.
    Code,
    /// The value of an attribute: `<`, `>` and `"` are escaped.
    Attribute,
}

impl Escaping {
    /// What stands for the byte `b`.
    pub open spec fn replacement(self, b: u8) -> Seq<u8> {
        if b == LESS_THAN {
            "&lt;".spec_bytes()
        } else if b == GREATER_THAN {
            "&gt;".spec_bytes()
        } else if b == AMPERSAND && self != Escaping::Attribute {
            "&amp;".spec_bytes()
        } else if b == LINE_FEED && self == Escaping::Text {
            "<br>".spec_bytes()
        } else if b == QUOTATION_MARK && self == Escaping::Attribute {
            "&quot;".spec_bytes()
        } else {
            seq![b]
        }
    }

    /// What stands for the byte `b`, if the byte does not stand for itself.
    pub fn replace(self, b: u8) -> (r: Option<&'static str>)
        ensures
            r matches Some(s) ==> s.spec_bytes() == self.replacement(b),
            r is None ==> self.replacement(b) == seq![b],
    {
        if b == LESS_THAN {
            Some("&lt;")
        } else if b == GREATER_THAN {
            Some("&gt;")
        } else if b == AMPERSAND {
            match self {
                Escaping::Attribute => None,
                _ => Some("&amp;"),
            }
        } else if b == LINE_FEED {
            match self {
                Escaping::Text => Some("<br>"),
                _ => None,
            }
        } else if b == QUOTATION_MARK {
            match self {
                Escaping::Attribute => Some("&quot;"),
                _ => None,
            }
        } else {
            None
        }
    }
}

/// `s` with each byte replaced by what stands for it.
pub open spec fn escaped(rule: Escaping, s: Seq<u8>) -> Seq<u8>
    decreases s.len(),
{
    if s.len() == 0 {
        seq![]
    } else {
        escaped(rule, s.drop_last()) + rule.replacement(s.last())
    }
}

/// The digit for `v`, which is less than 16, in lower case.
pub open spec fn hex_digit(v: int) -> u8 {
    if v < 10 {
        (0x30 + v) as u8
    } else {
        (0x61 + v - 10) as u8
    }
}

/// The two hexadecimal digits of `b`.
pub open spec fn hex_pair(b: u8) -> Seq<u8> {
    seq![hex_digit(b as int / 16), hex_digit(b as int % 16)]
}

/// The decimal digits of `n`, without leading zeros.
pub open spec fn decimal_digits(n: int) -> Seq<u8>
    decreases n,
{
    if n < 10 {
        seq![(0x30 + n) as u8]
    } else {
        decimal_digits(n / 10) + seq![(0x30 + n % 10) as u8]
    }
}

/// The tag that opens a decorated span.
pub open spec fn decoration_open(style: DecorationStyle) -> Seq<u8> {
    match style {
        DecorationStyle::Bold => "<b>".spec_bytes(),
        DecorationStyle::Italic => "<i>".spec_bytes(),
        DecorationStyle::Underline => "<u>".spec_bytes(),
        DecorationStyle::Center => "<div style=\"text-align:center\">".spec_bytes(),
        DecorationStyle::Color(r, g, b) => "<span style=\"color: #".spec_bytes() + hex_pair(r)
            + hex_pair(g) + hex_pair(b) + "\">".spec_bytes(),
        DecorationStyle::Size(n) => "<span style=\"font-size: ".spec_bytes() + decimal_digits(
            n as int,
        ) + "\">".spec_bytes(),
    }
}

/// The tag that closes a decorated span.
pub open spec fn decoration_close(style: DecorationStyle) -> Seq<u8> {
    match style {
        DecorationStyle::Bold => "</b>".spec_bytes(),
        DecorationStyle::Italic => "</i>".spec_bytes(),
        DecorationStyle::Underline => "</u>".spec_bytes(),
        DecorationStyle::Center => "</div>".spec_bytes(),
        DecorationStyle::Color(_, _, _) => "</span>".spec_bytes(),
        DecorationStyle::Size(_) => "</span>".spec_bytes(),
    }
}

/// The HTML that [`SimpleHtml`] writes when one hook is called.
pub open spec fn html_event(event: Event) -> Seq<u8> {
    match event {
        Event::Text(t) => escaped(Escaping::Text, t),
        Event::DecorationBegin(style) => decoration_open(style),
        Event::DecorationEnd(style) => decoration_close(style),
        Event::QuoteBegin(Some(name)) => "<div>".spec_bytes() + name
            + " wrote:</div><div>".spec_bytes(),
        Event::QuoteBegin(None) => "<div>Quote:</div><div>".spec_bytes(),
        Event::QuoteEnd(_) => "</div>".spec_bytes(),
        Event::Code(t) => "<pre>".spec_bytes() + escaped(Escaping::Code, t) + "</pre>".spec_bytes(),
        Event::ListBegin(style) => match style {
            ListStyle::Unordered => "<ul>".spec_bytes(),
            ListStyle::Numeric => "<ol>".spec_bytes(),
            ListStyle::Alphabetic => "<ol type=\"a\">".spec_bytes(),
        },
        Event::ListItemBegin(_) => "<li>".spec_bytes(),
        Event::ListItemEnd(_) => "</li>".spec_bytes(),
        Event::ListEnd(style) => match style {
            ListStyle::Unordered => "</ul>".spec_bytes(),
            _ => "</ol>".spec_bytes(),
        },
        Event::LinkBegin(target) => "<a href=\"".spec_bytes() + escaped(Escaping::Attribute, target)
            + "\">".spec_bytes(),
        Event::LinkEnd(_) => "</a>".spec_bytes(),
        Event::Image(src) => "<img src=\"".spec_bytes() + escaped(Escaping::Attribute, src)
            + "\">".spec_bytes(),
    }
}

/// The HTML that [`SimpleHtml`] writes when hooks are called one after the
/// other.
pub open spec fn html_events(events: Seq<Event>) -> Seq<u8>
    decreases events.len(),
{
    if events.len() == 0 {
        seq![]
    } else {
        html_events(events.drop_last()) + html_event(events.last())
    }
}

/// The HTML that [`SimpleHtml`] renders segments to.
pub open spec fn html(nodes: Seq<Node>) -> Seq<u8> {
    html_events(events_of_all(nodes))
}

/// A renderer that writes simple HTML into a buffer.
pub struct SimpleHtml {
    out: Vec<u8>,
}

impl View for SimpleHtml {
    type V = Seq<u8>;

    /// What has been written so far.
    closed spec fn view(&self) -> Seq<u8> {
        self.out@
    }
}

/// What a run of [`SimpleHtml`] has written when it ends.
pub proof fn lemma_html_run(before: SimpleHtml, events: Seq<Event>, after: SimpleHtml)
    requires
        runs(steps_of::<SimpleHtml>(), before, events, after),
    ensures
        after@ == before@ + html_events(events),
{
    let step = steps_of::<SimpleHtml>();
    let states = choose|states: Seq<SimpleHtml>| is_run(step, states, before, events, after);
    lemma_html_states(states, events, events.len() as int);
    assert(events.subrange(0, events.len() as int) =~= events);
}

/// What [`SimpleHtml`] has written after the first `k` steps of a run.
proof fn lemma_html_states(states: Seq<SimpleHtml>, events: Seq<Event>, k: int)
    requires
        0 <= k <= events.len(),
        states.len() == events.len() + 1,
        forall|i: int|
            0 <= i < events.len() ==> states[i].handles(#[trigger] events[i], states[i + 1]),
    ensures
        states[k]@ == states[0]@ + html_events(events.subrange(0, k)),
    decreases k,
{
    if k == 0 {
        assert(states[0]@ + html_events(events.subrange(0, 0)) =~= states[0]@);
    } else {
        lemma_html_states(states, events, k - 1);
        let upto = events.subrange(0, k);
        assert(upto.drop_last() =~= events.subrange(0, k - 1));
        assert(upto.last() == events[k - 1]);
        assert(states[k - 1].handles(events[k - 1], states[k]));
        assert(states[k]@ =~= states[0]@ + html_events(upto));
    }
}

impl SimpleHtml {
    /// A renderer that writes after what `out` holds.
    pub fn new(out: Vec<u8>) -> (r: Self)
        ensures
            r@ == out@,
    {
        SimpleHtml { out }
    }

    /// Gives the buffer back, with everything that was written.
    pub fn into_inner(self) -> (out: Vec<u8>)
        ensures
            out@ == self@,
    {
        self.out
    }

    /// Renders `segments` to HTML.
    pub fn render(&mut self, segments: &Vec<Segment>) -> (r: Result<(), Infallible>)
        ensures
            r is Ok,
            final(self)@ == old(self)@ + html(nodes_of(segments@)),
    {
        let r = render(self, segments);
        proof {
            lemma_html_run(*old(self), events_of_all(nodes_of(segments@)), *self);
        }
        r
    }

    /// Writes `s` as it stands.
    pub fn put(&mut self, s: &str)
        ensures
            final(self)@ == old(self)@ + s.spec_bytes(),
    {
        let bytes = s.as_bytes();
        let ghost start = self.out@;
        let mut i: usize = 0;
        while i < bytes.len()
            invariant
                i <= bytes@.len(),
                self.out@ == start + bytes@.subrange(0, i as int),
            decreases bytes@.len() - i,
        {
            self.out.push(bytes[i]);
            assert(self.out@ =~= start + bytes@.subrange(0, i + 1));
            i += 1;
        }
        assert(bytes@.subrange(0, i as int) =~= bytes@);
    }

    /// Write `s` to output, with each byte that `rule` escapes replaced by
    /// what stands for it.
    pub fn write_escaped(&mut self, s: &str, rule: Escaping)
        ensures
            final(self)@ == old(self)@ + escaped(rule, s.spec_bytes()),
    {
        let bytes = s.as_bytes();
        let ghost start = self@;
        let mut i: usize = 0;
        while i < bytes.len()
            invariant
                i <= bytes@.len(),
                self@ == start + escaped(rule, bytes@.subrange(0, i as int)),
            decreases bytes@.len() - i,
        {
            let ghost before = self@;
            proof {
                assert(bytes@.subrange(0, i + 1).drop_last() =~= bytes@.subrange(0, i as int));
            }
            match rule.replace(bytes[i]) {
                Some(replacement) => {
                    self.put(replacement);
                },
                None => {
                    self.out.push(bytes[i]);
                    assert(self@ =~= before + seq![bytes@[i as int]]);
                },
            }
            assert(self@ =~= start + escaped(rule, bytes@.subrange(0, i + 1)));
            i += 1;
        }
        assert(bytes@.subrange(0, i as int) =~= bytes@);
    }

    /// Writes the two hexadecimal digits of `b`.
    pub fn put_hex(&mut self, b: u8)
        ensures
            final(self)@ == old(self)@ + hex_pair(b),
    {
        let ghost start = self@;
        let high = b / 16;
        let low = b % 16;
        self.out.push(if high < 10 { 0x30 + high } else { 0x61 + high - 10 });
        self.out.push(if low < 10 { 0x30 + low } else { 0x61 + low - 10 });
        assert(self@ =~= start + hex_pair(b));
    }

    /// Writes `n` in decimal digits.
    pub fn put_decimal(&mut self, n: u8)
        ensures
            final(self)@ == old(self)@ + decimal_digits(n as int),
    {
        let ghost start = self@;
        proof {
            reveal_with_fuel(decimal_digits, 3);
        }
        if n >= 100 {
            self.out.push(0x30 + n / 100);
            self.out.push(0x30 + (n / 10) % 10);
            self.out.push(0x30 + n % 10);
        } else if n >= 10 {
            self.out.push(0x30 + n / 10);
            self.out.push(0x30 + n % 10);
        } else {
            self.out.push(0x30 + n);
        }
        assert(self@ =~= start + decimal_digits(n as int));
    }
}

impl Renderer for SimpleHtml {
    type Err = Infallible;

    open spec fn handles(&self, event: Event, after: Self) -> bool {
        after@ == self@ + html_event(event)
    }

    open spec fn fallible() -> bool {
        false
    }

    fn text(&mut self, s: &str) -> (r: Result<(), Infallible>) {
        self.write_escaped(s, Escaping::Text);
        Ok(())
    }

    fn decoration_begin(&mut self, style: DecorationStyle) -> (r: Result<(), Infallible>) {
        let ghost start = self@;
        match style {
            DecorationStyle::Bold => self.put("<b>"),
            DecorationStyle::Italic => self.put("<i>"),
            DecorationStyle::Underline => self.put("<u>"),
            DecorationStyle::Center => self.put("<div style=\"text-align:center\">"),
            DecorationStyle::Color(r, g, b) => {
                self.put("<span style=\"color: #");
                self.put_hex(r);
                self.put_hex(g);
                self.put_hex(b);
                self.put("\">");
                assert(self@ =~= start + decoration_open(style));
            },
            DecorationStyle::Size(n) => {
                self.put("<span style=\"font-size: ");
                self.put_decimal(n);
                self.put("\">");
                assert(self@ =~= start + decoration_open(style));
            },
        }
        Ok(())
    }

    fn decoration_end(&mut self, style: DecorationStyle) -> (r: Result<(), Infallible>) {
        match style {
            DecorationStyle::Bold => self.put("</b>"),
            DecorationStyle::Italic => self.put("</i>"),
            DecorationStyle::Underline => self.put("</u>"),
            DecorationStyle::Center => self.put("</div>"),
            DecorationStyle::Color(_, _, _) => self.put("</span>"),
            DecorationStyle::Size(_) => self.put("</span>"),
        }
        Ok(())
    }

    fn quote_begin(&mut self, attribution: &Option<&str>) -> (r: Result<(), Infallible>) {
        let ghost start = self@;
        match attribution {
            Some(name) => {
                self.put("<div>");
                self.put(name);
                self.put(" wrote:</div><div>");
                assert(self@ =~= start + html_event(Event::QuoteBegin(Some(name.spec_bytes()))));
            },
            None => self.put("<div>Quote:</div><div>"),
        }
        Ok(())
    }

    fn quote_end(&mut self, attribution: &Option<&str>) -> (r: Result<(), Infallible>) {
        self.put("</div>");
        Ok(())
    }

    fn code(&mut self, s: &str) -> (r: Result<(), Infallible>) {
        let ghost start = self@;
        self.put("<pre>");
        self.write_escaped(s, Escaping::Code);
        self.put("</pre>");
        assert(self@ =~= start + html_event(Event::Code(s.spec_bytes())));
        Ok(())
    }

    fn list_begin(&mut self, style: ListStyle) -> (r: Result<(), Infallible>) {
        match style {
            ListStyle::Unordered => self.put("<ul>"),
            ListStyle::Numeric => self.put("<ol>"),
            ListStyle::Alphabetic => self.put("<ol type=\"a\">"),
        }
        Ok(())
    }

    fn list_item_begin(&mut self, style: ListStyle) -> (r: Result<(), Infallible>) {
        self.put("<li>");
        Ok(())
    }

    fn list_item_end(&mut self, style: ListStyle) -> (r: Result<(), Infallible>) {
        self.put("</li>");
        Ok(())
    }

    fn list_end(&mut self, style: ListStyle) -> (r: Result<(), Infallible>) {
        match style {
            ListStyle::Unordered => self.put("</ul>"),
            _ => self.put("</ol>"),
        }
        Ok(())
    }

    fn link_begin(&mut self, target: &str) -> (r: Result<(), Infallible>) {
        let ghost start = self@;
        self.put("<a href=\"");
        self.write_escaped(target, Escaping::Attribute);
        self.put("\">");
        assert(self@ =~= start + html_event(Event::LinkBegin(target.spec_bytes())));
        Ok(())
    }

    fn link_end(&mut self, target: &str) -> (r: Result<(), Infallible>) {
        self.put("</a>");
        Ok(())
    }

    fn image(&mut self, src: &str) -> (r: Result<(), Infallible>) {
        let ghost start = self@;
        self.put("<img src=\"");
        self.write_escaped(src, Escaping::Attribute);
        self.put("\">");
        assert(self@ =~= start + html_event(Event::Image(src.spec_bytes())));
        Ok(())
    }
}

} // verus!
