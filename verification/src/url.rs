//! Hyperlinks.

use crate::{closed_body, lemma_nodes_of_push, nodes_of, Segment};
use crate::grammar::{spec_closed_body, spec_url, spec_url_head, spec_url_with, taken, Node};
use crate::scan::{
    all_ascii, delimited_no_case, lemma_ascii_text, strip_no_case, take_until_and_consume, yields,
    NoMatch,
};
use vstd::prelude::*;
use vstd::string::StringSliceAdditionalSpecFns;

verus! {

/// Handle any valid URL tag.
///
/// This has several cases:
///  * `[url]http://example.com/[/url]` target=text
///  * `[url="http://example.com/"]Foo[/url]` quote-delimited target
///  * `[url=example.com]Bar[/url]` non-delimited target
pub fn url<'a>(input: &'a str) -> (r: Result<(&'a str, Segment<'a>), NoMatch>)
    ensures
        r matches Ok((rest, segment)) ==> yields(
            input,
            rest,
            segment@,
            spec_url(input.spec_bytes()),
        ),
        r is Err ==> spec_url(input.spec_bytes()) is None,
    decreases input.spec_bytes().len(), 16int, 0int,
{
    proof {
        reveal_strlit("[url]");
        reveal_strlit("[/url]");
        reveal_strlit("[url=\"");
        reveal_strlit("\"]");
        reveal_strlit("[url=");
        reveal_strlit("]");
        lemma_ascii_text("[url]");
        lemma_ascii_text("[/url]");
        lemma_ascii_text("[url=\"");
        lemma_ascii_text("\"]");
        lemma_ascii_text("[url=");
        lemma_ascii_text("]");
    }
    if let Ok((rest, body)) = delimited_no_case(input, "[url]", "[/url]") {
        let mut text: Vec<Segment<'a>> = Vec::new();
        proof {
            lemma_nodes_of_push(text@, Segment::Text(body));
            assert(nodes_of(text@).push(Node::Text(body.spec_bytes())) =~= seq![
                Node::Text(body.spec_bytes()),
            ]);
        }
        text.push(Segment::Text(body));
        return Ok((rest, Segment::Link { target: body, text }));
    }
    if let Ok(found) = url_with(input, "[url=\"", "\"]") {
        return Ok(found);
    }
    url_with(input, "[url=", "]")
}

/// Recognizes a link with its target in the opening tag, between `open` and
/// `close`.
pub(crate) fn url_with<'a>(input: &'a str, open: &str, close: &str) -> (r: Result<
    (&'a str, Segment<'a>),
    NoMatch,
>)
    requires
        all_ascii(open.spec_bytes()),
        all_ascii(close.spec_bytes()),
        open.spec_bytes().len() > 0,
        close.spec_bytes().len() > 0,
    ensures
        r matches Ok((rest, segment)) ==> yields(
            input,
            rest,
            segment@,
            spec_url_with(input.spec_bytes(), open.spec_bytes(), close.spec_bytes()),
        ),
        r is Err ==> spec_url_with(input.spec_bytes(), open.spec_bytes(), close.spec_bytes())
            is None,
    decreases input.spec_bytes().len(), 15int, 0int,
{
    proof {
        reveal(spec_url_head);
    }
    let after_open = match strip_no_case(input, open) {
        Some(after) => after,
        None => { return Err(NoMatch); },
    };
    let (after, target) = match take_until_and_consume(after_open, close) {
        Ok(found) => found,
        Err(e) => { return Err(e); },
    };
    proof {
        let n = open.spec_bytes().len() as int;
        let k = target.spec_bytes().len() as int;
        assert(target.spec_bytes() =~= input.spec_bytes().subrange(n, n + k));
        assert(after.spec_bytes() =~= input.spec_bytes().skip(n + k + close.spec_bytes().len()));
        reveal_strlit("[/url]");
        lemma_ascii_text("[/url]");
    }
    match closed_body(after, "[/url]") {
        Ok((rest, text)) => {
            proof {
                let n = taken(
                    spec_url_head(input.spec_bytes(), open.spec_bytes(), close.spec_bytes()),
                );
                let m = taken(spec_closed_body(after.spec_bytes(), "[/url]".spec_bytes()));
                assert(rest.spec_bytes() =~= input.spec_bytes().skip(n + m));
            }
            Ok((rest, Segment::Link { target, text }))
        },
        Err(e) => Err(e),
    }
}

} // verus!
