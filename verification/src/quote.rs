//! Block quotes.

use crate::{attribution_bytes, closed_body, Segment};
use crate::grammar::{spec_closed_body, spec_qhead, spec_quote, taken};
use crate::scan::{
    lemma_ascii_text, strip, strip_byte, strip_no_case, take_until_and_consume, yields, NoMatch,
    CLOSE_BRACKET,
};
use vstd::prelude::*;
use vstd::string::StringSliceAdditionalSpecFns;

verus! {

/// Recognizes `[quote]text[/quote]` and `[quote="someone"]text[/quote]`.
pub fn quote<'a>(input: &'a str) -> (r: Result<(&'a str, Segment<'a>), NoMatch>)
    ensures
        r matches Ok((rest, segment)) ==> yields(
            input,
            rest,
            segment@,
            spec_quote(input.spec_bytes()),
        ),
        r is Err ==> spec_quote(input.spec_bytes()) is None,
    decreases input.spec_bytes().len(), 16int, 0int,
{
    let (after, attribution) = match qhead(input) {
        Ok(found) => found,
        Err(e) => { return Err(e); },
    };
    proof {
        reveal_strlit("[/quote]");
        lemma_ascii_text("[/quote]");
    }
    match closed_body(after, "[/quote]") {
        Ok((rest, body)) => {
            proof {
                let n = taken(spec_qhead(input.spec_bytes()));
                let m = taken(spec_closed_body(after.spec_bytes(), "[/quote]".spec_bytes()));
                assert(rest.spec_bytes() =~= input.spec_bytes().skip(n + m));
            }
            Ok((rest, Segment::Quote { attribution, body }))
        },
        Err(e) => Err(e),
    }
}

/// Recognizes the opening tag of a quote and returns the attribution, if it
/// has one.
pub fn qhead<'a>(input: &'a str) -> (r: Result<(&'a str, Option<&'a str>), NoMatch>)
    ensures
        r matches Ok((rest, attribution)) ==> yields(
            input,
            rest,
            attribution_bytes(attribution),
            spec_qhead(input.spec_bytes()),
        ),
        r is Err ==> spec_qhead(input.spec_bytes()) is None,
{
    proof {
        reveal(spec_qhead);
        reveal_strlit("[quote");
        reveal_strlit("=\"");
        reveal_strlit("\"");
        lemma_ascii_text("[quote");
        lemma_ascii_text("=\"");
        lemma_ascii_text("\"");
    }
    let after = match strip_no_case(input, "[quote") {
        Some(after) => after,
        None => { return Err(NoMatch); },
    };
    let named = match strip(after, "=\"") {
        Some(after_mark) => match take_until_and_consume(after_mark, "\"") {
            Ok(found) => Some(found),
            Err(_) => None,
        },
        None => None,
    };
    let ghost open = "[quote".spec_bytes().len() as int;
    match named {
        Some((rest, name)) => match strip_byte(rest, CLOSE_BRACKET) {
            Some(rest) => {
                proof {
                    let k = name.spec_bytes().len() as int;
                    assert(name.spec_bytes() =~= after.spec_bytes().subrange(2, 2 + k));
                    assert(rest.spec_bytes() =~= input.spec_bytes().skip(open + 2 + k + 1 + 1));
                }
                Ok((rest, Some(name)))
            },
            None => {
                proof {
                    let k = name.spec_bytes().len() as int;
                    assert(rest.spec_bytes() =~= after.spec_bytes().skip(2 + k + 1));
                }
                Err(NoMatch)
            },
        },
        None => match strip_byte(after, CLOSE_BRACKET) {
            Some(rest) => {
                proof {
                    assert(rest.spec_bytes() =~= input.spec_bytes().skip(open + 1));
                }
                Ok((rest, None))
            },
            None => Err(NoMatch),
        },
    }
}

} // verus!
