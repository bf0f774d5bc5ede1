//! Inline code blocks.

use crate::Segment;
use crate::grammar::spec_code;
use crate::scan::{delimited_no_case, lemma_ascii_text, yields, NoMatch};
use vstd::prelude::*;
use vstd::string::StringSliceAdditionalSpecFns;

verus! {

/// Recognizes `[code]This text is shown as it stands[/code]`.
pub fn code<'a>(input: &'a str) -> (r: Result<(&'a str, Segment<'a>), NoMatch>)
    ensures
        r matches Ok((rest, segment)) ==> yields(
            input,
            rest,
            segment@,
            spec_code(input.spec_bytes()),
        ),
        r is Err ==> spec_code(input.spec_bytes()) is None,
{
    proof {
        reveal_strlit("[code]");
        reveal_strlit("[/code]");
        lemma_ascii_text("[code]");
        lemma_ascii_text("[/code]");
    }
    match delimited_no_case(input, "[code]", "[/code]") {
        Ok((rest, text)) => Ok((rest, Segment::Code(text))),
        Err(e) => Err(e),
    }
}

} // verus!
