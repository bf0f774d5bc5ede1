//! Where a tag can begin.
//!
//! Every tag begins with an opening bracket, and no character of a text has
//! an opening bracket inside it. So plain text never has to end in the
//! middle of a character, and a search for its end may go from character to
//! character.

use crate::grammar::{
    leads_any, spec_bold, spec_center, spec_code, spec_coded_segment, spec_color, spec_color_head,
    spec_decorated, spec_image, spec_italic, spec_list, spec_listhead, spec_qhead, spec_quote,
    spec_simple_tag, spec_size, spec_size_head, spec_text_stops, spec_underline, spec_url,
    spec_url_bare, spec_url_head, spec_url_with,
};
use crate::scan::{
    agrees_no_case, leads_no_case, lemma_ascii_text, lemma_first_byte_leads, lower, spec_delimited,
    OPEN_BRACKET,
};
use vstd::prelude::*;
use vstd::string::StringSliceAdditionalSpecFns;
use vstd::utf8::{is_char_boundary, is_continuation_byte, valid_utf8};

verus! {

/// What begins with a literal that begins with an opening bracket begins
/// with an opening bracket.
pub proof fn lemma_opens(open: &str, input: Seq<u8>)
    requires
        vstd::string::is_ascii(open),
        open@.len() > 0,
        open@[0] == '[',
        leads_no_case(open.spec_bytes(), input),
    ensures
        input.len() > 0,
        input[0] == OPEN_BRACKET,
{
    reveal(agrees_no_case);
    lemma_ascii_text(open);
    assert(lower(input[0]) == lower(open.spec_bytes()[0]));
}

/// A tag with a body begins with its opening tag.
pub proof fn lemma_simple_tag_opens(input: Seq<u8>, open: &str, close: Seq<u8>)
    requires
        vstd::string::is_ascii(open),
        open@.len() > 0,
        open@[0] == '[',
        spec_simple_tag(input, open.spec_bytes(), close) is Some,
    ensures
        input.len() > 0,
        input[0] == OPEN_BRACKET,
{
    lemma_opens(open, input);
}

/// A colored span begins with an opening bracket.
pub proof fn lemma_color_opens(input: Seq<u8>)
    requires
        spec_color(input) is Some,
    ensures
        input.len() > 0,
        input[0] == OPEN_BRACKET,
{
    reveal(spec_color_head);
    reveal_strlit("[color=");
    lemma_opens("[color=", input);
}

/// A sized span begins with an opening bracket.
pub proof fn lemma_size_opens(input: Seq<u8>)
    requires
        spec_size(input) is Some,
    ensures
        input.len() > 0,
        input[0] == OPEN_BRACKET,
{
    reveal(spec_size_head);
    reveal_strlit("[size=");
    lemma_opens("[size=", input);
}

/// Bold text begins with an opening bracket.
pub proof fn lemma_bold_opens(input: Seq<u8>)
    requires
        spec_bold(input) is Some,
    ensures
        input.len() > 0,
        input[0] == OPEN_BRACKET,
{
    reveal_strlit("[b]");
    lemma_simple_tag_opens(input, "[b]", "[/b]".spec_bytes());
}

/// Italic text begins with an opening bracket.
pub proof fn lemma_italic_opens(input: Seq<u8>)
    requires
        spec_italic(input) is Some,
    ensures
        input.len() > 0,
        input[0] == OPEN_BRACKET,
{
    reveal_strlit("[i]");
    lemma_simple_tag_opens(input, "[i]", "[/i]".spec_bytes());
}

/// Underlined text begins with an opening bracket.
pub proof fn lemma_underline_opens(input: Seq<u8>)
    requires
        spec_underline(input) is Some,
    ensures
        input.len() > 0,
        input[0] == OPEN_BRACKET,
{
    reveal_strlit("[u]");
    lemma_simple_tag_opens(input, "[u]", "[/u]".spec_bytes());
}

/// Centered text begins with an opening bracket.
pub proof fn lemma_center_opens(input: Seq<u8>)
    requires
        spec_center(input) is Some,
    ensures
        input.len() > 0,
        input[0] == OPEN_BRACKET,
{
    reveal_strlit("[center]");
    lemma_simple_tag_opens(input, "[center]", "[/center]".spec_bytes());
}

/// Every decorated span begins with an opening bracket.
pub proof fn lemma_decorated_opens(input: Seq<u8>)
    requires
        spec_decorated(input) is Some,
    ensures
        input.len() > 0,
        input[0] == OPEN_BRACKET,
{
    if spec_bold(input) is Some {
        lemma_bold_opens(input);
    } else if spec_italic(input) is Some {
        lemma_italic_opens(input);
    } else if spec_underline(input) is Some {
        lemma_underline_opens(input);
    } else if spec_center(input) is Some {
        lemma_center_opens(input);
    } else if spec_color(input) is Some {
        lemma_color_opens(input);
    } else {
        lemma_size_opens(input);
    }
}

/// What is delimited begins with its opening tag.
pub proof fn lemma_delimited_opens(input: Seq<u8>, open: &str, close: Seq<u8>)
    requires
        vstd::string::is_ascii(open),
        open@.len() > 0,
        open@[0] == '[',
        spec_delimited(input, open.spec_bytes(), close) is Some,
    ensures
        input.len() > 0,
        input[0] == OPEN_BRACKET,
{
    reveal(spec_delimited);
    lemma_opens(open, input);
}

/// A list begins with an opening bracket.
pub proof fn lemma_list_opens(input: Seq<u8>)
    requires
        spec_list(input) is Some,
    ensures
        input.len() > 0,
        input[0] == OPEN_BRACKET,
{
    reveal(spec_listhead);
    reveal_strlit("[list");
    lemma_opens("[list", input);
}

/// A quote begins with an opening bracket.
pub proof fn lemma_quote_opens(input: Seq<u8>)
    requires
        spec_quote(input) is Some,
    ensures
        input.len() > 0,
        input[0] == OPEN_BRACKET,
{
    reveal(spec_qhead);
    reveal_strlit("[quote");
    lemma_opens("[quote", input);
}

/// A link with its target in the opening tag begins with that tag.
pub proof fn lemma_url_with_opens(input: Seq<u8>, open: &str, close: Seq<u8>)
    requires
        vstd::string::is_ascii(open),
        open@.len() > 0,
        open@[0] == '[',
        spec_url_with(input, open.spec_bytes(), close) is Some,
    ensures
        input.len() > 0,
        input[0] == OPEN_BRACKET,
{
    reveal(spec_url_head);
    lemma_opens(open, input);
}

/// A link whose target is its body begins with an opening bracket.
pub proof fn lemma_url_bare_opens(input: Seq<u8>)
    requires
        spec_url_bare(input) is Some,
    ensures
        input.len() > 0,
        input[0] == OPEN_BRACKET,
{
    reveal_strlit("[url]");
    lemma_delimited_opens(input, "[url]", "[/url]".spec_bytes());
}

/// A link with a quoted target begins with an opening bracket.
pub proof fn lemma_url_quoted_opens(input: Seq<u8>)
    requires
        spec_url_with(input, "[url=\"".spec_bytes(), "\"]".spec_bytes()) is Some,
    ensures
        input.len() > 0,
        input[0] == OPEN_BRACKET,
{
    reveal_strlit("[url=\"");
    lemma_url_with_opens(input, "[url=\"", "\"]".spec_bytes());
}

/// A link with an unquoted target begins with an opening bracket.
pub proof fn lemma_url_unquoted_opens(input: Seq<u8>)
    requires
        spec_url_with(input, "[url=".spec_bytes(), "]".spec_bytes()) is Some,
    ensures
        input.len() > 0,
        input[0] == OPEN_BRACKET,
{
    reveal_strlit("[url=");
    lemma_url_with_opens(input, "[url=", "]".spec_bytes());
}

/// Every link begins with an opening bracket.
pub proof fn lemma_url_opens(input: Seq<u8>)
    requires
        spec_url(input) is Some,
    ensures
        input.len() > 0,
        input[0] == OPEN_BRACKET,
{
    if spec_url_bare(input) is Some {
        lemma_url_bare_opens(input);
    } else if spec_url_with(input, "[url=\"".spec_bytes(), "\"]".spec_bytes()) is Some {
        lemma_url_quoted_opens(input);
    } else {
        lemma_url_unquoted_opens(input);
    }
}

/// A code block begins with an opening bracket.
pub proof fn lemma_code_opens(input: Seq<u8>)
    requires
        spec_code(input) is Some,
    ensures
        input.len() > 0,
        input[0] == OPEN_BRACKET,
{
    reveal_strlit("[code]");
    lemma_delimited_opens(input, "[code]", "[/code]".spec_bytes());
}

/// An image begins with an opening bracket.
pub proof fn lemma_image_opens(input: Seq<u8>)
    requires
        spec_image(input) is Some,
    ensures
        input.len() > 0,
        input[0] == OPEN_BRACKET,
{
    reveal_strlit("[img]");
    lemma_delimited_opens(input, "[img]", "[/img]".spec_bytes());
}

/// Every tag begins with an opening bracket.
pub proof fn lemma_coded_segment_opens(input: Seq<u8>)
    ensures
        spec_coded_segment(input) is Some ==> input.len() > 0 && input[0] == OPEN_BRACKET,
{
    if spec_decorated(input) is Some {
        lemma_decorated_opens(input);
    } else if spec_code(input) is Some {
        lemma_code_opens(input);
    } else if spec_image(input) is Some {
        lemma_image_opens(input);
    } else if spec_list(input) is Some {
        lemma_list_opens(input);
    } else if spec_quote(input) is Some {
        lemma_quote_opens(input);
    } else if spec_url(input) is Some {
        lemma_url_opens(input);
    }
}

/// Plain text does not end in the middle of a character.
pub proof fn lemma_no_stop_inside_character(input: Seq<u8>, terms: Seq<Seq<u8>>, k: int)
    requires
        valid_utf8(input),
        forall|i: int| 0 <= i < terms.len() ==> valid_utf8(#[trigger] terms[i]),
        !leads_any(terms, input),
        0 < k < input.len(),
        !is_char_boundary(input, k),
    ensures
        !spec_text_stops(input.skip(k), terms),
{
    reveal(agrees_no_case);
    reveal(leads_any);
    broadcast use vstd::utf8::is_char_boundary_iff_not_is_continuation_byte;

    let rest = input.skip(k);
    assert(is_continuation_byte(input[k]));
    assert(rest[0] == input[k]);
    lemma_coded_segment_opens(rest);
    if leads_any(terms, rest) {
        let i = choose|i: int| 0 <= i < terms.len() && leads_no_case(#[trigger] terms[i], rest);
        if terms[i].len() == 0 {
            assert(leads_no_case(terms[i], input));
        } else {
            lemma_first_byte_leads(terms[i]);
            assert(lower(rest[0]) == lower(terms[i][0]));
        }
    }
}

} // verus!
