//! Plain text spans with additional decoration.

use crate::{closed_body, nodes_of, simple_tag, Segment};
use crate::grammar::{
    decimal, hex_value, named_color, spec_bold, spec_center, spec_closed_body, spec_color,
    spec_color_head, spec_css_color, spec_decorated, spec_italic, spec_rgb_color, spec_size,
    spec_size_head, spec_underline, taken,
};
use crate::scan::{
    byte_len, lemma_ascii_text, lemma_run_end_bounds, strip_byte, strip_no_case, take_run, yields,
    ByteClass, NoMatch, CLOSE_BRACKET, HASH,
};
use vstd::prelude::*;
use vstd::string::StringSliceAdditionalSpecFns;

verus! {

/// Styles that can be applied to decorated spans.
#[derive(PartialEq, Eq, Structural, Debug, Clone, Copy, Hash)]
pub enum DecorationStyle {
    Bold,
    Italic,
    Underline,
    /// Horizontally centered.
    Center,
    /// Colored with specified sRGB components (as in CSS).
    Color(u8, u8, u8),
    /// Font size at some arbitrary scale, from 2 to 29.
    Size(u8),
}

impl DecorationStyle {
    /// A size lies strictly between 1 and 30; the other styles have no
    /// condition.
    pub open spec fn wf(self) -> bool {
        self matches DecorationStyle::Size(n) ==> 2 <= n <= 29
    }

    /// The style of the font size `n`, if `n` is a size: those from 2 to 29
    /// are.
    pub fn size(n: u8) -> (style: Option<DecorationStyle>)
        ensures
            2 <= n <= 29 ==> style == Some(DecorationStyle::Size(n)),
            !(2 <= n <= 29) ==> style is None,
    {
        if 2 <= n && n <= 29 {
            Some(DecorationStyle::Size(n))
        } else {
            None
        }
    }
}

/// Looks `name` up among the CSS colors, with `palette::named::from_str`.
///
/// That function finds the name in a fixed table of lower-case names and
/// returns the table's color, so what it returns depends on the name alone.
#[verifier::external_body]
fn lookup_named_color(name: &str) -> (found: Option<(u8, u8, u8)>)
    ensures
        found == named_color(name@),
{
    match palette::named::from_str(name) {
        Some(color) => Some((color.red, color.green, color.blue)),
        None => None,
    }
}

/// The value of the hexadecimal digit `b`.
pub(crate) fn hex_digit(b: u8) -> (v: u8)
    requires
        ByteClass::HexDigit.has(b),
    ensures
        v == hex_value(b),
        v < 16,
{
    if 0x30 <= b && b <= 0x39 {
        b - 0x30
    } else if 0x61 <= b && b <= 0x66 {
        b - 0x61 + 10
    } else {
        b - 0x41 + 10
    }
}

/// Recognizes `#RGB` and `#RRGGBB`.
pub fn rgb_color<'a>(input: &'a str) -> (r: Result<(&'a str, (u8, u8, u8)), NoMatch>)
    ensures
        r matches Ok((rest, rgb)) ==> yields(input, rest, rgb, spec_rgb_color(input.spec_bytes())),
        r is Err ==> spec_rgb_color(input.spec_bytes()) is None,
{
    proof {
        reveal(spec_rgb_color);
    }
    let after = match strip_byte(input, HASH) {
        Some(after) => after,
        None => { return Err(NoMatch); },
    };
    let (digits, rest) = take_run(after, ByteClass::HexDigit);
    let d = digits.as_bytes();
    proof {
        lemma_run_end_bounds(ByteClass::HexDigit, after.spec_bytes(), 0);
        assert forall|i: int| 0 <= i < d@.len() implies d@[i] == input.spec_bytes()[i + 1]
            && ByteClass::HexDigit.has(d@[i]) by {
            assert(d@[i] == after.spec_bytes()[i]);
        }
        assert(rest.spec_bytes() =~= input.spec_bytes().skip(d@.len() + 1int));
    }
    if d.len() == 3 {
        let r = hex_digit(d[0]);
        let g = hex_digit(d[1]);
        let b = hex_digit(d[2]);
        Ok((rest, (r * 17, g * 17, b * 17)))
    } else if d.len() == 6 {
        let r = hex_digit(d[0]) * 16 + hex_digit(d[1]);
        let g = hex_digit(d[2]) * 16 + hex_digit(d[3]);
        let b = hex_digit(d[4]) * 16 + hex_digit(d[5]);
        Ok((rest, (r, g, b)))
    } else {
        Err(NoMatch)
    }
}

/// What a color name that was read off the front of a text yields, given
/// what the lookup of the name found and what follows the name.
pub fn color_found<'a>(rest: &'a str, found: Option<(u8, u8, u8)>) -> (r: Result<
    (&'a str, (u8, u8, u8)),
    NoMatch,
>)
    ensures
        found matches Some(rgb) ==> r == Ok::<_, NoMatch>((rest, rgb)),
        found is None ==> r is Err,
{
    match found {
        Some(rgb) => Ok((rest, rgb)),
        None => Err(NoMatch),
    }
}

/// Recognizes a CSS color name.
pub fn css_color<'a>(input: &'a str) -> (r: Result<(&'a str, (u8, u8, u8)), NoMatch>)
    ensures
        r matches Ok((rest, rgb)) ==> yields(input, rest, rgb, spec_css_color(input.spec_bytes())),
        r is Err ==> spec_css_color(input.spec_bytes()) is None,
{
    broadcast use vstd::utf8::encode_utf8_decode_utf8;

    proof {
        reveal(spec_css_color);
    }
    let (name, rest) = take_run(input, ByteClass::Alphanumeric);
    if byte_len(name) == 0 {
        return Err(NoMatch);
    }
    color_found(rest, lookup_named_color(name))
}

/// Recognizes the opening tag of a colored span.
pub fn color_head<'a>(input: &'a str) -> (r: Result<(&'a str, (u8, u8, u8)), NoMatch>)
    ensures
        r matches Ok((rest, rgb)) ==> yields(input, rest, rgb, spec_color_head(input.spec_bytes())),
        r is Err ==> spec_color_head(input.spec_bytes()) is None,
{
    proof {
        reveal(spec_color_head);
        reveal_strlit("[color=");
        lemma_ascii_text("[color=");
    }
    let after = match strip_no_case(input, "[color=") {
        Some(after) => after,
        None => { return Err(NoMatch); },
    };
    let (rest, rgb) = match rgb_color(after) {
        Ok(found) => found,
        Err(_) => match css_color(after) {
            Ok(found) => found,
            Err(e) => { return Err(e); },
        },
    };
    match strip_byte(rest, CLOSE_BRACKET) {
        Some(rest) => {
            proof {
                let open = "[color=".spec_bytes().len() as int;
                let n = after.spec_bytes().len() - rest.spec_bytes().len();
                assert(rest.spec_bytes() =~= input.spec_bytes().skip(open + n));
            }
            Ok((rest, rgb))
        },
        None => Err(NoMatch),
    }
}

/// The number that the first `k` digits spell is not negative, and no
/// greater than the number that all of them spell.
pub proof fn lemma_decimal_grows(digits: Seq<u8>, k: int)
    requires
        0 <= k <= digits.len(),
        forall|i: int| 0 <= i < digits.len() ==> ByteClass::Digit.has(#[trigger] digits[i]),
    ensures
        0 <= decimal(digits.subrange(0, k)) <= decimal(digits),
    decreases digits.len() - k,
{
    if k == digits.len() {
        assert(digits.subrange(0, k) =~= digits);
        lemma_decimal_nonnegative(digits);
    } else {
        lemma_decimal_grows(digits, k + 1);
        assert(digits.subrange(0, k + 1).drop_last() =~= digits.subrange(0, k));
    }
}

/// Digits spell no negative number.
pub proof fn lemma_decimal_nonnegative(digits: Seq<u8>)
    requires
        forall|i: int| 0 <= i < digits.len() ==> ByteClass::Digit.has(#[trigger] digits[i]),
    ensures
        0 <= decimal(digits),
    decreases digits.len(),
{
    if digits.len() > 0 {
        lemma_decimal_nonnegative(digits.drop_last());
    }
}

/// Reads a decimal number of at most `limit`.
pub(crate) fn parse_decimal(digits: &str, limit: u8) -> (r: Option<u8>)
    requires
        forall|i: int|
            0 <= i < digits.spec_bytes().len() ==> ByteClass::Digit.has(
                #[trigger] digits.spec_bytes()[i],
            ),
    ensures
        r matches Some(v) ==> v == decimal(digits.spec_bytes()) && v <= limit,
        r is None ==> decimal(digits.spec_bytes()) > limit,
{
    let d = digits.as_bytes();
    let mut value: u8 = 0;
    let mut i: usize = 0;
    while i < d.len()
        invariant
            i <= d@.len(),
            d@ == digits.spec_bytes(),
            forall|j: int| 0 <= j < d@.len() ==> ByteClass::Digit.has(#[trigger] d@[j]),
            value == decimal(d@.subrange(0, i as int)),
            value <= limit,
        decreases d@.len() - i,
    {
        let digit = d[i] - 0x30;
        proof {
            assert(d@.subrange(0, i + 1).drop_last() =~= d@.subrange(0, i as int));
            lemma_decimal_grows(d@, i + 1);
        }
        let next: u16 = value as u16 * 10 + digit as u16;
        if next > limit as u16 {
            return None;
        }
        value = next as u8;
        i += 1;
    }
    assert(d@.subrange(0, i as int) =~= d@);
    Some(value)
}

/// Recognizes the opening tag of a sized span. Only sizes from 2 to 29 are
/// sizes.
pub fn size_head<'a>(input: &'a str) -> (r: Result<(&'a str, u8), NoMatch>)
    ensures
        r matches Ok((rest, size)) ==> 2 <= size <= 29 && yields(
            input,
            rest,
            size,
            spec_size_head(input.spec_bytes()),
        ),
        r is Err ==> spec_size_head(input.spec_bytes()) is None,
{
    proof {
        reveal(spec_size_head);
        reveal_strlit("[size=");
        lemma_ascii_text("[size=");
    }
    let after = match strip_no_case(input, "[size=") {
        Some(after) => after,
        None => { return Err(NoMatch); },
    };
    let (digits, rest) = take_run(after, ByteClass::Digit);
    proof {
        lemma_run_end_bounds(ByteClass::Digit, after.spec_bytes(), 0);
    }
    if byte_len(digits) == 0 {
        return Err(NoMatch);
    }
    let rest = match strip_byte(rest, CLOSE_BRACKET) {
        Some(rest) => rest,
        None => { return Err(NoMatch); },
    };
    proof {
        let open = "[size=".spec_bytes().len() as int;
        let n = digits.spec_bytes().len() as int;
        assert(rest.spec_bytes() =~= input.spec_bytes().skip(open + n + 1));
    }
    match parse_decimal(digits, 29) {
        Some(size) => if size >= 2 {
            Ok((rest, size))
        } else {
            Err(NoMatch)
        },
        None => Err(NoMatch),
    }
}

/// A span of the given style around `text`.
pub fn styled<'a>(s: DecorationStyle, text: Vec<Segment<'a>>) -> (segment: Segment<'a>)
    ensures
        segment == (Segment::Decorated { style: s, text }),
{
    Segment::Decorated { style: s, text }
}

/// Recognizes any decorated span.
pub fn decorated<'a>(input: &'a str) -> (r: Result<(&'a str, Segment<'a>), NoMatch>)
    ensures
        r matches Ok((rest, segment)) ==> yields(
            input,
            rest,
            segment@,
            spec_decorated(input.spec_bytes()),
        ),
        r is Err ==> spec_decorated(input.spec_bytes()) is None,
    decreases input.spec_bytes().len(), 17int, 0int,
{
    if let Ok((rest, text)) = bold(input) {
        return Ok((rest, styled(DecorationStyle::Bold, text)));
    }
    if let Ok((rest, text)) = italic(input) {
        return Ok((rest, styled(DecorationStyle::Italic, text)));
    }
    if let Ok((rest, text)) = underline(input) {
        return Ok((rest, styled(DecorationStyle::Underline, text)));
    }
    if let Ok((rest, text)) = center(input) {
        return Ok((rest, styled(DecorationStyle::Center, text)));
    }
    if let Ok(found) = color(input) {
        return Ok(found);
    }
    size(input)
}

/// Recognizes `[b]This text is bold[/b]`.
pub fn bold<'a>(input: &'a str) -> (r: Result<(&'a str, Vec<Segment<'a>>), NoMatch>)
    ensures
        r matches Ok((rest, text)) ==> yields(
            input,
            rest,
            nodes_of(text@),
            spec_bold(input.spec_bytes()),
        ),
        r is Err ==> spec_bold(input.spec_bytes()) is None,
    decreases input.spec_bytes().len(), 16int, 0int,
{
    proof {
        reveal_strlit("[b]");
        reveal_strlit("[/b]");
        lemma_ascii_text("[b]");
        lemma_ascii_text("[/b]");
    }
    simple_tag(input, "[b]", "[/b]")
}

/// Recognizes `[i]This text is italic[/i]`.
pub fn italic<'a>(input: &'a str) -> (r: Result<(&'a str, Vec<Segment<'a>>), NoMatch>)
    ensures
        r matches Ok((rest, text)) ==> yields(
            input,
            rest,
            nodes_of(text@),
            spec_italic(input.spec_bytes()),
        ),
        r is Err ==> spec_italic(input.spec_bytes()) is None,
    decreases input.spec_bytes().len(), 16int, 0int,
{
    proof {
        reveal_strlit("[i]");
        reveal_strlit("[/i]");
        lemma_ascii_text("[i]");
        lemma_ascii_text("[/i]");
    }
    simple_tag(input, "[i]", "[/i]")
}

/// Recognizes `[u]This text is underlined[/u]`.
pub fn underline<'a>(input: &'a str) -> (r: Result<(&'a str, Vec<Segment<'a>>), NoMatch>)
    ensures
        r matches Ok((rest, text)) ==> yields(
            input,
            rest,
            nodes_of(text@),
            spec_underline(input.spec_bytes()),
        ),
        r is Err ==> spec_underline(input.spec_bytes()) is None,
    decreases input.spec_bytes().len(), 16int, 0int,
{
    proof {
        reveal_strlit("[u]");
        reveal_strlit("[/u]");
        lemma_ascii_text("[u]");
        lemma_ascii_text("[/u]");
    }
    simple_tag(input, "[u]", "[/u]")
}

/// Recognizes `[center]This text is centered[/center]`.
pub fn center<'a>(input: &'a str) -> (r: Result<(&'a str, Vec<Segment<'a>>), NoMatch>)
    ensures
        r matches Ok((rest, text)) ==> yields(
            input,
            rest,
            nodes_of(text@),
            spec_center(input.spec_bytes()),
        ),
        r is Err ==> spec_center(input.spec_bytes()) is None,
    decreases input.spec_bytes().len(), 16int, 0int,
{
    proof {
        reveal_strlit("[center]");
        reveal_strlit("[/center]");
        lemma_ascii_text("[center]");
        lemma_ascii_text("[/center]");
    }
    simple_tag(input, "[center]", "[/center]")
}

/// Recognizes `[color=red]This text is red[/color]`.
pub fn color<'a>(input: &'a str) -> (r: Result<(&'a str, Segment<'a>), NoMatch>)
    ensures
        r matches Ok((rest, segment)) ==> yields(
            input,
            rest,
            segment@,
            spec_color(input.spec_bytes()),
        ),
        r is Err ==> spec_color(input.spec_bytes()) is None,
    decreases input.spec_bytes().len(), 16int, 0int,
{
    let (after, (r, g, b)) = match color_head(input) {
        Ok(found) => found,
        Err(e) => { return Err(e); },
    };
    proof {
        reveal_strlit("[/color]");
        lemma_ascii_text("[/color]");
    }
    match closed_body(after, "[/color]") {
        Ok((rest, text)) => {
            proof {
                let n = taken(spec_color_head(input.spec_bytes()));
                let m = taken(spec_closed_body(after.spec_bytes(), "[/color]".spec_bytes()));
                assert(rest.spec_bytes() =~= input.spec_bytes().skip(n + m));
            }
            Ok((rest, Segment::Decorated { style: DecorationStyle::Color(r, g, b), text }))
        },
        Err(e) => Err(e),
    }
}

/// Recognizes `[size=12]This text is of size 12[/size]`.
pub fn size<'a>(input: &'a str) -> (r: Result<(&'a str, Segment<'a>), NoMatch>)
    ensures
        r matches Ok((rest, segment)) ==> yields(
            input,
            rest,
            segment@,
            spec_size(input.spec_bytes()),
        ),
        r is Err ==> spec_size(input.spec_bytes()) is None,
    decreases input.spec_bytes().len(), 16int, 0int,
{
    let (after, size) = match size_head(input) {
        Ok(found) => found,
        Err(e) => { return Err(e); },
    };
    proof {
        reveal_strlit("[/size]");
        lemma_ascii_text("[/size]");
    }
    match closed_body(after, "[/size]") {
        Ok((rest, text)) => {
            proof {
                let n = taken(spec_size_head(input.spec_bytes()));
                let m = taken(spec_closed_body(after.spec_bytes(), "[/size]".spec_bytes()));
                assert(rest.spec_bytes() =~= input.spec_bytes().skip(n + m));
            }
            Ok((rest, Segment::Decorated { style: DecorationStyle::Size(size), text }))
        },
        Err(e) => Err(e),
    }
}

} // verus!

