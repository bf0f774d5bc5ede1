//! Matching and searching literals in UTF-8 text.
//!
//! Everything here works on the bytes of a `&str`. Markup literals are ASCII,
//! so a match always starts and ends between two characters, and the pieces
//! that are cut out are strings again.

use vstd::prelude::*;
use vstd::string::StringSliceAdditionalSpecFns;
use vstd::utf8::*;

verus! {

/// The failure of a recognizer. Nothing was consumed.
#[derive(PartialEq, Eq, Structural, Debug, Clone, Copy, Hash)]
pub struct NoMatch;

/// Whether a recognizer that was given `input`, made `value` and left `rest`
/// did what `expected` says: it made that value, took at least one byte, and
/// left what follows the bytes it took.
pub open spec fn yields<T>(input: &str, rest: &str, value: T, expected: Option<(T, int)>) -> bool {
    &&& expected matches Some((v, n))
    &&& value == v
    &&& 0 < n <= input.spec_bytes().len()
    &&& rest.spec_bytes() == input.spec_bytes().skip(n)
}

/// `]`
pub const CLOSE_BRACKET: u8 = 0x5d;

/// `[`
pub const OPEN_BRACKET: u8 = 0x5b;

/// `#`
pub const HASH: u8 = 0x23;

/// `=`
pub const EQUALS: u8 = 0x3d;

/// `a`
pub const LETTER_A: u8 = 0x61;

/// `1`
pub const DIGIT_ONE: u8 = 0x31;

/// The lower-case form of an ASCII letter; any other byte is unchanged.
pub open spec fn lower(b: u8) -> u8 {
    if 0x41 <= b <= 0x5a {
        (b + 0x20) as u8
    } else {
        b
    }
}

/// The first bytes of `s` are those of `lit`, ASCII case ignored, as far as
/// both go.
#[verifier::opaque]
pub open spec fn agrees_no_case(lit: Seq<u8>, s: Seq<u8>) -> bool {
    forall|i: int| 0 <= i < lit.len() ==> lower(#[trigger] s[i]) == lower(lit[i])
}

/// The first bytes of `s` are those of `lit`, as far as both go.
#[verifier::opaque]
pub open spec fn agrees(lit: Seq<u8>, s: Seq<u8>) -> bool {
    forall|i: int| 0 <= i < lit.len() ==> #[trigger] s[i] == lit[i]
}

/// `s` begins with `lit`, ASCII case ignored.
pub open spec fn leads_no_case(lit: Seq<u8>, s: Seq<u8>) -> bool {
    lit.len() <= s.len() && agrees_no_case(lit, s)
}

/// `s` begins with `lit`, byte for byte.
pub open spec fn leads(lit: Seq<u8>, s: Seq<u8>) -> bool {
    lit.len() <= s.len() && agrees(lit, s)
}

/// The first offset at or after `k` where `lit` occurs in `s`, ASCII case
/// ignored, if there is one.
pub open spec fn find_no_case(lit: Seq<u8>, s: Seq<u8>, k: int) -> Option<int>
    decreases s.len() - k,
{
    if k < 0 || s.len() - k < lit.len() {
        None
    } else if leads_no_case(lit, s.skip(k)) {
        Some(k)
    } else if k < s.len() {
        find_no_case(lit, s, k + 1)
    } else {
        None
    }
}

/// The first offset at or after `k` where `lit` occurs in `s`, if there is
/// one.
pub open spec fn find(lit: Seq<u8>, s: Seq<u8>, k: int) -> Option<int>
    decreases s.len() - k,
{
    if k < 0 || s.len() - k < lit.len() {
        None
    } else if leads(lit, s.skip(k)) {
        Some(k)
    } else if k < s.len() {
        find(lit, s, k + 1)
    } else {
        None
    }
}

/// `open`, then everything up to the first `close`, then `close`. Yields what
/// stands between the two.
#[verifier::opaque]
pub open spec fn spec_delimited(input: Seq<u8>, open: Seq<u8>, close: Seq<u8>) -> Option<
    (Seq<u8>, int),
> {
    if leads_no_case(open, input) {
        match find_no_case(close, input.skip(open.len() as int), 0) {
            Some(k) => Some(
                (input.subrange(open.len() as int, open.len() + k), open.len() + k + close.len()),
            ),
            None => None,
        }
    } else {
        None
    }
}

/// A class of ASCII characters.
#[derive(PartialEq, Eq, Structural, Debug, Clone, Copy, Hash)]
pub enum ByteClass {
    /// `0` to `9`.
    Digit,
    /// `0` to `9`, `a` to `f`, `A` to `F`.
    HexDigit,
    /// `0` to `9`, `a` to `z`, `A` to `Z`.
    Alphanumeric,
}

impl ByteClass {
    /// Whether `b` belongs to the class.
    pub open spec fn has(self, b: u8) -> bool {
        match self {
            ByteClass::Digit => 0x30 <= b <= 0x39,
            ByteClass::HexDigit => 0x30 <= b <= 0x39 || 0x61 <= b <= 0x66 || 0x41 <= b <= 0x46,
            ByteClass::Alphanumeric => 0x30 <= b <= 0x39 || 0x61 <= b <= 0x7a || 0x41 <= b <= 0x5a,
        }
    }

    /// Whether `b` belongs to the class.
    pub fn contains(self, b: u8) -> (r: bool)
        ensures
            r == self.has(b),
    {
        let digit = 0x30 <= b && b <= 0x39;
        match self {
            ByteClass::Digit => digit,
            ByteClass::HexDigit => digit || (0x61 <= b && b <= 0x66) || (0x41 <= b && b <= 0x46),
            ByteClass::Alphanumeric => digit || (0x61 <= b && b <= 0x7a) || (0x41 <= b && b
                <= 0x5a),
        }
    }
}

/// Where the run of bytes of `class` that starts at `k` ends.
pub open spec fn run_end(class: ByteClass, s: Seq<u8>, k: int) -> int
    decreases s.len() - k,
{
    if 0 <= k < s.len() && class.has(s[k]) {
        run_end(class, s, k + 1)
    } else {
        k
    }
}

/// The length of the longest prefix of `s` made of bytes of `class`.
pub open spec fn run_len(class: ByteClass, s: Seq<u8>) -> int {
    run_end(class, s, 0)
}

/// A run ends within the text, holds bytes of its class only, and is not
/// followed by one more.
pub proof fn lemma_run_end_bounds(class: ByteClass, s: Seq<u8>, k: int)
    requires
        0 <= k <= s.len(),
    ensures
        k <= run_end(class, s, k) <= s.len(),
        forall|i: int| k <= i < run_end(class, s, k) ==> class.has(#[trigger] s[i]),
        run_end(class, s, k) < s.len() ==> !class.has(s[run_end(class, s, k)]),
    decreases s.len() - k,
{
    if k < s.len() && class.has(s[k]) {
        lemma_run_end_bounds(class, s, k + 1);
    }
}

/// In valid UTF-8 the position after an ASCII byte lies between two
/// characters.
pub proof fn lemma_boundary_after_ascii(bytes: Seq<u8>, n: int)
    requires
        valid_utf8(bytes),
        0 < n <= bytes.len(),
        bytes[n - 1] <= 0x7f,
    ensures
        is_char_boundary(bytes, n),
{
    if n < bytes.len() {
        is_char_boundary_iff_not_is_continuation_byte(bytes, n - 1);
        valid_utf8_split(bytes, n - 1);
        let tail = bytes.subrange(n - 1, bytes.len() as int);
        assert(tail[0] == bytes[n - 1]);
        assert(valid_first_scalar(tail));
        assert(length_of_first_scalar(tail) == 1);
        let rest = pop_first_scalar(tail);
        assert(valid_utf8(rest));
        assert(rest.len() > 0);
        assert(rest[0] == bytes[n]);
        assert(valid_first_scalar(rest));
        is_char_boundary_iff_not_is_continuation_byte(bytes, n);
    } else {
        is_char_boundary_start_end_of_seq(bytes);
    }
}

/// A position whose byte does not continue a character lies between two
/// characters, and so does the end.
pub proof fn lemma_boundary_at(bytes: Seq<u8>, n: int)
    requires
        valid_utf8(bytes),
        0 <= n <= bytes.len(),
        n < bytes.len() ==> !is_continuation_byte(bytes[n]),
    ensures
        is_char_boundary(bytes, n),
{
    if n < bytes.len() {
        is_char_boundary_iff_not_is_continuation_byte(bytes, n);
    } else {
        is_char_boundary_start_end_of_seq(bytes);
    }
}

/// Valid UTF-8 does not begin in the middle of a character.
pub proof fn lemma_first_byte_leads(bytes: Seq<u8>)
    requires
        valid_utf8(bytes),
        bytes.len() > 0,
    ensures
        !is_continuation_byte(bytes[0]),
{
}

/// The lower-case form of an ASCII letter; any other byte as it is.
pub fn to_lower(b: u8) -> (r: u8)
    ensures
        r == lower(b),
{
    if 0x41 <= b && b <= 0x5a {
        b + 0x20
    } else {
        b
    }
}

/// All bytes of `s` are ASCII.
pub open spec fn all_ascii(s: Seq<u8>) -> bool {
    forall|i: int| 0 <= i < s.len() ==> #[trigger] s[i] <= 0x7f
}

/// Whether `head` is what stands before offset `k` of `input`, and `rest`
/// what follows the `width` bytes that stand there.
pub open spec fn cut_at(input: &str, k: int, width: int, head: &str, rest: &str) -> bool {
    &&& 0 <= k
    &&& k + width <= input.spec_bytes().len()
    &&& head.spec_bytes() == input.spec_bytes().subrange(0, k)
    &&& rest.spec_bytes() == input.spec_bytes().skip(k + width)
}

/// Whether `lit` stands at offset `k` of `s`, ASCII case ignored.
pub(crate) fn matches_at_no_case(s: &[u8], k: usize, lit: &[u8]) -> (r: bool)
    requires
        k <= s@.len(),
    ensures
        r == leads_no_case(lit@, s@.skip(k as int)),
{
    proof {
        reveal(agrees_no_case);
    }
    let n = s.len();
    if n - k < lit.len() {
        return false;
    }
    let mut i: usize = 0;
    while i < lit.len()
        invariant
            k <= s@.len(),
            n == s@.len(),
            i <= lit.len() <= s@.len() - k,
            forall|j: int| 0 <= j < i ==> lower(#[trigger] s@.skip(k as int)[j]) == lower(lit@[j]),
        decreases lit.len() - i,
    {
        if to_lower(s[k + i]) != to_lower(lit[i]) {
            proof {
                reveal(agrees_no_case);
                assert(s@.skip(k as int)[i as int] == s@[k + i]);
            }
            return false;
        }
        assert(s@.skip(k as int)[i as int] == s@[k + i]);
        i += 1;
    }
    true
}

/// Whether `lit` stands at offset `k` of `s`.
pub(crate) fn matches_at(s: &[u8], k: usize, lit: &[u8]) -> (r: bool)
    requires
        k <= s@.len(),
    ensures
        r == leads(lit@, s@.skip(k as int)),
{
    proof {
        reveal(agrees);
    }
    let n = s.len();
    if n - k < lit.len() {
        return false;
    }
    let mut i: usize = 0;
    while i < lit.len()
        invariant
            k <= s@.len(),
            n == s@.len(),
            i <= lit.len() <= s@.len() - k,
            forall|j: int| 0 <= j < i ==> #[trigger] s@.skip(k as int)[j] == lit@[j],
        decreases lit.len() - i,
    {
        if s[k + i] != lit[i] {
            proof {
                reveal(agrees);
                assert(s@.skip(k as int)[i as int] == s@[k + i]);
            }
            return false;
        }
        assert(s@.skip(k as int)[i as int] == s@[k + i]);
        i += 1;
    }
    true
}

/// The length of `s` in bytes.
pub fn byte_len(s: &str) -> (n: usize)
    ensures
        n == s.spec_bytes().len(),
{
    s.as_bytes().len()
}

/// Whether `s` begins with `lit`, ASCII case ignored.
pub fn starts_with_no_case(s: &str, lit: &str) -> (r: bool)
    ensures
        r == leads_no_case(lit.spec_bytes(), s.spec_bytes()),
{
    assert(s.spec_bytes().skip(0) =~= s.spec_bytes());
    matches_at_no_case(s.as_bytes(), 0, lit.as_bytes())
}

/// Whether `s` begins with `lit`.
pub fn starts_with(s: &str, lit: &str) -> (r: bool)
    ensures
        r == leads(lit.spec_bytes(), s.spec_bytes()),
{
    assert(s.spec_bytes().skip(0) =~= s.spec_bytes());
    matches_at(s.as_bytes(), 0, lit.as_bytes())
}

/// Takes `lit` off the front of `s`, ASCII case ignored, and returns the
/// rest.
pub(crate) fn strip_no_case<'a>(s: &'a str, lit: &str) -> (r: Option<&'a str>)
    requires
        all_ascii(lit.spec_bytes()),
    ensures
        r is Some == leads_no_case(lit.spec_bytes(), s.spec_bytes()),
        r matches Some(rest) ==> rest.spec_bytes() == s.spec_bytes().skip(
            lit.spec_bytes().len() as int,
        ),
{
    broadcast use vstd::utf8::encode_utf8_valid_utf8;

    proof {
        reveal(agrees_no_case);
    }
    if starts_with_no_case(s, lit) {
        let n = byte_len(lit);
        proof {
            let sb = s.spec_bytes();
            let lb = lit.spec_bytes();
            if n > 0 {
                assert(lower(sb[n - 1]) == lower(lb[n - 1]));
                assert(lb[n - 1] <= 0x7f);
                lemma_boundary_after_ascii(sb, n as int);
            }
        }
        Some(s.split_at(n).1)
    } else {
        None
    }
}

/// Takes `lit` off the front of `s` and returns the rest.
pub(crate) fn strip<'a>(s: &'a str, lit: &str) -> (r: Option<&'a str>)
    requires
        all_ascii(lit.spec_bytes()),
    ensures
        r is Some == leads(lit.spec_bytes(), s.spec_bytes()),
        r matches Some(rest) ==> rest.spec_bytes() == s.spec_bytes().skip(
            lit.spec_bytes().len() as int,
        ),
{
    broadcast use vstd::utf8::encode_utf8_valid_utf8;

    proof {
        reveal(agrees);
    }
    if starts_with(s, lit) {
        let n = byte_len(lit);
        proof {
            let sb = s.spec_bytes();
            let lb = lit.spec_bytes();
            if n > 0 {
                assert(sb[n - 1] == lb[n - 1]);
                lemma_boundary_after_ascii(sb, n as int);
            }
        }
        Some(s.split_at(n).1)
    } else {
        None
    }
}

/// Takes the byte `b` off the front of `s` and returns the rest.
pub(crate) fn strip_byte<'a>(s: &'a str, b: u8) -> (r: Option<&'a str>)
    requires
        b <= 0x7f,
    ensures
        r is Some == (s.spec_bytes().len() > 0 && s.spec_bytes()[0] == b),
        r matches Some(rest) ==> rest.spec_bytes() == s.spec_bytes().skip(1),
{
    broadcast use vstd::utf8::encode_utf8_valid_utf8;

    let sb = s.as_bytes();
    if sb.len() > 0 && sb[0] == b {
        proof {
            lemma_boundary_after_ascii(s.spec_bytes(), 1);
        }
        Some(s.split_at(1).1)
    } else {
        None
    }
}

/// Splits `input` before the first place where `target` occurs, ASCII case
/// ignored. Returns what follows, `target` included, and what came before.
pub fn take_until_no_case<'a>(input: &'a str, target: &str) -> (r: Result<
    (&'a str, &'a str),
    NoMatch,
>)
    ensures
        r is Ok == find_no_case(target.spec_bytes(), input.spec_bytes(), 0) is Some,
        r matches Ok((rest, head)) ==> find_no_case(target.spec_bytes(), input.spec_bytes(), 0)
            matches Some(k) && cut_at(input, k, 0, head, rest),
{
    let sb = input.as_bytes();
    let tb = target.as_bytes();
    let mut k: usize = 0;
    while sb.len() - k >= tb.len()
        invariant
            k <= sb@.len(),
            sb@ == input.spec_bytes(),
            tb@ == target.spec_bytes(),
            find_no_case(tb@, sb@, 0) == find_no_case(tb@, sb@, k as int),
        decreases sb@.len() - k,
    {
        if matches_at_no_case(sb, k, tb) {
            proof {
                broadcast use vstd::utf8::encode_utf8_valid_utf8;

                reveal(agrees_no_case);
                if tb@.len() > 0 {
                    lemma_first_byte_leads(tb@);
                    assert(lower(sb@.skip(k as int)[0]) == lower(tb@[0]));
                    assert(sb@.skip(k as int)[0] == sb@[k as int]);
                }
                lemma_boundary_at(sb@, k as int);
            }
            let (head, rest) = input.split_at(k);
            return Ok((rest, head));
        }
        proof {
            // An empty target stands everywhere, so this one is not empty.
            reveal(agrees_no_case);
        }
        k += 1;
    }
    Err(NoMatch)
}

/// Splits `input` around the first place where `lit` occurs. Returns what
/// follows `lit` and what came before it.
pub(crate) fn take_until_and_consume<'a>(input: &'a str, lit: &str) -> (r: Result<
    (&'a str, &'a str),
    NoMatch,
>)
    requires
        all_ascii(lit.spec_bytes()),
        lit.spec_bytes().len() > 0,
    ensures
        r is Ok == find(lit.spec_bytes(), input.spec_bytes(), 0) is Some,
        r matches Ok((rest, head)) ==> find(lit.spec_bytes(), input.spec_bytes(), 0) matches Some(
            k,
        ) && cut_at(input, k, lit.spec_bytes().len() as int, head, rest),
{
    let sb = input.as_bytes();
    let tb = lit.as_bytes();
    let n = tb.len();
    let mut k: usize = 0;
    while sb.len() - k >= n
        invariant
            k <= sb@.len(),
            n == tb@.len(),
            n > 0,
            sb@ == input.spec_bytes(),
            tb@ == lit.spec_bytes(),
            all_ascii(tb@),
            find(tb@, sb@, 0) == find(tb@, sb@, k as int),
        decreases sb@.len() - k,
    {
        if matches_at(sb, k, tb) {
            proof {
                broadcast use vstd::utf8::encode_utf8_valid_utf8;

                reveal(agrees);
                assert(sb@.skip(k as int)[0] == tb@[0]);
                assert(sb@.skip(k as int)[0] == sb@[k as int]);
                lemma_boundary_at(sb@, k as int);
                assert(sb@.skip(k as int)[n - 1] == tb@[n - 1]);
                assert(sb@.skip(k as int)[n - 1] == sb@[k + n - 1]);
                lemma_boundary_after_ascii(sb@, k + n);
            }
            let head = input.split_at(k).0;
            let rest = input.split_at(k + n).1;
            return Ok((rest, head));
        }
        k += 1;
    }
    Err(NoMatch)
}

/// Splits `s` after its longest prefix made of bytes of `class`. Returns the
/// prefix and what follows.
pub fn take_run<'a>(s: &'a str, class: ByteClass) -> (r: (&'a str, &'a str))
    ensures
        0 <= run_len(class, s.spec_bytes()) <= s.spec_bytes().len(),
        r.0.spec_bytes() == s.spec_bytes().subrange(0, run_len(class, s.spec_bytes())),
        r.1.spec_bytes() == s.spec_bytes().skip(run_len(class, s.spec_bytes())),
{
    broadcast use vstd::utf8::encode_utf8_valid_utf8;

    let sb = s.as_bytes();
    let mut k: usize = 0;
    while k < sb.len() && class.contains(sb[k])
        invariant
            k <= sb@.len(),
            sb@ == s.spec_bytes(),
            run_end(class, sb@, 0) == run_end(class, sb@, k as int),
            k > 0 ==> sb@[k - 1] <= 0x7f,
        decreases sb@.len() - k,
    {
        k += 1;
    }
    proof {
        if k > 0 {
            lemma_boundary_after_ascii(sb@, k as int);
        }
    }
    s.split_at(k)
}

/// What is known of an ASCII string's bytes: there is one for each
/// character, and it is the character's code.
pub proof fn lemma_ascii_text(s: &str)
    requires
        vstd::string::is_ascii(s),
    ensures
        all_ascii(s.spec_bytes()),
        s.spec_bytes().len() == s@.len(),
        forall|i: int| 0 <= i < s@.len() ==> #[trigger] s.spec_bytes()[i] == s@[i] as u8,
{
    is_ascii_chars_encode_utf8(s@);
}

/// Takes `open` off the front of `input`, ASCII case ignored, then splits
/// the rest around the first `close`. Returns what follows `close` and what
/// stood between the two.
pub(crate) fn delimited_no_case<'a>(input: &'a str, open: &str, close: &str) -> (r: Result<
    (&'a str, &'a str),
    NoMatch,
>)
    requires
        all_ascii(open.spec_bytes()),
        all_ascii(close.spec_bytes()),
        open.spec_bytes().len() > 0,
    ensures
        r matches Ok((rest, body)) ==> yields(
            input,
            rest,
            body.spec_bytes(),
            spec_delimited(input.spec_bytes(), open.spec_bytes(), close.spec_bytes()),
        ),
        r is Err ==> spec_delimited(input.spec_bytes(), open.spec_bytes(), close.spec_bytes())
            is None,
{
    proof {
        reveal(spec_delimited);
    }
    let after_open = match strip_no_case(input, open) {
        Some(rest) => rest,
        None => { return Err(NoMatch); },
    };
    let (after_body, body) = match take_until_no_case(after_open, close) {
        Ok(found) => found,
        Err(e) => { return Err(e); },
    };
    let ghost n = open.spec_bytes().len() as int;
    let ghost k = find_no_case(close.spec_bytes(), after_open.spec_bytes(), 0)->0;
    proof {
        lemma_find_no_case_found(close.spec_bytes(), after_open.spec_bytes(), 0);
        assert(after_body.spec_bytes() =~= input.spec_bytes().skip(n + k));
        assert(body.spec_bytes() =~= input.spec_bytes().subrange(n, n + k));
    }
    match strip_no_case(after_body, close) {
        Some(rest) => {
            proof {
                assert(rest.spec_bytes() =~= input.spec_bytes().skip(
                    n + k + close.spec_bytes().len(),
                ));
            }
            Ok((rest, body))
        },
        None => Err(NoMatch),
    }
}

/// Where `find_no_case` finds `lit`, there it stands, and nowhere before.
pub proof fn lemma_find_no_case_found(lit: Seq<u8>, s: Seq<u8>, k: int)
    requires
        0 <= k,
    ensures
        find_no_case(lit, s, k) matches Some(at) ==> {
            &&& k <= at <= s.len() - lit.len()
            &&& leads_no_case(lit, s.skip(at))
            &&& forall|j: int| k <= j < at ==> !leads_no_case(lit, #[trigger] s.skip(j))
        },
        find_no_case(lit, s, k) is None ==> forall|j: int|
            k <= j <= s.len() ==> !leads_no_case(lit, #[trigger] s.skip(j)),
    decreases s.len() - k,
{
    if s.len() - k < lit.len() {
    } else if leads_no_case(lit, s.skip(k)) {
    } else if k < s.len() {
        lemma_find_no_case_found(lit, s, k + 1);
    }
}

} // verus!
