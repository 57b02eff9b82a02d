//! The envelope of a share code: `rbk:<version>:<payload>`, where the payload is the base64
//! (standard alphabet, padded) of a serialised view. This module frames and checks the text;
//! turning the payload bytes into a view is the caller's.

use vstd::prelude::*;
use base64::Engine;

verus! {

/// Prefix of every share code.
pub const SHARE_CODE_PREFIX: &'static str = "rbk:";

/// Newest envelope version this library writes and reads.
pub const CURRENT_SHARE_VERSION: u32 = 1;

/// Why a share code could not be framed or opened.
#[derive(Clone, Debug, PartialEq, Eq)]
pub enum ShareCodeError {
    /// The view to encode carries another version than the encoder writes.
    VersionMismatch(u32),
    /// The code does not start with [`SHARE_CODE_PREFIX`].
    MissingPrefix,
    /// No `:` separates the version from the payload.
    MissingPayload,
    /// The version is not a decimal `u32`; the text is kept for the message.
    InvalidVersion(String),
    /// The payload is not valid base64; the decoder's message is kept.
    InvalidBase64(String),
    /// The code was written by a newer version of the format.
    NewerVersion(u32),
    /// The code's version is not one this library reads.
    UnsupportedVersion(u32),
    /// The payload's own version disagrees with its envelope.
    PayloadVersionMismatch(u32),
}

/// The kind of a [`ShareCodeError`], without the texts it carries.
#[derive(Clone, Copy, Debug, PartialEq, Eq, Structural)]
pub enum ShareFailure {
    VersionMismatch(u32),
    MissingPrefix,
    MissingPayload,
    InvalidVersion,
    InvalidBase64,
    NewerVersion(u32),
    UnsupportedVersion(u32),
    PayloadVersionMismatch(u32),
}

pub open spec fn failure_of(e: ShareCodeError) -> ShareFailure {
    match e {
        ShareCodeError::VersionMismatch(v) => ShareFailure::VersionMismatch(v),
        ShareCodeError::MissingPrefix => ShareFailure::MissingPrefix,
        ShareCodeError::MissingPayload => ShareFailure::MissingPayload,
        ShareCodeError::InvalidVersion(_) => ShareFailure::InvalidVersion,
        ShareCodeError::InvalidBase64(_) => ShareFailure::InvalidBase64,
        ShareCodeError::NewerVersion(v) => ShareFailure::NewerVersion(v),
        ShareCodeError::UnsupportedVersion(v) => ShareFailure::UnsupportedVersion(v),
        ShareCodeError::PayloadVersionMismatch(v) => ShareFailure::PayloadVersionMismatch(v),
    }
}

/// A character of the standard base64 alphabet, or its padding.
pub open spec fn is_base64_char(c: char) -> bool {
    ('A' <= c <= 'Z') || ('a' <= c <= 'z') || ('0' <= c <= '9') || c == '+' || c == '/' || c == '='
}

/// Symbol of the standard base64 alphabet for the six-bit value `v`: `A`–`Z`, `a`–`z`, `0`–`9`,
/// `+`, `/`.
pub open spec fn base64_symbol(v: int) -> char {
    if v < 26 {
        (65 + v) as u32 as char
    } else if v < 52 {
        (97 + (v - 26)) as u32 as char
    } else if v < 62 {
        (48 + (v - 52)) as u32 as char
    } else if v == 62 {
        '+'
    } else {
        '/'
    }
}

/// Standard base64 text of `data`: each group of three bytes becomes four symbols, six bits
/// each, most significant first; a last group of one or two bytes is filled with zero bits
/// and padded with `=` to four symbols.
pub open spec fn base64_text(data: Seq<u8>) -> Seq<char>
    decreases data.len(),
{
    if data.len() == 0 {
        Seq::<char>::empty()
    } else if data.len() == 1 {
        let a = data[0] as int;
        seq![base64_symbol(a / 4), base64_symbol((a % 4) * 16), '=', '=']
    } else if data.len() == 2 {
        let a = data[0] as int;
        let b = data[1] as int;
        seq![base64_symbol(a / 4), base64_symbol((a % 4) * 16 + b / 16), base64_symbol((b % 16) * 4), '=']
    } else {
        let a = data[0] as int;
        let b = data[1] as int;
        let c = data[2] as int;
        seq![base64_symbol(a / 4), base64_symbol((a % 4) * 16 + b / 16), base64_symbol((b % 16) * 4 + c / 64), base64_symbol(c % 64)]
            + base64_text(data.subrange(3, data.len() as int))
    }
}

/// The bytes whose standard base64 text is `text`, or `None` when no bytes have it.
pub open spec fn base64_bytes(text: Seq<char>) -> Option<Seq<u8>> {
    if exists|v: Seq<u8>| base64_text(v) == text {
        Some(choose|v: Seq<u8>| base64_text(v) == text)
    } else {
        None
    }
}

/// `base64::engine::general_purpose::STANDARD.encode`: the padded standard base64 text of
/// `data` ([`base64_text`]). The engine panics where the text's length overflows `usize`.
#[verifier::external_body]
fn base64_encode(data: &[u8]) -> (text: String)
    requires
        4 * (data@.len() / 3) + 4 <= usize::MAX,
    ensures
        text@ == base64_text(data@),
{
    base64::engine::general_purpose::STANDARD.encode(data)
}

/// `base64::engine::general_purpose::STANDARD.decode`: it accepts exactly the canonical padded
/// standard base64 text of some bytes, and gives those bytes back; otherwise the decoder's error
/// is handed out as text.
#[verifier::external_body]
fn base64_decode(text: &str) -> (r: Result<Vec<u8>, String>)
    ensures
        r matches Ok(bytes) ==> base64_text(bytes@) == text@,
        r is Err ==> forall|v: Seq<u8>| base64_text(v) != text@,
{
    base64::engine::general_purpose::STANDARD.decode(text).map_err(|e| e.to_string())
}

proof fn lemma_symbol(v: int)
    requires
        0 <= v < 64,
    ensures
        is_base64_char(base64_symbol(v)),
        base64_symbol(v) != '=',
        forall|w: int| 0 <= w < 64 && base64_symbol(w) == base64_symbol(v) ==> w == v,
{
}

proof fn lemma_byte_split(a: int, b: int)
    requires
        0 <= a < 256,
        0 <= b < 256,
    ensures
        0 <= a / 4 < 64,
        0 <= (a % 4) * 16 < 64,
        0 <= (a % 4) * 16 + b / 16 < 64,
        0 <= (b % 16) * 4 < 64,
        0 <= (b % 16) * 4 + a / 64 < 64,
        0 <= a % 64 < 64,
{
}

/// The text of `data` is made of alphabet symbols and padding only.
proof fn lemma_base64_text_chars(data: Seq<u8>)
    ensures
        forall|i: int| 0 <= i < base64_text(data).len() ==> is_base64_char(#[trigger] base64_text(data)[i]),
    decreases data.len(),
{
    if data.len() == 0 {
    } else if data.len() == 1 {
        lemma_byte_split(data[0] as int, 0);
        lemma_symbol(data[0] as int / 4);
        lemma_symbol((data[0] as int % 4) * 16);
    } else if data.len() == 2 {
        lemma_byte_split(data[0] as int, data[1] as int);
        lemma_symbol(data[0] as int / 4);
        lemma_symbol((data[0] as int % 4) * 16 + data[1] as int / 16);
        lemma_symbol((data[1] as int % 16) * 4);
    } else {
        let a = data[0] as int;
        let b = data[1] as int;
        let c = data[2] as int;
        lemma_byte_split(a, b);
        lemma_byte_split(c, b);
        lemma_symbol(a / 4);
        lemma_symbol((a % 4) * 16 + b / 16);
        lemma_symbol((b % 16) * 4 + c / 64);
        lemma_symbol(c % 64);
        let rest = data.subrange(3, data.len() as int);
        lemma_base64_text_chars(rest);
        let head = seq![base64_symbol(a / 4), base64_symbol((a % 4) * 16 + b / 16), base64_symbol((b % 16) * 4 + c / 64), base64_symbol(c % 64)];
        assert forall|i: int| 0 <= i < base64_text(data).len() implies is_base64_char(#[trigger] base64_text(data)[i]) by {
            if i >= 4 {
                assert(base64_text(data)[i] == base64_text(rest)[i - 4]);
            } else {
                assert(base64_text(data)[i] == head[i]);
            }
        }
    }
}

/// No two byte strings have the same base64 text.
pub proof fn lemma_base64_text_injective(x: Seq<u8>, y: Seq<u8>)
    requires
        base64_text(x) == base64_text(y),
    ensures
        x == y,
    decreases x.len(),
{
    let tx = base64_text(x);
    let ty = base64_text(y);
    if x.len() > 0 {
        lemma_byte_split(x[0] as int, if x.len() > 1 { x[1] as int } else { 0 });
    }
    if y.len() > 0 {
        lemma_byte_split(y[0] as int, if y.len() > 1 { y[1] as int } else { 0 });
    }
    if x.len() > 2 {
        lemma_byte_split(x[2] as int, x[1] as int);
    }
    if y.len() > 2 {
        lemma_byte_split(y[2] as int, y[1] as int);
    }
    if x.len() == 0 || y.len() == 0 {
        assert(tx.len() == 0 <==> x.len() == 0);
        assert(ty.len() == 0 <==> y.len() == 0);
        assert(x =~= y);
        return;
    }
    assert(tx[0] == ty[0]);
    assert(tx[1] == ty[1]);
    assert(tx[2] == ty[2]);
    assert(tx[3] == ty[3]);
    let xa = x[0] as int;
    let ya = y[0] as int;
    lemma_symbol(xa / 4);
    assert(xa / 4 == ya / 4);
    if x.len() == 1 || y.len() == 1 {
        if x.len() > 1 {
            lemma_symbol((xa % 4) * 16 + x[1] as int / 16);
            lemma_symbol((x[1] as int % 16) * 4 + if x.len() > 2 { x[2] as int / 64 } else { 0 });
        }
        if y.len() > 1 {
            lemma_symbol((ya % 4) * 16 + y[1] as int / 16);
            lemma_symbol((y[1] as int % 16) * 4 + if y.len() > 2 { y[2] as int / 64 } else { 0 });
        }
        assert(x.len() == 1 && y.len() == 1);
        lemma_symbol((xa % 4) * 16);
        assert(xa == ya);
        assert(x =~= y);
        return;
    }
    let xb = x[1] as int;
    let yb = y[1] as int;
    lemma_symbol((xa % 4) * 16 + xb / 16);
    assert(xa % 4 == ya % 4 && xb / 16 == yb / 16);
    assert(xa == ya);
    let xc = if x.len() > 2 { x[2] as int } else { 0 };
    let yc = if y.len() > 2 { y[2] as int } else { 0 };
    lemma_symbol((xb % 16) * 4 + xc / 64);
    lemma_symbol((yb % 16) * 4 + yc / 64);
    if x.len() > 2 {
        lemma_symbol(xc % 64);
    }
    if y.len() > 2 {
        lemma_symbol(yc % 64);
    }
    assert(x.len() == 2 <==> y.len() == 2);
    assert(xb % 16 == yb % 16);
    assert(xb == yb);
    if x.len() == 2 {
        assert(x =~= y);
        return;
    }
    assert(xc == yc);
    let rx = x.subrange(3, x.len() as int);
    let ry = y.subrange(3, y.len() as int);
    assert(base64_text(rx) =~= tx.subrange(4, tx.len() as int));
    assert(base64_text(ry) =~= ty.subrange(4, ty.len() as int));
    lemma_base64_text_injective(rx, ry);
    assert(x =~= seq![x[0], x[1], x[2]] + rx);
    assert(y =~= seq![y[0], y[1], y[2]] + ry);
}

/// The standard base64 text of `data` reads back as `data`.
pub proof fn lemma_base64_round_trip(data: Seq<u8>)
    ensures
        base64_bytes(base64_text(data)) == Some(data),
{
    let t = base64_text(data);
    assert(exists|v: Seq<u8>| base64_text(v) == t);
    let v = choose|v: Seq<u8>| base64_text(v) == t;
    lemma_base64_text_injective(v, data);
}

/// Unicode `White_Space`, as `str::trim` removes it.
pub open spec fn is_white_space(c: char) -> bool {
    ||| ('\u{9}' <= c <= '\u{d}')
    ||| c == ' '
    ||| c == '\u{85}'
    ||| c == '\u{a0}'
    ||| c == '\u{1680}'
    ||| ('\u{2000}' <= c <= '\u{200a}')
    ||| c == '\u{2028}'
    ||| c == '\u{2029}'
    ||| c == '\u{202f}'
    ||| c == '\u{205f}'
    ||| c == '\u{3000}'
}

fn white_space(c: char) -> (ws: bool)
    ensures
        ws == is_white_space(c),
{
    ('\u{9}' <= c && c <= '\u{d}') || c == ' ' || c == '\u{85}' || c == '\u{a0}' || c == '\u{1680}'
        || ('\u{2000}' <= c && c <= '\u{200a}') || c == '\u{2028}' || c == '\u{2029}' || c == '\u{202f}'
        || c == '\u{205f}' || c == '\u{3000}'
}

/// Start of `s` without leading white space.
pub open spec fn lead(s: Seq<char>) -> int
    decreases s.len(),
{
    if s.len() == 0 || !is_white_space(s[0]) {
        0
    } else {
        1 + lead(s.drop_first())
    }
}

/// End of `s` without trailing white space.
pub open spec fn trail(s: Seq<char>) -> int
    decreases s.len(),
{
    if s.len() == 0 || !is_white_space(s.last()) {
        s.len() as int
    } else {
        trail(s.drop_last())
    }
}

/// `s` without leading and trailing white space.
pub open spec fn trimmed(s: Seq<char>) -> Seq<char> {
    let a = lead(s);
    if a == s.len() {
        seq![]
    } else {
        s.subrange(a, trail(s))
    }
}

proof fn lemma_lead(s: Seq<char>)
    ensures
        0 <= lead(s) <= s.len(),
        forall|k: int| 0 <= k < lead(s) ==> is_white_space(#[trigger] s[k]),
        lead(s) < s.len() ==> !is_white_space(s[lead(s)]),
    decreases s.len(),
{
    if s.len() > 0 && is_white_space(s[0]) {
        lemma_lead(s.drop_first());
        assert forall|k: int| 0 <= k < lead(s) implies is_white_space(#[trigger] s[k]) by {
            if k > 0 {
                assert(s[k] == s.drop_first()[k - 1]);
            }
        }
    }
}

proof fn lemma_trail(s: Seq<char>)
    ensures
        0 <= trail(s) <= s.len(),
        forall|k: int| trail(s) <= k < s.len() ==> is_white_space(#[trigger] s[k]),
        trail(s) > 0 ==> !is_white_space(s[trail(s) - 1]),
    decreases s.len(),
{
    if s.len() > 0 && is_white_space(s.last()) {
        lemma_trail(s.drop_last());
        assert forall|k: int| trail(s) <= k < s.len() implies is_white_space(#[trigger] s[k]) by {
            if k < s.len() - 1 {
                assert(s[k] == s.drop_last()[k]);
            }
        }
    }
}

/// Index of the first non-white-space character of `s` (its length if none).
fn lead_index(s: &str) -> (a: usize)
    ensures
        a == lead(s@),
{
    let n = s.unicode_len();
    let mut i: usize = 0;
    assert(s@.subrange(0, n as int) =~= s@);
    while i < n && white_space(s.get_char(i))
        invariant
            n == s@.len(),
            i <= n,
            lead(s@) == i + lead(s@.subrange(i as int, n as int)),
        decreases n - i,
    {
        proof {
            let t = s@.subrange(i as int, n as int);
            assert(t.drop_first() == s@.subrange(i + 1, n as int));
        }
        i += 1;
    }
    proof {
        let t = s@.subrange(i as int, n as int);
        if i < n {
            assert(t[0] == s@[i as int]);
        }
        assert(s@.subrange(0, n as int) == s@);
    }
    i
}

/// End of `s` after dropping trailing white space.
fn trail_index(s: &str) -> (b: usize)
    ensures
        b == trail(s@),
{
    let n = s.unicode_len();
    let mut j: usize = n;
    assert(s@.subrange(0, n as int) =~= s@);
    while j > 0 && white_space(s.get_char(j - 1))
        invariant
            n == s@.len(),
            j <= n,
            trail(s@) == trail(s@.subrange(0, j as int)),
        decreases j,
    {
        proof {
            let t = s@.subrange(0, j as int);
            assert(t.drop_last() == s@.subrange(0, j - 1));
        }
        j -= 1;
    }
    proof {
        let t = s@.subrange(0, j as int);
        if j > 0 {
            assert(t.last() == s@[j - 1]);
        }
        assert(s@.subrange(0, n as int) == s@);
    }
    j
}

/// `s` without leading and trailing white space, as `str::trim` gives it.
pub fn trim_text(s: &str) -> (t: &str)
    ensures
        t@ == trimmed(s@),
{
    let a = lead_index(s);
    let n = s.unicode_len();
    if a == n {
        proof {
            reveal_strlit("");
        }
        return "";
    }
    let b = trail_index(s);
    proof {
        lemma_lead(s@);
        lemma_trail(s@);
        assert(a < b) by {
            assert(!is_white_space(s@[a as int]));
            if b <= a {
                assert(is_white_space(s@[a as int]));
            }
        }
    }
    s.substring_char(a, b)
}

/// Value of a run of decimal digits.
pub open spec fn digits_value(s: Seq<char>) -> int
    decreases s.len(),
{
    if s.len() == 0 {
        0
    } else {
        digits_value(s.drop_last()) * 10 + (s.last() as int - '0' as int)
    }
}

pub open spec fn all_digits(s: Seq<char>) -> bool {
    forall|i: int| 0 <= i < s.len() ==> '0' <= #[trigger] s[i] <= '9'
}

/// What `u32`'s `from_str` reads from `s`: an optional `+` and at least one decimal digit,
/// within `u32`.
pub open spec fn spec_parse_u32(s: Seq<char>) -> Option<u32> {
    let d = if s.len() > 0 && s[0] == '+' { s.drop_first() } else { s };
    if d.len() > 0 && all_digits(d) && digits_value(d) <= u32::MAX {
        Some(digits_value(d) as u32)
    } else {
        None
    }
}

proof fn lemma_digits_value_nonneg(s: Seq<char>)
    requires
        all_digits(s),
    ensures
        digits_value(s) >= 0,
    decreases s.len(),
{
    if s.len() > 0 {
        lemma_digits_value_nonneg(s.drop_last());
    }
}

proof fn lemma_digits_value_mono(s: Seq<char>, k: int)
    requires
        all_digits(s),
        0 <= k <= s.len(),
    ensures
        digits_value(s.subrange(0, k)) <= digits_value(s),
    decreases s.len() - k,
{
    if k < s.len() {
        lemma_digits_value_mono(s, k + 1);
        let t = s.subrange(0, k + 1);
        assert(t.drop_last() == s.subrange(0, k));
        lemma_digits_value_nonneg(s.subrange(0, k));
        assert(all_digits(t));
    } else {
        assert(s.subrange(0, k) == s);
    }
}

/// Decimal `u32` as `str::parse::<u32>` reads it.
pub fn parse_u32(s: &str) -> (v: Option<u32>)
    ensures
        v == spec_parse_u32(s@),
{
    let n = s.unicode_len();
    let start: usize = if n > 0 && s.get_char(0) == '+' { 1 } else { 0 };
    let ghost d = if s@.len() > 0 && s@[0] == '+' { s@.drop_first() } else { s@ };
    assert(d == s@.subrange(start as int, n as int));
    if start == n {
        return None;
    }
    let mut value: u64 = 0;
    let mut i: usize = start;
    while i < n
        invariant
            n == s@.len(),
            start <= i <= n,
            d == s@.subrange(start as int, n as int),
            d == (if s@.len() > 0 && s@[0] == '+' { s@.drop_first() } else { s@ }),
            all_digits(s@.subrange(start as int, i as int)),
            value == digits_value(s@.subrange(start as int, i as int)),
            value <= u32::MAX,
        decreases n - i,
    {
        let c = s.get_char(i);
        let ghost t = s@.subrange(start as int, i + 1);
        assert(t.drop_last() == s@.subrange(start as int, i as int));
        if !('0' <= c && c <= '9') {
            proof {
                assert(d[i - start] == c);
                assert(!all_digits(d));
            }
            return None;
        }
        assert(all_digits(t));
        assert(t.last() == c);
        let digit = (c as u32 - '0' as u32) as u64;
        let next = value * 10 + digit;
        assert(next == digits_value(t));
        if next > u32::MAX as u64 {
            proof {
                if all_digits(d) {
                    lemma_digits_value_mono(d, i + 1 - start);
                    assert(d.subrange(0, i + 1 - start) == t);
                }
            }
            return None;
        }
        value = next;
        i += 1;
    }
    assert(s@.subrange(start as int, n as int) == d);
    Some(value as u32)
}

/// Envelope of a payload: `rbk:<version>:<base64 of the payload>`.
pub open spec fn spec_envelope(version: u32, payload: Seq<u8>) -> Seq<char> {
    "rbk:"@ + crate::model::decimal(version as nat) + ":"@ + base64_text(payload)
}

/// Frame the serialised view `payload` of a view of `version` as a share code.
pub fn encode_share_envelope(version: u32, payload: &[u8]) -> (code: Result<String, ShareCodeError>)
    requires
        4 * (payload@.len() / 3) + 4 <= usize::MAX,
    ensures
        version != CURRENT_SHARE_VERSION ==> code == Err::<String, ShareCodeError>(ShareCodeError::VersionMismatch(version)),
        version == CURRENT_SHARE_VERSION ==> (code matches Ok(text) && text@ == spec_envelope(version, payload@)
            && spec_open(text@) == Ok::<(u32, Seq<u8>), ShareFailure>((version, payload@))),
{
    if version != CURRENT_SHARE_VERSION {
        return Err(ShareCodeError::VersionMismatch(version));
    }
    proof {
        reveal_strlit("rbk:");
        reveal_strlit(":");
    }
    let mut code = String::from_str(SHARE_CODE_PREFIX);
    let digits = crate::model::decimal_string(CURRENT_SHARE_VERSION as usize);
    code.append(digits.as_str());
    code.append(":");
    let text = base64_encode(payload);
    code.append(text.as_str());
    proof {
        lemma_envelope_opens(payload@, text@, code@);
    }
    Ok(code)
}

/// Version check of an envelope: the current version is read; a newer one and any other one
/// are refused.
pub open spec fn spec_version_ok(version: u32) -> Result<(), ShareFailure> {
    if version == 1 {
        Ok(())
    } else if version > CURRENT_SHARE_VERSION {
        Err(ShareFailure::NewerVersion(version))
    } else {
        Err(ShareFailure::UnsupportedVersion(version))
    }
}

pub fn check_share_version(version: u32) -> (r: Result<(), ShareCodeError>)
    ensures
        match r {
            Ok(_) => spec_version_ok(version) is Ok,
            Err(e) => spec_version_ok(version) == Err::<(), ShareFailure>(failure_of(e)),
        },
{
    if version == 1 {
        Ok(())
    } else if version > CURRENT_SHARE_VERSION {
        Err(ShareCodeError::NewerVersion(version))
    } else {
        Err(ShareCodeError::UnsupportedVersion(version))
    }
}

/// The payload's own version must match its envelope's.
pub fn check_payload_version(payload_version: u32) -> (r: Result<(), ShareCodeError>)
    ensures
        payload_version == 1 ==> r is Ok,
        payload_version != 1 ==> r == Err::<(), ShareCodeError>(ShareCodeError::PayloadVersionMismatch(payload_version)),
{
    if payload_version != 1 {
        return Err(ShareCodeError::PayloadVersionMismatch(payload_version));
    }
    Ok(())
}

/// Position of the first `:` in `s`, or its length.
pub open spec fn first_colon(s: Seq<char>) -> int
    decreases s.len(),
{
    if s.len() == 0 {
        0
    } else if s[0] == ':' {
        0
    } else {
        1 + first_colon(s.drop_first())
    }
}

proof fn lemma_first_colon(s: Seq<char>)
    ensures
        0 <= first_colon(s) <= s.len(),
        first_colon(s) < s.len() ==> s[first_colon(s)] == ':',
        forall|k: int| 0 <= k < first_colon(s) ==> #[trigger] s[k] != ':',
    decreases s.len(),
{
    if s.len() > 0 && s[0] != ':' {
        lemma_first_colon(s.drop_first());
        assert forall|k: int| 0 <= k < first_colon(s) implies #[trigger] s[k] != ':' by {
            if k > 0 {
                assert(s[k] == s.drop_first()[k - 1]);
            }
        }
    }
}

/// What opening a share code gives: its version and payload bytes, or why it fails.
pub open spec fn spec_open(code: Seq<char>) -> Result<(u32, Seq<u8>), ShareFailure> {
    let t = trimmed(code);
    if !(t.len() >= 4 && t.subrange(0, 4) == "rbk:"@) {
        Err(ShareFailure::MissingPrefix)
    } else {
        let rest = t.subrange(4, t.len() as int);
        let k = first_colon(rest);
        if k == rest.len() {
            Err(ShareFailure::MissingPayload)
        } else {
            let version_text = rest.subrange(0, k);
            let payload = trimmed(rest.subrange(k + 1, rest.len() as int));
            match spec_parse_u32(version_text) {
                None => Err(ShareFailure::InvalidVersion),
                Some(v) => match base64_bytes(payload) {
                    None => Err(ShareFailure::InvalidBase64),
                    Some(bytes) => match spec_version_ok(v) {
                        Ok(_) => Ok((v, bytes)),
                        Err(e) => Err(e),
                    },
                },
            }
        }
    }
}

/// Open a share code: trim it, check the prefix, split the version from the payload, parse the
/// version, decode the payload and check the version.
pub fn decode_share_envelope(code: &str) -> (r: Result<(u32, Vec<u8>), ShareCodeError>)
    ensures
        match r {
            Ok((v, bytes)) => spec_open(code@) == Ok::<(u32, Seq<u8>), ShareFailure>((v, bytes@)),
            Err(e) => spec_open(code@) == Err::<(u32, Seq<u8>), ShareFailure>(failure_of(e)),
        },
{
    let t = trim_text(code);
    let n = t.unicode_len();
    proof {
        reveal_strlit("rbk:");
    }
    if n < 4 || !(t.get_char(0) == 'r' && t.get_char(1) == 'b' && t.get_char(2) == 'k' && t.get_char(3) == ':') {
        proof {
            if t@.len() >= 4 {
                if t@.subrange(0, 4) == "rbk:"@ {
                    assert(t@[0] == t@.subrange(0, 4)[0]);
                    assert(t@[1] == t@.subrange(0, 4)[1]);
                    assert(t@[2] == t@.subrange(0, 4)[2]);
                    assert(t@[3] == t@.subrange(0, 4)[3]);
                }
            }
        }
        return Err(ShareCodeError::MissingPrefix);
    }
    assert(t@.subrange(0, 4) =~= "rbk:"@);
    let rest = t.substring_char(4, n);
    let m = rest.unicode_len();
    let mut k: usize = 0;
    assert(rest@.subrange(0, m as int) =~= rest@);
    while k < m && rest.get_char(k) != ':'
        invariant
            m == rest@.len(),
            k <= m,
            first_colon(rest@) == k + first_colon(rest@.subrange(k as int, m as int)),
        decreases m - k,
    {
        proof {
            let u = rest@.subrange(k as int, m as int);
            assert(u.drop_first() == rest@.subrange(k + 1, m as int));
        }
        k += 1;
    }
    proof {
        let u = rest@.subrange(k as int, m as int);
        if k < m {
            assert(u[0] == rest@[k as int]);
        }
    }
    if k == m {
        return Err(ShareCodeError::MissingPayload);
    }
    let version_text = rest.substring_char(0, k);
    let payload_text = rest.substring_char(k + 1, m);
    let payload = trim_text(payload_text);
    let version = match parse_u32(version_text) {
        Some(v) => v,
        None => return Err(ShareCodeError::InvalidVersion(String::from_str(version_text))),
    };
    let bytes = match base64_decode(payload) {
        Ok(b) => b,
        Err(msg) => return Err(ShareCodeError::InvalidBase64(msg)),
    };
    proof {
        lemma_base64_round_trip(bytes@);
    }
    match check_share_version(version) {
        Ok(()) => Ok((version, bytes)),
        Err(e) => Err(e),
    }
}

/// A share code framed around base64 text reads back as version `1` and the payload.
proof fn lemma_envelope_opens(payload: Seq<u8>, text: Seq<char>, code: Seq<char>)
    requires
        text == base64_text(payload),
        code == "rbk:"@ + seq!['1'] + ":"@ + text,
    ensures
        spec_open(code) == Ok::<(u32, Seq<u8>), ShareFailure>((1u32, payload)),
{
    reveal_strlit("rbk:");
    reveal_strlit(":");
    lemma_base64_text_chars(payload);
    lemma_base64_round_trip(payload);
    assert(code.len() == text.len() + 6);
    assert(code[0] == 'r');
    assert(!is_white_space(code[0]));
    assert(lead(code) == 0);
    let last = code.last();
    assert(!is_white_space(last)) by {
        if text.len() > 0 {
            assert(last == text[text.len() - 1]);
            assert(is_base64_char(last));
        } else {
            assert(last == ':');
        }
    }
    assert(trail(code) == code.len());
    assert(trimmed(code) =~= code);
    assert(code.subrange(0, 4) =~= "rbk:"@);
    let rest = code.subrange(4, code.len() as int);
    assert(rest[0] == '1');
    assert(rest[1] == ':');
    assert(rest.drop_first()[0] == ':');
    assert(first_colon(rest.drop_first()) == 0);
    assert(first_colon(rest) == 1);
    let vt = rest.subrange(0, 1);
    assert(vt =~= seq!['1']);
    assert(all_digits(vt));
    assert(vt.drop_last() =~= Seq::<char>::empty());
    assert(vt.last() == '1');
    assert(digits_value(vt.drop_last()) == 0);
    assert(('1' as int) - ('0' as int) == 1);
    assert(digits_value(vt) == 1);
    assert(spec_parse_u32(vt) == Some(1u32));
    let pt = rest.subrange(2, rest.len() as int);
    assert(pt =~= text);
    if text.len() > 0 {
        assert(!is_white_space(text[0]));
        assert(lead(text) == 0);
        assert(!is_white_space(text.last()));
        assert(trail(text) == text.len());
        assert(trimmed(text) =~= text);
    } else {
        assert(lead(text) == 0);
        assert(trimmed(text) =~= text);
    }
}

} // verus!
