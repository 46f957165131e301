//! Decoding the fields of a vocabulary line: base64 text, UTF-8 and decimal
//! numbers.

use base64::Engine;
use vstd::prelude::*;

verus! {

/// What the standard base64 alphabet with padding decodes `text` to, or
/// `None` where `text` is no such encoding.
pub uninterp spec fn base64_decoded(text: Seq<u8>) -> Option<Seq<u8>>;

/// Calls `base64::engine::general_purpose::STANDARD.decode`. Trusted: the
/// result is the decoding of `text`, a function of `text` alone, and `None`
/// stands for every decoding error.
#[verifier::external_body]
pub(crate) fn decode_base64(text: &[u8]) -> (decoded: Option<Vec<u8>>)
    ensures
        decoded.is_some() == base64_decoded(text@).is_some(),
        decoded.is_some() ==> decoded.unwrap()@ == base64_decoded(text@).unwrap(),
{
    match base64::engine::general_purpose::STANDARD.decode(text) {
        Ok(bytes) => Some(bytes),
        Err(_) => None,
    }
}

/// Calls `std::str::from_utf8`. Trusted: it succeeds exactly on well-formed
/// UTF-8.
#[verifier::external_body]
pub(crate) fn is_utf8(bytes: &[u8]) -> (valid: bool)
    ensures
        valid == vstd::utf8::valid_utf8(bytes@),
{
    std::str::from_utf8(bytes).is_ok()
}

/// An ASCII decimal digit.
pub open spec fn is_digit(b: u8) -> bool {
    48 <= b <= 57
}

/// Every byte is an ASCII decimal digit.
pub open spec fn all_digits(s: Seq<u8>) -> bool {
    forall|i: int| 0 <= i < s.len() ==> is_digit(#[trigger] s[i])
}

/// The number that the decimal digits `s` write.
pub open spec fn digits_value(s: Seq<u8>) -> nat
    decreases s.len(),
{
    if s.len() == 0 {
        0
    } else {
        digits_value(s.drop_last()) * 10 + (s.last() - 48) as nat
    }
}

/// The digits of a number: the text without one leading plus sign.
pub open spec fn unsigned_part(s: Seq<u8>) -> Seq<u8> {
    if s.len() > 0 && s[0] == 43 {
        s.skip(1)
    } else {
        s
    }
}

/// The `u32` that `s` writes in decimal: digits, after at most one plus
/// sign, at least one of them, and a value that fits.
pub open spec fn decimal_u32(s: Seq<u8>) -> Option<u32> {
    let body = unsigned_part(s);
    if body.len() > 0 && all_digits(body) && digits_value(body) <= u32::MAX {
        Some(digits_value(body) as u32)
    } else {
        None
    }
}

proof fn lemma_digits_value_grows(s: Seq<u8>, n: int)
    requires
        0 <= n <= s.len(),
        all_digits(s),
    ensures
        digits_value(s.subrange(0, n)) <= digits_value(s),
    decreases s.len() - n,
{
    if n < s.len() {
        lemma_digits_value_grows(s, n + 1);
        assert(s.subrange(0, n + 1).drop_last() =~= s.subrange(0, n));
    } else {
        assert(s.subrange(0, n) =~= s);
    }
}

/// Reads a decimal `u32`.
pub fn parse_u32(text: &[u8]) -> (number: Option<u32>)
    ensures
        number == decimal_u32(text@),
{
    let mut i: usize = 0;
    if text.len() > 0 && text[0] == 43 {
        i = 1;
    }
    let start = i;
    let ghost body = unsigned_part(text@);
    if i == text.len() {
        return None;
    }
    let mut value: u64 = 0;
    while i < text.len()
        invariant
            start <= i <= text.len(),
            start <= 1,
            body == unsigned_part(text@),
            body =~= text@.skip(start as int),
            all_digits(body.subrange(0, i - start)),
            value == digits_value(body.subrange(0, i - start)),
            value <= u32::MAX,
        decreases text.len() - i,
    {
        let b = text[i];
        assert(body.len() == text.len() - start);
        assert(body[i - start] == b);
        if b < 48 || b > 57 {
            assert(!is_digit(body[i - start]));
            return None;
        }
        let ghost seen = body.subrange(0, i - start + 1);
        assert(seen.drop_last() =~= body.subrange(0, i - start));
        assert(seen.last() == b);
        assert(all_digits(seen));
        let next: u64 = value * 10 + (b - 48) as u64;
        assert(digits_value(seen) == next);
        if next > 4294967295 {
            proof {
                if all_digits(body) {
                    lemma_digits_value_grows(body, i - start + 1);
                }
            }
            return None;
        }
        value = next;
        i = i + 1;
    }
    assert(body.subrange(0, i - start) =~= body);
    Some(value as u32)
}

} // verus!
