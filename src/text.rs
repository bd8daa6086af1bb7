//! Reading text and base-10 integers out of raw line bytes.
use vstd::prelude::*;
use vstd::utf8::*;
use crate::grammar::{all_digits, decimal_value, digits_value, is_digit, parse_i64, MINUS};

verus! {

/// Relies on `String::from_utf8`: it succeeds exactly when the bytes are
/// well-formed UTF-8, and the string then holds the characters they encode.
#[verifier::external_body]
pub(crate) fn string_from_utf8(b: Vec<u8>) -> (r: Option<String>)
    ensures
        match r {
            Some(s) => valid_utf8(b@) && s@ == decode_utf8(b@),
            None => !valid_utf8(b@),
        },
{
    match String::from_utf8(b) {
        Ok(s) => Some(s),
        Err(_) => None,
    }
}

/// The value of a run of digits is at least the value of any of its prefixes.
proof fn lemma_digits_prefix_le(b: Seq<u8>, k: int)
    requires
        0 <= k <= b.len(),
        forall|m: int| 0 <= m < b.len() ==> is_digit(b[m]),
    ensures
        digits_value(b.subrange(0, k)) <= digits_value(b),
    decreases b.len(),
{
    if k < b.len() {
        lemma_digits_prefix_le(b.drop_last(), k);
        assert(b.drop_last().subrange(0, k) =~= b.subrange(0, k));
    } else {
        assert(b.subrange(0, k) =~= b);
    }
}

/// Reads `b` as a base-10 signed 64-bit integer: an optional `-`, then one or
/// more ASCII digits, nothing else, and a value within range.
pub fn parse_decimal(b: &[u8]) -> (r: Option<i64>)
    ensures
        r == parse_i64(b@),
{
    let len = b.len();
    let neg = len > 0 && b[0] == MINUS;
    let start: usize = if neg { 1 } else { 0 };
    let ghost rest = b@.subrange(start as int, len as int);
    proof {
        if neg {
            assert(rest =~= b@.drop_first());
        } else {
            assert(rest =~= b@);
        }
    }
    if start >= len {
        return None;
    }
    let limit: u128 = 0x8000_0000_0000_0000;
    let mut acc: u128 = 0;
    let mut k: usize = start;
    while k < len
        invariant
            start <= k <= len,
            len == b@.len(),
            rest == b@.subrange(start as int, len as int),
            neg == (len > 0 && b@[0] == MINUS),
            neg ==> rest == b@.drop_first(),
            !neg ==> rest == b@,
            acc <= limit,
            limit == 0x8000_0000_0000_0000u128,
            acc == digits_value(b@.subrange(start as int, k as int)),
            forall|m: int| start <= m < k ==> is_digit(b@[m]),
        decreases len - k,
    {
        let c = b[k];
        if c < 48 || c > 57 {
            assert(!is_digit(rest[k - start]));
            assert(!all_digits(rest));
            assert(decimal_value(b@) is None);
            return None;
        }
        let ghost prev = b@.subrange(start as int, k as int);
        let ghost next_digits = b@.subrange(start as int, k + 1);
        assert(next_digits.drop_last() =~= prev);
        let next = acc * 10 + (c - 48) as u128;
        if next > limit {
            proof {
                if all_digits(rest) {
                    lemma_digits_prefix_le(rest, k + 1 - start);
                    assert(rest.subrange(0, k + 1 - start) =~= next_digits);
                    assert(digits_value(rest) > limit);
                }
                assert(parse_i64(b@) is None);
            }
            return None;
        }
        acc = next;
        k = k + 1;
    }
    assert(b@.subrange(start as int, k as int) =~= rest);
    if neg {
        if acc == limit {
            Some(i64::MIN)
        } else {
            Some(-(acc as i64))
        }
    } else if acc <= 0x7fff_ffff_ffff_ffff {
        Some(acc as i64)
    } else {
        None
    }
}

} // verus!
