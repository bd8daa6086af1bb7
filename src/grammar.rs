//! The wire grammar as spec functions: what decoding a value starting at a given
//! position of an input yields, and where it stops.
use vstd::prelude::*;
use vstd::utf8::*;
use crate::value::{Error, RespValue};

verus! {

pub const LF: u8 = 10;

pub const CR: u8 = 13;

pub const MINUS: u8 = 45;

pub const TAG_ARRAY: u8 = 42;

pub const TAG_BULK: u8 = 36;

pub const TAG_ERROR: u8 = 45;

pub const TAG_INTEGER: u8 = 58;

pub const TAG_SIMPLE: u8 = 43;

/// `j` is the first line feed of `s` at or after `i`.
pub open spec fn first_lf(s: Seq<u8>, i: int, j: int) -> bool {
    &&& 0 <= i <= j < s.len()
    &&& s[j] == LF
    &&& forall|k: int| i <= k < j ==> s[k] != LF
}

/// `s` with every carriage return removed.
pub open spec fn strip_cr(s: Seq<u8>) -> Seq<u8>
    decreases s.len(),
{
    if s.len() == 0 {
        s
    } else if s.last() == CR {
        strip_cr(s.drop_last())
    } else {
        strip_cr(s.drop_last()).push(s.last())
    }
}

/// Reading a line at `i`: the bytes up to the first line feed, carriage returns
/// dropped, and the position just past that line feed.
pub open spec fn spec_line(s: Seq<u8>, i: int) -> Result<(Seq<u8>, int), Error> {
    if exists|j: int| first_lf(s, i, j) {
        let j = choose|j: int| first_lf(s, i, j);
        Ok((strip_cr(s.subrange(i, j)), j + 1))
    } else {
        Err(Error::EndOfStream)
    }
}

/// Reading a line at `i` as UTF-8 text.
pub open spec fn spec_text(s: Seq<u8>, i: int) -> Result<(Seq<char>, int), Error> {
    match spec_line(s, i) {
        Err(e) => Err(e),
        Ok((b, p)) => if valid_utf8(b) {
            Ok((decode_utf8(b), p))
        } else {
            Err(Error::BadString)
        },
    }
}

pub open spec fn is_digit(c: u8) -> bool {
    48 <= c <= 57
}

/// `b` is a non-empty run of ASCII decimal digits.
pub open spec fn all_digits(b: Seq<u8>) -> bool {
    b.len() > 0 && forall|k: int| 0 <= k < b.len() ==> is_digit(b[k])
}

/// The number that a run of decimal digits writes, most significant first.
pub open spec fn digits_value(b: Seq<u8>) -> nat
    decreases b.len(),
{
    if b.len() == 0 {
        0
    } else {
        digits_value(b.drop_last()) * 10 + (b.last() - 48) as nat
    }
}

/// The integer that `b` writes in base 10: digits with an optional leading `-`.
pub open spec fn decimal_value(b: Seq<u8>) -> Option<int> {
    if b.len() > 0 && b[0] == MINUS {
        if all_digits(b.drop_first()) {
            Some(-(digits_value(b.drop_first()) as int))
        } else {
            None
        }
    } else if all_digits(b) {
        Some(digits_value(b) as int)
    } else {
        None
    }
}

/// `b` read as a base-10 signed 64-bit integer, if it is one.
pub open spec fn parse_i64(b: Seq<u8>) -> Option<i64> {
    match decimal_value(b) {
        Some(v) => if i64::MIN <= v <= i64::MAX {
            Some(v as i64)
        } else {
            None
        },
        None => None,
    }
}

/// Reading a line at `i` as an integer field.
pub open spec fn spec_integer(s: Seq<u8>, i: int) -> Result<(i64, int), Error> {
    match spec_line(s, i) {
        Err(e) => Err(e),
        Ok((b, p)) => if !valid_utf8(b) {
            Err(Error::BadString)
        } else {
            match parse_i64(b) {
                Some(n) => Ok((n, p)),
                None => Err(Error::BadInteger),
            }
        },
    }
}

/// The body of a bulk string whose tag has been read, at `i`.
pub open spec fn spec_bulk(s: Seq<u8>, i: int) -> Result<(RespValue, int), Error> {
    match spec_integer(s, i) {
        Err(e) => Err(e),
        Ok((n, p)) => if n == -1 {
            Ok((RespValue::Null, p))
        } else if n < -1 {
            Err(Error::UnknownError)
        } else if p + n > s.len() {
            Err(Error::EndOfStream)
        } else {
            match spec_line(s, p + n) {
                Err(e) => Err(e),
                Ok((_, q)) => Ok((RespValue::BulkString(s.subrange(p, p + n)), q)),
            }
        },
    }
}

/// Decoding one value that starts at `i`: the value and the position just past it.
pub open spec fn spec_value(s: Seq<u8>, i: int) -> Result<(RespValue, int), Error>
    decreases s.len() - i, 0int, 0nat,
{
    if !(0 <= i < s.len()) {
        Err(Error::EndOfStream)
    } else {
        let tag = s[i];
        if tag == TAG_ARRAY {
            match spec_integer(s, i + 1) {
                Err(e) => Err(e),
                Ok((n, p)) => if n == -1 {
                    Ok((RespValue::Null, p))
                } else if n < -1 {
                    Err(Error::UnknownError)
                } else {
                    match spec_items(s, p, n as nat) {
                        Err(e) => Err(e),
                        Ok((items, q)) => Ok((RespValue::Array(items), q)),
                    }
                },
            }
        } else if tag == TAG_BULK {
            spec_bulk(s, i + 1)
        } else if tag == TAG_ERROR {
            match spec_text(s, i + 1) {
                Err(e) => Err(e),
                Ok((t, p)) => Ok((RespValue::Error(t), p)),
            }
        } else if tag == TAG_INTEGER {
            match spec_integer(s, i + 1) {
                Err(e) => Err(e),
                Ok((n, p)) => Ok((RespValue::Integer(n), p)),
            }
        } else if tag == TAG_SIMPLE {
            match spec_text(s, i + 1) {
                Err(e) => Err(e),
                Ok((t, p)) => Ok((RespValue::SimpleString(t), p)),
            }
        } else {
            Err(Error::UnexpectedToken(tag as char))
        }
    }
}

/// Decoding `n` values one after another, starting at `i`. A decoded value always
/// ends past its first byte and within the input; the test on `q` only makes that
/// visible to the termination measure.
pub open spec fn spec_items(s: Seq<u8>, i: int, n: nat) -> Result<(Seq<RespValue>, int), Error>
    decreases s.len() - i, 1int, n,
{
    if n == 0 {
        Ok((seq![], i))
    } else {
        match spec_value(s, i) {
            Err(e) => Err(e),
            Ok((v, q)) => if !(i < q <= s.len()) {
                Err(Error::UnknownError)
            } else {
                match spec_items(s, q, (n - 1) as nat) {
                    Err(e) => Err(e),
                    Ok((rest, r)) => Ok((seq![v] + rest, r)),
                }
            },
        }
    }
}

} // verus!
