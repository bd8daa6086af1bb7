//! Properties of the grammar, proved over the spec functions that the decoder's
//! contracts speak of.
use vstd::prelude::*;
use vstd::utf8::*;
use crate::grammar::{
    all_digits, decimal_value, digits_value, first_lf, is_digit, parse_i64, spec_bulk, spec_integer,
    spec_items, spec_line, spec_text, spec_value, strip_cr, CR, LF, MINUS, TAG_ARRAY, TAG_BULK,
    TAG_ERROR, TAG_INTEGER, TAG_SIMPLE,
};
use crate::value::{Error, RespValue};

verus! {

/// The decimal digits of `m`, most significant first, without leading zeros.
pub open spec fn digits_of(m: nat) -> Seq<u8>
    decreases m,
{
    if m < 10 {
        seq![(48 + m) as u8]
    } else {
        digits_of(m / 10).push((48 + m % 10) as u8)
    }
}

/// `n` written in base 10, with a leading `-` when negative.
pub open spec fn decimal_text(n: int) -> Seq<u8> {
    if n < 0 {
        seq![MINUS] + digits_of((-n) as nat)
    } else {
        digits_of(n as nat)
    }
}

/// A tag byte, a line body, and the CR LF that ends the line.
pub open spec fn framed(tag: u8, body: Seq<u8>) -> Seq<u8> {
    seq![tag] + body + seq![CR, LF]
}

/// The wire form of a bulk string: its length line, its bytes, then CR LF.
pub open spec fn bulk_frame(b: Seq<u8>) -> Seq<u8> {
    framed(TAG_BULK, decimal_text(b.len() as int)) + b + seq![CR, LF]
}

/// `b` holds neither a carriage return nor a line feed.
pub open spec fn no_cr_lf(b: Seq<u8>) -> bool {
    forall|k: int| 0 <= k < b.len() ==> b[k] != CR && b[k] != LF
}

proof fn lemma_strip_cr_none(x: Seq<u8>)
    requires
        forall|k: int| 0 <= k < x.len() ==> x[k] != CR,
    ensures
        strip_cr(x) == x,
    decreases x.len(),
{
    if x.len() > 0 {
        lemma_strip_cr_none(x.drop_last());
        assert(x.drop_last().push(x.last()) =~= x);
    }
}

/// A line made of `c`, then CR LF, starting at `i`, reads back as `c`.
proof fn lemma_line_crlf(s: Seq<u8>, i: int, c: Seq<u8>)
    requires
        0 <= i,
        i + c.len() + 2 <= s.len(),
        s.subrange(i, i + c.len()) == c,
        no_cr_lf(c),
        s[i + c.len()] == CR,
        s[i + c.len() + 1] == LF,
    ensures
        spec_line(s, i) == Ok::<(Seq<u8>, int), Error>((c, i + c.len() + 2)),
{
    let j = i + c.len() + 1;
    assert forall|k: int| i <= k < j implies s[k] != LF by {
        if k < i + c.len() {
            assert(s[k] == s.subrange(i, i + c.len())[k - i]);
        }
    }
    assert(first_lf(s, i, j));
    assert forall|j2: int| first_lf(s, i, j2) implies j2 == j by {
        if j2 < j {
            assert(s[j2] == s.subrange(i, i + c.len())[j2 - i]);
        }
    }
    assert(s.subrange(i, j) =~= c.push(CR));
    assert(c.push(CR).drop_last() =~= c);
    lemma_strip_cr_none(c);
}

proof fn lemma_digits_of(m: nat)
    ensures
        all_digits(digits_of(m)),
        digits_value(digits_of(m)) == m,
    decreases m,
{
    let d = digits_of(m);
    if m < 10 {
        assert(d.drop_last() =~= Seq::<u8>::empty());
        assert(digits_value(d.drop_last()) == 0);
        assert(d.last() - 48 == m);
    } else {
        lemma_digits_of(m / 10);
        assert(d.drop_last() =~= digits_of(m / 10));
        assert(d.last() - 48 == m % 10);
        assert((m / 10) * 10 + m % 10 == m);
        assert forall|k: int| 0 <= k < d.len() implies is_digit(d[k]) by {
            if k < d.len() - 1 {
                assert(d[k] == digits_of(m / 10)[k]);
            }
        }
    }
}

/// Bytes below 0x80 are well-formed UTF-8.
proof fn lemma_ascii_valid_utf8(b: Seq<u8>)
    requires
        forall|k: int| 0 <= k < b.len() ==> b[k] < 128,
    ensures
        valid_utf8(b),
{
    let chars = Seq::new(b.len(), |k: int| b[k] as char);
    assert(is_ascii_chars(chars));
    is_ascii_chars_encode_utf8(chars);
    assert(encode_utf8(chars) =~= b);
    encode_utf8_valid_utf8(chars);
}

/// The base-10 text of a 64-bit integer is well-formed, free of line breaks, and
/// reads back as that integer.
proof fn lemma_decimal_text(n: i64)
    ensures
        parse_i64(decimal_text(n as int)) == Some(n),
        valid_utf8(decimal_text(n as int)),
        no_cr_lf(decimal_text(n as int)),
{
    let t = decimal_text(n as int);
    if n < 0 {
        let d = digits_of((-n) as nat);
        lemma_digits_of((-n) as nat);
        assert(t.drop_first() =~= d);
        assert(forall|k: int| 1 <= k < t.len() ==> t[k] == d[k - 1]);
    } else {
        lemma_digits_of(n as nat);
    }
    assert(decimal_value(t) == Some(n as int));
    lemma_ascii_valid_utf8(t);
}

/// Decoding `:N` CR LF yields the integer N, for every 64-bit signed N, and
/// consumes the whole line.
pub proof fn law_integer_round_trip(n: i64)
    ensures
        spec_value(framed(TAG_INTEGER, decimal_text(n as int)), 0) == Ok::<(RespValue, int), Error>(
            (RespValue::Integer(n), framed(TAG_INTEGER, decimal_text(n as int)).len() as int),
        ),
{
    let t = decimal_text(n as int);
    let s = framed(TAG_INTEGER, t);
    lemma_decimal_text(n);
    assert(s.subrange(1, 1 + t.len() as int) =~= t);
    lemma_line_crlf(s, 1, t);
    assert(spec_integer(s, 1) == Ok::<(i64, int), Error>((n, s.len() as int)));
}

/// For text without line breaks, decoding `+T` CR LF yields the simple string T
/// and `-T` CR LF yields the error T, each consuming the whole line.
pub proof fn law_text_round_trip(t: Seq<u8>)
    requires
        valid_utf8(t),
        no_cr_lf(t),
    ensures
        spec_value(framed(TAG_SIMPLE, t), 0) == Ok::<(RespValue, int), Error>(
            (RespValue::SimpleString(decode_utf8(t)), framed(TAG_SIMPLE, t).len() as int),
        ),
        spec_value(framed(TAG_ERROR, t), 0) == Ok::<(RespValue, int), Error>(
            (RespValue::Error(decode_utf8(t)), framed(TAG_ERROR, t).len() as int),
        ),
{
    let s1 = framed(TAG_SIMPLE, t);
    let s2 = framed(TAG_ERROR, t);
    assert(s1.subrange(1, 1 + t.len() as int) =~= t);
    assert(s2.subrange(1, 1 + t.len() as int) =~= t);
    lemma_line_crlf(s1, 1, t);
    lemma_line_crlf(s2, 1, t);
    assert(spec_text(s1, 1) == Ok::<(Seq<char>, int), Error>((decode_utf8(t), s1.len() as int)));
    assert(spec_text(s2, 1) == Ok::<(Seq<char>, int), Error>((decode_utf8(t), s2.len() as int)));
}

/// For any bytes B, of any length L that fits a 64-bit signed integer, decoding
/// `$L` CR LF, then B, then CR LF yields the bulk string B exactly, and consumes
/// all of it.
pub proof fn law_bulk_round_trip(b: Seq<u8>)
    requires
        b.len() <= i64::MAX,
    ensures
        spec_value(bulk_frame(b), 0) == Ok::<(RespValue, int), Error>(
            (RespValue::BulkString(b), bulk_frame(b).len() as int),
        ),
{
    let n = b.len() as i64;
    let t = decimal_text(n as int);
    let s = bulk_frame(b);
    let p = t.len() as int + 3;
    lemma_decimal_text(n);
    assert(s.subrange(1, 1 + t.len() as int) =~= t);
    lemma_line_crlf(s, 1, t);
    assert(spec_integer(s, 1) == Ok::<(i64, int), Error>((n, p)));
    assert(s.subrange(p + n, p + n) =~= Seq::<u8>::empty());
    lemma_line_crlf(s, p + n, Seq::<u8>::empty());
    assert(s.subrange(p, p + n) =~= b);
    assert(spec_bulk(s, 1) == Ok::<(RespValue, int), Error>((RespValue::BulkString(b), s.len() as int)));
}

/// The `len` bytes of `s` from `i` are the `len` bytes of `s2` from `j`.
pub open spec fn same_window(s: Seq<u8>, i: int, s2: Seq<u8>, j: int, len: int) -> bool {
    &&& 0 <= i
    &&& 0 <= j
    &&& 0 <= len
    &&& i + len <= s.len()
    &&& j + len <= s2.len()
    &&& forall|k: int| j <= k < j + len ==> #[trigger] s2[k] == s[i + (k - j)]
}

/// A line reads the same wherever its bytes stand.
proof fn lemma_line_window(s: Seq<u8>, i: int, s2: Seq<u8>, j: int, b: Seq<u8>, p: int)
    requires
        spec_line(s, i) == Ok::<(Seq<u8>, int), Error>((b, p)),
        same_window(s, i, s2, j, p - i),
    ensures
        spec_line(s2, j) == Ok::<(Seq<u8>, int), Error>((b, j + p - i)),
{
    let e = choose|e: int| first_lf(s, i, e);
    let e2 = j + e - i;
    assert(s2[j + (e - i)] == s[i + (e - i)]);
    assert forall|k: int| j <= k < e2 implies s2[k] != LF by {
        assert(s2[j + (k - j)] == s[i + (k - j)]);
    }
    assert(first_lf(s2, j, e2));
    assert forall|f: int| first_lf(s2, j, f) implies f == e2 by {
        if f < e2 {
            assert(s2[j + (f - j)] == s[i + (f - j)]);
        }
    }
    assert(s2.subrange(j, e2) =~= s.subrange(i, e));
}

/// Decoding `n` values that succeeds yields `n` of them and never moves back.
proof fn lemma_items_advance(s: Seq<u8>, i: int, n: nat)
    ensures
        spec_items(s, i, n) matches Ok((vs, q)) ==> i <= q && vs.len() == n && (i <= s.len()
            ==> q <= s.len()),
    decreases n,
{
    if n > 0 {
        if let Ok((v, q1)) = spec_value(s, i) {
            if i < q1 <= s.len() {
                lemma_items_advance(s, q1, (n - 1) as nat);
            }
        }
    }
}

/// A decoded value starts and ends within the input, and is not empty.
proof fn lemma_value_advances(s: Seq<u8>, i: int)
    ensures
        spec_value(s, i) matches Ok((v, q)) ==> 0 <= i < q <= s.len(),
{
    if 0 <= i < s.len() && s[i] == TAG_ARRAY {
        if let Ok((n, p)) = spec_integer(s, i + 1) {
            if n >= 0 {
                lemma_items_advance(s, p, n as nat);
            }
        }
    }
}

/// A bulk string decodes the same wherever its bytes stand.
proof fn lemma_bulk_window(s: Seq<u8>, i: int, s2: Seq<u8>, j: int, v: RespValue, q: int)
    requires
        spec_bulk(s, i) == Ok::<(RespValue, int), Error>((v, q)),
        same_window(s, i, s2, j, q - i),
    ensures
        spec_bulk(s2, j) == Ok::<(RespValue, int), Error>((v, j + q - i)),
{
    let (b, p) = spec_line(s, i)->Ok_0;
    lemma_line_window(s, i, s2, j, b, p);
    let n = spec_integer(s, i)->Ok_0.0;
    if n >= 0 {
        let (c, r) = spec_line(s, p + n)->Ok_0;
        let d = j + p - i;
        assert(same_window(s, p + n, s2, d + n, r - (p + n))) by {
            assert forall|k: int| d + n <= k < d + n + (r - (p + n)) implies #[trigger] s2[k]
                == s[(p + n) + (k - (d + n))] by {
                assert(s2[k] == s[i + (k - j)]);
            }
        }
        lemma_line_window(s, p + n, s2, d + n, c, r);
        assert(s2.subrange(d, d + n) =~= s.subrange(p, p + n)) by {
            assert forall|k: int| 0 <= k < n implies #[trigger] s2.subrange(d, d + n)[k]
                == s.subrange(p, p + n)[k] by {
                assert(s2[d + k] == s[i + (d + k - j)]);
            }
        }
    }
}

/// A value decodes the same wherever its bytes stand, whatever comes before or
/// after them.
proof fn lemma_value_window(s: Seq<u8>, i: int, s2: Seq<u8>, j: int, v: RespValue, q: int)
    requires
        spec_value(s, i) == Ok::<(RespValue, int), Error>((v, q)),
        same_window(s, i, s2, j, q - i),
    ensures
        spec_value(s2, j) == Ok::<(RespValue, int), Error>((v, j + q - i)),
    decreases s.len() - i, 0int, 0nat,
{
    lemma_value_advances(s, i);
    assert(s2[j + 0] == s[i + 0]);
    let tag = s[i];
    if tag == TAG_BULK {
        lemma_bulk_window(s, i + 1, s2, j + 1, v, q);
    } else if tag == TAG_ARRAY || tag == TAG_ERROR || tag == TAG_INTEGER || tag == TAG_SIMPLE {
        let (b, p) = spec_line(s, i + 1)->Ok_0;
        if tag == TAG_ARRAY {
            let n = spec_integer(s, i + 1)->Ok_0.0;
            if n >= 0 {
                let (vs, r) = spec_items(s, p, n as nat)->Ok_0;
                lemma_items_advance(s, p, n as nat);
                lemma_line_window(s, i + 1, s2, j + 1, b, p);
                lemma_items_window(s, p, n as nat, s2, j + p - i, vs, r);
            } else {
                lemma_line_window(s, i + 1, s2, j + 1, b, p);
            }
        } else {
            lemma_line_window(s, i + 1, s2, j + 1, b, p);
        }
    }
}

/// Decoding a run of values gives the same values wherever their bytes stand.
proof fn lemma_items_window(
    s: Seq<u8>,
    i: int,
    n: nat,
    s2: Seq<u8>,
    j: int,
    vs: Seq<RespValue>,
    q: int,
)
    requires
        spec_items(s, i, n) == Ok::<(Seq<RespValue>, int), Error>((vs, q)),
        same_window(s, i, s2, j, q - i),
    ensures
        spec_items(s2, j, n) == Ok::<(Seq<RespValue>, int), Error>((vs, j + q - i)),
    decreases s.len() - i, 1int, n,
{
    if n > 0 {
        let (v, q1) = spec_value(s, i)->Ok_0;
        lemma_items_advance(s, q1, (n - 1) as nat);
        lemma_value_window(s, i, s2, j, v, q1);
        let (rest, r) = spec_items(s, q1, (n - 1) as nat)->Ok_0;
        assert(same_window(s, q1, s2, j + q1 - i, q - q1)) by {
            assert forall|k: int| j + q1 - i <= k < j + q1 - i + (q - q1) implies #[trigger] s2[k]
                == s[q1 + (k - (j + q1 - i))] by {
                assert(s2[k] == s[i + (k - j)]);
            }
        }
        lemma_items_window(s, q1, (n - 1) as nat, s2, j + q1 - i, rest, r);
    }
}

/// Two encoded values written one after the other decode as the first, then,
/// from where the first ends, as the second: never as a blend of the two.
pub proof fn law_two_values(e1: Seq<u8>, v1: RespValue, e2: Seq<u8>, v2: RespValue)
    requires
        spec_value(e1, 0) == Ok::<(RespValue, int), Error>((v1, e1.len() as int)),
        spec_value(e2, 0) == Ok::<(RespValue, int), Error>((v2, e2.len() as int)),
    ensures
        spec_value(e1 + e2, 0) == Ok::<(RespValue, int), Error>((v1, e1.len() as int)),
        spec_value(e1 + e2, e1.len() as int) == Ok::<(RespValue, int), Error>(
            (v2, (e1 + e2).len() as int),
        ),
{
    let s = e1 + e2;
    lemma_value_window(e1, 0, s, 0, v1, e1.len() as int);
    assert forall|k: int| e1.len() <= k < e1.len() + e2.len() implies #[trigger] s[k] == e2[0 + (
    k - e1.len())] by {}
    lemma_value_window(e2, 0, s, e1.len() as int, v2, e2.len() as int);
}

/// Encoded values written one after another, from `i`, decode as a run of those
/// values that ends where their bytes end.
proof fn lemma_items_flatten(s: Seq<u8>, i: int, es: Seq<Seq<u8>>, vs: Seq<RespValue>)
    requires
        es.len() == vs.len(),
        forall|k: int|
            0 <= k < es.len() ==> spec_value(#[trigger] es[k], 0) == Ok::<(RespValue, int), Error>(
                (vs[k], es[k].len() as int),
            ),
        same_window(es.flatten(), 0, s, i, es.flatten().len() as int),
    ensures
        spec_items(s, i, es.len()) == Ok::<(Seq<RespValue>, int), Error>(
            (vs, i + es.flatten().len()),
        ),
    decreases es.len(),
{
    if es.len() == 0 {
        assert(vs =~= seq![]);
    } else {
        let f = es.flatten();
        let e0 = es[0];
        let rest = es.drop_first();
        assert(f == e0 + rest.flatten());
        lemma_value_advances(e0, 0);
        assert forall|k: int| i <= k < i + e0.len() implies #[trigger] s[k] == e0[0 + (k - i)] by {
            assert(s[k] == f[0 + (k - i)]);
        }
        lemma_value_window(e0, 0, s, i, vs[0], e0.len() as int);
        let i1 = i + e0.len();
        assert forall|k: int| 0 <= k < rest.len() implies spec_value(#[trigger] rest[k], 0)
            == Ok::<(RespValue, int), Error>((vs.drop_first()[k], rest[k].len() as int)) by {
            assert(rest[k] == es[k + 1]);
        }
        assert forall|k: int| i1 <= k < i1 + rest.flatten().len() implies #[trigger] s[k]
            == rest.flatten()[0 + (k - i1)] by {
            assert(s[k] == f[0 + (k - i)]);
        }
        lemma_items_flatten(s, i1, rest, vs.drop_first());
        assert(seq![vs[0]] + vs.drop_first() =~= vs);
    }
}

/// Decoding `*N` CR LF followed by N encoded values yields the array of those N
/// values in order, and consumes all of it; the values may be arrays themselves.
pub proof fn law_array_of_values(es: Seq<Seq<u8>>, vs: Seq<RespValue>)
    requires
        es.len() == vs.len(),
        es.len() <= i64::MAX,
        forall|k: int|
            0 <= k < es.len() ==> spec_value(#[trigger] es[k], 0) == Ok::<(RespValue, int), Error>(
                (vs[k], es[k].len() as int),
            ),
    ensures
        spec_value(framed(TAG_ARRAY, decimal_text(es.len() as int)) + es.flatten(), 0) == Ok::<
            (RespValue, int),
            Error,
        >(
            (
                RespValue::Array(vs),
                (framed(TAG_ARRAY, decimal_text(es.len() as int)) + es.flatten()).len() as int,
            ),
        ),
{
    let n = es.len() as i64;
    let t = decimal_text(n as int);
    let f = es.flatten();
    let s = framed(TAG_ARRAY, t) + f;
    let p = t.len() as int + 3;
    lemma_decimal_text(n);
    assert(s.subrange(1, 1 + t.len() as int) =~= t);
    lemma_line_crlf(s, 1, t);
    assert(spec_integer(s, 1) == Ok::<(i64, int), Error>((n, p)));
    assert forall|k: int| p <= k < p + f.len() implies #[trigger] s[k] == f[0 + (k - p)] by {}
    lemma_items_flatten(s, p, es, vs);
}

} // verus!
