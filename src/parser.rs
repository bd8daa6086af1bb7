//! The decoder: reads one value at a time from a byte input, front to back.
use vstd::prelude::*;
use vstd::utf8::*;
use crate::grammar::{
    first_lf, spec_bulk, spec_integer, spec_items, spec_line, spec_text, spec_value, strip_cr, CR, LF,
    TAG_ARRAY, TAG_BULK, TAG_ERROR, TAG_INTEGER, TAG_SIMPLE,
};
use crate::text::{parse_decimal, string_from_utf8};
use crate::value::{models_of, Error, RESPType, RespValue};

verus! {

/// A decoder over a sequence of bytes and a read position in it.
pub struct Parser {
    bytes: Vec<u8>,
    pos: usize,
}

impl View for Parser {
    /// The input, and the position of the next byte to read.
    type V = (Seq<u8>, int);

    closed spec fn view(&self) -> (Seq<u8>, int) {
        (self.bytes@, self.pos as int)
    }
}

/// `r` with `pre` put in front of the values it holds, if it holds any.
pub open spec fn prefixed(pre: Seq<RespValue>, r: Result<(Seq<RespValue>, int), Error>) -> Result<
    (Seq<RespValue>, int),
    Error,
> {
    match r {
        Ok((vs, q)) => Ok((pre + vs, q)),
        Err(e) => Err(e),
    }
}

proof fn lemma_models_push(items: Seq<RESPType>, v: RESPType)
    ensures
        models_of(items.push(v)) == models_of(items).push(v.model()),
{
    assert(models_of(items.push(v)) =~= models_of(items).push(v.model()));
}

impl Parser {
    /// A decoder that reads `bytes` from the start.
    pub fn new(bytes: Vec<u8>) -> (r: Parser)
        ensures
            r@ == (bytes@, 0int),
    {
        Parser { bytes, pos: 0 }
    }

    /// The position of the next byte to read.
    pub fn position(&self) -> (r: usize)
        ensures
            r == self@.1,
    {
        self.pos
    }

    /// Decodes the next value and moves past exactly the bytes it took.
    pub fn parse_next(&mut self) -> (r: Result<RESPType, Error>)
        ensures
            final(self)@.0 == old(self)@.0,
            match spec_value(old(self)@.0, old(self)@.1) {
                Ok((v, p)) => {
                    &&& r matches Ok(x) && x.model() == v
                    &&& final(self)@.1 == p
                    &&& old(self)@.1 < p <= old(self)@.0.len()
                },
                Err(e) => r == Err::<RESPType, Error>(e),
            },
        decreases old(self)@.0.len() - old(self)@.1, 0int, 0int,
    {
        if self.pos >= self.bytes.len() {
            return Err(Error::EndOfStream);
        }
        let tag = self.bytes[self.pos];
        self.pos = self.pos + 1;
        if tag == TAG_ARRAY {
            self.parse_array()
        } else if tag == TAG_BULK {
            self.parse_bulk_str()
        } else if tag == TAG_ERROR {
            self.parse_error()
        } else if tag == TAG_INTEGER {
            match self.parse_integer() {
                Ok(n) => Ok(RESPType::Integer(n)),
                Err(e) => Err(e),
            }
        } else if tag == TAG_SIMPLE {
            match self.parse_simple_str() {
                Ok(t) => Ok(RESPType::SimpleString(t)),
                Err(e) => Err(e),
            }
        } else {
            Err(Error::UnexpectedToken(tag as char))
        }
    }

    /// The body of an array whose tag has been read: a count, then that many values.
    fn parse_array(&mut self) -> (r: Result<RESPType, Error>)
        requires
            0 < old(self).pos <= old(self).bytes.len(),
        ensures
            final(self).bytes@ == old(self).bytes@,
            match spec_integer(old(self).bytes@, old(self).pos as int) {
                Ok((n, p)) => if n == -1 {
                    r matches Ok(x) && x.model() == RespValue::Null && final(self).pos == p
                } else if n < -1 {
                    r == Err::<RESPType, Error>(Error::UnknownError)
                } else {
                    match spec_items(old(self).bytes@, p, n as nat) {
                        Ok((items, q)) => {
                            &&& r matches Ok(x) && x.model() == RespValue::Array(items)
                            &&& final(self).pos == q
                            &&& old(self).pos < q <= old(self).bytes.len()
                        },
                        Err(e) => r == Err::<RESPType, Error>(e),
                    }
                },
                Err(e) => r == Err::<RESPType, Error>(e),
            },
        decreases old(self).bytes@.len() - old(self).pos, 1int, 0int,
    {
        let n = match self.parse_integer() {
            Ok(n) => n,
            Err(e) => return Err(e),
        };
        if n == -1 {
            return Ok(RESPType::Null);
        }
        if n < -1 {
            return Err(Error::UnknownError);
        }
        let ghost s = self.bytes@;
        let ghost start = self.pos as int;
        let mut items: Vec<RESPType> = Vec::new();
        let mut k: i64 = 0;
        assert(models_of(items@) =~= seq![]);
        assert(prefixed(seq![], spec_items(s, start, n as nat)) == spec_items(s, start, n as nat)) by {
            match spec_items(s, start, n as nat) {
                Ok((vs, q)) => assert(seq![] + vs =~= vs),
                Err(_) => {},
            }
        }
        while k < n
            invariant
                0 <= k <= n,
                self.bytes@ == s,
                s == old(self).bytes@,
                spec_integer(s, old(self).pos as int) == Ok::<(i64, int), Error>((n, start)),
                old(self).pos < start <= self.pos <= s.len(),
                s.len() - start < old(self).bytes@.len() - old(self).pos + 1,
                spec_items(s, start, n as nat) == prefixed(
                    models_of(items@),
                    spec_items(s, self.pos as int, (n - k) as nat),
                ),
            decreases n - k,
        {
            let ghost before = self.pos as int;
            let ghost m = (n - k) as nat;
            match self.parse_next() {
                Err(e) => {
                    return Err(e);
                },
                Ok(v) => {
                    proof {
                        let pre = models_of(items@);
                        lemma_models_push(items@, v);
                        match spec_items(s, self.pos as int, (m - 1) as nat) {
                            Ok((rest, r)) => {
                                assert(pre + (seq![v.model()] + rest) =~= pre.push(v.model()) + rest);
                            },
                            Err(_) => {},
                        }
                    }
                    items.push(v);
                    k = k + 1;
                },
            }
        }
        proof {
            assert(models_of(items@) + seq![] =~= models_of(items@));
        }
        Ok(RESPType::Array(items))
    }

    /// The body of a bulk string whose tag has been read: a length, that many
    /// bytes taken as they are, then the rest of that line.
    fn parse_bulk_str(&mut self) -> (r: Result<RESPType, Error>)
        ensures
            final(self).bytes@ == old(self).bytes@,
            match spec_bulk(old(self).bytes@, old(self).pos as int) {
                Ok((v, p)) => {
                    &&& r matches Ok(x) && x.model() == v
                    &&& final(self).pos == p
                    &&& old(self).pos < p <= old(self).bytes.len()
                },
                Err(e) => r == Err::<RESPType, Error>(e),
            },
    {
        let n = match self.parse_integer() {
            Ok(n) => n,
            Err(e) => return Err(e),
        };
        if n == -1 {
            return Ok(RESPType::Null);
        }
        if n < -1 {
            return Err(Error::UnknownError);
        }
        let avail: usize = self.bytes.len() - self.pos;
        if n as u64 > avail as u64 {
            return Err(Error::EndOfStream);
        }
        let count = n as usize;
        let start = self.pos;
        let end = start + count;
        let mut buf: Vec<u8> = Vec::new();
        while self.pos < end
            invariant
                start <= self.pos <= end,
                end == start + count,
                end <= self.bytes@.len(),
                self.bytes@ == old(self).bytes@,
                buf@ == self.bytes@.subrange(start as int, self.pos as int),
            decreases end - self.pos,
        {
            buf.push(self.bytes[self.pos]);
            self.pos = self.pos + 1;
            assert(buf@ =~= self.bytes@.subrange(start as int, self.pos as int));
        }
        match self.read_to_crlf() {
            Ok(_) => Ok(RESPType::BulkString(buf)),
            Err(e) => Err(e),
        }
    }

    /// The body of an error reply whose tag has been read.
    fn parse_error(&mut self) -> (r: Result<RESPType, Error>)
        ensures
            final(self).bytes@ == old(self).bytes@,
            match spec_text(old(self).bytes@, old(self).pos as int) {
                Ok((t, p)) => r matches Ok(x) && x.model() == RespValue::Error(t)
                    && final(self).pos == p,
                Err(e) => r == Err::<RESPType, Error>(e),
            },
    {
        match self.parse_simple_str() {
            Ok(t) => Ok(RESPType::Error(t)),
            Err(e) => Err(e),
        }
    }

    /// A line read as an integer field.
    fn parse_integer(&mut self) -> (r: Result<i64, Error>)
        ensures
            final(self).bytes@ == old(self).bytes@,
            match spec_integer(old(self).bytes@, old(self).pos as int) {
                Ok((n, p)) => r == Ok::<i64, Error>(n) && final(self).pos == p,
                Err(e) => r == Err::<i64, Error>(e),
            },
    {
        let line = match self.read_to_crlf() {
            Ok(line) => line,
            Err(e) => return Err(e),
        };
        let ghost lb = line@;
        match string_from_utf8(line) {
            None => Err(Error::BadString),
            Some(text) => {
                let b = text.as_str().as_bytes();
                proof {
                    decode_utf8_encode_utf8(lb);
                }
                match parse_decimal(b) {
                    Some(n) => Ok(n),
                    None => Err(Error::BadInteger),
                }
            },
        }
    }

    /// A line read as UTF-8 text.
    fn parse_simple_str(&mut self) -> (r: Result<String, Error>)
        ensures
            final(self).bytes@ == old(self).bytes@,
            match spec_text(old(self).bytes@, old(self).pos as int) {
                Ok((t, p)) => r matches Ok(x) && x@ == t && final(self).pos == p,
                Err(e) => r == Err::<String, Error>(e),
            },
    {
        let line = match self.read_to_crlf() {
            Ok(line) => line,
            Err(e) => return Err(e),
        };
        match string_from_utf8(line) {
            None => Err(Error::BadString),
            Some(text) => Ok(text),
        }
    }

    /// The bytes up to the next line feed, carriage returns dropped; the line
    /// feed is consumed.
    fn read_to_crlf(&mut self) -> (r: Result<Vec<u8>, Error>)
        ensures
            final(self).bytes@ == old(self).bytes@,
            match spec_line(old(self).bytes@, old(self).pos as int) {
                Ok((b, p)) => r matches Ok(x) && x@ == b && final(self).pos == p,
                Err(e) => r == Err::<Vec<u8>, Error>(e),
            },
    {
        let ghost s = self.bytes@;
        let start = self.pos;
        if start >= self.bytes.len() {
            assert(forall|i: int| !first_lf(s, start as int, i));
            return Err(Error::EndOfStream);
        }
        let mut buf: Vec<u8> = Vec::new();
        assert(s.subrange(start as int, start as int) =~= Seq::<u8>::empty());
        while self.pos < self.bytes.len()
            invariant
                self.bytes@ == s,
                s == old(self).bytes@,
                start == old(self).pos,
                start <= self.pos <= s.len(),
                buf@ == strip_cr(s.subrange(start as int, self.pos as int)),
                forall|k: int| start <= k < self.pos ==> s[k] != LF,
            decreases s.len() - self.pos,
        {
            let b = self.bytes[self.pos];
            let ghost seen = s.subrange(start as int, self.pos as int);
            assert(s.subrange(start as int, self.pos + 1).drop_last() =~= seen);
            self.pos = self.pos + 1;
            if b == LF {
                let j = self.pos - 1;
                assert(first_lf(s, start as int, j as int));
                assert(forall|i: int| first_lf(s, start as int, i) ==> i == j);
                return Ok(buf);
            }
            if b != CR {
                buf.push(b);
            }
        }
        assert(forall|i: int| !first_lf(s, start as int, i));
        Err(Error::EndOfStream)
    }
}

} // verus!
