//! Decoded values, decoding errors, and their mathematical models.
use vstd::prelude::*;

verus! {

/// A decoding failure.
#[derive(Debug, Clone, PartialEq, Eq)]
pub enum Error {
    /// A length, count or integer field is not a base-10 signed 64-bit integer.
    BadInteger,
    /// A simple-string or error line is not well-formed UTF-8.
    BadString,
    /// The input ended before a complete value could be read.
    EndOfStream,
    /// The byte source reported a transport failure; carries its message.
    IoError(String),
    /// The leading tag byte of a value is not one of the five known tags.
    UnexpectedToken(char),
    /// A field has a shape the grammar does not allow (a length below -1).
    UnknownError,
}

/// One decoded protocol value.
#[derive(Debug, PartialEq)]
pub enum RESPType {
    SimpleString(String),
    Error(String),
    Integer(i64),
    BulkString(Vec<u8>),
    Null,
    Array(Vec<RESPType>),
}

/// The mathematical model of a decoded value.
pub enum RespValue {
    SimpleString(Seq<char>),
    Error(Seq<char>),
    Integer(i64),
    BulkString(Seq<u8>),
    Null,
    Array(Seq<RespValue>),
}

impl RESPType {
    pub open spec fn model(&self) -> RespValue
        decreases self,
    {
        match self {
            RESPType::SimpleString(s) => RespValue::SimpleString(s@),
            RESPType::Error(s) => RespValue::Error(s@),
            RESPType::Integer(n) => RespValue::Integer(*n),
            RESPType::BulkString(b) => RespValue::BulkString(b@),
            RESPType::Null => RespValue::Null,
            RESPType::Array(items) => RespValue::Array(models_of(items@)),
        }
    }
}

/// The models of a sequence of values, in order.
pub open spec fn models_of(items: Seq<RESPType>) -> Seq<RespValue>
    decreases items,
{
    Seq::new(items.len(), |i: int| if 0 <= i < items.len() { items[i].model() } else { RespValue::Null })
}

} // verus!
