//! Decoder for a line-oriented, type-tagged wire protocol of request/response
//! key-value servers: simple strings, errors, integers, bulk strings, nulls and
//! nested arrays.
pub mod value;
pub mod grammar;
pub mod text;
pub mod parser;
pub mod laws;
