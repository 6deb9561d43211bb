//! Codec for DNS messages in their RFC 1035 wire form: the fixed 12-byte
//! header with its bit-packed flags word, the question section, and resource
//! records whose payload shape is selected by record class and type.
//!
//! The codec consumes and produces plain byte buffers; transport and
//! application logic own the buffers before and after each call.

pub mod codes;
pub mod cursor;
pub mod errors;
pub mod flags;
pub mod header;
pub mod message;
pub mod name;
pub mod question;
pub mod record;
