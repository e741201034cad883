//! A line-oriented codec for an IRC-style chat protocol: a stream framer
//! that extracts delimiter-terminated records from a byte buffer, and a
//! parser/serializer between record text and structured messages.

pub mod codec;
pub mod prefix;
pub mod protocol;
pub mod tags;
pub mod text;
pub mod wire;
