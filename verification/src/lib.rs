//! A fixed-capacity, stack-allocated UTF-8 string buffer.
//!
//! [`FlatString`] owns an inline byte array of a compile-time capacity and
//! keeps a byte length and a character count alongside it.  Every mutation
//! keeps the stored bytes a valid UTF-8 encoding: content that does not fit
//! is dropped in whole characters, never by splitting one.

pub mod fit;
mod scan;
pub mod buffer;

pub use buffer::FlatString;
