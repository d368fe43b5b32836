//! Base 64
//!
//! This crate contains functions to encode and decode Base 64
//!
//! `encode` turns bytes into Base 64 text and `decode` turns Base 64 text
//! back into bytes; `Base64Encoder` encodes what a reader yields, a chunk
//! at a time.
use std::borrow::Cow;
use vstd::prelude::*;

pub mod alphabet;
pub mod cli;
pub mod config;
pub mod decode;
pub mod encode;
pub mod encoder;
pub mod frontend;
pub mod laws;
pub mod reader;
mod strings;

pub use decode::decode;
pub use encode::encode;
pub use encoder::Base64Encoder;

verus! {

/// The result of decoding: the error is a message.
pub type Result<T> = core::result::Result<T, Cow<'static, str>>;

} // verus!
