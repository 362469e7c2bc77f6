//! Rusty Object Notation: a verified lexer, parser and emitter for RON text.

pub mod conformance;
pub mod de;
pub mod decode;
pub mod encode;
pub mod error;
pub mod extensions;
pub mod id;
pub mod lexical;
pub mod message;
pub mod meta;
pub mod options;
pub mod parse;
pub mod raw;
pub mod roundtrip;
pub mod ser;
pub mod serde_data;
pub mod span;
pub mod unexpected;
pub mod util;
pub mod value;
