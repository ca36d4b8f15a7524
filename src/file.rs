//! The configuration language: its tokens, the tokenizer, and the
//! substitution engine that rewrites file contents.
pub mod parser;
pub mod roundtrip;
pub mod substitute;
pub mod tokens;

pub use parser::{DecodeContext, DecodeMode};
pub use substitute::{parse, rename, substitute, ParserData};
pub use tokens::{Object, Token};
