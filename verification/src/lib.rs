//! A JSON text engine: a recursive-descent parser from bytes to a tagged
//! value, and a stringifier from that value back to canonical text.
//!
//! Every executable function carries a contract stated over the mathematical
//! models in [`model`], [`grammar`] and [`text`], and is proved against it.

pub mod access;
pub mod context;
pub mod dict;
pub mod equality;
pub mod error;
pub mod grammar;
pub mod grammar_lemmas;
pub mod model;
pub mod number;
pub mod padding;
pub mod parse;
pub mod reader;
pub mod round_trip;
pub mod serde_support;
pub mod stack;
pub mod stringify;
pub mod text;
pub mod text_lemmas;
pub mod utf8;
pub mod value;
pub mod writer;

pub use crate::context::Context;
pub use crate::dict::Dict;
pub use crate::error::ParseError;
pub use crate::number::Number;
pub use crate::parse::{from_slice, from_str};
pub use crate::serde_support::JsonError;
pub use crate::stack::Stack;
pub use crate::value::Value;
