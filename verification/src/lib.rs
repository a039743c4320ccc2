//! Decoding of character literals such as `'g'`, `'\n'` or `'\u{1F98A}'`.
//!
//! [`CharLit::parse`] takes the text of one literal, quotes included, and
//! returns the character that it denotes together with the text, or a
//! [`ParseError`] that names the fault and its place in the text.

pub mod buffer;
pub mod char;
pub mod err;
pub mod escape;
pub mod grammar;
pub mod text;

pub use crate::buffer::Buffer;
pub use crate::char::CharLit;
pub use crate::err::{ParseError, ParseErrorKind, Span};
pub use crate::escape::HexRange;
