//! A parser for a JSON-like grammar.
//!
//! A text is cut into tokens by a hand-written lexer and read by a
//! recursive-descent parser with one token of lookahead. A composite value
//! does not own its parts: they are stored in an arena of fixed capacity, and
//! the composite holds their handles.
//!
//! What parsing yields is stated in three steps, each a function on plain
//! values: [`lexer::tokens`] gives the tokens of a text, [`grammar`] the
//! documents that a token stream denotes, and [`layout`] the arena and the
//! value in which a document is laid out. [`tree`] follows the handles of
//! such a value back to the document's meaning, and [`notation`] and
//! [`spelling`] show that a document which is written down in the plain way
//! is read back as it was meant.

pub mod arena;
pub mod chars;
pub mod error;
pub mod grammar;
pub mod layout;
pub mod lexer;
pub mod notation;
pub mod number;
pub mod par;
pub mod spelling;
pub mod text;
pub mod token;
pub mod tree;
pub mod value;

pub use arena::{Allocator, Id};
pub use error::{ParseError, Syntax};
pub use lexer::Lex;
pub use number::Number;
pub use par::Par;
pub use token::Token;
pub use value::{JsonValue, Object};
