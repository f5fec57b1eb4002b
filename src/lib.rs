//! Block-oriented pull parser and quantity scaling for a recipe markup
//! language.
//!
//! The lexer is not part of this crate: callers hand the parser the source
//! bytes together with the adjacent tokens that cover them.
pub mod token;
pub mod text;
pub mod ast;
pub mod block_parser;
pub mod numeric;
pub mod quantity;
pub mod scale;
pub mod parser;
