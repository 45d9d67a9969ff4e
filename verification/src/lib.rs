//! A lossless parser for a small dice-rolling expression language.
//!
//! Source text is tokenized, parsed by a precedence-climbing grammar into a
//! flat log of tree-building events, and finally replayed by a sink into an
//! immutable concrete syntax tree.  Every character of the input, including
//! whitespace and comments, is preserved verbatim as a leaf of the tree, so
//! concatenating the leaves in order reproduces the input exactly.

pub mod event;
pub mod grammar;
pub mod marker;
pub mod parser;
pub mod parsers;
pub mod render;
pub mod sink;
pub mod source;
pub mod syntax;
pub mod token_kind;
pub mod tree;

pub use parser::{parse, Parse, Parser};
pub use syntax::{RollangLanguage, SyntaxKind};
pub use token_kind::{Lexer, Token, TokenKind};
pub use tree::{SyntaxElement, SyntaxNode, SyntaxToken};
