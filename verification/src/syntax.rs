//! The shared tree-kind vocabulary: one flat enumeration covering both token
//! categories (leaves) and node categories (interior nodes), the trivia
//! predicate, and the conversions between kinds and raw numeric kinds used
//! by external tree viewers.

use crate::token_kind::TokenKind;
use vstd::prelude::*;

verus! {

/// Every category a leaf or an interior node of the syntax tree can carry.
#[derive(Debug, Copy, Clone, PartialEq, Eq, Hash, PartialOrd, Ord, Structural)]
pub enum SyntaxKind {
    Whitespace,
    LetKw,
    Dice,
    Ident,
    Number,
    Plus,
    Minus,
    Star,
    Slash,
    Equals,
    LParen,
    RParen,
    Comment,
    Error,
    Root,
    InfixExpr,
    Literal,
    ParenExpr,
    PrefixExpr,
    VariableRef,
    VariableDef,
}

/// The tree category of each token category: an identity mapping except that
/// the keyword token gets its own node-ready category.
pub open spec fn kind_of_token(t: TokenKind) -> SyntaxKind {
    match t {
        TokenKind::Whitespace => SyntaxKind::Whitespace,
        TokenKind::Let => SyntaxKind::LetKw,
        TokenKind::Dice => SyntaxKind::Dice,
        TokenKind::Ident => SyntaxKind::Ident,
        TokenKind::Number => SyntaxKind::Number,
        TokenKind::Plus => SyntaxKind::Plus,
        TokenKind::Minus => SyntaxKind::Minus,
        TokenKind::Star => SyntaxKind::Star,
        TokenKind::Slash => SyntaxKind::Slash,
        TokenKind::Equals => SyntaxKind::Equals,
        TokenKind::LParen => SyntaxKind::LParen,
        TokenKind::RParen => SyntaxKind::RParen,
        TokenKind::Comment => SyntaxKind::Comment,
        TokenKind::Error => SyntaxKind::Error,
    }
}

impl SyntaxKind {
    /// The categories that carry no grammatical meaning but are preserved
    /// verbatim in the tree.
    pub open spec fn spec_is_trivia(self) -> bool {
        self is Whitespace || self is Comment
    }

    #[verifier::when_used_as_spec(spec_is_trivia)]
    pub fn is_trivia(self) -> (b: bool)
        ensures
            b == self.spec_is_trivia(),
    {
        matches!(self, Self::Whitespace | Self::Comment)
    }
}

impl From<TokenKind> for SyntaxKind {
    fn from(token_kind: TokenKind) -> Self {
        match token_kind {
            TokenKind::Whitespace => Self::Whitespace,
            TokenKind::Let => Self::LetKw,
            TokenKind::Dice => Self::Dice,
            TokenKind::Ident => Self::Ident,
            TokenKind::Number => Self::Number,
            TokenKind::Plus => Self::Plus,
            TokenKind::Minus => Self::Minus,
            TokenKind::Star => Self::Star,
            TokenKind::Slash => Self::Slash,
            TokenKind::Equals => Self::Equals,
            TokenKind::LParen => Self::LParen,
            TokenKind::RParen => Self::RParen,
            TokenKind::Comment => Self::Comment,
            TokenKind::Error => Self::Error,
        }
    }
}

impl vstd::std_specs::convert::FromSpecImpl<TokenKind> for SyntaxKind {
    open spec fn obeys_from_spec() -> bool {
        true
    }

    open spec fn from_spec(t: TokenKind) -> SyntaxKind {
        kind_of_token(t)
    }
}

/// The numeric code each kind is exchanged under with external tree viewers.
pub open spec fn kind_to_u16(k: SyntaxKind) -> u16 {
    match k {
        SyntaxKind::Whitespace => 0,
        SyntaxKind::LetKw => 1,
        SyntaxKind::Dice => 2,
        SyntaxKind::Ident => 3,
        SyntaxKind::Number => 4,
        SyntaxKind::Plus => 5,
        SyntaxKind::Minus => 6,
        SyntaxKind::Star => 7,
        SyntaxKind::Slash => 8,
        SyntaxKind::Equals => 9,
        SyntaxKind::LParen => 10,
        SyntaxKind::RParen => 11,
        SyntaxKind::Comment => 12,
        SyntaxKind::Error => 13,
        SyntaxKind::Root => 14,
        SyntaxKind::InfixExpr => 15,
        SyntaxKind::Literal => 16,
        SyntaxKind::ParenExpr => 17,
        SyntaxKind::PrefixExpr => 18,
        SyntaxKind::VariableRef => 19,
        SyntaxKind::VariableDef => 20,
    }
}

/// The language marker for external tree viewers.
#[derive(Debug, Copy, Clone, Ord, PartialOrd, Eq, PartialEq, Hash)]
pub enum RollangLanguage {
    Marker,
}

impl RollangLanguage {
    /// The kind encoded by a raw numeric kind.  Codes outside the vocabulary
    /// are rejected up front, where the caller can still report them.
    pub fn kind_from_raw(raw: u16) -> (k: SyntaxKind)
        requires
            raw <= 20,
        ensures
            kind_to_u16(k) == raw,
    {
        match raw {
            0 => SyntaxKind::Whitespace,
            1 => SyntaxKind::LetKw,
            2 => SyntaxKind::Dice,
            3 => SyntaxKind::Ident,
            4 => SyntaxKind::Number,
            5 => SyntaxKind::Plus,
            6 => SyntaxKind::Minus,
            7 => SyntaxKind::Star,
            8 => SyntaxKind::Slash,
            9 => SyntaxKind::Equals,
            10 => SyntaxKind::LParen,
            11 => SyntaxKind::RParen,
            12 => SyntaxKind::Comment,
            13 => SyntaxKind::Error,
            14 => SyntaxKind::Root,
            15 => SyntaxKind::InfixExpr,
            16 => SyntaxKind::Literal,
            17 => SyntaxKind::ParenExpr,
            18 => SyntaxKind::PrefixExpr,
            19 => SyntaxKind::VariableRef,
            _ => SyntaxKind::VariableDef,
        }
    }

    /// The raw numeric code of a kind.
    pub fn kind_to_raw(kind: SyntaxKind) -> (raw: u16)
        ensures
            raw == kind_to_u16(kind),
    {
        match kind {
            SyntaxKind::Whitespace => 0,
            SyntaxKind::LetKw => 1,
            SyntaxKind::Dice => 2,
            SyntaxKind::Ident => 3,
            SyntaxKind::Number => 4,
            SyntaxKind::Plus => 5,
            SyntaxKind::Minus => 6,
            SyntaxKind::Star => 7,
            SyntaxKind::Slash => 8,
            SyntaxKind::Equals => 9,
            SyntaxKind::LParen => 10,
            SyntaxKind::RParen => 11,
            SyntaxKind::Comment => 12,
            SyntaxKind::Error => 13,
            SyntaxKind::Root => 14,
            SyntaxKind::InfixExpr => 15,
            SyntaxKind::Literal => 16,
            SyntaxKind::ParenExpr => 17,
            SyntaxKind::PrefixExpr => 18,
            SyntaxKind::VariableRef => 19,
            SyntaxKind::VariableDef => 20,
        }
    }
}

} // verus!
