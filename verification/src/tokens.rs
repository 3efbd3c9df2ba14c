//! Tokens: class, exact source text, byte span, optional source id.

use vstd::prelude::*;

verus! {

use crate::numbers::MaybeBigInt;

/// Identifies which source buffer a token came from, for multi-file
/// diagnostics.
pub type SourceId = u32;

/// Half-open byte-offset interval `[start, end)` into the source buffer,
/// optionally paired with a source identifier.
#[derive(Clone, Copy, Debug, PartialEq, Eq)]
pub struct Span {
    pub start: usize,
    pub end: usize,
    pub source_id: Option<SourceId>,
}

impl Span {
    pub fn new(start: usize, end: usize, source_id: Option<SourceId>) -> (s: Span)
        ensures
            s.start == start,
            s.end == end,
            s.source_id == source_id,
    {
        Span { start, end, source_id }
    }
}

/// What kind of lexical unit a token is, together with the payload of the
/// literal classes.  `T` is the representation of borrowed token text, so that
/// a stream adapter can convert it to independently owned text.
#[derive(Clone, Debug, PartialEq, Eq)]
pub enum TokenType<T> {
    OpenParen,
    CloseParen,
    QuoteTick,
    QuasiQuote,
    Unquote,
    UnquoteSplice,
    QuoteSyntax,
    QuasiQuoteSyntax,
    UnquoteSyntax,
    UnquoteSpliceSyntax,
    If,
    Define,
    Let,
    TestLet,
    Return,
    Begin,
    Lambda,
    Quote,
    SyntaxRules,
    DefineSyntax,
    Ellipses,
    SetBang,
    Require,
    BooleanLiteral(bool),
    Identifier(T),
    Keyword(T),
    NumberLiteral(T),
    IntegerLiteral(MaybeBigInt),
    FractionLiteral(MaybeBigInt, MaybeBigInt),
    CharacterLiteral(char),
    StringLiteral(String),
    Comment,
    Error,
}

impl<T> TokenType<T> {
    /// The reserved words that may not stand alone as a top-level expression.
    pub open spec fn spec_is_reserved_keyword(&self) -> bool {
        match *self {
            TokenType::If => true,
            TokenType::Define => true,
            TokenType::Let => true,
            TokenType::TestLet => true,
            TokenType::Return => true,
            TokenType::Begin => true,
            TokenType::Lambda => true,
            TokenType::Quote => true,
            TokenType::SyntaxRules => true,
            TokenType::DefineSyntax => true,
            TokenType::Ellipses => true,
            TokenType::SetBang => true,
            TokenType::Require => true,
            _ => false,
        }
    }

    pub fn is_reserved_keyword(&self) -> (r: bool)
        ensures
            r == self.spec_is_reserved_keyword(),
    {
        match *self {
            TokenType::If => true,
            TokenType::Define => true,
            TokenType::Let => true,
            TokenType::TestLet => true,
            TokenType::Return => true,
            TokenType::Begin => true,
            TokenType::Lambda => true,
            TokenType::Quote => true,
            TokenType::SyntaxRules => true,
            TokenType::DefineSyntax => true,
            TokenType::Ellipses => true,
            TokenType::SetBang => true,
            TokenType::Require => true,
            _ => false,
        }
    }
}

/// One token: its class and payload, the exact source text it covers, and the
/// byte span of that text.  Never mutated after creation.
#[derive(Clone, Debug, PartialEq, Eq)]
pub struct Token<'a, T> {
    pub ty: TokenType<T>,
    pub source: &'a str,
    pub span: Span,
}

/// The pluggable conversion from borrowed token text to independently owned
/// text, for tokens that must outlive the source buffer.  `owned_ok` is what
/// an implementation promises of its conversion.
pub trait ToOwnedString<T> {
    spec fn owned_ok(&self, s: Seq<char>, t: T) -> bool;

    fn own(&self, s: &str) -> (t: T)
        ensures
            self.owned_ok(s@, t),
    ;
}

/// The always-copy conversion strategy: owned text is a `String` holding the
/// same characters.
pub struct OwnedString;

impl ToOwnedString<String> for OwnedString {
    open spec fn owned_ok(&self, s: Seq<char>, t: String) -> bool {
        t@ == s
    }

    fn own(&self, s: &str) -> (t: String) {
        s.to_owned()
    }
}

} // verus!
