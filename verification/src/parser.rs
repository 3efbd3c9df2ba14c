//! The tree assembler: consumes the token stream and builds nested
//! expression trees with an explicit stack of sibling sequences, one
//! top-level expression per call, with no host-stack growth per nesting
//! level.

use vstd::prelude::*;

verus! {

use crate::lexer::Lexer;
use crate::lexer::lemma_lexer_bounds;
use crate::lexer::TokenError;
use crate::lexer::marker_matches;
use crate::lexer::own_token;
use crate::scan::SpecTok;
use crate::scan::StreamStep;
use crate::scan::lemma_scan_token;
use crate::scan::lemma_stream_scan;
use crate::scan::lemma_ws_end;
use crate::scan::stream_scan;
use crate::scan::ws_end;
use crate::tokens::OwnedString;
use crate::tokens::TokenType;

/// An expression tree: an atom wrapping one token, or a list wrapping an
/// ordered sequence of expressions.  Order and nesting depth are significant
/// and preserved exactly as written.
#[derive(Debug, PartialEq)]
pub enum Expr {
    Atom(TokenType<String>),
    ListVal(Vec<Expr>),
}

/// The ways building one top-level expression can fail.  A failure abandons
/// only the expression under construction: prior and later reads stand.
#[derive(Clone, Debug, PartialEq)]
pub enum ParseError {
    TokenError(TokenError),
    Unexpected(TokenType<String>),
    UnexpectedEOF,
}

impl From<TokenError> for ParseError {
    fn from(e: TokenError) -> (r: ParseError) {
        ParseError::TokenError(e)
    }
}

impl vstd::std_specs::convert::FromSpecImpl<TokenError> for ParseError {
    open spec fn obeys_from_spec() -> bool {
        true
    }

    open spec fn from_spec(e: TokenError) -> ParseError {
        ParseError::TokenError(e)
    }
}

/// A specification-level expression tree.
pub ghost enum SpecExpr {
    Atom(SpecTok),
    List(Seq<SpecExpr>),
}

/// A specification-level parse failure.
pub ghost enum SpecParseErr {
    Lex(TokenError),
    UnexpectedTok(SpecTok),
    Eof,
}

/// How running the assembler from position `i` with the given stack of outer
/// sibling sequences and current sequence ends.  A failure carries the
/// position it leaves the scanner at: just past the failing token, or the end
/// of the whitespace run before the end of the input.
pub ghost enum SpecAssemble {
    Done { expr: SpecExpr, next: int },
    Fail { err: SpecParseErr, at: int },
}

/// The stack-based tree assembly, over the comment-free token stream: an open
/// group pushes the current sibling sequence, a close group pops one (or
/// completes the top-level list when none is open), any other token joins the
/// current sequence as an atom; a lexical error or the end of the input fails.
pub open spec fn assemble(s: Seq<char>, i: int, stack: Seq<Seq<SpecExpr>>, cur: Seq<SpecExpr>)
    -> SpecAssemble
    decreases s.len() - i,
    when 0 <= i <= s.len()
    via assemble_dec
{
    match stream_scan(s, i, true) {
        StreamStep::Eof { at } => SpecAssemble::Fail { err: SpecParseErr::Eof, at },
        StreamStep::Tok { start, end, tok } => match tok {
            SpecTok::Fail(e) => SpecAssemble::Fail { err: SpecParseErr::Lex(e), at: end },
            SpecTok::Open => assemble(s, end, stack.push(cur), Seq::empty()),
            SpecTok::Close => if stack.len() > 0 {
                assemble(s, end, stack.drop_last(), stack.last().push(SpecExpr::List(cur)))
            } else {
                SpecAssemble::Done { expr: SpecExpr::List(cur), next: end }
            },
            t => assemble(s, end, stack, cur.push(SpecExpr::Atom(t))),
        },
    }
}

#[via_fn]
proof fn assemble_dec(s: Seq<char>, i: int, stack: Seq<Seq<SpecExpr>>, cur: Seq<SpecExpr>) {
    lemma_stream_scan(s, i, true);
}

/// The reserved words, which may not stand alone as a top-level expression.
pub open spec fn spec_reserved(t: SpecTok) -> bool {
    match t {
        SpecTok::If => true,
        SpecTok::Define => true,
        SpecTok::LetWord => true,
        SpecTok::TestLet => true,
        SpecTok::Return => true,
        SpecTok::Begin => true,
        SpecTok::Lambda => true,
        SpecTok::QuoteWord => true,
        SpecTok::SyntaxRules => true,
        SpecTok::DefineSyntax => true,
        SpecTok::Ellipses => true,
        SpecTok::SetBang => true,
        SpecTok::Require => true,
        _ => false,
    }
}

/// What one parser step yields: the end of the input, a typed failure, or
/// the next top-level expression and the position after it.  The end of the
/// input and a failure also carry the position the scanner is left at, so a
/// later read resumes exactly there.
pub ghost enum SpecParse {
    AtEnd { at: int },
    Fail { err: SpecParseErr, at: int },
    Yield { expr: SpecExpr, next: int },
}

/// The top-level driver: pull one token; an open group runs the assembler, a
/// stray close group or a standalone reserved word is an unexpected token,
/// anything else is a bare atom.
pub open spec fn parse_step(s: Seq<char>, i: int) -> SpecParse
    recommends
        0 <= i <= s.len(),
{
    match stream_scan(s, i, true) {
        StreamStep::Eof { at } => SpecParse::AtEnd { at },
        StreamStep::Tok { start, end, tok } => match tok {
            SpecTok::Fail(e) => SpecParse::Fail { err: SpecParseErr::Lex(e), at: end },
            SpecTok::Open => match assemble(s, end, Seq::empty(), Seq::empty()) {
                SpecAssemble::Done { expr, next } => SpecParse::Yield { expr, next },
                SpecAssemble::Fail { err, at } => SpecParse::Fail { err, at },
            },
            SpecTok::Close => SpecParse::Fail {
                err: SpecParseErr::UnexpectedTok(SpecTok::Close),
                at: end,
            },
            t => if spec_reserved(t) {
                SpecParse::Fail { err: SpecParseErr::UnexpectedTok(t), at: end }
            } else {
                SpecParse::Yield { expr: SpecExpr::Atom(t), next: end }
            },
        },
    }
}

/// Whether an owned-text token agrees with a spec token: same class, text
/// payloads carrying the same characters.
pub open spec fn owned_tok_matches(t: TokenType<String>, st: SpecTok) -> bool {
    match st {
        SpecTok::Open => t == TokenType::<String>::OpenParen,
        SpecTok::Close => t == TokenType::<String>::CloseParen,
        SpecTok::QuoteTick => t == TokenType::<String>::QuoteTick,
        SpecTok::QuasiQuote => t == TokenType::<String>::QuasiQuote,
        SpecTok::Unquote => t == TokenType::<String>::Unquote,
        SpecTok::UnquoteSplice => t == TokenType::<String>::UnquoteSplice,
        SpecTok::QuoteSyntax => t == TokenType::<String>::QuoteSyntax,
        SpecTok::QuasiQuoteSyntax => t == TokenType::<String>::QuasiQuoteSyntax,
        SpecTok::UnquoteSyntax => t == TokenType::<String>::UnquoteSyntax,
        SpecTok::UnquoteSpliceSyntax => t == TokenType::<String>::UnquoteSpliceSyntax,
        SpecTok::If => t == TokenType::<String>::If,
        SpecTok::Define => t == TokenType::<String>::Define,
        SpecTok::LetWord => t == TokenType::<String>::Let,
        SpecTok::TestLet => t == TokenType::<String>::TestLet,
        SpecTok::Return => t == TokenType::<String>::Return,
        SpecTok::Begin => t == TokenType::<String>::Begin,
        SpecTok::Lambda => t == TokenType::<String>::Lambda,
        SpecTok::QuoteWord => t == TokenType::<String>::Quote,
        SpecTok::SyntaxRules => t == TokenType::<String>::SyntaxRules,
        SpecTok::DefineSyntax => t == TokenType::<String>::DefineSyntax,
        SpecTok::Ellipses => t == TokenType::<String>::Ellipses,
        SpecTok::SetBang => t == TokenType::<String>::SetBang,
        SpecTok::Require => t == TokenType::<String>::Require,
        SpecTok::Bool(b) => t == TokenType::<String>::BooleanLiteral(b),
        SpecTok::Ident(x) => t matches TokenType::Identifier(v) && v@ == x,
        SpecTok::Keyword(x) => t matches TokenType::Keyword(v) && v@ == x,
        SpecTok::Num(x) => t matches TokenType::NumberLiteral(v) && v@ == x,
        SpecTok::Int(n) => t matches TokenType::IntegerLiteral(m) && m.wf() && m@ == n,
        SpecTok::Frac(n, d) => t matches TokenType::FractionLiteral(mn, md) && mn.wf() && mn@ == n
            && md.wf() && md@ == d,
        SpecTok::Char(c) => t == TokenType::<String>::CharacterLiteral(c),
        SpecTok::Str(x) => t matches TokenType::StringLiteral(v) && v@ == x,
        SpecTok::Comment => t == TokenType::<String>::Comment,
        SpecTok::Fail(_) => false,
    }
}

/// Whether an executable expression tree agrees with a spec tree: same shape,
/// atoms matching token by token.
pub open spec fn expr_matches(e: Expr, se: SpecExpr) -> bool
    decreases e,
{
    match e {
        Expr::Atom(t) => se matches SpecExpr::Atom(st) && owned_tok_matches(t, st),
        Expr::ListVal(v) => se matches SpecExpr::List(ss) && v@.len() == ss.len() && (forall|
            k: int,
        |
            0 <= k < v@.len() ==> expr_matches(#[trigger] v@[k], ss[k])),
    }
}

/// Whether an executable parse error agrees with a spec failure.
pub open spec fn perr_matches(err: ParseError, pe: SpecParseErr) -> bool {
    match pe {
        SpecParseErr::Lex(e) => err == ParseError::TokenError(e),
        SpecParseErr::UnexpectedTok(st) => err matches ParseError::Unexpected(t)
            && owned_tok_matches(t, st),
        SpecParseErr::Eof => err == ParseError::UnexpectedEOF,
    }
}

pub open spec fn frame_matches(f: Vec<Expr>, g: Seq<SpecExpr>) -> bool {
    f@.len() == g.len() && forall|k: int| 0 <= k < f@.len() ==> expr_matches(#[trigger] f@[k], g[k])
}

pub open spec fn stack_matches(fs: Seq<Vec<Expr>>, gs: Seq<Seq<SpecExpr>>) -> bool {
    fs.len() == gs.len() && forall|k: int| 0 <= k < fs.len() ==> frame_matches(#[trigger] fs[k], gs[k])
}

/// The resumable parser: each call advances through the buffer and yields the
/// next top-level expression, a typed failure, or the end of the input.
/// Comment tokens are dropped before assembly.
pub struct Parser<'a> {
    lexer: Lexer<'a>,
}

impl<'a> Parser<'a> {
    pub closed spec fn src(self) -> Seq<char> {
        self.lexer.src()
    }

    pub closed spec fn spec_pos(self) -> int {
        self.lexer.spec_pos()
    }

    pub closed spec fn wf(self) -> bool {
        self.lexer.wf()
    }

    pub fn new(input: &'a str) -> (p: Parser<'a>)
        ensures
            p.wf(),
            p.src() == input@,
            p.spec_pos() == 0,
    {
        Parser { lexer: Lexer::new(input) }
    }

    /// The next non-comment token with owned text, or the lexical error it
    /// carries, or `None` at the end of the input.
    fn pull(&mut self) -> (r: Option<Result<TokenType<String>, TokenError>>)
        requires
            old(self).wf(),
        ensures
            final(self).wf(),
            final(self).src() == old(self).src(),
            match stream_scan(old(self).src(), old(self).spec_pos(), true) {
                StreamStep::Eof { at } => r is None && final(self).spec_pos() == at,
                StreamStep::Tok { start, end, tok } => final(self).spec_pos() == end && match tok {
                    SpecTok::Fail(e) => r == Some(Err::<TokenType<String>, TokenError>(e)),
                    _ => r matches Some(res) && res matches Ok(t) && owned_tok_matches(t, tok),
                },
            },
    {
        let ghost s = self.src();
        let ghost p0 = self.spec_pos();
        proof {
            lemma_lexer_bounds(self.lexer);
        }
        loop
            invariant
                self.wf(),
                s == self.src(),
                s == old(self).src(),
                p0 == old(self).spec_pos(),
                0 <= p0 <= self.spec_pos() <= s.len(),
                stream_scan(s, self.spec_pos(), true) == stream_scan(s, p0, true),
            decreases s.len() - self.spec_pos(),
        {
            let ghost p = self.lexer.spec_pos();
            proof {
                lemma_lexer_bounds(self.lexer);
                lemma_ws_end(s, p);
                if ws_end(s, p) < s.len() {
                    lemma_scan_token(s, ws_end(s, p));
                }
            }
            let item = self.lexer.next();
            match item {
                None => {
                    return None;
                },
                Some(res) => {
                    match res {
                        Err(e) => {
                            return Some(Err(e));
                        },
                        Ok(ty) => {
                            let is_comment = match &ty {
                                TokenType::Comment => true,
                                _ => false,
                            };
                            if !is_comment {
                                let owned = own_token(&OwnedString, ty);
                                proof {
                                    let step = stream_scan(s, p0, true);
                                    match step {
                                        StreamStep::Tok { tok, .. } => {
                                            assert(marker_matches(ty, tok));
                                            assert(owned_tok_matches(owned, tok));
                                        },
                                        _ => {
                                            assert(false);
                                        },
                                    }
                                }
                                return Some(Ok(owned));
                            }
                        },
                    }
                },
            }
        }
    }

    /// The stack-based assembly of one group, entered just after its opening
    /// delimiter was consumed.
    fn read_from_tokens(&mut self) -> (r: Result<Expr, ParseError>)
        requires
            old(self).wf(),
        ensures
            final(self).wf(),
            final(self).src() == old(self).src(),
            match assemble(
                old(self).src(),
                old(self).spec_pos(),
                Seq::<Seq<SpecExpr>>::empty(),
                Seq::<SpecExpr>::empty(),
            ) {
                SpecAssemble::Done { expr, next } => r matches Ok(e) && expr_matches(e, expr)
                    && final(self).spec_pos() == next,
                SpecAssemble::Fail { err: pe, at } => r matches Err(err) && perr_matches(err, pe)
                    && final(self).spec_pos() == at,
            },
    {
        let ghost s = self.src();
        let ghost p0 = self.spec_pos();
        proof {
            lemma_lexer_bounds(self.lexer);
        }
        let mut stack: Vec<Vec<Expr>> = Vec::new();
        let mut cur: Vec<Expr> = Vec::new();
        let ghost mut gstack: Seq<Seq<SpecExpr>> = Seq::empty();
        let ghost mut gcur: Seq<SpecExpr> = Seq::empty();
        loop
            invariant
                self.wf(),
                s == self.src(),
                s == old(self).src(),
                p0 == old(self).spec_pos(),
                0 <= p0 <= self.spec_pos() <= s.len(),
                stack_matches(stack@, gstack),
                frame_matches(cur, gcur),
                assemble(s, self.spec_pos(), gstack, gcur) == assemble(
                    s,
                    p0,
                    Seq::<Seq<SpecExpr>>::empty(),
                    Seq::<SpecExpr>::empty(),
                ),
            decreases s.len() - self.spec_pos(),
        {
            let ghost p = self.spec_pos();
            proof {
                lemma_stream_scan(s, p, true);
            }
            let item = self.pull();
            let ghost gstack0 = gstack;
            let ghost gcur0 = gcur;
            match item {
                None => {
                    proof {
                        assert(assemble(s, p, gstack, gcur) matches SpecAssemble::Fail {
                            err: SpecParseErr::Eof,
                            at,
                        } && at == self.spec_pos());
                    }
                    return Err(ParseError::UnexpectedEOF);
                },
                Some(res) => {
                    match res {
                        Err(e) => {
                            proof {
                                let step = stream_scan(s, p, true);
                                match step {
                                    StreamStep::Tok { tok, end, .. } => {
                                        assert(tok == SpecTok::Fail(e));
                                        assert(assemble(s, p, gstack, gcur)
                                            == (SpecAssemble::Fail {
                                            err: SpecParseErr::Lex(e),
                                            at: end,
                                        }));
                                        assert(self.spec_pos() == end);
                                    },
                                    _ => {
                                        assert(false);
                                    },
                                }
                            }
                            return Err(ParseError::TokenError(e));
                        },
                        Ok(t) => {
                            match t {
                                TokenType::OpenParen => {
                                    stack.push(cur);
                                    cur = Vec::new();
                                    proof {
                                        let step = stream_scan(s, p, true);
                                        match step {
                                            StreamStep::Tok { end, tok, .. } => {
                                                assert(tok == SpecTok::Open);
                                                gstack = gstack.push(gcur);
                                                gcur = Seq::empty();
                                                assert(assemble(s, p, gstack0, gcur0) == assemble(
                                                    s,
                                                    end,
                                                    gstack,
                                                    gcur,
                                                ));
                                            },
                                            _ => {
                                                assert(false);
                                            },
                                        }
                                    }
                                },
                                TokenType::CloseParen => {
                                    let popped = stack.pop();
                                    match popped {
                                        Some(mut prev) => {
                                            prev.push(Expr::ListVal(cur));
                                            cur = prev;
                                            proof {
                                                let step = stream_scan(s, p, true);
                                                match step {
                                                    StreamStep::Tok { end, tok, .. } => {
                                                        assert(tok == SpecTok::Close);
                                                        assert(gstack.len() > 0);
                                                        gcur = gstack.last().push(
                                                            SpecExpr::List(gcur),
                                                        );
                                                        gstack = gstack.drop_last();
                                                        assert(assemble(s, p, gstack0, gcur0)
                                                            == assemble(s, end, gstack, gcur));
                                                    },
                                                    _ => {
                                                        assert(false);
                                                    },
                                                }
                                            }
                                        },
                                        None => {
                                            proof {
                                                let step = stream_scan(s, p, true);
                                                match step {
                                                    StreamStep::Tok { end, tok, .. } => {
                                                        assert(tok == SpecTok::Close);
                                                        assert(gstack.len() == 0);
                                                        assert(assemble(s, p, gstack, gcur)
                                                            == SpecAssemble::Done {
                                                            expr: SpecExpr::List(gcur),
                                                            next: end,
                                                        });
                                                    },
                                                    _ => {
                                                        assert(false);
                                                    },
                                                }
                                            }
                                            return Ok(Expr::ListVal(cur));
                                        },
                                    }
                                },
                                t2 => {
                                    proof {
                                        let step = stream_scan(s, p, true);
                                        match step {
                                            StreamStep::Tok { end, tok, .. } => {
                                                assert(!(tok is Open) && !(tok is Close) && !(
                                                tok is Fail));
                                                gcur = gcur.push(SpecExpr::Atom(tok));
                                                assert(assemble(s, p, gstack0, gcur0) == assemble(
                                                    s,
                                                    end,
                                                    gstack,
                                                    gcur,
                                                ));
                                            },
                                            _ => {
                                                assert(false);
                                            },
                                        }
                                    }
                                    cur.push(Expr::Atom(t2));
                                },
                            }
                        },
                    }
                },
            }
        }
    }

    /// One parse step: the next top-level expression, a typed failure, or
    /// `None` at the end of the input.  The result is exactly what
    /// [`parse_step`] names for the current position.
    pub fn next(&mut self) -> (r: Option<Result<Expr, ParseError>>)
        requires
            old(self).wf(),
        ensures
            final(self).wf(),
            final(self).src() == old(self).src(),
            match parse_step(old(self).src(), old(self).spec_pos()) {
                SpecParse::AtEnd { at } => r is None && final(self).spec_pos() == at,
                SpecParse::Fail { err: pe, at } => r matches Some(res) && res matches Err(err)
                    && perr_matches(err, pe) && final(self).spec_pos() == at,
                SpecParse::Yield { expr, next } => r matches Some(res) && res matches Ok(e)
                    && expr_matches(e, expr) && final(self).spec_pos() == next,
            },
    {
        let item = self.pull();
        match item {
            None => None,
            Some(res) => match res {
                Err(e) => Some(Err(ParseError::TokenError(e))),
                Ok(t) => match t {
                    TokenType::OpenParen => Some(self.read_from_tokens()),
                    TokenType::CloseParen => Some(
                        Err(ParseError::Unexpected(TokenType::CloseParen)),
                    ),
                    t2 => {
                        if t2.is_reserved_keyword() {
                            Some(Err(ParseError::Unexpected(t2)))
                        } else {
                            Some(Ok(Expr::Atom(t2)))
                        }
                    },
                },
            },
        }
    }
}

/// A well-formed parser's position lies in its buffer.
pub proof fn lemma_parser_bounds<'a>(p: Parser<'a>)
    requires
        p.wf(),
    ensures
        0 <= p.spec_pos() <= p.src().len(),
{
    lemma_lexer_bounds(p.lexer);
}

} // verus!
