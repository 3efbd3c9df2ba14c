//! The character-level scanner and the token stream adapters over it.
//!
//! `Lexer` walks one borrowed source buffer and produces one classified token
//! per call, tracking the exact byte span of each.  Its contract ties every
//! step to the functional specification in [`crate::scan`].

use vstd::prelude::*;

verus! {

use crate::chars::byte_len;
use crate::chars::byte_of;
use crate::chars::char_is_numeric;
use crate::chars::char_is_whitespace;
use crate::chars::is_numeric_char;
use crate::chars::is_whitespace_char;
use crate::chars::lemma_byte_of_mono;
use crate::chars::lemma_byte_of_step;
use crate::chars::lemma_byte_of_whole;
use crate::chars::push_char;
use crate::chars::str_eq;
use crate::chars::utf8_len;
use crate::numbers::MaybeBigInt;
use crate::scan::SpecTok;
use crate::scan::StrScan;
use crate::scan::hash_end;
use crate::scan::hash_tok;
use crate::scan::is_delim;
use crate::scan::lemma_word_end_at_stop;
use crate::scan::line_end;
use crate::scan::strip_char_sigils;
use crate::scan::unicode_escape;
use crate::scan::NumScan1;
use crate::scan::NumStop;
use crate::scan::TailScan;
use crate::scan::den_scan;
use crate::scan::float_scan;
use crate::scan::num_float_tail;
use crate::scan::num_scan;
use crate::scan::num_scan1;
use crate::scan::scan_token;
use crate::scan::string_scan;
use crate::scan::word_end;
use crate::scan::word_tok;
use crate::scan::ws_end;
use crate::scan::lemma_ws_end;
use crate::scan::lemma_scan_token;
use crate::scan::stream_scan;
use crate::scan::StreamStep;
use crate::tokens::ToOwnedString;
use crate::tokens::Token;
use crate::tokens::SourceId;
use crate::tokens::Span;
use crate::tokens::TokenType;

/// The ways a single token can be malformed.
#[derive(Clone, Copy, Debug, PartialEq, Eq)]
pub enum TokenError {
    UnexpectedChar(char),
    IncompleteString,
    InvalidEscape,
    InvalidCharacter,
    MalformedHexInteger,
    MalformedOctalInteger,
    MalformedBinaryInteger,
}

/// Whether an executable token agrees with its specification-level
/// classification: same class, and each payload the value the spec names.
pub open spec fn tok_matches(t: TokenType<&str>, st: SpecTok) -> bool {
    match st {
        SpecTok::Open => t == TokenType::<&str>::OpenParen,
        SpecTok::Close => t == TokenType::<&str>::CloseParen,
        SpecTok::QuoteTick => t == TokenType::<&str>::QuoteTick,
        SpecTok::QuasiQuote => t == TokenType::<&str>::QuasiQuote,
        SpecTok::Unquote => t == TokenType::<&str>::Unquote,
        SpecTok::UnquoteSplice => t == TokenType::<&str>::UnquoteSplice,
        SpecTok::QuoteSyntax => t == TokenType::<&str>::QuoteSyntax,
        SpecTok::QuasiQuoteSyntax => t == TokenType::<&str>::QuasiQuoteSyntax,
        SpecTok::UnquoteSyntax => t == TokenType::<&str>::UnquoteSyntax,
        SpecTok::UnquoteSpliceSyntax => t == TokenType::<&str>::UnquoteSpliceSyntax,
        SpecTok::If => t == TokenType::<&str>::If,
        SpecTok::Define => t == TokenType::<&str>::Define,
        SpecTok::LetWord => t == TokenType::<&str>::Let,
        SpecTok::TestLet => t == TokenType::<&str>::TestLet,
        SpecTok::Return => t == TokenType::<&str>::Return,
        SpecTok::Begin => t == TokenType::<&str>::Begin,
        SpecTok::Lambda => t == TokenType::<&str>::Lambda,
        SpecTok::QuoteWord => t == TokenType::<&str>::Quote,
        SpecTok::SyntaxRules => t == TokenType::<&str>::SyntaxRules,
        SpecTok::DefineSyntax => t == TokenType::<&str>::DefineSyntax,
        SpecTok::Ellipses => t == TokenType::<&str>::Ellipses,
        SpecTok::SetBang => t == TokenType::<&str>::SetBang,
        SpecTok::Require => t == TokenType::<&str>::Require,
        SpecTok::Bool(b) => t == TokenType::<&str>::BooleanLiteral(b),
        SpecTok::Ident(x) => t matches TokenType::Identifier(v) && v@ == x,
        SpecTok::Keyword(x) => t matches TokenType::Keyword(v) && v@ == x,
        SpecTok::Num(x) => t matches TokenType::NumberLiteral(v) && v@ == x,
        SpecTok::Int(n) => t matches TokenType::IntegerLiteral(m) && m.wf() && m@ == n,
        SpecTok::Frac(n, d) => t matches TokenType::FractionLiteral(mn, md) && mn.wf() && mn@ == n
            && md.wf() && md@ == d,
        SpecTok::Char(c) => t == TokenType::<&str>::CharacterLiteral(c),
        SpecTok::Str(x) => t matches TokenType::StringLiteral(v) && v@ == x,
        SpecTok::Comment => t == TokenType::<&str>::Comment,
        SpecTok::Fail(_) => false,
    }
}

/// Whether a scanner result agrees with its specification-level
/// classification: the named error, or a token that matches.
pub open spec fn res_matches(r: Result<TokenType<&str>, TokenError>, st: SpecTok) -> bool {
    match st {
        SpecTok::Fail(e) => r == Err::<TokenType<&str>, TokenError>(e),
        _ => r matches Ok(t) && tok_matches(t, st),
    }
}

/// Whether the text is a hash form introduced by the given sigil char: `#`
/// then `b`.
fn has_prefix(t: &str, b: char) -> (r: bool)
    ensures
        r == (t@.len() >= 2 && t@[0] == '#' && t@[1] == b),
{
    let n = t.unicode_len();
    if n < 2 {
        return false;
    }
    let a = t.get_char(0);
    let c = t.get_char(1);
    a == '#' && c == b
}

/// Reads the code-point escape form of a character literal: `#\u{` then one
/// to six hex digits naming a scalar value, then `}`.
fn read_unicode_escape(t: &str) -> (r: Option<char>)
    ensures
        r == unicode_escape(t@),
{
    let n = t.unicode_len();
    if n < 6 {
        return None;
    }
    if t.get_char(0) != '#' || t.get_char(1) != '\\' || t.get_char(2) != 'u' || t.get_char(3)
        != '{' || t.get_char(n - 1) != '}' {
        return None;
    }
    if n - 5 > 6 {
        return None;
    }
    let ghost hex = t@.subrange(4, n as int - 1);
    let mut v: u32 = 0;
    let mut k: usize = 4;
    proof {
        reveal_with_fuel(crate::numbers::pow_int, 8);
        assert(hex.subrange(0, 0) =~= Seq::<char>::empty());
    }
    while k < n - 1
        invariant
            4 <= k <= n - 1,
            n == t@.len(),
            6 <= n,
            n - 5 <= 6,
            hex == t@.subrange(4, n as int - 1),
            forall|j: int| 0 <= j < k - 4 ==> crate::numbers::radix_digit_ok(#[trigger] hex[j], 16),
            v == crate::numbers::radix_digits_value(hex.subrange(0, k - 4), 16),
            v < crate::numbers::pow_int(16, (k - 4) as nat),
            crate::numbers::pow_int(16, 6) == 0x1000000,
        decreases n - 1 - k,
    {
        let c = t.get_char(k);
        let u = c as u32;
        let d: u32 = if u >= 48 && u <= 57 {
            u - 48
        } else if u >= 97 && u <= 122 {
            u - 87
        } else if u >= 65 && u <= 90 {
            u - 55
        } else {
            99
        };
        if d >= 16 {
            proof {
                assert(!crate::numbers::radix_digit_ok(hex[k - 4], 16));
            }
            return None;
        }
        proof {
            crate::numbers::lemma_pow_int_mono(16, (k - 4) as nat, 5);
            assert(hex.subrange(0, k + 1 - 4).drop_last() =~= hex.subrange(0, k - 4));
            assert(hex.subrange(0, k + 1 - 4).last() == hex[k - 4]);
        }
        v = v * 16 + d;
        k += 1;
    }
    proof {
        assert(hex.subrange(0, n - 1 - 4) =~= hex);
    }
    if (v >= 0xD800 && v <= 0xDFFF) || v >= 0x110000 {
        return None;
    }
    match crate::chars::char_from_u32(v) {
        Some(c) => {
            proof {
                vstd::utf8::char_u32_cast(c, v);
            }
            Some(c)
        },
        None => None,
    }
}

/// Span fidelity: for every emitted token, the source substring addressed by
/// its span equals its carried text.  The stream's contract gives each token
/// the text of some char range `[start, end)` of the source and the span of
/// that range's byte offsets; this law says those bytes of the source are
/// exactly the token text's own UTF-8 bytes, for every source and range.
pub proof fn lemma_token_span_fidelity<'a>(s: Seq<char>, t: Token<'a, &'a str>, start: int, end: int)
    requires
        0 <= start <= end <= s.len(),
        t.source@ == s.subrange(start, end),
        t.span.start == byte_of(s, start),
        t.span.end == byte_of(s, end),
    ensures
        vstd::utf8::encode_utf8(s).subrange(t.span.start as int, t.span.end as int)
            == vstd::utf8::encode_utf8(t.source@),
{
    crate::chars::lemma_span_addresses_text(s, start, end);
}

/// A well-formed scanner's positions lie in its buffer.
pub proof fn lemma_lexer_bounds<'a>(l: Lexer<'a>)
    requires
        l.wf(),
    ensures
        0 <= l.spec_tok_start() <= l.spec_pos() <= l.src().len(),
{
}

/// The character-level scanner: a cursor over one source buffer and the
/// pending token's start.  Positions are tracked both as char indices, which
/// the readers step by, and as byte offsets, which spans report.
pub struct Lexer<'a> {
    source: &'a str,
    nchars: usize,
    pos: usize,
    pos_byte: usize,
    tok_start: usize,
    tok_start_byte: usize,
}

impl<'a> Lexer<'a> {
    /// The source as a char sequence.
    pub closed spec fn src(self) -> Seq<char> {
        self.source@
    }

    pub closed spec fn spec_pos(self) -> int {
        self.pos as int
    }

    pub closed spec fn spec_tok_start(self) -> int {
        self.tok_start as int
    }

    pub closed spec fn spec_source(self) -> &'a str {
        self.source
    }

    /// The cursor and the token start lie in the buffer, and the byte fields
    /// are the byte offsets of the char positions.
    pub closed spec fn wf(self) -> bool {
        &&& self.nchars == self.src().len()
        &&& self.tok_start <= self.pos <= self.nchars
        &&& self.pos_byte == byte_of(self.src(), self.pos as int)
        &&& self.tok_start_byte == byte_of(self.src(), self.tok_start as int)
        &&& byte_len(self.src()) <= usize::MAX
    }

    pub fn new(source: &'a str) -> (l: Lexer<'a>)
        ensures
            l.wf(),
            l.src() == source@,
            l.spec_source() == source,
            l.spec_pos() == 0,
            l.spec_tok_start() == 0,
    {
        let nchars = source.unicode_len();
        let bytes = source.as_bytes();
        let nbytes = bytes.len();
        proof {
            assert(nbytes == byte_len(source@));
            assert(source@.take(0) =~= Seq::<char>::empty());
        }
        Lexer { source, nchars, pos: 0, pos_byte: 0, tok_start: 0, tok_start_byte: 0 }
    }

    /// The next char, if any, without advancing.
    fn peek(&self) -> (r: Option<char>)
        requires
            self.wf(),
        ensures
            r == if self.spec_pos() < self.src().len() {
                Some(self.src()[self.spec_pos()])
            } else {
                None::<char>
            },
    {
        if self.pos < self.nchars {
            Some(self.source.get_char(self.pos))
        } else {
            None
        }
    }

    /// Advance past the next char and return it.
    fn eat(&mut self) -> (r: Option<char>)
        requires
            old(self).wf(),
        ensures
            final(self).wf(),
            final(self).source == old(self).source,
            final(self).tok_start == old(self).tok_start,
            final(self).tok_start_byte == old(self).tok_start_byte,
            old(self).spec_pos() < old(self).src().len() ==> r == Some(
                old(self).src()[old(self).spec_pos()],
            ) && final(self).spec_pos() == old(self).spec_pos() + 1,
            old(self).spec_pos() >= old(self).src().len() ==> r is None && final(self).spec_pos()
                == old(self).spec_pos(),
    {
        if self.pos < self.nchars {
            let c = self.source.get_char(self.pos);
            proof {
                lemma_byte_of_step(self.src(), self.pos as int);
                lemma_byte_of_mono(self.src(), self.pos as int + 1, self.src().len() as int);
                lemma_byte_of_whole(self.src());
            }
            self.pos_byte = self.pos_byte + utf8_len(c);
            self.pos = self.pos + 1;
            Some(c)
        } else {
            None
        }
    }

    /// The byte span of the pending token, with no source id attached.
    pub fn span(&self) -> (sp: Span)
        requires
            self.wf(),
        ensures
            sp.start == byte_of(self.src(), self.spec_tok_start()),
            sp.end == byte_of(self.src(), self.spec_pos()),
            sp.source_id is None,
    {
        Span { start: self.tok_start_byte, end: self.pos_byte, source_id: None }
    }

    /// The exact source text of the pending token.
    pub fn slice(&self) -> (r: &'a str)
        requires
            self.wf(),
        ensures
            r@ == self.src().subrange(self.spec_tok_start(), self.spec_pos()),
    {
        self.source.substring_char(self.tok_start, self.pos)
    }

    /// Consume chars until the next non-whitespace input, resetting the
    /// pending token's start past what was consumed.
    fn consume_whitespace(&mut self)
        requires
            old(self).wf(),
        ensures
            final(self).wf(),
            final(self).source == old(self).source,
            final(self).spec_pos() == ws_end(old(self).src(), old(self).spec_pos()),
            final(self).spec_pos() == old(self).spec_pos() ==> (final(self).tok_start == old(self).tok_start
                && final(self).tok_start_byte == old(self).tok_start_byte),
            final(self).spec_pos() != old(self).spec_pos() ==> (final(self).tok_start == final(self).pos
                && final(self).tok_start_byte == final(self).pos_byte),
    {
        let ghost s = self.src();
        let ghost p0 = self.spec_pos();
        loop
            invariant
                self.wf(),
                self.source == old(self).source,
                s == self.src(),
                p0 <= self.spec_pos() <= s.len(),
                ws_end(s, self.spec_pos()) == ws_end(s, p0),
                self.spec_pos() == p0 ==> self.tok_start == old(self).tok_start
                    && self.tok_start_byte == old(self).tok_start_byte,
                self.spec_pos() != p0 ==> self.tok_start == self.pos && self.tok_start_byte
                    == self.pos_byte,
            ensures
                self.spec_pos() == ws_end(s, p0),
            decreases s.len() - self.spec_pos(),
        {
            match self.peek() {
                Some(c) => {
                    if is_whitespace_char(c) {
                        self.eat();
                        self.tok_start = self.pos;
                        self.tok_start_byte = self.pos_byte;
                    } else {
                        break ;
                    }
                },
                None => {
                    break ;
                },
            }
        }
    }

    /// Consume to just past the end of the line, or the end of the input.
    fn read_rest_of_line(&mut self)
        requires
            old(self).wf(),
        ensures
            final(self).wf(),
            final(self).source == old(self).source,
            final(self).tok_start == old(self).tok_start,
            final(self).tok_start_byte == old(self).tok_start_byte,
            final(self).spec_pos() == line_end(old(self).src(), old(self).spec_pos()),
    {
        let ghost s = self.src();
        let ghost p0 = self.spec_pos();
        loop
            invariant_except_break
                line_end(s, self.spec_pos()) == line_end(s, p0),
            invariant
                self.wf(),
                self.source == old(self).source,
                self.tok_start == old(self).tok_start,
                self.tok_start_byte == old(self).tok_start_byte,
                s == self.src(),
                p0 <= self.spec_pos() <= s.len(),
            ensures
                self.spec_pos() == line_end(s, p0),
            decreases s.len() - self.spec_pos(),
        {
            match self.eat() {
                Some(c) => {
                    if c == '\n' {
                        break ;
                    }
                },
                None => {
                    break ;
                },
            }
        }
    }

    /// String reading: skip the opening quote, then accumulate decoded
    /// content until the closing quote; an unrecognized escape or the end of
    /// the input is an error.
    fn read_string(&mut self) -> (r: Result<TokenType<&'a str>, TokenError>)
        requires
            old(self).wf(),
            old(self).spec_pos() < old(self).src().len(),
            old(self).src()[old(self).spec_pos()] == '"',
        ensures
            final(self).wf(),
            final(self).source == old(self).source,
            final(self).tok_start == old(self).tok_start,
            final(self).tok_start_byte == old(self).tok_start_byte,
            match string_scan(old(self).src(), old(self).spec_pos() + 1) {
                StrScan::Done { end, content } => final(self).spec_pos() == end && (r matches Ok(
                    t,
                ) && t matches TokenType::StringLiteral(v) && v@ == content),
                StrScan::BadEscape { end } => final(self).spec_pos() == end && r == Err::<
                    TokenType<&str>,
                    TokenError,
                >(TokenError::InvalidEscape),
                StrScan::Unterminated { end } => final(self).spec_pos() == end && r == Err::<
                    TokenType<&str>,
                    TokenError,
                >(TokenError::IncompleteString),
            },
    {
        self.eat();
        let ghost s = self.src();
        let ghost p0 = self.spec_pos();
        let mut buf = String::new();
        loop
            invariant
                self.wf(),
                self.source == old(self).source,
                self.tok_start == old(self).tok_start,
                self.tok_start_byte == old(self).tok_start_byte,
                s == self.src(),
                s == old(self).src(),
                p0 == old(self).spec_pos() + 1,
                p0 <= self.spec_pos() <= s.len(),
                string_scan(s, p0) == crate::scan::str_prepend(buf@, string_scan(s, self.spec_pos())),
            decreases s.len() - self.spec_pos(),
        {
            match self.peek() {
                None => {
                    return Err(TokenError::IncompleteString);
                },
                Some(c) => {
                    let ghost p = self.spec_pos();
                    self.eat();
                    if c == '"' {
                        proof {
                            assert(buf@ + Seq::<char>::empty() =~= buf@);
                        }
                        return Ok(TokenType::StringLiteral(buf));
                    } else if c == '\\' {
                        let ghost pre = buf@;
                        match self.peek() {
                            Some(e) => {
                                let dec: char = if e == '"' {
                                    '"'
                                } else if e == '\\' {
                                    '\\'
                                } else if e == 't' {
                                    '\t'
                                } else if e == 'n' {
                                    '\n'
                                } else if e == 'r' {
                                    '\r'
                                } else if e == '0' {
                                    '\0'
                                } else {
                                    return Err(TokenError::InvalidEscape);
                                };
                                self.eat();
                                push_char(&mut buf, dec);
                                proof {
                                    assert forall|rest: Seq<char>|
                                        pre + (seq![dec] + rest) =~= pre.push(dec) + rest by {}
                                }
                            },
                            None => {
                                return Err(TokenError::InvalidEscape);
                            },
                        }
                    } else {
                        let ghost pre = buf@;
                        push_char(&mut buf, c);
                        proof {
                            assert forall|rest: Seq<char>| pre + (seq![c] + rest) =~= pre.push(c)
                                + rest by {}
                        }
                    }
                },
            }
        }
    }

    /// Hash-form reading: consume the form after the `#`, then classify the
    /// exact text: booleans, long sigils, radix integers, bare keywords,
    /// character literals, else the generic word table.
    fn read_hash_value(&mut self) -> (r: Result<TokenType<&'a str>, TokenError>)
        requires
            old(self).wf(),
            old(self).spec_tok_start() + 1 == old(self).spec_pos(),
            old(self).spec_tok_start() < old(self).src().len(),
            old(self).src()[old(self).spec_tok_start()] == '#',
        ensures
            final(self).wf(),
            final(self).source == old(self).source,
            final(self).tok_start == old(self).tok_start,
            final(self).tok_start_byte == old(self).tok_start_byte,
            final(self).spec_pos() == hash_end(old(self).src(), old(self).spec_pos()),
            res_matches(
                r,
                hash_tok(
                    old(self).src().subrange(
                        old(self).spec_tok_start(),
                        hash_end(old(self).src(), old(self).spec_pos()),
                    ),
                ),
            ),
    {
        let ghost s = self.src();
        let ghost start = self.spec_tok_start();
        let ghost i0 = self.spec_pos();
        loop
            invariant
                self.wf(),
                self.source == old(self).source,
                self.tok_start == old(self).tok_start,
                self.tok_start_byte == old(self).tok_start_byte,
                s == self.src(),
                start == self.spec_tok_start(),
                i0 <= self.spec_pos() <= s.len(),
                hash_end(s, self.spec_pos()) == hash_end(s, i0),
            ensures
                self.spec_pos() == hash_end(s, i0),
                self.spec_pos() == s.len() || is_delim(s[self.spec_pos()]) || char_is_whitespace(
                    s[self.spec_pos()],
                ),
            decreases s.len() - self.spec_pos(),
        {
            match self.peek() {
                None => {
                    break ;
                },
                Some(c) => {
                    if c == '\\' {
                        self.eat();
                        self.eat();
                    } else if c == '(' || c == '[' || c == ')' || c == ']' {
                        break ;
                    } else if is_whitespace_char(c) {
                        break ;
                    } else {
                        self.eat();
                    }
                },
            }
        }
        let t = self.slice();
        let ghost tt = s.subrange(start, self.spec_pos());
        if str_eq(t, "#true") || str_eq(t, "#t") {
            return Ok(TokenType::BooleanLiteral(true));
        }
        if str_eq(t, "#false") || str_eq(t, "#f") {
            return Ok(TokenType::BooleanLiteral(false));
        }
        if str_eq(t, "#'") {
            return Ok(TokenType::QuoteSyntax);
        }
        if str_eq(t, "#`") {
            return Ok(TokenType::QuasiQuoteSyntax);
        }
        if str_eq(t, "#,") {
            return Ok(TokenType::UnquoteSyntax);
        }
        if str_eq(t, "#,@") {
            return Ok(TokenType::UnquoteSpliceSyntax);
        }
        let n = t.unicode_len();
        if has_prefix(t, 'x') {
            let rest = t.substring_char(2, n);
            proof {
                assert(t@.subrange(2, n as int) =~= t@.skip(2));
            }
            return match crate::numbers::parse_radix(rest, 16) {
                Some(m) => Ok(TokenType::IntegerLiteral(m)),
                None => Err(TokenError::MalformedHexInteger),
            };
        }
        if has_prefix(t, 'o') {
            let rest = t.substring_char(2, n);
            proof {
                assert(t@.subrange(2, n as int) =~= t@.skip(2));
            }
            return match crate::numbers::parse_radix(rest, 8) {
                Some(m) => Ok(TokenType::IntegerLiteral(m)),
                None => Err(TokenError::MalformedOctalInteger),
            };
        }
        if has_prefix(t, 'b') {
            let rest = t.substring_char(2, n);
            proof {
                assert(t@.subrange(2, n as int) =~= t@.skip(2));
            }
            return match crate::numbers::parse_radix(rest, 2) {
                Some(m) => Ok(TokenType::IntegerLiteral(m)),
                None => Err(TokenError::MalformedBinaryInteger),
            };
        }
        if has_prefix(t, ':') {
            return Ok(TokenType::Keyword(t));
        }
        if has_prefix(t, '\\') {
            let named: Option<char> = if str_eq(t, "#\\SPACE") || str_eq(t, "#\\space") {
                Some(' ')
            } else if str_eq(t, "#\\\\") {
                Some('\\')
            } else if str_eq(t, "#\\tab") || str_eq(t, "#\\TAB") {
                Some('\t')
            } else if str_eq(t, "#\\NEWLINE") || str_eq(t, "#\\newline") {
                Some('\n')
            } else if str_eq(t, "#\\return") || str_eq(t, "#\\RETURN") {
                Some('\r')
            } else if str_eq(t, "#\\)") {
                Some(')')
            } else if str_eq(t, "#\\]") {
                Some(']')
            } else if str_eq(t, "#\\[") {
                Some('[')
            } else if str_eq(t, "#\\(") {
                Some('(')
            } else if str_eq(t, "#\\^") {
                Some('^')
            } else {
                None
            };
            if let Some(c) = named {
                return Ok(TokenType::CharacterLiteral(c));
            }
            if let Some(c) = read_unicode_escape(t) {
                return Ok(TokenType::CharacterLiteral(c));
            }
            let mut idx: usize = 0;
            proof {
                assert(t@.skip(0) =~= t@);
            }
            loop
                invariant
                    idx <= n,
                    n == t@.len(),
                    strip_char_sigils(t@) == strip_char_sigils(t@.skip(idx as int)),
                ensures
                    idx <= n,
                    n == t@.len(),
                    strip_char_sigils(t@) == t@.skip(idx as int),
                decreases n - idx,
            {
                if n - idx < 2 {
                    break ;
                }
                let a = t.get_char(idx);
                let b2 = t.get_char(idx + 1);
                proof {
                    assert(t@.skip(idx as int)[0] == t@[idx as int]);
                    assert(t@.skip(idx as int)[1] == t@[idx as int + 1]);
                }
                if !(a == '#' && b2 == '\\') {
                    break ;
                }
                proof {
                    assert(t@.skip(idx as int).skip(2) =~= t@.skip(idx as int + 2));
                }
                idx += 2;
            }
            if n - idx == 1 {
                proof {
                    assert(t@.skip(idx as int)[0] == t@[idx as int]);
                }
                return Ok(TokenType::CharacterLiteral(t.get_char(idx)));
            } else {
                return Err(TokenError::InvalidCharacter);
            }
        }
        proof {
            lemma_word_end_at_stop(s, self.spec_pos());
        }
        Ok(self.read_word())
    }

    /// Number reading: consume digits, then at most a float tail (fraction
    /// digits and one exponent marker) or a rational tail (denominator
    /// digits).  A delimiter ends the literal; any other char re-reads the
    /// entire span as a generic word, so malformed numeric prefixes silently
    /// become identifiers, never errors.
    #[verifier::spinoff_prover]
    fn read_number(&mut self) -> (r: TokenType<&'a str>)
        requires
            old(self).wf(),
            old(self).spec_tok_start() < old(self).spec_pos() || (old(self).spec_tok_start() == old(
                self,
            ).spec_pos() && old(self).spec_pos() < old(self).src().len() && char_is_numeric(
                old(self).src()[old(self).spec_pos()],
            )),
        ensures
            final(self).wf(),
            final(self).source == old(self).source,
            final(self).tok_start == old(self).tok_start,
            final(self).tok_start_byte == old(self).tok_start_byte,
            final(self).spec_pos() == num_scan(
                old(self).src(),
                old(self).spec_tok_start(),
                old(self).spec_pos(),
            ).end,
            tok_matches(
                r,
                num_scan(old(self).src(), old(self).spec_tok_start(), old(self).spec_pos()).tok,
            ),
    {
        let ghost s = self.src();
        let ghost start = self.spec_tok_start();
        let ghost i0 = self.spec_pos();
        let ghost sc = num_scan(s, start, i0);
        loop
            invariant
                self.wf(),
                self.source == old(self).source,
                self.tok_start == old(self).tok_start,
                self.tok_start_byte == old(self).tok_start_byte,
                s == self.src(),
                s == old(self).src(),
                start == self.spec_tok_start(),
                start == old(self).spec_tok_start(),
                i0 == old(self).spec_pos(),
                start <= i0 <= self.spec_pos() <= s.len(),
                sc == num_scan(s, start, i0),
                num_scan1(s, self.spec_pos()) == num_scan1(s, i0),
            ensures
                self.spec_pos() == num_scan1(s, i0).end,
                num_scan1(s, self.spec_pos()) == num_scan1(s, i0),
                self.spec_pos() < s.len() ==> !char_is_numeric(s[self.spec_pos()]),
                !(num_scan1(s, i0).stop is Other),
            decreases s.len() - self.spec_pos(),
        {
            match self.peek() {
                None => {
                    break ;
                },
                Some(c) => {
                    if is_numeric_char(c) {
                        self.eat();
                    } else if c == '(' || c == ')' || c == '[' || c == ']' {
                        break ;
                    } else if c == '.' || c == '/' {
                        break ;
                    } else if c == 'e' || c == 'E' {
                        break ;
                    } else if is_whitespace_char(c) {
                        break ;
                    } else {
                        self.eat();
                        return self.read_word();
                    }
                },
            }
        }
        let pk = self.peek();
        let is_float_mark = match pk {
            Some('.') => true,
            Some('e') => true,
            Some('E') => true,
            _ => false,
        };
        let is_slash = match pk {
            Some('/') => true,
            _ => false,
        };
        let r: TokenType<&'a str> = if is_float_mark {
            {
                let is_exp = match pk {
                    Some('e') => true,
                    Some('E') => true,
                    _ => false,
                };
                let ghost mark = self.spec_pos();
                let ghost has_e0 = is_exp;
                self.eat();
                let mut has_e = is_exp;
                loop
                    invariant
                        self.wf(),
                        self.source == old(self).source,
                        self.tok_start == old(self).tok_start,
                        self.tok_start_byte == old(self).tok_start_byte,
                        s == self.src(),
                        s == old(self).src(),
                        start == self.spec_tok_start(),
                        start == old(self).spec_tok_start(),
                        i0 == old(self).spec_pos(),
                        start < mark + 1 <= self.spec_pos() <= s.len(),
                        sc == num_scan(s, start, i0),
                        sc == num_float_tail(s, start, mark, has_e0),
                        float_scan(s, self.spec_pos(), has_e) == float_scan(s, mark + 1, has_e0),
                    ensures
                        float_scan(s, mark + 1, has_e0) == TailScan::Stopped(self.spec_pos()),
                        self.spec_pos() == s.len() || crate::scan::is_delim(
                            s[self.spec_pos()],
                        ) || char_is_whitespace(s[self.spec_pos()]),
                    decreases s.len() - self.spec_pos(),
                {
                    match self.peek() {
                        None => {
                            break ;
                        },
                        Some(c2) => {
                            if is_numeric_char(c2) {
                                self.eat();
                            } else if (c2 == 'e' || c2 == 'E') && !has_e {
                                has_e = true;
                                self.eat();
                            } else if c2 == '(' || c2 == '[' || c2 == ')' || c2 == ']' {
                                break ;
                            } else if is_whitespace_char(c2) {
                                break ;
                            } else {
                                self.eat();
                                return self.read_word();
                            }
                        },
                    }
                }
                let last = self.source.get_char(self.pos - 1);
                proof {
                    assert(s.subrange(start, self.spec_pos()).last() == last);
                }
                if last == 'e' || last == 'E' {
                    self.read_word()
                } else {
                    TokenType::NumberLiteral(self.slice())
                }
            }
        } else if is_slash {
            {
                let num_end: usize = self.pos;
                self.eat();
                loop
                    invariant
                        self.wf(),
                        self.source == old(self).source,
                        self.tok_start == old(self).tok_start,
                        self.tok_start_byte == old(self).tok_start_byte,
                        s == self.src(),
                        s == old(self).src(),
                        start == self.spec_tok_start(),
                        start == old(self).spec_tok_start(),
                        i0 == old(self).spec_pos(),
                        start <= num_end < num_end + 1 <= self.spec_pos() <= s.len(),
                        num_scan1(s, i0) == (NumScan1 { end: num_end as int, stop: NumStop::Slash }),
                        sc == num_scan(s, start, i0),
                        den_scan(s, self.spec_pos()) == den_scan(s, num_end + 1),
                    ensures
                        den_scan(s, num_end + 1) == TailScan::Stopped(self.spec_pos()),
                        self.spec_pos() == s.len() || crate::scan::is_delim(
                            s[self.spec_pos()],
                        ) || char_is_whitespace(s[self.spec_pos()]),
                    decreases s.len() - self.spec_pos(),
                {
                    match self.peek() {
                        None => {
                            break ;
                        },
                        Some(c2) => {
                            if is_numeric_char(c2) {
                                self.eat();
                            } else if c2 == '(' || c2 == '[' || c2 == ')' || c2 == ']' {
                                break ;
                            } else if is_whitespace_char(c2) {
                                break ;
                            } else {
                                self.eat();
                                return self.read_word();
                            }
                        },
                    }
                }
                if self.pos == num_end + 1 {
                    self.read_word()
                } else {
                    let numt = self.source.substring_char(self.tok_start, num_end);
                    let dent = self.source.substring_char(num_end + 1, self.pos);
                    let pn = MaybeBigInt::parse_decimal(numt);
                    let pd = MaybeBigInt::parse_decimal(dent);
                    match (pn, pd) {
                        (Some(a), Some(b)) => TokenType::FractionLiteral(a, b),
                        _ => TokenType::Identifier(self.slice()),
                    }
                }
            }
        } else {
            {
                let t = self.slice();
                match MaybeBigInt::parse_decimal(t) {
                    Some(m) => TokenType::IntegerLiteral(m),
                    None => TokenType::Identifier(t),
                }
            }
        };
        r
    }

    /// Generic word reading: consume to the next delimiter, whitespace or
    /// unescaped quote tick, a backslash escaping the char after it, then
    /// match the exact text against the reserved-word table.
    fn read_word(&mut self) -> (r: TokenType<&'a str>)
        requires
            old(self).wf(),
        ensures
            final(self).wf(),
            final(self).source == old(self).source,
            final(self).tok_start == old(self).tok_start,
            final(self).tok_start_byte == old(self).tok_start_byte,
            final(self).spec_pos() == word_end(old(self).src(), old(self).spec_pos()),
            tok_matches(
                r,
                word_tok(
                    final(self).src().subrange(
                        final(self).spec_tok_start(),
                        final(self).spec_pos(),
                    ),
                ),
            ),
    {
        let ghost s = self.src();
        let ghost p0 = self.spec_pos();
        loop
            invariant
                self.wf(),
                self.source == old(self).source,
                self.tok_start == old(self).tok_start,
                self.tok_start_byte == old(self).tok_start_byte,
                s == self.src(),
                p0 <= self.spec_pos() <= s.len(),
                word_end(s, self.spec_pos()) == word_end(s, p0),
            ensures
                self.spec_pos() == word_end(s, p0),
            decreases s.len() - self.spec_pos(),
        {
            match self.peek() {
                Some(c) => {
                    if c == '(' || c == '[' || c == ')' || c == ']' {
                        break ;
                    } else if is_whitespace_char(c) {
                        break ;
                    } else if c == '\'' {
                        break ;
                    } else if c == '\\' {
                        self.eat();
                        self.eat();
                    } else {
                        self.eat();
                    }
                },
                None => {
                    break ;
                },
            }
        }
        let t = self.slice();
        if str_eq(t, "define") || str_eq(t, "defn") || str_eq(t, "#%define") {
            TokenType::Define
        } else if str_eq(t, "let") {
            TokenType::Let
        } else if str_eq(t, "%plain-let") {
            TokenType::TestLet
        } else if str_eq(t, "return!") {
            TokenType::Return
        } else if str_eq(t, "begin") {
            TokenType::Begin
        } else if str_eq(t, "lambda") || str_eq(t, "fn") || str_eq(t, "#%plain-lambda") || str_eq(
            t,
            "\u{3bb}",
        ) {
            TokenType::Lambda
        } else if str_eq(t, "quote") {
            TokenType::Quote
        } else if str_eq(t, "syntax-rules") {
            TokenType::SyntaxRules
        } else if str_eq(t, "define-syntax") {
            TokenType::DefineSyntax
        } else if str_eq(t, "...") {
            TokenType::Ellipses
        } else if str_eq(t, "set!") {
            TokenType::SetBang
        } else if str_eq(t, "require") {
            TokenType::Require
        } else if str_eq(t, "if") {
            TokenType::If
        } else {
            TokenType::Identifier(t)
        }
    }

    /// One scanner step: skip whitespace, then dispatch on the leading char
    /// and produce the next token, or `None` at the end of the input.  The
    /// result is exactly what [`scan_token`] names for the position where the
    /// token starts.
    pub fn next(&mut self) -> (r: Option<Result<TokenType<&'a str>, TokenError>>)
        requires
            old(self).wf(),
        ensures
            final(self).wf(),
            final(self).spec_source() == old(self).spec_source(),
            final(self).src() == old(self).src(),
            final(self).spec_tok_start() == ws_end(old(self).src(), old(self).spec_pos()),
            ({
                let s = old(self).src();
                let st = ws_end(s, old(self).spec_pos());
                if st >= s.len() {
                    r is None && final(self).spec_pos() == st
                } else {
                    &&& final(self).spec_pos() == scan_token(s, st).end
                    &&& r matches Some(res) && res_matches(res, scan_token(s, st).tok)
                }
            }),
    {
        proof {
            lemma_ws_end(old(self).src(), old(self).spec_pos());
        }
        self.consume_whitespace();
        self.tok_start = self.pos;
        self.tok_start_byte = self.pos_byte;
        let pk = self.peek();
        match pk {
            None => None,
            Some(c) => {
                if c == ';' {
                    self.eat();
                    self.read_rest_of_line();
                    Some(Ok(TokenType::Comment))
                } else if c == '"' {
                    Some(self.read_string())
                } else if c == '(' || c == '[' || c == '{' {
                    self.eat();
                    Some(Ok(TokenType::OpenParen))
                } else if c == ')' || c == ']' || c == '}' {
                    self.eat();
                    Some(Ok(TokenType::CloseParen))
                } else if c == '\'' {
                    self.eat();
                    Some(Ok(TokenType::QuoteTick))
                } else if c == '`' {
                    self.eat();
                    Some(Ok(TokenType::QuasiQuote))
                } else if c == ',' {
                    self.eat();
                    let pk2 = self.peek();
                    match pk2 {
                        Some('@') => {
                            self.eat();
                            Some(Ok(TokenType::UnquoteSplice))
                        },
                        _ => Some(Ok(TokenType::Unquote)),
                    }
                } else if c == '+' {
                    self.eat();
                    let pk2 = self.peek();
                    let next_numeric = match pk2 {
                        Some(c2) => is_numeric_char(c2),
                        None => false,
                    };
                    if next_numeric {
                        Some(Ok(self.read_number()))
                    } else {
                        Some(Ok(TokenType::Identifier(self.slice())))
                    }
                } else if c == '-' {
                    self.eat();
                    let pk2 = self.peek();
                    let next_numeric = match pk2 {
                        Some(c2) => is_numeric_char(c2),
                        None => false,
                    };
                    if next_numeric {
                        Some(Ok(self.read_number()))
                    } else {
                        Some(Ok(self.read_word()))
                    }
                } else if c == '#' {
                    self.eat();
                    Some(self.read_hash_value())
                } else {
                    let ws = is_whitespace_char(c);
                    let numeric = is_numeric_char(c);
                    if (!ws && !numeric) || c == '_' {
                        Some(Ok(self.read_word()))
                    } else if numeric {
                        Some(Ok(self.read_number()))
                    } else {
                        let e = self.eat();
                        match e {
                            Some(c2) => Some(Err(TokenError::UnexpectedChar(c2))),
                            None => None,
                        }
                    }
                }
            },
        }
    }
}

/// Whether a stream token agrees with the spec classification, with a
/// malformed token standing as the error-marker class.
pub open spec fn marker_matches(t: TokenType<&str>, st: SpecTok) -> bool {
    match st {
        SpecTok::Fail(_) => t == TokenType::<&str>::Error,
        _ => tok_matches(t, st),
    }
}

/// Whether an owned-text token agrees with the spec classification: same
/// class, text payloads related by the adapter's promise, a malformed token
/// standing as the error-marker class.
pub open spec fn owned_marker_matches<T, F: ToOwnedString<T>>(
    a: F,
    t: TokenType<T>,
    st: SpecTok,
) -> bool {
    match st {
        SpecTok::Open => t == TokenType::<T>::OpenParen,
        SpecTok::Close => t == TokenType::<T>::CloseParen,
        SpecTok::QuoteTick => t == TokenType::<T>::QuoteTick,
        SpecTok::QuasiQuote => t == TokenType::<T>::QuasiQuote,
        SpecTok::Unquote => t == TokenType::<T>::Unquote,
        SpecTok::UnquoteSplice => t == TokenType::<T>::UnquoteSplice,
        SpecTok::QuoteSyntax => t == TokenType::<T>::QuoteSyntax,
        SpecTok::QuasiQuoteSyntax => t == TokenType::<T>::QuasiQuoteSyntax,
        SpecTok::UnquoteSyntax => t == TokenType::<T>::UnquoteSyntax,
        SpecTok::UnquoteSpliceSyntax => t == TokenType::<T>::UnquoteSpliceSyntax,
        SpecTok::If => t == TokenType::<T>::If,
        SpecTok::Define => t == TokenType::<T>::Define,
        SpecTok::LetWord => t == TokenType::<T>::Let,
        SpecTok::TestLet => t == TokenType::<T>::TestLet,
        SpecTok::Return => t == TokenType::<T>::Return,
        SpecTok::Begin => t == TokenType::<T>::Begin,
        SpecTok::Lambda => t == TokenType::<T>::Lambda,
        SpecTok::QuoteWord => t == TokenType::<T>::Quote,
        SpecTok::SyntaxRules => t == TokenType::<T>::SyntaxRules,
        SpecTok::DefineSyntax => t == TokenType::<T>::DefineSyntax,
        SpecTok::Ellipses => t == TokenType::<T>::Ellipses,
        SpecTok::SetBang => t == TokenType::<T>::SetBang,
        SpecTok::Require => t == TokenType::<T>::Require,
        SpecTok::Bool(b) => t == TokenType::<T>::BooleanLiteral(b),
        SpecTok::Ident(x) => t matches TokenType::Identifier(v) && a.owned_ok(x, v),
        SpecTok::Keyword(x) => t matches TokenType::Keyword(v) && a.owned_ok(x, v),
        SpecTok::Num(x) => t matches TokenType::NumberLiteral(v) && a.owned_ok(x, v),
        SpecTok::Int(n) => t matches TokenType::IntegerLiteral(m) && m.wf() && m@ == n,
        SpecTok::Frac(n, d) => t matches TokenType::FractionLiteral(mn, md) && mn.wf() && mn@ == n
            && md.wf() && md@ == d,
        SpecTok::Char(c) => t == TokenType::<T>::CharacterLiteral(c),
        SpecTok::Str(x) => t matches TokenType::StringLiteral(v) && v@ == x,
        SpecTok::Comment => t == TokenType::<T>::Comment,
        SpecTok::Fail(_) => t == TokenType::<T>::Error,
    }
}

/// Converts a token's borrowed text payload through the adapter, leaving
/// every other payload as it is.
pub fn own_token<'x, T, F: ToOwnedString<T>>(adapter: &F, ty: TokenType<&'x str>) -> (r: TokenType<
    T,
>)
    ensures
        forall|st: SpecTok| marker_matches(ty, st) ==> owned_marker_matches(*adapter, r, st),
{
    match ty {
        TokenType::OpenParen => TokenType::OpenParen,
        TokenType::CloseParen => TokenType::CloseParen,
        TokenType::QuoteTick => TokenType::QuoteTick,
        TokenType::QuasiQuote => TokenType::QuasiQuote,
        TokenType::Unquote => TokenType::Unquote,
        TokenType::UnquoteSplice => TokenType::UnquoteSplice,
        TokenType::QuoteSyntax => TokenType::QuoteSyntax,
        TokenType::QuasiQuoteSyntax => TokenType::QuasiQuoteSyntax,
        TokenType::UnquoteSyntax => TokenType::UnquoteSyntax,
        TokenType::UnquoteSpliceSyntax => TokenType::UnquoteSpliceSyntax,
        TokenType::If => TokenType::If,
        TokenType::Define => TokenType::Define,
        TokenType::Let => TokenType::Let,
        TokenType::TestLet => TokenType::TestLet,
        TokenType::Return => TokenType::Return,
        TokenType::Begin => TokenType::Begin,
        TokenType::Lambda => TokenType::Lambda,
        TokenType::Quote => TokenType::Quote,
        TokenType::SyntaxRules => TokenType::SyntaxRules,
        TokenType::DefineSyntax => TokenType::DefineSyntax,
        TokenType::Ellipses => TokenType::Ellipses,
        TokenType::SetBang => TokenType::SetBang,
        TokenType::Require => TokenType::Require,
        TokenType::BooleanLiteral(b) => TokenType::BooleanLiteral(b),
        TokenType::Identifier(s) => TokenType::Identifier(adapter.own(s)),
        TokenType::Keyword(s) => TokenType::Keyword(adapter.own(s)),
        TokenType::NumberLiteral(s) => TokenType::NumberLiteral(adapter.own(s)),
        TokenType::IntegerLiteral(m) => TokenType::IntegerLiteral(m),
        TokenType::FractionLiteral(a, b) => TokenType::FractionLiteral(a, b),
        TokenType::CharacterLiteral(c) => TokenType::CharacterLiteral(c),
        TokenType::StringLiteral(s) => TokenType::StringLiteral(s),
        TokenType::Comment => TokenType::Comment,
        TokenType::Error => TokenType::Error,
    }
}

/// The token stream adapter: wraps the scanner, optionally drops comment
/// tokens, and stamps every token with the configured source id.  A malformed
/// token is passed on as a single error-marker token.
pub struct TokenStream<'a> {
    lexer: Lexer<'a>,
    skip_comments: bool,
    source_id: Option<SourceId>,
}

impl<'a> TokenStream<'a> {
    pub closed spec fn src(self) -> Seq<char> {
        self.lexer.src()
    }

    pub closed spec fn spec_pos(self) -> int {
        self.lexer.spec_pos()
    }

    pub closed spec fn wf(self) -> bool {
        self.lexer.wf()
    }

    pub closed spec fn spec_skip_comments(self) -> bool {
        self.skip_comments
    }

    pub closed spec fn spec_source_id(self) -> Option<SourceId> {
        self.source_id
    }

    pub fn new(input: &'a str, skip_comments: bool, source_id: Option<SourceId>) -> (s: Self)
        ensures
            s.wf(),
            s.src() == input@,
            s.spec_pos() == 0,
            s.spec_skip_comments() == skip_comments,
            s.spec_source_id() == source_id,
    {
        TokenStream { lexer: Lexer::new(input), skip_comments, source_id }
    }

    /// The next token with its exact text and byte span, comments dropped
    /// when the stream was configured so.
    pub fn next(&mut self) -> (r: Option<Token<'a, &'a str>>)
        requires
            old(self).wf(),
        ensures
            final(self).wf(),
            final(self).src() == old(self).src(),
            final(self).spec_skip_comments() == old(self).spec_skip_comments(),
            final(self).spec_source_id() == old(self).spec_source_id(),
            match stream_scan(
                old(self).src(),
                old(self).spec_pos(),
                old(self).spec_skip_comments(),
            ) {
                StreamStep::Eof { at } => r is None && final(self).spec_pos() == at,
                StreamStep::Tok { start, end, tok } => {
                    &&& final(self).spec_pos() == end
                    &&& r matches Some(t) && marker_matches(t.ty, tok) && t.source@ == old(
                        self,
                    ).src().subrange(start, end) && t.span.start == byte_of(old(self).src(), start)
                        && t.span.end == byte_of(old(self).src(), end) && t.span.source_id == old(
                        self,
                    ).spec_source_id()
                },
            },
    {
        let ghost s = self.src();
        let ghost p0 = self.spec_pos();
        let ghost skip = self.spec_skip_comments();
        loop
            invariant
                self.wf(),
                s == self.src(),
                s == old(self).src(),
                skip == self.spec_skip_comments(),
                skip == old(self).spec_skip_comments(),
                self.source_id == old(self).source_id,
                p0 == old(self).spec_pos(),
                p0 <= self.spec_pos() <= s.len(),
                stream_scan(s, self.spec_pos(), skip) == stream_scan(s, p0, skip),
            decreases s.len() - self.spec_pos(),
        {
            let ghost p = self.lexer.spec_pos();
            proof {
                lemma_ws_end(s, p);
                if ws_end(s, p) < s.len() {
                    lemma_scan_token(s, ws_end(s, p));
                }
            }
            let item = self.lexer.next();
            match item {
                None => {
                    return None;
                },
                Some(res) => {
                    let ty = match res {
                        Ok(t) => t,
                        Err(_) => TokenType::Error,
                    };
                    let is_comment = match &ty {
                        TokenType::Comment => true,
                        _ => false,
                    };
                    if !(self.skip_comments && is_comment) {
                        let source = self.lexer.slice();
                        let sp = self.lexer.span();
                        let span = Span {
                            start: sp.start,
                            end: sp.end,
                            source_id: self.source_id,
                        };
                        return Some(Token { ty, source, span });
                    }
                },
            }
        }
    }

    /// Hands the stream to an adapter that converts borrowed token text into
    /// independently owned text.
    pub fn into_owned<T, F: ToOwnedString<T>>(self, adapter: F) -> (r: OwnedTokenStream<
        'a,
        T,
        F,
    >)
        ensures
            r.wf() == self.wf(),
            r.src() == self.src(),
            r.spec_pos() == self.spec_pos(),
            r.spec_skip_comments() == self.spec_skip_comments(),
            r.spec_source_id() == self.spec_source_id(),
            r.spec_adapter() == adapter,
    {
        OwnedTokenStream { stream: self, adapter, _token_type: core::marker::PhantomData }
    }
}

/// A well-formed stream's position lies in its buffer.
pub proof fn lemma_stream_bounds<'a>(s: TokenStream<'a>)
    requires
        s.wf(),
    ensures
        0 <= s.spec_pos() <= s.src().len(),
{
    lemma_lexer_bounds(s.lexer);
}

/// The token stream with every text payload converted to independently owned
/// text through the injected conversion strategy.
pub struct OwnedTokenStream<'a, T, F> {
    stream: TokenStream<'a>,
    adapter: F,
    _token_type: core::marker::PhantomData<T>,
}

impl<'a, T, F: ToOwnedString<T>> OwnedTokenStream<'a, T, F> {
    pub closed spec fn src(self) -> Seq<char> {
        self.stream.src()
    }

    pub closed spec fn spec_pos(self) -> int {
        self.stream.spec_pos()
    }

    pub closed spec fn wf(self) -> bool {
        self.stream.wf()
    }

    pub closed spec fn spec_skip_comments(self) -> bool {
        self.stream.spec_skip_comments()
    }

    pub closed spec fn spec_source_id(self) -> Option<SourceId> {
        self.stream.spec_source_id()
    }

    pub closed spec fn spec_adapter(self) -> F {
        self.adapter
    }

    /// The next token, its text payload owned; the carried source text and
    /// span are those of the underlying stream token.
    pub fn next(&mut self) -> (r: Option<Token<'a, T>>)
        requires
            old(self).wf(),
        ensures
            final(self).wf(),
            final(self).src() == old(self).src(),
            final(self).spec_skip_comments() == old(self).spec_skip_comments(),
            final(self).spec_source_id() == old(self).spec_source_id(),
            final(self).spec_adapter() == old(self).spec_adapter(),
            match stream_scan(
                old(self).src(),
                old(self).spec_pos(),
                old(self).spec_skip_comments(),
            ) {
                StreamStep::Eof { at } => r is None && final(self).spec_pos() == at,
                StreamStep::Tok { start, end, tok } => {
                    &&& final(self).spec_pos() == end
                    &&& r matches Some(t) && owned_marker_matches(
                        old(self).spec_adapter(),
                        t.ty,
                        tok,
                    ) && t.source@ == old(self).src().subrange(start, end) && t.span.start
                        == byte_of(old(self).src(), start) && t.span.end == byte_of(
                        old(self).src(),
                        end,
                    ) && t.span.source_id == old(self).spec_source_id()
                },
            },
    {
        let item = self.stream.next();
        match item {
            None => None,
            Some(t) => {
                let ty = own_token(&self.adapter, t.ty);
                Some(Token { ty, source: t.source, span: t.span })
            },
        }
    }

    /// The byte offset just past the last token the stream produced.
    pub fn offset(&self) -> (r: usize)
        requires
            self.wf(),
        ensures
            r == byte_of(self.src(), self.spec_pos()),
    {
        let sp = self.stream.lexer.span();
        sp.end
    }
}

/// A well-formed owned stream's position lies in its buffer.
pub proof fn lemma_owned_stream_bounds<'a, T, F: ToOwnedString<T>>(s: OwnedTokenStream<'a, T, F>)
    requires
        s.wf(),
    ensures
        0 <= s.spec_pos() <= s.src().len(),
{
    lemma_stream_bounds(s.stream);
}

} // verus!
