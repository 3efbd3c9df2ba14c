//! The functional specification of the scanner.
//!
//! Each spec function here walks the source as a `Seq<char>` exactly the way
//! the executable scanner walks the buffer, so every scanner method can
//! promise in its contract that it lands on the position and produces the
//! token that these functions name.

use vstd::prelude::*;

verus! {

use crate::chars::char_is_numeric;
use crate::chars::is_unicode_scalar;
use crate::chars::char_is_whitespace;
use crate::lexer::TokenError;
use crate::numbers::dec_text_value;
use crate::numbers::radix_digit_ok;
use crate::numbers::radix_digits_value;
use crate::numbers::radix_text_value;
use crate::numbers::valid_dec_text;
use crate::numbers::valid_radix_text;

/// The classified content of one token, over mathematical values: texts as
/// char sequences, integers as unbounded values.
pub ghost enum SpecTok {
    Open,
    Close,
    QuoteTick,
    QuasiQuote,
    Unquote,
    UnquoteSplice,
    QuoteSyntax,
    QuasiQuoteSyntax,
    UnquoteSyntax,
    UnquoteSpliceSyntax,
    If,
    Define,
    LetWord,
    TestLet,
    Return,
    Begin,
    Lambda,
    QuoteWord,
    SyntaxRules,
    DefineSyntax,
    Ellipses,
    SetBang,
    Require,
    Bool(bool),
    Ident(Seq<char>),
    Keyword(Seq<char>),
    Num(Seq<char>),
    Int(int),
    Frac(int, int),
    Char(char),
    Str(Seq<char>),
    Comment,
    Fail(TokenError),
}

/// Where one token's scan ends, and what it is.
pub ghost struct SpecScan {
    pub end: int,
    pub tok: SpecTok,
}

/// The four characters that end an unquoted token: the scanner's readers stop
/// at these without consuming them.  The curly braces end only the dispatch,
/// not the word, number and hash readers.
pub open spec fn is_delim(c: char) -> bool {
    c == '(' || c == ')' || c == '[' || c == ']'
}

/// The position of the first non-whitespace char at or after `i`.
pub open spec fn ws_end(s: Seq<char>, i: int) -> int
    decreases s.len() - i,
    when 0 <= i <= s.len()
{
    if i >= s.len() {
        i
    } else if char_is_whitespace(s[i]) {
        ws_end(s, i + 1)
    } else {
        i
    }
}

pub proof fn lemma_ws_end(s: Seq<char>, i: int)
    requires
        0 <= i <= s.len(),
    ensures
        i <= ws_end(s, i) <= s.len(),
        ws_end(s, i) < s.len() ==> !char_is_whitespace(s[ws_end(s, i)]),
    decreases s.len() - i,
{
    if i < s.len() && char_is_whitespace(s[i]) {
        lemma_ws_end(s, i + 1);
    }
}

/// The position just after the comment that starts at `i`: past the next line
/// feed, or the end of the input.
pub open spec fn line_end(s: Seq<char>, i: int) -> int
    decreases s.len() - i,
    when 0 <= i <= s.len()
{
    if i >= s.len() {
        i
    } else if s[i] == '\n' {
        i + 1
    } else {
        line_end(s, i + 1)
    }
}

pub proof fn lemma_line_end(s: Seq<char>, i: int)
    requires
        0 <= i <= s.len(),
    ensures
        i <= line_end(s, i) <= s.len(),
    decreases s.len() - i,
{
    if i < s.len() && s[i] != '\n' {
        lemma_line_end(s, i + 1);
    }
}

/// Where generic word reading stops, starting from `i`: at a delimiter,
/// whitespace or an unescaped quote tick; a backslash consumes the next char
/// as a literal pair.
pub open spec fn word_end(s: Seq<char>, i: int) -> int
    decreases s.len() - i,
    when 0 <= i <= s.len()
{
    if i >= s.len() {
        i
    } else {
        let c = s[i];
        if is_delim(c) || char_is_whitespace(c) || c == '\'' {
            i
        } else if c == '\\' {
            if i + 2 <= s.len() {
                word_end(s, i + 2)
            } else {
                s.len() as int
            }
        } else {
            word_end(s, i + 1)
        }
    }
}

pub proof fn lemma_word_end(s: Seq<char>, i: int)
    requires
        0 <= i <= s.len(),
    ensures
        i <= word_end(s, i) <= s.len(),
    decreases s.len() - i,
{
    if i < s.len() {
        let c = s[i];
        if is_delim(c) || char_is_whitespace(c) || c == '\'' {
        } else if c == '\\' {
            if i + 2 <= s.len() {
                lemma_word_end(s, i + 2);
            }
        } else {
            lemma_word_end(s, i + 1);
        }
    }
}

/// A word that stops immediately: word reading started at a delimiter,
/// whitespace, a quote tick or the end of the input consumes nothing.
pub proof fn lemma_word_end_at_stop(s: Seq<char>, i: int)
    requires
        0 <= i <= s.len(),
        i == s.len() || is_delim(s[i]) || char_is_whitespace(s[i]) || s[i] == '\'',
    ensures
        word_end(s, i) == i,
{
}

/// The reserved-word table, applied to the exact text of a word.
pub open spec fn word_tok(t: Seq<char>) -> SpecTok {
    if t == "define"@ || t == "defn"@ || t == "#%define"@ {
        SpecTok::Define
    } else if t == "let"@ {
        SpecTok::LetWord
    } else if t == "%plain-let"@ {
        SpecTok::TestLet
    } else if t == "return!"@ {
        SpecTok::Return
    } else if t == "begin"@ {
        SpecTok::Begin
    } else if t == "lambda"@ || t == "fn"@ || t == "#%plain-lambda"@ || t == "\u{3bb}"@ {
        SpecTok::Lambda
    } else if t == "quote"@ {
        SpecTok::QuoteWord
    } else if t == "syntax-rules"@ {
        SpecTok::SyntaxRules
    } else if t == "define-syntax"@ {
        SpecTok::DefineSyntax
    } else if t == "..."@ {
        SpecTok::Ellipses
    } else if t == "set!"@ {
        SpecTok::SetBang
    } else if t == "require"@ {
        SpecTok::Require
    } else if t == "if"@ {
        SpecTok::If
    } else {
        SpecTok::Ident(t)
    }
}

/// What a backslash escape inside a string literal decodes to, if it is one of
/// the recognized escapes.
pub open spec fn escape_code(c: char) -> Option<char> {
    if c == '"' {
        Some('"')
    } else if c == '\\' {
        Some('\\')
    } else if c == 't' {
        Some('\t')
    } else if c == 'n' {
        Some('\n')
    } else if c == 'r' {
        Some('\r')
    } else if c == '0' {
        Some('\0')
    } else {
        None
    }
}

/// How scanning a string literal body ends, starting just after the opening
/// quote.
pub ghost enum StrScan {
    /// The closing quote stands at `end - 1`; `content` is the decoded text.
    Done { end: int, content: Seq<char> },
    /// A backslash at `end - 1` is followed by no recognized escape.
    BadEscape { end: int },
    /// The input ended before a closing quote.
    Unterminated { end: int },
}

pub open spec fn string_scan(s: Seq<char>, i: int) -> StrScan
    decreases s.len() - i,
    when 0 <= i <= s.len()
{
    if i >= s.len() {
        StrScan::Unterminated { end: i }
    } else {
        let c = s[i];
        if c == '"' {
            StrScan::Done { end: i + 1, content: Seq::empty() }
        } else if c == '\\' {
            if i + 1 < s.len() && escape_code(s[i + 1]) is Some {
                match string_scan(s, i + 2) {
                    StrScan::Done { end, content } => StrScan::Done {
                        end,
                        content: seq![escape_code(s[i + 1]).unwrap()] + content,
                    },
                    other => other,
                }
            } else {
                StrScan::BadEscape { end: i + 1 }
            }
        } else {
            match string_scan(s, i + 1) {
                StrScan::Done { end, content } => StrScan::Done {
                    end,
                    content: seq![c] + content,
                },
                other => other,
            }
        }
    }
}

/// A scan outcome with already-decoded content put in front: what the whole
/// string body scans to, given what the remainder scans to.
pub open spec fn str_prepend(pre: Seq<char>, sc: StrScan) -> StrScan {
    match sc {
        StrScan::Done { end, content } => StrScan::Done { end, content: pre + content },
        other => other,
    }
}

pub proof fn lemma_string_scan(s: Seq<char>, i: int)
    requires
        0 <= i <= s.len(),
    ensures
        match string_scan(s, i) {
            StrScan::Done { end, .. } => i < end <= s.len(),
            StrScan::BadEscape { end } => i < end <= s.len(),
            StrScan::Unterminated { end } => i <= end <= s.len(),
        },
    decreases s.len() - i,
{
    if i < s.len() {
        let c = s[i];
        if c == '"' {
        } else if c == '\\' {
            if i + 1 < s.len() && escape_code(s[i + 1]) is Some {
                lemma_string_scan(s, i + 2);
            }
        } else {
            lemma_string_scan(s, i + 1);
        }
    }
}

/// Where hash-form reading stops, starting just after the `#`: at a bracket
/// delimiter or whitespace; a backslash consumes the next char too.
pub open spec fn hash_end(s: Seq<char>, i: int) -> int
    decreases s.len() - i,
    when 0 <= i <= s.len()
{
    if i >= s.len() {
        i
    } else {
        let c = s[i];
        if c == '\\' {
            if i + 2 <= s.len() {
                hash_end(s, i + 2)
            } else {
                s.len() as int
            }
        } else if is_delim(c) || char_is_whitespace(c) {
            i
        } else {
            hash_end(s, i + 1)
        }
    }
}

pub proof fn lemma_hash_end(s: Seq<char>, i: int)
    requires
        0 <= i <= s.len(),
    ensures
        i <= hash_end(s, i) <= s.len(),
        hash_end(s, i) == s.len() || is_delim(s[hash_end(s, i)]) || char_is_whitespace(
            s[hash_end(s, i)],
        ),
    decreases s.len() - i,
{
    if i < s.len() {
        let c = s[i];
        if c == '\\' {
            if i + 2 <= s.len() {
                lemma_hash_end(s, i + 2);
            }
        } else if is_delim(c) || char_is_whitespace(c) {
        } else {
            lemma_hash_end(s, i + 1);
        }
    }
}

/// The named character literals.
pub open spec fn named_char(t: Seq<char>) -> Option<char> {
    if t == "#\\SPACE"@ || t == "#\\space"@ {
        Some(' ')
    } else if t == "#\\\\"@ {
        Some('\\')
    } else if t == "#\\tab"@ || t == "#\\TAB"@ {
        Some('\t')
    } else if t == "#\\NEWLINE"@ || t == "#\\newline"@ {
        Some('\n')
    } else if t == "#\\return"@ || t == "#\\RETURN"@ {
        Some('\r')
    } else if t == "#\\)"@ {
        Some(')')
    } else if t == "#\\]"@ {
        Some(']')
    } else if t == "#\\["@ {
        Some('[')
    } else if t == "#\\("@ {
        Some('(')
    } else if t == "#\\^"@ {
        Some('^')
    } else {
        None
    }
}

/// The code-point escape form of a character literal: `u{` then one to six
/// hex digits naming a scalar value, then `}`, all after the `#\` sigil.
pub open spec fn unicode_escape(t: Seq<char>) -> Option<char> {
    if t.len() >= 6 && t[0] == '#' && t[1] == '\\' && t[2] == 'u' && t[3] == '{' && t.last()
        == '}' {
        let hex = t.subrange(4, t.len() - 1);
        if 1 <= hex.len() <= 6 && (forall|k: int|
            0 <= k < hex.len() ==> radix_digit_ok(#[trigger] hex[k], 16)) {
            let v = radix_digits_value(hex, 16);
            if is_unicode_scalar(v) {
                Some(((v as u32) as char))
            } else {
                None
            }
        } else {
            None
        }
    } else {
        None
    }
}

/// The text with every leading `#\` pair removed, as the character-literal
/// fallback strips its sigil.
pub open spec fn strip_char_sigils(t: Seq<char>) -> Seq<char>
    decreases t.len(),
{
    if t.len() >= 2 && t[0] == '#' && t[1] == '\\' {
        strip_char_sigils(t.skip(2))
    } else {
        t
    }
}

/// What a character-literal text decodes to: a named character, a code-point
/// escape, or exactly one literal character after the sigil.
pub open spec fn char_lit(t: Seq<char>) -> Option<char> {
    match named_char(t) {
        Some(c) => Some(c),
        None => match unicode_escape(t) {
            Some(c) => Some(c),
            None => {
                let rest = strip_char_sigils(t);
                if rest.len() == 1 {
                    Some(rest[0])
                } else {
                    None
                }
            },
        },
    }
}

/// The classification of a complete hash-form text.
pub open spec fn hash_tok(t: Seq<char>) -> SpecTok {
    if t == "#true"@ || t == "#t"@ {
        SpecTok::Bool(true)
    } else if t == "#false"@ || t == "#f"@ {
        SpecTok::Bool(false)
    } else if t == "#'"@ {
        SpecTok::QuoteSyntax
    } else if t == "#`"@ {
        SpecTok::QuasiQuoteSyntax
    } else if t == "#,"@ {
        SpecTok::UnquoteSyntax
    } else if t == "#,@"@ {
        SpecTok::UnquoteSpliceSyntax
    } else if t.len() >= 2 && t[0] == '#' && t[1] == 'x' {
        radix_tok(t.skip(2), 16, TokenError::MalformedHexInteger)
    } else if t.len() >= 2 && t[0] == '#' && t[1] == 'o' {
        radix_tok(t.skip(2), 8, TokenError::MalformedOctalInteger)
    } else if t.len() >= 2 && t[0] == '#' && t[1] == 'b' {
        radix_tok(t.skip(2), 2, TokenError::MalformedBinaryInteger)
    } else if t.len() >= 2 && t[0] == '#' && t[1] == ':' {
        SpecTok::Keyword(t)
    } else if t.len() >= 2 && t[0] == '#' && t[1] == '\\' {
        match char_lit(t) {
            Some(c) => SpecTok::Char(c),
            None => SpecTok::Fail(TokenError::InvalidCharacter),
        }
    } else {
        word_tok(t)
    }
}

/// A radix integer: the digits after the radix sigil, read with arbitrary
/// precision, or the radix-specific error on an empty or invalid digit
/// sequence.
pub open spec fn radix_tok(rest: Seq<char>, radix: int, err: TokenError) -> SpecTok {
    if valid_radix_text(rest, radix) {
        SpecTok::Int(radix_text_value(rest, radix))
    } else {
        SpecTok::Fail(err)
    }
}

/// How the first phase of number reading stops.
pub ghost enum NumStop {
    /// The input ended.
    End,
    /// A bracket delimiter or whitespace, not consumed.
    Delim,
    /// A `.`, not consumed.
    Dot,
    /// A `/`, not consumed.
    Slash,
    /// An `e` or `E`, not consumed.
    Exp,
    /// Any other char: number reading consumes it and degrades to a word.
    Other,
}

pub ghost struct NumScan1 {
    pub end: int,
    pub stop: NumStop,
}

/// The first phase of number reading: consume numeric chars, classify the
/// stopping char.
pub open spec fn num_scan1(s: Seq<char>, i: int) -> NumScan1
    decreases s.len() - i,
    when 0 <= i <= s.len()
{
    if i >= s.len() {
        NumScan1 { end: i, stop: NumStop::End }
    } else {
        let c = s[i];
        if char_is_numeric(c) {
            num_scan1(s, i + 1)
        } else if is_delim(c) {
            NumScan1 { end: i, stop: NumStop::Delim }
        } else if c == '.' {
            NumScan1 { end: i, stop: NumStop::Dot }
        } else if c == '/' {
            NumScan1 { end: i, stop: NumStop::Slash }
        } else if c == 'e' || c == 'E' {
            NumScan1 { end: i, stop: NumStop::Exp }
        } else if char_is_whitespace(c) {
            NumScan1 { end: i, stop: NumStop::Delim }
        } else {
            NumScan1 { end: i, stop: NumStop::Other }
        }
    }
}

pub proof fn lemma_num_scan1(s: Seq<char>, i: int)
    requires
        0 <= i <= s.len(),
    ensures
        i <= num_scan1(s, i).end <= s.len(),
        num_scan1(s, i).stop is End <==> num_scan1(s, i).end == s.len(),
        i < s.len() && char_is_numeric(s[i]) ==> num_scan1(s, i).end > i,
    decreases s.len() - i,
{
    if i < s.len() && char_is_numeric(s[i]) {
        lemma_num_scan1(s, i + 1);
    }
}

/// How the float or denominator phase ends: stopped at a delimiter (position
/// not consumed), or aborted to generic word reading (whose end this carries).
pub ghost enum TailScan {
    Stopped(int),
    Aborted(int),
}

/// The float phase: digits and at most one exponent marker, after the `.` or
/// the first exponent marker was consumed.
pub open spec fn float_scan(s: Seq<char>, i: int, has_e: bool) -> TailScan
    decreases s.len() - i,
    when 0 <= i <= s.len()
{
    if i >= s.len() {
        TailScan::Stopped(i)
    } else {
        let c = s[i];
        if char_is_numeric(c) {
            float_scan(s, i + 1, has_e)
        } else if (c == 'e' || c == 'E') && !has_e {
            float_scan(s, i + 1, true)
        } else if is_delim(c) {
            TailScan::Stopped(i)
        } else if char_is_whitespace(c) {
            TailScan::Stopped(i)
        } else {
            TailScan::Aborted(word_end(s, i + 1))
        }
    }
}

pub proof fn lemma_float_scan(s: Seq<char>, i: int, has_e: bool)
    requires
        0 <= i <= s.len(),
    ensures
        match float_scan(s, i, has_e) {
            TailScan::Stopped(e) => i <= e <= s.len() && (e == s.len() || is_delim(s[e])
                || char_is_whitespace(s[e])),
            TailScan::Aborted(e) => i < e <= s.len(),
        },
    decreases s.len() - i,
{
    if i < s.len() {
        let c = s[i];
        if char_is_numeric(c) {
            lemma_float_scan(s, i + 1, has_e);
        } else if (c == 'e' || c == 'E') && !has_e {
            lemma_float_scan(s, i + 1, true);
        } else if is_delim(c) || char_is_whitespace(c) {
        } else {
            lemma_word_end(s, i + 1);
        }
    }
}

/// The denominator phase: digits only.
pub open spec fn den_scan(s: Seq<char>, i: int) -> TailScan
    decreases s.len() - i,
    when 0 <= i <= s.len()
{
    if i >= s.len() {
        TailScan::Stopped(i)
    } else {
        let c = s[i];
        if char_is_numeric(c) {
            den_scan(s, i + 1)
        } else if is_delim(c) {
            TailScan::Stopped(i)
        } else if char_is_whitespace(c) {
            TailScan::Stopped(i)
        } else {
            TailScan::Aborted(word_end(s, i + 1))
        }
    }
}

pub proof fn lemma_den_scan(s: Seq<char>, i: int)
    requires
        0 <= i <= s.len(),
    ensures
        match den_scan(s, i) {
            TailScan::Stopped(e) => i <= e <= s.len() && (e == s.len() || is_delim(s[e])
                || char_is_whitespace(s[e])),
            TailScan::Aborted(e) => i < e <= s.len(),
        },
    decreases s.len() - i,
{
    if i < s.len() {
        let c = s[i];
        if char_is_numeric(c) {
            lemma_den_scan(s, i + 1);
        } else if is_delim(c) || char_is_whitespace(c) {
        } else {
            lemma_word_end(s, i + 1);
        }
    }
}

/// Number reading in full.  `start` is where the token (with any sign)
/// begins, `i` the first position the number reader looks at.  Malformed
/// numeric-looking input degrades to the reserved-word table over the whole
/// consumed span, never to an error.
pub open spec fn num_scan(s: Seq<char>, start: int, i: int) -> SpecScan {
    let p1 = num_scan1(s, i);
    match p1.stop {
        NumStop::Other => {
            let e = word_end(s, p1.end + 1);
            SpecScan { end: e, tok: word_tok(s.subrange(start, e)) }
        },
        NumStop::End => num_int_tok(s, start, p1.end),
        NumStop::Delim => num_int_tok(s, start, p1.end),
        NumStop::Dot => num_float_tail(s, start, p1.end, false),
        NumStop::Exp => num_float_tail(s, start, p1.end, true),
        NumStop::Slash => {
            let num_end = p1.end;
            match den_scan(s, num_end + 1) {
                TailScan::Aborted(e) => SpecScan { end: e, tok: word_tok(s.subrange(start, e)) },
                TailScan::Stopped(e) => {
                    if e == num_end + 1 {
                        SpecScan { end: e, tok: word_tok(s.subrange(start, e)) }
                    } else {
                        let numt = s.subrange(start, num_end);
                        let dent = s.subrange(num_end + 1, e);
                        if valid_dec_text(numt) && valid_dec_text(dent) {
                            SpecScan {
                                end: e,
                                tok: SpecTok::Frac(dec_text_value(numt), dec_text_value(dent)),
                            }
                        } else {
                            SpecScan { end: e, tok: SpecTok::Ident(s.subrange(start, e)) }
                        }
                    }
                },
            }
        },
    }
}

/// An integer token over the consumed text, or the degrade to an identifier
/// where the text is not a plain decimal (a numeric char outside the ASCII
/// digits).
pub open spec fn num_int_tok(s: Seq<char>, start: int, end: int) -> SpecScan {
    let t = s.subrange(start, end);
    if valid_dec_text(t) {
        SpecScan { end, tok: SpecTok::Int(dec_text_value(t)) }
    } else {
        SpecScan { end, tok: SpecTok::Ident(t) }
    }
}

/// The float phase outcome: entered at the `.` or exponent marker standing at
/// `mark`, which the reader consumes first.
pub open spec fn num_float_tail(s: Seq<char>, start: int, mark: int, has_e: bool) -> SpecScan {
    match float_scan(s, mark + 1, has_e) {
        TailScan::Aborted(e) => SpecScan { end: e, tok: word_tok(s.subrange(start, e)) },
        TailScan::Stopped(e) => {
            let t = s.subrange(start, e);
            if t.len() > 0 && (t.last() == 'e' || t.last() == 'E') {
                SpecScan { end: e, tok: word_tok(t) }
            } else {
                SpecScan { end: e, tok: SpecTok::Num(t) }
            }
        },
    }
}

/// One full scanner step at a non-whitespace position: leading-character
/// dispatch, then the matching reader.
pub open spec fn scan_token(s: Seq<char>, i: int) -> SpecScan
    recommends
        0 <= i < s.len(),
        !char_is_whitespace(s[i]),
{
    let c = s[i];
    if c == ';' {
        SpecScan { end: line_end(s, i + 1), tok: SpecTok::Comment }
    } else if c == '"' {
        match string_scan(s, i + 1) {
            StrScan::Done { end, content } => SpecScan { end, tok: SpecTok::Str(content) },
            StrScan::BadEscape { end } => SpecScan {
                end,
                tok: SpecTok::Fail(TokenError::InvalidEscape),
            },
            StrScan::Unterminated { end } => SpecScan {
                end,
                tok: SpecTok::Fail(TokenError::IncompleteString),
            },
        }
    } else if c == '(' || c == '[' || c == '{' {
        SpecScan { end: i + 1, tok: SpecTok::Open }
    } else if c == ')' || c == ']' || c == '}' {
        SpecScan { end: i + 1, tok: SpecTok::Close }
    } else if c == '\'' {
        SpecScan { end: i + 1, tok: SpecTok::QuoteTick }
    } else if c == '`' {
        SpecScan { end: i + 1, tok: SpecTok::QuasiQuote }
    } else if c == ',' {
        if i + 1 < s.len() && s[i + 1] == '@' {
            SpecScan { end: i + 2, tok: SpecTok::UnquoteSplice }
        } else {
            SpecScan { end: i + 1, tok: SpecTok::Unquote }
        }
    } else if c == '+' {
        if i + 1 < s.len() && char_is_numeric(s[i + 1]) {
            num_scan(s, i, i + 1)
        } else {
            SpecScan { end: i + 1, tok: SpecTok::Ident(s.subrange(i, i + 1)) }
        }
    } else if c == '-' {
        if i + 1 < s.len() && char_is_numeric(s[i + 1]) {
            num_scan(s, i, i + 1)
        } else {
            let e = word_end(s, i + 1);
            SpecScan { end: e, tok: word_tok(s.subrange(i, e)) }
        }
    } else if c == '#' {
        let e = hash_end(s, i + 1);
        SpecScan { end: e, tok: hash_tok(s.subrange(i, e)) }
    } else if !char_is_numeric(c) {
        let e = word_end(s, i);
        SpecScan { end: e, tok: word_tok(s.subrange(i, e)) }
    } else {
        num_scan(s, i, i)
    }
}

pub proof fn lemma_num_scan(s: Seq<char>, start: int, i: int)
    requires
        0 <= start < i <= s.len() || (0 <= start == i < s.len() && char_is_numeric(s[i])),
    ensures
        start < num_scan(s, start, i).end <= s.len(),
{
    lemma_num_scan1(s, i);
    let p1 = num_scan1(s, i);
    if start == i {
        assert(p1.end > i);
    }
    match p1.stop {
        NumStop::Other => {
            lemma_word_end(s, p1.end + 1);
        },
        NumStop::End => {},
        NumStop::Delim => {},
        NumStop::Dot => {
            lemma_float_scan(s, p1.end + 1, false);
        },
        NumStop::Exp => {
            lemma_float_scan(s, p1.end + 1, true);
        },
        NumStop::Slash => {
            lemma_den_scan(s, p1.end + 1);
        },
    }
}

/// The numeric degrade is a deliberate permissiveness, not an error: number
/// reading always classifies the consumed span as an integer, float or
/// rational literal, or re-reads it through the reserved-word table (usually
/// as an identifier) -- it never yields a malformed-token failure.
pub proof fn lemma_numeric_degrade(s: Seq<char>, start: int, i: int)
    requires
        0 <= start < i <= s.len() || (0 <= start == i < s.len() && char_is_numeric(s[i])),
    ensures
        !(num_scan(s, start, i).tok is Fail),
{
    lemma_num_scan1(s, i);
    let p1 = num_scan1(s, i);
    match p1.stop {
        NumStop::Dot => {
            lemma_float_scan(s, p1.end + 1, false);
        },
        NumStop::Exp => {
            lemma_float_scan(s, p1.end + 1, true);
        },
        NumStop::Slash => {
            lemma_den_scan(s, p1.end + 1);
        },
        _ => {},
    }
}

/// Every scanner step consumes at least one char and stays in the buffer.
pub proof fn lemma_scan_token(s: Seq<char>, i: int)
    requires
        0 <= i < s.len(),
        !char_is_whitespace(s[i]),
    ensures
        i < scan_token(s, i).end <= s.len(),
{
    let c = s[i];
    if c == ';' {
        lemma_line_end(s, i + 1);
    } else if c == '"' {
        lemma_string_scan(s, i + 1);
    } else if c == '(' || c == '[' || c == '{' || c == ')' || c == ']' || c == '}' || c == '\''
        || c == '`' || c == ',' {
    } else if c == '+' || c == '-' {
        if i + 1 < s.len() && char_is_numeric(s[i + 1]) {
            lemma_num_scan(s, i, i + 1);
        } else if c == '-' {
            lemma_word_end(s, i + 1);
        }
    } else if c == '#' {
        lemma_hash_end(s, i + 1);
    } else if !char_is_numeric(c) {
        if c == '\\' {
            if i + 2 <= s.len() {
                lemma_word_end(s, i + 2);
            }
        } else {
            lemma_word_end(s, i + 1);
        }
    } else {
        lemma_num_scan(s, i, i);
    }
}

/// What the token stream adapter yields next, scanning from `i`: the next
/// token and its char range, skipping comments when `skip` is set.
pub ghost enum StreamStep {
    Eof { at: int },
    Tok { start: int, end: int, tok: SpecTok },
}

pub open spec fn stream_scan(s: Seq<char>, i: int, skip: bool) -> StreamStep
    decreases s.len() - i,
    when 0 <= i <= s.len()
    via stream_scan_dec
{
    let st = ws_end(s, i);
    if st >= s.len() {
        StreamStep::Eof { at: st }
    } else {
        let sc = scan_token(s, st);
        if skip && sc.tok is Comment {
            stream_scan(s, sc.end, skip)
        } else {
            StreamStep::Tok { start: st, end: sc.end, tok: sc.tok }
        }
    }
}

#[via_fn]
proof fn stream_scan_dec(s: Seq<char>, i: int, skip: bool) {
    lemma_ws_end(s, i);
    let st = ws_end(s, i);
    if st < s.len() {
        lemma_scan_token(s, st);
    }
}

pub proof fn lemma_stream_scan(s: Seq<char>, i: int, skip: bool)
    requires
        0 <= i <= s.len(),
    ensures
        match stream_scan(s, i, skip) {
            StreamStep::Eof { at } => i <= at <= s.len(),
            StreamStep::Tok { start, end, tok } => i <= start < end <= s.len() && !(skip
                && tok is Comment),
        },
    decreases s.len() - i,
{
    lemma_ws_end(s, i);
    let st = ws_end(s, i);
    if st < s.len() {
        lemma_scan_token(s, st);
        let sc = scan_token(s, st);
        if skip && sc.tok is Comment {
            lemma_stream_scan(s, sc.end, skip);
        }
    }
}

} // verus!
