use steel_parser::lexer::{TokenError, TokenStream};
use steel_parser::numbers::MaybeBigInt;
use steel_parser::tokens::{OwnedString, Span, Token, TokenType};

#[test]
fn span_addresses_token_text() {
    // Byte spans stay exact under multi-byte characters: the substring of the
    // source addressed by each token's span equals its carried text.
    let source = "(αβ #\\λ \"δ\")";
    let mut s = TokenStream::new(source, true, None);
    let mut count = 0;
    while let Some(token) = s.next() {
        let addressed = &source.as_bytes()[token.span.start..token.span.end];
        assert_eq!(addressed, token.source.as_bytes());
        count += 1;
    }
    assert_eq!(count, 5);
}

#[test]
fn comment_tokens_kept_without_suppression() {
    let mut s = TokenStream::new("; note\nx", false, None);
    assert_eq!(
        s.next(),
        Some(Token {
            ty: TokenType::Comment,
            source: "; note\n",
            span: Span::new(0, 7, None)
        })
    );
    assert_eq!(
        s.next(),
        Some(Token {
            ty: TokenType::Identifier("x"),
            source: "x",
            span: Span::new(7, 8, None)
        })
    );
    assert_eq!(s.next(), None);
}

#[test]
fn source_id_stamped_on_every_token() {
    let mut s = TokenStream::new("a b", true, Some(7));
    assert_eq!(s.next().unwrap().span, Span::new(0, 1, Some(7)));
    assert_eq!(s.next().unwrap().span, Span::new(2, 3, Some(7)));
}

#[test]
fn owned_stream_copies_token_text() {
    let mut s = TokenStream::new("foo #:key 12", true, None).into_owned(OwnedString);
    let first = s.next().unwrap();
    assert_eq!(first.ty, TokenType::Identifier("foo".to_string()));
    assert_eq!(first.source, "foo");
    assert_eq!(first.span, Span::new(0, 3, None));
    let second = s.next().unwrap();
    assert_eq!(second.ty, TokenType::Keyword("#:key".to_string()));
    let third = s.next().unwrap();
    assert_eq!(third.ty, TokenType::IntegerLiteral(MaybeBigInt::Small(12)));
    assert_eq!(s.offset(), 12);
    assert_eq!(s.next(), None);
}

#[test]
fn radix_integers_exact_values() {
    let mut s = TokenStream::new("#x1F #o17 #b101 #x-10", true, None);
    assert_eq!(
        s.next().unwrap().ty,
        TokenType::IntegerLiteral(MaybeBigInt::Small(31))
    );
    assert_eq!(
        s.next().unwrap().ty,
        TokenType::IntegerLiteral(MaybeBigInt::Small(15))
    );
    assert_eq!(
        s.next().unwrap().ty,
        TokenType::IntegerLiteral(MaybeBigInt::Small(5))
    );
    assert_eq!(
        s.next().unwrap().ty,
        TokenType::IntegerLiteral(MaybeBigInt::Small(-16))
    );
}

#[test]
fn radix_integers_arbitrary_precision() {
    // Values beyond the native signed 64-bit range parse with arbitrary
    // precision, equal to the digits' value in that radix.
    let mut s = TokenStream::new("#x80000000000000000 #x-80000000000000000", true, None);
    let expected = MaybeBigInt::parse_decimal("147573952589676412928").unwrap();
    assert!(matches!(expected, MaybeBigInt::Big(_)));
    assert_eq!(s.next().unwrap().ty, TokenType::IntegerLiteral(expected));
    let negative = MaybeBigInt::parse_decimal("-147573952589676412928").unwrap();
    assert_eq!(s.next().unwrap().ty, TokenType::IntegerLiteral(negative));
    assert_eq!(s.next(), None);
}

#[test]
fn radix_errors_are_marked() {
    // Each malformed radix form becomes a single error-marker token.
    let mut s = TokenStream::new("#xZZ", true, None);
    assert_eq!(s.next().unwrap().ty, TokenType::<&str>::Error);
    let mut s = TokenStream::new("#o9", true, None);
    assert_eq!(s.next().unwrap().ty, TokenType::<&str>::Error);
    let mut s = TokenStream::new("#b2", true, None);
    assert_eq!(s.next().unwrap().ty, TokenType::<&str>::Error);
    // An empty digit sequence is malformed too.
    let mut s = TokenStream::new("#x", true, None);
    assert_eq!(s.next().unwrap().ty, TokenType::<&str>::Error);
}

#[test]
fn named_character_table() {
    let cases: [(&str, char); 8] = [
        ("#\\SPACE", ' '),
        ("#\\space", ' '),
        ("#\\NEWLINE", '\n'),
        ("#\\newline", '\n'),
        ("#\\tab", '\t'),
        ("#\\return", '\r'),
        ("#\\(", '('),
        ("#\\^", '^'),
    ];
    for &(source, expected) in cases.iter() {
        let mut s = TokenStream::new(source, true, None);
        let token = s.next().unwrap();
        assert_eq!(token.ty, TokenType::CharacterLiteral(expected));
        assert_eq!(token.span, Span::new(0, source.len(), None));
    }
}

#[test]
fn unicode_escape_character() {
    let mut s = TokenStream::new("#\\u{3BB}", true, None);
    assert_eq!(s.next().unwrap().ty, TokenType::CharacterLiteral('λ'));
    let mut s = TokenStream::new("#\\u{1F600}", true, None);
    assert_eq!(s.next().unwrap().ty, TokenType::CharacterLiteral('\u{1F600}'));
}

#[test]
fn invalid_character_literal() {
    let mut s = TokenStream::new("#\\abc", true, None);
    assert_eq!(s.next().unwrap().ty, TokenType::<&str>::Error);
}

#[test]
fn string_errors() {
    let mut s = TokenStream::new("\"no closing quote", true, None);
    assert_eq!(s.next().unwrap().ty, TokenType::<&str>::Error);
    let mut s = TokenStream::new("\"bad \\q\"", true, None);
    assert_eq!(s.next().unwrap().ty, TokenType::<&str>::Error);
}

#[test]
fn reader_syntax_sigils() {
    let mut s = TokenStream::new("' ` , ,@ #' #` #, #,@", true, None);
    assert_eq!(s.next().unwrap().ty, TokenType::<&str>::QuoteTick);
    assert_eq!(s.next().unwrap().ty, TokenType::<&str>::QuasiQuote);
    assert_eq!(s.next().unwrap().ty, TokenType::<&str>::Unquote);
    assert_eq!(s.next().unwrap().ty, TokenType::<&str>::UnquoteSplice);
    assert_eq!(s.next().unwrap().ty, TokenType::<&str>::QuoteSyntax);
    assert_eq!(s.next().unwrap().ty, TokenType::<&str>::QuasiQuoteSyntax);
    assert_eq!(s.next().unwrap().ty, TokenType::<&str>::UnquoteSyntax);
    assert_eq!(s.next().unwrap().ty, TokenType::<&str>::UnquoteSpliceSyntax);
    assert_eq!(s.next(), None);
}

#[test]
fn reserved_word_table() {
    let source = "define defn let %plain-let return! begin lambda fn quote syntax-rules define-syntax ... set! require if";
    let expected: [TokenType<&str>; 15] = [
        TokenType::Define,
        TokenType::Define,
        TokenType::Let,
        TokenType::TestLet,
        TokenType::Return,
        TokenType::Begin,
        TokenType::Lambda,
        TokenType::Lambda,
        TokenType::Quote,
        TokenType::SyntaxRules,
        TokenType::DefineSyntax,
        TokenType::Ellipses,
        TokenType::SetBang,
        TokenType::Require,
        TokenType::If,
    ];
    let mut s = TokenStream::new(source, true, None);
    for want in expected.iter() {
        assert_eq!(&s.next().unwrap().ty, want);
    }
    assert_eq!(s.next(), None);
}

#[test]
fn plus_minus_asymmetry() {
    // A bare `+` ends immediately as the identifier `+`; a bare `-` reads on
    // as a generic word.
    let mut s = TokenStream::new("+a -a", true, None);
    let first = s.next().unwrap();
    assert_eq!(first.ty, TokenType::Identifier("+"));
    assert_eq!(first.span, Span::new(0, 1, None));
    let second = s.next().unwrap();
    assert_eq!(second.ty, TokenType::Identifier("a"));
    let third = s.next().unwrap();
    assert_eq!(third.ty, TokenType::Identifier("-a"));
    assert_eq!(third.span, Span::new(3, 5, None));
}

#[test]
fn decimal_parse_representation_split() {
    // The inline form exactly covers the native signed 64-bit range.
    let max = MaybeBigInt::parse_decimal("9223372036854775807").unwrap();
    assert_eq!(max, MaybeBigInt::Small(i64::MAX));
    let min = MaybeBigInt::parse_decimal("-9223372036854775808").unwrap();
    assert_eq!(min, MaybeBigInt::Small(i64::MIN));
    let zero = MaybeBigInt::parse_decimal("-0").unwrap();
    assert_eq!(zero, MaybeBigInt::Small(0));
    let padded = MaybeBigInt::parse_decimal("0099").unwrap();
    assert_eq!(padded, MaybeBigInt::Small(99));
    assert_eq!(MaybeBigInt::parse_decimal(""), None);
    assert_eq!(MaybeBigInt::parse_decimal("12a"), None);
    let err = TokenError::IncompleteString;
    assert_eq!(err, TokenError::IncompleteString);
}
