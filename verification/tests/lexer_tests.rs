use steel_parser::lexer::TokenStream;
use steel_parser::numbers::MaybeBigInt;
use steel_parser::tokens::Span;
use steel_parser::tokens::Token;
use steel_parser::tokens::TokenType::{
    BooleanLiteral, CharacterLiteral, CloseParen, FractionLiteral, Identifier, IntegerLiteral,
    NumberLiteral, OpenParen, StringLiteral,
};

#[test]
fn test_identifier_with_quote_end() {
    let mut s = TokenStream::new(
        "        (define (stream-cdr stream)
            ((stream-cdr' stream)))
",
        true,
        None,
    );

    while let Some(token) = s.next() {
        println!("{:?}", token);
    }
}

#[test]
fn test_bracket_characters() {
    let mut s = TokenStream::new(
        "[(equal? #\\[ (car chars)) (b (cdr chars) (+ sum 1))]",
        true,
        None,
    );

    while let Some(token) = s.next() {
        println!("{:?}", token);
    }
}

#[test]
fn test_escape_in_string() {
    let mut s = TokenStream::new(r#"(display "}\n")"#, true, None);

    while let Some(token) = s.next() {
        println!("{:?}", token);
    }
}

#[test]
fn test_quote_within_word() {
    let mut s = TokenStream::new("'foo\\'a", true, None);

    println!("{:?}", s.next());
    println!("{:?}", s.next());
    println!("{:?}", s.next());
}

#[test]
fn test_single_period() {
    let mut s = TokenStream::new(".", true, None);

    println!("{:?}", s.next());
}

#[test]
fn test_chars() {
    let mut s = TokenStream::new("#\\a #\\b #\\λ", true, None);

    assert_eq!(
        s.next(),
        Some(Token {
            ty: CharacterLiteral('a'),
            source: "#\\a",
            span: Span::new(0, 3, None)
        })
    );
    assert_eq!(
        s.next(),
        Some(Token {
            ty: CharacterLiteral('b'),
            source: "#\\b",
            span: Span::new(4, 7, None)
        })
    );
    assert_eq!(
        s.next(),
        Some(Token {
            ty: CharacterLiteral('λ'),
            source: "#\\λ",
            span: Span::new(8, 12, None)
        })
    );
}

#[test]
fn test_unexpected_char() {
    let mut s = TokenStream::new("($)", true, None);
    assert_eq!(
        s.next(),
        Some(Token {
            ty: OpenParen,
            source: "(",
            span: Span::new(0, 1, None)
        })
    );
    assert_eq!(
        s.next(),
        Some(Token {
            ty: Identifier("$"),
            source: "$",
            span: Span::new(1, 2, None)
        })
    );
    assert_eq!(
        s.next(),
        Some(Token {
            ty: CloseParen,
            source: ")",
            span: Span::new(2, 3, None)
        })
    );
}

#[test]
fn test_words() {
    let mut s = TokenStream::new("foo FOO _123_ Nil #f #t", true, None);

    assert_eq!(
        s.next(),
        Some(Token {
            ty: Identifier("foo"),
            source: "foo",
            span: Span::new(0, 3, None)
        })
    );

    assert_eq!(
        s.next(),
        Some(Token {
            ty: Identifier("FOO"),
            source: "FOO",
            span: Span::new(4, 7, None)
        })
    );

    assert_eq!(
        s.next(),
        Some(Token {
            ty: Identifier("_123_"),
            source: "_123_",
            span: Span::new(8, 13, None)
        })
    );

    assert_eq!(
        s.next(),
        Some(Token {
            ty: Identifier("Nil"),
            source: "Nil",
            span: Span::new(14, 17, None)
        })
    );

    assert_eq!(
        s.next(),
        Some(Token {
            ty: BooleanLiteral(false),
            source: "#f",
            span: Span::new(18, 20, None)
        })
    );

    assert_eq!(
        s.next(),
        Some(Token {
            ty: BooleanLiteral(true),
            source: "#t",
            span: Span::new(21, 23, None)
        })
    );

    assert_eq!(s.next(), None);
}

#[test]
fn test_almost_literals() {
    let mut s = TokenStream::new("1e 1ee 1.2e5.4 1E10/4 1.45# 3- e10", true, None);
    let mut got = Vec::new();
    while let Some(token) = s.next() {
        got.push(token);
    }
    assert_eq!(
        got.as_slice(),
        &[
            Token {
                ty: Identifier("1e"),
                source: "1e",
                span: Span::new(0, 2, None),
            },
            Token {
                ty: Identifier("1ee"),
                source: "1ee",
                span: Span::new(3, 6, None),
            },
            Token {
                ty: Identifier("1.2e5.4"),
                source: "1.2e5.4",
                span: Span::new(7, 14, None),
            },
            Token {
                ty: Identifier("1E10/4"),
                source: "1E10/4",
                span: Span::new(15, 21, None),
            },
            Token {
                ty: Identifier("1.45#"),
                source: "1.45#",
                span: Span::new(22, 27, None),
            },
            Token {
                ty: Identifier("3-"),
                source: "3-",
                span: Span::new(28, 30, None),
            },
            Token {
                ty: Identifier("e10"),
                source: "e10",
                span: Span::new(31, 34, None),
            },
        ]
    );
}

#[test]
fn test_number() {
    let mut s = TokenStream::new("0 -0 -1.2 +2.3 999 1. 1e2 1E2 1.2e2 1.2E2", true, None);
    let mut got = Vec::new();
    while let Some(token) = s.next() {
        got.push(token);
    }
    assert_eq!(got.len(), 10);
    assert_eq!(
        got[0],
        Token {
            ty: IntegerLiteral(MaybeBigInt::Small(0)),
            source: "0",
            span: Span::new(0, 1, None),
        }
    );
    assert_eq!(
        got[1],
        Token {
            ty: IntegerLiteral(MaybeBigInt::Small(0)),
            source: "-0",
            span: Span::new(2, 4, None),
        }
    );
    let floats: [(usize, &str, f64, usize, usize); 8] = [
        (2, "-1.2", -1.2, 5, 9),
        (3, "+2.3", 2.3, 10, 14),
        (4, "999", 999.0, 15, 18),
        (5, "1.", 1.0, 19, 21),
        (6, "1e2", 100.0, 22, 25),
        (7, "1E2", 100.0, 26, 29),
        (8, "1.2e2", 120.0, 30, 35),
        (9, "1.2E2", 120.0, 36, 41),
    ];
    for &(idx, source, value, start, end) in floats.iter() {
        let token = &got[idx];
        assert_eq!(token.source, source);
        assert_eq!(token.span, Span::new(start, end, None));
        match &token.ty {
            NumberLiteral(text) => {
                assert_eq!(text.parse::<f64>().unwrap(), value);
            }
            IntegerLiteral(m) => {
                assert_eq!(*m, MaybeBigInt::Small(value as i64));
            }
            other => panic!("unexpected token class {:?}", other),
        }
    }
}

#[test]
fn test_fractions() {
    let mut s = TokenStream::new(
        r#"
                1/4
                (1/4 1/3)
                11111111111111111111/22222222222222222222
                /
                1/
                1/4.0
                1//4
                1 / 4
"#,
        true,
        None,
    );
    let mut got = Vec::new();
    while let Some(token) = s.next() {
        got.push(token);
    }
    assert_eq!(
        got.as_slice(),
        &[
            Token {
                ty: FractionLiteral(MaybeBigInt::Small(1), MaybeBigInt::Small(4)),
                source: "1/4",
                span: Span::new(17, 20, None),
            },
            Token {
                ty: OpenParen,
                source: "(",
                span: Span::new(37, 38, None),
            },
            Token {
                ty: FractionLiteral(MaybeBigInt::Small(1), MaybeBigInt::Small(4)),
                source: "1/4",
                span: Span::new(38, 41, None),
            },
            Token {
                ty: FractionLiteral(MaybeBigInt::Small(1), MaybeBigInt::Small(3)),
                source: "1/3",
                span: Span::new(42, 45, None),
            },
            Token {
                ty: CloseParen,
                source: ")",
                span: Span::new(45, 46, None),
            },
            Token {
                ty: FractionLiteral(
                    MaybeBigInt::parse_decimal("11111111111111111111").unwrap(),
                    MaybeBigInt::parse_decimal("22222222222222222222").unwrap(),
                ),
                source: "11111111111111111111/22222222222222222222",
                span: Span::new(63, 104, None),
            },
            Token {
                ty: Identifier("/"),
                source: "/",
                span: Span::new(121, 122, None),
            },
            Token {
                ty: Identifier("1/"),
                source: "1/",
                span: Span::new(139, 141, None),
            },
            Token {
                ty: Identifier("1/4.0"),
                source: "1/4.0",
                span: Span::new(158, 163, None),
            },
            Token {
                ty: Identifier("1//4"),
                source: "1//4",
                span: Span::new(180, 184, None),
            },
            Token {
                ty: IntegerLiteral(MaybeBigInt::Small(1)),
                source: "1",
                span: Span::new(201, 202, None),
            },
            Token {
                ty: Identifier("/"),
                source: "/",
                span: Span::new(203, 204, None),
            },
            Token {
                ty: IntegerLiteral(MaybeBigInt::Small(4)),
                source: "4",
                span: Span::new(205, 206, None),
            },
        ]
    );
}

#[test]
fn test_string() {
    let mut s = TokenStream::new(r#" "" "Foo bar" "\"\\" "#, true, None);
    let mut got = Vec::new();
    while let Some(token) = s.next() {
        got.push(token);
    }
    assert_eq!(
        got.as_slice(),
        &[
            Token {
                ty: StringLiteral(r#""#.to_string()),
                source: r#""""#,
                span: Span::new(1, 3, None),
            },
            Token {
                ty: StringLiteral(r#"Foo bar"#.to_string()),
                source: r#""Foo bar""#,
                span: Span::new(4, 13, None),
            },
            Token {
                ty: StringLiteral(r#""\"#.to_string()),
                source: r#""\"\\""#,
                span: Span::new(14, 20, None),
            },
        ]
    );
}

#[test]
fn test_comment() {
    let mut s = TokenStream::new(";!/usr/bin/gate\n   ; foo\n", true, None);
    assert_eq!(s.next(), None);
}

#[test]
fn function_definition() {
    let mut s = TokenStream::new(
        "(define odd-rec? (lambda (x) (if (= x 0) #f (even-rec? (- x 1)))))",
        true,
        None,
    );
    let mut res = Vec::new();
    while let Some(token) = s.next() {
        res.push(token);
    }

    println!("{:#?}", res);
}

#[test]
fn lex_string_with_escape_chars() {
    let mut s = TokenStream::new("\"\0\0\0\"", true, None);
    let mut res = Vec::new();
    while let Some(token) = s.next() {
        res.push(token);
    }
    println!("{:#?}", res);
}

#[test]
fn scheme_statement() {
    let mut s = TokenStream::new("(apples (function a b) (+ a b))", true, None);
    let mut res = Vec::new();
    while let Some(token) = s.next() {
        res.push(token);
    }

    let expected: Vec<Token<&str>> = vec![
        Token {
            ty: OpenParen,
            source: "(",
            span: Span::new(0, 1, None),
        },
        Token {
            ty: Identifier("apples"),
            source: "apples",
            span: Span::new(1, 7, None),
        },
        Token {
            ty: OpenParen,
            source: "(",
            span: Span::new(8, 9, None),
        },
        Token {
            ty: Identifier("function"),
            source: "function",
            span: Span::new(9, 17, None),
        },
        Token {
            ty: Identifier("a"),
            source: "a",
            span: Span::new(18, 19, None),
        },
        Token {
            ty: Identifier("b"),
            source: "b",
            span: Span::new(20, 21, None),
        },
        Token {
            ty: CloseParen,
            source: ")",
            span: Span::new(21, 22, None),
        },
        Token {
            ty: OpenParen,
            source: "(",
            span: Span::new(23, 24, None),
        },
        Token {
            ty: Identifier("+"),
            source: "+",
            span: Span::new(24, 25, None),
        },
        Token {
            ty: Identifier("a"),
            source: "a",
            span: Span::new(26, 27, None),
        },
        Token {
            ty: Identifier("b"),
            source: "b",
            span: Span::new(28, 29, None),
        },
        Token {
            ty: CloseParen,
            source: ")",
            span: Span::new(29, 30, None),
        },
        Token {
            ty: CloseParen,
            source: ")",
            span: Span::new(30, 31, None),
        },
    ];

    assert_eq!(res, expected);
}

#[test]
fn test_bigint() {
    let mut s = TokenStream::new("9223372036854775808", true, None); // isize::MAX + 1
    let mut res = Vec::new();
    while let Some(token) = s.next() {
        res.push(token);
    }

    let expected_bigint = MaybeBigInt::parse_decimal("9223372036854775808").unwrap();
    assert!(matches!(expected_bigint, MaybeBigInt::Big(_)));

    let expected: Vec<Token<&str>> = vec![Token {
        ty: IntegerLiteral(expected_bigint),
        source: "9223372036854775808",
        span: Span::new(0, 19, None),
    }];

    assert_eq!(res, expected);
}

#[test]
fn negative_test_bigint() {
    let mut s = TokenStream::new("-9223372036854775809", true, None); // isize::MIN - 1
    let mut res = Vec::new();
    while let Some(token) = s.next() {
        res.push(token);
    }

    let expected_bigint = MaybeBigInt::parse_decimal("-9223372036854775809").unwrap();
    assert!(matches!(expected_bigint, MaybeBigInt::Big(_)));

    let expected: Vec<Token<&str>> = vec![Token {
        ty: IntegerLiteral(expected_bigint),
        source: "-9223372036854775809",
        span: Span::new(0, 20, None),
    }];

    assert_eq!(res, expected);
}
