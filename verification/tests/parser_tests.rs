use steel_parser::lexer::TokenError;
use steel_parser::numbers::MaybeBigInt;
use steel_parser::parser::Expr::{self, Atom, ListVal};
use steel_parser::parser::{ParseError, Parser};
use steel_parser::tokens::TokenType::{
    self, BooleanLiteral, Define, Identifier, If, IntegerLiteral, Lambda, NumberLiteral, SetBang,
    StringLiteral,
};

fn int_tok(v: i64) -> TokenType<String> {
    IntegerLiteral(MaybeBigInt::Small(v))
}

fn float(text: &str) -> TokenType<String> {
    NumberLiteral(text.to_string())
}

fn collect(s: &str) -> Result<Vec<Expr>, ParseError> {
    let mut parser = Parser::new(s);
    let mut out = Vec::new();
    while let Some(item) = parser.next() {
        out.push(item?);
    }
    Ok(out)
}

fn assert_parse(s: &str, result: &[Expr]) {
    let a = collect(s).unwrap();
    assert_eq!(a, result);
}

fn assert_parse_err(s: &str, err: ParseError) {
    let a = collect(s);
    assert_eq!(a, Err(err));
}

#[test]
fn test_empty() {
    assert_parse("", &[]);
    assert_parse("()", &[ListVal(vec![])]);
}

#[test]
fn test_multi_parse() {
    assert_parse(
        "a b +",
        &[
            Atom(Identifier("a".to_string())),
            Atom(Identifier("b".to_string())),
            Atom(Identifier("+".to_string())),
        ],
    );
    assert_parse(
        "a b (lambda  1 (+ 2 3.5))",
        &[
            Atom(Identifier("a".to_string())),
            Atom(Identifier("b".to_string())),
            ListVal(vec![
                Atom(Lambda),
                Atom(int_tok(1)),
                ListVal(vec![
                    Atom(Identifier("+".to_string())),
                    Atom(int_tok(2)),
                    Atom(float("3.5")),
                ]),
            ]),
        ],
    )
}

#[test]
fn test_parse_simple() {
    assert_parse(
        "(+ 1 2 3) (- 4 3)",
        &[
            ListVal(vec![
                Atom(Identifier("+".to_string())),
                Atom(int_tok(1)),
                Atom(int_tok(2)),
                Atom(int_tok(3)),
            ]),
            ListVal(vec![
                Atom(Identifier("-".to_string())),
                Atom(int_tok(4)),
                Atom(int_tok(3)),
            ]),
        ],
    );
}

#[test]
fn test_parse_nested() {
    assert_parse(
        "(+ 1 (foo (bar 2 3)))",
        &[ListVal(vec![
            Atom(Identifier("+".to_string())),
            Atom(int_tok(1)),
            ListVal(vec![
                Atom(Identifier("foo".to_string())),
                ListVal(vec![
                    Atom(Identifier("bar".to_owned())),
                    Atom(int_tok(2)),
                    Atom(int_tok(3)),
                ]),
            ]),
        ])],
    );
    assert_parse(
        "(+ 1 (+ 2 3) (foo (bar 2 3)))",
        &[ListVal(vec![
            Atom(Identifier("+".to_string())),
            Atom(int_tok(1)),
            ListVal(vec![
                Atom(Identifier("+".to_string())),
                Atom(int_tok(2)),
                Atom(int_tok(3)),
            ]),
            ListVal(vec![
                Atom(Identifier("foo".to_string())),
                ListVal(vec![
                    Atom(Identifier("bar".to_owned())),
                    Atom(int_tok(2)),
                    Atom(int_tok(3)),
                ]),
            ]),
        ])],
    );
    assert_parse(
        "(+ 1 (+ 2 3) (foo (+ (bar 1 1) 3) 5))",
        &[ListVal(vec![
            Atom(Identifier("+".to_string())),
            Atom(int_tok(1)),
            ListVal(vec![
                Atom(Identifier("+".to_string())),
                Atom(int_tok(2)),
                Atom(int_tok(3)),
            ]),
            ListVal(vec![
                Atom(Identifier("foo".to_string())),
                ListVal(vec![
                    Atom(Identifier("+".to_string())),
                    ListVal(vec![
                        Atom(Identifier("bar".to_string())),
                        Atom(int_tok(1)),
                        Atom(int_tok(1)),
                    ]),
                    Atom(int_tok(3)),
                ]),
                Atom(int_tok(5)),
            ]),
        ])],
    );
}

#[test]
fn test_parse_specials() {
    assert_parse(
        "(define (foo a b) (+ (- a 1) b))",
        &[ListVal(vec![
            Atom(Define),
            ListVal(vec![
                Atom(Identifier("foo".to_string())),
                Atom(Identifier("a".to_string())),
                Atom(Identifier("b".to_string())),
            ]),
            ListVal(vec![
                Atom(Identifier("+".to_string())),
                ListVal(vec![
                    Atom(Identifier("-".to_string())),
                    Atom(Identifier("a".to_string())),
                    Atom(int_tok(1)),
                ]),
                Atom(Identifier("b".to_string())),
            ]),
        ])],
    );

    assert_parse(
        "(if   #t     1 2)",
        &[ListVal(vec![
            Atom(If),
            Atom(BooleanLiteral(true)),
            Atom(int_tok(1)),
            Atom(int_tok(2)),
        ])],
    );
    assert_parse(
        "(lambda (a b) (+ a b)) (- 1 2) (\"dumpsterfire\")",
        &[
            ListVal(vec![
                Atom(Lambda),
                ListVal(vec![
                    Atom(Identifier("a".to_string())),
                    Atom(Identifier("b".to_string())),
                ]),
                ListVal(vec![
                    Atom(Identifier("+".to_string())),
                    Atom(Identifier("a".to_string())),
                    Atom(Identifier("b".to_string())),
                ]),
            ]),
            ListVal(vec![
                Atom(Identifier("-".to_string())),
                Atom(int_tok(1)),
                Atom(int_tok(2)),
            ]),
            ListVal(vec![Atom(StringLiteral("dumpsterfire".to_string()))]),
        ],
    );
}

#[test]
fn test_error() {
    assert_parse_err("(", ParseError::UnexpectedEOF);
    assert_parse_err("(abc", ParseError::UnexpectedEOF);
    assert_parse_err("(ab 1 2", ParseError::UnexpectedEOF);
    assert_parse_err("((((ab 1 2) (", ParseError::UnexpectedEOF);
    assert_parse_err("())", ParseError::Unexpected(TokenType::CloseParen));
    assert_parse_err("() ((((", ParseError::UnexpectedEOF);
}

#[test]
fn reserved_word_standalone_is_unexpected() {
    assert_parse_err("define", ParseError::Unexpected(Define));
    assert_parse_err("set!", ParseError::Unexpected(SetBang));
}

#[test]
fn lexical_error_propagates_through_parser() {
    assert_parse_err(
        "(\"unterminated",
        ParseError::TokenError(TokenError::IncompleteString),
    );
    assert_parse_err(
        "(a \"bad \\q escape\")",
        ParseError::TokenError(TokenError::InvalidEscape),
    );
}
