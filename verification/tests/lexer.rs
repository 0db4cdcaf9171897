use slang::lexer::{lex, Str, Token};

#[test]
fn lexer_test_empty() {
    assert!(lex("").unwrap() == vec![]);
}

#[test]
fn test_single() {
    assert!(lex("(").unwrap() == vec![Token::Bra]);
    assert!(lex(")").unwrap() == vec![Token::Ket]);
    assert!(lex("let").unwrap() == vec![Token::Keyword("let")]);
    assert!(lex("print").unwrap() == vec![Token::Keyword("print")]);
    assert!(lex("+").unwrap() == vec![Token::Keyword("+")]);
    assert!(lex("\"\"").unwrap() == vec![Token::Str(Str::new(""))]);
    assert!(lex("\"foo\"").unwrap() == vec![Token::Str(Str::new("foo"))]);
    assert!(lex("\"foo + 3 + bar\"").unwrap() == vec![Token::Str(Str::new("foo + 3 + bar"))]);
    assert!(lex("0").unwrap() == vec![Token::Number(0)]);
    assert!(lex("1").unwrap() == vec![Token::Number(1)]);
    assert!(lex("42").unwrap() == vec![Token::Number(42)]);
    assert!(lex("foo").unwrap() == vec![Token::Name(Str::new("foo"))]);
    assert!(lex("FOO").unwrap() == vec![Token::Name(Str::new("FOO"))]);
    assert!(lex("Bar").unwrap() == vec![Token::Name(Str::new("Bar"))]);
    assert!(lex("qux42").unwrap() == vec![Token::Name(Str::new("qux42"))]);
}

#[test]
fn test_single_ws() {
    assert!(lex("    \n  ").unwrap() == vec![]);
    assert!(lex(" (").unwrap() == vec![Token::Bra]);
    assert!(lex(") ").unwrap() == vec![Token::Ket]);
    assert!(lex("let  ").unwrap() == vec![Token::Keyword("let")]);
    assert!(lex("print\n").unwrap() == vec![Token::Keyword("print")]);
    assert!(lex(" \n   +").unwrap() == vec![Token::Keyword("+")]);
    assert!(lex("\n\n\"\"").unwrap() == vec![Token::Str(Str::new(""))]);
    assert!(lex(" \"foo\" ").unwrap() == vec![Token::Str(Str::new("foo"))]);
    assert!(
        lex("     \"foo + 3 + bar\"\n  \n ").unwrap()
            == vec![Token::Str(Str::new("foo + 3 + bar"))]
    );
}

#[test]
fn test_two() {
    assert!(lex("()").unwrap() == vec![Token::Bra, Token::Ket]);
    assert!(lex("))").unwrap() == vec![Token::Ket, Token::Ket]);
    assert!(lex("let(").unwrap() == vec![Token::Keyword("let"), Token::Bra]);
    assert!(lex("print)").unwrap() == vec![Token::Keyword("print"), Token::Ket]);
    assert!(lex("foo\"\"").unwrap() == vec![Token::Name(Str::new("foo")), Token::Str(Str::new(""))]);
    assert!(
        lex("\"foo\"foo").unwrap() == vec![Token::Str(Str::new("foo")), Token::Name(Str::new("foo"))]
    );
    assert!(
        lex("\"foo + 3 + bar\"+").unwrap()
            == vec![Token::Str(Str::new("foo + 3 + bar")), Token::Keyword("+")]
    );
    assert!(lex("0foo").unwrap() == vec![Token::Number(0), Token::Name(Str::new("foo"))]);
}

#[test]
fn test_two_ws() {
    assert!(lex("( )").unwrap() == vec![Token::Bra, Token::Ket]);
    assert!(lex(") )").unwrap() == vec![Token::Ket, Token::Ket]);
    assert!(lex("let\n(").unwrap() == vec![Token::Keyword("let"), Token::Bra]);
    assert!(lex("+\n+").unwrap() == vec![Token::Keyword("+"), Token::Keyword("+")]);
    assert!(lex("print      )").unwrap() == vec![Token::Keyword("print"), Token::Ket]);
    assert!(
        lex("foo \"\"").unwrap() == vec![Token::Name(Str::new("foo")), Token::Str(Str::new(""))]
    );
    assert!(
        lex("\"foo\" foo").unwrap()
            == vec![Token::Str(Str::new("foo")), Token::Name(Str::new("foo"))]
    );
    assert!(
        lex("\"foo + 3 + bar\" +").unwrap()
            == vec![Token::Str(Str::new("foo + 3 + bar")), Token::Keyword("+")]
    );
    assert!(lex("0\n\nfoo").unwrap() == vec![Token::Number(0), Token::Name(Str::new("foo"))]);
    assert!(lex("foo 42").unwrap() == vec![Token::Name(Str::new("foo")), Token::Number(42)]);
}

#[test]
fn lexer_test_realistic() {
    assert!(
        lex("(print \"Hello world!\")").unwrap()
            == vec![
                Token::Bra,
                Token::Keyword("print"),
                Token::Str(Str::new("Hello world!")),
                Token::Ket,
            ]
    );
    assert!(
        lex("a (let a 42 (fn x (+ x a)))").unwrap()
            == vec![
                Token::Name(Str::new("a")),
                Token::Bra,
                Token::Keyword("let"),
                Token::Name(Str::new("a")),
                Token::Number(42),
                Token::Bra,
                Token::Keyword("fn"),
                Token::Name(Str::new("x")),
                Token::Bra,
                Token::Keyword("+"),
                Token::Name(Str::new("x")),
                Token::Name(Str::new("a")),
                Token::Ket,
                Token::Ket,
                Token::Ket,
            ]
    );
    assert!(
        lex("((fn x (+ x 42)) (+ 3 \"a string\"))").unwrap()
            == vec![
                Token::Bra,
                Token::Bra,
                Token::Keyword("fn"),
                Token::Name(Str::new("x")),
                Token::Bra,
                Token::Keyword("+"),
                Token::Name(Str::new("x")),
                Token::Number(42),
                Token::Ket,
                Token::Ket,
                Token::Bra,
                Token::Keyword("+"),
                Token::Number(3),
                Token::Str(Str::new("a string")),
                Token::Ket,
                Token::Ket,
            ]
    );
}

#[test]
fn lexer_keyword_macro() {
    assert!(lex("macro").unwrap() == vec![Token::Keyword("macro")]);
}

#[test]
fn lexer_number_overflow() {
    assert!(lex("4294967295").unwrap() == vec![Token::Number(4294967295)]);
    assert!(lex("4294967296").is_err());
    assert!(lex("99999999999999999999").is_err());
}
