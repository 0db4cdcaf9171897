use slang::error::Error;
use slang::lexer::{lex, Str, Token};
use slang::parser::{parse, Node};

fn ident(s: &str) -> Node {
    Node::Ident(Str::new(s))
}

fn lit_num(n: u32) -> Node {
    Node::LitNum(n)
}

fn lit_str(s: &str) -> Node {
    Node::LitStr(Str::new(s))
}

#[test]
fn parser_test_empty() {
    assert!(parse(&lex("").unwrap()).unwrap() == Node::Program(Vec::new()));
}

#[test]
fn test_simple() {
    assert!(parse(&lex("fn").unwrap()).unwrap() == Node::Program(vec![Node::Fn]));
    assert!(parse(&lex("let").unwrap()).unwrap() == Node::Program(vec![Node::Let]));
    assert!(parse(&lex("+").unwrap()).unwrap() == Node::Program(vec![Node::Plus]));
    assert!(parse(&lex("42").unwrap()).unwrap() == Node::Program(vec![lit_num(42)]));
    assert!(parse(&lex("foo").unwrap()).unwrap() == Node::Program(vec![ident("foo")]));
    assert!(parse(&lex("a b").unwrap()).unwrap() == Node::Program(vec![ident("a"), ident("b")]));
    assert!(
        parse(&lex("(+ 1 2)").unwrap()).unwrap()
            == Node::Program(vec![Node::S(vec![Node::Plus, lit_num(1), lit_num(2)])])
    );
}

#[test]
fn parser_test_realistic() {
    assert!(
        parse(&lex("(print \"Hello world!\")").unwrap()).unwrap()
            == Node::Program(vec![Node::S(vec![Node::Print, lit_str("Hello world!")])])
    );
    assert!(
        parse(&lex("a (let a 42 (fn x (+ x a)))").unwrap()).unwrap()
            == Node::Program(vec![
                ident("a"),
                Node::S(vec![
                    Node::Let,
                    ident("a"),
                    lit_num(42),
                    Node::S(vec![
                        Node::Fn,
                        ident("x"),
                        Node::S(vec![Node::Plus, ident("x"), ident("a")]),
                    ]),
                ]),
            ])
    );
    assert!(
        parse(&lex("((fn x (+ x 42))(+ 3 \"a string\"))").unwrap()).unwrap()
            == Node::Program(vec![Node::S(vec![
                Node::S(vec![
                    Node::Fn,
                    ident("x"),
                    Node::S(vec![Node::Plus, ident("x"), lit_num(42)]),
                ]),
                Node::S(vec![Node::Plus, lit_num(3), lit_str("a string")]),
            ])])
    );
}

#[test]
#[should_panic]
fn test_fail_unclosed() {
    parse(&lex("(").unwrap()).unwrap();
}

#[test]
#[should_panic]
fn test_fail_unclosed2() {
    parse(&lex("((fn x a) baz 42 ").unwrap()).unwrap();
}

#[test]
#[should_panic]
fn test_fail_too_closed() {
    parse(&lex("(baz 42 ))").unwrap()).unwrap();
}

#[test]
#[should_panic]
fn test_fail_too_closed2() {
    parse(&lex(")").unwrap()).unwrap();
}

#[test]
fn parser_error_kinds() {
    assert!(parse(&lex("(").unwrap()) == Err(Error::UnclosedForm));
    assert!(parse(&lex(")").unwrap()) == Err(Error::UnexpectedKet));
    assert!(parse(&lex("(baz 42 ))").unwrap()) == Err(Error::UnexpectedKet));
    assert!(parse(&[Token::Keyword("bogus")]) == Err(Error::BadKeyword));
}

#[test]
fn parser_balanced_input_builds() {
    // a balanced token sequence always builds, with one form per `(`
    let t = parse(&lex("(baz (qux 1) ()) (fn)").unwrap()).unwrap();
    match t {
        Node::Program(entries) => assert!(entries.len() == 2),
        _ => panic!("expected a program"),
    }
}

#[test]
fn parser_node_queries() {
    assert!(Node::Plus.is_keyword());
    assert!(Node::Macro.is_keyword());
    assert!(!ident("x").is_keyword());
    assert!(lit_num(1).is_value());
    assert!(lit_str("a").is_value());
    assert!(Node::S(vec![]).is_value());
    assert!(Node::S(vec![Node::Fn, ident("x"), ident("x")]).is_value());
    assert!(!Node::S(vec![Node::Plus]).is_value());
    assert!(lit_num(7).expect_lit_num() == 7);
    assert!(ident("abc").expect_ident() == &Str::new("abc"));
}
