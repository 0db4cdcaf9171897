use slang::error::Error;
use slang::expand::{fold, NoopFolder, Unhygienic};
use slang::lexer::{lex, Str};
use slang::parser::{parse, Node};

fn ident(s: &str) -> Node {
    Node::Ident(Str::new(s))
}

fn lit_num(n: u32) -> Node {
    Node::LitNum(n)
}

fn lit_str(s: &str) -> Node {
    Node::LitStr(Str::new(s))
}

#[test]
fn test_noop() {
    let noop = &mut NoopFolder;
    let p = Node::Program(vec![]);
    assert!(p.clone() == fold(&p, noop).unwrap());
    let p = Node::Program(vec![Node::S(vec![Node::Print, lit_str("Hello world!")])]);
    assert!(p.clone() == fold(&p, noop).unwrap());
    let p = Node::Program(vec![
        ident("a"),
        Node::S(vec![
            Node::Let,
            ident("a"),
            lit_num(42),
            Node::S(vec![
                Node::Fn,
                ident("x"),
                Node::S(vec![Node::Plus, ident("x"), ident("a")]),
            ]),
        ]),
    ]);
    assert!(p.clone() == fold(&p, noop).unwrap());
    let p = Node::Program(vec![Node::S(vec![
        Node::S(vec![
            Node::Fn,
            ident("x"),
            Node::S(vec![Node::Plus, ident("x"), lit_num(42)]),
        ]),
        Node::S(vec![Node::Plus, lit_num(3), lit_str("a string")]),
    ])]);
    assert!(p.clone() == fold(&p, noop).unwrap());
}

fn expand_text(text: &str) -> Result<Node, Error> {
    let toks = lex(text).unwrap();
    let ast = parse(&toks).unwrap();
    fold(&ast, &mut Unhygienic::new())
}

#[test]
fn expand_definition_becomes_empty_form() {
    let t = expand_text("(macro m x (+ x 1))").unwrap();
    assert!(t == Node::Program(vec![Node::S(vec![])]));
}

#[test]
fn expand_invocation_substitutes_arguments() {
    let t = expand_text("(macro m x (+ x 1)) (m 41)").unwrap();
    assert!(
        t == Node::Program(vec![
            Node::S(vec![]),
            Node::S(vec![Node::Plus, lit_num(41), lit_num(1)]),
        ])
    );
}

#[test]
fn expand_unregistered_form_descends() {
    let t = expand_text("(macro m x x) (f (m 5))").unwrap();
    assert!(
        t == Node::Program(vec![
            Node::S(vec![]),
            Node::S(vec![ident("f"), lit_num(5)]),
        ])
    );
}

#[test]
fn expand_arity_mismatch_fails() {
    assert!(expand_text("(macro m x x) (m 1 2)") == Err(Error::MacroArity));
}

#[test]
fn expand_short_definition_fails() {
    assert!(expand_text("(macro m)") == Err(Error::MalformedMacro));
}

#[test]
fn expand_stray_macro_keyword_fails() {
    assert!(expand_text("(foo macro)") == Err(Error::BareMacro));
}
