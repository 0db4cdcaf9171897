use slang::interpreter::{run_node, run_program, Envr, EVAL_FUEL};
use slang::lexer::Str;
use slang::parser::Node;

fn ident(s: &str) -> Node {
    Node::Ident(Str::new(s))
}

fn lit_num(n: u32) -> Node {
    Node::LitNum(n)
}

fn lit_str(s: &str) -> Node {
    Node::LitStr(Str::new(s))
}

fn eval(n: &Node, envr: &mut Envr) -> Node {
    let mut out: Vec<String> = Vec::new();
    run_node(n, envr, &mut out, EVAL_FUEL).unwrap()
}

#[test]
fn interpreter_test_empty() {
    let mut out: Vec<String> = Vec::new();
    assert!(run_program(&Node::Program(vec![]), &mut out).unwrap() == vec![]);
}

#[test]
fn test_values() {
    let mut out: Vec<String> = Vec::new();
    assert!(
        run_program(&Node::Program(vec![lit_str("foo"), lit_num(42)]), &mut out).unwrap()
            == vec![lit_str("foo"), lit_num(42)]
    );
    let envr = &mut Envr::new();
    assert!(eval(&lit_str("foo"), envr) == lit_str("foo"));
    let s = Node::S(vec![
        Node::Fn,
        ident("x"),
        Node::S(vec![Node::Plus, ident("x"), lit_num(42)]),
    ]);
    assert!(eval(&s, envr) == s);
    let s = Node::S(vec![]);
    assert!(eval(&s, envr) == s);
}

#[test]
fn test_print() {
    let envr = &mut Envr::new();
    let s = Node::S(vec![Node::Print, lit_str("Hello world!")]);
    assert!(eval(&s, envr) == Node::S(vec![]));
}

#[test]
fn interpreter_print_output_lines() {
    let envr = &mut Envr::new();
    let mut out: Vec<String> = Vec::new();
    let s = Node::S(vec![Node::Print, lit_str("Hello world!"), lit_num(42)]);
    assert!(run_node(&s, envr, &mut out, EVAL_FUEL).unwrap() == Node::S(vec![]));
    assert!(out == vec!["Hello world!".to_string(), "42".to_string()]);
}

#[test]
fn test_plus() {
    let envr = &mut Envr::new();
    let s = Node::S(vec![Node::Plus, lit_num(3)]);
    assert!(eval(&s, envr) == lit_num(3));
    let s = Node::S(vec![Node::Plus, lit_num(3), lit_num(1)]);
    assert!(eval(&s, envr) == lit_num(4));
    let s = Node::S(vec![Node::Plus, lit_num(3), lit_num(1), lit_num(1), lit_num(1)]);
    assert!(eval(&s, envr) == lit_num(6));
}

#[test]
#[should_panic]
fn test_plus_fail() {
    let envr = &mut Envr::new();
    let s = Node::S(vec![Node::Plus, lit_num(3), Node::S(vec![])]);
    eval(&s, envr);
}

#[test]
fn test_ident() {
    let envr = &mut Envr::with_value("x", lit_num(42));
    assert!(eval(&ident("x"), envr) == lit_num(42));
}

#[test]
#[should_panic]
fn test_ident_fail() {
    let envr = &mut Envr::with_value("x", lit_num(42));
    eval(&ident("y"), envr);
}

#[test]
fn test_envr_push_pop() {
    let envr = &mut Envr::new();
    envr.push_rib();
    envr.store(&Str::new("x"), lit_num(0)).unwrap();
    envr.push_rib();
    envr.store(&Str::new("x"), lit_num(42)).unwrap();
    assert!(envr.lookup(&Str::new("x")) == Some(lit_num(42)));
    assert!(envr.lookup(&Str::new("y")) == None);
    envr.pop_rib();
    assert!(envr.lookup(&Str::new("x")) == Some(lit_num(0)));
    assert!(envr.lookup(&Str::new("y")) == None);
    envr.pop_rib();
    assert!(envr.lookup(&Str::new("x")) == None);
    assert!(envr.lookup(&Str::new("y")) == None);
}

#[test]
#[should_panic]
fn test_ident_dup_fail() {
    let envr = &mut Envr::with_value("x", lit_num(42));
    envr.store(&Str::new("x"), lit_num(42)).unwrap();
}

#[test]
fn test_scoped_ident() {
    let envr = &mut Envr::with_value("x", lit_num(0));
    envr.push_rib();
    envr.store(&Str::new("x"), lit_num(42)).unwrap();
    assert!(eval(&ident("x"), envr) == lit_num(42));
}

#[test]
fn test_let() {
    let envr = &mut Envr::new();
    // trivial
    assert!(eval(&Node::S(vec![Node::Let, Node::S(vec![])]), envr) == Node::S(vec![]));
    assert!(eval(&Node::S(vec![Node::Let, lit_num(42)]), envr) == lit_num(42));
    // easy
    assert!(
        eval(&Node::S(vec![Node::Let, ident("x"), lit_num(42), ident("x")]), envr) == lit_num(42)
    );
    assert!(
        eval(
            &Node::S(vec![
                Node::Let,
                ident("x"),
                lit_num(42),
                Node::S(vec![Node::Plus, ident("x"), lit_num(42)]),
            ]),
            envr,
        ) == lit_num(84)
    );
    // multiple
    assert!(
        eval(
            &Node::S(vec![
                Node::Let,
                ident("x"),
                lit_num(3),
                ident("y"),
                lit_num(4),
                Node::S(vec![Node::Plus, ident("x"), ident("y")]),
            ]),
            envr,
        ) == lit_num(7)
    );
    // scoped
    assert!(
        eval(
            &Node::S(vec![
                Node::Let,
                ident("x"),
                lit_num(0),
                Node::S(vec![Node::Let, ident("x"), lit_num(42), ident("x")]),
            ]),
            envr,
        ) == lit_num(42)
    );
    // uses earlier
    assert!(
        eval(
            &Node::S(vec![
                Node::Let,
                ident("x"),
                lit_num(3),
                ident("y"),
                Node::S(vec![Node::Plus, ident("x"), lit_num(1)]),
                Node::S(vec![Node::Plus, ident("x"), ident("y")]),
            ]),
            envr,
        ) == lit_num(7)
    );
}

#[test]
#[should_panic]
fn test_let_not_rec() {
    let envr = &mut Envr::new();
    eval(
        &Node::S(vec![
            Node::Let,
            ident("x"),
            Node::S(vec![Node::Plus, ident("x"), lit_num(0)]),
            Node::S(vec![]),
        ]),
        envr,
    );
}

#[test]
fn test_fn() {
    let envr = &mut Envr::new();
    // trivial
    assert!(
        eval(&Node::S(vec![Node::S(vec![Node::Fn, Node::S(vec![])])]), envr) == Node::S(vec![])
    );
    assert!(eval(&Node::S(vec![Node::S(vec![Node::Fn, lit_num(42)])]), envr) == lit_num(42));
    // easy
    assert!(
        eval(
            &Node::S(vec![Node::S(vec![Node::Fn, ident("x"), ident("x")]), lit_num(42)]),
            envr,
        ) == lit_num(42)
    );
    assert!(
        eval(
            &Node::S(vec![Node::S(vec![Node::Fn, ident("x"), lit_num(42)]), lit_num(0)]),
            envr,
        ) == lit_num(42)
    );
    assert!(
        eval(
            &Node::S(vec![
                Node::S(vec![
                    Node::Fn,
                    ident("x"),
                    Node::S(vec![Node::Plus, ident("x"), lit_num(1)]),
                ]),
                lit_num(42),
            ]),
            envr,
        ) == lit_num(43)
    );
    // multiple args
    assert!(
        eval(
            &Node::S(vec![
                Node::S(vec![Node::Fn, ident("x"), ident("y"), ident("x")]),
                lit_num(42),
                lit_num(0),
            ]),
            envr,
        ) == lit_num(42)
    );
    assert!(
        eval(
            &Node::S(vec![
                Node::S(vec![
                    Node::Fn,
                    ident("x"),
                    ident("y"),
                    Node::S(vec![Node::Plus, ident("x"), ident("y")]),
                ]),
                lit_num(42),
                lit_num(1),
            ]),
            envr,
        ) == lit_num(43)
    );
    // scopes
    let f1 = Node::S(vec![
        Node::Fn,
        ident("x"),
        Node::S(vec![Node::Plus, ident("x"), lit_num(1)]),
    ]);
    let f2 = Node::S(vec![
        Node::Fn,
        ident("x"),
        Node::S(vec![f1, Node::S(vec![Node::Plus, ident("x"), lit_num(4)])]),
    ]);
    assert!(eval(&Node::S(vec![f2, lit_num(2)]), envr) == lit_num(7));
    // higher order
    let f1 = Node::S(vec![
        Node::Fn,
        ident("x"),
        ident("y"),
        Node::S(vec![
            ident("x"),
            Node::S(vec![Node::Plus, ident("y"), lit_num(3)]),
        ]),
    ]);
    let f2 = Node::S(vec![
        Node::Fn,
        ident("x"),
        Node::S(vec![Node::Plus, ident("x"), lit_num(2)]),
    ]);
    assert!(eval(&Node::S(vec![f1, f2, lit_num(5)]), envr) == lit_num(10));
}

#[test]
fn test_fn_let() {
    let envr = &mut Envr::new();
    let f = Node::S(vec![
        Node::Fn,
        ident("x"),
        Node::S(vec![Node::Plus, ident("x"), lit_num(1)]),
    ]);
    let l = Node::S(vec![
        Node::Let,
        ident("y"),
        f,
        Node::S(vec![ident("y"), lit_num(42)]),
    ]);
    assert!(eval(&l, envr) == lit_num(43));
}

#[test]
#[should_panic]
fn test_fn_arg_mismatch() {
    let envr = &mut Envr::new();
    eval(
        &Node::S(vec![
            Node::S(vec![Node::Fn, ident("x"), ident("x")]),
            lit_num(42),
            lit_num(42),
        ]),
        envr,
    );
}
