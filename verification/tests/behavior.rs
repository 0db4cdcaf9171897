//! Whole-pipeline behavior: text in, tokens, tree, expansion, evaluation.

use slang::error::Error;
use slang::expand::{fold, Unhygienic};
use slang::interpreter::run_program;
use slang::lexer::{lex, Str};
use slang::parser::{parse, Node};

fn ident(s: &str) -> Node {
    Node::Ident(Str::new(s))
}

fn lit_num(n: u32) -> Node {
    Node::LitNum(n)
}

/// Evaluates source text directly, as the `run` command does.
fn evaluate(text: &str) -> Result<Vec<Node>, Error> {
    let toks = lex(text)?;
    let ast = parse(&toks)?;
    let mut out: Vec<String> = Vec::new();
    run_program(&ast, &mut out)
}

/// Expands macros first and then evaluates, as the `expand` command does.
fn evaluate_expanded(text: &str) -> Result<Vec<Node>, Error> {
    let toks = lex(text)?;
    let ast = parse(&toks)?;
    let ast = fold(&ast, &mut Unhygienic::new())?;
    let mut out: Vec<String> = Vec::new();
    run_program(&ast, &mut out)
}

#[test]
fn plus_empty_and_many() {
    assert!(evaluate("(+)").unwrap() == vec![lit_num(0)]);
    assert!(evaluate("(+ 3 1 1 1)").unwrap() == vec![lit_num(6)]);
}

#[test]
fn let_bindings_are_sequential() {
    assert!(evaluate("(let x 3 y (+ x 1) (+ x y))").unwrap() == vec![lit_num(7)]);
}

#[test]
fn let_self_reference_is_rejected() {
    assert!(evaluate("(let x (+ x 0) x)") == Err(Error::UnknownIdent));
}

#[test]
fn function_application_and_arity() {
    assert!(evaluate("((fn x (+ x 1)) 42)").unwrap() == vec![lit_num(43)]);
    assert!(evaluate("((fn x x) 42 42)") == Err(Error::FnArity));
}

#[test]
fn macro_capture_is_unhygienic() {
    // the invocation passes the identifier `x` itself; the substituted body
    // still binds it with the macro's own `let`, so the result is 1, not an
    // unbound-identifier failure for the argument
    let r = evaluate_expanded("(macro m x (let x 1 x)) (m x)").unwrap();
    assert!(r == vec![Node::S(vec![]), lit_num(1)]);
}

#[test]
fn pretty_print_rebuilds_the_same_tree() {
    // spacing is not preserved, but re-tokenizing and re-building the
    // printed text gives a structurally equal tree (no string literals here:
    // printing drops their quotes)
    let texts = ["a   (let a 42 (fn x (+ x a)))", "(+ 1\n 2) () (baz (qux))", "42 foo + fn"];
    let mut i = 0;
    while i < texts.len() {
        let tree = parse(&lex(texts[i]).unwrap()).unwrap();
        let printed = tree.to_text();
        let again = parse(&lex(printed.as_str()).unwrap()).unwrap();
        assert!(again == tree);
        i += 1;
    }
}

#[test]
fn pretty_print_loses_string_quotes() {
    let tree = parse(&lex("(print \"Hello world!\")").unwrap()).unwrap();
    assert!(tree.to_text() == "(print Hello world!)");
    let tree = parse(&lex("(+ 40 2)").unwrap()).unwrap();
    assert!(tree.to_text() == "(+ 40 2)");
}

#[test]
fn malformed_input_is_rejected() {
    assert!(parse(&lex("(").unwrap()).is_err());
    assert!(parse(&lex(")").unwrap()).is_err());
    assert!(parse(&lex("(baz 42))").unwrap()).is_err());
}

#[test]
fn evaluation_error_kinds() {
    assert!(evaluate("x") == Err(Error::UnknownIdent));
    assert!(evaluate("(let x 1 x 2 x)") == Err(Error::DuplicateBinding));
    assert!(evaluate("(+ 3 \"a string\")") == Err(Error::NotANumber));
    assert!(evaluate("(+ 4294967295 1)") == Err(Error::SumOverflow));
    assert!(evaluate("(let x 1 y x)") == Err(Error::LetOddArgs));
    assert!(evaluate("(let)") == Err(Error::LetNoBody));
    assert!(evaluate("((fn))") == Err(Error::FnNoBody));
    assert!(evaluate("(let 1 2 3)") == Err(Error::ExpectedIdent));
    assert!(evaluate("+") == Err(Error::UnexpectedNode));
    assert!(evaluate("((fn 1 2) 3)") == Err(Error::ExpectedIdent));
}

#[test]
fn runaway_reduction_runs_out_of_fuel() {
    assert!(evaluate("(0)") == Err(Error::OutOfFuel));
}

#[test]
fn printed_numbers_render_in_decimal() {
    // exercises the digit renderer through the print output
    let toks = lex("(print 0 7 40 4294967295)").unwrap();
    let ast = parse(&toks).unwrap();
    let mut out: Vec<String> = Vec::new();
    run_program(&ast, &mut out).unwrap();
    assert!(out == vec!["0".to_string(), "7".to_string(), "40".to_string(), "4294967295".to_string()]);
}

#[test]
fn each_entry_gets_a_fresh_environment() {
    // a binding made by one top-level entry is gone in the next
    assert!(evaluate("(let x 1 x) x") == Err(Error::UnknownIdent));
}

#[test]
fn str_round_trip() {
    let s = Str::new("qux");
    assert!(s.as_str() == "qux");
    assert!(s == Str::new("qux"));
    assert!(s != Str::new("quux"));
}
