use vstd::prelude::*;
use vstd::string::*;
use crate::lexer::{
    TokenV,
    cons_tok,
    digits_val,
    is_digit_char,
    is_keyword_str,
    is_name_end,
    is_ws_char,
    lex_spec,
    prepend_toks,
    take_digits,
    take_name,
};
use crate::parser::{
    Node,
    NodeV,
    node_view,
    nodes_view,
    lemma_nodes_view_len,
    lemma_nodes_view_index,
};

verus! {

// ---------------------------------------------------------------------------
// Decimal numerals
// ---------------------------------------------------------------------------

/// The character of one decimal digit.
pub open spec fn dec_digit(d: nat) -> char {
    if d == 0 {
        '0'
    } else if d == 1 {
        '1'
    } else if d == 2 {
        '2'
    } else if d == 3 {
        '3'
    } else if d == 4 {
        '4'
    } else if d == 5 {
        '5'
    } else if d == 6 {
        '6'
    } else if d == 7 {
        '7'
    } else if d == 8 {
        '8'
    } else {
        '9'
    }
}

/// The decimal numeral of a number, most significant digit first, with no
/// leading zeros (zero itself is "0").
pub open spec fn dec_rep(n: nat) -> Seq<char>
    decreases n,
{
    if n < 10 {
        seq![dec_digit(n)]
    } else {
        dec_rep(n / 10).push(dec_digit(n % 10))
    }
}

fn digit_char(d: u32) -> (c: char)
    requires
        d < 10,
    ensures
        c == dec_digit(d as nat),
{
    if d == 0 {
        '0'
    } else if d == 1 {
        '1'
    } else if d == 2 {
        '2'
    } else if d == 3 {
        '3'
    } else if d == 4 {
        '4'
    } else if d == 5 {
        '5'
    } else if d == 6 {
        '6'
    } else if d == 7 {
        '7'
    } else if d == 8 {
        '8'
    } else {
        '9'
    }
}

/// Renders a number as its decimal numeral.
pub fn u32_text(n: u32) -> (r: String)
    ensures
        r@ == dec_rep(n as nat),
    decreases n,
{
    if n < 10 {
        let mut s = String::new();
        crate::lexer::string_push(&mut s, digit_char(n));
        proof {
            assert(Seq::<char>::empty().push(dec_digit(n as nat)) =~= seq![
                dec_digit(n as nat),
            ]);
        }
        s
    } else {
        let mut s = u32_text(n / 10);
        crate::lexer::string_push(&mut s, digit_char(n % 10));
        s
    }
}

// ---------------------------------------------------------------------------
// The surface text of a tree
// ---------------------------------------------------------------------------

/// The surface text of a node. The children of a program or form stand in
/// order, one space between each pair; a string literal loses its quotes, so
/// this rendering is not an injection.
pub open spec fn text_of(n: NodeV) -> Seq<char>
    decreases n, 1int,
{
    match n {
        NodeV::Program(ns) => texts_joined(ns),
        NodeV::S(ns) => seq!['('] + texts_joined(ns) + seq![')'],
        NodeV::Plus => "+"@,
        NodeV::Fn => "fn"@,
        NodeV::Let => "let"@,
        NodeV::Print => "print"@,
        NodeV::Macro => "macro"@,
        NodeV::Ident(s) => s,
        NodeV::LitNum(k) => dec_rep(k as nat),
        NodeV::LitStr(s) => s,
    }
}

/// The texts of a sequence of nodes, joined with single spaces.
pub open spec fn texts_joined(ns: Seq<NodeV>) -> Seq<char>
    decreases ns, 0int,
{
    if ns.len() == 0 {
        Seq::<char>::empty()
    } else if ns.len() == 1 {
        text_of(ns.last())
    } else {
        texts_joined(ns.drop_last()) + seq![' '] + text_of(ns.last())
    }
}

fn nodes_text(ns: &Vec<Node>) -> (r: String)
    ensures
        r@ == texts_joined(nodes_view(ns@)),
    decreases ns, 0int,
{
    broadcast use lemma_nodes_view_len, lemma_nodes_view_index;

    let ghost all = nodes_view(ns@);
    let mut out = String::new();
    let mut i: usize = 0;
    while i < ns.len()
        invariant
            i <= ns@.len(),
            all == nodes_view(ns@),
            all.len() == ns@.len(),
            out@ == texts_joined(all.take(i as int)),
        decreases ns@.len() - i,
    {
        if i > 0 {
            out.append(" ");
        }
        let t = node_text(&ns[i]);
        out.append(t.as_str());
        proof {
            reveal_strlit(" ");
            assert(" "@ =~= seq![' ']);
            lemma_nodes_view_index(ns@, i as int);
            assert(all[i as int] == ns@[i as int]@);
            assert(all.take(i + 1).drop_last() =~= all.take(i as int));
            assert(all.take(i + 1).last() == all[i as int]);
            if i == 0 {
                assert(out@ =~= text_of(all[0]));
            } else {
                assert(out@ =~= texts_joined(all.take(i as int)) + seq![' '] + text_of(
                    all[i as int],
                ));
            }
        }
        i += 1;
    }
    proof {
        assert(all.take(ns@.len() as int) =~= all);
    }
    out
}

/// Renders a tree as surface text.
pub fn node_text(n: &Node) -> (r: String)
    ensures
        r@ == text_of(n@),
    decreases n, 1int,
{
    match n {
        Node::Program(ns) => nodes_text(ns),
        Node::S(ns) => {
            let mut s = String::new();
            s.append("(");
            let inner = nodes_text(ns);
            s.append(inner.as_str());
            s.append(")");
            proof {
                assert(s@ =~= seq!['('] + texts_joined(nodes_view(ns@)) + seq![')']) by {
                    reveal_strlit("(");
                    reveal_strlit(")");
                }
            }
            s
        },
        Node::Plus => "+".to_owned(),
        Node::Fn => "fn".to_owned(),
        Node::Let => "let".to_owned(),
        Node::Print => "print".to_owned(),
        Node::Macro => "macro".to_owned(),
        Node::Ident(s) => s.as_str().to_owned(),
        Node::LitNum(k) => u32_text(*k),
        Node::LitStr(s) => s.as_str().to_owned(),
    }
}

impl Node {
    /// The surface text of this tree.
    pub fn to_text(&self) -> (r: String)
        ensures
            r@ == text_of(self@),
    {
        node_text(self)
    }
}

// ---------------------------------------------------------------------------
// The token sequence of a tree
// ---------------------------------------------------------------------------

/// The tokens that the surface text of a node carries: the one token of a
/// leaf, or the bracketed tokens of the children.
pub open spec fn toks_of(n: NodeV) -> Seq<TokenV>
    decreases n, 1int,
{
    match n {
        NodeV::Program(ns) => toks_of_seq(ns),
        NodeV::S(ns) => seq![TokenV::Bra] + toks_of_seq(ns) + seq![TokenV::Ket],
        NodeV::Plus => seq![TokenV::Keyword("+"@)],
        NodeV::Fn => seq![TokenV::Keyword("fn"@)],
        NodeV::Let => seq![TokenV::Keyword("let"@)],
        NodeV::Print => seq![TokenV::Keyword("print"@)],
        NodeV::Macro => seq![TokenV::Keyword("macro"@)],
        NodeV::Ident(s) => seq![TokenV::Name(s)],
        NodeV::LitNum(k) => seq![TokenV::Number(k)],
        NodeV::LitStr(s) => seq![TokenV::StrLit(s)],
    }
}

pub open spec fn toks_of_seq(ns: Seq<NodeV>) -> Seq<TokenV>
    decreases ns, 0int,
{
    if ns.len() == 0 {
        Seq::<TokenV>::empty()
    } else {
        toks_of_seq(ns.drop_last()) + toks_of(ns.last())
    }
}

// ---------------------------------------------------------------------------
// The tree builder undoes printing, at token level
// ---------------------------------------------------------------------------

use crate::error::Error;
use crate::parser::{pfold, pstep, parse_spec, push_child};

/// A tree fit to stand below the root: no nested program node anywhere.
pub open spec fn inner_ok(n: NodeV) -> bool
    decreases n, 1int,
{
    match n {
        NodeV::Program(_) => false,
        NodeV::S(ns) => all_inner_ok(ns),
        _ => true,
    }
}

pub open spec fn all_inner_ok(s: Seq<NodeV>) -> bool
    decreases s, 0int,
{
    s.len() == 0 || (all_inner_ok(s.drop_last()) && inner_ok(s.last()))
}

/// A tree the builder could have made: a program at the root and none below.
pub open spec fn wf_tree(t: NodeV) -> bool {
    t is Program && all_inner_ok(t->Program_0)
}

/// Appends children to a program or form value.
pub open spec fn push_children(cur: NodeV, s: Seq<NodeV>) -> NodeV {
    match cur {
        NodeV::Program(ns) => NodeV::Program(ns + s),
        NodeV::S(ns) => NodeV::S(ns + s),
        _ => cur,
    }
}

/// The builder consumes concatenated input one part at a time.
proof fn lemma_pfold_append(stack: Seq<NodeV>, cur: NodeV, a: Seq<TokenV>, b: Seq<TokenV>)
    ensures
        pfold(stack, cur, a + b) == (match pfold(stack, cur, a) {
            Ok((s2, c2)) => pfold(s2, c2, b),
            Err(e) => Err::<(Seq<NodeV>, NodeV), Error>(e),
        }),
    decreases a.len(),
{
    if a.len() == 0 {
        assert(a + b =~= b);
        assert(pfold(stack, cur, a) == Ok::<(Seq<NodeV>, NodeV), Error>((stack, cur)));
    } else {
        assert((a + b).len() > 0);
        assert((a + b)[0] == a[0]);
        assert((a + b).skip(1) =~= a.skip(1) + b);
        match pstep(stack, cur, a[0]) {
            Ok((s2, c2)) => {
                lemma_pfold_append(s2, c2, a.skip(1), b);
            },
            Err(_) => {},
        }
    }
}

/// Feeding a tree's tokens to the builder appends exactly that tree as a
/// child of the node under construction.
proof fn lemma_toks_rebuild(stack: Seq<NodeV>, cur: NodeV, n: NodeV)
    requires
        inner_ok(n),
        cur is Program || cur is S,
    ensures
        pfold(stack, cur, toks_of(n)) == Ok::<(Seq<NodeV>, NodeV), Error>((
            stack,
            push_child(cur, n),
        )),
    decreases n, 1int,
{
    reveal_strlit("+");
    reveal_strlit("fn");
    reveal_strlit("let");
    reveal_strlit("macro");
    reveal_strlit("print");
    match n {
        NodeV::Program(_) => {
            assert(false);
        },
        NodeV::S(ns) => {
            let stack2 = stack.push(cur);
            let cur2 = NodeV::S(Seq::<NodeV>::empty());
            let bra = seq![TokenV::Bra];
            let ket = seq![TokenV::Ket];
            assert(toks_of(n) =~= bra + (toks_of_seq(ns) + ket));
            assert(bra.len() == 1 && bra[0] == TokenV::Bra);
            assert(bra.skip(1) =~= Seq::<TokenV>::empty());
            assert(pstep(stack, cur, TokenV::Bra) == Ok::<(Seq<NodeV>, NodeV), Error>((
                stack2,
                cur2,
            )));
            assert(pfold(stack2, cur2, bra.skip(1)) == Ok::<(Seq<NodeV>, NodeV), Error>((
                stack2,
                cur2,
            )));
            assert(pfold(stack, cur, bra) == Ok::<(Seq<NodeV>, NodeV), Error>((stack2, cur2)));
            lemma_pfold_append(stack, cur, bra, toks_of_seq(ns) + ket);
            lemma_toks_rebuild_seq(stack2, cur2, ns);
            assert(push_children(cur2, ns) == NodeV::S(Seq::<NodeV>::empty() + ns));
            assert(Seq::<NodeV>::empty() + ns =~= ns);
            lemma_pfold_append(stack2, cur2, toks_of_seq(ns), ket);
            assert(ket.len() == 1 && ket[0] == TokenV::Ket);
            assert(ket.skip(1) =~= Seq::<TokenV>::empty());
            assert(stack2.drop_last() =~= stack);
            assert(stack2.last() == cur);
            assert(pstep(stack2, NodeV::S(ns), TokenV::Ket) == Ok::<(Seq<NodeV>, NodeV), Error>(
                (stack, push_child(cur, NodeV::S(ns))),
            ));
            assert(pfold(stack, push_child(cur, NodeV::S(ns)), ket.skip(1)) == Ok::<
                (Seq<NodeV>, NodeV),
                Error,
            >((stack, push_child(cur, NodeV::S(ns)))));
            assert(pfold(stack2, NodeV::S(ns), ket) == Ok::<(Seq<NodeV>, NodeV), Error>((
                stack,
                push_child(cur, NodeV::S(ns)),
            )));
        },
        _ => {
            let ts = toks_of(n);
            assert(ts.len() == 1);
            let t = ts[0];
            assert(ts =~= seq![t]);
            assert(ts.skip(1) =~= Seq::<TokenV>::empty());
            assert("+"@.len() == 1 && "fn"@.len() == 2 && "let"@.len() == 3 && "macro"@.len() == 5
                && "print"@.len() == 5);
            assert("print"@[0] == 'p' && "macro"@[0] == 'm');
            assert(pstep(stack, cur, t) == Ok::<(Seq<NodeV>, NodeV), Error>((
                stack,
                push_child(cur, n),
            )));
            assert(pfold(stack, push_child(cur, n), ts.skip(1)) == Ok::<
                (Seq<NodeV>, NodeV),
                Error,
            >((stack, push_child(cur, n))));
        },
    }
}

proof fn lemma_toks_rebuild_seq(stack: Seq<NodeV>, cur: NodeV, s: Seq<NodeV>)
    requires
        all_inner_ok(s),
        cur is Program || cur is S,
    ensures
        pfold(stack, cur, toks_of_seq(s)) == Ok::<(Seq<NodeV>, NodeV), Error>((
            stack,
            push_children(cur, s),
        )),
    decreases s, 0int,
{
    if s.len() == 0 {
        match cur {
            NodeV::Program(ns) => {
                assert(ns + s =~= ns);
                assert(push_children(cur, s) == cur);
            },
            NodeV::S(ns) => {
                assert(ns + s =~= ns);
                assert(push_children(cur, s) == cur);
            },
            _ => {},
        }
    } else {
        lemma_toks_rebuild_seq(stack, cur, s.drop_last());
        lemma_pfold_append(stack, cur, toks_of_seq(s.drop_last()), toks_of(s.last()));
        let mid = push_children(cur, s.drop_last());
        lemma_toks_rebuild(stack, mid, s.last());
        match cur {
            NodeV::Program(ns) => {
                assert((ns + s.drop_last()).push(s.last()) =~= ns + s);
            },
            NodeV::S(ns) => {
                assert((ns + s.drop_last()).push(s.last()) =~= ns + s);
            },
            _ => {},
        }
    }
}

/// The round trip: printing loses spacing, and a string literal loses its
/// quotes, but no token of a well-formed tree is lost. Re-building the
/// token sequence of a tree yields a tree equal to the original.
pub proof fn lemma_print_parse_round_trip(t: NodeV)
    requires
        wf_tree(t),
    ensures
        parse_spec(toks_of(t)) == Ok::<NodeV, Error>(t),
{
    let ns = t->Program_0;
    let cur0 = NodeV::Program(Seq::<NodeV>::empty());
    lemma_toks_rebuild_seq(Seq::<NodeV>::empty(), cur0, ns);
    assert(Seq::<NodeV>::empty() + ns =~= ns);
    assert(push_children(cur0, ns) == t);
}

// ---------------------------------------------------------------------------
// The tokenizer undoes printing
// ---------------------------------------------------------------------------

/// A tree whose surface text re-tokenizes to its own tokens: no nested
/// program, no string literal (printing drops the quotes), and every
/// identifier a word the tokenizer would read back as that same name.
pub open spec fn printable(n: NodeV) -> bool
    decreases n, 1int,
{
    match n {
        NodeV::Program(_) => false,
        NodeV::S(ns) => printable_seq(ns),
        NodeV::Ident(s) => s.len() > 0 && !is_keyword_str(s) && !is_digit_char(s[0]) && (forall|
            i: int,
        |
            0 <= i < s.len() ==> !is_name_end(#[trigger] s[i])),
        NodeV::LitStr(_) => false,
        _ => true,
    }
}

pub open spec fn printable_seq(s: Seq<NodeV>) -> bool
    decreases s, 0int,
{
    s.len() == 0 || (printable_seq(s.drop_last()) && printable(s.last()))
}

/// Text that may safely follow a printed atom: nothing, or a character that
/// ends a word.
pub open spec fn lex_follows(cs: Seq<char>) -> bool {
    cs.len() == 0 || is_name_end(cs[0])
}

proof fn lemma_printable_inner(n: NodeV)
    requires
        printable(n),
    ensures
        inner_ok(n),
    decreases n, 1int,
{
    match n {
        NodeV::S(ns) => {
            lemma_printable_inner_seq(ns);
        },
        _ => {},
    }
}

proof fn lemma_printable_inner_seq(s: Seq<NodeV>)
    requires
        printable_seq(s),
    ensures
        all_inner_ok(s),
    decreases s, 0int,
{
    if s.len() > 0 {
        lemma_printable_inner_seq(s.drop_last());
        lemma_printable_inner(s.last());
    }
}

proof fn lemma_prepend_assoc(a: Seq<TokenV>, b: Seq<TokenV>, o: Option<Seq<TokenV>>)
    ensures
        prepend_toks(a, prepend_toks(b, o)) == prepend_toks(a + b, o),
{
    match o {
        Some(ts) => {
            assert(a + (b + ts) =~= (a + b) + ts);
        },
        None => {},
    }
}

/// A word of characters that do not end a name, followed by separated text,
/// tokenizes as that whole word.
proof fn lemma_take_name_word(w: Seq<char>, rest: Seq<char>)
    requires
        w.len() > 0,
        forall|i: int| 0 <= i < w.len() ==> !is_name_end(#[trigger] w[i]),
        lex_follows(rest),
    ensures
        take_name(w + rest) == (w, rest),
    decreases w.len(),
{
    let cs = w + rest;
    assert(cs[0] == w[0]);
    assert(cs.skip(1) =~= w.skip(1) + rest);
    if w.len() == 1 {
        assert(w.skip(1) + rest =~= rest);
        assert(take_name(rest) == (Seq::<char>::empty(), rest));
        assert(seq![w[0]] + Seq::<char>::empty() =~= w);
    } else {
        assert(forall|i: int|
            0 <= i < w.skip(1).len() ==> w.skip(1)[i] == w[i + 1] && !is_name_end(w[i + 1]));
        lemma_take_name_word(w.skip(1), rest);
        assert(seq![w[0]] + w.skip(1) =~= w);
    }
}

/// A run of digits followed by separated text tokenizes as that whole run.
proof fn lemma_take_digits_word(w: Seq<char>, rest: Seq<char>)
    requires
        w.len() > 0,
        forall|i: int| 0 <= i < w.len() ==> is_digit_char(#[trigger] w[i]),
        lex_follows(rest),
    ensures
        take_digits(w + rest) == (w, rest),
    decreases w.len(),
{
    let cs = w + rest;
    assert(cs[0] == w[0]);
    assert(cs.skip(1) =~= w.skip(1) + rest);
    if w.len() == 1 {
        assert(w.skip(1) + rest =~= rest);
        if rest.len() > 0 {
            assert(!is_digit_char(rest[0]));
        }
        assert(take_digits(rest) == (Seq::<char>::empty(), rest));
        assert(seq![w[0]] + Seq::<char>::empty() =~= w);
    } else {
        assert(forall|i: int|
            0 <= i < w.skip(1).len() ==> w.skip(1)[i] == w[i + 1] && is_digit_char(w[i + 1]));
        lemma_take_digits_word(w.skip(1), rest);
        assert(seq![w[0]] + w.skip(1) =~= w);
    }
}

/// A decimal numeral is made of digits and reads back as its number.
proof fn lemma_dec_rep(n: nat)
    ensures
        dec_rep(n).len() > 0,
        forall|i: int| 0 <= i < dec_rep(n).len() ==> is_digit_char(#[trigger] dec_rep(n)[i]),
        digits_val(dec_rep(n)) == n,
    decreases n,
{
    if n < 10 {
        assert(dec_rep(n) =~= seq![dec_digit(n)]);
        assert(dec_rep(n).drop_last() =~= Seq::<char>::empty());
        assert(digits_val(Seq::<char>::empty()) == 0);
        assert(digits_val(dec_rep(n).drop_last()) == 0);
        assert(crate::lexer::digit_val(dec_digit(n)) == n);
        assert(digits_val(dec_rep(n)) == crate::lexer::digit_val(dec_digit(n)));
    } else {
        lemma_dec_rep(n / 10);
        let w = dec_rep(n / 10);
        assert(dec_rep(n) == w.push(dec_digit(n % 10)));
        assert(forall|i: int|
            0 <= i < w.len() ==> dec_rep(n)[i] == w[i]);
        assert(dec_rep(n)[w.len() as int] == dec_digit(n % 10));
        assert(dec_rep(n).drop_last() =~= w);
        assert(digits_val(dec_rep(n)) == digits_val(w) * 10 + crate::lexer::digit_val(
            dec_digit((n % 10) as nat),
        ));
        assert((n / 10) * 10 + n % 10 == n);
    }
}

/// The surface text of a printable tree, followed by separated text,
/// tokenizes to the tree's tokens followed by the tokens of that text.
proof fn lemma_lex_text(n: NodeV, rest: Seq<char>)
    requires
        printable(n),
        lex_follows(rest),
    ensures
        lex_spec(text_of(n) + rest) == prepend_toks(toks_of(n), lex_spec(rest)),
    decreases n, 1int,
{
    reveal_strlit("+");
    reveal_strlit("fn");
    reveal_strlit("let");
    reveal_strlit("macro");
    reveal_strlit("print");
    let cs = text_of(n) + rest;
    match n {
        NodeV::Program(_) => {
            assert(false);
        },
        NodeV::S(ns) => {
            let inner = texts_joined(ns);
            assert(cs =~= seq!['('] + (inner + (seq![')'] + rest)));
            assert(cs[0] == '(');
            assert(!is_ws_char('('));
            assert(cs.skip(1) =~= inner + (seq![')'] + rest));
            assert(lex_follows(seq![')'] + rest)) by {
                assert((seq![')'] + rest)[0] == ')');
            }
            lemma_lex_texts(ns, seq![')'] + rest);
            let ket_rest = seq![')'] + rest;
            assert(ket_rest[0] == ')');
            assert(!is_ws_char(')'));
            assert(ket_rest.skip(1) =~= rest);
            assert(lex_spec(ket_rest) == cons_tok(TokenV::Ket, lex_spec(rest)));
            assert(lex_spec(cs) == cons_tok(
                TokenV::Bra,
                prepend_toks(toks_of_seq(ns), cons_tok(TokenV::Ket, lex_spec(rest))),
            ));
            match lex_spec(rest) {
                Some(ts) => {
                    assert(seq![TokenV::Bra] + (toks_of_seq(ns) + (seq![TokenV::Ket] + ts)) =~= (
                    seq![TokenV::Bra] + toks_of_seq(ns) + seq![TokenV::Ket]) + ts);
                },
                None => {},
            }
        },
        NodeV::Ident(s) => {
            assert(cs =~= s + rest);
            assert(!is_ws_char(s[0]) && s[0] != '(' && s[0] != ')' && s[0] != '"');
            lemma_take_name_word(s, rest);
            assert(lex_spec(cs) == cons_tok(crate::lexer::word_token(s), lex_spec(rest)));
            assert(crate::lexer::word_token(s) == TokenV::Name(s));
            match lex_spec(rest) {
                Some(ts) => {
                    assert(seq![TokenV::Name(s)] + ts =~= toks_of(n) + ts);
                },
                None => {},
            }
        },
        NodeV::LitNum(k) => {
            lemma_dec_rep(k as nat);
            let w = dec_rep(k as nat);
            assert(cs =~= w + rest);
            assert(is_digit_char(w[0]));
            assert(cs[0] == w[0]);
            assert(!is_ws_char(cs[0]) && cs[0] != '(' && cs[0] != ')' && cs[0] != '"');
            lemma_take_digits_word(w, rest);
            assert(digits_val(w) <= u32::MAX as nat);
            assert(lex_spec(cs) == cons_tok(TokenV::Number(k), lex_spec(rest)));
            match lex_spec(rest) {
                Some(ts) => {
                    assert(seq![TokenV::Number(k)] + ts =~= toks_of(n) + ts);
                },
                None => {},
            }
        },
        NodeV::LitStr(_) => {
            assert(false);
        },
        _ => {
            // one of the five keywords
            let w = text_of(n);
            assert(w.len() > 0 && (forall|i: int|
                0 <= i < w.len() ==> !is_name_end(#[trigger] w[i])));
            assert(cs[0] == w[0]);
            assert(!is_ws_char(cs[0]) && cs[0] != '(' && cs[0] != ')' && cs[0] != '"');
            assert(!is_digit_char(cs[0]));
            lemma_take_name_word(w, rest);
            assert(is_keyword_str(w));
            assert(lex_spec(cs) == cons_tok(TokenV::Keyword(w), lex_spec(rest)));
            match lex_spec(rest) {
                Some(ts) => {
                    assert(seq![TokenV::Keyword(w)] + ts =~= toks_of(n) + ts);
                },
                None => {},
            }
        },
    }
}

proof fn lemma_lex_texts(ns: Seq<NodeV>, rest: Seq<char>)
    requires
        printable_seq(ns),
        lex_follows(rest),
    ensures
        lex_spec(texts_joined(ns) + rest) == prepend_toks(toks_of_seq(ns), lex_spec(rest)),
    decreases ns, 0int,
{
    if ns.len() == 0 {
        assert(texts_joined(ns) + rest =~= rest);
        assert(toks_of_seq(ns) =~= Seq::<TokenV>::empty());
        match lex_spec(rest) {
            Some(ts) => {
                assert(Seq::<TokenV>::empty() + ts =~= ts);
            },
            None => {},
        }
    } else if ns.len() == 1 {
        assert(texts_joined(ns) == text_of(ns.last()));
        lemma_lex_text(ns.last(), rest);
        assert(toks_of_seq(ns.drop_last()) =~= Seq::<TokenV>::empty());
        assert(toks_of_seq(ns) =~= toks_of(ns.last()));
    } else {
        let pre = texts_joined(ns.drop_last());
        let lastt = text_of(ns.last());
        let rest2 = seq![' '] + (lastt + rest);
        assert(texts_joined(ns) + rest =~= pre + rest2);
        assert(lex_follows(rest2)) by {
            assert(rest2[0] == ' ');
        }
        lemma_lex_texts(ns.drop_last(), rest2);
        assert(rest2[0] == ' ');
        assert(is_ws_char(' '));
        assert(rest2.skip(1) =~= lastt + rest);
        assert(lex_spec(rest2) == lex_spec(lastt + rest));
        lemma_lex_text(ns.last(), rest);
        lemma_prepend_assoc(toks_of_seq(ns.drop_last()), toks_of(ns.last()), lex_spec(rest));
        assert(toks_of_seq(ns.drop_last()) + toks_of(ns.last()) == toks_of_seq(ns));
    }
}

/// The full round trip: tokenizing the surface text of a printable tree
/// gives back exactly the tree's tokens, and re-building those tokens gives
/// back the tree. String literals stay out: their quotes are lost in print.
pub proof fn lemma_text_round_trip(t: NodeV)
    requires
        t is Program,
        printable_seq(t->Program_0),
    ensures
        lex_spec(text_of(t)) == Some(toks_of(t)),
        parse_spec(toks_of(t)) == Ok::<NodeV, Error>(t),
{
    let ns = t->Program_0;
    assert(text_of(t) == texts_joined(ns));
    assert(texts_joined(ns) + Seq::<char>::empty() =~= texts_joined(ns));
    lemma_lex_texts(ns, Seq::<char>::empty());
    assert(lex_spec(Seq::<char>::empty()) == Some(Seq::<TokenV>::empty()));
    assert(toks_of_seq(ns) + Seq::<TokenV>::empty() =~= toks_of_seq(ns));
    lemma_printable_inner_seq(ns);
    lemma_print_parse_round_trip(t);
}

} // verus!
