use vstd::prelude::*;
use vstd::pervasive::unreached;
use crate::error::Error;
use crate::lexer::{Str, Token, TokenV, toks_view};

verus! {

// ---------------------------------------------------------------------------
// The tree
// ---------------------------------------------------------------------------

/// One node of the syntax tree. A program is the root and holds the
/// top-level entries; a form is one parenthesized group; everything else is
/// a leaf.
#[derive(Debug, PartialEq, Eq)]
pub enum Node {
    /// The root: the sequence of top-level entries. It never appears below
    /// the root in a tree the builder made.
    Program(Vec<Node>),
    /// A parenthesized form; its first child decides its meaning.
    S(Vec<Node>),
    /// The keyword `+`.
    Plus,
    /// The keyword `fn`.
    Fn,
    /// The keyword `let`.
    Let,
    /// The keyword `print`.
    Print,
    /// The keyword `macro`.
    Macro,
    /// A reference to a bound name.
    Ident(Str),
    /// A number literal.
    LitNum(u32),
    /// A string literal.
    LitStr(Str),
}

/// The mathematical value of a node.
#[verifier::ext_equal]
pub enum NodeV {
    Program(Seq<NodeV>),
    S(Seq<NodeV>),
    Plus,
    Fn,
    Let,
    Print,
    Macro,
    Ident(Seq<char>),
    LitNum(u32),
    LitStr(Seq<char>),
}

pub open spec fn node_view(n: Node) -> NodeV
    decreases n,
{
    match n {
        Node::Program(ns) => NodeV::Program(nodes_view(ns@)),
        Node::S(ns) => NodeV::S(nodes_view(ns@)),
        Node::Plus => NodeV::Plus,
        Node::Fn => NodeV::Fn,
        Node::Let => NodeV::Let,
        Node::Print => NodeV::Print,
        Node::Macro => NodeV::Macro,
        Node::Ident(s) => NodeV::Ident(s@),
        Node::LitNum(k) => NodeV::LitNum(k),
        Node::LitStr(s) => NodeV::LitStr(s@),
    }
}

pub open spec fn nodes_view(s: Seq<Node>) -> Seq<NodeV>
    decreases s,
{
    if s.len() == 0 {
        Seq::<NodeV>::empty()
    } else {
        nodes_view(s.drop_last()).push(node_view(s.last()))
    }
}

impl View for Node {
    type V = NodeV;

    open spec fn view(&self) -> NodeV {
        node_view(*self)
    }
}

pub broadcast proof fn lemma_nodes_view_len(s: Seq<Node>)
    ensures
        #[trigger] nodes_view(s).len() == s.len(),
    decreases s,
{
    if s.len() > 0 {
        lemma_nodes_view_len(s.drop_last());
    }
}

pub broadcast proof fn lemma_nodes_view_index(s: Seq<Node>, i: int)
    requires
        0 <= i < s.len(),
    ensures
        #[trigger] nodes_view(s)[i] == node_view(s[i]),
    decreases s,
{
    lemma_nodes_view_len(s);
    if i < s.len() - 1 {
        lemma_nodes_view_index(s.drop_last(), i);
    }
}

/// Copies a tree; the copy has the same mathematical value.
pub fn clone_node(n: &Node) -> (r: Node)
    ensures
        r@ == n@,
    decreases n, 1int,
{
    match n {
        Node::Program(ns) => Node::Program(clone_nodes(ns)),
        Node::S(ns) => Node::S(clone_nodes(ns)),
        Node::Plus => Node::Plus,
        Node::Fn => Node::Fn,
        Node::Let => Node::Let,
        Node::Print => Node::Print,
        Node::Macro => Node::Macro,
        Node::Ident(s) => Node::Ident(s.clone()),
        Node::LitNum(k) => Node::LitNum(*k),
        Node::LitStr(s) => Node::LitStr(s.clone()),
    }
}

pub fn clone_nodes(ns: &Vec<Node>) -> (r: Vec<Node>)
    ensures
        nodes_view(r@) == nodes_view(ns@),
    decreases ns, 0int,
{
    broadcast use lemma_nodes_view_len, lemma_nodes_view_index;

    let mut out: Vec<Node> = Vec::new();
    let mut i: usize = 0;
    while i < ns.len()
        invariant
            i <= ns@.len(),
            out@.len() == i,
            forall|j: int| 0 <= j < i ==> out@[j]@ == ns@[j]@,
        decreases ns@.len() - i,
    {
        let c = clone_node(&ns[i]);
        out.push(c);
        i += 1;
    }
    proof {
        assert(nodes_view(out@) =~= nodes_view(ns@));
    }
    out
}

impl Clone for Node {
    fn clone(&self) -> (r: Node)
        ensures
            r@ == self@,
    {
        clone_node(self)
    }
}

// ---------------------------------------------------------------------------
// Leaf and value tests
// ---------------------------------------------------------------------------

/// The keyword leaves.
pub open spec fn is_keyword_spec(n: NodeV) -> bool {
    n is Plus || n is Fn || n is Let || n is Print || n is Macro
}

/// The self-evaluating nodes: literals, the empty form, and function forms.
pub open spec fn is_value_spec(n: NodeV) -> bool {
    match n {
        NodeV::LitStr(_) => true,
        NodeV::LitNum(_) => true,
        NodeV::S(ns) => ns.len() == 0 || ns[0] is Fn,
        _ => false,
    }
}

impl Node {
    /// Appends a child to a program or form node.
    fn push(&mut self, n: Node)
        requires
            *old(self) is Program || *old(self) is S,
        ensures
            final(self)@ == push_child(old(self)@, n@),
    {
        let ghost nv = n@;
        match self {
            Node::Program(ns) => {
                let ghost before = ns@;
                ns.push(n);
                proof {
                    assert(ns@.drop_last() =~= before);
                    assert(nodes_view(ns@) == nodes_view(before).push(nv));
                }
            },
            Node::S(ns) => {
                let ghost before = ns@;
                ns.push(n);
                proof {
                    assert(ns@.drop_last() =~= before);
                    assert(nodes_view(ns@) == nodes_view(before).push(nv));
                }
            },
            _ => {
                proof {
                    assert(false);
                }
            },
        }
    }

    /// Decides whether this node is a bare keyword leaf.
    pub fn is_keyword(&self) -> (r: bool)
        ensures
            r == is_keyword_spec(self@),
    {
        match self {
            Node::Plus | Node::Fn | Node::Let | Node::Print | Node::Macro => true,
            _ => false,
        }
    }

    /// Decides whether this node is self-evaluating.
    pub fn is_value(&self) -> (r: bool)
        ensures
            r == is_value_spec(self@),
    {
        broadcast use lemma_nodes_view_len, lemma_nodes_view_index;

        match self {
            Node::LitStr(_) | Node::LitNum(_) => true,
            Node::S(ns) => {
                if ns.len() == 0 {
                    true
                } else {
                    proof {
                        assert(nodes_view(ns@)[0] == node_view(ns@[0]));
                    }
                    match &ns[0] {
                        Node::Fn => true,
                        _ => false,
                    }
                }
            },
            _ => false,
        }
    }

    /// The payload of a number literal.
    pub fn expect_lit_num(&self) -> (r: u32)
        requires
            self is LitNum,
        ensures
            self@ == NodeV::LitNum(r),
    {
        match self {
            Node::LitNum(n) => *n,
            _ => unreached(),
        }
    }

    /// The payload of an identifier.
    pub fn expect_ident(&self) -> (r: &Str)
        requires
            self is Ident,
        ensures
            self@ == NodeV::Ident(r@),
    {
        match self {
            Node::Ident(s) => s,
            _ => unreached(),
        }
    }
}

// ---------------------------------------------------------------------------
// The tree builder
// ---------------------------------------------------------------------------

/// Appends a child to a program or form value; anything else is unchanged.
pub open spec fn push_child(cur: NodeV, c: NodeV) -> NodeV {
    match cur {
        NodeV::Program(ns) => NodeV::Program(ns.push(c)),
        NodeV::S(ns) => NodeV::S(ns.push(c)),
        _ => cur,
    }
}

/// One step of the tree builder: the stack of open outer nodes, the node
/// under construction, and one token.
pub open spec fn pstep(stack: Seq<NodeV>, cur: NodeV, t: TokenV) -> Result<
    (Seq<NodeV>, NodeV),
    Error,
> {
    match t {
        TokenV::Bra => Ok((stack.push(cur), NodeV::S(Seq::<NodeV>::empty()))),
        TokenV::Ket => {
            if cur is S && stack.len() > 0 {
                Ok((stack.drop_last(), push_child(stack.last(), cur)))
            } else {
                Err(Error::UnexpectedKet)
            }
        },
        TokenV::Keyword(s) => {
            if s == "+"@ {
                Ok((stack, push_child(cur, NodeV::Plus)))
            } else if s == "fn"@ {
                Ok((stack, push_child(cur, NodeV::Fn)))
            } else if s == "let"@ {
                Ok((stack, push_child(cur, NodeV::Let)))
            } else if s == "macro"@ {
                Ok((stack, push_child(cur, NodeV::Macro)))
            } else if s == "print"@ {
                Ok((stack, push_child(cur, NodeV::Print)))
            } else {
                Err(Error::BadKeyword)
            }
        },
        TokenV::StrLit(s) => Ok((stack, push_child(cur, NodeV::LitStr(s)))),
        TokenV::Number(k) => Ok((stack, push_child(cur, NodeV::LitNum(k)))),
        TokenV::Name(s) => Ok((stack, push_child(cur, NodeV::Ident(s)))),
    }
}

/// The tree builder run over a token sequence from a given state.
pub open spec fn pfold(stack: Seq<NodeV>, cur: NodeV, ts: Seq<TokenV>) -> Result<
    (Seq<NodeV>, NodeV),
    Error,
> decreases ts.len() {
    if ts.len() == 0 {
        Ok((stack, cur))
    } else {
        match pstep(stack, cur, ts[0]) {
            Ok((stack2, cur2)) => pfold(stack2, cur2, ts.skip(1)),
            Err(e) => Err(e),
        }
    }
}

/// What the tree builder produces from a whole token sequence.
pub open spec fn parse_spec(ts: Seq<TokenV>) -> Result<NodeV, Error> {
    match pfold(Seq::<NodeV>::empty(), NodeV::Program(Seq::<NodeV>::empty()), ts) {
        Ok((stack, cur)) => {
            if stack.len() > 0 {
                Err(Error::UnclosedForm)
            } else if cur is Program {
                Ok(cur)
            } else {
                Err(Error::NotAProgram)
            }
        },
        Err(e) => Err(e),
    }
}

/// The shape the builder's state always has: the node under construction is
/// the program exactly at the bottom, and every open outer node but the
/// bottom one is a form.
pub open spec fn pinv(stack: Seq<NodeV>, cur: NodeV) -> bool {
    if stack.len() == 0 {
        cur is Program
    } else {
        cur is S && stack[0] is Program && (forall|i: int|
            1 <= i < stack.len() ==> stack[i] is S)
    }
}

pub proof fn lemma_pstep_inv(stack: Seq<NodeV>, cur: NodeV, t: TokenV)
    requires
        pinv(stack, cur),
    ensures
        pstep(stack, cur, t) matches Ok((stack2, cur2)) ==> pinv(stack2, cur2),
{
    match t {
        TokenV::Ket => {
            if cur is S && stack.len() > 0 {
                assert(forall|i: int|
                    1 <= i < stack.drop_last().len() ==> stack.drop_last()[i] == stack[i]);
                if stack.len() == 1 {
                    assert(push_child(stack.last(), cur) is Program);
                } else {
                    assert(stack.last() is S);
                }
            }
        },
        _ => {},
    }
}

/// Builds the tree for a token sequence: one program node whose children
/// follow the bracket nesting of the input.
pub fn parse(input: &[Token]) -> (r: Result<Node, Error>)
    ensures
        match r {
            Ok(n) => parse_spec(toks_view(input@)) == Ok::<NodeV, Error>(n@),
            Err(e) => parse_spec(toks_view(input@)) == Err::<NodeV, Error>(e),
        },
{
    broadcast use lemma_nodes_view_len, lemma_nodes_view_index;

    let ghost all = toks_view(input@);
    let mut expr_stack: Vec<Node> = Vec::new();
    let mut cur_node = Node::Program(Vec::new());
    proof {
        assert(nodes_view(expr_stack@) =~= Seq::<NodeV>::empty());
        assert(cur_node@ == NodeV::Program(nodes_view(Seq::<Node>::empty())));
        assert(nodes_view(Seq::<Node>::empty()) =~= Seq::<NodeV>::empty());
        assert(all.skip(0) =~= all);
    }
    let mut i: usize = 0;
    while i < input.len()
        invariant
            i <= input@.len(),
            all == toks_view(input@),
            all.len() == input@.len(),
            pinv(nodes_view(expr_stack@), cur_node@),
            pfold(Seq::<NodeV>::empty(), NodeV::Program(Seq::<NodeV>::empty()), all) == pfold(
                nodes_view(expr_stack@),
                cur_node@,
                all.skip(i as int),
            ),
        decreases input@.len() - i,
    {
        let ghost stack0 = nodes_view(expr_stack@);
        let ghost cur0 = cur_node@;
        let ghost rest0 = all.skip(i as int);
        proof {
            assert(rest0[0] == all[i as int]);
            assert(all[i as int] == input@[i as int]@);
            assert(rest0.skip(1) =~= all.skip(i as int + 1));
            lemma_pstep_inv(stack0, cur0, rest0[0]);
        }
        let t = &input[i];
        match t {
            Token::Bra => {
                let ghost sbefore = expr_stack@;
                expr_stack.push(cur_node);
                cur_node = Node::S(Vec::new());
                proof {
                    assert(expr_stack@.drop_last() =~= sbefore);
                    assert(nodes_view(expr_stack@) == stack0.push(cur0));
                    assert(nodes_view(Seq::<Node>::empty()) =~= Seq::<NodeV>::empty());
                    assert(cur_node@ == NodeV::S(Seq::<NodeV>::empty()));
                }
            },
            Token::Ket => {
                let is_form = match &cur_node {
                    Node::S(_) => true,
                    _ => false,
                };
                if !is_form {
                    return Err(Error::UnexpectedKet);
                }
                if expr_stack.len() == 0 {
                    // A form under construction always has an open outer node.
                    proof {
                        assert(false);
                    }
                    return Err(Error::UnexpectedKet);
                }
                let ghost before = expr_stack@;
                let old_cur = cur_node;
                cur_node = expr_stack.pop().unwrap();
                proof {
                    assert(nodes_view(before) == nodes_view(before.drop_last()).push(
                        node_view(before.last()),
                    ));
                    assert(nodes_view(before).drop_last() =~= nodes_view(before.drop_last()));
                    assert(nodes_view(expr_stack@) == stack0.drop_last());
                    assert(cur_node@ == stack0.last());
                }
                cur_node.push(old_cur);
                proof {
                    assert(nodes_view(expr_stack@) == stack0.drop_last());
                    assert(cur_node@ == push_child(stack0.last(), cur0));
                }
            },
            Token::Keyword(s) => {
                if crate::lexer::str_eq(s, "+") {
                    cur_node.push(Node::Plus);
                } else if crate::lexer::str_eq(s, "fn") {
                    cur_node.push(Node::Fn);
                } else if crate::lexer::str_eq(s, "let") {
                    cur_node.push(Node::Let);
                } else if crate::lexer::str_eq(s, "macro") {
                    cur_node.push(Node::Macro);
                } else if crate::lexer::str_eq(s, "print") {
                    cur_node.push(Node::Print);
                } else {
                    return Err(Error::BadKeyword);
                }
            },
            Token::Str(s) => {
                cur_node.push(Node::LitStr(s.clone()));
            },
            Token::Number(k) => {
                cur_node.push(Node::LitNum(*k));
            },
            Token::Name(s) => {
                cur_node.push(Node::Ident(s.clone()));
            },
        }
        i += 1;
    }
    proof {
        assert(all.skip(i as int) =~= Seq::<TokenV>::empty());
    }
    if expr_stack.len() > 0 {
        return Err(Error::UnclosedForm);
    }
    let is_program = match &cur_node {
        Node::Program(_) => true,
        _ => false,
    };
    if !is_program {
        return Err(Error::NotAProgram);
    }
    Ok(cur_node)
}

// ---------------------------------------------------------------------------
// Balanced input builds a tree, one form per opening bracket
// ---------------------------------------------------------------------------

/// How many opening brackets a token sequence holds.
pub open spec fn bra_count(ts: Seq<TokenV>) -> nat
    decreases ts.len(),
{
    if ts.len() == 0 {
        0
    } else {
        (if ts[0] is Bra {
            1nat
        } else {
            0nat
        }) + bra_count(ts.skip(1))
    }
}

/// How many closing brackets a token sequence holds.
pub open spec fn ket_count(ts: Seq<TokenV>) -> nat
    decreases ts.len(),
{
    if ts.len() == 0 {
        0
    } else {
        (if ts[0] is Ket {
            1nat
        } else {
            0nat
        }) + ket_count(ts.skip(1))
    }
}

/// A keyword token of the surface syntax carries one of the five keywords.
pub open spec fn wf_toks(ts: Seq<TokenV>) -> bool {
    forall|i: int|
        0 <= i < ts.len() ==> (#[trigger] ts[i] matches TokenV::Keyword(s)
            ==> crate::lexer::is_keyword_str(s))
}

/// Bracket balance: no prefix closes more forms than it opened, and the
/// whole sequence closes exactly as many as it opened.
pub open spec fn balanced(ts: Seq<TokenV>) -> bool {
    &&& forall|k: int| 0 <= k <= ts.len() ==> ket_count(#[trigger] ts.take(k)) <= bra_count(ts.take(k))
    &&& ket_count(ts) == bra_count(ts)
}

/// How many form nodes a tree holds.
pub open spec fn form_count(n: NodeV) -> nat
    decreases n, 1int,
{
    match n {
        NodeV::Program(ns) => forms_in(ns),
        NodeV::S(ns) => 1 + forms_in(ns),
        _ => 0,
    }
}

pub open spec fn forms_in(s: Seq<NodeV>) -> nat
    decreases s, 0int,
{
    if s.len() == 0 {
        0
    } else {
        forms_in(s.drop_last()) + form_count(s.last())
    }
}

proof fn lemma_push_child_forms(cur: NodeV, c: NodeV)
    requires
        cur is Program || cur is S,
    ensures
        form_count(push_child(cur, c)) == form_count(cur) + form_count(c),
{
    match cur {
        NodeV::Program(ns) => {
            assert(ns.push(c).drop_last() =~= ns);
            assert(forms_in(ns.push(c)) == forms_in(ns) + form_count(c));
        },
        NodeV::S(ns) => {
            assert(ns.push(c).drop_last() =~= ns);
            assert(forms_in(ns.push(c)) == forms_in(ns) + form_count(c));
        },
        _ => {},
    }
}

/// Running the builder over a relatively balanced sequence from any
/// well-shaped state closes every open form, and adds one form per opening
/// bracket.
proof fn lemma_pfold_balanced(stack: Seq<NodeV>, cur: NodeV, ts: Seq<TokenV>)
    requires
        pinv(stack, cur),
        wf_toks(ts),
        forall|k: int|
            0 <= k <= ts.len() ==> ket_count(#[trigger] ts.take(k)) <= stack.len() + bra_count(
                ts.take(k),
            ),
        ket_count(ts) == stack.len() + bra_count(ts),
    ensures
        pfold(stack, cur, ts) matches Ok(st2) && st2.0.len() == 0 && st2.1 is Program
            && form_count(st2.1) == forms_in(stack) + form_count(cur) + bra_count(ts),
    decreases ts.len(),
{
    if ts.len() == 0 {
        assert(ts.take(0) =~= ts);
    } else {
        let t = ts[0];
        let rest = ts.skip(1);
        assert(ts.take(ts.len() as int) =~= ts);
        // relate counts of prefixes of `ts` to prefixes of `rest`
        assert(forall|k: int|
            0 <= k <= rest.len() ==> #[trigger] rest.take(k) =~= ts.take(k + 1).skip(1));
        assert(forall|k: int|
            0 <= k <= rest.len() ==> ket_count(#[trigger] ts.take(k + 1)) == (if t is Ket {
                1nat
            } else {
                0nat
            }) + ket_count(rest.take(k)) && bra_count(ts.take(k + 1)) == (if t is Bra {
                1nat
            } else {
                0nat
            }) + bra_count(rest.take(k))) by {
            assert(forall|k: int|
                0 <= k <= rest.len() ==> 0 < ts.take(k + 1).len() && #[trigger] ts.take(k + 1)[0]
                    == t);
        }
        lemma_pstep_inv(stack, cur, t);
        match t {
            TokenV::Bra => {
                let stack2 = stack.push(cur);
                let cur2 = NodeV::S(Seq::<NodeV>::empty());
                assert(stack2.drop_last() =~= stack);
                assert(forms_in(stack2) == forms_in(stack) + form_count(cur));
                assert(form_count(cur2) == 1);
                lemma_pfold_balanced(stack2, cur2, rest);
            },
            TokenV::Ket => {
                assert(ts.take(1) =~= seq![t]);
                assert(ts.take(1).skip(1) =~= Seq::<TokenV>::empty());
                assert(ket_count(ts.take(1)) == 1);
                assert(bra_count(ts.take(1)) == 0);
                assert(stack.len() >= 1);
                assert(cur is S);
                let stack2 = stack.drop_last();
                let cur2 = push_child(stack.last(), cur);
                lemma_push_child_forms(stack.last(), cur);
                assert(forms_in(stack) == forms_in(stack2) + form_count(stack.last()));
                assert(forms_in(stack2) + form_count(cur2) == forms_in(stack) + form_count(cur));
                lemma_pfold_balanced(stack2, cur2, rest);
            },
            _ => {
                let c = match t {
                    TokenV::Keyword(s) => {
                        if s == "+"@ {
                            NodeV::Plus
                        } else if s == "fn"@ {
                            NodeV::Fn
                        } else if s == "let"@ {
                            NodeV::Let
                        } else if s == "macro"@ {
                            NodeV::Macro
                        } else {
                            NodeV::Print
                        }
                    },
                    TokenV::StrLit(s) => NodeV::LitStr(s),
                    TokenV::Number(k) => NodeV::LitNum(k),
                    TokenV::Name(s) => NodeV::Ident(s),
                    _ => NodeV::Plus,
                };
                assert(pstep(stack, cur, t) == Ok::<(Seq<NodeV>, NodeV), Error>((
                    stack,
                    push_child(cur, c),
                )));
                assert(form_count(c) == 0);
                lemma_push_child_forms(cur, c);
                lemma_pfold_balanced(stack, push_child(cur, c), rest);
            },
        }
    }
}

/// Over a balanced token sequence of the surface syntax the tree builder
/// succeeds with a program, and the number of forms it built — of groups
/// that were closed — equals the number of opening brackets.
pub proof fn lemma_parse_balanced(ts: Seq<TokenV>)
    requires
        wf_toks(ts),
        balanced(ts),
    ensures
        parse_spec(ts) matches Ok(root) && root is Program && form_count(root) == bra_count(ts),
{
    let cur0 = NodeV::Program(Seq::<NodeV>::empty());
    assert(forms_in(Seq::<NodeV>::empty()) == 0);
    assert(form_count(cur0) == 0);
    lemma_pfold_balanced(Seq::<NodeV>::empty(), cur0, ts);
}

} // verus!
