use vstd::prelude::*;
use vstd::pervasive::unreached;
use crate::assoc::{
    pairs_view,
    lemma_pairs_view_found,
    lemma_pairs_view_absent,
};
use crate::error::Error;
use crate::interpreter::idents_of;
use crate::lexer::{Str, strs_view};
use crate::parser::{
    Node,
    NodeV,
    nodes_view,
    clone_node,
    lemma_nodes_view_len,
    lemma_nodes_view_index,
};

verus! {

/// One macro: its ordered parameter names and its unexpanded body.
pub struct MacroDef {
    pub params: Vec<Str>,
    pub body: Node,
}

impl View for MacroDef {
    type V = (Seq<Seq<char>>, NodeV);

    open spec fn view(&self) -> (Seq<Seq<char>>, NodeV) {
        (strs_view(self.params@), self.body@)
    }
}

/// The macro table: macro names to definitions, a later definition of a name
/// replacing an earlier one.
pub type MacroTableV = Map<Seq<char>, (Seq<Seq<char>>, NodeV)>;

// ---------------------------------------------------------------------------
// Substitution
// ---------------------------------------------------------------------------

/// The position of the first parameter carrying a name, or a negative value
/// where none does.
pub open spec fn find_param(params: Seq<Seq<char>>, name: Seq<char>) -> int
    decreases params.len(),
{
    if params.len() == 0 {
        -1
    } else if params[0] == name {
        0
    } else {
        let r = find_param(params.skip(1), name);
        if r < 0 {
            -1
        } else {
            r + 1
        }
    }
}

proof fn lemma_find_param_at(params: Seq<Seq<char>>, name: Seq<char>, j: int)
    requires
        0 <= j < params.len(),
        params[j] == name,
        forall|m: int| 0 <= m < j ==> params[m] != name,
    ensures
        find_param(params, name) == j,
    decreases j,
{
    if j > 0 {
        assert(forall|m: int|
            0 <= m < j - 1 ==> params.skip(1)[m] == params[m + 1] && params[m + 1] != name);
        lemma_find_param_at(params.skip(1), name, j - 1);
    }
}

proof fn lemma_find_param_none(params: Seq<Seq<char>>, name: Seq<char>)
    requires
        forall|m: int| 0 <= m < params.len() ==> params[m] != name,
    ensures
        find_param(params, name) == -1,
    decreases params.len(),
{
    if params.len() > 0 {
        assert(forall|m: int|
            0 <= m < params.len() - 1 ==> params.skip(1)[m] == params[m + 1] && params[m + 1]
                != name);
        lemma_find_param_none(params.skip(1), name);
    }
}

/// Unhygienic substitution: every identifier equal to a parameter name is
/// replaced, wherever it stands, by the argument tree at that parameter's
/// position. No renaming takes place, so an argument identifier that
/// collides with a binding inside the body is captured: that is this macro
/// system's documented meaning, not an accident.
pub open spec fn subst_spec(body: NodeV, params: Seq<Seq<char>>, args: Seq<NodeV>) -> NodeV
    decreases body, 1int,
{
    match body {
        NodeV::Ident(nm) => {
            let i = find_param(params, nm);
            if 0 <= i < args.len() {
                args[i]
            } else {
                body
            }
        },
        NodeV::Program(ns) => NodeV::Program(subst_seq(ns, params, args)),
        NodeV::S(ns) => NodeV::S(subst_seq(ns, params, args)),
        _ => body,
    }
}

pub open spec fn subst_seq(s: Seq<NodeV>, params: Seq<Seq<char>>, args: Seq<NodeV>) -> Seq<NodeV>
    decreases s, 0int,
{
    if s.len() == 0 {
        Seq::<NodeV>::empty()
    } else {
        subst_seq(s.drop_last(), params, args).push(subst_spec(s.last(), params, args))
    }
}

/// Replaces parameters by argument trees throughout a macro body.
pub fn subst(body: &Node, params: &Vec<Str>, args: &Vec<Node>) -> (r: Node)
    requires
        params@.len() == args@.len(),
    ensures
        r@ == subst_spec(body@, strs_view(params@), nodes_view(args@)),
    decreases body, 1int,
{
    #![verifier::loop_isolation(false)]
    match body {
        Node::Ident(nm) => {
            let ghost pv = strs_view(params@);
            proof {
                lemma_nodes_view_len(args@);
            }
            let mut j: usize = 0;
            while j < params.len()
                invariant
                    j <= params@.len(),
                    forall|m: int| 0 <= m < j ==> pv[m] != nm@,
                decreases params@.len() - j,
            {
                if params[j].eq_str(nm) {
                    proof {
                        lemma_find_param_at(pv, nm@, j as int);
                        lemma_nodes_view_index(args@, j as int);
                    }
                    return clone_node(&args[j]);
                }
                j += 1;
            }
            proof {
                lemma_find_param_none(pv, nm@);
            }
            Node::Ident(nm.clone())
        },
        Node::Program(ns) => Node::Program(subst_nodes(ns, params, args)),
        Node::S(ns) => Node::S(subst_nodes(ns, params, args)),
        Node::Plus => Node::Plus,
        Node::Fn => Node::Fn,
        Node::Let => Node::Let,
        Node::Print => Node::Print,
        Node::Macro => Node::Macro,
        Node::LitNum(k) => Node::LitNum(*k),
        Node::LitStr(s) => Node::LitStr(s.clone()),
    }
}

fn subst_nodes(ns: &Vec<Node>, params: &Vec<Str>, args: &Vec<Node>) -> (r: Vec<Node>)
    requires
        params@.len() == args@.len(),
    ensures
        nodes_view(r@) == subst_seq(nodes_view(ns@), strs_view(params@), nodes_view(args@)),
    decreases ns, 0int,
{
    #![verifier::loop_isolation(false)]
    let ghost nsv = nodes_view(ns@);
    let ghost pv = strs_view(params@);
    let ghost av = nodes_view(args@);
    proof {
        lemma_nodes_view_len(ns@);
        assert(nsv.take(0) =~= Seq::<NodeV>::empty());
    }
    let mut out: Vec<Node> = Vec::new();
    proof {
        assert(nodes_view(out@) =~= Seq::<NodeV>::empty());
        assert(subst_seq(nsv.take(0), pv, av) =~= Seq::<NodeV>::empty());
    }
    let mut i: usize = 0;
    while i < ns.len()
        invariant
            i <= ns@.len(),
            nodes_view(out@) == subst_seq(nsv.take(i as int), pv, av),
        decreases ns@.len() - i,
    {
        proof {
            lemma_nodes_view_index(ns@, i as int);
            assert(nsv.take(i + 1).drop_last() =~= nsv.take(i as int));
            assert(nsv.take(i + 1).last() == nsv[i as int]);
        }
        let c = subst(&ns[i], params, args);
        let ghost ob = out@;
        out.push(c);
        proof {
            assert(out@.drop_last() =~= ob);
            assert(nodes_view(out@) == nodes_view(ob).push(out@.last()@));
        }
        i += 1;
    }
    proof {
        assert(nsv.take(ns@.len() as int) =~= nsv);
    }
    out
}

// ---------------------------------------------------------------------------
// The fold
// ---------------------------------------------------------------------------

/// A tree-to-tree rewriter: the fold hands it every form headed by an
/// identifier or by the `macro` keyword; everything else passes through with
/// its children folded. A hook answers with a replacement for the whole form
/// (`Some`), or asks the fold to descend into the original children (`None`).
pub trait Folder: View + Sized {
    /// What `fold_ident` computes, over the folder's mathematical state.
    spec fn ident_spec(m: Self::V, ns: Seq<NodeV>) -> (Self::V, Result<Option<NodeV>, Error>);

    /// What `fold_macro` computes, over the folder's mathematical state.
    spec fn macro_spec(m: Self::V, ns: Seq<NodeV>) -> (Self::V, Result<Option<NodeV>, Error>);

    /// Rewrites a form whose head is an identifier.
    fn fold_ident(&mut self, ns: &Vec<Node>) -> (r: Result<Option<Node>, Error>)
        requires
            nodes_view(ns@).len() > 0,
            nodes_view(ns@)[0] is Ident,
        ensures
            ({
                let (m2, h) = Self::ident_spec(old(self)@, nodes_view(ns@));
                &&& final(self)@ == m2
                &&& (match r {
                    Ok(Some(n)) => h == Ok::<Option<NodeV>, Error>(Some(n@)),
                    Ok(None) => h == Ok::<Option<NodeV>, Error>(None),
                    Err(e) => h == Err::<Option<NodeV>, Error>(e),
                })
            }),
    ;

    /// Rewrites a form whose head is the `macro` keyword.
    fn fold_macro(&mut self, ns: &Vec<Node>) -> (r: Result<Option<Node>, Error>)
        requires
            nodes_view(ns@).len() > 0,
            nodes_view(ns@)[0] is Macro,
        ensures
            ({
                let (m2, h) = Self::macro_spec(old(self)@, nodes_view(ns@));
                &&& final(self)@ == m2
                &&& (match r {
                    Ok(Some(n)) => h == Ok::<Option<NodeV>, Error>(Some(n@)),
                    Ok(None) => h == Ok::<Option<NodeV>, Error>(None),
                    Err(e) => h == Err::<Option<NodeV>, Error>(e),
                })
            }),
    ;
}

/// What the fold produces: the folder's state after the pass, and the
/// rewritten tree. A bare `macro` keyword outside the head of a form is
/// refused.
pub open spec fn fold_spec<F: Folder>(m: F::V, n: NodeV) -> (F::V, Result<NodeV, Error>)
    decreases n, 1int,
{
    match n {
        NodeV::Program(ns) => {
            let (m2, r) = fold_seq_spec::<F>(m, ns);
            (
                m2,
                match r {
                    Ok(ns2) => Ok(NodeV::Program(ns2)),
                    Err(e) => Err(e),
                },
            )
        },
        NodeV::S(ns) => {
            if ns.len() > 0 && ns[0] is Macro {
                let (m2, h) = F::macro_spec(m, ns);
                match h {
                    Ok(opt) => match opt {
                        Some(n2) => (m2, Ok(n2)),
                        None => {
                            let (m3, r) = fold_seq_spec::<F>(m2, ns);
                            (
                                m3,
                                match r {
                                    Ok(ns2) => Ok(NodeV::S(ns2)),
                                    Err(e) => Err(e),
                                },
                            )
                        },
                    },
                    Err(e) => (m2, Err(e)),
                }
            } else if ns.len() > 0 && ns[0] is Ident {
                let (m2, h) = F::ident_spec(m, ns);
                match h {
                    Ok(opt) => match opt {
                        Some(n2) => (m2, Ok(n2)),
                        None => {
                            let (m3, r) = fold_seq_spec::<F>(m2, ns);
                            (
                                m3,
                                match r {
                                    Ok(ns2) => Ok(NodeV::S(ns2)),
                                    Err(e) => Err(e),
                                },
                            )
                        },
                    },
                    Err(e) => (m2, Err(e)),
                }
            } else {
                let (m2, r) = fold_seq_spec::<F>(m, ns);
                (
                    m2,
                    match r {
                        Ok(ns2) => Ok(NodeV::S(ns2)),
                        Err(e) => Err(e),
                    },
                )
            }
        },
        NodeV::Macro => (m, Err(Error::BareMacro)),
        _ => (m, Ok(n)),
    }
}

/// Folds a sequence of children left to right, threading the folder's state.
pub open spec fn fold_seq_spec<F: Folder>(m: F::V, s: Seq<NodeV>) -> (
    F::V,
    Result<Seq<NodeV>, Error>,
)
    decreases s, 0int,
{
    if s.len() == 0 {
        (m, Ok(Seq::<NodeV>::empty()))
    } else {
        let (m1, r1) = fold_seq_spec::<F>(m, s.drop_last());
        match r1 {
            Ok(pre) => {
                let (m2, r2) = fold_spec::<F>(m1, s.last());
                (
                    m2,
                    match r2 {
                        Ok(n2) => Ok(pre.push(n2)),
                        Err(e) => Err(e),
                    },
                )
            },
            Err(e) => (m1, Err(e)),
        }
    }
}

proof fn lemma_fold_seq_err<F: Folder>(m: F::V, s: Seq<NodeV>, k: int)
    requires
        0 <= k <= s.len(),
        fold_seq_spec::<F>(m, s.take(k)).1 is Err,
    ensures
        fold_seq_spec::<F>(m, s) == fold_seq_spec::<F>(m, s.take(k)),
    decreases s.len() - k,
{
    if k == s.len() {
        assert(s.take(k) =~= s);
    } else {
        assert(s.take(k + 1).drop_last() =~= s.take(k));
        lemma_fold_seq_err::<F>(m, s, k + 1);
    }
}

/// Rewrites one tree under a folder, recursing into every form the folder
/// does not replace.
pub fn fold<F: Folder>(node: &Node, fld: &mut F) -> (r: Result<Node, Error>)
    ensures
        ({
            let (m2, fr) = fold_spec::<F>(old(fld)@, node@);
            &&& final(fld)@ == m2
            &&& (match r {
                Ok(n) => fr == Ok::<NodeV, Error>(n@),
                Err(e) => fr == Err::<NodeV, Error>(e),
            })
        }),
    decreases node, 1int,
{
    match node {
        Node::Program(ns) => {
            match fold_children(ns, fld) {
                Ok(ns2) => Ok(Node::Program(ns2)),
                Err(e) => Err(e),
            }
        },
        Node::S(ns) => {
            proof {
                lemma_nodes_view_len(ns@);
                if ns@.len() > 0 {
                    lemma_nodes_view_index(ns@, 0);
                }
            }
            if ns.len() > 0 {
                match &ns[0] {
                    Node::Macro => {
                        match fld.fold_macro(ns) {
                            Ok(Some(n2)) => Ok(n2),
                            Ok(None) => {
                                match fold_children(ns, fld) {
                                    Ok(ns2) => Ok(Node::S(ns2)),
                                    Err(e) => Err(e),
                                }
                            },
                            Err(e) => Err(e),
                        }
                    },
                    Node::Ident(_) => {
                        match fld.fold_ident(ns) {
                            Ok(Some(n2)) => Ok(n2),
                            Ok(None) => {
                                match fold_children(ns, fld) {
                                    Ok(ns2) => Ok(Node::S(ns2)),
                                    Err(e) => Err(e),
                                }
                            },
                            Err(e) => Err(e),
                        }
                    },
                    _ => {
                        match fold_children(ns, fld) {
                            Ok(ns2) => Ok(Node::S(ns2)),
                            Err(e) => Err(e),
                        }
                    },
                }
            } else {
                match fold_children(ns, fld) {
                    Ok(ns2) => Ok(Node::S(ns2)),
                    Err(e) => Err(e),
                }
            }
        },
        Node::Macro => Err(Error::BareMacro),
        Node::Plus => Ok(Node::Plus),
        Node::Fn => Ok(Node::Fn),
        Node::Let => Ok(Node::Let),
        Node::Print => Ok(Node::Print),
        Node::Ident(s) => Ok(Node::Ident(s.clone())),
        Node::LitNum(k) => Ok(Node::LitNum(*k)),
        Node::LitStr(s) => Ok(Node::LitStr(s.clone())),
    }
}

fn fold_children<F: Folder>(ns: &Vec<Node>, fld: &mut F) -> (r: Result<Vec<Node>, Error>)
    ensures
        ({
            let (m2, fr) = fold_seq_spec::<F>(old(fld)@, nodes_view(ns@));
            &&& final(fld)@ == m2
            &&& (match r {
                Ok(v) => fr == Ok::<Seq<NodeV>, Error>(nodes_view(v@)),
                Err(e) => fr == Err::<Seq<NodeV>, Error>(e),
            })
        }),
    decreases ns, 0int,
{
    #![verifier::loop_isolation(false)]
    let ghost nsv = nodes_view(ns@);
    let ghost m0 = old(fld)@;
    proof {
        lemma_nodes_view_len(ns@);
        assert(nsv.take(0) =~= Seq::<NodeV>::empty());
    }
    let mut out: Vec<Node> = Vec::new();
    proof {
        assert(nodes_view(out@) =~= Seq::<NodeV>::empty());
    }
    let mut i: usize = 0;
    while i < ns.len()
        invariant
            i <= ns@.len(),
            fold_seq_spec::<F>(m0, nsv.take(i as int)).0 == fld@,
            fold_seq_spec::<F>(m0, nsv.take(i as int)).1 == Ok::<Seq<NodeV>, Error>(
                nodes_view(out@),
            ),
        decreases ns@.len() - i,
    {
        proof {
            lemma_nodes_view_index(ns@, i as int);
            assert(nsv.take(i + 1).drop_last() =~= nsv.take(i as int));
            assert(nsv.take(i + 1).last() == nsv[i as int]);
        }
        match fold(&ns[i], fld) {
            Ok(n2) => {
                let ghost ob = out@;
                out.push(n2);
                proof {
                    assert(out@.drop_last() =~= ob);
                    assert(nodes_view(out@) == nodes_view(ob).push(out@.last()@));
                }
            },
            Err(e) => {
                proof {
                    lemma_fold_seq_err::<F>(m0, nsv, i + 1);
                }
                return Err(e);
            },
        }
        i += 1;
    }
    proof {
        assert(nsv.take(ns@.len() as int) =~= nsv);
    }
    Ok(out)
}

// ---------------------------------------------------------------------------
// The two folders
// ---------------------------------------------------------------------------

/// A folder that replaces nothing: folding with it leaves a tree unchanged
/// (and still refuses a bare `macro` keyword, as any fold does).
pub struct NoopFolder;

impl View for NoopFolder {
    type V = ();

    open spec fn view(&self) -> () {
        ()
    }
}

impl Folder for NoopFolder {
    open spec fn ident_spec(m: (), ns: Seq<NodeV>) -> ((), Result<Option<NodeV>, Error>) {
        ((), Ok(None))
    }

    open spec fn macro_spec(m: (), ns: Seq<NodeV>) -> ((), Result<Option<NodeV>, Error>) {
        ((), Ok(None))
    }

    fn fold_ident(&mut self, ns: &Vec<Node>) -> (r: Result<Option<Node>, Error>) {
        Ok(None)
    }

    fn fold_macro(&mut self, ns: &Vec<Node>) -> (r: Result<Option<Node>, Error>) {
        Ok(None)
    }
}

/// The unhygienic macro expander: it records macro definitions as it meets
/// them and replaces each later invocation by the definition's body with the
/// arguments substituted in, textually and without renaming.
pub struct Unhygienic {
    macros: Vec<(Str, MacroDef)>,
}

impl View for Unhygienic {
    type V = MacroTableV;

    closed spec fn view(&self) -> MacroTableV {
        pairs_view(self.macros@)
    }
}

impl Unhygienic {
    /// An expander with no macros recorded yet.
    pub fn new() -> (r: Unhygienic)
        ensures
            r@ == Map::<Seq<char>, (Seq<Seq<char>>, NodeV)>::empty(),
    {
        let u = Unhygienic { macros: Vec::new() };
        proof {
            assert(u.macros@ =~= Seq::<(Str, MacroDef)>::empty());
        }
        u
    }
}

impl Folder for Unhygienic {
    /// A registered macro's invocation becomes its body with the arguments
    /// substituted for the parameters, unexpanded and not re-expanded; any
    /// other identifier-headed form is left for the fold to descend into.
    open spec fn ident_spec(m: MacroTableV, ns: Seq<NodeV>) -> (
        MacroTableV,
        Result<Option<NodeV>, Error>,
    ) {
        let name = ns[0]->Ident_0;
        if m.contains_key(name) {
            if ns.len() - 1 != m[name].0.len() {
                (m, Err(Error::MacroArity))
            } else {
                (m, Ok(Some(subst_spec(m[name].1, m[name].0, ns.skip(1)))))
            }
        } else {
            (m, Ok(None))
        }
    }

    /// A definition form `(macro name params... body)` records the macro and
    /// itself becomes the empty form.
    open spec fn macro_spec(m: MacroTableV, ns: Seq<NodeV>) -> (
        MacroTableV,
        Result<Option<NodeV>, Error>,
    ) {
        if ns.len() < 3 {
            (m, Err(Error::MalformedMacro))
        } else if !(ns[1] is Ident) {
            (m, Err(Error::ExpectedIdent))
        } else {
            match idents_of(ns.subrange(2, ns.len() - 1)) {
                Some(ps) => (
                    m.insert(ns[1]->Ident_0, (ps, ns.last())),
                    Ok(Some(NodeV::S(Seq::<NodeV>::empty()))),
                ),
                None => (m, Err(Error::ExpectedIdent)),
            }
        }
    }

    fn fold_ident(&mut self, ns: &Vec<Node>) -> (r: Result<Option<Node>, Error>) {
        #![verifier::loop_isolation(false)]
        let ghost nsv = nodes_view(ns@);
        let ghost m0 = pairs_view(self.macros@);
        proof {
            lemma_nodes_view_len(ns@);
            lemma_nodes_view_index(ns@, 0);
        }
        let name = match &ns[0] {
            Node::Ident(s) => s,
            _ => unreached(),
        };
        let mut j: usize = self.macros.len();
        while j > 0
            invariant
                j <= self.macros@.len(),
                forall|m: int| j <= m < self.macros@.len() ==> self.macros@[m].0@ != name@,
            decreases j,
        {
            j -= 1;
            if self.macros[j].0.eq_str(name) {
                proof {
                    lemma_pairs_view_found::<MacroDef>(self.macros@, name@, j as int);
                }
                let params = &self.macros[j].1.params;
                let body = &self.macros[j].1.body;
                if ns.len() - 1 != params.len() {
                    return Err(Error::MacroArity);
                }
                let mut args: Vec<Node> = Vec::new();
                proof {
                    assert(nodes_view(args@) =~= Seq::<NodeV>::empty());
                    assert(nsv.subrange(1, 1) =~= Seq::<NodeV>::empty());
                }
                let mut k: usize = 1;
                while k < ns.len()
                    invariant
                        1 <= k <= ns@.len(),
                        args@.len() == k - 1,
                        nodes_view(args@) == nsv.subrange(1, k as int),
                    decreases ns@.len() - k,
                {
                    proof {
                        lemma_nodes_view_index(ns@, k as int);
                        assert(nsv.subrange(1, k + 1).drop_last() =~= nsv.subrange(1, k as int));
                        assert(nsv.subrange(1, k + 1).last() == nsv[k as int]);
                    }
                    let ghost ab = args@;
                    let c = clone_node(&ns[k]);
                    args.push(c);
                    proof {
                        assert(args@.drop_last() =~= ab);
                        assert(nodes_view(args@) == nodes_view(ab).push(args@.last()@));
                        assert(nodes_view(args@) =~= nsv.subrange(1, k + 1));
                    }
                    k += 1;
                }
                proof {
                    assert(nsv.subrange(1, ns@.len() as int) =~= nsv.skip(1));
                    lemma_nodes_view_len(args@);
                }
                let replaced = subst(body, params, &args);
                return Ok(Some(replaced));
            }
        }
        proof {
            lemma_pairs_view_absent::<MacroDef>(self.macros@, name@);
        }
        Ok(None)
    }

    fn fold_macro(&mut self, ns: &Vec<Node>) -> (r: Result<Option<Node>, Error>) {
        #![verifier::loop_isolation(false)]
        let ghost nsv = nodes_view(ns@);
        proof {
            lemma_nodes_view_len(ns@);
        }
        if ns.len() < 3 {
            return Err(Error::MalformedMacro);
        }
        proof {
            lemma_nodes_view_index(ns@, 1);
        }
        let name = match &ns[1] {
            Node::Ident(s) => s.clone(),
            _ => {
                return Err(Error::ExpectedIdent);
            },
        };
        let ghost formsv = nsv.subrange(2, nsv.len() - 1);
        let last = ns.len() - 1;
        let mut params: Vec<Str> = Vec::new();
        proof {
            assert(formsv.take(0) =~= Seq::<NodeV>::empty());
            assert(strs_view(params@) =~= Seq::<Seq<char>>::empty());
        }
        let mut k: usize = 2;
        while k < last
            invariant
                2 <= k <= last,
                params@.len() == k - 2,
                idents_of(formsv.take(k - 2)) == Some(strs_view(params@)),
            decreases last - k,
        {
            proof {
                lemma_nodes_view_index(ns@, k as int);
                assert(formsv.take(k - 1).drop_last() =~= formsv.take(k - 2));
                assert(formsv.take(k - 1).last() == formsv[k - 2]);
                assert(formsv[k - 2] == nsv[k as int]);
            }
            match &ns[k] {
                Node::Ident(s) => {
                    let ghost pb = params@;
                    params.push(s.clone());
                    proof {
                        assert(params@.drop_last() =~= pb);
                        assert(strs_view(params@) =~= strs_view(pb).push(params@.last()@));
                    }
                },
                _ => {
                    proof {
                        assert(idents_of(formsv.take(k - 1)) is None);
                        crate::interpreter::lemma_idents_of_none(formsv, k - 2 + 1);
                    }
                    return Err(Error::ExpectedIdent);
                },
            }
            k += 1;
        }
        proof {
            assert(formsv.take(last - 2) =~= formsv);
            lemma_nodes_view_index(ns@, last as int);
            assert(nsv[last as int] == nsv.last());
        }
        let body = clone_node(&ns[last]);
        let ghost mb = self.macros@;
        let def = MacroDef { params, body };
        let ghost dv = def@;
        self.macros.push((name, def));
        proof {
            assert(self.macros@.drop_last() =~= mb);
            assert(pairs_view(self.macros@) == pairs_view(mb).insert(
                self.macros@.last().0@,
                self.macros@.last().1@,
            ));
            assert(nodes_view(Seq::<Node>::empty()) =~= Seq::<NodeV>::empty());
        }
        Ok(Some(Node::S(Vec::new())))
    }
}

} // verus!
