use vstd::prelude::*;
use crate::assoc::{
    pairs_view,
    lemma_pairs_view_found,
    lemma_pairs_view_absent,
    lemma_pairs_view_contains,
};
use crate::display::text_of;
use crate::error::Error;
use crate::lexer::Str;
use crate::parser::{
    Node,
    NodeV,
    node_view,
    nodes_view,
    clone_node,
    is_value_spec,
    lemma_nodes_view_len,
    lemma_nodes_view_index,
};

verus! {

/// The budget of head reductions one evaluation may spend before it reports
/// a non-terminating program. Each unit also stands for one level of
/// reduction depth, so the budget keeps runaway programs from exhausting the
/// call stack.
pub const EVAL_FUEL: u64 = 1024;

/// The mathematical value of an environment: the scopes, innermost last.
pub type EnvV = Seq<Map<Seq<char>, NodeV>>;

/// The lines an evaluation prints, in order.
pub type OutV = Seq<Seq<char>>;

/// The character sequences under a sequence of owned strings.
pub open spec fn strings_view(s: Seq<String>) -> Seq<Seq<char>> {
    s.map_values(|x: String| x@)
}

// ---------------------------------------------------------------------------
// Environment
// ---------------------------------------------------------------------------

/// A stack of scopes ("ribs"), each mapping names to already-evaluated
/// nodes. Lookup walks the scopes innermost to outermost.
pub struct Envr {
    ribs: Vec<Vec<(Str, Node)>>,
}

impl View for Envr {
    type V = EnvV;

    closed spec fn view(&self) -> EnvV {
        self.ribs@.map_values(|r: Vec<(Str, Node)>| pairs_view(r@))
    }
}

/// The first binding of a name, scanning scopes innermost to outermost.
pub open spec fn env_lookup(env: EnvV, name: Seq<char>) -> Option<NodeV>
    decreases env.len(),
{
    if env.len() == 0 {
        None
    } else if env.last().contains_key(name) {
        Some(env.last()[name])
    } else {
        env_lookup(env.drop_last(), name)
    }
}

fn rib_contains(rib: &Vec<(Str, Node)>, name: &Str) -> (r: bool)
    ensures
        r == pairs_view(rib@).contains_key(name@),
{
    let mut j: usize = 0;
    while j < rib.len()
        invariant
            j <= rib@.len(),
            forall|m: int| 0 <= m < j ==> rib@[m].0@ != name@,
        decreases rib@.len() - j,
    {
        if rib[j].0.eq_str(name) {
            proof {
                lemma_pairs_view_contains::<Node>(rib@, name@);
            }
            return true;
        }
        j += 1;
    }
    proof {
        lemma_pairs_view_absent::<Node>(rib@, name@);
    }
    false
}

/// Finds a name in one scope; the match is the binding the scope's mapping
/// holds.
fn rib_get(rib: &Vec<(Str, Node)>, name: &Str) -> (r: Option<Node>)
    ensures
        match r {
            Some(v) => pairs_view(rib@).contains_key(name@) && v@ == pairs_view(rib@)[name@],
            None => !pairs_view(rib@).contains_key(name@),
        },
{
    let mut j: usize = rib.len();
    while j > 0
        invariant
            j <= rib@.len(),
            forall|m: int| j <= m < rib@.len() ==> rib@[m].0@ != name@,
        decreases j,
    {
        j -= 1;
        if rib[j].0.eq_str(name) {
            proof {
                lemma_pairs_view_found::<Node>(rib@, name@, j as int);
            }
            return Some(clone_node(&rib[j].1));
        }
    }
    proof {
        lemma_pairs_view_absent::<Node>(rib@, name@);
    }
    None
}

impl Envr {
    /// An environment with no scopes at all.
    pub fn new() -> (r: Envr)
        ensures
            r@ == Seq::<Map<Seq<char>, NodeV>>::empty(),
    {
        let e = Envr { ribs: Vec::new() };
        proof {
            assert(e@ =~= Seq::<Map<Seq<char>, NodeV>>::empty());
        }
        e
    }

    /// An environment of one scope holding one binding.
    pub fn with_value(name: &str, value: Node) -> (r: Envr)
        ensures
            r@ == seq![Map::<Seq<char>, NodeV>::empty().insert(name@, value@)],
    {
        let ghost vv = value@;
        let mut rib: Vec<(Str, Node)> = Vec::new();
        rib.push((Str::new(name), value));
        proof {
            assert(rib@.drop_last() =~= Seq::<(Str, Node)>::empty());
            assert(rib@.last().0@ == name@);
            assert(rib@.last().1@ == vv);
            assert(pairs_view(rib@) == pairs_view(rib@.drop_last()).insert(
                rib@.last().0@,
                rib@.last().1@,
            ));
            assert(pairs_view(rib@.drop_last()) == pairs_view(Seq::<(Str, Node)>::empty()));
            assert(pairs_view(Seq::<(Str, Node)>::empty()) == Map::<Seq<char>, NodeV>::empty());
            assert(pairs_view(rib@) =~= Map::<Seq<char>, NodeV>::empty().insert(name@, vv));
        }
        let mut ribs: Vec<Vec<(Str, Node)>> = Vec::new();
        ribs.push(rib);
        let e = Envr { ribs };
        proof {
            assert(e@ =~= seq![Map::<Seq<char>, NodeV>::empty().insert(name@, vv)]);
        }
        e
    }

    /// Opens a new innermost scope.
    pub fn push_rib(&mut self)
        ensures
            final(self)@ == old(self)@.push(Map::<Seq<char>, NodeV>::empty()),
    {
        self.ribs.push(Vec::new());
        proof {
            assert(pairs_view(Seq::<(Str, Node)>::empty()) == Map::<Seq<char>, NodeV>::empty());
            assert(self@ =~= old(self)@.push(Map::<Seq<char>, NodeV>::empty()));
        }
    }

    /// Closes the innermost scope. Every scope opened during an evaluation
    /// is closed again on every exit path, also on failure.
    pub fn pop_rib(&mut self)
        requires
            old(self)@.len() > 0,
        ensures
            final(self)@ == old(self)@.drop_last(),
    {
        let _popped = self.ribs.pop();
        proof {
            assert(self@ =~= old(self)@.drop_last());
        }
    }

    /// Binds a name in the innermost scope; a name already bound in that
    /// same scope is a fatal duplicate, and the environment is unchanged.
    pub fn store(&mut self, name: &Str, value: Node) -> (r: Result<(), Error>)
        requires
            old(self)@.len() > 0,
        ensures
            match r {
                Ok(_) => !old(self)@.last().contains_key(name@) && final(self)@ == old(
                    self,
                )@.update(
                    old(self)@.len() - 1,
                    old(self)@.last().insert(name@, value@),
                ),
                Err(e) => {
                    &&& e == Error::DuplicateBinding
                    &&& old(self)@.last().contains_key(name@)
                    &&& final(self)@ == old(self)@
                },
            },
    {
        let ghost vv = value@;
        let ghost before = self.ribs@;
        let mut rib = self.ribs.pop().unwrap();
        if rib_contains(&rib, name) {
            self.ribs.push(rib);
            proof {
                assert(self.ribs@ =~= before);
                assert(self@ =~= old(self)@);
                assert(old(self)@.last() == pairs_view(before.last()@));
            }
            Err(Error::DuplicateBinding)
        } else {
            let ghost rb = rib@;
            rib.push((name.clone(), value));
            proof {
                assert(rib@.drop_last() =~= rb);
                assert(pairs_view(rib@) == pairs_view(rb).insert(name@, vv));
            }
            self.ribs.push(rib);
            proof {
                assert(old(self)@.last() == pairs_view(rb));
                assert(self@ =~= old(self)@.update(
                    old(self)@.len() - 1,
                    old(self)@.last().insert(name@, vv),
                ));
            }
            Ok(())
        }
    }

    /// Looks a name up, innermost scope first.
    pub fn lookup(&self, name: &Str) -> (r: Option<Node>)
        ensures
            match r {
                Some(v) => env_lookup(self@, name@) == Some(v@),
                None => env_lookup(self@, name@) is None,
            },
    {
        let mut j: usize = self.ribs.len();
        proof {
            assert(self@.take(j as int) =~= self@);
        }
        while j > 0
            invariant
                j <= self.ribs@.len(),
                self@.len() == self.ribs@.len(),
                env_lookup(self@, name@) == env_lookup(self@.take(j as int), name@),
            decreases j,
        {
            j -= 1;
            proof {
                assert(self@.take(j + 1).drop_last() =~= self@.take(j as int));
                assert(self@.take(j + 1).last() == self@[j as int]);
                assert(self@[j as int] == pairs_view(self.ribs@[j as int]@));
            }
            match rib_get(&self.ribs[j], name) {
                Some(v) => {
                    return Some(v);
                },
                None => {},
            }
        }
        proof {
            assert(self@.take(0) =~= Seq::<Map<Seq<char>, NodeV>>::empty());
        }
        None
    }
}

// ---------------------------------------------------------------------------
// What evaluation means
// ---------------------------------------------------------------------------

/// The parameter names of a sequence of identifier nodes, or `None` where
/// one of them is not an identifier.
pub open spec fn idents_of(s: Seq<NodeV>) -> Option<Seq<Seq<char>>>
    decreases s.len(),
{
    if s.len() == 0 {
        Some(Seq::<Seq<char>>::empty())
    } else {
        match idents_of(s.drop_last()) {
            Some(pre) => match s.last() {
                NodeV::Ident(nm) => Some(pre.push(nm)),
                _ => None,
            },
            None => None,
        }
    }
}

/// Binds formal parameters to argument values in one fresh scope, in order;
/// a repeated parameter name is a duplicate binding.
pub open spec fn bind_rib(
    m: Map<Seq<char>, NodeV>,
    formals: Seq<Seq<char>>,
    args: Seq<NodeV>,
) -> Option<Map<Seq<char>, NodeV>>
    decreases formals.len(),
{
    if formals.len() == 0 {
        Some(m)
    } else {
        match bind_rib(m, formals.drop_last(), args.drop_last()) {
            Some(m2) => {
                if m2.contains_key(formals.last()) {
                    None
                } else {
                    Some(m2.insert(formals.last(), args.last()))
                }
            },
            None => None,
        }
    }
}

/// Sums number literals left to right; a non-number is a type error and a
/// sum beyond `u32` is an overflow, whichever comes first.
pub open spec fn fold_plus(vals: Seq<NodeV>) -> Result<u32, Error>
    decreases vals.len(),
{
    if vals.len() == 0 {
        Ok(0u32)
    } else {
        match fold_plus(vals.drop_last()) {
            Ok(acc) => match vals.last() {
                NodeV::LitNum(k) => {
                    if acc + k > u32::MAX {
                        Err(Error::SumOverflow)
                    } else {
                        Ok((acc + k) as u32)
                    }
                },
                _ => Err(Error::NotANumber),
            },
            Err(e) => Err(e),
        }
    }
}

/// What evaluating one node returns, and what it prints. The fuel bounds
/// the head reductions of rule seven (evaluate the head, retry): with no
/// fuel left the evaluation reports a non-terminating program.
pub open spec fn eval_node(fuel: nat, n: NodeV, env: EnvV) -> (Result<NodeV, Error>, OutV)
    decreases fuel, n, 1int,
{
    if is_value_spec(n) {
        (Ok(n), Seq::<Seq<char>>::empty())
    } else {
        match n {
            NodeV::Ident(name) => (
                match env_lookup(env, name) {
                    Some(v) => Ok(v),
                    None => Err(Error::UnknownIdent),
                },
                Seq::<Seq<char>>::empty(),
            ),
            NodeV::S(ns) => eval_form(fuel, ns, env),
            _ => (Err(Error::UnexpectedNode), Seq::<Seq<char>>::empty()),
        }
    }
}

/// Evaluating a non-value form with at least one child.
pub open spec fn eval_form(fuel: nat, ns: Seq<NodeV>, env: EnvV) -> (Result<NodeV, Error>, OutV)
    decreases fuel, ns, 0int,
{
    if ns.len() == 0 {
        (Ok(NodeV::S(ns)), Seq::<Seq<char>>::empty())
    } else if ns[0] is Print {
        let (r, out) = eval_args(fuel, ns.skip(1), env);
        match r {
            Ok(vals) => (
                Ok(NodeV::S(Seq::<NodeV>::empty())),
                out + vals.map_values(|v: NodeV| text_of(v)),
            ),
            Err(e) => (Err(e), out),
        }
    } else if ns[0] is Plus {
        let (r, out) = eval_args(fuel, ns.skip(1), env);
        match r {
            Ok(vals) => match fold_plus(vals) {
                Ok(k) => (Ok(NodeV::LitNum(k)), out),
                Err(e) => (Err(e), out),
            },
            Err(e) => (Err(e), out),
        }
    } else if ns[0] is Let {
        if ns.len() < 2 {
            (Err(Error::LetNoBody), Seq::<Seq<char>>::empty())
        } else if (ns.len() - 2) % 2 != 0 {
            (Err(Error::LetOddArgs), Seq::<Seq<char>>::empty())
        } else {
            let (re, out1) = eval_let_pairs(
                fuel,
                ns.subrange(1, ns.len() - 1),
                env.push(Map::<Seq<char>, NodeV>::empty()),
            );
            match re {
                Ok(env2) => {
                    let (r2, out2) = eval_node(fuel, ns.last(), env2);
                    (r2, out1 + out2)
                },
                Err(e) => (Err(e), out1),
            }
        }
    } else if ns[0] is S && ns[0]->S_0.len() > 0 && ns[0]->S_0[0] is Fn {
        let sub = ns[0]->S_0;
        if sub.len() < 2 {
            (Err(Error::FnNoBody), Seq::<Seq<char>>::empty())
        } else {
            match idents_of(sub.subrange(1, sub.len() - 1)) {
                Some(formals) => {
                    let (ra, out1) = eval_args(fuel, ns.skip(1), env);
                    match ra {
                        Ok(args) => {
                            if args.len() != formals.len() {
                                (Err(Error::FnArity), out1)
                            } else {
                                match bind_rib(Map::<Seq<char>, NodeV>::empty(), formals, args) {
                                    Some(rib) => {
                                        let (r2, out2) = eval_node(fuel, sub.last(), env.push(rib));
                                        (r2, out1 + out2)
                                    },
                                    None => (Err(Error::DuplicateBinding), out1),
                                }
                            }
                        },
                        Err(e) => (Err(e), out1),
                    }
                },
                None => (Err(Error::ExpectedIdent), Seq::<Seq<char>>::empty()),
            }
        }
    } else {
        let (rh, out1) = eval_node(fuel, ns[0], env);
        match rh {
            Ok(h) => {
                if fuel == 0 {
                    (Err(Error::OutOfFuel), out1)
                } else {
                    let (r2, out2) = eval_node((fuel - 1) as nat, NodeV::S(seq![h] + ns.skip(1)), env);
                    (r2, out1 + out2)
                }
            },
            Err(e) => (Err(e), out1),
        }
    }
}

/// Evaluates children left to right, collecting their values and output; the
/// first failure wins, with the output printed up to it.
pub open spec fn eval_args(fuel: nat, s: Seq<NodeV>, env: EnvV) -> (Result<Seq<NodeV>, Error>, OutV)
    decreases fuel, s, 0int,
{
    if s.len() == 0 {
        (Ok(Seq::<NodeV>::empty()), Seq::<Seq<char>>::empty())
    } else {
        let (r1, out1) = eval_args(fuel, s.drop_last(), env);
        match r1 {
            Ok(vs) => {
                let (r2, out2) = eval_node(fuel, s.last(), env);
                match r2 {
                    Ok(v) => (Ok(vs.push(v)), out1 + out2),
                    Err(e) => (Err(e), out1 + out2),
                }
            },
            Err(e) => (Err(e), out1),
        }
    }
}

/// Evaluates the name/expression pairs of a `let` left to right, binding each
/// name in the innermost scope before the next pair is evaluated.
pub open spec fn eval_let_pairs(fuel: nat, pairs: Seq<NodeV>, env: EnvV) -> (
    Result<EnvV, Error>,
    OutV,
)
    decreases fuel, pairs, 0int,
{
    if pairs.len() < 2 {
        (Ok(env), Seq::<Seq<char>>::empty())
    } else {
        let (re, out1) = eval_let_pairs(fuel, pairs.take(pairs.len() - 2), env);
        match re {
            Ok(env2) => {
                let name = pairs[pairs.len() - 2];
                if !(name is Ident) {
                    (Err(Error::ExpectedIdent), out1)
                } else {
                    let (rv, out2) = eval_node(fuel, pairs.last(), env2);
                    match rv {
                        Ok(v) => {
                            if env2.len() > 0 && !env2.last().contains_key(name->Ident_0) {
                                (
                                    Ok(
                                        env2.update(
                                            env2.len() - 1,
                                            env2.last().insert(name->Ident_0, v),
                                        ),
                                    ),
                                    out1 + out2,
                                )
                            } else {
                                (Err(Error::DuplicateBinding), out1 + out2)
                            }
                        },
                        Err(e) => (Err(e), out1 + out2),
                    }
                }
            },
            Err(e) => (Err(e), out1),
        }
    }
}

/// Evaluates the top-level entries of a program, each in a fresh empty
/// environment; values are collected in order and output accumulates.
pub open spec fn run_entries(fuel: nat, ns: Seq<NodeV>) -> (Result<Seq<NodeV>, Error>, OutV)
    decreases ns.len(),
{
    if ns.len() == 0 {
        (Ok(Seq::<NodeV>::empty()), Seq::<Seq<char>>::empty())
    } else {
        let (r1, out1) = run_entries(fuel, ns.drop_last());
        match r1 {
            Ok(vs) => {
                let (r2, out2) = eval_node(fuel, ns.last(), Seq::<Map<Seq<char>, NodeV>>::empty());
                match r2 {
                    Ok(v) => (Ok(vs.push(v)), out1 + out2),
                    Err(e) => (Err(e), out1 + out2),
                }
            },
            Err(e) => (Err(e), out1),
        }
    }
}

/// What running a whole program returns and prints.
pub open spec fn run_program_spec(fuel: nat, p: NodeV) -> (Result<Seq<NodeV>, Error>, OutV) {
    match p {
        NodeV::Program(ns) => run_entries(fuel, ns),
        _ => (Err(Error::NotAProgram), Seq::<Seq<char>>::empty()),
    }
}

// ---------------------------------------------------------------------------
// A failing prefix settles the whole run
// ---------------------------------------------------------------------------

proof fn lemma_eval_args_err(fuel: nat, s: Seq<NodeV>, env: EnvV, k: int)
    requires
        0 <= k <= s.len(),
        eval_args(fuel, s.take(k), env).0 is Err,
    ensures
        eval_args(fuel, s, env) == eval_args(fuel, s.take(k), env),
    decreases s.len() - k,
{
    if k == s.len() {
        assert(s.take(k) =~= s);
    } else {
        assert(s.take(k + 1).drop_last() =~= s.take(k));
        lemma_eval_args_err(fuel, s, env, k + 1);
    }
}

proof fn lemma_let_pairs_err(fuel: nat, pairs: Seq<NodeV>, env: EnvV, k: int)
    requires
        0 <= k <= pairs.len(),
        (pairs.len() - k) % 2 == 0,
        eval_let_pairs(fuel, pairs.take(k), env).0 is Err,
    ensures
        eval_let_pairs(fuel, pairs, env) == eval_let_pairs(fuel, pairs.take(k), env),
    decreases pairs.len() - k,
{
    if k == pairs.len() {
        assert(pairs.take(k) =~= pairs);
    } else {
        assert(pairs.take(k + 2).take(k) =~= pairs.take(k));
        lemma_let_pairs_err(fuel, pairs, env, k + 2);
    }
}

proof fn lemma_fold_plus_err(s: Seq<NodeV>, k: int)
    requires
        0 <= k <= s.len(),
        fold_plus(s.take(k)) is Err,
    ensures
        fold_plus(s) == fold_plus(s.take(k)),
    decreases s.len() - k,
{
    if k == s.len() {
        assert(s.take(k) =~= s);
    } else {
        assert(s.take(k + 1).drop_last() =~= s.take(k));
        lemma_fold_plus_err(s, k + 1);
    }
}

pub proof fn lemma_idents_of_none(s: Seq<NodeV>, k: int)
    requires
        0 <= k <= s.len(),
        idents_of(s.take(k)) is None,
    ensures
        idents_of(s) is None,
    decreases s.len() - k,
{
    if k == s.len() {
        assert(s.take(k) =~= s);
    } else {
        assert(s.take(k + 1).drop_last() =~= s.take(k));
        lemma_idents_of_none(s, k + 1);
    }
}

proof fn lemma_run_entries_err(fuel: nat, s: Seq<NodeV>, k: int)
    requires
        0 <= k <= s.len(),
        run_entries(fuel, s.take(k)).0 is Err,
    ensures
        run_entries(fuel, s) == run_entries(fuel, s.take(k)),
    decreases s.len() - k,
{
    if k == s.len() {
        assert(s.take(k) =~= s);
    } else {
        assert(s.take(k + 1).drop_last() =~= s.take(k));
        lemma_run_entries_err(fuel, s, k + 1);
    }
}

// ---------------------------------------------------------------------------
// The evaluator
// ---------------------------------------------------------------------------

/// Evaluates every child after the head, left to right, in the caller's
/// environment.
fn run_args_from(
    ns: &Vec<Node>,
    start: usize,
    envr: &mut Envr,
    out: &mut Vec<String>,
    fuel: u64,
) -> (r: Result<Vec<Node>, Error>)
    requires
        start <= ns@.len(),
    ensures
        final(envr)@ == old(envr)@,
        ({
            let (sr, sout) = eval_args(fuel as nat, nodes_view(ns@).skip(start as int), old(envr)@);
            &&& strings_view(final(out)@) == strings_view(old(out)@) + sout
            &&& (match r {
                Ok(vs) => sr == Ok::<Seq<NodeV>, Error>(nodes_view(vs@)),
                Err(e) => sr == Err::<Seq<NodeV>, Error>(e),
            })
        }),
    decreases fuel, ns, 0int,
{
    #![verifier::loop_isolation(false)]
    let ghost argsv = nodes_view(ns@).skip(start as int);
    let ghost env0 = old(envr)@;
    let ghost out0 = strings_view(old(out)@);
    proof {
        lemma_nodes_view_len(ns@);
        assert(argsv.take(0) =~= Seq::<NodeV>::empty());
        assert(out0 + Seq::<Seq<char>>::empty() =~= out0);
    }
    let mut vals: Vec<Node> = Vec::new();
    proof {
        assert(nodes_view(vals@) =~= Seq::<NodeV>::empty());
    }
    let mut i: usize = start;
    while i < ns.len()
        invariant
            start <= i <= ns@.len(),
            argsv == nodes_view(ns@).skip(start as int),
            nodes_view(ns@).len() == ns@.len(),
            argsv.len() == ns@.len() - start,
            env0 == old(envr)@,
            out0 == strings_view(old(out)@),
            envr@ == env0,
            eval_args(fuel as nat, argsv.take(i - start), env0).0 == Ok::<Seq<NodeV>, Error>(
                nodes_view(vals@),
            ),
            strings_view(out@) == out0 + eval_args(fuel as nat, argsv.take(i - start), env0).1,
        decreases ns@.len() - i,
    {
        let ghost j = i - start;
        let ghost valsb = nodes_view(vals@);
        let ghost delta1 = eval_args(fuel as nat, argsv.take(j as int), env0).1;
        proof {
            lemma_nodes_view_index(ns@, i as int);
            assert(argsv[j as int] == nodes_view(ns@)[i as int]);
            assert(argsv.take(j + 1).drop_last() =~= argsv.take(j as int));
            assert(argsv.take(j + 1).last() == argsv[j as int]);
        }
        match run_node(&ns[i], envr, out, fuel) {
            Ok(v) => {
                proof {
                    let (sr2, so2) = eval_node(fuel as nat, argsv[j as int], env0);
                    assert(sr2 == Ok::<NodeV, Error>(v@));
                    assert(eval_args(fuel as nat, argsv.take(j + 1), env0).0 == Ok::<
                        Seq<NodeV>,
                        Error,
                    >(valsb.push(v@)));
                    assert(strings_view(out@) =~= out0 + (delta1 + so2));
                }
                let ghost vb2 = vals@;
                vals.push(v);
                proof {
                    assert(vals@.drop_last() =~= vb2);
                    assert(nodes_view(vals@) == valsb.push(vals@.last()@));
                }
            },
            Err(e) => {
                proof {
                    let (sr2, so2) = eval_node(fuel as nat, argsv[j as int], env0);
                    assert(sr2 == Err::<NodeV, Error>(e));
                    assert(eval_args(fuel as nat, argsv.take(j + 1), env0).0 == Err::<
                        Seq<NodeV>,
                        Error,
                    >(e));
                    assert(strings_view(out@) =~= out0 + (delta1 + so2));
                    lemma_eval_args_err(fuel as nat, argsv, env0, j + 1);
                }
                return Err(e);
            },
        }
        i += 1;
    }
    proof {
        assert(argsv.take(ns@.len() - start) =~= argsv);
    }
    Ok(vals)
}

/// Evaluates the arguments of a form (everything after the head).
pub fn run_args(s: &Node, envr: &mut Envr, out: &mut Vec<String>, fuel: u64) -> (r: Result<
    Vec<Node>,
    Error,
>)
    requires
        s is S,
        (s@)->S_0.len() > 0,
    ensures
        final(envr)@ == old(envr)@,
        ({
            let (sr, sout) = eval_args(fuel as nat, (s@)->S_0.skip(1), old(envr)@);
            &&& strings_view(final(out)@) == strings_view(old(out)@) + sout
            &&& (match r {
                Ok(vs) => sr == Ok::<Seq<NodeV>, Error>(nodes_view(vs@)),
                Err(e) => sr == Err::<Seq<NodeV>, Error>(e),
            })
        }),
{
    match s {
        Node::S(ns) => {
            proof {
                lemma_nodes_view_len(ns@);
                assert((s@)->S_0 == nodes_view(ns@));
            }
            run_args_from(ns, 1, envr, out, fuel)
        },
        _ => unreached(),
    }
}

/// Evaluates a `let` form: one fresh scope, the bindings made in order, the
/// body's value returned, the scope closed on every exit.
fn run_let(ns: &Vec<Node>, envr: &mut Envr, out: &mut Vec<String>, fuel: u64) -> (r: Result<
    Node,
    Error,
>)
    requires
        nodes_view(ns@).len() >= 2,
        nodes_view(ns@)[0] is Let,
        (nodes_view(ns@).len() - 2) % 2 == 0,
    ensures
        final(envr)@ == old(envr)@,
        ({
            let (sr, sout) = eval_form(fuel as nat, nodes_view(ns@), old(envr)@);
            &&& strings_view(final(out)@) == strings_view(old(out)@) + sout
            &&& (match r {
                Ok(v) => sr == Ok::<NodeV, Error>(v@),
                Err(e) => sr == Err::<NodeV, Error>(e),
            })
        }),
    decreases fuel, ns, 1int,
{
    #![verifier::loop_isolation(false)]
    let ghost nsv = nodes_view(ns@);
    let ghost env0 = old(envr)@;
    let ghost out0 = strings_view(old(out)@);
    let ghost pairsv = nsv.subrange(1, nsv.len() - 1);
    proof {
        lemma_nodes_view_len(ns@);
    }
    envr.push_rib();
    let ghost benv = env0.push(Map::<Seq<char>, NodeV>::empty());
    let last = ns.len() - 1;
    let mut k: usize = 1;
    proof {
        assert(pairsv.take(0) =~= Seq::<NodeV>::empty());
        assert(out0 + Seq::<Seq<char>>::empty() =~= out0);
        assert(envr@.drop_last() =~= env0);
    }
    while k < last
        invariant
            1 <= k <= last,
            (k - 1) % 2 == 0,
            last == ns@.len() - 1,
            nsv == nodes_view(ns@),
            nsv.len() == ns@.len(),
            nsv.len() >= 2,
            (nsv.len() - 2) % 2 == 0,
            pairsv == nsv.subrange(1, nsv.len() - 1),
            env0 == old(envr)@,
            out0 == strings_view(old(out)@),
            benv == env0.push(Map::<Seq<char>, NodeV>::empty()),
            eval_let_pairs(fuel as nat, pairsv.take(k - 1), benv).0 == Ok::<EnvV, Error>(envr@),
            strings_view(out@) == out0 + eval_let_pairs(fuel as nat, pairsv.take(k - 1), benv).1,
            envr@.len() == env0.len() + 1,
            envr@.drop_last() == env0,
        decreases last - k,
    {
        let ghost envb = envr@;
        let ghost delta1 = eval_let_pairs(fuel as nat, pairsv.take(k - 1), benv).1;
        proof {
            lemma_nodes_view_index(ns@, k as int);
            lemma_nodes_view_index(ns@, k + 1);
            assert(pairsv.take(k + 1).take(k - 1) =~= pairsv.take(k - 1));
            assert(pairsv.take(k + 1)[k - 1] == pairsv[k - 1]);
            assert(pairsv[k - 1] == nsv[k as int]);
            assert(pairsv.take(k + 1).last() == pairsv[k as int]);
            assert(pairsv[k as int] == nsv[k + 1]);
        }
        let name_ok = match &ns[k] {
            Node::Ident(_) => true,
            _ => false,
        };
        if !name_ok {
            proof {
                assert(eval_let_pairs(fuel as nat, pairsv.take(k + 1), benv).0 == Err::<
                    EnvV,
                    Error,
                >(Error::ExpectedIdent));
                lemma_let_pairs_err(fuel as nat, pairsv, benv, k + 1);
            }
            envr.pop_rib();
            return Err(Error::ExpectedIdent);
        }
        let v = match run_node(&ns[k + 1], envr, out, fuel) {
            Ok(v) => v,
            Err(e) => {
                proof {
                    let (sr2, so2) = eval_node(fuel as nat, nsv[k + 1], envb);
                    assert(sr2 == Err::<NodeV, Error>(e));
                    assert(eval_let_pairs(fuel as nat, pairsv.take(k + 1), benv).0 == Err::<
                        EnvV,
                        Error,
                    >(e));
                    assert(strings_view(out@) =~= out0 + (delta1 + so2));
                    lemma_let_pairs_err(fuel as nat, pairsv, benv, k + 1);
                }
                envr.pop_rib();
                return Err(e);
            },
        };
        let name = match &ns[k] {
            Node::Ident(s) => s,
            _ => unreached(),
        };
        let ghost so2 = eval_node(fuel as nat, nsv[k + 1], envb).1;
        match envr.store(name, v) {
            Ok(_) => {
                proof {
                    assert(eval_let_pairs(fuel as nat, pairsv.take(k + 1), benv).0 == Ok::<
                        EnvV,
                        Error,
                    >(envr@));
                    assert(strings_view(out@) =~= out0 + (delta1 + so2));
                    assert(envr@.drop_last() =~= env0);
                }
            },
            Err(e) => {
                proof {
                    assert(eval_let_pairs(fuel as nat, pairsv.take(k + 1), benv).0 == Err::<
                        EnvV,
                        Error,
                    >(Error::DuplicateBinding));
                    assert(strings_view(out@) =~= out0 + (delta1 + so2));
                    lemma_let_pairs_err(fuel as nat, pairsv, benv, k + 1);
                }
                envr.pop_rib();
                return Err(e);
            },
        }
        k += 2;
    }
    proof {
        assert(pairsv.take(k - 1) =~= pairsv);
        lemma_nodes_view_index(ns@, last as int);
        assert(nsv[last as int] == nsv.last());
    }
    let ghost env2 = envr@;
    let ghost delta1 = eval_let_pairs(fuel as nat, pairsv, benv).1;
    let body_res = run_node(&ns[last], envr, out, fuel);
    envr.pop_rib();
    proof {
        let (sr2, so2) = eval_node(fuel as nat, nsv.last(), env2);
        assert(strings_view(out@) =~= out0 + (delta1 + so2));
    }
    body_res
}

/// Applies a function-literal form: the call arguments are evaluated in the
/// caller's environment, the parameters bound in one fresh scope, and the
/// body evaluated there.
fn run_apply(ns: &Vec<Node>, envr: &mut Envr, out: &mut Vec<String>, fuel: u64) -> (r: Result<
    Node,
    Error,
>)
    requires
        nodes_view(ns@).len() > 0,
        nodes_view(ns@)[0] is S,
        nodes_view(ns@)[0]->S_0.len() > 0,
        nodes_view(ns@)[0]->S_0[0] is Fn,
    ensures
        final(envr)@ == old(envr)@,
        ({
            let (sr, sout) = eval_form(fuel as nat, nodes_view(ns@), old(envr)@);
            &&& strings_view(final(out)@) == strings_view(old(out)@) + sout
            &&& (match r {
                Ok(v) => sr == Ok::<NodeV, Error>(v@),
                Err(e) => sr == Err::<NodeV, Error>(e),
            })
        }),
    decreases fuel, ns, 1int,
{
    #![verifier::loop_isolation(false)]
    let ghost nsv = nodes_view(ns@);
    let ghost env0 = old(envr)@;
    let ghost out0 = strings_view(old(out)@);
    proof {
        lemma_nodes_view_len(ns@);
        lemma_nodes_view_index(ns@, 0);
        assert(out0 + Seq::<Seq<char>>::empty() =~= out0);
    }
    let sub = match &ns[0] {
        Node::S(sub) => sub,
        _ => unreached(),
    };
    let ghost subv = nodes_view(sub@);
    proof {
        assert(nsv[0] == node_view(ns@[0]));
        assert(nsv[0]->S_0 == subv);
        lemma_nodes_view_len(sub@);
    }
    if sub.len() < 2 {
        return Err(Error::FnNoBody);
    }
    let ghost formsv = subv.subrange(1, subv.len() - 1);
    let sub_last = sub.len() - 1;
    let mut formals: Vec<Str> = Vec::new();
    proof {
        assert(formsv.take(0) =~= Seq::<NodeV>::empty());
        assert(crate::lexer::strs_view(formals@) =~= Seq::<Seq<char>>::empty());
    }
    let mut j: usize = 1;
    while j < sub_last
        invariant
            1 <= j <= sub_last,
            sub_last == sub@.len() - 1,
            subv == nodes_view(sub@),
            subv.len() == sub@.len(),
            subv.len() >= 2,
            formsv == subv.subrange(1, subv.len() - 1),
            formals@.len() == j - 1,
            idents_of(formsv.take(j - 1)) == Some(crate::lexer::strs_view(formals@)),
        decreases sub_last - j,
    {
        proof {
            lemma_nodes_view_index(sub@, j as int);
            assert(formsv.take(j as int).drop_last() =~= formsv.take(j - 1));
            assert(formsv.take(j as int).last() == formsv[j - 1]);
            assert(formsv[j - 1] == subv[j as int]);
        }
        match &sub[j] {
            Node::Ident(s) => {
                let ghost fb = formals@;
                formals.push(s.clone());
                proof {
                    assert(formals@.drop_last() =~= fb);
                    assert(crate::lexer::strs_view(formals@) =~= crate::lexer::strs_view(
                        fb,
                    ).push(formals@.last()@));
                }
            },
            _ => {
                proof {
                    assert(idents_of(formsv.take(j as int)) is None);
                    lemma_idents_of_none(formsv, j as int);
                }
                return Err(Error::ExpectedIdent);
            },
        }
        j += 1;
    }
    proof {
        assert(formsv.take(sub_last - 1) =~= formsv);
    }
    let ghost fvs = crate::lexer::strs_view(formals@);
    let args = match run_args_from(ns, 1, envr, out, fuel) {
        Ok(a) => a,
        Err(e) => {
            return Err(e);
        },
    };
    let ghost avs = nodes_view(args@);
    let ghost delta1 = eval_args(fuel as nat, nsv.skip(1), env0).1;
    proof {
        lemma_nodes_view_len(args@);
    }
    if args.len() != formals.len() {
        return Err(Error::FnArity);
    }
    envr.push_rib();
    proof {
        assert(fvs.take(0) =~= Seq::<Seq<char>>::empty());
        assert(avs.take(0) =~= Seq::<NodeV>::empty());
        assert(bind_rib(Map::<Seq<char>, NodeV>::empty(), fvs.take(0), avs.take(0)) == Some(
            Map::<Seq<char>, NodeV>::empty(),
        ));
        assert(envr@.drop_last() =~= env0);
    }
    let mut b: usize = 0;
    while b < formals.len()
        invariant
            b <= formals@.len(),
            formals@.len() == args@.len(),
            fvs == crate::lexer::strs_view(formals@),
            avs == nodes_view(args@),
            fvs.len() == formals@.len(),
            avs.len() == args@.len(),
            env0 == old(envr)@,
            envr@.len() == env0.len() + 1,
            envr@.drop_last() == env0,
            bind_rib(Map::<Seq<char>, NodeV>::empty(), fvs.take(b as int), avs.take(b as int))
                == Some(envr@.last()),
        decreases formals@.len() - b,
    {
        proof {
            lemma_nodes_view_index(args@, b as int);
            assert(fvs.take(b + 1).drop_last() =~= fvs.take(b as int));
            assert(fvs.take(b + 1).last() == fvs[b as int]);
            assert(avs.take(b + 1).drop_last() =~= avs.take(b as int));
            assert(avs.take(b + 1).last() == avs[b as int]);
        }
        let value = clone_node(&args[b]);
        match envr.store(&formals[b], value) {
            Ok(_) => {
                proof {
                    assert(envr@.drop_last() =~= env0);
                    assert(bind_rib(
                        Map::<Seq<char>, NodeV>::empty(),
                        fvs.take(b + 1),
                        avs.take(b + 1),
                    ) == Some(envr@.last()));
                }
            },
            Err(e) => {
                proof {
                    assert(bind_rib(
                        Map::<Seq<char>, NodeV>::empty(),
                        fvs.take(b + 1),
                        avs.take(b + 1),
                    ) is None);
                    lemma_bind_rib_none(Map::<Seq<char>, NodeV>::empty(), fvs, avs, b + 1);
                }
                envr.pop_rib();
                return Err(Error::DuplicateBinding);
            },
        }
        b += 1;
    }
    proof {
        assert(fvs.take(formals@.len() as int) =~= fvs);
        assert(avs.take(args@.len() as int) =~= avs);
        assert(envr@ =~= env0.push(envr@.last()));
        lemma_nodes_view_index(sub@, sub_last as int);
        assert(subv[sub_last as int] == subv.last());
    }
    let ghost env2 = envr@;
    let body_res = run_node(&sub[sub_last], envr, out, fuel);
    envr.pop_rib();
    proof {
        let (sr2, so2) = eval_node(fuel as nat, subv.last(), env2);
        assert(strings_view(out@) =~= out0 + (delta1 + so2));
    }
    body_res
}

proof fn lemma_bind_rib_none(
    m: Map<Seq<char>, NodeV>,
    formals: Seq<Seq<char>>,
    args: Seq<NodeV>,
    k: int,
)
    requires
        0 <= k <= formals.len(),
        formals.len() == args.len(),
        bind_rib(m, formals.take(k), args.take(k)) is None,
    ensures
        bind_rib(m, formals, args) is None,
    decreases formals.len() - k,
{
    if k == formals.len() {
        assert(formals.take(k) =~= formals);
        assert(args.take(k) =~= args);
    } else {
        assert(formals.take(k + 1).drop_last() =~= formals.take(k));
        assert(args.take(k + 1).drop_last() =~= args.take(k));
        lemma_bind_rib_none(m, formals, args, k + 1);
    }
}

/// Evaluates one non-value form, dispatching on its head.
#[verifier::rlimit(100)]
fn run_form(ns: &Vec<Node>, envr: &mut Envr, out: &mut Vec<String>, fuel: u64) -> (r: Result<
    Node,
    Error,
>)
    requires
        nodes_view(ns@).len() > 0,
    ensures
        final(envr)@ == old(envr)@,
        ({
            let (sr, sout) = eval_form(fuel as nat, nodes_view(ns@), old(envr)@);
            &&& strings_view(final(out)@) == strings_view(old(out)@) + sout
            &&& (match r {
                Ok(v) => sr == Ok::<NodeV, Error>(v@),
                Err(e) => sr == Err::<NodeV, Error>(e),
            })
        }),
    decreases fuel, ns, 2int,
{
    #![verifier::loop_isolation(false)]
    let ghost nsv = nodes_view(ns@);
    let ghost env0 = old(envr)@;
    let ghost out0 = strings_view(old(out)@);
    proof {
        lemma_nodes_view_len(ns@);
        lemma_nodes_view_index(ns@, 0);
        assert(nsv[0] == node_view(ns@[0]));
        assert(out0 + Seq::<Seq<char>>::empty() =~= out0);
    }
    match &ns[0] {
        Node::Print => {
            let vals = match run_args_from(ns, 1, envr, out, fuel) {
                Ok(v) => v,
                Err(e) => {
                    return Err(e);
                },
            };
            let ghost valsv = nodes_view(vals@);
            let ghost base = strings_view(out@);
            proof {
                lemma_nodes_view_len(vals@);
                assert(valsv.take(0).map_values(|v: NodeV| text_of(v)) =~= Seq::<
                    Seq<char>,
                >::empty());
                assert(base + Seq::<Seq<char>>::empty() =~= base);
            }
            let mut p: usize = 0;
            while p < vals.len()
                invariant
                    p <= vals@.len(),
                    valsv == nodes_view(vals@),
                    valsv.len() == vals@.len(),
                    strings_view(out@) == base + valsv.take(p as int).map_values(
                        |v: NodeV| text_of(v),
                    ),
                decreases vals@.len() - p,
            {
                let line = vals[p].to_text();
                let ghost ob = out@;
                out.push(line);
                proof {
                    lemma_nodes_view_index(vals@, p as int);
                    assert(out@.drop_last() =~= ob);
                    assert(strings_view(out@) =~= strings_view(ob).push(out@.last()@));
                    assert(valsv.take(p + 1).map_values(|v: NodeV| text_of(v)) =~= valsv.take(
                        p as int,
                    ).map_values(|v: NodeV| text_of(v)).push(text_of(valsv[p as int])));
                }
                p += 1;
            }
            proof {
                assert(valsv.take(vals@.len() as int) =~= valsv);
                let (sa, so) = eval_args(fuel as nat, nsv.skip(1), env0);
                assert(strings_view(out@) =~= out0 + (so + valsv.map_values(
                    |v: NodeV| text_of(v),
                )));
                assert(nodes_view(Seq::<Node>::empty()) =~= Seq::<NodeV>::empty());
            }
            Ok(Node::S(Vec::new()))
        },
        Node::Plus => {
            let vals = match run_args_from(ns, 1, envr, out, fuel) {
                Ok(v) => v,
                Err(e) => {
                    return Err(e);
                },
            };
            let ghost valsv = nodes_view(vals@);
            proof {
                lemma_nodes_view_len(vals@);
                assert(valsv.take(0) =~= Seq::<NodeV>::empty());
            }
            let mut acc: u32 = 0;
            let mut p: usize = 0;
            while p < vals.len()
                invariant
                    p <= vals@.len(),
                    valsv == nodes_view(vals@),
                    valsv.len() == vals@.len(),
                    fold_plus(valsv.take(p as int)) == Ok::<u32, Error>(acc),
                decreases vals@.len() - p,
            {
                proof {
                    lemma_nodes_view_index(vals@, p as int);
                    assert(valsv.take(p + 1).drop_last() =~= valsv.take(p as int));
                    assert(valsv.take(p + 1).last() == valsv[p as int]);
                }
                match &vals[p] {
                    Node::LitNum(x) => {
                        if acc > u32::MAX - *x {
                            proof {
                                assert(fold_plus(valsv.take(p + 1)) == Err::<u32, Error>(
                                    Error::SumOverflow,
                                ));
                                lemma_fold_plus_err(valsv, p + 1);
                            }
                            return Err(Error::SumOverflow);
                        }
                        acc = acc + *x;
                    },
                    _ => {
                        proof {
                            assert(fold_plus(valsv.take(p + 1)) == Err::<u32, Error>(
                                Error::NotANumber,
                            ));
                            lemma_fold_plus_err(valsv, p + 1);
                        }
                        return Err(Error::NotANumber);
                    },
                }
                p += 1;
            }
            proof {
                assert(valsv.take(vals@.len() as int) =~= valsv);
            }
            Ok(Node::LitNum(acc))
        },
        Node::Let => {
            if ns.len() < 2 {
                return Err(Error::LetNoBody);
            }
            if (ns.len() - 2) % 2 != 0 {
                return Err(Error::LetOddArgs);
            }
            run_let(ns, envr, out, fuel)
        },
        _ => {
            let fn_headed = match &ns[0] {
                Node::S(sub) => sub.len() > 0 && (match &sub[0] {
                    Node::Fn => true,
                    _ => false,
                }),
                _ => false,
            };
            proof {
                if ns@[0] is S {
                    let subv = nodes_view(ns@[0]->S_0@);
                    lemma_nodes_view_len(ns@[0]->S_0@);
                    if ns@[0]->S_0@.len() > 0 {
                        lemma_nodes_view_index(ns@[0]->S_0@, 0);
                    }
                }
            }
            if fn_headed {
                run_apply(ns, envr, out, fuel)
            } else {
                let head = match run_node(&ns[0], envr, out, fuel) {
                    Ok(h) => h,
                    Err(e) => {
                        return Err(e);
                    },
                };
                let ghost delta1 = eval_node(fuel as nat, nsv[0], env0).1;
                if fuel == 0 {
                    return Err(Error::OutOfFuel);
                }
                let ghost hv = head@;
                let mut reduced: Vec<Node> = Vec::new();
                reduced.push(head);
                proof {
                    assert(reduced@.drop_last() =~= Seq::<Node>::empty());
                    assert(nodes_view(Seq::<Node>::empty()) =~= Seq::<NodeV>::empty());
                    assert(reduced@.last()@ == hv);
                    assert(nodes_view(reduced@) =~= seq![hv] + nsv.subrange(1, 1));
                }
                let mut q: usize = 1;
                while q < ns.len()
                    invariant
                        1 <= q <= ns@.len(),
                        nsv == nodes_view(ns@),
                        nsv.len() == ns@.len(),
                        reduced@.len() == q,
                        nodes_view(reduced@) == seq![hv] + nsv.subrange(1, q as int),
                    decreases ns@.len() - q,
                {
                    let ghost rb = reduced@;
                    let c = clone_node(&ns[q]);
                    reduced.push(c);
                    proof {
                        lemma_nodes_view_index(ns@, q as int);
                        assert(reduced@.drop_last() =~= rb);
                        assert(nodes_view(reduced@) == nodes_view(rb).push(reduced@.last()@));
                        assert(nodes_view(reduced@) =~= seq![hv] + nsv.subrange(1, q + 1));
                    }
                    q += 1;
                }
                proof {
                    assert(nsv.subrange(1, nsv.len() as int) =~= nsv.skip(1));
                }
                let form = Node::S(reduced);
                let res = run_node(&form, envr, out, fuel - 1);
                proof {
                    let (sr2, so2) = eval_node(
                        (fuel - 1) as nat,
                        NodeV::S(seq![hv] + nsv.skip(1)),
                        env0,
                    );
                    assert(strings_view(out@) =~= out0 + (delta1 + so2));
                }
                res
            }
        },
    }
}

/// Evaluates one node under an environment. The environment is exactly as
/// before on every exit, also on failure; the output grows by what the
/// evaluation printed, in order.
pub fn run_node(input: &Node, envr: &mut Envr, out: &mut Vec<String>, fuel: u64) -> (r: Result<
    Node,
    Error,
>)
    ensures
        final(envr)@ == old(envr)@,
        ({
            let (sr, sout) = eval_node(fuel as nat, input@, old(envr)@);
            &&& strings_view(final(out)@) == strings_view(old(out)@) + sout
            &&& (match r {
                Ok(v) => sr == Ok::<NodeV, Error>(v@),
                Err(e) => sr == Err::<NodeV, Error>(e),
            })
        }),
    decreases fuel, input, 3int,
{
    proof {
        assert(strings_view(out@) + Seq::<Seq<char>>::empty() =~= strings_view(out@));
    }
    if input.is_value() {
        let c = clone_node(input);
        return Ok(c);
    }
    match input {
        Node::Ident(s) => {
            match envr.lookup(s) {
                Some(v) => Ok(v),
                None => Err(Error::UnknownIdent),
            }
        },
        Node::S(ns) => {
            proof {
                lemma_nodes_view_len(ns@);
                assert(input@ == NodeV::S(nodes_view(ns@)));
            }
            run_form(ns, envr, out, fuel)
        },
        _ => Err(Error::UnexpectedNode),
    }
}

/// Runs a whole program: each top-level entry is evaluated in a fresh, empty
/// environment, values collected in order, printed lines appended to `out`.
pub fn run_program(input: &Node, out: &mut Vec<String>) -> (r: Result<Vec<Node>, Error>)
    ensures
        ({
            let (sr, sout) = run_program_spec(EVAL_FUEL as nat, input@);
            &&& strings_view(final(out)@) == strings_view(old(out)@) + sout
            &&& (match r {
                Ok(vs) => sr == Ok::<Seq<NodeV>, Error>(nodes_view(vs@)),
                Err(e) => sr == Err::<Seq<NodeV>, Error>(e),
            })
        }),
{
    #![verifier::loop_isolation(false)]
    let ghost out0 = strings_view(old(out)@);
    proof {
        assert(out0 + Seq::<Seq<char>>::empty() =~= out0);
    }
    match input {
        Node::Program(ns) => {
            let ghost nsv = nodes_view(ns@);
            proof {
                lemma_nodes_view_len(ns@);
                assert(input@ == NodeV::Program(nsv));
                assert(nsv.take(0) =~= Seq::<NodeV>::empty());
            }
            let mut result: Vec<Node> = Vec::new();
            proof {
                assert(nodes_view(result@) =~= Seq::<NodeV>::empty());
            }
            let mut i: usize = 0;
            while i < ns.len()
                invariant
                    i <= ns@.len(),
                    nsv == nodes_view(ns@),
                    nsv.len() == ns@.len(),
                    out0 == strings_view(old(out)@),
                    run_entries(EVAL_FUEL as nat, nsv.take(i as int)).0 == Ok::<
                        Seq<NodeV>,
                        Error,
                    >(nodes_view(result@)),
                    strings_view(out@) == out0 + run_entries(EVAL_FUEL as nat, nsv.take(i as int)).1,
                decreases ns@.len() - i,
            {
                let ghost rb = nodes_view(result@);
                let ghost delta1 = run_entries(EVAL_FUEL as nat, nsv.take(i as int)).1;
                proof {
                    lemma_nodes_view_index(ns@, i as int);
                    assert(nsv.take(i + 1).drop_last() =~= nsv.take(i as int));
                    assert(nsv.take(i + 1).last() == nsv[i as int]);
                }
                let mut envr = Envr::new();
                match run_node(&ns[i], &mut envr, out, EVAL_FUEL) {
                    Ok(v) => {
                        proof {
                            let (sr2, so2) = eval_node(
                                EVAL_FUEL as nat,
                                nsv[i as int],
                                Seq::<Map<Seq<char>, NodeV>>::empty(),
                            );
                            assert(strings_view(out@) =~= out0 + (delta1 + so2));
                        }
                        let ghost rb2 = result@;
                        result.push(v);
                        proof {
                            assert(result@.drop_last() =~= rb2);
                            assert(nodes_view(result@) == rb.push(result@.last()@));
                        }
                    },
                    Err(e) => {
                        proof {
                            let (sr2, so2) = eval_node(
                                EVAL_FUEL as nat,
                                nsv[i as int],
                                Seq::<Map<Seq<char>, NodeV>>::empty(),
                            );
                            assert(strings_view(out@) =~= out0 + (delta1 + so2));
                            lemma_run_entries_err(EVAL_FUEL as nat, nsv, i + 1);
                        }
                        return Err(e);
                    },
                }
                i += 1;
            }
            proof {
                assert(nsv.take(ns@.len() as int) =~= nsv);
            }
            Ok(result)
        },
        _ => Err(Error::NotAProgram),
    }
}

} // verus!
