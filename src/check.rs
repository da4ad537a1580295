use vstd::prelude::*;
use crate::generalize::{generalize, generalized};
use crate::infer::{
    all_below, GlobalTypeEnv, Local, LocalTypeEnv, constrain, infer, infer_stream, lemma_infer_mono, stream_scoped,
};
use crate::bounds::{env_below, lemma_body_prefix_next, lemma_def_below, lemma_env_after_below};
use crate::scope::{lemma_program_scoped, program_uses_bound};
use crate::syntax::{Definition, Program, Statement, Stream};
use crate::types::{MachineType, Scheme, Ty, Type, TypeError, below, ground, ty_of};
use crate::unify::{Substitution, absorbs, apply, clash, error_explained, lemma_absorbs_empty, solves_from, subst_wf, unify_types};

verus! {

/// `names` bound, in order, to the fresh variables numbered from `base`.
pub open spec fn let_bindings(names: Seq<String>, base: nat) -> Seq<(Seq<char>, Ty)> {
    Seq::new(names.len(), |i: int| (names[i]@, Ty::Infer(base + i as nat)))
}

/// The tuple of the `n` fresh variables numbered from `base`.
pub open spec fn fresh_tuple(n: nat, base: nat) -> Ty {
    Ty::Tuple(Seq::new(n, |i: int| Ty::Infer(base + i as nat)))
}

pub open spec fn stmt_stream(st: Statement) -> Stream {
    match st {
        Statement::Consume(s) => s,
        Statement::Let(_, s) => s,
    }
}

/// The state after checking the statement `st`.
pub open spec fn check_stmt(g: Seq<(Seq<char>, Scheme)>, l: Local, st: Statement) -> Local {
    match st {
        Statement::Consume(s) => infer(g, l, s).1,
        Statement::Let(names, s) => {
            let (t, l1) = infer(g, l, s);
            if names@.len() == 1 {
                Local { vars: l1.vars.push((names@[0]@, t)), ..l1 }
            } else {
                Local {
                    vars: l1.vars + let_bindings(names@, l1.next),
                    cs: l1.cs.push((fresh_tuple(names@.len(), l1.next), t)),
                    next: l1.next + names@.len(),
                }
            }
        },
    }
}

/// The state after checking each statement of `body` in order.
pub open spec fn check_body(g: Seq<(Seq<char>, Scheme)>, l: Local, body: Seq<Statement>) -> Local
    decreases body.len(),
{
    if body.len() == 0 {
        l
    } else {
        check_stmt(g, check_body(g, l, body.drop_last()), body.last())
    }
}

/// Every statement of `body` names only variables bound before it, and known machines.
pub open spec fn body_scoped(g: Seq<(Seq<char>, Scheme)>, l: Local, body: Seq<Statement>) -> bool
    decreases body.len(),
{
    body.len() == 0 || (body_scoped(g, l, body.drop_last()) && stream_scoped(
        check_body(g, l, body.drop_last()).vars,
        g,
        stmt_stream(body.last()),
    ))
}

/// The still unknown type of a definition while its body is checked.
pub open spec fn placeholder() -> Scheme {
    Scheme { count: 0, input: Ty::Infer(0), output: Ty::Infer(1) }
}

/// The machine schemes seen inside definition `d`: those before it, and its own placeholder.
pub open spec fn def_env(g: Seq<(Seq<char>, Scheme)>, d: Definition) -> Seq<(Seq<char>, Scheme)> {
    g.push((d.name@, placeholder()))
}

pub open spec fn start_state() -> Local {
    Local { vars: seq![], cs: seq![], next: 2 }
}

/// The state after checking the whole of definition `d`; its constraints are what must be solved.
pub open spec fn def_state(g: Seq<(Seq<char>, Scheme)>, d: Definition) -> Local {
    let g1 = def_env(g, d);
    let l1 = check_body(g1, start_state(), d.body@);
    let (rt, l2) = infer(g1, l1, d.result);
    constrain(l2, Ty::Infer(1), rt)
}

/// Every name that definition `d` uses is bound where it is used.
pub open spec fn def_scoped(g: Seq<(Seq<char>, Scheme)>, d: Definition) -> bool {
    let g1 = def_env(g, d);
    body_scoped(g1, start_state(), d.body@) && stream_scoped(
        check_body(g1, start_state(), d.body@).vars,
        g1,
        d.result,
    )
}

/// `s` makes both sides of every constraint of `cs` equal.
pub open spec fn solves(s: Seq<Option<Ty>>, cs: Seq<(Ty, Ty)>) -> bool {
    forall|i: int| 0 <= i < cs.len() ==> apply(s, #[trigger] cs[i].0) == apply(s, cs[i].1)
}

/// The schemes known after the first `k` definitions, each solved by the substitution at its place.
pub open spec fn env_after(defs: Seq<Definition>, subs: Seq<Seq<Option<Ty>>>, k: nat) -> Seq<(Seq<char>, Scheme)>
    decreases k,
{
    if k == 0 {
        seq![]
    } else {
        let g = env_after(defs, subs, (k - 1) as nat);
        let d = defs[k - 1];
        def_env(g, d).push((d.name@, generalized(subs[k - 1], placeholder())))
    }
}

/// The constraints before place `k` have a solution, and with the one at `k` they have none:
/// the constraint at `k` is the first that cannot be met.
pub open spec fn first_unsolvable(cs: Seq<(Ty, Ty)>, k: int) -> bool {
    &&& exists|u: Seq<Option<Ty>>| #[trigger] solves(u, cs.take(k))
    &&& forall|u: Seq<Option<Ty>>| !#[trigger] solves(u, cs.take(k + 1))
}

/// `s` solves the constraints `cs`, and every solution of them refines `s`.
pub open spec fn most_general(s: Seq<Option<Ty>>, cs: Seq<(Ty, Ty)>) -> bool {
    &&& subst_wf(s)
    &&& solves(s, cs)
    &&& forall|u: Seq<Option<Ty>>| #[trigger] solves(u, cs) ==> absorbs(s, u)
}

/// Each definition, checked against the schemes of those before it, has constraints of which
/// the substitution at its place is a most general solution.
pub open spec fn solved_in_order(defs: Seq<Definition>, subs: Seq<Seq<Option<Ty>>>) -> bool {
    &&& subs.len() == defs.len()
    &&& forall|k: int| 0 <= k < defs.len() ==> most_general(
        #[trigger] subs[k],
        def_state(env_after(defs, subs, k as nat), defs[k]).cs,
    )
}

/// What error `e` says of constraint `c`, met after a substitution `s`: it is explained by its
/// operands; where `c` differs at the top once `s` is applied, or one side is then ground, it
/// is `CannotUnify`; and where
/// `c` differs at the top as written, it carries the two sides of `c`.
pub open spec fn error_for(s: Seq<Option<Ty>>, c: (Ty, Ty), e: TypeError) -> bool {
    &&& error_explained(e)
    &&& clash(apply(s, c.0), apply(s, c.1)) ==> e is CannotUnify
    &&& ground(apply(s, c.0)) || ground(apply(s, c.1)) ==> e is CannotUnify
    &&& clash(c.0, c.1) ==> e is CannotUnify && ty_of(e->CannotUnify_0) == c.0 && ty_of(e->CannotUnify_1) == c.1
}

/// Solving `cs` in order fails with `e`: at the first constraint that cannot be met, after a
/// most general solution of those before it.
pub open spec fn fails_with(cs: Seq<(Ty, Ty)>, e: TypeError) -> bool {
    exists|k: int, sk: Seq<Option<Ty>>|
        0 <= k < cs.len() && first_unsolvable(cs, k) && most_general(sk, cs.take(k)) && #[trigger] error_for(
            sk,
            cs[k],
            e,
        )
}

/// The first `k` definitions are solved as in `solved_in_order`, and definition `k`, checked
/// against their schemes, has constraints with no solution at all; solving them fails with `e`.
pub open spec fn fails_at(defs: Seq<Definition>, subs: Seq<Seq<Option<Ty>>>, k: nat, e: TypeError) -> bool {
    &&& subs.len() == k
    &&& k < defs.len()
    &&& forall|j: int| 0 <= j < k ==> most_general(
        #[trigger] subs[j],
        def_state(env_after(defs, subs, j as nat), defs[j]).cs,
    )
    &&& forall|u: Seq<Option<Ty>>| !#[trigger] solves(u, def_state(env_after(defs, subs, k), defs[k as int]).cs)
    &&& fails_with(def_state(env_after(defs, subs, k), defs[k as int]).cs, e)
}

/// Every name in every definition is bound where it is used, checking in order.
pub open spec fn program_scoped_with(defs: Seq<Definition>, subs: Seq<Seq<Option<Ty>>>) -> bool {
    forall|k: int| 0 <= k < defs.len() ==> def_scoped(env_after(defs, subs, k as nat), #[trigger] defs[k])
}

/// Checks one statement, binding the names it introduces.
pub fn check_statement(g: &GlobalTypeEnv, l: &mut LocalTypeEnv, st: &Statement) -> (r: Result<(), TypeError>)
    requires
        g.wf(),
        old(l).wf(),
        stream_scoped(old(l).model().vars, g.model(), stmt_stream(*st)),
    ensures
        final(l).wf(),
        r is Ok <==> check_stmt(g.model(), old(l).model(), *st).next <= usize::MAX,
        r is Ok ==> final(l).model() == check_stmt(g.model(), old(l).model(), *st),
        r is Err ==> r->Err_0 == TypeError::OutOfVariables,
{
    let ghost l0 = l.model();
    proof {
        lemma_infer_mono(g.model(), l0, stmt_stream(*st));
    }
    match st {
        Statement::Consume(s) => {
            match infer_stream(g, l, s) {
                Ok(_) => {
                    proof {
                        l.lemma_next_fits();
                    }
                    Ok(())
                },
                Err(e) => Err(e),
            }
        },
        Statement::Let(names, s) => {
            let t = match infer_stream(g, l, s) {
                Ok(t) => t,
                Err(e) => {
                    return Err(e);
                },
            };
            if names.len() == 1 {
                l.bind(&names[0], t);
                proof {
                    l.lemma_next_fits();
                }
                return Ok(());
            }
            let ghost l1 = l.model();
            let mut vars: Vec<Type> = Vec::new();
            let mut k: usize = 0;
            while k < names.len()
                invariant
                    l.wf(),
                    *st == Statement::Let(*names, *s),
                    l0 == old(l).model(),
                    l1 == infer(g.model(), l0, *s).1,
                    names@.len() != 1,
                    k <= names@.len(),
                    vars@.len() == k,
                    l.model().next == l1.next + k,
                    l.model().cs == l1.cs,
                    l.model().vars == l1.vars + let_bindings(names@.take(k as int), l1.next),
                    forall|j: int| 0 <= j < k ==> ty_of(#[trigger] vars@[j]) == Ty::Infer(l1.next + j as nat),
                decreases names@.len() - k,
            {
                let v = match l.new_unif_var() {
                    Ok(v) => v,
                    Err(e) => {
                        return Err(e);
                    },
                };
                l.bind(&names[k], v.copy());
                vars.push(v);
                assert(let_bindings(names@.take(k + 1), l1.next) =~= let_bindings(names@.take(k as int), l1.next).push(
                    (names@[k as int]@, Ty::Infer(l1.next + k as nat)),
                ));
                assert(l.model().vars =~= l1.vars + let_bindings(names@.take(k + 1), l1.next));
                k = k + 1;
            }
            let tuple = Type::Tuple(vars);
            assert(ty_of(tuple) == fresh_tuple(names@.len(), l1.next)) by {
                assert(ty_of(tuple)->Tuple_0 =~= fresh_tuple(names@.len(), l1.next)->Tuple_0);
            }
            assert(names@.take(names@.len() as int) =~= names@);
            l.add_constraint(tuple, t);
            assert(l.model().next == l1.next + names@.len());
            proof {
                l.lemma_next_fits();
            }
            assert(check_stmt(g.model(), l0, *st).next == l1.next + names@.len());
            Ok(())
        },
    }
}

impl LocalTypeEnv {
    /// A substitution that solves every constraint recorded so far; it fails only where none
    /// does, and the solution it returns is refined by every other.
    pub fn unify(&self) -> (r: Result<Substitution, TypeError>)
        requires
            self.wf(),
            all_below(self.model().cs, self.model().next),
        ensures
            r is Ok ==> subst_wf(r->Ok_0.model()) && solves(r->Ok_0.model(), self.model().cs),
            r is Ok ==> forall|u: Seq<Option<Ty>>| #[trigger] solves(u, self.model().cs) ==> absorbs(r->Ok_0.model(), u),
            r is Err ==> forall|u: Seq<Option<Ty>>| !#[trigger] solves(u, self.model().cs),
            r is Err ==> !(r->Err_0 is OutOfVariables),
            r is Err ==> fails_with(self.model().cs, r->Err_0),
    {
        let n = self.next_var();
        let mut s = Substitution::new(n);
        let ghost cs = self.model().cs;
        proof {
            assert forall|u: Seq<Option<Ty>>| #[trigger] solves(u, cs.take(0)) implies absorbs(s.model(), u) by {
                lemma_absorbs_empty(s.model(), u);
            }
        }
        let mut k: usize = 0;
        while k < self.constraint_count()
            invariant
                self.wf(),
                cs == self.model().cs,
                k <= cs.len(),
                s.model().len() == n,
                subst_wf(s.model()),
                all_below(cs, n as nat),
                forall|j: int| 0 <= j < k ==> apply(s.model(), #[trigger] cs[j].0) == apply(s.model(), cs[j].1),
                forall|u: Seq<Option<Ty>>| #[trigger] solves(u, cs.take(k as int)) ==> absorbs(s.model(), u),
            decreases cs.len() - k,
        {
            let ghost s0 = s.model();
            let (a, b) = self.constraint(k);
            assert(below(cs[k as int].0, n as nat) && below(cs[k as int].1, n as nat));
            let step = unify_types(&mut s, a, b);
            proof {
                assert forall|u: Seq<Option<Ty>>| #[trigger] solves(u, cs.take(k + 1)) implies step is Ok && absorbs(
                    s.model(),
                    u,
                ) by {
                    assert(cs.take(k + 1)[k as int] == cs[k as int]);
                    assert(apply(u, cs[k as int].0) == apply(u, cs[k as int].1));
                    assert forall|j: int| 0 <= j < k implies apply(u, #[trigger] cs.take(k as int)[j].0) == apply(
                        u,
                        cs.take(k as int)[j].1,
                    ) by {
                        assert(cs.take(k + 1)[j] == cs[j]);
                    }
                    assert(solves(u, cs.take(k as int)));
                    assert(solves_from(s0, u, ty_of(*a), ty_of(*b)));
                }
            }
            match step {
                Ok(()) => {},
                Err(e) => {
                    proof {
                        assert forall|j: int| 0 <= j < k implies apply(s0, #[trigger] cs.take(k as int)[j].0) == apply(
                            s0,
                            cs.take(k as int)[j].1,
                        ) by {}
                        assert(solves(s0, cs.take(k as int)));
                        assert(first_unsolvable(cs, k as int));
                        assert(most_general(s0, cs.take(k as int)));
                        assert(error_for(s0, cs[k as int], e));
                        assert forall|u: Seq<Option<Ty>>| !#[trigger] solves(u, cs) by {
                            if solves(u, cs) {
                                assert forall|j: int| 0 <= j < k + 1 implies apply(u, #[trigger] cs.take(k + 1)[j].0)
                                    == apply(u, cs.take(k + 1)[j].1) by {
                                    assert(cs.take(k + 1)[j] == cs[j]);
                                }
                                assert(solves(u, cs.take(k + 1)));
                            }
                        }
                    }
                    return Err(e);
                },
            }
            proof {
                let sn = s.model();
                assert forall|j: int| 0 <= j <= k implies apply(sn, #[trigger] cs[j].0) == apply(sn, cs[j].1) by {
                    assert(apply(sn, apply(s0, cs[j].0)) == apply(sn, cs[j].0));
                    assert(apply(sn, apply(s0, cs[j].1)) == apply(sn, cs[j].1));
                }
            }
            proof {
                let sn = s.model();
                assert forall|u: Seq<Option<Ty>>| #[trigger] solves(u, cs.take(k + 1)) implies absorbs(sn, u) by {}
            }
            k = k + 1;
        }
        proof {
            assert(cs.take(cs.len() as int) =~= cs);
        }
        Ok(s)
    }
}

/// Checks definition `d` against the schemes before it, and records its generalized scheme.
/// On success the returned substitution solves every constraint of `d`.
pub fn check_machine_def(g: &mut GlobalTypeEnv, d: &Definition) -> (r: Result<Substitution, TypeError>)
    requires
        old(g).wf(),
        env_below(old(g).model(), 2),
        def_scoped(old(g).model(), *d),
    ensures
        final(g).wf(),
        r is Ok ==> subst_wf(r->Ok_0.model()) && solves(r->Ok_0.model(), def_state(old(g).model(), *d).cs)
            && final(g).model() == def_env(old(g).model(), *d).push(
            (d.name@, generalized(r->Ok_0.model(), placeholder())),
        ),
        r is Ok ==> forall|u: Seq<Option<Ty>>| #[trigger] solves(u, def_state(old(g).model(), *d).cs) ==> absorbs(
            r->Ok_0.model(),
            u,
        ),
        r is Err && r->Err_0 != TypeError::OutOfVariables ==> forall|u: Seq<Option<Ty>>| !#[trigger] solves(
            u,
            def_state(old(g).model(), *d).cs,
        ),
        r is Err && r->Err_0 is OutOfVariables <==> def_state(old(g).model(), *d).next > usize::MAX,
        r is Err && r->Err_0 != TypeError::OutOfVariables ==> fails_with(def_state(old(g).model(), *d).cs, r->Err_0),
        r is Err ==> final(g).model() == def_env(old(g).model(), *d),
{
    let ghost g0 = g.model();
    let mut l = LocalTypeEnv::new();
    let input = match l.new_unif_var() {
        Ok(t) => t,
        Err(e) => {
            return Err(e);
        },
    };
    let output = match l.new_unif_var() {
        Ok(t) => t,
        Err(e) => {
            return Err(e);
        },
    };
    let machine_type = MachineType { var_count: 0, input, output: output.copy() };
    g.insert(&d.name, machine_type.copy());
    let ghost g1 = g.model();
    assert(g1 == def_env(g0, *d));
    assert(l.model() == start_state());
    let mut k: usize = 0;
    while k < d.body.len()
        invariant
            g.wf(),
            l.wf(),
            g1 == g.model(),
            g1 == def_env(g0, *d),
            g0 == old(g).model(),
            k <= d.body@.len(),
            body_scoped(g1, start_state(), d.body@),
            l.model() == check_body(g1, start_state(), d.body@.take(k as int)),
        decreases d.body@.len() - k,
    {
        proof {
            lemma_body_scoped_prefix(g1, start_state(), d.body@, (k + 1) as nat);
            assert(d.body@.take(k + 1).drop_last() =~= d.body@.take(k as int));
        }
        match check_statement(g, &mut l, &d.body[k]) {
            Ok(()) => {},
            Err(e) => {
                proof {
                    lemma_body_prefix_next(g1, start_state(), d.body@, k + 1);
                    let lb = check_body(g1, start_state(), d.body@);
                    lemma_infer_mono(g1, lb, d.result);
                }
                return Err(e);
            },
        }
        k = k + 1;
    }
    assert(d.body@.take(d.body@.len() as int) =~= d.body@);
    let real_output = match infer_stream(g, &mut l, &d.result) {
        Ok(t) => t,
        Err(e) => {
            return Err(e);
        },
    };
    proof {
        l.lemma_next_fits();
    }
    l.add_constraint(output, real_output);
    proof {
        lemma_def_below(g0, *d);
    }
    let subst = match l.unify() {
        Ok(s) => s,
        Err(e) => {
            return Err(e);
        },
    };
    let generalized_type = generalize(&subst, &machine_type);
    g.insert(&d.name, generalized_type);
    Ok(subst)
}

pub proof fn lemma_body_scoped_prefix(g: Seq<(Seq<char>, Scheme)>, l: Local, body: Seq<Statement>, k: nat)
    requires
        body_scoped(g, l, body),
        0 < k <= body.len(),
    ensures
        stream_scoped(check_body(g, l, body.take(k - 1)).vars, g, stmt_stream(body[k - 1])),
    decreases body.len(),
{
    if k < body.len() {
        assert(body.drop_last().take(k as int) =~= body.take(k as int));
        assert(body.drop_last().take(k - 1) =~= body.take(k - 1));
        lemma_body_scoped_prefix(g, l, body.drop_last(), k);
    } else {
        assert(body.take(k - 1) =~= body.drop_last());
    }
}

} // verus!
verus! {

/// The first `k` definitions are solved as in `solved_in_order`, and definition `k`, checked
/// against their schemes, needs more fresh variables than a `usize` can number.
pub open spec fn runs_out_at(defs: Seq<Definition>, subs: Seq<Seq<Option<Ty>>>, k: nat) -> bool {
    &&& subs.len() == k
    &&& k < defs.len()
    &&& forall|j: int| 0 <= j < k ==> most_general(
        #[trigger] subs[j],
        def_state(env_after(defs, subs, j as nat), defs[j]).cs,
    )
    &&& def_state(env_after(defs, subs, k), defs[k as int]).next > usize::MAX
}

/// Every name in every definition is bound where it is used, whatever the solutions of the
/// definitions before it.
pub open spec fn program_scoped(defs: Seq<Definition>) -> bool {
    forall|subs: Seq<Seq<Option<Ty>>>| #[trigger] program_scoped_with(defs, subs)
}

pub proof fn lemma_env_after_prefix(defs: Seq<Definition>, s1: Seq<Seq<Option<Ty>>>, s2: Seq<Seq<Option<Ty>>>, k: nat)
    requires
        forall|i: int| 0 <= i < k ==> s1[i] == s2[i],
    ensures
        env_after(defs, s1, k) == env_after(defs, s2, k),
    decreases k,
{
    if k > 0 {
        lemma_env_after_prefix(defs, s1, s2, (k - 1) as nat);
        assert(s1[k - 1] == s2[k - 1]);
    }
}

/// Checks every definition in order; stops at the first that is ill-typed.
pub fn check(program: &Program) -> (r: Result<(), TypeError>)
    requires
        program_uses_bound(program.machines@),
    ensures
        r is Ok ==> exists|subs: Seq<Seq<Option<Ty>>>| solved_in_order(program.machines@, subs),
        r is Err && r->Err_0 != TypeError::OutOfVariables ==> exists|subs: Seq<Seq<Option<Ty>>>, k: nat| fails_at(
            program.machines@,
            subs,
            k,
            r->Err_0,
        ),
        r is Err && r->Err_0 is OutOfVariables ==> exists|subs: Seq<Seq<Option<Ty>>>, k: nat| runs_out_at(
            program.machines@,
            subs,
            k,
        ),
{
    match infer_program(program) {
        Ok(_) => Ok(()),
        Err(e) => Err(e),
    }
}

/// Checks every definition in order, and returns the scheme inferred for each; stops at the
/// first definition that is ill-typed.
pub fn infer_program(program: &Program) -> (r: Result<GlobalTypeEnv, TypeError>)
    requires
        program_uses_bound(program.machines@),
    ensures
        r is Ok ==> exists|subs: Seq<Seq<Option<Ty>>>| #[trigger] solved_in_order(program.machines@, subs)
            && r->Ok_0.wf() && r->Ok_0.model() == env_after(program.machines@, subs, program.machines@.len()),
        r is Err && r->Err_0 != TypeError::OutOfVariables ==> exists|subs: Seq<Seq<Option<Ty>>>, k: nat| #[trigger] fails_at(
            program.machines@,
            subs,
            k,
            r->Err_0,
        ),
        r is Err && r->Err_0 is OutOfVariables ==> exists|subs: Seq<Seq<Option<Ty>>>, k: nat| #[trigger] runs_out_at(
            program.machines@,
            subs,
            k,
        ),
{
    let ghost defs = program.machines@;
    proof {
        lemma_program_scoped(defs);
    }
    let mut global_env = GlobalTypeEnv::new();
    let ghost mut subs: Seq<Seq<Option<Ty>>> = seq![];
    let mut k: usize = 0;
    while k < program.machines.len()
        invariant
            defs == program.machines@,
            program_scoped(defs),
            global_env.wf(),
            k <= defs.len(),
            subs.len() == k,
            global_env.model() == env_after(defs, subs, k as nat),
            forall|j: int| 0 <= j < k ==> most_general(
                #[trigger] subs[j],
                def_state(env_after(defs, subs, j as nat), defs[j]).cs,
            ),
        decreases defs.len() - k,
    {
        proof {
            assert(program_scoped_with(defs, subs));
            lemma_env_after_below(defs, subs, k as nat);
        }
        let s = match check_machine_def(&mut global_env, &program.machines[k]) {
            Ok(s) => s,
            Err(e) => {
                assert(e != TypeError::OutOfVariables ==> fails_at(defs, subs, k as nat, e));
                assert(e is OutOfVariables ==> runs_out_at(defs, subs, k as nat));
                return Err(e);
            },
        };
        proof {
            let next = subs.push(s.model());
            assert forall|j: int| 0 <= j <= k implies #[trigger] env_after(defs, next, j as nat) == env_after(defs, subs, j as nat) by {
                lemma_env_after_prefix(defs, next, subs, j as nat);
            }
            assert forall|j: int| 0 <= j <= k implies most_general(
                #[trigger] next[j],
                def_state(env_after(defs, next, j as nat), defs[j]).cs,
            ) by {
                assert(env_after(defs, next, j as nat) == env_after(defs, subs, j as nat));
            }
            assert(env_after(defs, next, (k + 1) as nat) == def_env(env_after(defs, next, k as nat), defs[k as int]).push(
                (defs[k as int].name@, generalized(next[k as int], placeholder())),
            ));
            subs = next;
        }
        k = k + 1;
    }
    assert(solved_in_order(defs, subs));
    Ok(global_env)
}

} // verus!
