use vstd::prelude::*;
use crate::check::{
    body_scoped, check_body, check_stmt, def_env, def_scoped, def_state, env_after, fresh_tuple, let_bindings,
    placeholder, start_state, stmt_stream,
};
use crate::generalize::{generalized, lemma_generalized_closed};
use crate::infer::{
    Local, all_below, builtin_scheme, constrain, fresh, infer, infer_list, lemma_infer_mono, lookup_scheme,
    lookup_var, machine_scheme, stream_scoped, streams_scoped, lemma_streams_scoped,
};
use crate::syntax::{Builtin, Definition, Machine, Statement, Stream};
use crate::types::{Scheme, Ty, below, inst, lemma_occurs_any, lemma_occurs_element, occurs};

verus! {

/// Every variable binding of `vars` has a type below `n`.
pub open spec fn vars_below(vars: Seq<(Seq<char>, Ty)>, n: nat) -> bool {
    forall|i: int| 0 <= i < vars.len() ==> below(#[trigger] vars[i].1, n)
}

/// Every type that state `l` holds names only variables already handed out.
pub open spec fn local_below(l: Local) -> bool {
    vars_below(l.vars, l.next) && all_below(l.cs, l.next)
}

/// Every scheme of `g` names only inference variables below `n`.
pub open spec fn env_below(g: Seq<(Seq<char>, Scheme)>, n: nat) -> bool {
    forall|i: int| 0 <= i < g.len() ==> below(#[trigger] g[i].1.input, n) && below(g[i].1.output, n)
}

pub proof fn lemma_local_below_mono(l: Local, m: nat)
    requires
        local_below(l),
        l.next <= m,
    ensures
        vars_below(l.vars, m),
        all_below(l.cs, m),
{
    assert forall|i: int| 0 <= i < l.vars.len() implies below(#[trigger] l.vars[i].1, m) by {
        assert(below(l.vars[i].1, l.next));
    }
    assert forall|j: int| 0 <= j < l.cs.len() implies below(#[trigger] l.cs[j].0, m) && below(l.cs[j].1, m) by {
        assert(below(l.cs[j].0, l.next));
    }
}

pub proof fn lemma_env_below_mono(g: Seq<(Seq<char>, Scheme)>, n: nat, m: nat)
    requires
        env_below(g, n),
        n <= m,
    ensures
        env_below(g, m),
{
    assert forall|i: int| 0 <= i < g.len() implies below(#[trigger] g[i].1.input, m) && below(g[i].1.output, m) by {
        assert(below(g[i].1.input, n));
    }
}

pub proof fn lemma_lookup_var_below(vars: Seq<(Seq<char>, Ty)>, x: Seq<char>, n: nat)
    requires
        vars_below(vars, n),
        lookup_var(vars, x) is Some,
    ensures
        below(lookup_var(vars, x)->Some_0, n),
    decreases vars.len(),
{
    if vars.last().0 != x {
        assert(vars_below(vars.drop_last(), n)) by {
            assert forall|i: int| 0 <= i < vars.len() - 1 implies below(#[trigger] vars.drop_last()[i].1, n) by {
                assert(vars.drop_last()[i] == vars[i]);
            }
        }
        lemma_lookup_var_below(vars.drop_last(), x, n);
    } else {
        assert(below(vars[vars.len() - 1].1, n));
    }
}

pub proof fn lemma_lookup_scheme_below(g: Seq<(Seq<char>, Scheme)>, x: Seq<char>, n: nat)
    requires
        env_below(g, n),
        lookup_scheme(g, x) is Some,
    ensures
        below(lookup_scheme(g, x)->Some_0.input, n),
        below(lookup_scheme(g, x)->Some_0.output, n),
    decreases g.len(),
{
    if g.last().0 != x {
        assert(env_below(g.drop_last(), n)) by {
            assert forall|i: int| 0 <= i < g.len() - 1 implies below(#[trigger] g.drop_last()[i].1.input, n)
                && below(g.drop_last()[i].1.output, n) by {
                assert(g.drop_last()[i] == g[i]);
            }
        }
        lemma_lookup_scheme_below(g.drop_last(), x, n);
    } else {
        assert(below(g[g.len() - 1].1.input, n));
    }
}

pub proof fn lemma_tuple_below(ts: Seq<Ty>, n: nat)
    requires
        forall|i: int| 0 <= i < ts.len() ==> below(#[trigger] ts[i], n),
    ensures
        below(Ty::Tuple(ts), n),
{
    assert forall|x: nat| #[trigger] occurs(x, Ty::Tuple(ts)) implies x < n by {
        lemma_occurs_any(x, ts);
        let i = choose|i: int| 0 <= i < ts.len() && #[trigger] occurs(x, ts[i]);
        assert(below(ts[i], n));
    }
}

pub proof fn lemma_inst_below(t: Ty, b: nat, c: nat)
    requires
        below(t, b),
    ensures
        below(inst(t, b, c), b + c),
    decreases t,
{
    if let Ty::Tuple(ts) = t {
        let us = inst(t, b, c)->Tuple_0;
        assert forall|i: int| 0 <= i < us.len() implies below(#[trigger] us[i], b + c) by {
            assert forall|x: nat| #[trigger] occurs(x, ts[i]) implies x < b by {
                lemma_occurs_element(x, ts, i);
            }
            lemma_inst_below(ts[i], b, c);
        }
        lemma_tuple_below(us, b + c);
    } else if let Ty::Infer(x) = t {
        assert(occurs(x, t));
    }
}

pub proof fn lemma_builtin_below(b: Builtin, n: nat)
    ensures
        below(builtin_scheme(b).input, n),
        below(builtin_scheme(b).output, n),
{
    let sc = builtin_scheme(b);
    assert forall|x: nat| !#[trigger] occurs(x, sc.input) by {
        if let Ty::Tuple(ts) = sc.input {
            lemma_occurs_any(x, ts);
        }
    }
    assert forall|x: nat| !#[trigger] occurs(x, sc.output) by {
        if let Ty::Tuple(ts) = sc.output {
            lemma_occurs_any(x, ts);
        }
    }
}

/// Inference hands out only fresh variables: what it returns and records stays below the counter.
pub proof fn lemma_infer_below(g: Seq<(Seq<char>, Scheme)>, l: Local, s: Stream)
    requires
        env_below(g, l.next),
        local_below(l),
        stream_scoped(l.vars, g, s),
    ensures
        local_below(infer(g, l, s).1),
        below(infer(g, l, s).0, infer(g, l, s).1.next),
    decreases s, 0nat,
{
    lemma_infer_mono(g, l, s);
    match s {
        Stream::Var(x) => {
            lemma_lookup_var_below(l.vars, x@, l.next);
        },
        Stream::Const(_) => {
            assert(occurs(l.next, Ty::Infer(l.next)));
            lemma_local_below_mono(l, l.next + 1);
        },
        Stream::Pipe(up, m) => {
            lemma_infer_below(g, l, *up);
            lemma_infer_mono(g, l, *up);
            let (u, l1) = infer(g, l, *up);
            let sc = machine_scheme(g, m);
            lemma_env_below_mono(g, l.next, l1.next);
            match m {
                Machine::Var(x) => lemma_lookup_scheme_below(g, x@, l1.next),
                Machine::Builtin(b) => lemma_builtin_below(b, l1.next),
            }
            lemma_inst_below(sc.input, l1.next, sc.count);
            lemma_inst_below(sc.output, l1.next, sc.count);
            lemma_local_below_mono(l1, l1.next + sc.count);
            let r = infer(g, l, s).1;
            assert(r.cs == l1.cs.push((inst(sc.input, l1.next, sc.count), u)));
            assert forall|j: int| 0 <= j < r.cs.len() implies below(#[trigger] r.cs[j].0, r.next) && below(r.cs[j].1, r.next) by {
                if j < l1.cs.len() {
                    assert(r.cs[j] == l1.cs[j]);
                }
            }
        },
        Stream::Zip(v) => {
            lemma_infer_list_below(g, l, v, v@.len());
        },
        Stream::Cond(c, t, e) => {
            lemma_infer_below(g, l, *c);
            lemma_infer_mono(g, l, *c);
            let (ct, l1) = infer(g, l, *c);
            let l1b = constrain(l1, ct, Ty::Bool);
            assert(all_below(l1b.cs, l1b.next)) by {
                assert forall|j: int| 0 <= j < l1b.cs.len() implies below(#[trigger] l1b.cs[j].0, l1b.next) && below(l1b.cs[j].1, l1b.next) by {
                    if j < l1.cs.len() {
                        assert(l1b.cs[j] == l1.cs[j]);
                    }
                }
            }
            lemma_env_below_mono(g, l.next, l1.next);
            lemma_infer_mono(g, l1b, *t);
            lemma_infer_below(g, l1b, *t);
            let (tt, l2) = infer(g, l1b, *t);
            lemma_env_below_mono(g, l.next, l2.next);
            lemma_infer_mono(g, l2, *e);
            lemma_infer_below(g, l2, *e);
            let (et, l3) = infer(g, l2, *e);
            let r = constrain(l3, tt, et);
            assert(below(tt, l3.next));
            assert forall|j: int| 0 <= j < r.cs.len() implies below(#[trigger] r.cs[j].0, r.next) && below(r.cs[j].1, r.next) by {
                if j < l3.cs.len() {
                    assert(r.cs[j] == l3.cs[j]);
                }
            }
        },
        Stream::Limit(x, _) => lemma_infer_below(g, l, *x),
    }
}

pub proof fn lemma_infer_list_below(g: Seq<(Seq<char>, Scheme)>, l: Local, v: Vec<Stream>, k: nat)
    requires
        env_below(g, l.next),
        local_below(l),
        streams_scoped(l.vars, g, v, v@.len()),
        k <= v@.len(),
    ensures
        local_below(infer_list(g, l, v, k).1),
        forall|i: int| 0 <= i < infer_list(g, l, v, k).0.len() ==> below(
            #[trigger] infer_list(g, l, v, k).0[i],
            infer_list(g, l, v, k).1.next,
        ),
        below(Ty::Tuple(infer_list(g, l, v, k).0), infer_list(g, l, v, k).1.next),
    decreases v, k,
{
    crate::infer::lemma_infer_list_mono(g, l, v, k);
    if k > 0 {
        lemma_infer_list_below(g, l, v, (k - 1) as nat);
        let (ts, l1) = infer_list(g, l, v, (k - 1) as nat);
        crate::infer::lemma_infer_list_mono(g, l, v, (k - 1) as nat);
        lemma_env_below_mono(g, l.next, l1.next);
        lemma_streams_scoped(l.vars, g, v, v@.len(), k - 1);
        lemma_infer_below(g, l1, v@[k - 1]);
        lemma_infer_mono(g, l1, v@[k - 1]);
        let (t, l2) = infer(g, l1, v@[k - 1]);
        let r = ts.push(t);
        assert forall|i: int| 0 <= i < r.len() implies below(#[trigger] r[i], l2.next) by {
            if i < ts.len() {
                assert(r[i] == ts[i]);
                assert(below(ts[i], l1.next));
            }
        }
    }
    let rs = infer_list(g, l, v, k);
    lemma_tuple_below(rs.0, rs.1.next);
}

pub proof fn lemma_stmt_below(g: Seq<(Seq<char>, Scheme)>, l: Local, st: Statement)
    requires
        env_below(g, l.next),
        local_below(l),
        stream_scoped(l.vars, g, stmt_stream(st)),
    ensures
        local_below(check_stmt(g, l, st)),
        check_stmt(g, l, st).next >= l.next,
{
    lemma_infer_below(g, l, stmt_stream(st));
    lemma_infer_mono(g, l, stmt_stream(st));
    let (t, l1) = infer(g, l, stmt_stream(st));
    let r = check_stmt(g, l, st);
    if let Statement::Let(names, _) = st {
        let n = names@.len();
        if n == 1 {
            assert forall|i: int| 0 <= i < r.vars.len() implies below(#[trigger] r.vars[i].1, r.next) by {
                if i < l1.vars.len() {
                    assert(r.vars[i] == l1.vars[i]);
                }
            }
        } else {
            lemma_local_below_mono(l1, l1.next + n);
            let lb = let_bindings(names@, l1.next);
            assert forall|i: int| 0 <= i < r.vars.len() implies below(#[trigger] r.vars[i].1, r.next) by {
                if i < l1.vars.len() {
                    assert(r.vars[i] == l1.vars[i]);
                } else {
                    assert(r.vars[i] == lb[i - l1.vars.len()]);
                    assert forall|x: nat| #[trigger] occurs(x, r.vars[i].1) implies x < r.next by {}
                }
            }
            let ft = fresh_tuple(n, l1.next);
            assert forall|j: int| 0 <= j < ft->Tuple_0.len() implies below(#[trigger] ft->Tuple_0[j], l1.next + n) by {
                assert forall|x: nat| #[trigger] occurs(x, ft->Tuple_0[j]) implies x < l1.next + n by {}
            }
            lemma_tuple_below(ft->Tuple_0, l1.next + n);
            assert forall|j: int| 0 <= j < r.cs.len() implies below(#[trigger] r.cs[j].0, r.next) && below(r.cs[j].1, r.next) by {
                if j < l1.cs.len() {
                    assert(r.cs[j] == l1.cs[j]);
                }
            }
        }
    }
}

pub proof fn lemma_body_below(g: Seq<(Seq<char>, Scheme)>, l: Local, body: Seq<Statement>)
    requires
        env_below(g, l.next),
        local_below(l),
        body_scoped(g, l, body),
    ensures
        local_below(check_body(g, l, body)),
        check_body(g, l, body).next >= l.next,
    decreases body.len(),
{
    if body.len() > 0 {
        lemma_body_below(g, l, body.drop_last());
        let l0 = check_body(g, l, body.drop_last());
        lemma_env_below_mono(g, l.next, l0.next);
        lemma_stmt_below(g, l0, body.last());
    }
}

/// Checking more statements never lowers the counter.
pub proof fn lemma_body_prefix_next(g: Seq<(Seq<char>, Scheme)>, l: Local, body: Seq<Statement>, k: int)
    requires
        0 <= k <= body.len(),
    ensures
        check_body(g, l, body.take(k)).next <= check_body(g, l, body).next,
    decreases body.len(),
{
    if k == body.len() {
        assert(body.take(k) =~= body);
    } else {
        let init = body.drop_last();
        assert(init.take(k) =~= body.take(k));
        lemma_body_prefix_next(g, l, init, k);
        let l0 = check_body(g, l, init);
        lemma_infer_mono(g, l0, stmt_stream(body.last()));
    }
}

/// Every constraint of a definition names only variables below the final counter.
pub proof fn lemma_def_below(g: Seq<(Seq<char>, Scheme)>, d: Definition)
    requires
        env_below(g, 2),
        def_scoped(g, d),
    ensures
        all_below(def_state(g, d).cs, def_state(g, d).next),
{
    let g1 = def_env(g, d);
    assert(env_below(g1, 2)) by {
        assert forall|i: int| 0 <= i < g1.len() implies below(#[trigger] g1[i].1.input, 2) && below(g1[i].1.output, 2) by {
            if i < g.len() {
                assert(g1[i] == g[i]);
            } else {
                assert forall|x: nat| #[trigger] occurs(x, g1[i].1.input) implies x < 2 by {}
                assert forall|x: nat| #[trigger] occurs(x, g1[i].1.output) implies x < 2 by {}
            }
        }
    }
    let l0 = start_state();
    assert(local_below(l0));
    lemma_body_below(g1, l0, d.body@);
    let l1 = check_body(g1, l0, d.body@);
    lemma_env_below_mono(g1, 2, l1.next);
    lemma_infer_below(g1, l1, d.result);
    lemma_infer_mono(g1, l1, d.result);
    let (rt, l2) = infer(g1, l1, d.result);
    let r = def_state(g, d);
    assert(occurs(1, Ty::Infer(1)));
    assert forall|j: int| 0 <= j < r.cs.len() implies below(#[trigger] r.cs[j].0, r.next) && below(r.cs[j].1, r.next) by {
        if j < l2.cs.len() {
            assert(r.cs[j] == l2.cs[j]);
        }
    }
}

/// The schemes known between definitions hold no inference variable but the placeholder's two.
pub proof fn lemma_env_after_below(defs: Seq<Definition>, subs: Seq<Seq<Option<Ty>>>, k: nat)
    ensures
        env_below(env_after(defs, subs, k), 2),
    decreases k,
{
    if k > 0 {
        lemma_env_after_below(defs, subs, (k - 1) as nat);
        let g0 = env_after(defs, subs, (k - 1) as nat);
        let d = defs[k - 1];
        let gs = generalized(subs[k - 1], placeholder());
        lemma_generalized_closed(subs[k - 1], placeholder());
        let g1 = env_after(defs, subs, k);
        assert(g1 == def_env(g0, d).push((d.name@, gs)));
        assert forall|i: int| 0 <= i < g1.len() implies below(#[trigger] g1[i].1.input, 2) && below(g1[i].1.output, 2) by {
            if i < g0.len() {
                assert(g1[i] == g0[i]);
            } else if i == g0.len() {
                assert forall|x: nat| #[trigger] occurs(x, g1[i].1.input) implies x < 2 by {}
                assert forall|x: nat| #[trigger] occurs(x, g1[i].1.output) implies x < 2 by {}
            }
        }
    }
}

} // verus!
