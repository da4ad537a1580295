use vstd::prelude::*;
use crate::check::{
    body_scoped, check_body, check_stmt, def_env, def_scoped, env_after, let_bindings, placeholder,
    program_scoped, program_scoped_with, start_state, stmt_stream,
};
use crate::generalize::generalized;
use crate::infer::{Local, lemma_infer_mono, lookup_scheme, lookup_var, stream_scoped, streams_scoped, infer};
use crate::syntax::{Definition, Machine, Program, Statement, Stream};
use crate::types::{Scheme, Ty};

verus! {

/// The names held in `v`.
pub open spec fn name_set(v: Seq<String>) -> Set<Seq<char>> {
    Set::new(|x: Seq<char>| exists|i: int| 0 <= i < v.len() && #[trigger] v[i]@ == x)
}

/// Every variable that `s` reads is in `vs`, and every machine it calls by name is in `ms`.
pub open spec fn stream_uses_bound(vs: Set<Seq<char>>, ms: Set<Seq<char>>, s: Stream) -> bool
    decreases s, 0nat,
{
    match s {
        Stream::Var(x) => vs.contains(x@),
        Stream::Const(_) => true,
        Stream::Pipe(up, m) => stream_uses_bound(vs, ms, *up) && match m {
            Machine::Var(x) => ms.contains(x@),
            Machine::Builtin(_) => true,
        },
        Stream::Zip(v) => streams_use_bound(vs, ms, v, v@.len()),
        Stream::Cond(c, t, e) => stream_uses_bound(vs, ms, *c) && stream_uses_bound(vs, ms, *t)
            && stream_uses_bound(vs, ms, *e),
        Stream::Limit(x, _) => stream_uses_bound(vs, ms, *x),
    }
}

pub open spec fn streams_use_bound(vs: Set<Seq<char>>, ms: Set<Seq<char>>, v: Vec<Stream>, k: nat) -> bool
    decreases v, k,
{
    if k == 0 || k > v@.len() {
        true
    } else {
        streams_use_bound(vs, ms, v, (k - 1) as nat) && stream_uses_bound(vs, ms, v@[k - 1])
    }
}

/// The names that the statements of `body` bind.
pub open spec fn let_names(body: Seq<Statement>) -> Set<Seq<char>>
    decreases body.len(),
{
    if body.len() == 0 {
        Set::empty()
    } else {
        let_names(body.drop_last()) + match body.last() {
            Statement::Consume(_) => Set::empty(),
            Statement::Let(names, _) => name_set(names@),
        }
    }
}

/// Each statement of `d`, and its result, reads only variables bound by the statements before
/// it, and calls by name only machines in `ms` or `d` itself.
pub open spec fn def_uses_bound(ms: Set<Seq<char>>, d: Definition) -> bool {
    let ms1 = ms.insert(d.name@);
    &&& forall|i: int| 0 <= i < d.body@.len() ==> stream_uses_bound(
        let_names(d.body@.take(i)),
        ms1,
        stmt_stream(#[trigger] d.body@[i]),
    )
    &&& stream_uses_bound(let_names(d.body@), ms1, d.result)
}

/// The names of the first `k` definitions.
pub open spec fn def_names(defs: Seq<Definition>, k: nat) -> Set<Seq<char>> {
    Set::new(|x: Seq<char>| exists|j: int| 0 <= j < k && #[trigger] defs[j].name@ == x)
}

/// Every definition reads only variables bound before the read, and calls by name only
/// itself and the definitions before it.
pub open spec fn program_uses_bound(defs: Seq<Definition>) -> bool {
    forall|k: int| 0 <= k < defs.len() ==> def_uses_bound(def_names(defs, k as nat), #[trigger] defs[k])
}

pub proof fn lemma_lookup_var_entry(vars: Seq<(Seq<char>, Ty)>, x: Seq<char>, i: int)
    requires
        0 <= i < vars.len(),
        vars[i].0 == x,
    ensures
        lookup_var(vars, x) is Some,
    decreases vars.len(),
{
    if vars.last().0 != x {
        lemma_lookup_var_entry(vars.drop_last(), x, i);
    }
}

pub proof fn lemma_lookup_scheme_entry(g: Seq<(Seq<char>, Scheme)>, x: Seq<char>, i: int)
    requires
        0 <= i < g.len(),
        g[i].0 == x,
    ensures
        lookup_scheme(g, x) is Some,
    decreases g.len(),
{
    if g.last().0 != x {
        lemma_lookup_scheme_entry(g.drop_last(), x, i);
    }
}

pub open spec fn has_var(vars: Seq<(Seq<char>, Ty)>, x: Seq<char>) -> bool {
    exists|i: int| 0 <= i < vars.len() && #[trigger] vars[i].0 == x
}

pub open spec fn has_machine(g: Seq<(Seq<char>, Scheme)>, x: Seq<char>) -> bool {
    exists|i: int| 0 <= i < g.len() && #[trigger] g[i].0 == x
}

pub proof fn lemma_scoped_from_names(
    vars: Seq<(Seq<char>, Ty)>,
    g: Seq<(Seq<char>, Scheme)>,
    vs: Set<Seq<char>>,
    ms: Set<Seq<char>>,
    s: Stream,
)
    requires
        forall|x: Seq<char>| #[trigger] vs.contains(x) ==> has_var(vars, x),
        forall|x: Seq<char>| #[trigger] ms.contains(x) ==> has_machine(g, x),
        stream_uses_bound(vs, ms, s),
    ensures
        stream_scoped(vars, g, s),
    decreases s, 0nat,
{
    match s {
        Stream::Var(x) => {
            assert(vs.contains(x@));
            let i = choose|i: int| 0 <= i < vars.len() && #[trigger] vars[i].0 == x@;
            lemma_lookup_var_entry(vars, x@, i);
        },
        Stream::Pipe(up, m) => {
            lemma_scoped_from_names(vars, g, vs, ms, *up);
            if let Machine::Var(x) = m {
                assert(ms.contains(x@));
                let i = choose|i: int| 0 <= i < g.len() && #[trigger] g[i].0 == x@;
                lemma_lookup_scheme_entry(g, x@, i);
            }
        },
        Stream::Zip(v) => lemma_scoped_from_names_list(vars, g, vs, ms, v, v@.len()),
        Stream::Cond(c, t, e) => {
            lemma_scoped_from_names(vars, g, vs, ms, *c);
            lemma_scoped_from_names(vars, g, vs, ms, *t);
            lemma_scoped_from_names(vars, g, vs, ms, *e);
        },
        Stream::Limit(x, _) => lemma_scoped_from_names(vars, g, vs, ms, *x),
        Stream::Const(_) => {},
    }
}

pub proof fn lemma_scoped_from_names_list(
    vars: Seq<(Seq<char>, Ty)>,
    g: Seq<(Seq<char>, Scheme)>,
    vs: Set<Seq<char>>,
    ms: Set<Seq<char>>,
    v: Vec<Stream>,
    k: nat,
)
    requires
        forall|x: Seq<char>| #[trigger] vs.contains(x) ==> has_var(vars, x),
        forall|x: Seq<char>| #[trigger] ms.contains(x) ==> has_machine(g, x),
        streams_use_bound(vs, ms, v, k),
    ensures
        streams_scoped(vars, g, v, k),
    decreases v, k,
{
    if k == 0 || k > v@.len() {
    } else {
        lemma_scoped_from_names_list(vars, g, vs, ms, v, (k - 1) as nat);
        lemma_scoped_from_names(vars, g, vs, ms, v@[k - 1]);
    }
}

/// Every name that the first statements of a body bind has an entry after they are checked.
pub proof fn lemma_body_binds(g: Seq<(Seq<char>, Scheme)>, l: Local, body: Seq<Statement>)
    ensures
        forall|x: Seq<char>| has_var(l.vars, x) ==> #[trigger] has_var(check_body(g, l, body).vars, x),
        forall|x: Seq<char>| #[trigger] let_names(body).contains(x) ==> has_var(check_body(g, l, body).vars, x),
    decreases body.len(),
{
    if body.len() > 0 {
        let init = body.drop_last();
        lemma_body_binds(g, l, init);
        let l0 = check_body(g, l, init);
        let st = body.last();
        lemma_infer_mono(g, l0, stmt_stream(st));
        let l1 = infer(g, l0, stmt_stream(st)).1;
        let l2 = check_stmt(g, l0, st);
        assert(l2 == check_body(g, l, body));
        assert forall|x: Seq<char>| has_var(l0.vars, x) implies #[trigger] has_var(l2.vars, x) by {
            let i = choose|i: int| 0 <= i < l0.vars.len() && #[trigger] l0.vars[i].0 == x;
            assert(l2.vars[i].0 == x);
        }
        assert forall|x: Seq<char>| has_var(l.vars, x) implies #[trigger] has_var(l2.vars, x) by {
            assert(has_var(l0.vars, x));
        }
        assert forall|x: Seq<char>| #[trigger] let_names(body).contains(x) implies has_var(l2.vars, x) by {
            if let_names(init).contains(x) {
                assert(has_var(l0.vars, x));
            } else {
                if let Statement::Let(names, _) = st {
                    let i = choose|i: int| 0 <= i < names@.len() && #[trigger] names@[i]@ == x;
                    if names@.len() == 1 {
                        assert(l2.vars[l2.vars.len() - 1].0 == x);
                    } else {
                        let lb = let_bindings(names@, l1.next);
                        assert(l2.vars[l1.vars.len() + i].0 == lb[i].0);
                    }
                }
            }
        }
    }
}

pub proof fn lemma_body_scoped_from_names(g: Seq<(Seq<char>, Scheme)>, ms: Set<Seq<char>>, body: Seq<Statement>)
    requires
        forall|x: Seq<char>| #[trigger] ms.contains(x) ==> has_machine(g, x),
        forall|i: int| 0 <= i < body.len() ==> stream_uses_bound(
            let_names(body.take(i)),
            ms,
            stmt_stream(#[trigger] body[i]),
        ),
    ensures
        body_scoped(g, start_state(), body),
    decreases body.len(),
{
    if body.len() > 0 {
        let init = body.drop_last();
        assert forall|i: int| 0 <= i < init.len() implies stream_uses_bound(
            let_names(init.take(i)),
            ms,
            stmt_stream(#[trigger] init[i]),
        ) by {
            assert(init.take(i) =~= body.take(i));
            assert(init[i] == body[i]);
        }
        lemma_body_scoped_from_names(g, ms, init);
        lemma_body_binds(g, start_state(), init);
        assert(body.take(init.len() as int) =~= init);
        assert(stream_uses_bound(let_names(init), ms, stmt_stream(body[init.len() as int])));
        lemma_scoped_from_names(check_body(g, start_state(), init).vars, g, let_names(init), ms, stmt_stream(body.last()));
    }
}

pub proof fn lemma_env_after_names(defs: Seq<Definition>, subs: Seq<Seq<Option<Ty>>>, k: nat)
    requires
        k <= defs.len(),
    ensures
        forall|x: Seq<char>| #[trigger] def_names(defs, k).contains(x) ==> has_machine(env_after(defs, subs, k), x),
    decreases k,
{
    if k > 0 {
        lemma_env_after_names(defs, subs, (k - 1) as nat);
        let g0 = env_after(defs, subs, (k - 1) as nat);
        let d = defs[k - 1];
        let g1 = def_env(g0, d).push((d.name@, generalized(subs[k - 1], placeholder())));
        assert(g1 == env_after(defs, subs, k));
        assert forall|x: Seq<char>| #[trigger] def_names(defs, k).contains(x) implies has_machine(g1, x) by {
            let j = choose|j: int| 0 <= j < k && #[trigger] defs[j].name@ == x;
            if j == k - 1 {
                assert(g1[g1.len() - 1].0 == x);
            } else {
                assert(def_names(defs, (k - 1) as nat).contains(x));
                let i = choose|i: int| 0 <= i < g0.len() && #[trigger] g0[i].0 == x;
                assert(g1[i].0 == x);
            }
        }
    }
}

/// A program whose definitions use only bound names meets what `check` asks of its input.
pub proof fn lemma_program_scoped(defs: Seq<Definition>)
    requires
        program_uses_bound(defs),
    ensures
        program_scoped(defs),
{
    assert forall|subs: Seq<Seq<Option<Ty>>>| #[trigger] program_scoped_with(defs, subs) by {
        assert forall|k: int| 0 <= k < defs.len() implies def_scoped(env_after(defs, subs, k as nat), #[trigger] defs[k]) by {
            let d = defs[k];
            let g = env_after(defs, subs, k as nat);
            let g1 = def_env(g, d);
            let ms = def_names(defs, k as nat).insert(d.name@);
            assert(def_uses_bound(def_names(defs, k as nat), d));
            lemma_env_after_names(defs, subs, k as nat);
            assert forall|x: Seq<char>| #[trigger] ms.contains(x) implies has_machine(g1, x) by {
                if x == d.name@ {
                    assert(g1[g1.len() - 1].0 == x);
                } else {
                    assert(def_names(defs, k as nat).contains(x));
                    let i = choose|i: int| 0 <= i < g.len() && #[trigger] g[i].0 == x;
                    assert(g1[i].0 == x);
                }
            }
            lemma_body_scoped_from_names(g1, ms, d.body@);
            lemma_body_binds(g1, start_state(), d.body@);
            lemma_scoped_from_names(check_body(g1, start_state(), d.body@).vars, g1, let_names(d.body@), ms, d.result);
        }
    }
}

fn contains_name(v: &Vec<String>, x: &String) -> (r: bool)
    ensures
        r == name_set(v@).contains(x@),
{
    let mut k: usize = 0;
    while k < v.len()
        invariant
            k <= v@.len(),
            forall|j: int| 0 <= j < k ==> v@[j]@ != x@,
        decreases v@.len() - k,
    {
        if v[k] == *x {
            assert(v@[k as int]@ == x@);
            return true;
        }
        k = k + 1;
    }
    false
}

/// `v` with the names of `names` appended.
fn push_names(v: &mut Vec<String>, names: &Vec<String>)
    ensures
        name_set(final(v)@) == name_set(old(v)@) + name_set(names@),
{
    let ghost v0 = v@;
    let mut k: usize = 0;
    while k < names.len()
        invariant
            k <= names@.len(),
            v@ == v0 + names@.take(k as int),
        decreases names@.len() - k,
    {
        v.push(names[k].clone());
        assert(names@.take(k + 1) =~= names@.take(k as int).push(names@[k as int]));
        k = k + 1;
    }
    assert(names@.take(names@.len() as int) =~= names@);
    assert forall|x: Seq<char>| #[trigger] name_set(v@).contains(x) <==> (name_set(v0) + name_set(names@)).contains(x) by {
        if name_set(v@).contains(x) {
            let i = choose|i: int| 0 <= i < v@.len() && #[trigger] v@[i]@ == x;
            if i >= v0.len() {
                assert(names@[i - v0.len()]@ == x);
            } else {
                assert(v0[i]@ == x);
            }
        }
        if name_set(v0).contains(x) {
            let i = choose|i: int| 0 <= i < v0.len() && #[trigger] v0[i]@ == x;
            assert(v@[i]@ == x);
        }
        if name_set(names@).contains(x) {
            let i = choose|i: int| 0 <= i < names@.len() && #[trigger] names@[i]@ == x;
            assert(v@[v0.len() + i]@ == x);
        }
    }
    assert(name_set(v@) =~= name_set(v0) + name_set(names@));
}

/// Whether `s` reads only variables of `vs` and calls by name only machines of `ms`.
pub fn stream_names_bound(vs: &Vec<String>, ms: &Vec<String>, s: &Stream) -> (r: bool)
    ensures
        r == stream_uses_bound(name_set(vs@), name_set(ms@), *s),
    decreases s,
{
    match s {
        Stream::Var(x) => contains_name(vs, x),
        Stream::Const(_) => true,
        Stream::Pipe(up, m) => {
            if !stream_names_bound(vs, ms, up) {
                return false;
            }
            match m {
                Machine::Var(x) => contains_name(ms, x),
                Machine::Builtin(_) => true,
            }
        },
        Stream::Zip(v) => {
            let mut k: usize = 0;
            while k < v.len()
                invariant
                    *s == Stream::Zip(*v),
                    k <= v@.len(),
                    streams_use_bound(name_set(vs@), name_set(ms@), *v, k as nat),
                decreases v@.len() - k,
            {
                proof {
                    lemma_zip_decreases(*s, *v, k as int);
                }
                if !stream_names_bound(vs, ms, &v[k]) {
                    proof {
                        if streams_use_bound(name_set(vs@), name_set(ms@), *v, v@.len()) {
                            lemma_streams_use_bound_prefix(name_set(vs@), name_set(ms@), *v, (k + 1) as nat, v@.len());
                        }
                    }
                    return false;
                }
                k = k + 1;
            }
            true
        },
        Stream::Cond(c, t, e) => stream_names_bound(vs, ms, c) && stream_names_bound(vs, ms, t)
            && stream_names_bound(vs, ms, e),
        Stream::Limit(x, _) => stream_names_bound(vs, ms, x),
    }
}

proof fn lemma_zip_decreases(s: Stream, v: Vec<Stream>, k: int)
    requires
        s == Stream::Zip(v),
        0 <= k < v@.len(),
    ensures
        decreases_to!(s => v@[k]),
{
    assert(decreases_to!(s => s->Zip_0));
    assert(decreases_to!(v => v@));
    assert(decreases_to!(v@ => v@[k]));
}

proof fn lemma_streams_use_bound_prefix(vs: Set<Seq<char>>, ms: Set<Seq<char>>, v: Vec<Stream>, k1: nat, k2: nat)
    requires
        k1 <= k2 <= v@.len(),
        streams_use_bound(vs, ms, v, k2),
    ensures
        streams_use_bound(vs, ms, v, k1),
    decreases k2,
{
    if k1 < k2 {
        lemma_streams_use_bound_prefix(vs, ms, v, k1, (k2 - 1) as nat);
    }
}

proof fn lemma_let_names_step(body: Seq<Statement>, k: int)
    requires
        0 <= k < body.len(),
    ensures
        let_names(body.take(k + 1)) == let_names(body.take(k)) + match body[k] {
            Statement::Consume(_) => Set::empty(),
            Statement::Let(names, _) => name_set(names@),
        },
{
    assert(body.take(k + 1).drop_last() =~= body.take(k));
    assert(body.take(k + 1).last() == body[k]);
}

/// `ms` with `name` added.
fn with_name(ms: &Vec<String>, name: &String) -> (r: Vec<String>)
    ensures
        name_set(r@) == name_set(ms@).insert(name@),
{
    let mut r: Vec<String> = Vec::new();
    push_names(&mut r, ms);
    let mut own: Vec<String> = Vec::new();
    own.push(name.clone());
    push_names(&mut r, &own);
    assert(own@[0]@ == name@);
    assert(name_set(own@) =~= Set::empty().insert(name@));
    assert(name_set(Seq::<String>::empty()) =~= Set::empty());
    assert(name_set(r@) =~= name_set(ms@).insert(name@));
    r
}

/// Checks the stream of `st` against `vs` and `ms`; where it passes, adds the names that `st` binds to `vs`.
fn statement_step(vs: &mut Vec<String>, ms: &Vec<String>, st: &Statement) -> (r: bool)
    ensures
        r == stream_uses_bound(name_set(old(vs)@), name_set(ms@), stmt_stream(*st)),
        r ==> name_set(final(vs)@) == name_set(old(vs)@) + match *st {
            Statement::Consume(_) => Set::empty(),
            Statement::Let(names, _) => name_set(names@),
        },
{
    let s = match st {
        Statement::Consume(s) => s,
        Statement::Let(_, s) => s,
    };
    if !stream_names_bound(vs, ms, s) {
        return false;
    }
    match st {
        Statement::Consume(_) => {
            assert(name_set(vs@) =~= name_set(vs@) + Set::empty());
        },
        Statement::Let(names, _) => {
            push_names(vs, names);
        },
    }
    true
}

/// Whether definition `d` uses only bound names, given the machines `ms` defined before it.
pub fn definition_names_bound(ms: &Vec<String>, d: &Definition) -> (r: bool)
    ensures
        r == def_uses_bound(name_set(ms@), *d),
{
    let ms1 = with_name(ms, &d.name);
    let ghost body = d.body@;
    let mut vs: Vec<String> = Vec::new();
    assert(name_set(vs@) =~= let_names(body.take(0)));
    let mut k: usize = 0;
    while k < d.body.len()
        invariant
            body == d.body@,
            k <= body.len(),
            name_set(ms1@) == name_set(ms@).insert(d.name@),
            name_set(vs@) == let_names(body.take(k as int)),
            forall|i: int| 0 <= i < k ==> stream_uses_bound(
                let_names(body.take(i)),
                name_set(ms1@),
                stmt_stream(#[trigger] body[i]),
            ),
        decreases body.len() - k,
    {
        if !statement_step(&mut vs, &ms1, &d.body[k]) {
            assert(!stream_uses_bound(let_names(body.take(k as int)), name_set(ms1@), stmt_stream(body[k as int])));
            return false;
        }
        proof {
            lemma_let_names_step(body, k as int);
        }
        k = k + 1;
    }
    assert(body.take(body.len() as int) =~= body);
    stream_names_bound(&vs, &ms1, &d.result)
}

/// Whether every definition of `p` reads only bound variables and calls by name only itself
/// and the definitions before it: the condition under which `check` may be called.
pub fn uses_only_bound_names(p: &Program) -> (r: bool)
    ensures
        r == program_uses_bound(p.machines@),
{
    let ghost defs = p.machines@;
    let mut ms: Vec<String> = Vec::new();
    assert(name_set(ms@) =~= def_names(defs, 0));
    let mut k: usize = 0;
    while k < p.machines.len()
        invariant
            defs == p.machines@,
            k <= defs.len(),
            name_set(ms@) == def_names(defs, k as nat),
            forall|j: int| 0 <= j < k ==> def_uses_bound(def_names(defs, j as nat), #[trigger] defs[j]),
        decreases defs.len() - k,
    {
        if !definition_names_bound(&ms, &p.machines[k]) {
            return false;
        }
        let mut own: Vec<String> = Vec::new();
        own.push(p.machines[k].name.clone());
        push_names(&mut ms, &own);
        proof {
            assert(own@[0]@ == defs[k as int].name@);
            assert(name_set(own@) =~= Set::empty().insert(defs[k as int].name@));
            assert forall|x: Seq<char>| #[trigger] def_names(defs, (k + 1) as nat).contains(x) <==> def_names(
                defs,
                k as nat,
            ).insert(defs[k as int].name@).contains(x) by {
                if def_names(defs, (k + 1) as nat).contains(x) {
                    let j = choose|j: int| 0 <= j < k + 1 && #[trigger] defs[j].name@ == x;
                    if j < k {
                        assert(def_names(defs, k as nat).contains(x));
                    }
                }
                if def_names(defs, k as nat).contains(x) {
                    let j = choose|j: int| 0 <= j < k && #[trigger] defs[j].name@ == x;
                    assert(defs[j].name@ == x);
                }
            }
            assert(name_set(ms@) =~= def_names(defs, (k + 1) as nat));
        }
        k = k + 1;
    }
    true
}

} // verus!
