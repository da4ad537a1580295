use vstd::prelude::*;
use crate::types::{MachineType, Scheme, Ty, Type, occurs, ty_of};
use crate::unify::{Substitution, apply};

verus! {

/// The inference variables of `t` not already in `acc`, appended in order of first occurrence.
pub open spec fn free_order(acc: Seq<nat>, t: Ty) -> Seq<nat>
    decreases t,
{
    match t {
        Ty::Infer(x) => if acc.contains(x) { acc } else { acc.push(x) },
        Ty::Tuple(ts) => free_order_list(acc, ts),
        _ => acc,
    }
}

pub open spec fn free_order_list(acc: Seq<nat>, ts: Seq<Ty>) -> Seq<nat>
    decreases ts,
{
    if ts.len() == 0 {
        acc
    } else {
        free_order(free_order_list(acc, ts.drop_last()), ts.last())
    }
}

/// The first place of `x` in `vs`.
pub open spec fn position(vs: Seq<nat>, x: nat) -> nat
    decreases vs.len(),
{
    if vs.len() == 0 || vs[0] == x {
        0
    } else {
        1 + position(vs.drop_first(), x)
    }
}

/// `t` with each `Infer(x)` listed in `vs` replaced by `Bound(position(vs, x))`.
pub open spec fn rename(t: Ty, vs: Seq<nat>) -> Ty
    decreases t,
{
    match t {
        Ty::Infer(x) => if vs.contains(x) { Ty::Bound(position(vs, x)) } else { t },
        Ty::Tuple(ts) => Ty::Tuple(
            Seq::new(ts.len(), |i: int| if 0 <= i < ts.len() { rename(ts[i], vs) } else { Ty::Num }),
        ),
        _ => t,
    }
}

/// The free variables of a solved scheme, each once, in order of first occurrence.
pub open spec fn scheme_free_vars(s: Seq<Option<Ty>>, sc: Scheme) -> Seq<nat> {
    free_order(free_order(seq![], apply(s, sc.input)), apply(s, sc.output))
}

/// `sc` solved by `s`, with each remaining free variable bound by the quantifier.
pub open spec fn generalized(s: Seq<Option<Ty>>, sc: Scheme) -> Scheme {
    let vs = scheme_free_vars(s, sc);
    Scheme { count: vs.len(), input: rename(apply(s, sc.input), vs), output: rename(apply(s, sc.output), vs) }
}

pub open spec fn nats(v: Seq<usize>) -> Seq<nat> {
    Seq::new(v.len(), |i: int| v[i] as nat)
}

fn index_of(v: &Vec<usize>, x: usize) -> (r: Option<usize>)
    ensures
        match r {
            Some(i) => nats(v@).contains(x as nat) && i == position(nats(v@), x as nat),
            None => !nats(v@).contains(x as nat),
        },
{
    let ghost vs = nats(v@);
    let mut k: usize = 0;
    assert(vs.subrange(0, vs.len() as int) =~= vs);
    while k < v.len()
        invariant
            vs == nats(v@),
            k <= v@.len(),
            forall|j: int| 0 <= j < k ==> v@[j] != x,
            position(vs, x as nat) == k + position(vs.subrange(k as int, vs.len() as int), x as nat),
        decreases v@.len() - k,
    {
        let ghost rest = vs.subrange(k as int, vs.len() as int);
        assert(rest.drop_first() =~= vs.subrange(k + 1, vs.len() as int));
        if v[k] == x {
            assert(vs[k as int] == x as nat);
            return Some(k);
        }
        k = k + 1;
    }
    proof {
        if vs.contains(x as nat) {
            let j = choose|j: int| 0 <= j < vs.len() && vs[j] == x as nat;
            assert(v@[j] == x);
        }
    }
    None
}

/// Appends to `acc` the unbound-by-`acc` inference variables of `t`, in order.
fn free_unif_vars(acc: &mut Vec<usize>, t: &Type)
    ensures
        nats(final(acc)@) == free_order(nats(old(acc)@), ty_of(*t)),
    decreases t,
{
    match t {
        Type::UnifVar(x) => {
            match index_of(acc, *x) {
                Some(_) => {},
                None => {
                    let ghost a0 = nats(acc@);
                    acc.push(*x);
                    assert(nats(acc@) =~= a0.push(*x as nat));
                },
            }
        },
        Type::Tuple(v) => {
            let ghost a0 = nats(acc@);
            let ghost ts = ty_of(*t)->Tuple_0;
            let mut k: usize = 0;
            while k < v.len()
                invariant
                    *t == Type::Tuple(*v),
                    ts == ty_of(*t)->Tuple_0,
                    k <= v@.len(),
                    nats(acc@) == free_order_list(a0, ts.take(k as int)),
                decreases v@.len() - k,
            {
                proof {
                    crate::types::lemma_element_decreases(*t, *v, k as int);
                    assert(ts.take(k + 1).drop_last() =~= ts.take(k as int));
                    assert(ts[k as int] == ty_of(v@[k as int]));
                }
                free_unif_vars(acc, &v[k]);
                k = k + 1;
            }
            assert(ts.take(v@.len() as int) =~= ts);
        },
        _ => {},
    }
}

/// Replaces each `UnifVar(x)` with `x` in `vs` by `TyVar` of its first place in `vs`.
fn rename_type(t: &Type, vs: &Vec<usize>) -> (r: Type)
    ensures
        ty_of(r) == rename(ty_of(*t), nats(vs@)),
    decreases t,
{
    match t {
        Type::UnifVar(x) => match index_of(vs, *x) {
            Some(i) => Type::TyVar(i),
            None => Type::UnifVar(*x),
        },
        Type::Tuple(v) => {
            let mut out: Vec<Type> = Vec::new();
            let mut k: usize = 0;
            while k < v.len()
                invariant
                    *t == Type::Tuple(*v),
                    k <= v@.len(),
                    out@.len() == k,
                    forall|j: int| 0 <= j < k ==> ty_of(#[trigger] out@[j]) == rename(ty_of(v@[j]), nats(vs@)),
                decreases v@.len() - k,
            {
                proof {
                    crate::types::lemma_element_decreases(*t, *v, k as int);
                }
                out.push(rename_type(&v[k], vs));
                k = k + 1;
            }
            let r = Type::Tuple(out);
            assert(ty_of(r) == rename(ty_of(*t), nats(vs@))) by {
                if let Ty::Tuple(a) = ty_of(r) {
                    if let Ty::Tuple(b) = rename(ty_of(*t), nats(vs@)) {
                        assert(a =~= b);
                    }
                }
            }
            r
        },
        _ => t.copy(),
    }
}

/// Closes `t` under the solution `s`: its remaining free variables become quantified,
/// a variable that occurs several times being quantified once.
pub fn generalize(s: &Substitution, t: &MachineType) -> (r: MachineType)
    ensures
        r.scheme() == generalized(s.model(), t.scheme()),
{
    let input = s.apply_to(&t.input);
    let output = s.apply_to(&t.output);
    let mut free_vars: Vec<usize> = Vec::new();
    assert(nats(free_vars@) =~= seq![]);
    free_unif_vars(&mut free_vars, &input);
    free_unif_vars(&mut free_vars, &output);
    let input = rename_type(&input, &free_vars);
    let output = rename_type(&output, &free_vars);
    MachineType { var_count: free_vars.len(), input, output }
}

/// Generalizing keeps sharing: where the input and the output of a scheme are solved to the
/// same type, the generalized input and output are the same type too.
pub proof fn lemma_generalize_keeps_sharing(s: Seq<Option<Ty>>, sc: Scheme)
    requires
        apply(s, sc.input) == apply(s, sc.output),
    ensures
        generalized(s, sc).input == generalized(s, sc).output,
{
}

/// A scheme whose input and output are one and the same free variable generalizes to
/// `forall a. a -> a`: one quantified variable, standing in both places, so that a type given
/// for it at the input is the type of the output.
pub proof fn lemma_generalize_identity(s: Seq<Option<Ty>>, a: nat)
    requires
        !crate::unify::bound_in(s, a),
    ensures
        generalized(s, Scheme { count: 0, input: Ty::Infer(a), output: Ty::Infer(a) }) == (Scheme {
            count: 1,
            input: Ty::Bound(0),
            output: Ty::Bound(0),
        }),
{
    let e = Seq::<nat>::empty();
    assert(!e.contains(a));
    let vs = e.push(a);
    assert(vs.contains(a)) by {
        assert(vs[0] == a);
    }
    assert(free_order(e, Ty::Infer(a)) == vs);
    assert(free_order(vs, Ty::Infer(a)) == vs);
    assert(position(vs, a) == 0);
}

pub proof fn lemma_free_order_covers(acc: Seq<nat>, t: Ty)
    ensures
        forall|y: nat| acc.contains(y) ==> #[trigger] free_order(acc, t).contains(y),
        forall|x: nat| occurs(x, t) ==> #[trigger] free_order(acc, t).contains(x),
    decreases t,
{
    let r = free_order(acc, t);
    match t {
        Ty::Infer(x) => {
            if !acc.contains(x) {
                assert(r == acc.push(x));
                assert(r[acc.len() as int] == x);
                assert forall|y: nat| acc.contains(y) implies #[trigger] r.contains(y) by {
                    let i = choose|i: int| 0 <= i < acc.len() && acc[i] == y;
                    assert(r[i] == y);
                }
            } else {
                assert(r == acc);
            }
            assert forall|z: nat| occurs(z, t) implies #[trigger] r.contains(z) by {
                assert(z == x);
            }
        },
        Ty::Tuple(ts) => {
            lemma_free_order_list_covers(acc, ts);
            assert(r == free_order_list(acc, ts));
            assert forall|y: nat| acc.contains(y) implies #[trigger] r.contains(y) by {
                assert(free_order_list(acc, ts).contains(y));
            }
            assert forall|x: nat| occurs(x, t) implies #[trigger] r.contains(x) by {
                crate::types::lemma_occurs_any(x, ts);
                let i = choose|i: int| 0 <= i < ts.len() && #[trigger] occurs(x, ts[i]);
                assert(free_order_list(acc, ts).contains(x));
            }
        },
        _ => {
            assert(r == acc);
        },
    }
}

pub proof fn lemma_free_order_list_covers(acc: Seq<nat>, ts: Seq<Ty>)
    ensures
        forall|y: nat| acc.contains(y) ==> #[trigger] free_order_list(acc, ts).contains(y),
        forall|i: int, x: nat| 0 <= i < ts.len() && #[trigger] occurs(x, ts[i]) ==> #[trigger] free_order_list(
            acc,
            ts,
        ).contains(x),
    decreases ts,
{
    let r = free_order_list(acc, ts);
    if ts.len() > 0 {
        let init = ts.drop_last();
        lemma_free_order_list_covers(acc, init);
        let r0 = free_order_list(acc, init);
        lemma_free_order_covers(r0, ts.last());
        assert(r == free_order(r0, ts.last()));
        assert forall|y: nat| acc.contains(y) implies #[trigger] r.contains(y) by {
            assert(r0.contains(y));
        }
        assert forall|i: int, x: nat| 0 <= i < ts.len() && #[trigger] occurs(x, ts[i]) implies #[trigger] r.contains(
            x,
        ) by {
            if i < ts.len() - 1 {
                assert(init[i] == ts[i]);
                assert(occurs(x, init[i]));
                assert(r0.contains(x));
            } else {
                assert(ts.last() == ts[i]);
            }
        }
    } else {
        assert(r == acc);
    }
}

pub proof fn lemma_rename_closed(t: Ty, vs: Seq<nat>)
    requires
        forall|x: nat| #[trigger] occurs(x, t) ==> vs.contains(x),
    ensures
        forall|x: nat| !#[trigger] occurs(x, rename(t, vs)),
    decreases t,
{
    if let Ty::Tuple(ts) = t {
        let us = rename(t, vs)->Tuple_0;
        assert forall|x: nat| !#[trigger] occurs(x, rename(t, vs)) by {
            crate::types::lemma_occurs_any(x, us);
            if occurs(x, rename(t, vs)) {
                let i = choose|i: int| 0 <= i < us.len() && #[trigger] occurs(x, us[i]);
                assert forall|y: nat| #[trigger] occurs(y, ts[i]) implies vs.contains(y) by {
                    crate::types::lemma_occurs_element(y, ts, i);
                }
                lemma_rename_closed(ts[i], vs);
                assert(us[i] == rename(ts[i], vs));
            }
        }
    } else if let Ty::Infer(y) = t {
        assert(occurs(y, t));
    }
}

/// No inference variable escapes a definition: a generalized scheme holds none, every free
/// variable having become a quantified one.
pub proof fn lemma_generalized_closed(s: Seq<Option<Ty>>, sc: Scheme)
    ensures
        forall|x: nat| !#[trigger] occurs(x, generalized(s, sc).input),
        forall|x: nat| !#[trigger] occurs(x, generalized(s, sc).output),
{
    let i = apply(s, sc.input);
    let o = apply(s, sc.output);
    let r1 = free_order(seq![], i);
    let vs = free_order(r1, o);
    lemma_free_order_covers(seq![], i);
    lemma_free_order_covers(r1, o);
    assert forall|x: nat| #[trigger] occurs(x, i) implies vs.contains(x) by {
        assert(r1.contains(x));
    }
    lemma_rename_closed(i, vs);
    lemma_rename_closed(o, vs);
}

} // verus!
