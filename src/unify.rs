use vstd::prelude::*;
use crate::types::{
    ground,
    Type, Ty, TypeError, ty_of, occurs, occurs_any, below, subst1, size, sizes, lemma_occurs_any, lemma_occurs_element,
    occurs_in, replace_unif_var,
};

verus! {

/// A binding for some inference variables, kept fully applied: no bound variable
/// occurs in the type that any variable is bound to.
pub struct Substitution {
    slots: Vec<Option<Type>>,
}

pub open spec fn slot_of(o: Option<Type>) -> Option<Ty> {
    match o {
        Some(t) => Some(ty_of(t)),
        None => None,
    }
}

impl Substitution {
    pub closed spec fn model(&self) -> Seq<Option<Ty>> {
        Seq::new(self.slots@.len(), |i: int| slot_of(self.slots@[i]))
    }
}

pub open spec fn bound_in(s: Seq<Option<Ty>>, x: nat) -> bool {
    x < s.len() && s[x as int] is Some
}

/// `t` with every bound variable replaced by its binding.
pub open spec fn apply(s: Seq<Option<Ty>>, t: Ty) -> Ty
    decreases t,
{
    match t {
        Ty::Infer(x) => if bound_in(s, x) { s[x as int]->Some_0 } else { t },
        Ty::Tuple(ts) => Ty::Tuple(
            Seq::new(ts.len(), |i: int| if 0 <= i < ts.len() { apply(s, ts[i]) } else { Ty::Num }),
        ),
        _ => t,
    }
}

/// No variable bound in `s` occurs in `t`.
pub open spec fn resolved(s: Seq<Option<Ty>>, t: Ty) -> bool {
    forall|x: nat| #[trigger] occurs(x, t) ==> !bound_in(s, x)
}

/// Every binding names only unbound variables below the number of slots.
pub open spec fn subst_wf(s: Seq<Option<Ty>>) -> bool {
    forall|x: nat| #[trigger] bound_in(s, x) ==> below(s[x as int]->Some_0, s.len())
        && resolved(s, s[x as int]->Some_0)
}

/// Applying `s0` first changes nothing once `s1` is applied: `s1` refines `s0`.
pub open spec fn absorbs(s0: Seq<Option<Ty>>, s1: Seq<Option<Ty>>) -> bool {
    forall|t: Ty| #[trigger] apply(s1, apply(s0, t)) == apply(s1, t)
}

/// The number of unbound slots.
pub open spec fn count_free(s: Seq<Option<Ty>>) -> nat
    decreases s.len(),
{
    if s.len() == 0 {
        0
    } else {
        count_free(s.drop_last()) + if s.last() is None { 1nat } else { 0nat }
    }
}

/// `s` after binding the unbound variable `a` to `r`.
pub open spec fn bind(s: Seq<Option<Ty>>, a: nat, r: Ty) -> Seq<Option<Ty>> {
    Seq::new(
        s.len(),
        |i: int|
            if i == a {
                Some(r)
            } else {
                match s[i] {
                    Some(u) => Some(subst1(u, a, r)),
                    None => None,
                }
            },
    )
}

pub proof fn lemma_count_update(s: Seq<Option<Ty>>, i: int, v: Option<Ty>)
    requires
        0 <= i < s.len(),
    ensures
        count_free(s.update(i, v)) + (if s[i] is None { 1nat } else { 0nat })
            == count_free(s) + (if v is None { 1nat } else { 0nat }),
    decreases s.len(),
{
    let u = s.update(i, v);
    if i == s.len() - 1 {
        assert(u.drop_last() =~= s.drop_last());
    } else {
        lemma_count_update(s.drop_last(), i, v);
        assert(u.drop_last() =~= s.drop_last().update(i, v));
    }
}

pub proof fn lemma_size_element(ts: Seq<Ty>, i: int)
    requires
        0 <= i < ts.len(),
    ensures
        size(ts[i]) <= sizes(ts),
    decreases ts.len(),
{
    if i < ts.len() - 1 {
        lemma_size_element(ts.drop_last(), i);
    }
}

pub proof fn lemma_apply_resolved(s: Seq<Option<Ty>>, t: Ty)
    requires
        resolved(s, t),
    ensures
        apply(s, t) == t,
    decreases t,
{
    if let Ty::Tuple(ts) = t {
        lemma_occurs_any(0, ts);
        assert forall|i: int| 0 <= i < ts.len() implies apply(s, ts[i]) == ts[i] by {
            assert forall|x: nat| #[trigger] occurs(x, ts[i]) implies !bound_in(s, x) by {
                lemma_occurs_element(x, ts, i);
            }
            lemma_apply_resolved(s, ts[i]);
        }
        if let Ty::Tuple(us) = apply(s, t) {
            assert(us =~= ts);
            assert(apply(s, t) == Ty::Tuple(ts));
        }
    } else if let Ty::Infer(x) = t {
        assert(occurs(x, t));
    }
}

/// Applying a well-formed substitution leaves nothing bound, and keeps variables below the bound.
pub proof fn lemma_apply_wf(s: Seq<Option<Ty>>, t: Ty)
    requires
        subst_wf(s),
    ensures
        resolved(s, apply(s, t)),
        below(t, s.len()) ==> below(apply(s, t), s.len()),
    decreases t,
{
    if let Ty::Tuple(ts) = t {
        let r = apply(s, t);
        if let Ty::Tuple(us) = r {
            assert forall|i: int| 0 <= i < ts.len() implies resolved(s, #[trigger] us[i])
                && (below(t, s.len()) ==> below(us[i], s.len())) by {
                lemma_apply_wf(s, ts[i]);
                if below(t, s.len()) {
                    assert forall|x: nat| #[trigger] occurs(x, ts[i]) implies x < s.len() by {
                        lemma_occurs_element(x, ts, i);
                    }
                }
            }
            assert forall|x: nat| #[trigger] occurs(x, r) implies !bound_in(s, x) && (below(t, s.len())
                ==> x < s.len()) by {
                lemma_occurs_any(x, us);
                let i = choose|i: int| 0 <= i < us.len() && #[trigger] occurs(x, us[i]);
            }
        }
    } else if let Ty::Infer(x) = t {
        if bound_in(s, x) {
            assert(below(s[x as int]->Some_0, s.len()));
        }
    }
}

pub proof fn lemma_apply_idempotent(s: Seq<Option<Ty>>, t: Ty)
    requires
        subst_wf(s),
    ensures
        apply(s, apply(s, t)) == apply(s, t),
{
    lemma_apply_wf(s, t);
    lemma_apply_resolved(s, apply(s, t));
}

pub proof fn lemma_absorbs_refl(s: Seq<Option<Ty>>)
    requires
        subst_wf(s),
    ensures
        absorbs(s, s),
{
    assert forall|t: Ty| #[trigger] apply(s, apply(s, t)) == apply(s, t) by {
        lemma_apply_idempotent(s, t);
    }
}

pub proof fn lemma_absorbs_trans(s0: Seq<Option<Ty>>, s1: Seq<Option<Ty>>, s2: Seq<Option<Ty>>)
    requires
        absorbs(s0, s1),
        absorbs(s1, s2),
    ensures
        absorbs(s0, s2),
{
    assert forall|t: Ty| #[trigger] apply(s2, apply(s0, t)) == apply(s2, t) by {
        assert(apply(s2, apply(s1, apply(s0, t))) == apply(s2, apply(s0, t)));
        assert(apply(s1, apply(s0, t)) == apply(s1, t));
        assert(apply(s2, apply(s1, t)) == apply(s2, t));
    }
}

pub proof fn lemma_subst1_occurs(u: Ty, a: nat, r: Ty, x: nat)
    ensures
        occurs(x, subst1(u, a, r)) ==> (occurs(x, u) && x != a) || occurs(x, r),
    decreases u,
{
    if let Ty::Tuple(ts) = u {
        if let Ty::Tuple(vs) = subst1(u, a, r) {
            if occurs(x, subst1(u, a, r)) {
                lemma_occurs_any(x, vs);
                lemma_occurs_any(x, ts);
                let i = choose|i: int| 0 <= i < vs.len() && #[trigger] occurs(x, vs[i]);
                lemma_subst1_occurs(ts[i], a, r, x);
            }
        }
    }
}

/// Applying `bind(s, a, r)` is applying `s`, then replacing `a` by `r`.
pub proof fn lemma_apply_bind(s: Seq<Option<Ty>>, a: nat, r: Ty, t: Ty)
    requires
        a < s.len(),
        s[a as int] is None,
    ensures
        apply(bind(s, a, r), t) == subst1(apply(s, t), a, r),
    decreases t,
{
    let s2 = bind(s, a, r);
    if let Ty::Tuple(ts) = t {
        assert forall|i: int| 0 <= i < ts.len() implies apply(s2, ts[i]) == subst1(apply(s, ts[i]), a, r) by {
            lemma_apply_bind(s, a, r, ts[i]);
        }
        if let Ty::Tuple(xs) = apply(s2, t) {
            if let Ty::Tuple(ys) = subst1(apply(s, t), a, r) {
                assert(xs =~= ys);
            }
        }
    }
}

pub proof fn lemma_bind(s: Seq<Option<Ty>>, a: nat, r: Ty)
    requires
        subst_wf(s),
        a < s.len(),
        s[a as int] is None,
        resolved(s, r),
        below(r, s.len()),
        !occurs(a, r),
    ensures
        subst_wf(bind(s, a, r)),
        absorbs(s, bind(s, a, r)),
        count_free(bind(s, a, r)) + 1 == count_free(s),
{
    let s2 = bind(s, a, r);
    assert forall|x: nat| #[trigger] bound_in(s2, x) implies below(s2[x as int]->Some_0, s2.len())
        && resolved(s2, s2[x as int]->Some_0) by {
        if x != a {
            let u = s[x as int]->Some_0;
            assert(bound_in(s, x));
            assert forall|y: nat| #[trigger] occurs(y, subst1(u, a, r)) implies y < s.len()
                && !bound_in(s2, y) by {
                lemma_subst1_occurs(u, a, r, y);
            }
        }
    }
    assert forall|t: Ty| #[trigger] apply(s2, apply(s, t)) == apply(s2, t) by {
        lemma_apply_bind(s, a, r, t);
        lemma_apply_bind(s, a, r, apply(s, t));
        lemma_apply_idempotent(s, t);
    }
    // the count: first rewrite every other slot, then fill slot `a`
    let mid = Seq::new(s.len(), |i: int| if i == a { None } else { s2[i] });
    lemma_count_same_shape(s, mid);
    lemma_count_update(mid, a as int, Some(r));
    assert(mid.update(a as int, Some(r)) =~= s2);
}

pub proof fn lemma_count_same_shape(s: Seq<Option<Ty>>, t: Seq<Option<Ty>>)
    requires
        s.len() == t.len(),
        forall|i: int| 0 <= i < s.len() ==> (s[i] is None <==> t[i] is None),
    ensures
        count_free(s) == count_free(t),
    decreases s.len(),
{
    if s.len() > 0 {
        lemma_count_same_shape(s.drop_last(), t.drop_last());
    }
}

/// Neither type is a variable, and they are not two tuples of one length: they differ at the top.
pub open spec fn clash(t1: Ty, t2: Ty) -> bool {
    &&& !(t1 is Infer)
    &&& !(t2 is Infer)
    &&& !(t1 is Tuple && t2 is Tuple && t1->Tuple_0.len() == t2->Tuple_0.len())
}

/// What an error of unification says of its operands: two types that differ at the top, or a
/// variable and a larger type that holds it.
pub open spec fn error_explained(e: TypeError) -> bool {
    match e {
        TypeError::CannotUnify(a, b) => clash(ty_of(a), ty_of(b)),
        TypeError::InfiniteType(x, t) => occurs(x as nat, ty_of(t)) && ty_of(t) != Ty::Infer(x as nat),
        TypeError::OutOfVariables => false,
    }
}

/// Where `apply(s0, t)` is a ground tuple, each of its places stays ground under any `sk` that
/// refines `s0`.
pub proof fn lemma_ground_element_applied(s0: Seq<Option<Ty>>, sk: Seq<Option<Ty>>, t: Ty, k: int)
    requires
        absorbs(s0, sk),
        t is Tuple,
        0 <= k < t->Tuple_0.len(),
    ensures
        ground(apply(s0, t)) ==> ground(apply(sk, t->Tuple_0[k])),
{
    if ground(apply(s0, t)) {
        let ts = t->Tuple_0;
        let a = apply(s0, t)->Tuple_0;
        assert(a[k] == apply(s0, ts[k]));
        assert forall|x: nat| !#[trigger] occurs(x, a[k]) by {
            if occurs(x, a[k]) {
                lemma_occurs_element(x, a, k);
            }
        }
        assert forall|x: nat| #[trigger] occurs(x, a[k]) implies !bound_in(sk, x) by {}
        lemma_apply_resolved(sk, a[k]);
        assert(apply(sk, apply(s0, ts[k])) == apply(sk, ts[k]));
    }
}

/// `u` refines `s0` and makes `t1` and `t2` equal.
pub open spec fn solves_from(s0: Seq<Option<Ty>>, u: Seq<Option<Ty>>, t1: Ty, t2: Ty) -> bool {
    absorbs(s0, u) && apply(u, t1) == apply(u, t2)
}

/// A variable is no bigger, once applied, than a type it occurs in; strictly smaller inside a tuple.
pub proof fn lemma_occurs_size(u: Seq<Option<Ty>>, a: nat, t: Ty)
    requires
        occurs(a, t),
    ensures
        size(apply(u, t)) >= size(apply(u, Ty::Infer(a))),
        t is Tuple ==> size(apply(u, t)) > size(apply(u, Ty::Infer(a))),
    decreases t,
{
    if let Ty::Tuple(ts) = t {
        lemma_occurs_any(a, ts);
        let i = choose|i: int| 0 <= i < ts.len() && #[trigger] occurs(a, ts[i]);
        lemma_occurs_size(u, a, ts[i]);
        let us = apply(u, t)->Tuple_0;
        assert(us[i] == apply(u, ts[i]));
        lemma_size_element(us, i);
    }
}

/// Where `u` makes `Infer(a)` and `r` equal, replacing `a` by `r` changes nothing under `u`.
pub proof fn lemma_apply_subst1(u: Seq<Option<Ty>>, x: Ty, a: nat, r: Ty)
    requires
        apply(u, Ty::Infer(a)) == apply(u, r),
    ensures
        apply(u, subst1(x, a, r)) == apply(u, x),
    decreases x,
{
    if let Ty::Tuple(ts) = x {
        assert forall|i: int| 0 <= i < ts.len() implies apply(u, subst1(ts[i], a, r)) == apply(u, ts[i]) by {
            lemma_apply_subst1(u, ts[i], a, r);
        }
        if let Ty::Tuple(ys) = apply(u, subst1(x, a, r)) {
            if let Ty::Tuple(zs) = apply(u, x) {
                assert(ys =~= zs);
            }
        }
    }
}

pub proof fn lemma_absorbs_empty(s: Seq<Option<Ty>>, u: Seq<Option<Ty>>)
    requires
        forall|i: int| 0 <= i < s.len() ==> s[i] is None,
    ensures
        absorbs(s, u),
{
    assert forall|t: Ty| #[trigger] apply(u, apply(s, t)) == apply(u, t) by {
        assert forall|x: nat| #[trigger] occurs(x, t) implies !bound_in(s, x) by {
            if bound_in(s, x) {
                assert(s[x as int] is None);
            }
        }
        lemma_apply_resolved(s, t);
    }
}

impl Substitution {
    /// A substitution of `n` unbound slots.
    pub fn new(n: usize) -> (r: Substitution)
        ensures
            r.model() == Seq::new(n as nat, |i: int| None::<Ty>),
            subst_wf(r.model()),
    {
        let mut slots: Vec<Option<Type>> = Vec::new();
        let mut k: usize = 0;
        while k < n
            invariant
                k <= n,
                slots@.len() == k,
                forall|j: int| 0 <= j < k ==> slots@[j] is None,
            decreases n - k,
        {
            slots.push(None);
            k = k + 1;
        }
        let r = Substitution { slots };
        assert(r.model() =~= Seq::new(n as nat, |i: int| None::<Ty>));
        r
    }

    /// The binding of `x`, if any.
    pub fn get(&self, x: usize) -> (r: Option<&Type>)
        ensures
            match r {
                Some(t) => bound_in(self.model(), x as nat) && self.model()[x as int] == Some(ty_of(*t)),
                None => !bound_in(self.model(), x as nat),
            },
    {
        if x < self.slots.len() {
            match &self.slots[x] {
                Some(t) => Some(t),
                None => None,
            }
        } else {
            None
        }
    }

    /// `t` with every bound variable replaced by its binding.
    pub fn apply_to(&self, t: &Type) -> (r: Type)
        ensures
            ty_of(r) == apply(self.model(), ty_of(*t)),
        decreases t,
    {
        match t {
            Type::UnifVar(x) => match self.get(*x) {
                Some(u) => u.copy(),
                None => Type::UnifVar(*x),
            },
            Type::Tuple(v) => {
                let mut out: Vec<Type> = Vec::new();
                let mut k: usize = 0;
                while k < v.len()
                    invariant
                        *t == Type::Tuple(*v),
                        k <= v@.len(),
                        out@.len() == k,
                        forall|j: int| 0 <= j < k ==> ty_of(#[trigger] out@[j]) == apply(
                            self.model(),
                            ty_of(v@[j]),
                        ),
                    decreases v@.len() - k,
                {
                    proof {
                        crate::types::lemma_element_decreases(*t, *v, k as int);
                    }
                    out.push(self.apply_to(&v[k]));
                    k = k + 1;
                }
                let r = Type::Tuple(out);
                assert(ty_of(r) == apply(self.model(), ty_of(*t))) by {
                    if let Ty::Tuple(x) = ty_of(r) {
                        if let Ty::Tuple(y) = apply(self.model(), ty_of(*t)) {
                            assert(x =~= y);
                        }
                    }
                }
                r
            },
            _ => t.copy(),
        }
    }

    /// Binds the unbound variable `a` to `r`, rewriting every other binding.
    fn bind_var(&mut self, a: usize, r: &Type)
        requires
            a < old(self).model().len(),
            old(self).model()[a as int] is None,
        ensures
            final(self).model() == bind(old(self).model(), a as nat, ty_of(*r)),
    {
        let ghost s0 = self.model();
        let mut k: usize = 0;
        while k < self.slots.len()
            invariant
                k <= self.slots@.len(),
                self.slots@.len() == s0.len(),
                a < s0.len(),
                s0[a as int] is None,
                forall|j: int| 0 <= j < k ==> #[trigger] slot_of(self.slots@[j]) == bind(s0, a as nat, ty_of(*r))[j]
                    || j == a,
                forall|j: int| k <= j < s0.len() ==> #[trigger] slot_of(self.slots@[j]) == s0[j],
            decreases s0.len() - k,
        {
            let next = match &self.slots[k] {
                Some(u) => Some(replace_unif_var(u, a, r)),
                None => None,
            };
            self.slots.set(k, next);
            assert(k == a || slot_of(self.slots@[k as int]) == bind(s0, a as nat, ty_of(*r))[k as int]);
            k = k + 1;
        }
        self.slots.set(a, Some(r.copy()));
        assert(self.model() =~= bind(s0, a as nat, ty_of(*r)));
    }
}

/// Makes the fully applied types `r1` and `r2` equal by extending `s`.
fn unify_resolved(s: &mut Substitution, r1: &Type, r2: &Type) -> (res: Result<(), TypeError>)
    requires
        subst_wf(old(s).model()),
        below(ty_of(*r1), old(s).model().len()),
        below(ty_of(*r2), old(s).model().len()),
        resolved(old(s).model(), ty_of(*r1)),
        resolved(old(s).model(), ty_of(*r2)),
    ensures
        final(s).model().len() == old(s).model().len(),
        subst_wf(final(s).model()),
        absorbs(old(s).model(), final(s).model()),
        count_free(final(s).model()) <= count_free(old(s).model()),
        count_free(final(s).model()) == count_free(old(s).model()) ==> final(s).model() == old(s).model(),
        res is Ok ==> apply(final(s).model(), ty_of(*r1)) == apply(final(s).model(), ty_of(*r2)),
        ty_of(*r1) == ty_of(*r2) ==> res is Ok,
        ty_of(*r1) is Infer && !occurs(ty_of(*r1)->Infer_0, ty_of(*r2)) ==> res is Ok,
        ty_of(*r2) is Infer && !occurs(ty_of(*r2)->Infer_0, ty_of(*r1)) ==> res is Ok,
        forall|u: Seq<Option<Ty>>| #[trigger] solves_from(old(s).model(), u, ty_of(*r1), ty_of(*r2))
            ==> res is Ok && absorbs(final(s).model(), u),
        res is Err ==> !(res->Err_0 is OutOfVariables),
        res is Err && clash(ty_of(*r1), ty_of(*r2)) ==> final(s).model() == old(s).model()
            && res->Err_0 is CannotUnify && ty_of(res->Err_0->CannotUnify_0) == ty_of(*r1)
            && ty_of(res->Err_0->CannotUnify_1) == ty_of(*r2),
        res is Err ==> error_explained(res->Err_0),
        res is Err && (ground(ty_of(*r1)) || ground(ty_of(*r2))) ==> res->Err_0 is CannotUnify,
        ty_of(*r1) == ty_of(*r2) ==> final(s).model() == old(s).model(),
        res is Err && (ty_of(*r1) is Infer || ty_of(*r2) is Infer) ==> final(s).model() == old(s).model(),
    decreases count_free(old(s).model()), size(ty_of(*r1)) + size(ty_of(*r2)),
{
    proof {
        lemma_absorbs_refl(s.model());
    }
    match r1 {
        Type::UnifVar(a) => {
            if let Type::UnifVar(b) = r2 {
                if *a == *b {
                    return Ok(());
                }
            }
            assert(occurs(*a as nat, ty_of(*r1)));
            proof {
                if ty_of(*r2) is Infer {
                    assert(!occurs(*a as nat, ty_of(*r2)));
                }
            }
            let res = bind_checked(s, *a, r2);
            assert forall|u: Seq<Option<Ty>>| #[trigger] solves_from(old(s).model(), u, ty_of(*r1), ty_of(*r2))
                implies res is Ok && absorbs(s.model(), u) by {
                assert(solves_from(old(s).model(), u, Ty::Infer(*a as nat), ty_of(*r2)));
            }
            return res;
        },
        _ => {},
    }
    match r2 {
        Type::UnifVar(b) => {
            assert(occurs(*b as nat, ty_of(*r2)));
            let res = bind_checked(s, *b, r1);
            assert forall|u: Seq<Option<Ty>>| #[trigger] solves_from(old(s).model(), u, ty_of(*r1), ty_of(*r2))
                implies res is Ok && absorbs(s.model(), u) by {
                assert(solves_from(old(s).model(), u, Ty::Infer(*b as nat), ty_of(*r1)));
            }
            return res;
        },
        _ => {},
    }
    match (r1, r2) {
        (Type::Num, Type::Num) => Ok(()),
        (Type::Bool, Type::Bool) => Ok(()),
        (Type::String, Type::String) => Ok(()),
        (Type::TyVar(a), Type::TyVar(b)) => {
            if *a == *b {
                Ok(())
            } else {
                Err(TypeError::CannotUnify(r1.copy(), r2.copy()))
            }
        },
        (Type::Tuple(v1), Type::Tuple(v2)) => {
            if v1.len() != v2.len() {
                assert forall|u: Seq<Option<Ty>>| #[trigger] solves_from(s.model(), u, ty_of(*r1), ty_of(*r2))
                    implies false by {
                    assert(apply(u, ty_of(*r1))->Tuple_0.len() == v1@.len());
                    assert(apply(u, ty_of(*r2))->Tuple_0.len() == v2@.len());
                }
                return Err(TypeError::CannotUnify(r1.copy(), r2.copy()));
            }
            let ghost s0 = s.model();
            let mut k: usize = 0;
            while k < v1.len()
                invariant
                    *r1 == Type::Tuple(*v1),
                    *r2 == Type::Tuple(*v2),
                    s0 == old(s).model(),
                    v1@.len() == v2@.len(),
                    k <= v1@.len(),
                    s.model().len() == s0.len(),
                    subst_wf(s0),
                    below(ty_of(*r1), s0.len()),
                    below(ty_of(*r2), s0.len()),
                    resolved(s0, ty_of(*r1)),
                    resolved(s0, ty_of(*r2)),
                    subst_wf(s.model()),
                    absorbs(s0, s.model()),
                    count_free(s.model()) <= count_free(s0),
                    count_free(s.model()) == count_free(s0) ==> s.model() == s0,
                    ty_of(*r1) is Tuple,
                    ty_of(*r2) is Tuple,
                    ty_of(*r1) == ty_of(*r2) ==> s.model() == s0,
                    resolved(s0, ty_of(*r1)),
                    forall|u: Seq<Option<Ty>>| #[trigger] solves_from(s0, u, ty_of(*r1), ty_of(*r2)) ==> absorbs(
                        s.model(),
                        u,
                    ),
                    forall|j: int| 0 <= j < k ==> apply(s.model(), #[trigger] ty_of(v1@[j]))
                        == apply(s.model(), ty_of(v2@[j])),
                decreases v1@.len() - k,
            {
                let ghost sk = s.model();
                let x = s.apply_to(&v1[k]);
                let y = s.apply_to(&v2[k]);
                proof {
                    let ts1 = ty_of(*r1)->Tuple_0;
                    let ts2 = ty_of(*r2)->Tuple_0;
                    assert(ts1[k as int] == ty_of(v1@[k as int]));
                    assert(ts2[k as int] == ty_of(v2@[k as int]));
                    assert forall|z: nat| #[trigger] occurs(z, ts1[k as int]) implies z < s0.len() && !bound_in(s0, z) by {
                        lemma_occurs_element(z, ts1, k as int);
                    }
                    assert forall|z: nat| #[trigger] occurs(z, ts2[k as int]) implies z < s0.len() && !bound_in(s0, z) by {
                        lemma_occurs_element(z, ts2, k as int);
                    }
                    lemma_apply_wf(sk, ty_of(v1@[k as int]));
                    lemma_apply_wf(sk, ty_of(v2@[k as int]));
                    if count_free(sk) == count_free(s0) {
                        lemma_apply_resolved(s0, ts1[k as int]);
                        lemma_apply_resolved(s0, ts2[k as int]);
                        lemma_size_element(ts1, k as int);
                        lemma_size_element(ts2, k as int);
                    }
                }
                proof {
                    let ts1 = ty_of(*r1)->Tuple_0;
                    let ts2 = ty_of(*r2)->Tuple_0;
                    if count_free(sk) == count_free(s0) {
                        assert(ty_of(x) == ts1[k as int]);
                        assert(size(ty_of(*r1)) == 1 + sizes(ts1));
                        assert(size(ty_of(*r2)) == 1 + sizes(ts2));
                    }
                }
                let step = unify_resolved(s, &x, &y);
                proof {
                    lemma_absorbs_trans(s0, sk, s.model());
                    if ty_of(*r1) == ty_of(*r2) {
                        assert(ty_of(x) == ty_of(y));
                    }
                    lemma_apply_resolved(s0, ty_of(*r1));
                    lemma_apply_resolved(s0, ty_of(*r2));
                    lemma_ground_element_applied(s0, sk, ty_of(*r1), k as int);
                    lemma_ground_element_applied(s0, sk, ty_of(*r2), k as int);
                    let ts1 = ty_of(*r1)->Tuple_0;
                    let ts2 = ty_of(*r2)->Tuple_0;
                    assert forall|u: Seq<Option<Ty>>| #[trigger] solves_from(s0, u, ty_of(*r1), ty_of(*r2))
                        implies step is Ok && absorbs(s.model(), u) by {
                        assert(absorbs(sk, u));
                        assert(apply(u, ty_of(*r1))->Tuple_0[k as int] == apply(u, ts1[k as int]));
                        assert(apply(u, ty_of(*r2))->Tuple_0[k as int] == apply(u, ts2[k as int]));
                        assert(ts1[k as int] == ty_of(v1@[k as int]));
                        assert(ts2[k as int] == ty_of(v2@[k as int]));
                        assert(apply(u, apply(sk, ts1[k as int])) == apply(u, ts1[k as int]));
                        assert(apply(u, apply(sk, ts2[k as int])) == apply(u, ts2[k as int]));
                        assert(solves_from(sk, u, ty_of(x), ty_of(y)));
                    }
                }
                match step {
                    Ok(()) => {
                        proof {
                            let sn = s.model();
                            assert forall|j: int| 0 <= j <= k implies apply(sn, #[trigger] ty_of(v1@[j]))
                                == apply(sn, ty_of(v2@[j])) by {
                                assert(apply(sn, apply(sk, ty_of(v1@[j]))) == apply(sn, ty_of(v1@[j])));
                                assert(apply(sn, apply(sk, ty_of(v2@[j]))) == apply(sn, ty_of(v2@[j])));
                            }
                        }
                    },
                    Err(e) => {
                        return Err(e);
                    },
                }
                k = k + 1;
            }
            proof {
                let sn = s.model();
                let ts1 = ty_of(*r1)->Tuple_0;
                let ts2 = ty_of(*r2)->Tuple_0;
                if let Ty::Tuple(xs) = apply(sn, ty_of(*r1)) {
                    if let Ty::Tuple(ys) = apply(sn, ty_of(*r2)) {
                        assert forall|j: int| 0 <= j < xs.len() implies xs[j] == ys[j] by {
                            assert(ts1[j] == ty_of(v1@[j]));
                            assert(ts2[j] == ty_of(v2@[j]));
                        }
                        assert(xs =~= ys);
                    }
                }
            }
            Ok(())
        },
        _ => Err(TypeError::CannotUnify(r1.copy(), r2.copy())),
    }
}

/// Binds the unbound variable `a` to the fully applied `t`, unless `a` occurs in `t`.
fn bind_checked(s: &mut Substitution, a: usize, t: &Type) -> (res: Result<(), TypeError>)
    requires
        subst_wf(old(s).model()),
        (a as nat) < old(s).model().len(),
        !bound_in(old(s).model(), a as nat),
        below(ty_of(*t), old(s).model().len()),
        resolved(old(s).model(), ty_of(*t)),
    ensures
        final(s).model().len() == old(s).model().len(),
        subst_wf(final(s).model()),
        absorbs(old(s).model(), final(s).model()),
        count_free(final(s).model()) <= count_free(old(s).model()),
        count_free(final(s).model()) == count_free(old(s).model()) ==> final(s).model() == old(s).model(),
        res is Ok ==> apply(final(s).model(), Ty::Infer(a as nat)) == apply(final(s).model(), ty_of(*t)),
        res is Err <==> occurs(a as nat, ty_of(*t)),
        res is Err ==> res->Err_0 is InfiniteType && res->Err_0->InfiniteType_0 == a
            && ty_of(res->Err_0->InfiniteType_1) == ty_of(*t),
        res is Err ==> final(s).model() == old(s).model(),
        ty_of(*t) != Ty::Infer(a as nat) ==> forall|u: Seq<Option<Ty>>| #[trigger] solves_from(
            old(s).model(),
            u,
            Ty::Infer(a as nat),
            ty_of(*t),
        ) ==> res is Ok && absorbs(final(s).model(), u),
{
    proof {
        lemma_absorbs_refl(s.model());
    }
    if occurs_in(a, t) {
        proof {
            if ty_of(*t) != Ty::Infer(a as nat) {
                assert forall|u: Seq<Option<Ty>>| #[trigger] solves_from(s.model(), u, Ty::Infer(a as nat), ty_of(*t))
                    implies false by {
                    lemma_occurs_size(u, a as nat, ty_of(*t));
                }
            }
        }
        return Err(TypeError::InfiniteType(a, t.copy()));
    }
    let ghost s0 = s.model();
    s.bind_var(a, t);
    proof {
        lemma_bind(s0, a as nat, ty_of(*t));
        lemma_apply_bind(s0, a as nat, ty_of(*t), ty_of(*t));
        lemma_apply_resolved(s0, ty_of(*t));
        lemma_subst1_absent(ty_of(*t), a as nat, ty_of(*t));
        let sn = s.model();
        assert forall|u: Seq<Option<Ty>>| #[trigger] solves_from(s0, u, Ty::Infer(a as nat), ty_of(*t))
            implies absorbs(sn, u) by {
            assert forall|x: Ty| #[trigger] apply(u, apply(sn, x)) == apply(u, x) by {
                lemma_apply_bind(s0, a as nat, ty_of(*t), x);
                lemma_apply_subst1(u, apply(s0, x), a as nat, ty_of(*t));
            }
        }
    }
    Ok(())
}

pub proof fn lemma_subst1_absent(u: Ty, a: nat, r: Ty)
    requires
        !occurs(a, u),
    ensures
        subst1(u, a, r) == u,
    decreases u,
{
    if let Ty::Tuple(ts) = u {
        lemma_occurs_any(a, ts);
        assert forall|i: int| 0 <= i < ts.len() implies subst1(ts[i], a, r) == ts[i] by {
            lemma_subst1_absent(ts[i], a, r);
        }
        if let Ty::Tuple(vs) = subst1(u, a, r) {
            assert(vs =~= ts);
        }
    }
}

/// Makes `t1` and `t2` equal by extending `s`. Two tuples of one length are unified place by
/// place; two types that differ at the top are reported as they were given.
pub fn unify_types(s: &mut Substitution, t1: &Type, t2: &Type) -> (res: Result<(), TypeError>)
    requires
        subst_wf(old(s).model()),
        below(ty_of(*t1), old(s).model().len()),
        below(ty_of(*t2), old(s).model().len()),
    ensures
        final(s).model().len() == old(s).model().len(),
        subst_wf(final(s).model()),
        absorbs(old(s).model(), final(s).model()),
        count_free(final(s).model()) <= count_free(old(s).model()),
        count_free(final(s).model()) == count_free(old(s).model()) ==> final(s).model() == old(s).model(),
        res is Ok ==> apply(final(s).model(), ty_of(*t1)) == apply(final(s).model(), ty_of(*t2)),
        apply(old(s).model(), ty_of(*t1)) == apply(old(s).model(), ty_of(*t2)) ==> res is Ok
            && final(s).model() == old(s).model(),
        ty_of(*t1) is Infer && !bound_in(old(s).model(), ty_of(*t1)->Infer_0) && !occurs(
            ty_of(*t1)->Infer_0,
            apply(old(s).model(), ty_of(*t2)),
        ) ==> res is Ok,
        ty_of(*t2) is Infer && !bound_in(old(s).model(), ty_of(*t2)->Infer_0) && !occurs(
            ty_of(*t2)->Infer_0,
            apply(old(s).model(), ty_of(*t1)),
        ) ==> res is Ok,
        forall|u: Seq<Option<Ty>>| #[trigger] solves_from(old(s).model(), u, ty_of(*t1), ty_of(*t2))
            ==> res is Ok && absorbs(final(s).model(), u),
        res is Err ==> error_explained(res->Err_0),
        res is Err && (ground(apply(old(s).model(), ty_of(*t1))) || ground(apply(old(s).model(), ty_of(*t2))))
            ==> res->Err_0 is CannotUnify,
        res is Err && clash(apply(old(s).model(), ty_of(*t1)), apply(old(s).model(), ty_of(*t2)))
            ==> final(s).model() == old(s).model() && res->Err_0 is CannotUnify,
        res is Err && clash(ty_of(*t1), ty_of(*t2)) ==> final(s).model() == old(s).model()
            && res->Err_0 is CannotUnify && ty_of(res->Err_0->CannotUnify_0) == ty_of(*t1)
            && ty_of(res->Err_0->CannotUnify_1) == ty_of(*t2),
        res is Err && (ty_of(*t1) is Infer && !bound_in(old(s).model(), ty_of(*t1)->Infer_0)
            || ty_of(*t2) is Infer && !bound_in(old(s).model(), ty_of(*t2)->Infer_0))
            ==> final(s).model() == old(s).model(),
    decreases count_free(old(s).model()), size(apply(old(s).model(), ty_of(*t1))) + size(
        apply(old(s).model(), ty_of(*t2)),
    ),
{
    let ghost s0 = s.model();
    proof {
        lemma_absorbs_refl(s0);
        lemma_apply_wf(s0, ty_of(*t1));
        lemma_apply_wf(s0, ty_of(*t2));
    }
    let var_side = match (t1, t2) {
        (Type::UnifVar(_), _) => true,
        (_, Type::UnifVar(_)) => true,
        _ => false,
    };
    if !var_side {
        match (t1, t2) {
            (Type::Num, Type::Num) => {
                return Ok(());
            },
            (Type::Bool, Type::Bool) => {
                return Ok(());
            },
            (Type::String, Type::String) => {
                return Ok(());
            },
            (Type::TyVar(a), Type::TyVar(b)) => {
                if *a == *b {
                    return Ok(());
                }
            },
            (Type::Tuple(v1), Type::Tuple(v2)) => {
                if v1.len() == v2.len() {
                    return unify_tuples(s, t1, t2, v1, v2);
                }
            },
            _ => {},
        }
        proof {
            assert(clash(ty_of(*t1), ty_of(*t2)));
            assert forall|u: Seq<Option<Ty>>| #[trigger] solves_from(s0, u, ty_of(*t1), ty_of(*t2)) implies false by {
                if ty_of(*t1) is Tuple && ty_of(*t2) is Tuple {
                    assert(apply(u, ty_of(*t1))->Tuple_0.len() == v1_len(*t1));
                    assert(apply(u, ty_of(*t2))->Tuple_0.len() == v1_len(*t2));
                }
            }
            if ty_of(*t1) is Tuple && ty_of(*t2) is Tuple {
                assert(apply(s0, ty_of(*t1))->Tuple_0.len() == v1_len(*t1));
                assert(apply(s0, ty_of(*t2))->Tuple_0.len() == v1_len(*t2));
            }
        }
        return Err(TypeError::CannotUnify(t1.copy(), t2.copy()));
    }
    let r1 = s.apply_to(t1);
    let r2 = s.apply_to(t2);
    let res = unify_resolved(s, &r1, &r2);
    proof {
        let sn = s.model();
        assert(apply(sn, apply(s0, ty_of(*t1))) == apply(sn, ty_of(*t1)));
        assert(apply(sn, apply(s0, ty_of(*t2))) == apply(sn, ty_of(*t2)));
        assert forall|u: Seq<Option<Ty>>| #[trigger] solves_from(s0, u, ty_of(*t1), ty_of(*t2))
            implies res is Ok && absorbs(sn, u) by {
            assert(apply(u, apply(s0, ty_of(*t1))) == apply(u, ty_of(*t1)));
            assert(apply(u, apply(s0, ty_of(*t2))) == apply(u, ty_of(*t2)));
            assert(solves_from(s0, u, ty_of(r1), ty_of(r2)));
        }
    }
    res
}

/// The number of places of a tuple type; zero for any other.
pub open spec fn v1_len(t: Type) -> int {
    match t {
        Type::Tuple(v) => v@.len() as int,
        _ => 0,
    }
}

/// Unifies two tuples of one length place by place, in order.
fn unify_tuples(s: &mut Substitution, t1: &Type, t2: &Type, v1: &Vec<Type>, v2: &Vec<Type>) -> (res: Result<(), TypeError>)
    requires
        *t1 == Type::Tuple(*v1),
        *t2 == Type::Tuple(*v2),
        v1@.len() == v2@.len(),
        subst_wf(old(s).model()),
        below(ty_of(*t1), old(s).model().len()),
        below(ty_of(*t2), old(s).model().len()),
    ensures
        final(s).model().len() == old(s).model().len(),
        subst_wf(final(s).model()),
        absorbs(old(s).model(), final(s).model()),
        count_free(final(s).model()) <= count_free(old(s).model()),
        count_free(final(s).model()) == count_free(old(s).model()) ==> final(s).model() == old(s).model(),
        res is Ok ==> apply(final(s).model(), ty_of(*t1)) == apply(final(s).model(), ty_of(*t2)),
        apply(old(s).model(), ty_of(*t1)) == apply(old(s).model(), ty_of(*t2)) ==> res is Ok
            && final(s).model() == old(s).model(),
        forall|u: Seq<Option<Ty>>| #[trigger] solves_from(old(s).model(), u, ty_of(*t1), ty_of(*t2))
            ==> res is Ok && absorbs(final(s).model(), u),
        res is Err ==> error_explained(res->Err_0),
        res is Err && (ground(apply(old(s).model(), ty_of(*t1))) || ground(apply(old(s).model(), ty_of(*t2))))
            ==> res->Err_0 is CannotUnify,
    decreases count_free(old(s).model()), size(apply(old(s).model(), ty_of(*t1))) + size(
        apply(old(s).model(), ty_of(*t2)),
    ), 0nat,
{
    let ghost s0 = s.model();
    let ghost ts1 = ty_of(*t1)->Tuple_0;
    let ghost ts2 = ty_of(*t2)->Tuple_0;
    proof {
        lemma_absorbs_refl(s0);
    }
    let mut k: usize = 0;
    while k < v1.len()
        invariant
            *t1 == Type::Tuple(*v1),
            *t2 == Type::Tuple(*v2),
            ts1 == ty_of(*t1)->Tuple_0,
            ts2 == ty_of(*t2)->Tuple_0,
            s0 == old(s).model(),
            v1@.len() == v2@.len(),
            k <= v1@.len(),
            s.model().len() == s0.len(),
            subst_wf(s0),
            below(ty_of(*t1), s0.len()),
            below(ty_of(*t2), s0.len()),
            subst_wf(s.model()),
            absorbs(s0, s.model()),
            count_free(s.model()) <= count_free(s0),
            count_free(s.model()) == count_free(s0) ==> s.model() == s0,
            apply(s0, ty_of(*t1)) == apply(s0, ty_of(*t2)) ==> s.model() == s0,
            forall|u: Seq<Option<Ty>>| #[trigger] solves_from(s0, u, ty_of(*t1), ty_of(*t2)) ==> absorbs(s.model(), u),
            forall|j: int| 0 <= j < k ==> apply(s.model(), #[trigger] ts1[j]) == apply(s.model(), ts2[j]),
        decreases v1@.len() - k,
    {
        let ghost sk = s.model();
        proof {
            assert(ts1[k as int] == ty_of(v1@[k as int]));
            assert(ts2[k as int] == ty_of(v2@[k as int]));
            assert forall|z: nat| #[trigger] occurs(z, ts1[k as int]) implies z < s0.len() by {
                lemma_occurs_element(z, ts1, k as int);
            }
            assert forall|z: nat| #[trigger] occurs(z, ts2[k as int]) implies z < s0.len() by {
                lemma_occurs_element(z, ts2, k as int);
            }
            let a1 = apply(s0, ty_of(*t1))->Tuple_0;
            let a2 = apply(s0, ty_of(*t2))->Tuple_0;
            assert(a1[k as int] == apply(s0, ts1[k as int]));
            assert(a2[k as int] == apply(s0, ts2[k as int]));
            lemma_size_element(a1, k as int);
            lemma_size_element(a2, k as int);
        }
        proof {
            lemma_ground_element_applied(s0, sk, ty_of(*t1), k as int);
            lemma_ground_element_applied(s0, sk, ty_of(*t2), k as int);
        }
        let step = unify_types(s, &v1[k], &v2[k]);
        proof {
            lemma_absorbs_trans(s0, sk, s.model());
            assert forall|u: Seq<Option<Ty>>| #[trigger] solves_from(s0, u, ty_of(*t1), ty_of(*t2))
                implies step is Ok && absorbs(s.model(), u) by {
                assert(absorbs(sk, u));
                assert(apply(u, ty_of(*t1))->Tuple_0[k as int] == apply(u, ts1[k as int]));
                assert(apply(u, ty_of(*t2))->Tuple_0[k as int] == apply(u, ts2[k as int]));
                assert(solves_from(sk, u, ts1[k as int], ts2[k as int]));
            }
            if apply(s0, ty_of(*t1)) == apply(s0, ty_of(*t2)) {
                assert(apply(s0, ty_of(*t1))->Tuple_0[k as int] == apply(s0, ts1[k as int]));
                assert(apply(s0, ty_of(*t2))->Tuple_0[k as int] == apply(s0, ts2[k as int]));
            }
        }
        match step {
            Ok(()) => {
                proof {
                    let sn = s.model();
                    assert forall|j: int| 0 <= j <= k implies apply(sn, #[trigger] ts1[j]) == apply(sn, ts2[j]) by {
                        assert(apply(sn, apply(sk, ts1[j])) == apply(sn, ts1[j]));
                        assert(apply(sn, apply(sk, ts2[j])) == apply(sn, ts2[j]));
                    }
                }
            },
            Err(e) => {
                return Err(e);
            },
        }
        k = k + 1;
    }
    proof {
        let sn = s.model();
        if let Ty::Tuple(xs) = apply(sn, ty_of(*t1)) {
            if let Ty::Tuple(ys) = apply(sn, ty_of(*t2)) {
                assert(xs =~= ys);
            }
        }
    }
    Ok(())
}

} // verus!
