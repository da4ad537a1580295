use vstd::prelude::*;

verus! {

/// A type of a stream as the checker handles it.
#[derive(Debug, PartialEq, Eq)]
pub enum Type {
    Num,
    Bool,
    String,
    Tuple(Vec<Type>),
    /// A variable bound by the quantifier of an enclosing scheme.
    TyVar(usize),
    /// A placeholder introduced while checking one definition.
    UnifVar(usize),
}

/// The mathematical shape of a `Type`.
pub enum Ty {
    Num,
    Bool,
    Str,
    Tuple(Seq<Ty>),
    Bound(nat),
    Infer(nat),
}

pub open spec fn ty_of(t: Type) -> Ty
    decreases t,
{
    match t {
        Type::Num => Ty::Num,
        Type::Bool => Ty::Bool,
        Type::String => Ty::Str,
        Type::Tuple(v) => Ty::Tuple(
            Seq::new(v@.len(), |i: int| if 0 <= i < v@.len() { ty_of(v@[i]) } else { Ty::Num }),
        ),
        Type::TyVar(i) => Ty::Bound(i as nat),
        Type::UnifVar(i) => Ty::Infer(i as nat),
    }
}

/// A quantified machine type: for all `TyVar(0 .. var_count)`, `input -> output`.
#[derive(Debug, PartialEq, Eq)]
pub struct MachineType {
    pub var_count: usize,
    pub input: Type,
    pub output: Type,
}

/// The mathematical shape of a `MachineType`.
pub struct Scheme {
    pub count: nat,
    pub input: Ty,
    pub output: Ty,
}

impl MachineType {
    pub open spec fn scheme(&self) -> Scheme {
        Scheme { count: self.var_count as nat, input: ty_of(self.input), output: ty_of(self.output) }
    }
}

/// Why a program is ill-typed.
#[derive(Debug, PartialEq, Eq)]
pub enum TypeError {
    /// The two types cannot be made equal.
    CannotUnify(Type, Type),
    /// Binding the variable to the type would make an infinite type.
    InfiniteType(usize, Type),
    /// A definition needs more fresh variables than a `usize` can number.
    OutOfVariables,
}

/// The number of nodes of `t`.
pub open spec fn size(t: Ty) -> nat
    decreases t,
{
    match t {
        Ty::Tuple(ts) => 1 + sizes(ts),
        _ => 1,
    }
}

pub open spec fn sizes(ts: Seq<Ty>) -> nat
    decreases ts,
{
    if ts.len() == 0 {
        0
    } else {
        size(ts.last()) + sizes(ts.drop_last())
    }
}

/// `t` with `Bound(i)`, for each `i < n`, replaced by `Infer(base + i)`.
pub open spec fn inst(t: Ty, base: nat, n: nat) -> Ty
    decreases t,
{
    match t {
        Ty::Bound(i) => if i < n { Ty::Infer(base + i) } else { t },
        Ty::Tuple(ts) => Ty::Tuple(
            Seq::new(ts.len(), |i: int| if 0 <= i < ts.len() { inst(ts[i], base, n) } else { Ty::Num }),
        ),
        _ => t,
    }
}

/// `t` with every `Infer(a)` replaced by `r`.
pub open spec fn subst1(t: Ty, a: nat, r: Ty) -> Ty
    decreases t,
{
    match t {
        Ty::Infer(x) => if x == a { r } else { t },
        Ty::Tuple(ts) => Ty::Tuple(
            Seq::new(ts.len(), |i: int| if 0 <= i < ts.len() { subst1(ts[i], a, r) } else { Ty::Num }),
        ),
        _ => t,
    }
}

/// Whether `Infer(a)` occurs in `t`.
pub open spec fn occurs(a: nat, t: Ty) -> bool
    decreases t,
{
    match t {
        Ty::Infer(x) => x == a,
        Ty::Tuple(ts) => occurs_any(a, ts),
        _ => false,
    }
}

/// Whether `Infer(a)` occurs in one of `ts`.
pub open spec fn occurs_any(a: nat, ts: Seq<Ty>) -> bool
    decreases ts,
{
    if ts.len() == 0 {
        false
    } else {
        occurs(a, ts.last()) || occurs_any(a, ts.drop_last())
    }
}

pub proof fn lemma_occurs_any(a: nat, ts: Seq<Ty>)
    ensures
        occurs_any(a, ts) <==> exists|i: int| 0 <= i < ts.len() && #[trigger] occurs(a, ts[i]),
    decreases ts.len(),
{
    if ts.len() > 0 {
        let init = ts.drop_last();
        lemma_occurs_any(a, init);
        assert(ts.last() == ts[ts.len() - 1]);
        assert(occurs_any(a, ts) == (occurs(a, ts.last()) || occurs_any(a, init)));
        if occurs_any(a, ts) {
            if occurs(a, ts.last()) {
                assert(occurs(a, ts[ts.len() - 1]));
            } else {
                let i = choose|i: int| 0 <= i < init.len() && #[trigger] occurs(a, init[i]);
                assert(init[i] == ts[i]);
                assert(occurs(a, ts[i]));
            }
        }
        if exists|i: int| 0 <= i < ts.len() && #[trigger] occurs(a, ts[i]) {
            let i = choose|i: int| 0 <= i < ts.len() && #[trigger] occurs(a, ts[i]);
            if i < ts.len() - 1 {
                assert(init[i] == ts[i]);
                assert(occurs(a, init[i]));
            }
        }
    }
}

pub proof fn lemma_occurs_element(a: nat, ts: Seq<Ty>, i: int)
    requires
        0 <= i < ts.len(),
        occurs(a, ts[i]),
    ensures
        occurs(a, Ty::Tuple(ts)),
{
    lemma_occurs_any(a, ts);
}

/// Every inference variable of `t` is below `n`.
pub open spec fn below(t: Ty, n: nat) -> bool {
    forall|x: nat| #[trigger] occurs(x, t) ==> x < n
}

pub proof fn lemma_element_decreases(t: Type, v: Vec<Type>, k: int)
    requires
        t == Type::Tuple(v),
        0 <= k < v@.len(),
    ensures
        decreases_to!(t => v@[k]),
{
    assert(decreases_to!(t => t->Tuple_0));
    assert(decreases_to!(v => v@));
    assert(decreases_to!(v@ => v@[k]));
}

/// `t` holds no inference variable.
pub open spec fn ground(t: Ty) -> bool {
    forall|x: nat| !#[trigger] occurs(x, t)
}

/// Each type of `v` has the shape at the same place of `ts`.
pub open spec fn tys_of_eq(v: Seq<Type>, ts: Seq<Ty>) -> bool {
    v.len() == ts.len() && forall|i: int| 0 <= i < v.len() ==> ty_of(#[trigger] v[i]) == ts[i]
}

impl Type {
    /// A copy of the type.
    pub fn copy(&self) -> (r: Type)
        ensures
            ty_of(r) == ty_of(*self),
        decreases self,
    {
        match self {
            Type::Num => Type::Num,
            Type::Bool => Type::Bool,
            Type::String => Type::String,
            Type::TyVar(i) => Type::TyVar(*i),
            Type::UnifVar(i) => Type::UnifVar(*i),
            Type::Tuple(v) => {
                let mut out: Vec<Type> = Vec::new();
                let mut k: usize = 0;
                while k < v.len()
                    invariant
                        *self == Type::Tuple(*v),
                        k <= v@.len(),
                        out@.len() == k,
                        forall|j: int| 0 <= j < k ==> ty_of(#[trigger] out@[j]) == ty_of(v@[j]),
                    decreases v@.len() - k,
                {
                    proof {
                        lemma_element_decreases(*self, *v, k as int);
                    }
                    let c = v[k].copy();
                    out.push(c);
                    k = k + 1;
                }
                let r = Type::Tuple(out);
                assert(ty_of(r) == ty_of(*self)) by {
                    if let Ty::Tuple(a) = ty_of(r) {
                        if let Ty::Tuple(b) = ty_of(*self) {
                            assert(a =~= b);
                        }
                    }
                }
                r
            },
        }
    }
}
impl MachineType {

    /// A copy of the scheme.
    pub fn copy(&self) -> (r: MachineType)
        ensures
            r.scheme() == self.scheme(),
    {
        MachineType { var_count: self.var_count, input: self.input.copy(), output: self.output.copy() }
    }
}

/// Replaces each `TyVar(i)` with `i < n` by `UnifVar(base + i)`.
pub fn instantiate_type(t: &Type, base: usize, n: usize) -> (r: Type)
    requires
        base + n <= usize::MAX,
    ensures
        ty_of(r) == inst(ty_of(*t), base as nat, n as nat),
    decreases t,
{
    match t {
        Type::TyVar(i) => if *i < n { Type::UnifVar(base + *i) } else { Type::TyVar(*i) },
        Type::Tuple(v) => {
            let mut out: Vec<Type> = Vec::new();
            let mut k: usize = 0;
            while k < v.len()
                invariant
                    *t == Type::Tuple(*v),
                    base + n <= usize::MAX,
                    k <= v@.len(),
                    out@.len() == k,
                    forall|j: int| 0 <= j < k ==> ty_of(#[trigger] out@[j])
                        == inst(ty_of(v@[j]), base as nat, n as nat),
                decreases v@.len() - k,
            {
                proof {
                    lemma_element_decreases(*t, *v, k as int);
                }
                out.push(instantiate_type(&v[k], base, n));
                k = k + 1;
            }
            let r = Type::Tuple(out);
            assert(ty_of(r) == inst(ty_of(*t), base as nat, n as nat)) by {
                if let Ty::Tuple(a) = ty_of(r) {
                    if let Ty::Tuple(b) = inst(ty_of(*t), base as nat, n as nat) {
                        assert(a =~= b);
                    }
                }
            }
            r
        },
        _ => t.copy(),
    }
}

/// Whether `UnifVar(a)` occurs in `t`.
pub fn occurs_in(a: usize, t: &Type) -> (r: bool)
    ensures
        r == occurs(a as nat, ty_of(*t)),
    decreases t,
{
    match t {
        Type::UnifVar(x) => *x == a,
        Type::Tuple(v) => {
            let mut k: usize = 0;
            while k < v.len()
                invariant
                    *t == Type::Tuple(*v),
                    k <= v@.len(),
                    forall|j: int| 0 <= j < k ==> !occurs(a as nat, #[trigger] ty_of(v@[j])),
                decreases v@.len() - k,
            {
                proof {
                    lemma_element_decreases(*t, *v, k as int);
                }
                if occurs_in(a, &v[k]) {
                    proof {
                        if let Ty::Tuple(ts) = ty_of(*t) {
                            assert(ts[k as int] == ty_of(v@[k as int]));
                            assert(occurs(a as nat, ts[k as int]));
                            lemma_occurs_any(a as nat, ts);
                        }
                    }
                    return true;
                }
                k = k + 1;
            }
            proof {
                if let Ty::Tuple(ts) = ty_of(*t) {
                    lemma_occurs_any(a as nat, ts);
                    assert forall|j: int| 0 <= j < ts.len() implies !occurs(a as nat, #[trigger] ts[j]) by {
                        assert(ts[j] == ty_of(v@[j]));
                    }
                }
            }
            false
        },
        _ => false,
    }
}

/// Replaces every `UnifVar(a)` in `t` by `r`.
pub fn replace_unif_var(t: &Type, a: usize, r: &Type) -> (out: Type)
    ensures
        ty_of(out) == subst1(ty_of(*t), a as nat, ty_of(*r)),
    decreases t,
{
    match t {
        Type::UnifVar(x) => if *x == a { r.copy() } else { Type::UnifVar(*x) },
        Type::Tuple(v) => {
            let mut out: Vec<Type> = Vec::new();
            let mut k: usize = 0;
            while k < v.len()
                invariant
                    *t == Type::Tuple(*v),
                    k <= v@.len(),
                    out@.len() == k,
                    forall|j: int| 0 <= j < k ==> ty_of(#[trigger] out@[j])
                        == subst1(ty_of(v@[j]), a as nat, ty_of(*r)),
                decreases v@.len() - k,
            {
                proof {
                    lemma_element_decreases(*t, *v, k as int);
                }
                out.push(replace_unif_var(&v[k], a, r));
                k = k + 1;
            }
            let res = Type::Tuple(out);
            assert(ty_of(res) == subst1(ty_of(*t), a as nat, ty_of(*r))) by {
                if let Ty::Tuple(x) = ty_of(res) {
                    if let Ty::Tuple(y) = subst1(ty_of(*t), a as nat, ty_of(*r)) {
                        assert(x =~= y);
                    }
                }
            }
            res
        },
        _ => t.copy(),
    }
}

} // verus!
