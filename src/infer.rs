use vstd::prelude::*;
use crate::syntax::{Builtin, Machine, Stream, Value};
use crate::types::{MachineType, Scheme, Ty, Type, TypeError, below, inst, instantiate_type, ty_of, tys_of_eq};

verus! {

/// The scheme of each built-in operator.
pub open spec fn builtin_scheme(b: Builtin) -> Scheme {
    let num2 = Ty::Tuple(seq![Ty::Num, Ty::Num]);
    let a = Ty::Bound(0);
    match b {
        Builtin::Add | Builtin::Mul | Builtin::Mod | Builtin::Pow => Scheme {
            count: 0,
            input: num2,
            output: Ty::Num,
        },
        Builtin::Sqrt => Scheme { count: 0, input: Ty::Num, output: Ty::Num },
        Builtin::Gte | Builtin::Lt => Scheme { count: 0, input: num2, output: Ty::Bool },
        Builtin::Eq => Scheme { count: 1, input: Ty::Tuple(seq![a, a]), output: Ty::Bool },
        Builtin::Dup2 => Scheme { count: 1, input: a, output: Ty::Tuple(seq![a, a]) },
        Builtin::Dup3 => Scheme { count: 1, input: a, output: Ty::Tuple(seq![a, a, a]) },
        Builtin::Print => Scheme { count: 1, input: a, output: a },
    }
}

fn tuple2(a: Type, b: Type) -> (r: Type)
    ensures
        ty_of(r) == Ty::Tuple(seq![ty_of(a), ty_of(b)]),
{
    let r = Type::Tuple(vec![a, b]);
    assert(ty_of(r)->Tuple_0 =~= seq![ty_of(a), ty_of(b)]);
    r
}

/// The scheme of a built-in operator.
pub fn get_builtin_ty(b: &Builtin) -> (r: MachineType)
    ensures
        r.scheme() == builtin_scheme(*b),
{
    match b {
        Builtin::Add | Builtin::Mul | Builtin::Mod | Builtin::Pow => MachineType {
            var_count: 0,
            input: tuple2(Type::Num, Type::Num),
            output: Type::Num,
        },
        Builtin::Sqrt => MachineType { var_count: 0, input: Type::Num, output: Type::Num },
        Builtin::Gte | Builtin::Lt => MachineType {
            var_count: 0,
            input: tuple2(Type::Num, Type::Num),
            output: Type::Bool,
        },
        Builtin::Eq => MachineType {
            var_count: 1,
            input: tuple2(Type::TyVar(0), Type::TyVar(0)),
            output: Type::Bool,
        },
        Builtin::Dup2 => MachineType {
            var_count: 1,
            input: Type::TyVar(0),
            output: tuple2(Type::TyVar(0), Type::TyVar(0)),
        },
        Builtin::Dup3 => {
            let mut three: Vec<Type> = Vec::new();
            three.push(Type::TyVar(0));
            three.push(Type::TyVar(0));
            three.push(Type::TyVar(0));
            let output = Type::Tuple(three);
            assert(ty_of(three@[0]) == Ty::Bound(0) && ty_of(three@[1]) == Ty::Bound(0) && ty_of(three@[2])
                == Ty::Bound(0));
            assert(ty_of(output)->Tuple_0 =~= seq![Ty::Bound(0), Ty::Bound(0), Ty::Bound(0)]);
            MachineType { var_count: 1, input: Type::TyVar(0), output }
        },
        Builtin::Print => MachineType { var_count: 1, input: Type::TyVar(0), output: Type::TyVar(0) },
    }
}

/// The state of checking one definition: variable bindings (the latest binding of a
/// name wins), equality constraints in the order they arose, and the next fresh variable.
pub struct Local {
    pub vars: Seq<(Seq<char>, Ty)>,
    pub cs: Seq<(Ty, Ty)>,
    pub next: nat,
}

pub open spec fn lookup_var(vars: Seq<(Seq<char>, Ty)>, x: Seq<char>) -> Option<Ty>
    decreases vars.len(),
{
    if vars.len() == 0 {
        None
    } else if vars.last().0 == x {
        Some(vars.last().1)
    } else {
        lookup_var(vars.drop_last(), x)
    }
}

pub open spec fn lookup_scheme(g: Seq<(Seq<char>, Scheme)>, x: Seq<char>) -> Option<Scheme>
    decreases g.len(),
{
    if g.len() == 0 {
        None
    } else if g.last().0 == x {
        Some(g.last().1)
    } else {
        lookup_scheme(g.drop_last(), x)
    }
}

pub open spec fn machine_scheme(g: Seq<(Seq<char>, Scheme)>, m: Machine) -> Scheme {
    match m {
        Machine::Var(x) => lookup_scheme(g, x@)->Some_0,
        Machine::Builtin(b) => builtin_scheme(b),
    }
}

pub open spec fn fresh(l: Local, n: nat) -> Local {
    Local { next: l.next + n, ..l }
}

pub open spec fn constrain(l: Local, a: Ty, b: Ty) -> Local {
    Local { cs: l.cs.push((a, b)), ..l }
}

/// The type of `s`, and the state after the constraints that `s` gives.
pub open spec fn infer(g: Seq<(Seq<char>, Scheme)>, l: Local, s: Stream) -> (Ty, Local)
    decreases s, 0nat,
{
    match s {
        Stream::Var(x) => (lookup_var(l.vars, x@)->Some_0, l),
        Stream::Const(v) => match v {
            Value::Null => (Ty::Infer(l.next), fresh(l, 1)),
            Value::Num(_) => (Ty::Num, l),
            Value::Str(_) => (Ty::Str, l),
            Value::Bool(_) => (Ty::Bool, l),
        },
        Stream::Pipe(up, m) => {
            let (u, l1) = infer(g, l, *up);
            let sc = machine_scheme(g, m);
            (
                inst(sc.output, l1.next, sc.count),
                constrain(fresh(l1, sc.count), inst(sc.input, l1.next, sc.count), u),
            )
        },
        Stream::Zip(v) => {
            let (ts, l1) = infer_list(g, l, v, v@.len());
            (Ty::Tuple(ts), l1)
        },
        Stream::Cond(c, t, e) => {
            let (ct, l1) = infer(g, l, *c);
            let (tt, l2) = infer(g, constrain(l1, ct, Ty::Bool), *t);
            let (et, l3) = infer(g, l2, *e);
            (tt, constrain(l3, tt, et))
        },
        Stream::Limit(x, _) => infer(g, l, *x),
    }
}

/// The types of the first `k` streams of `v`, inferred in order.
pub open spec fn infer_list(g: Seq<(Seq<char>, Scheme)>, l: Local, v: Vec<Stream>, k: nat) -> (Seq<Ty>, Local)
    decreases v, k,
{
    if k == 0 || k > v@.len() {
        (seq![], l)
    } else {
        let (ts, l1) = infer_list(g, l, v, (k - 1) as nat);
        let (t, l2) = infer(g, l1, v@[k - 1]);
        (ts.push(t), l2)
    }
}

/// Every variable and machine that `s` names is bound.
pub open spec fn stream_scoped(vars: Seq<(Seq<char>, Ty)>, g: Seq<(Seq<char>, Scheme)>, s: Stream) -> bool
    decreases s, 0nat,
{
    match s {
        Stream::Var(x) => lookup_var(vars, x@) is Some,
        Stream::Const(_) => true,
        Stream::Pipe(up, m) => stream_scoped(vars, g, *up) && match m {
            Machine::Var(x) => lookup_scheme(g, x@) is Some,
            Machine::Builtin(_) => true,
        },
        Stream::Zip(v) => streams_scoped(vars, g, v, v@.len()),
        Stream::Cond(c, t, e) => stream_scoped(vars, g, *c) && stream_scoped(vars, g, *t)
            && stream_scoped(vars, g, *e),
        Stream::Limit(x, _) => stream_scoped(vars, g, *x),
    }
}

pub open spec fn streams_scoped(vars: Seq<(Seq<char>, Ty)>, g: Seq<(Seq<char>, Scheme)>, v: Vec<Stream>, k: nat) -> bool
    decreases v, k,
{
    if k == 0 || k > v@.len() {
        true
    } else {
        streams_scoped(vars, g, v, (k - 1) as nat) && stream_scoped(vars, g, v@[k - 1])
    }
}

pub proof fn lemma_streams_scoped(vars: Seq<(Seq<char>, Ty)>, g: Seq<(Seq<char>, Scheme)>, v: Vec<Stream>, k: nat, i: int)
    requires
        streams_scoped(vars, g, v, k),
        k <= v@.len(),
        0 <= i < k,
    ensures
        stream_scoped(vars, g, v@[i]),
    decreases k,
{
    if i < k - 1 {
        lemma_streams_scoped(vars, g, v, (k - 1) as nat, i);
    }
}

/// Inference only adds constraints and fresh variables.
pub proof fn lemma_infer_mono(g: Seq<(Seq<char>, Scheme)>, l: Local, s: Stream)
    ensures
        infer(g, l, s).1.next >= l.next,
        infer(g, l, s).1.vars == l.vars,
        l.cs.is_prefix_of(infer(g, l, s).1.cs),
    decreases s, 0nat,
{
    match s {
        Stream::Pipe(up, _) => {
            lemma_infer_mono(g, l, *up);
            let l1 = infer(g, l, *up).1;
            assert(l1.cs.is_prefix_of(infer(g, l, s).1.cs));
        },
        Stream::Zip(v) => lemma_infer_list_mono(g, l, v, v@.len()),
        Stream::Cond(c, t, e) => {
            let (ct, l1) = infer(g, l, *c);
            let l1b = constrain(l1, ct, Ty::Bool);
            let (tt, l2) = infer(g, l1b, *t);
            let (et, l3) = infer(g, l2, *e);
            lemma_infer_mono(g, l, *c);
            lemma_infer_mono(g, l1b, *t);
            lemma_infer_mono(g, l2, *e);
            assert(l1.cs.is_prefix_of(l1b.cs));
            assert(l3.cs.is_prefix_of(infer(g, l, s).1.cs));
            assert(l.cs.is_prefix_of(l1b.cs));
            assert(l.cs.is_prefix_of(l2.cs));
            assert(l.cs.is_prefix_of(l3.cs));
        },
        Stream::Limit(x, _) => lemma_infer_mono(g, l, *x),
        _ => {},
    }
}

pub proof fn lemma_infer_list_mono(g: Seq<(Seq<char>, Scheme)>, l: Local, v: Vec<Stream>, k: nat)
    ensures
        infer_list(g, l, v, k).1.next >= l.next,
        infer_list(g, l, v, k).1.vars == l.vars,
        l.cs.is_prefix_of(infer_list(g, l, v, k).1.cs),
        k <= v@.len() ==> infer_list(g, l, v, k).0.len() == k,
    decreases v, k,
{
    if k == 0 || k > v@.len() {
    } else {
        let (ts, l1) = infer_list(g, l, v, (k - 1) as nat);
        lemma_infer_list_mono(g, l, v, (k - 1) as nat);
        lemma_infer_mono(g, l1, v@[k - 1]);
    }
}

pub proof fn lemma_infer_list_prefix(g: Seq<(Seq<char>, Scheme)>, l: Local, v: Vec<Stream>, k1: nat, k2: nat)
    requires
        k1 <= k2 <= v@.len(),
    ensures
        infer_list(g, l, v, k2).1.next >= infer_list(g, l, v, k1).1.next,
    decreases k2,
{
    if k1 < k2 {
        lemma_infer_list_prefix(g, l, v, k1, (k2 - 1) as nat);
        let l1 = infer_list(g, l, v, (k2 - 1) as nat).1;
        lemma_infer_mono(g, l1, v@[k2 - 1]);
    }
}

proof fn lemma_zip_element_decreases(s: Stream, v: Vec<Stream>, k: int)
    requires
        s == Stream::Zip(v),
        0 <= k < v@.len(),
    ensures
        decreases_to!(s => v@[k]),
{
    assert(decreases_to!(s => s->Zip_0));
    assert(decreases_to!(v => v@));
    assert(decreases_to!(v@ => v@[k]));
}

/// Every inference variable of every constraint of `cs` is below `n`.
pub open spec fn all_below(cs: Seq<(Ty, Ty)>, n: nat) -> bool {
    forall|j: int| 0 <= j < cs.len() ==> below(#[trigger] cs[j].0, n) && below(cs[j].1, n)
}

/// The machine schemes known so far; a later entry for a name hides an earlier one.
pub struct GlobalTypeEnv {
    names: Vec<String>,
    types: Vec<MachineType>,
}

impl GlobalTypeEnv {
    pub closed spec fn model(&self) -> Seq<(Seq<char>, Scheme)> {
        Seq::new(self.names@.len(), |i: int| (self.names@[i]@, self.types@[i].scheme()))
    }

    pub closed spec fn wf(&self) -> bool {
        self.names@.len() == self.types@.len()
    }

    pub fn new() -> (r: GlobalTypeEnv)
        ensures
            r.wf(),
            r.model() == Seq::<(Seq<char>, Scheme)>::empty(),
    {
        let r = GlobalTypeEnv { names: Vec::new(), types: Vec::new() };
        assert(r.model() =~= Seq::<(Seq<char>, Scheme)>::empty());
        r
    }

    /// Records `t` as the scheme of `name`.
    pub fn insert(&mut self, name: &String, t: MachineType)
        requires
            old(self).wf(),
        ensures
            final(self).wf(),
            final(self).model() == old(self).model().push((name@, t.scheme())),
    {
        let ghost m0 = self.model();
        self.names.push(name.clone());
        self.types.push(t);
        assert(self.model() =~= m0.push((name@, t.scheme())));
    }

    /// The latest scheme recorded for `name`.
    pub fn lookup(&self, name: &String) -> (r: Option<&MachineType>)
        requires
            self.wf(),
        ensures
            match r {
                Some(t) => lookup_scheme(self.model(), name@) == Some(t.scheme()),
                None => lookup_scheme(self.model(), name@) is None,
            },
    {
        let mut k: usize = self.names.len();
        assert(self.model().take(k as int) =~= self.model());
        while k > 0
            invariant
                self.wf(),
                k <= self.names@.len(),
                lookup_scheme(self.model(), name@) == lookup_scheme(self.model().take(k as int), name@),
            decreases k,
        {
            let ghost m = self.model().take(k as int);
            assert(m.drop_last() =~= self.model().take(k - 1));
            if self.names[k - 1] == *name {
                return Some(&self.types[k - 1]);
            }
            k = k - 1;
        }
        None
    }
}

/// The state of checking one definition.
pub struct LocalTypeEnv {
    var_names: Vec<String>,
    var_types: Vec<Type>,
    constraints: Vec<(Type, Type)>,
    next: usize,
}

impl LocalTypeEnv {
    pub closed spec fn model(&self) -> Local {
        Local {
            vars: Seq::new(self.var_names@.len(), |i: int| (self.var_names@[i]@, ty_of(self.var_types@[i]))),
            cs: Seq::new(
                self.constraints@.len(),
                |i: int| (ty_of(self.constraints@[i].0), ty_of(self.constraints@[i].1)),
            ),
            next: self.next as nat,
        }
    }

    pub closed spec fn wf(&self) -> bool {
        self.var_names@.len() == self.var_types@.len()
    }

    pub fn new() -> (r: LocalTypeEnv)
        ensures
            r.wf(),
            r.model() == (Local { vars: seq![], cs: seq![], next: 0 }),
    {
        let r = LocalTypeEnv { var_names: Vec::new(), var_types: Vec::new(), constraints: Vec::new(), next: 0 };
        assert(r.model().vars =~= seq![]);
        assert(r.model().cs =~= seq![]);
        r
    }

    /// The type bound to `name` by its latest binding.
    pub fn lookup(&self, name: &String) -> (r: Option<&Type>)
        requires
            self.wf(),
        ensures
            match r {
                Some(t) => lookup_var(self.model().vars, name@) == Some(ty_of(*t)),
                None => lookup_var(self.model().vars, name@) is None,
            },
    {
        let mut k: usize = self.var_names.len();
        assert(self.model().vars.take(k as int) =~= self.model().vars);
        while k > 0
            invariant
                self.wf(),
                k <= self.var_names@.len(),
                lookup_var(self.model().vars, name@) == lookup_var(self.model().vars.take(k as int), name@),
            decreases k,
        {
            let ghost m = self.model().vars.take(k as int);
            assert(m.drop_last() =~= self.model().vars.take(k - 1));
            if self.var_names[k - 1] == *name {
                return Some(&self.var_types[k - 1]);
            }
            k = k - 1;
        }
        None
    }

    /// The counter of fresh variables is a `usize`.
    pub proof fn lemma_next_fits(&self)
        ensures
            self.model().next <= usize::MAX,
    {
    }

    /// The number of constraints recorded.
    pub fn constraint_count(&self) -> (r: usize)
        ensures
            r == self.model().cs.len(),
    {
        self.constraints.len()
    }

    /// The constraint recorded at place `k`.
    pub fn constraint(&self, k: usize) -> (r: (&Type, &Type))
        requires
            k < self.model().cs.len(),
        ensures
            (ty_of(*r.0), ty_of(*r.1)) == self.model().cs[k as int],
    {
        let c = &self.constraints[k];
        (&c.0, &c.1)
    }

    /// The number of fresh variables handed out so far.
    pub fn next_var(&self) -> (r: usize)
        ensures
            r == self.model().next,
    {
        self.next
    }

    /// Binds `name` to `t`.
    pub fn bind(&mut self, name: &String, t: Type)
        requires
            old(self).wf(),
        ensures
            final(self).wf(),
            final(self).model() == (Local { vars: old(self).model().vars.push((name@, ty_of(t))), ..old(self).model() }),
    {
        let ghost m0 = self.model();
        self.var_names.push(name.clone());
        self.var_types.push(t);
        assert(self.model().vars =~= m0.vars.push((name@, ty_of(t))));
        assert(self.model().cs =~= m0.cs);
    }

    /// Records the constraint `a == b`.
    pub fn add_constraint(&mut self, a: Type, b: Type)
        requires
            old(self).wf(),
        ensures
            final(self).wf(),
            final(self).model() == constrain(old(self).model(), ty_of(a), ty_of(b)),
    {
        let ghost m0 = self.model();
        self.constraints.push((a, b));
        assert(self.model().vars =~= m0.vars);
        assert(self.model().cs =~= m0.cs.push((ty_of(a), ty_of(b))));
    }

    /// A fresh inference variable.
    pub fn new_unif_var(&mut self) -> (r: Result<Type, TypeError>)
        requires
            old(self).wf(),
        ensures
            final(self).wf(),
            r is Ok <==> old(self).model().next + 1 <= usize::MAX,
            r is Ok ==> ty_of(r->Ok_0) == Ty::Infer(old(self).model().next) && final(self).model() == fresh(old(self).model(), 1),
            r is Err ==> r->Err_0 == TypeError::OutOfVariables && final(self).model() == old(self).model(),
    {
        if self.next == usize::MAX {
            return Err(TypeError::OutOfVariables);
        }
        let ghost m0 = self.model();
        let var_id = self.next;
        self.next = self.next + 1;
        assert(self.model().vars =~= m0.vars);
        assert(self.model().cs =~= m0.cs);
        Ok(Type::UnifVar(var_id))
    }

    /// An instance of `t` with fresh variables in place of its quantified ones.
    pub fn instantiate(&mut self, t: &MachineType) -> (r: Result<MachineType, TypeError>)
        requires
            old(self).wf(),
        ensures
            final(self).wf(),
            r is Ok <==> old(self).model().next + t.scheme().count <= usize::MAX,
            r is Ok ==> r->Ok_0.scheme() == (Scheme {
                count: 0,
                input: inst(t.scheme().input, old(self).model().next, t.scheme().count),
                output: inst(t.scheme().output, old(self).model().next, t.scheme().count),
            }) && final(self).model() == fresh(old(self).model(), t.scheme().count),
            r is Err ==> r->Err_0 == TypeError::OutOfVariables && final(self).model() == old(self).model(),
    {
        if t.var_count > usize::MAX - self.next {
            return Err(TypeError::OutOfVariables);
        }
        let ghost m0 = self.model();
        let base = self.next;
        let input = instantiate_type(&t.input, base, t.var_count);
        let output = instantiate_type(&t.output, base, t.var_count);
        self.next = self.next + t.var_count;
        assert(self.model().vars =~= m0.vars);
        assert(self.model().cs =~= m0.cs);
        Ok(MachineType { var_count: 0, input, output })
    }
}

/// Infers the type of `s`, recording the constraints it gives.
pub fn infer_stream(g: &GlobalTypeEnv, l: &mut LocalTypeEnv, s: &Stream) -> (r: Result<Type, TypeError>)
    requires
        g.wf(),
        old(l).wf(),
        stream_scoped(old(l).model().vars, g.model(), *s),
    ensures
        final(l).wf(),
        r is Ok <==> infer(g.model(), old(l).model(), *s).1.next <= usize::MAX,
        r is Ok ==> ty_of(r->Ok_0) == infer(g.model(), old(l).model(), *s).0
            && final(l).model() == infer(g.model(), old(l).model(), *s).1,
        r is Err ==> r->Err_0 == TypeError::OutOfVariables,
        final(l).model().vars == old(l).model().vars,
        final(l).model().next >= old(l).model().next,
        old(l).model().cs.is_prefix_of(final(l).model().cs),
    decreases s,
{
    let ghost l0 = l.model();
    let ghost gm = g.model();
    proof {
        lemma_infer_mono(gm, l0, *s);
    }
    match s {
        Stream::Var(name) => Ok(l.lookup(name).unwrap().copy()),
        Stream::Const(v) => match v {
            Value::Null => l.new_unif_var(),
            Value::Num(_) => Ok(Type::Num),
            Value::Str(_) => Ok(Type::String),
            Value::Bool(_) => Ok(Type::Bool),
        },
        Stream::Pipe(up, m) => {
            let u = match infer_stream(g, l, up) {
                Ok(u) => u,
                Err(e) => {
                    return Err(e);
                },
            };
            let sc = match m {
                Machine::Var(name) => g.lookup(name).unwrap().copy(),
                Machine::Builtin(b) => get_builtin_ty(b),
            };
            let it = match l.instantiate(&sc) {
                Ok(it) => it,
                Err(e) => {
                    return Err(e);
                },
            };
            l.add_constraint(it.input, u);
            Ok(it.output)
        },
        Stream::Zip(v) => {
            let mut out: Vec<Type> = Vec::new();
            let mut k: usize = 0;
            while k < v.len()
                invariant
                    *s == Stream::Zip(*v),
                    g.wf(),
                    gm == g.model(),
                    l0 == old(l).model(),
                    l.wf(),
                    k <= v@.len(),
                    streams_scoped(l0.vars, gm, *v, v@.len()),
                    tys_of_eq(out@, infer_list(gm, l0, *v, k as nat).0),
                    l.model() == infer_list(gm, l0, *v, k as nat).1,
                    infer(gm, l0, *s).1 == infer_list(gm, l0, *v, v@.len()).1,
                decreases v@.len() - k,
            {
                proof {
                    lemma_zip_element_decreases(*s, *v, k as int);
                    lemma_infer_list_mono(gm, l0, *v, k as nat);
                    lemma_streams_scoped(l0.vars, gm, *v, v@.len(), k as int);
                    lemma_infer_list_prefix(gm, l0, *v, (k + 1) as nat, v@.len());
                    assert(infer_list(gm, l0, *v, (k + 1) as nat).1 == infer(gm, l.model(), v@[k as int]).1);
                }
                let t = match infer_stream(g, l, &v[k]) {
                    Ok(t) => t,
                    Err(e) => {
                        return Err(e);
                    },
                };
                out.push(t);
                proof {
                    lemma_infer_list_mono(gm, l0, *v, (k + 1) as nat);
                    assert(out@ =~= out@.drop_last().push(t));
                }
                k = k + 1;
            }
            proof {
                lemma_infer_list_mono(gm, l0, *v, v@.len());
            }
            let r = Type::Tuple(out);
            assert(ty_of(r)->Tuple_0 =~= infer_list(gm, l0, *v, v@.len()).0);
            Ok(r)
        },
        Stream::Cond(c, t, e) => {
            proof {
                let (ct, l1) = infer(gm, l0, **c);
                let (tt, l2) = infer(gm, constrain(l1, ct, Ty::Bool), **t);
                lemma_infer_mono(gm, l0, **c);
                lemma_infer_mono(gm, constrain(l1, ct, Ty::Bool), **t);
                lemma_infer_mono(gm, l2, **e);
            }
            let ct = match infer_stream(g, l, c) {
                Ok(x) => x,
                Err(err) => {
                    return Err(err);
                },
            };
            l.add_constraint(ct, Type::Bool);
            let tt = match infer_stream(g, l, t) {
                Ok(x) => x,
                Err(err) => {
                    return Err(err);
                },
            };
            let et = match infer_stream(g, l, e) {
                Ok(x) => x,
                Err(err) => {
                    return Err(err);
                },
            };
            let result = tt.copy();
            l.add_constraint(tt, et);
            Ok(result)
        },
        Stream::Limit(x, _) => infer_stream(g, l, x),
    }
}

/// A literal's type depends on its kind alone: a number is `Num`, a string `Str`, a boolean
/// `Bool`, each with no constraint and no fresh variable; a null is a fresh variable.
pub proof fn lemma_literal_types(g: Seq<(Seq<char>, Scheme)>, l: Local, v: Value)
    ensures
        infer(g, l, Stream::Const(v)) == match v {
            Value::Num(_) => (Ty::Num, l),
            Value::Str(_) => (Ty::Str, l),
            Value::Bool(_) => (Ty::Bool, l),
            Value::Null => (Ty::Infer(l.next), fresh(l, 1)),
        },
{
}

/// Zipping two streams gives the tuple of their two types, in order, and adds no constraint
/// between them.
pub proof fn lemma_zip_pair(g: Seq<(Seq<char>, Scheme)>, l: Local, v: Vec<Stream>)
    requires
        v@.len() == 2,
    ensures
        ({
            let (t1, l1) = infer(g, l, v@[0]);
            let (t2, l2) = infer(g, l1, v@[1]);
            infer(g, l, Stream::Zip(v)) == (Ty::Tuple(seq![t1, t2]), l2)
        }),
{
    reveal_with_fuel(infer_list, 3);
    let (ts0, la) = infer_list(g, l, v, 0);
    let (ts1, lb) = infer_list(g, l, v, 1);
    let (ts2, lc) = infer_list(g, l, v, 2);
    assert(ts1 =~= seq![infer(g, l, v@[0]).0]);
    assert(ts2 =~= seq![infer(g, l, v@[0]).0, infer(g, lb, v@[1]).0]);
}

} // verus!
