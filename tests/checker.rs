use bam::check::{check, infer_program};
use bam::generalize::generalize;
use bam::infer::{get_builtin_ty, infer_stream, GlobalTypeEnv, LocalTypeEnv};
use bam::syntax::{Builtin, Definition, Machine, Program, Statement, Stream, Value};
use bam::types::{MachineType, Type, TypeError};
use bam::unify::{unify_types, Substitution};

fn num() -> Stream {
    Stream::Const(Value::Num("1".to_string()))
}

fn text() -> Stream {
    Stream::Const(Value::Str("a".to_string()))
}

fn truth() -> Stream {
    Stream::Const(Value::Bool(true))
}

fn null() -> Stream {
    Stream::Const(Value::Null)
}

fn var(name: &str) -> Stream {
    Stream::Var(name.to_string())
}

fn pipe(s: Stream, b: Builtin) -> Stream {
    Stream::Pipe(Box::new(s), Machine::Builtin(b))
}

fn call(s: Stream, name: &str) -> Stream {
    Stream::Pipe(Box::new(s), Machine::Var(name.to_string()))
}

fn def(name: &str, body: Vec<Statement>, result: Stream) -> Definition {
    Definition { name: name.to_string(), body, result }
}

fn program(defs: Vec<Definition>) -> Program {
    Program { machines: defs }
}

fn lets(names: &[&str], s: Stream) -> Statement {
    Statement::Let(names.iter().map(|n| n.to_string()).collect(), s)
}

fn infer_alone(s: &Stream) -> Type {
    let g = GlobalTypeEnv::new();
    let mut l = LocalTypeEnv::new();
    infer_stream(&g, &mut l, s).unwrap()
}

fn scheme_of(p: &Program, name: &str) -> MachineType {
    let env = infer_program(p).unwrap();
    let t = env.lookup(&name.to_string()).unwrap();
    MachineType { var_count: t.var_count, input: t.input.copy(), output: t.output.copy() }
}

#[test]
fn numeric_literal_is_num() {
    assert_eq!(infer_alone(&num()), Type::Num);
}

#[test]
fn string_literal_is_string() {
    assert_eq!(infer_alone(&text()), Type::String);
}

#[test]
fn boolean_literal_is_bool() {
    assert_eq!(infer_alone(&truth()), Type::Bool);
}

#[test]
fn null_literal_is_fresh_variable() {
    let g = GlobalTypeEnv::new();
    let mut l = LocalTypeEnv::new();
    assert_eq!(infer_stream(&g, &mut l, &null()).unwrap(), Type::UnifVar(0));
    assert_eq!(infer_stream(&g, &mut l, &null()).unwrap(), Type::UnifVar(1));
}

#[test]
fn null_unifies_with_any_concrete_type() {
    for t in [Type::Num, Type::Bool, Type::String, Type::Tuple(vec![Type::Num, Type::Bool])] {
        let mut s = Substitution::new(1);
        assert!(unify_types(&mut s, &Type::UnifVar(0), &t).is_ok());
        assert_eq!(s.apply_to(&Type::UnifVar(0)), t);
    }
}

#[test]
fn null_unifies_with_null() {
    let mut s = Substitution::new(2);
    assert!(unify_types(&mut s, &Type::UnifVar(0), &Type::UnifVar(1)).is_ok());
    assert_eq!(s.apply_to(&Type::UnifVar(0)), s.apply_to(&Type::UnifVar(1)));
}

#[test]
fn null_checks_against_every_primitive() {
    for other in [num(), text(), truth(), null()] {
        let p = program(vec![def("m", vec![], pipe(Stream::Zip(vec![null(), other]), Builtin::Eq))]);
        assert_eq!(check(&p), Ok(()));
    }
}

#[test]
fn zip_of_two_keeps_order() {
    let t = infer_alone(&Stream::Zip(vec![num(), truth()]));
    assert_eq!(t, Type::Tuple(vec![Type::Num, Type::Bool]));
    let t = infer_alone(&Stream::Zip(vec![truth(), text()]));
    assert_eq!(t, Type::Tuple(vec![Type::Bool, Type::String]));
}

#[test]
fn eq_on_same_type_gives_bool() {
    for (a, b) in [(num(), num()), (text(), text()), (truth(), truth())] {
        let p = program(vec![def("m", vec![], pipe(Stream::Zip(vec![a, b]), Builtin::Eq))]);
        let sc = scheme_of(&p, "m");
        assert_eq!(sc.output, Type::Bool);
    }
}

#[test]
fn eq_on_different_types_fails() {
    let p = program(vec![def("m", vec![], pipe(Stream::Zip(vec![num(), text()]), Builtin::Eq))]);
    assert!(matches!(check(&p), Err(TypeError::CannotUnify(_, _))));
    let p = program(vec![def("m", vec![], pipe(Stream::Zip(vec![truth(), num()]), Builtin::Eq))]);
    assert!(matches!(check(&p), Err(TypeError::CannotUnify(_, _))));
}

#[test]
fn dup2_is_instantiated_per_use() {
    let p = program(vec![
        def("a", vec![], pipe(num(), Builtin::Dup2)),
        def("b", vec![], pipe(text(), Builtin::Dup2)),
    ]);
    assert_eq!(scheme_of(&p, "a").output, Type::Tuple(vec![Type::Num, Type::Num]));
    assert_eq!(scheme_of(&p, "b").output, Type::Tuple(vec![Type::String, Type::String]));
}

#[test]
fn dup2_twice_in_one_body() {
    let p = program(vec![def(
        "m",
        vec![lets(&["x"], pipe(num(), Builtin::Dup2))],
        Stream::Zip(vec![var("x"), pipe(text(), Builtin::Dup2)]),
    )]);
    let out = scheme_of(&p, "m").output;
    assert_eq!(
        out,
        Type::Tuple(vec![
            Type::Tuple(vec![Type::Num, Type::Num]),
            Type::Tuple(vec![Type::String, Type::String]),
        ])
    );
}

#[test]
fn dup3_gives_triple() {
    let p = program(vec![def("m", vec![], pipe(truth(), Builtin::Dup3))]);
    assert_eq!(scheme_of(&p, "m").output, Type::Tuple(vec![Type::Bool, Type::Bool, Type::Bool]));
}

#[test]
fn let_destructures_a_pair() {
    let body = vec![lets(&["a", "b"], Stream::Zip(vec![num(), truth()]))];
    let p = program(vec![def("m", body, Stream::Zip(vec![var("a"), var("b")]))]);
    assert_eq!(scheme_of(&p, "m").output, Type::Tuple(vec![Type::Num, Type::Bool]));
}

#[test]
fn let_destructuring_a_non_tuple_fails() {
    let body = vec![lets(&["a", "b"], num())];
    let p = program(vec![def("m", body, var("a"))]);
    assert!(matches!(check(&p), Err(TypeError::CannotUnify(_, _))));
}

#[test]
fn let_destructuring_wrong_arity_fails() {
    let body = vec![lets(&["a", "b"], Stream::Zip(vec![num(), num(), num()]))];
    let p = program(vec![def("m", body, var("a"))]);
    assert!(matches!(check(&p), Err(TypeError::CannotUnify(_, _))));
}

#[test]
fn let_single_name_binds_the_type() {
    let body = vec![lets(&["x"], text()), Statement::Consume(var("x"))];
    let p = program(vec![def("m", body, var("x"))]);
    assert_eq!(scheme_of(&p, "m").output, Type::String);
}

#[test]
fn cond_on_num_condition_fails() {
    let p = program(vec![def("m", vec![], Stream::Cond(Box::new(num()), Box::new(num()), Box::new(num())))]);
    assert_eq!(check(&p), Err(TypeError::CannotUnify(Type::Num, Type::Bool)));
}

#[test]
fn cond_with_different_branches_fails() {
    let p = program(vec![def("m", vec![], Stream::Cond(Box::new(truth()), Box::new(num()), Box::new(text())))]);
    assert!(matches!(check(&p), Err(TypeError::CannotUnify(_, _))));
    match check(&p) {
        Err(TypeError::CannotUnify(a, b)) => {
            assert!((a == Type::Num && b == Type::String) || (a == Type::String && b == Type::Num));
        }
        _ => panic!("expected a unification failure"),
    }
}

#[test]
fn cond_well_typed() {
    let p = program(vec![def("m", vec![], Stream::Cond(Box::new(truth()), Box::new(num()), Box::new(null())))]);
    assert_eq!(scheme_of(&p, "m").output, Type::Num);
}

#[test]
fn limit_keeps_the_type() {
    assert_eq!(infer_alone(&Stream::Limit(Box::new(text()), 3)), Type::String);
}

#[test]
fn recursion_at_two_shapes_fails() {
    let body = vec![lets(&["x"], call(num(), "f"))];
    let p = program(vec![def("f", body, call(text(), "f"))]);
    assert!(matches!(check(&p), Err(TypeError::CannotUnify(_, _))));
}

#[test]
fn recursion_at_one_shape_checks() {
    let body = vec![lets(&["x"], call(num(), "f"))];
    let p = program(vec![def("f", body, call(num(), "f"))]);
    assert_eq!(check(&p), Ok(()));
    assert_eq!(scheme_of(&p, "f").input, Type::Num);
}

#[test]
fn earlier_definition_is_polymorphic() {
    let p = program(vec![
        def("d", vec![], pipe(null(), Builtin::Print)),
        def("u", vec![], Stream::Zip(vec![call(num(), "d"), call(text(), "d")])),
    ]);
    assert_eq!(check(&p), Ok(()));
}

#[test]
fn builtin_arguments_are_checked() {
    let p = program(vec![def("m", vec![], pipe(Stream::Zip(vec![num(), truth()]), Builtin::Add))]);
    assert!(matches!(check(&p), Err(TypeError::CannotUnify(_, _))));
    let p = program(vec![def("m", vec![], pipe(Stream::Zip(vec![num(), num()]), Builtin::Lt))]);
    assert_eq!(scheme_of(&p, "m").output, Type::Bool);
}

#[test]
fn checking_twice_gives_the_same_answer() {
    let make = || {
        program(vec![
            def("a", vec![lets(&["p", "q"], Stream::Zip(vec![null(), truth()]))], Stream::Zip(vec![var("q"), var("p")])),
            def("b", vec![], call(num(), "a")),
        ])
    };
    let first = infer_program(&make()).unwrap();
    let second = infer_program(&make()).unwrap();
    for name in ["a", "b"] {
        let x = first.lookup(&name.to_string()).unwrap();
        let y = second.lookup(&name.to_string()).unwrap();
        assert_eq!(x, y);
    }
    let bad = || program(vec![def("m", vec![], pipe(Stream::Zip(vec![num(), text()]), Builtin::Eq))]);
    assert_eq!(check(&bad()), check(&bad()));
}

#[test]
fn identity_scheme_shares_its_variable() {
    let s = Substitution::new(1);
    let t = MachineType { var_count: 0, input: Type::UnifVar(0), output: Type::UnifVar(0) };
    let g = generalize(&s, &t);
    assert_eq!(g, MachineType { var_count: 1, input: Type::TyVar(0), output: Type::TyVar(0) });
}

#[test]
fn unrelated_variables_stay_apart() {
    let s = Substitution::new(2);
    let t = MachineType { var_count: 0, input: Type::UnifVar(0), output: Type::UnifVar(1) };
    let g = generalize(&s, &t);
    assert_eq!(g, MachineType { var_count: 2, input: Type::TyVar(0), output: Type::TyVar(1) });
}

#[test]
fn generalize_follows_the_substitution() {
    let mut s = Substitution::new(3);
    assert!(unify_types(&mut s, &Type::UnifVar(1), &Type::Tuple(vec![Type::UnifVar(2), Type::UnifVar(0)])).is_ok());
    let t = MachineType { var_count: 0, input: Type::UnifVar(0), output: Type::UnifVar(1) };
    let g = generalize(&s, &t);
    assert_eq!(
        g,
        MachineType {
            var_count: 2,
            input: Type::TyVar(0),
            output: Type::Tuple(vec![Type::TyVar(1), Type::TyVar(0)]),
        }
    );
}

#[test]
fn identity_defined_through_print_generalizes() {
    let p = program(vec![def("m", vec![], pipe(null(), Builtin::Print))]);
    let sc = scheme_of(&p, "m");
    assert_eq!(sc.var_count, 2);
    assert_eq!(sc.input, Type::TyVar(0));
    assert_eq!(sc.output, Type::TyVar(1));
}

#[test]
fn occurs_check_reports_infinite_type() {
    let mut s = Substitution::new(1);
    let r = unify_types(&mut s, &Type::UnifVar(0), &Type::Tuple(vec![Type::UnifVar(0)]));
    assert_eq!(r, Err(TypeError::InfiniteType(0, Type::Tuple(vec![Type::UnifVar(0)]))));
}

#[test]
fn chained_bindings_are_followed() {
    let mut s = Substitution::new(3);
    assert!(unify_types(&mut s, &Type::UnifVar(0), &Type::UnifVar(1)).is_ok());
    assert!(unify_types(&mut s, &Type::UnifVar(1), &Type::UnifVar(2)).is_ok());
    assert!(unify_types(&mut s, &Type::UnifVar(2), &Type::Num).is_ok());
    assert_eq!(s.apply_to(&Type::UnifVar(0)), Type::Num);
    assert!(matches!(unify_types(&mut s, &Type::UnifVar(0), &Type::Bool), Err(TypeError::CannotUnify(_, _))));
}

#[test]
fn tuple_arity_mismatch_fails() {
    let mut s = Substitution::new(0);
    let a = Type::Tuple(vec![Type::Num]);
    let b = Type::Tuple(vec![Type::Num, Type::Num]);
    assert!(matches!(unify_types(&mut s, &a, &b), Err(TypeError::CannotUnify(_, _))));
}

#[test]
fn instantiation_past_the_counter_runs_out() {
    let mut l = LocalTypeEnv::new();
    l.new_unif_var().unwrap();
    let t = MachineType { var_count: usize::MAX, input: Type::TyVar(0), output: Type::TyVar(0) };
    assert_eq!(l.instantiate(&t), Err(TypeError::OutOfVariables));
}

#[test]
fn builtin_table_entries() {
    let eq = get_builtin_ty(&Builtin::Eq);
    assert_eq!(eq.var_count, 1);
    assert_eq!(eq.input, Type::Tuple(vec![Type::TyVar(0), Type::TyVar(0)]));
    assert_eq!(eq.output, Type::Bool);
    let sqrt = get_builtin_ty(&Builtin::Sqrt);
    assert_eq!(sqrt.var_count, 0);
    assert_eq!(sqrt.input, Type::Num);
    assert_eq!(sqrt.output, Type::Num);
    let print = get_builtin_ty(&Builtin::Print);
    assert_eq!(print.input, print.output);
}

#[test]
fn empty_program_checks() {
    assert_eq!(check(&program(vec![])), Ok(()));
}

#[test]
fn sqrt_takes_a_number() {
    let p = program(vec![def("m", vec![], pipe(num(), Builtin::Sqrt))]);
    let sc = scheme_of(&p, "m");
    assert_eq!(sc.output, Type::Num);
    let p = program(vec![def("m", vec![], pipe(Stream::Zip(vec![num()]), Builtin::Sqrt))]);
    assert!(matches!(check(&p), Err(TypeError::CannotUnify(_, _))));
}

#[test]
fn first_failing_constraint_decides_the_error() {
    let body = vec![Statement::Consume(pipe(Stream::Zip(vec![num(), truth()]), Builtin::Add))];
    let p = program(vec![def("m", body, Stream::Cond(Box::new(num()), Box::new(num()), Box::new(num())))]);
    assert_eq!(check(&p), Err(TypeError::CannotUnify(Type::Num, Type::Bool)));
    let body = vec![Statement::Consume(pipe(Stream::Zip(vec![num(), text()]), Builtin::Add))];
    let p = program(vec![def("m", body, Stream::Cond(Box::new(num()), Box::new(num()), Box::new(num())))]);
    assert_eq!(check(&p), Err(TypeError::CannotUnify(Type::Num, Type::String)));
}


#[test]
fn clash_reports_operands_as_given() {
    let mut s = Substitution::new(1);
    assert!(unify_types(&mut s, &Type::UnifVar(0), &Type::Num).is_ok());
    let given = Type::Tuple(vec![Type::UnifVar(0)]);
    let r = unify_types(&mut s, &given, &Type::Num);
    assert_eq!(r, Err(TypeError::CannotUnify(Type::Tuple(vec![Type::UnifVar(0)]), Type::Num)));
}

#[test]
fn occurs_failure_leaves_substitution_unchanged() {
    let mut s = Substitution::new(1);
    let t = Type::Tuple(vec![Type::UnifVar(0), Type::Num]);
    assert!(matches!(unify_types(&mut s, &Type::UnifVar(0), &t), Err(TypeError::InfiniteType(0, _))));
    assert!(s.get(0).is_none());
}

#[test]
fn first_binding_wins() {
    let mut l = LocalTypeEnv::new();
    l.new_unif_var().unwrap();
    l.add_constraint(Type::UnifVar(0), Type::Num);
    l.add_constraint(Type::UnifVar(0), Type::String);
    assert!(matches!(l.unify(), Err(TypeError::CannotUnify(_, _))));
}

#[test]
fn generalized_identity_keeps_its_argument_type() {
    let f = def(
        "f",
        vec![lets(&["x"], null()), Statement::Consume(call(var("x"), "f"))],
        var("x"),
    );
    let g = def(
        "g",
        vec![lets(&["a"], call(num(), "f"))],
        pipe(Stream::Zip(vec![var("a"), text()]), Builtin::Eq),
    );
    assert!(matches!(check(&program(vec![f, g])), Err(TypeError::CannotUnify(_, _))));
}
