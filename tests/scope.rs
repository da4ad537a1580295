use bam::scope::uses_only_bound_names;
use bam::syntax::{Builtin, Definition, Machine, Program, Statement, Stream, Value};

fn num() -> Stream {
    Stream::Const(Value::Num("2".to_string()))
}

fn var(name: &str) -> Stream {
    Stream::Var(name.to_string())
}

fn call(s: Stream, name: &str) -> Stream {
    Stream::Pipe(Box::new(s), Machine::Var(name.to_string()))
}

fn def(name: &str, body: Vec<Statement>, result: Stream) -> Definition {
    Definition { name: name.to_string(), body, result }
}

fn bind(name: &str, s: Stream) -> Statement {
    Statement::Let(vec![name.to_string()], s)
}

#[test]
fn bound_variable_is_accepted() {
    let p = Program { machines: vec![def("m", vec![bind("x", num())], var("x"))] };
    assert!(uses_only_bound_names(&p));
}

#[test]
fn unbound_variable_is_rejected() {
    let p = Program { machines: vec![def("m", vec![], var("x"))] };
    assert!(!uses_only_bound_names(&p));
}

#[test]
fn variable_used_before_its_binding_is_rejected() {
    let p = Program { machines: vec![def("m", vec![Statement::Consume(var("x")), bind("x", num())], var("x"))] };
    assert!(!uses_only_bound_names(&p));
}

#[test]
fn destructured_names_are_bound() {
    let body = vec![Statement::Let(vec!["a".to_string(), "b".to_string()], Stream::Zip(vec![num(), num()]))];
    let p = Program { machines: vec![def("m", body, Stream::Zip(vec![var("b"), var("a")]))] };
    assert!(uses_only_bound_names(&p));
}

#[test]
fn self_call_is_accepted() {
    let p = Program { machines: vec![def("f", vec![], call(num(), "f"))] };
    assert!(uses_only_bound_names(&p));
}

#[test]
fn call_of_a_later_definition_is_rejected() {
    let p = Program { machines: vec![def("a", vec![], call(num(), "b")), def("b", vec![], num())] };
    assert!(!uses_only_bound_names(&p));
}

#[test]
fn call_of_an_earlier_definition_is_accepted() {
    let p = Program {
        machines: vec![
            def("a", vec![], Stream::Pipe(Box::new(num()), Machine::Builtin(Builtin::Print))),
            def("b", vec![], Stream::Limit(Box::new(call(num(), "a")), 4)),
        ],
    };
    assert!(uses_only_bound_names(&p));
}

#[test]
fn unbound_variable_deep_in_a_zip_is_rejected() {
    let s = Stream::Cond(Box::new(var("c")), Box::new(Stream::Zip(vec![num(), var("y")])), Box::new(num()));
    let p = Program { machines: vec![def("m", vec![bind("c", num())], s)] };
    assert!(!uses_only_bound_names(&p));
}
