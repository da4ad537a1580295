use vstd::prelude::*;

verus! {

/// A whole program: machine definitions in source order.
#[derive(Debug)]
pub struct Program {
    pub machines: Vec<Definition>,
}

/// One machine definition: its statements, then the stream it produces.
#[derive(Debug)]
pub struct Definition {
    pub name: String,
    pub body: Vec<Statement>,
    pub result: Stream,
}

#[derive(Debug)]
pub enum Statement {
    /// Checks a stream that binds no variable.
    Consume(Stream),
    /// Binds one name, or destructures a tuple stream into several.
    Let(Vec<String>, Stream),
}

/// A stream expression, as the parser produces it before any rewriting pass.
#[derive(Debug)]
pub enum Stream {
    Var(String),
    Const(Value),
    Pipe(Box<Stream>, Machine),
    Zip(Vec<Stream>),
    Cond(Box<Stream>, Box<Stream>, Box<Stream>),
    Limit(Box<Stream>, u64),
}

#[derive(Debug)]
pub enum Machine {
    Var(String),
    Builtin(Builtin),
}

#[derive(Debug, Clone, Copy, PartialEq, Eq, Hash)]
pub enum Builtin {
    Add,
    Mul,
    Mod,
    Pow,
    Sqrt,
    Gte,
    Lt,
    Eq,
    Dup2,
    Dup3,
    Print,
}

/// A literal. A number is kept as its source text: its value plays no part in typing.
#[derive(Debug)]
pub enum Value {
    Null,
    Num(String),
    Str(String),
    Bool(bool),
}

} // verus!
