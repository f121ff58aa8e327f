//! The syntax tree of a chunk of script.
use vstd::prelude::*;
use crate::value::Value;

verus! {

/// An ordered sequence of statements: one executable unit.
#[derive(Debug)]
pub struct Chunk {
    pub statements: Vec<Stat>,
}

#[derive(Debug)]
pub enum Stat {
    Assign(Assign),
    FnCall(FnCall),
}

/// `var{, var} = exp{, exp}`: targets and source expressions, paired by position.
#[derive(Debug)]
pub struct Assign {
    pub varlist: VarList,
    pub explist: ExpList,
}

#[derive(Debug)]
pub struct VarList(pub Vec<Var>);

#[derive(Debug)]
pub struct ExpList(pub Vec<Exp>);

/// A variable reference by name; its characters are its identity.
#[derive(Debug)]
pub struct Var(pub Vec<char>);

#[derive(Debug)]
pub enum Exp {
    Value(Value),
    Var(Var),
    FnCall(FnCall),
}

/// A call of the function bound to a variable, with argument expressions.
#[derive(Debug)]
pub struct FnCall {
    pub func: Var,
    pub args: Args,
}

#[derive(Debug)]
pub struct Args {
    pub explist: ExpList,
}

} // verus!
