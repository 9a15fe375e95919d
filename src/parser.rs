//! The syntax tree that a parser builds from the token stream: arithmetic
//! expressions and statements. Real numbers are kept as their decimal
//! spelling; evaluating them to machine floats is left to the caller.
use vstd::prelude::*;

verus! {

/// A builtin unary function.
#[derive(Debug, Clone, Copy, PartialEq, Eq)]
pub enum UnaryOp {
    Sin,
    Cos,
    Tan,
    Exp,
    Ln,
    Sqrt,
}

/// The version number after `OPENQASM`, as spelled in the source.
pub type OpenqasmVersion = String;

pub type GateName = String;

pub type PathString = String;

pub type CommentString = Vec<u8>;

pub type NnInteger = u32;

pub type Params = Vec<Expr>;

pub type QArgs = Vec<QReg>;

pub type Program = Vec<Statement>;

pub enum Statement {
    Openqasm(OpenqasmVersion),
    Include(PathString),
    Comment(CommentString),
    If(CReg, NnInteger, Program),
    Measure(QReg, CReg),
    Opaque(GateName, Params, QArgs),
    Gate(GateName, Params, QArgs, Program),
    Reset(QReg),
    Barrier,
    Apply(GateName, Params, QArgs),
}

/// The condition of an `if` statement. This library parses no statements,
/// so the type carries no content.
pub enum Predicate {
    Unparsed,
}

/// A quantum register operand, without content for the same reason.
pub enum QReg {
    Unparsed,
}

/// A classical register operand, without content for the same reason.
pub enum CReg {
    Unparsed,
}

/// An arithmetic expression; each composite node owns its operands.
#[derive(Debug)]
pub enum Expr {
    /// A real literal, as its decimal spelling (`3.5`).
    Real(String),
    NnInteger(usize),
    Pi,
    /// A parameter name, which has no value until it is substituted.
    Id(String),
    Add(Box<Expr>, Box<Expr>),
    Sub(Box<Expr>, Box<Expr>),
    Mul(Box<Expr>, Box<Expr>),
    Div(Box<Expr>, Box<Expr>),
    Neg(Box<Expr>),
    Pow(Box<Expr>, Box<Expr>),
    UnaryOp(UnaryOp, Box<Expr>),
}

} // verus!
