//! Source expressions: the tree-shaped input of the toolchain.

use vstd::prelude::*;

verus! {

/// A name as the contracts see it: the characters of an identifier.
pub type Name = Seq<char>;

/// The names held by a sequence of strings or of other named items.
pub open spec fn views<T: View>(items: Seq<T>) -> Seq<T::V> {
    Seq::new(items.len(), |i: int| items[i]@)
}

#[derive(Debug, Copy, Clone, PartialEq, Eq)]
pub enum Constant {
    Int { value: i32 },
    Bool { value: bool },
}

#[derive(Debug, Copy, Clone, PartialEq, Eq)]
pub enum BinOp {
    Add,
    Sub,
    Eq,
    Get,
}

#[derive(Debug)]
pub enum Expr {
    Literal(Constant),
    Var { var_name: String },
    Fun { name: String, arg_names: Vec<String>, body: Box<Expr> },
    Call { func: Box<Expr>, args: Vec<Expr> },
    Let { name: String, definition: Box<Expr>, body: Box<Expr> },
    If { condition: Box<Expr>, branch_success: Box<Expr>, branch_failure: Box<Expr> },
    BinOp { op: BinOp, lhs: Box<Expr>, rhs: Box<Expr> },
    Tuple { values: Vec<Expr> },
    SetField { tuple: Box<Expr>, index: u32, new_expr: Box<Expr> },
}

} // verus!
