//! The syntax tree of an expression.

use vstd::prelude::*;
use crate::text::utf8;

verus! {

#[derive(Debug, Clone, Copy, PartialEq, Eq, Structural)]
pub enum BinaryOp {
    Add,
    Sub,
    Mul,
    Div,
    Mod,
    Pow,
    Lt,
    Gt,
    Le,
    Ge,
    Eq,
    Ne,
}

#[derive(Debug, Clone, Copy, PartialEq, Eq, Structural)]
pub enum UnaryOp {
    Neg,
}

#[derive(Debug, Clone, Copy, PartialEq, Eq, Structural)]
pub enum Function {
    Round,
    Min,
    Max,
}

/// An expression. A decimal literal keeps its text; `round(x).N` carries
/// its precision `N`.
#[derive(Debug, PartialEq)]
pub enum Expr {
    Int(i128),
    Float(String),
    Var(String),
    Unary(UnaryOp, Box<Expr>),
    Binary(BinaryOp, Box<Expr>, Box<Expr>),
    Call(Function, Vec<Expr>, Option<u8>),
}

/// An expression with its texts as UTF-8 bytes.
pub enum ExprView {
    Int(int),
    Float(Seq<u8>),
    Var(Seq<u8>),
    Unary(UnaryOp, Box<ExprView>),
    Binary(BinaryOp, Box<ExprView>, Box<ExprView>),
    Call(Function, Seq<ExprView>, Option<u8>),
}

pub open spec fn expr_view(e: Expr) -> ExprView
    decreases e,
{
    match e {
        Expr::Int(n) => ExprView::Int(n as int),
        Expr::Float(s) => ExprView::Float(utf8(s@)),
        Expr::Var(s) => ExprView::Var(utf8(s@)),
        Expr::Unary(op, a) => ExprView::Unary(op, Box::new(expr_view(*a))),
        Expr::Binary(op, a, b) => ExprView::Binary(op, Box::new(expr_view(*a)), Box::new(expr_view(*b))),
        Expr::Call(f, args, p) => ExprView::Call(f, exprs_view(args@), p),
    }
}

pub open spec fn exprs_view(s: Seq<Expr>) -> Seq<ExprView>
    decreases s,
{
    if s.len() == 0 {
        seq![]
    } else {
        seq![expr_view(s[0])] + exprs_view(s.drop_first())
    }
}

} // verus!
