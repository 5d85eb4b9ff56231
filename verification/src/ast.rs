use vstd::prelude::*;
use crate::span::Span;

verus! {

/// A program: statements followed by an optional tail expression, whose value is the
/// value of the program.
#[derive(Debug, PartialEq)]
pub struct Program {
    pub stmts: Vec<Stmt>,
    pub tail: Option<Expr>,
}

impl Program {
    pub fn new(stmts: Vec<Stmt>, tail: Option<Expr>) -> (p: Program)
        ensures
            p.stmts == stmts,
            p.tail == tail,
    {
        Program { stmts, tail }
    }
}

#[derive(Debug, PartialEq)]
pub enum Stmt {
    Let { name: String, ty: Option<TypeExpr>, expr: Expr, span: Span },
    Assign { target: Expr, expr: Expr, span: Span },
    Return { expr: Option<Expr>, span: Span },
    Fn { name: String, params: Vec<Param>, ret_ty: TypeExpr, body: Expr, span: Span },
    Expr { expr: Expr, span: Span },
}

impl Stmt {
    pub open spec fn span_of(self) -> Span {
        match self {
            Stmt::Let { span, .. } => span,
            Stmt::Assign { span, .. } => span,
            Stmt::Return { span, .. } => span,
            Stmt::Fn { span, .. } => span,
            Stmt::Expr { span, .. } => span,
        }
    }

    pub fn span(&self) -> (s: Span)
        ensures
            s == self.span_of(),
    {
        match self {
            Stmt::Let { span, .. } => *span,
            Stmt::Assign { span, .. } => *span,
            Stmt::Return { span, .. } => *span,
            Stmt::Fn { span, .. } => *span,
            Stmt::Expr { span, .. } => *span,
        }
    }
}

#[derive(Debug, PartialEq)]
pub struct Param {
    pub name: String,
    pub ty: TypeExpr,
    pub span: Span,
}

/// A type as written in the source (`Int`, `Array<Int>`, ...).
#[derive(Debug, PartialEq, Eq)]
pub enum TypeExpr {
    Named(String, Span),
    Generic { base: String, args: Vec<TypeExpr>, span: Span },
}

impl TypeExpr {
    pub open spec fn span_of(self) -> Span {
        match self {
            TypeExpr::Named(_, sp) => sp,
            TypeExpr::Generic { span, .. } => span,
        }
    }

    pub fn span(&self) -> (s: Span)
        ensures
            s == self.span_of(),
    {
        match self {
            TypeExpr::Named(_, sp) => *sp,
            TypeExpr::Generic { span, .. } => *span,
        }
    }
}

#[derive(Debug, Copy, Clone, PartialEq, Eq, Structural)]
pub enum UnaryOp {
    Neg,
    Not,
}

#[derive(Debug, Copy, Clone, PartialEq, Eq, Structural)]
pub enum BinaryOp {
    Add,
    Sub,
    Mul,
    Div,
    Mod,
    Eq,
    Ne,
    Lt,
    Le,
    Gt,
    Ge,
    And,
    Or,
}

#[derive(Debug, PartialEq)]
pub enum Expr {
    Int(i64, Span),
    Bool(bool, Span),
    String(String, Span),
    Ident(String, Span),
    Array { elements: Vec<Expr>, span: Span },
    Object { props: Vec<(String, Expr)>, span: Span },
    Block { stmts: Vec<Stmt>, tail: Option<Box<Expr>>, span: Span },
    If { cond: Box<Expr>, then_branch: Box<Expr>, else_branch: Box<Expr>, span: Span },
    Unary { op: UnaryOp, expr: Box<Expr>, span: Span },
    Binary { lhs: Box<Expr>, op: BinaryOp, rhs: Box<Expr>, span: Span },
    Call { callee: Box<Expr>, args: Vec<Expr>, span: Span },
    Index { target: Box<Expr>, index: Box<Expr>, span: Span },
    Group { expr: Box<Expr>, span: Span },
}

impl Expr {
    pub open spec fn span_of(self) -> Span {
        match self {
            Expr::Int(_, sp) => sp,
            Expr::Bool(_, sp) => sp,
            Expr::String(_, sp) => sp,
            Expr::Ident(_, sp) => sp,
            Expr::Array { span, .. } => span,
            Expr::Object { span, .. } => span,
            Expr::Block { span, .. } => span,
            Expr::If { span, .. } => span,
            Expr::Unary { span, .. } => span,
            Expr::Binary { span, .. } => span,
            Expr::Call { span, .. } => span,
            Expr::Index { span, .. } => span,
            Expr::Group { span, .. } => span,
        }
    }

    pub fn span(&self) -> (s: Span)
        ensures
            s == self.span_of(),
    {
        match self {
            Expr::Int(_, sp) => *sp,
            Expr::Bool(_, sp) => *sp,
            Expr::String(_, sp) => *sp,
            Expr::Ident(_, sp) => *sp,
            Expr::Array { span, .. } => *span,
            Expr::Object { span, .. } => *span,
            Expr::Block { span, .. } => *span,
            Expr::If { span, .. } => *span,
            Expr::Unary { span, .. } => *span,
            Expr::Binary { span, .. } => *span,
            Expr::Call { span, .. } => *span,
            Expr::Index { span, .. } => *span,
            Expr::Group { span, .. } => *span,
        }
    }
}

} // verus!
