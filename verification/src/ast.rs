//! Statements as the parser hands them over, names already resolved.

use vstd::prelude::*;

use crate::value::Value;

verus! {

#[derive(Clone, Copy, Debug, PartialEq, Eq, Structural)]
pub enum BinaryOp {
    And,
    Or,
    Eq,
    NotEq,
    Lt,
    LtEq,
    Gt,
    GtEq,
    Plus,
    Minus,
    Times,
    Divide,
}

#[derive(Clone, Copy, Debug, PartialEq, Eq, Structural)]
pub enum UnaryOp {
    Not,
    Neg,
}

#[derive(Clone, Copy, Debug, PartialEq, Eq, Structural)]
pub enum AggFunc {
    Count,
    Sum,
    Avg,
    Min,
    Max,
    Rate,
    Increase,
    Delta,
    First,
    Last,
    /// A percentile in basis points.
    Percentile(u16),
}

/// The argument of an aggregate.
pub enum AggArg {
    Star,
    Expr(Box<Expr>),
    Distinct(Box<Expr>),
    ApproxDistinct(Box<Expr>),
}

#[allow(inconsistent_fields)]
pub enum Expr {
    Literal(Value),
    /// A column by its dotted path.
    Column(String),
    /// An unbound `?`.
    Parameter(usize),
    Unary { op: UnaryOp, expr: Box<Expr> },
    Binary { op: BinaryOp, left: Box<Expr>, right: Box<Expr> },
    IsNull { expr: Box<Expr>, negated: bool },
    InList { expr: Box<Expr>, list: Vec<Expr>, negated: bool },
    Between { expr: Box<Expr>, lo: Box<Expr>, hi: Box<Expr>, negated: bool },
    Like { expr: Box<Expr>, pattern: Box<Expr>, case_insensitive: bool, negated: bool },
    /// A function call, the name in lower case.
    Func { name: String, args: Vec<Expr> },
    Aggregate { func: AggFunc, arg: AggArg },
}

pub enum SelectItem {
    Wildcard,
    Expr { expr: Expr, alias: Option<String> },
}

pub struct OrderKey {
    pub expr: Expr,
    pub descending: bool,
}

#[derive(Clone, Copy, Debug, PartialEq, Eq, Structural)]
pub enum JoinKind {
    Inner,
    Left,
    Right,
    Cross,
}

pub struct Join {
    pub kind: JoinKind,
    pub table: String,
    pub alias: String,
    pub on: Option<Expr>,
}

/// `TOP k BY <expr>` inside each group.
pub struct GroupTop {
    pub k: u64,
    pub by: Expr,
    pub ascending: bool,
}

/// `NEAREST k TO <query>` over the vector column `path`.
pub struct Nearest {
    pub path: String,
    pub query: Expr,
    pub k: Expr,
}

/// `RANK BY RRF(constant)`.
#[derive(Clone, Copy, Debug, PartialEq, Eq, Structural)]
pub struct Rrf {
    pub constant: u32,
}

/// `RERANK TOP n ...`.
pub struct Rerank {
    pub top: u64,
    pub query: Option<String>,
    pub column: Option<String>,
    pub model: Option<String>,
}

/// One `UNION [ALL]` leg.
pub struct SetOp {
    pub all: bool,
    pub select: Select,
}

pub struct Select {
    pub distinct: bool,
    pub items: Vec<SelectItem>,
    /// The table; empty for a `SELECT` without `FROM`.
    pub from: String,
    pub from_alias: String,
    pub joins: Vec<Join>,
    pub filter: Option<Expr>,
    pub group_by: Vec<Expr>,
    pub group_top: Option<GroupTop>,
    pub having: Option<Expr>,
    pub order_by: Vec<OrderKey>,
    pub limit: Option<u64>,
    pub offset: Option<u64>,
    /// An unbound `LIMIT ?`.
    pub limit_param: Option<usize>,
    /// An unbound `OFFSET ?`.
    pub offset_param: Option<usize>,
    pub set_ops: Vec<SetOp>,
    pub nearest: Option<Nearest>,
    pub rrf: Option<Rrf>,
    pub rerank: Option<Rerank>,
    pub after: Option<Vec<Expr>>,
}

} // verus!
