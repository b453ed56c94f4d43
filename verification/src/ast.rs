//! The syntax tree of scripts, and its mathematical model.
use vstd::prelude::*;

verus! {

/// Binary operators.
#[derive(Clone, Copy, Debug, PartialEq, Eq, Structural)]
pub enum BinOp {
    Add,
    Sub,
    Mul,
    Div,
    Mod,
    Eq,
    Ne,
    Lt,
    Gt,
    Le,
    Ge,
    And,
    Or,
}

/// Unary operators.
#[derive(Clone, Copy, Debug, PartialEq, Eq, Structural)]
pub enum UnaryOp {
    Not,
    Neg,
}

/// A literal value as it is written. Floating-point numbers and JSON objects
/// keep their source text; the evaluator gives them their value.
#[derive(Clone, Debug)]
pub enum Literal {
    PyNone,
    Bool(bool),
    Int(i64),
    /// A floating-point numeral (its text is accepted by `f64`'s `from_str`).
    Float(String),
    Str(String),
    /// The empty dictionary `{}`.
    EmptyDict,
    /// A JSON object written in place (its text is a JSON document).
    Json(String),
}

/// Expressions.
#[allow(non_camel_case_types)]
#[derive(Debug)]
pub enum Expr {
    Lit(Literal),
    Var(String),
    BinOp(Box<Expr>, BinOp, Box<Expr>),
    UnaryOp(UnaryOp, Box<Expr>),
    // NEAR builtins
    NearView(Box<Expr>, Box<Expr>, Box<Expr>),
    NearCall(Vec<Expr>),
    NearBlock(Box<Expr>),
    NearBlockHeight,
    NearViewAccount(Box<Expr>),
    // Storage (in memory)
    StorageGet(Box<Expr>),
    StoragePut(Box<Expr>, Box<Expr>),
    // JSON
    JsonDumps(Box<Expr>),
    JsonLoads(Box<Expr>),
    // Builtins
    Len(Box<Expr>),
    Range(Vec<Expr>),
    Int_(Box<Expr>),
    Str_(Box<Expr>),
    TypeOf(Box<Expr>),
    // Access
    GetAttr(Box<Expr>, String),
    Index(Box<Expr>, Box<Expr>),
    /// `object.method(args)`
    MethodCall { object: Box<Expr>, method: String, args: Vec<Expr> },
    /// A call of a user function.
    FuncCall(String, Vec<Expr>),
    /// The parts of an f-string.
    Concat(Vec<Expr>),
    // HTTP stubs
    HttpGet(Box<Expr>),
    HttpPost(Box<Expr>, Box<Expr>),
    ListLiteral(Vec<Expr>),
    /// A dictionary display: keys, values.
    DictLiteralExpr(Vec<Expr>, Vec<Expr>),
}

/// Statements.
#[derive(Debug)]
pub enum Op {
    Assign(String, Expr),
    Print(Expr),
    If(Expr, Vec<Op>, Vec<Op>),
    For(String, Expr, Vec<Op>),
    While(Expr, Vec<Op>),
    Def(String, Vec<String>, Vec<Op>),
    Return(Option<Expr>),
    TryExcept(Vec<Op>, Vec<Op>),
    Break,
    Continue,
    ExprStmt(Expr),
}

// ------------------------------------------------------------------
// Model
// ------------------------------------------------------------------

/// A literal, with texts as character sequences.
pub enum SLiteral {
    PyNone,
    Bool(bool),
    Int(i64),
    Float(Seq<char>),
    Str(Seq<char>),
    EmptyDict,
    Json(Seq<char>),
}

/// An expression, with texts as character sequences.
pub enum SExpr {
    Lit(SLiteral),
    Var(Seq<char>),
    BinOp(Box<SExpr>, BinOp, Box<SExpr>),
    UnaryOp(UnaryOp, Box<SExpr>),
    NearView(Box<SExpr>, Box<SExpr>, Box<SExpr>),
    NearCall(Seq<SExpr>),
    NearBlock(Box<SExpr>),
    NearBlockHeight,
    NearViewAccount(Box<SExpr>),
    StorageGet(Box<SExpr>),
    StoragePut(Box<SExpr>, Box<SExpr>),
    JsonDumps(Box<SExpr>),
    JsonLoads(Box<SExpr>),
    Len(Box<SExpr>),
    Range(Seq<SExpr>),
    IntOf(Box<SExpr>),
    StrOf(Box<SExpr>),
    TypeOf(Box<SExpr>),
    GetAttr(Box<SExpr>, Seq<char>),
    Index(Box<SExpr>, Box<SExpr>),
    MethodCall { object: Box<SExpr>, method: Seq<char>, args: Seq<SExpr> },
    FuncCall(Seq<char>, Seq<SExpr>),
    Concat(Seq<SExpr>),
    HttpGet(Box<SExpr>),
    HttpPost(Box<SExpr>, Box<SExpr>),
    ListLiteral(Seq<SExpr>),
    DictLiteralExpr(Seq<SExpr>, Seq<SExpr>),
}

/// A statement, with texts as character sequences.
pub enum SOp {
    Assign(Seq<char>, SExpr),
    Print(SExpr),
    If(SExpr, Seq<SOp>, Seq<SOp>),
    For(Seq<char>, SExpr, Seq<SOp>),
    While(SExpr, Seq<SOp>),
    Def(Seq<char>, Seq<Seq<char>>, Seq<SOp>),
    Return(Option<SExpr>),
    TryExcept(Seq<SOp>, Seq<SOp>),
    Break,
    Continue,
    ExprStmt(SExpr),
}

pub open spec fn literal_view(l: Literal) -> SLiteral {
    match l {
        Literal::PyNone => SLiteral::PyNone,
        Literal::Bool(b) => SLiteral::Bool(b),
        Literal::Int(n) => SLiteral::Int(n),
        Literal::Float(t) => SLiteral::Float(t@),
        Literal::Str(t) => SLiteral::Str(t@),
        Literal::EmptyDict => SLiteral::EmptyDict,
        Literal::Json(t) => SLiteral::Json(t@),
    }
}

pub open spec fn strings_view(v: Seq<String>) -> Seq<Seq<char>> {
    v.map_values(|s: String| s@)
}

pub open spec fn expr_view(e: Expr) -> SExpr
    decreases e,
{
    match e {
        Expr::Lit(l) => SExpr::Lit(literal_view(l)),
        Expr::Var(n) => SExpr::Var(n@),
        Expr::BinOp(a, op, b) => SExpr::BinOp(Box::new(expr_view(*a)), op, Box::new(expr_view(*b))),
        Expr::UnaryOp(op, a) => SExpr::UnaryOp(op, Box::new(expr_view(*a))),
        Expr::NearView(a, b, c) => SExpr::NearView(
            Box::new(expr_view(*a)),
            Box::new(expr_view(*b)),
            Box::new(expr_view(*c)),
        ),
        Expr::NearCall(v) => SExpr::NearCall(exprs_view(v@)),
        Expr::NearBlock(a) => SExpr::NearBlock(Box::new(expr_view(*a))),
        Expr::NearBlockHeight => SExpr::NearBlockHeight,
        Expr::NearViewAccount(a) => SExpr::NearViewAccount(Box::new(expr_view(*a))),
        Expr::StorageGet(a) => SExpr::StorageGet(Box::new(expr_view(*a))),
        Expr::StoragePut(a, b) => SExpr::StoragePut(Box::new(expr_view(*a)), Box::new(expr_view(*b))),
        Expr::JsonDumps(a) => SExpr::JsonDumps(Box::new(expr_view(*a))),
        Expr::JsonLoads(a) => SExpr::JsonLoads(Box::new(expr_view(*a))),
        Expr::Len(a) => SExpr::Len(Box::new(expr_view(*a))),
        Expr::Range(v) => SExpr::Range(exprs_view(v@)),
        Expr::Int_(a) => SExpr::IntOf(Box::new(expr_view(*a))),
        Expr::Str_(a) => SExpr::StrOf(Box::new(expr_view(*a))),
        Expr::TypeOf(a) => SExpr::TypeOf(Box::new(expr_view(*a))),
        Expr::GetAttr(a, n) => SExpr::GetAttr(Box::new(expr_view(*a)), n@),
        Expr::Index(a, b) => SExpr::Index(Box::new(expr_view(*a)), Box::new(expr_view(*b))),
        Expr::MethodCall { object, method, args } => SExpr::MethodCall {
            object: Box::new(expr_view(*object)),
            method: method@,
            args: exprs_view(args@),
        },
        Expr::FuncCall(n, v) => SExpr::FuncCall(n@, exprs_view(v@)),
        Expr::Concat(v) => SExpr::Concat(exprs_view(v@)),
        Expr::HttpGet(a) => SExpr::HttpGet(Box::new(expr_view(*a))),
        Expr::HttpPost(a, b) => SExpr::HttpPost(Box::new(expr_view(*a)), Box::new(expr_view(*b))),
        Expr::ListLiteral(v) => SExpr::ListLiteral(exprs_view(v@)),
        Expr::DictLiteralExpr(k, v) => SExpr::DictLiteralExpr(exprs_view(k@), exprs_view(v@)),
    }
}

pub open spec fn exprs_view(v: Seq<Expr>) -> Seq<SExpr>
    decreases v,
{
    if v.len() == 0 {
        Seq::empty()
    } else {
        exprs_view(v.drop_last()).push(expr_view(v.last()))
    }
}

pub open spec fn op_view(o: Op) -> SOp
    decreases o,
{
    match o {
        Op::Assign(n, e) => SOp::Assign(n@, expr_view(e)),
        Op::Print(e) => SOp::Print(expr_view(e)),
        Op::If(c, a, b) => SOp::If(expr_view(c), ops_view(a@), ops_view(b@)),
        Op::For(n, e, b) => SOp::For(n@, expr_view(e), ops_view(b@)),
        Op::While(c, b) => SOp::While(expr_view(c), ops_view(b@)),
        Op::Def(n, ps, b) => SOp::Def(n@, strings_view(ps@), ops_view(b@)),
        Op::Return(e) => SOp::Return(
            match e {
                Some(x) => Some(expr_view(x)),
                None => None,
            },
        ),
        Op::TryExcept(a, b) => SOp::TryExcept(ops_view(a@), ops_view(b@)),
        Op::Break => SOp::Break,
        Op::Continue => SOp::Continue,
        Op::ExprStmt(e) => SOp::ExprStmt(expr_view(e)),
    }
}

pub open spec fn ops_view(v: Seq<Op>) -> Seq<SOp>
    decreases v,
{
    if v.len() == 0 {
        Seq::empty()
    } else {
        ops_view(v.drop_last()).push(op_view(v.last()))
    }
}

impl View for Expr {
    type V = SExpr;

    open spec fn view(&self) -> SExpr {
        expr_view(*self)
    }
}

impl View for Op {
    type V = SOp;

    open spec fn view(&self) -> SOp {
        op_view(*self)
    }
}

pub proof fn lemma_exprs_view_len(v: Seq<Expr>)
    ensures
        exprs_view(v).len() == v.len(),
        forall|i: int| 0 <= i < v.len() ==> #[trigger] exprs_view(v)[i] == expr_view(v[i]),
    decreases v.len(),
{
    if v.len() > 0 {
        lemma_exprs_view_len(v.drop_last());
    }
}

pub proof fn lemma_exprs_view_push(v: Seq<Expr>, e: Expr)
    ensures
        exprs_view(v.push(e)) == exprs_view(v).push(expr_view(e)),
{
    assert(v.push(e).drop_last() =~= v);
}

pub proof fn lemma_ops_view_push(v: Seq<Op>, o: Op)
    ensures
        ops_view(v.push(o)) == ops_view(v).push(op_view(o)),
{
    assert(v.push(o).drop_last() =~= v);
}

pub proof fn lemma_ops_view_len(v: Seq<Op>)
    ensures
        ops_view(v).len() == v.len(),
        forall|i: int| 0 <= i < v.len() ==> #[trigger] ops_view(v)[i] == op_view(v[i]),
    decreases v.len(),
{
    if v.len() > 0 {
        lemma_ops_view_len(v.drop_last());
    }
}

} // verus!
