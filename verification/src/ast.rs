//! The syntax tree of the language, as the formatter prints it.
//! Number literals that are not integers, and type annotations, are held
//! as the text they are written with. Each statement and declaration
//! member carries the 1-based source line it starts on; those that
//! declare or import a name (`let`, functions, declarations and their
//! members, imports) carry its 1-based column too.
use vstd::prelude::*;

verus! {

#[derive(Clone, Copy, Debug, PartialEq, Eq)]
pub enum UnOp {
    Neg,
    Not,
}

#[derive(Clone, Copy, Debug, PartialEq, Eq)]
pub enum BinOp {
    Add,
    Sub,
    Mul,
    Div,
    Eq,
    Neq,
    Lt,
    Gt,
    Lte,
    Gte,
    And,
    Or,
    In,
    NotIn,
}

pub enum Expr {
    /// A string literal: its value.
    Str(String),
    /// An interpolated string: the literal pieces, and the expression
    /// after each piece.
    Interp { parts: Vec<String>, exprs: Vec<Expr> },
    Int(i64),
    /// A float literal, as its shortest round-tripping text.
    Float(String),
    Bool(bool),
    /// The typed hole `???`.
    Hole,
    /// A percent literal: the number before `%`, as written.
    Percent(String),
    /// A quantity with a unit: the number, as written, and the unit.
    Quantity { value: String, unit: String },
    Ident(String),
    SelfRef,
    Tuple(Vec<Expr>),
    List(Vec<Expr>),
    Range { start: Box<Expr>, end: Box<Expr>, exclusive: bool },
    Index { object: Box<Expr>, index: Box<Expr> },
    Field { object: Box<Expr>, name: String },
    Call { callee: Box<Expr>, args: Vec<Expr>, kwargs: Vec<(String, Expr)> },
    Unary { op: UnOp, operand: Box<Expr> },
    Binary { op: BinOp, left: Box<Expr>, right: Box<Expr> },
    IfExpr { cond: Box<Expr>, then_expr: Box<Expr>, elifs: Vec<(Expr, Expr)>, else_expr: Box<Expr> },
}


#[derive(Clone, Copy, Debug, PartialEq, Eq)]
pub enum AssignOp {
    Plain,
    AddAssign,
    SubAssign,
    MulAssign,
    DivAssign,
}

/// The place an assignment writes: a name, or a field of an object.
pub enum AssignTarget {
    Name(String),
    Field { object: Expr, name: String },
}

#[derive(Clone, Copy, Debug, PartialEq, Eq)]
pub enum DeclKind {
    Entity,
    Item,
    Modifier,
    Inventory,
    Scene,
    Particles,
    Visual,
}

/// A parameter, with its type annotation's text when it has one.
pub struct Param {
    pub name: String,
    pub ty: Option<String>,
}

/// A `@deprecated` annotation, with the version it names if any.
pub struct Deprecation {
    pub since: Option<String>,
}

pub enum Stmt {
    Let { name: String, value: Expr, line: u32, col: u32 },
    Assign { target: AssignTarget, op: AssignOp, value: Expr, line: u32 },
    If { cond: Expr, then_body: Vec<Stmt>, elifs: Vec<(Expr, Vec<Stmt>)>, else_body: Option<Vec<Stmt>>, line: u32 },
    OnUpdate { param: String, body: Vec<Stmt>, line: u32 },
    OnRender { body: Vec<Stmt>, line: u32 },
    OnClassEvent { class: String, event: String, param: String, body: Vec<Stmt>, line: u32 },
    Decl {
        kind: DeclKind,
        name: String,
        parent: Option<String>,
        members: Vec<DeclMember>,
        deprecation: Option<Deprecation>,
        line: u32,
        col: u32,
    },
    FunctionDecl {
        name: String,
        params: Vec<Param>,
        ret: Option<String>,
        body: Vec<Stmt>,
        deprecation: Option<Deprecation>,
        line: u32,
        col: u32,
    },
    Return { value: Option<Expr>, line: u32 },
    While { cond: Expr, body: Vec<Stmt>, line: u32 },
    For { var: String, iter: Expr, body: Vec<Stmt>, line: u32 },
    Break { line: u32 },
    Continue { line: u32 },
    Transition { target: String, line: u32 },
    Spawn { class: String, at: Option<Expr>, line: u32 },
    Despawn { target: Expr, line: u32 },
    Wait { duration: Expr, line: u32 },
    DialogueDecl { name: String, body: Vec<Stmt>, line: u32 },
    Say { actor: Option<Expr>, text: Expr, line: u32 },
    Choice { branches: Vec<(Expr, Vec<Stmt>)>, line: u32 },
    Import { path: String, alias: Option<String>, line: u32, col: u32 },
    /// An expression used as a statement, and its line.
    Expr(Expr, u32),
}

/// A member of an `entity` / `scene` / ... declaration.
pub enum DeclMember {
    Field { name: String, value: Expr, ty: Option<String>, line: u32, col: u32 },
    Method { name: String, params: Vec<Param>, ret: Option<String>, body: Vec<Stmt>, line: u32, col: u32 },
    InitialState { name: String, line: u32, col: u32 },
    State { name: String, members: Vec<StateMember>, line: u32, col: u32 },
}

/// A member of a `state` block.
pub enum StateMember {
    Stmt(Stmt),
    Every { interval: Expr, body: Vec<Stmt>, line: u32 },
    OnRender { body: Vec<Stmt>, line: u32 },
    OnKeyPress { key: String, body: Vec<Stmt>, line: u32 },
    OnUpdate { param: String, body: Vec<Stmt>, line: u32 },
    OnPredicate { predicate: Expr, body: Vec<Stmt>, line: u32 },
}

pub struct Program {
    pub stmts: Vec<Stmt>,
}

impl View for Program {
    type V = Seq<Stmt>;

    open spec fn view(&self) -> Seq<Stmt> {
        self.stmts@
    }
}

} // verus!
