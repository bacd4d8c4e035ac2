//! The parser's error type: where a program failed to parse, why, and
//! how to fix it; and the parser's helpers that build and name syntax
//! trees.
use vstd::prelude::*;
use crate::ast::{AssignTarget, Expr, Stmt};
use crate::stmt_printer::decl_kind_text;
use crate::text::{dec, owned, push_decimal, push_str};

verus! {

/// A parse failure at a 1-based line and column, with an optional hint.
#[derive(Debug, Clone, PartialEq, Eq)]
pub struct ParseError {
    pub line: u32,
    pub col: u32,
    pub message: String,
    pub help: Option<String>,
}

/// `line:col: message`, then the hint on a line of its own.
pub open spec fn parse_error_text(line: u32, col: u32, message: Seq<char>, help: Option<Seq<char>>) -> Seq<char> {
    dec(line as nat) + ":"@ + dec(col as nat) + ": "@ + message + match help {
        Some(h) => "\n  help: "@ + h,
        None => Seq::empty(),
    }
}

impl ParseError {
    /// How the error is shown to the user.
    pub fn to_text(&self) -> (r: String)
        ensures
            r@ == parse_error_text(self.line, self.col, self.message@, match self.help {
                Some(h) => Some(h@),
                None => None,
            }),
    {
        let mut out = String::new();
        push_decimal(&mut out, self.line as u64);
        push_str(&mut out, ":");
        push_decimal(&mut out, self.col as u64);
        push_str(&mut out, ": ");
        push_str(&mut out, self.message.as_str());
        match &self.help {
            Some(h) => {
                push_str(&mut out, "\n  help: ");
                push_str(&mut out, h.as_str());
            },
            None => {},
        }
        out
    }
}

/// The place an expression on the left of `=` names: a name or a field;
/// `None` for any other expression.
pub fn expr_to_target(e: Expr) -> (r: Option<AssignTarget>)
    ensures
        match e {
            Expr::Ident(n) => r matches Some(AssignTarget::Name(m)) && m@ == n@,
            Expr::Field { object, name } => r matches Some(AssignTarget::Field { object: o, name: m }) && o == *object
                && m@ == name@,
            _ => r is None,
        },
{
    match e {
        Expr::Ident(n) => Some(AssignTarget::Name(n)),
        Expr::Field { object, name } => Some(AssignTarget::Field { object: *object, name }),
        _ => None,
    }
}

/// The short name of a statement's kind, as error messages show it.
pub open spec fn stmt_kind_text(s: Stmt) -> Seq<char> {
    match s {
        Stmt::Let { .. } => "let"@,
        Stmt::Assign { .. } => "assignment"@,
        Stmt::If { .. } => "if"@,
        Stmt::While { .. } => "while"@,
        Stmt::For { .. } => "for"@,
        Stmt::Break { .. } => "break"@,
        Stmt::Continue { .. } => "continue"@,
        Stmt::Return { .. } => "return"@,
        Stmt::OnUpdate { .. } => "on update"@,
        Stmt::OnRender { .. } => "on render"@,
        Stmt::OnClassEvent { .. } => "on Class.event"@,
        Stmt::Transition { .. } => "transition"@,
        Stmt::Spawn { .. } => "spawn"@,
        Stmt::Despawn { .. } => "despawn"@,
        Stmt::Wait { .. } => "wait"@,
        Stmt::DialogueDecl { .. } => "dialogue"@,
        Stmt::Say { .. } => "say"@,
        Stmt::Choice { .. } => "choice"@,
        Stmt::Decl { kind, .. } => decl_kind_text(kind),
        Stmt::FunctionDecl { .. } => "function"@,
        Stmt::Import { .. } => "import"@,
        Stmt::Expr(..) => "expression"@,
    }
}

pub fn stmt_kind_label(s: &Stmt) -> (r: String)
    ensures
        r@ == stmt_kind_text(*s),
{
    match s {
        Stmt::Let { .. } => owned("let"),
        Stmt::Assign { .. } => owned("assignment"),
        Stmt::If { .. } => owned("if"),
        Stmt::While { .. } => owned("while"),
        Stmt::For { .. } => owned("for"),
        Stmt::Break { .. } => owned("break"),
        Stmt::Continue { .. } => owned("continue"),
        Stmt::Return { .. } => owned("return"),
        Stmt::OnUpdate { .. } => owned("on update"),
        Stmt::OnRender { .. } => owned("on render"),
        Stmt::OnClassEvent { .. } => owned("on Class.event"),
        Stmt::Transition { .. } => owned("transition"),
        Stmt::Spawn { .. } => owned("spawn"),
        Stmt::Despawn { .. } => owned("despawn"),
        Stmt::Wait { .. } => owned("wait"),
        Stmt::DialogueDecl { .. } => owned("dialogue"),
        Stmt::Say { .. } => owned("say"),
        Stmt::Choice { .. } => owned("choice"),
        Stmt::Decl { kind, .. } => owned(crate::stmt_printer::decl_kind_str(*kind)),
        Stmt::FunctionDecl { .. } => owned("function"),
        Stmt::Import { .. } => owned("import"),
        Stmt::Expr(..) => owned("expression"),
    }
}

/// `s` is the statement `persistent_state("<name>")` on `line`.
pub open spec fn is_persistent_state_stmt(s: Stmt, name: Seq<char>, line: u32) -> bool {
    match s {
        Stmt::Expr(Expr::Call { callee, args, kwargs }, l) => {
            &&& l == line
            &&& kwargs@.len() == 0
            &&& args@.len() == 1
            &&& match *callee {
                Expr::Ident(f) => f@ == "persistent_state"@,
                _ => false,
            }
            &&& match args@[0] {
                Expr::Str(v) => v@ == name,
                _ => false,
            }
        },
        _ => false,
    }
}

/// `e` is the call `save.<method>(args)`.
pub open spec fn is_save_call(e: Expr, method: Seq<char>, args: Seq<Expr>) -> bool {
    match e {
        Expr::Call { callee, args: a, kwargs } => {
            &&& a@ == args
            &&& kwargs@.len() == 0
            &&& match *callee {
                Expr::Field { object, name } => name@ == method && match *object {
                    Expr::Ident(n) => n@ == "save"@,
                    _ => false,
                },
                _ => false,
            }
        },
        _ => false,
    }
}

/// The top-level call `persistent_state("<state_name>")` that a state
/// declared persistent adds after its declaration.
pub fn make_persistent_state_stmt(state_name: &str, line: u32) -> (r: Stmt)
    ensures
        is_persistent_state_stmt(r, state_name@, line),
{
    let mut args: Vec<Expr> = Vec::new();
    args.push(Expr::Str(owned(state_name)));
    Stmt::Expr(
        Expr::Call { callee: Box::new(Expr::Ident(owned("persistent_state"))), args, kwargs: Vec::new() },
        line,
    )
}

/// The call `save.<method>(args)` a save block is rewritten to.
pub fn make_save_call(method: &str, args: Vec<Expr>) -> (r: Expr)
    ensures
        is_save_call(r, method@, args@),
{
    Expr::Call {
        callee: Box::new(Expr::Field { object: Box::new(Expr::Ident(owned("save"))), name: owned(method) }),
        args,
        kwargs: Vec::new(),
    }
}

} // verus!
