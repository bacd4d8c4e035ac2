//! The formatter's statement printer: canonical source lines for
//! statements, declarations and their members, four spaces per level of
//! nesting, with the source's trivia re-emitted ahead of the line it
//! came before.
//!
//! The specification threads an output state through the tree: the index
//! of the next trivia item still to emit, and the text printed so far.
use vstd::prelude::*;
use crate::ast::{AssignOp, AssignTarget, DeclKind, DeclMember, Deprecation, Expr, Param, StateMember, Stmt};
use crate::expr_printer::{expr_text, print_expr, PREC_LOWEST, PREC_POSTFIX};
use crate::printer::{
    deprecation_line, emit, ends_in_blank_line, ends_with_blank, flush, indent, is_empty_string, print_deprecation,
    push_indent, since_body, TriviaCursor,
};
use crate::text::{chars_of, push_char, push_str, slice_vec, string_of};

verus! {

/// Trivia items as (line, kind, text).
pub type Items = Seq<(int, int, Seq<char>)>;

/// (index of the next trivia item, text printed so far).
pub type Out = (int, Seq<char>);

pub open spec fn nl() -> Seq<char> {
    seq!['\n']
}

/// The output after emitting the trivia that comes before `line`.
pub open spec fn flush_to(items: Items, st: Out, line: int, depth: nat) -> Out {
    flush(items, st.0, st.1, line, depth)
}

/// The output with `s` appended.
pub open spec fn put(st: Out, s: Seq<char>) -> Out {
    (st.0, st.1 + s)
}

/// One level deeper (a depth can never reach the largest `usize`: each
/// level is a nested body held in memory).
pub open spec fn deeper(depth: nat) -> nat {
    if depth < usize::MAX { depth + 1 } else { depth }
}

pub open spec fn decl_kind_text(k: DeclKind) -> Seq<char> {
    match k {
        DeclKind::Entity => "entity"@,
        DeclKind::Item => "item"@,
        DeclKind::Modifier => "modifier"@,
        DeclKind::Inventory => "inventory"@,
        DeclKind::Scene => "scene"@,
        DeclKind::Particles => "particles"@,
        DeclKind::Visual => "visual"@,
    }
}

pub open spec fn assign_op_text(op: AssignOp) -> Seq<char> {
    match op {
        AssignOp::Plain => "="@,
        AssignOp::AddAssign => "+="@,
        AssignOp::SubAssign => "-="@,
        AssignOp::MulAssign => "*="@,
        AssignOp::DivAssign => "/="@,
    }
}

pub open spec fn target_text(t: AssignTarget) -> Seq<char> {
    match t {
        AssignTarget::Name(n) => n@,
        AssignTarget::Field { object, name } => expr_text(object, 9) + "."@ + name@,
    }
}

pub open spec fn param_text(p: Param) -> Seq<char> {
    p.name@ + match p.ty {
        Some(t) => ": "@ + t@,
        None => Seq::empty(),
    }
}

/// Parameters separated by `, `.
pub open spec fn params_text(ps: Seq<Param>) -> Seq<char>
    decreases ps.len(),
{
    if ps.len() == 0 {
        Seq::empty()
    } else {
        params_text(ps.drop_last()) + (if ps.len() > 1 { ", "@ } else { Seq::empty() }) + param_text(ps.last())
    }
}

pub open spec fn ret_text(ret: Option<String>) -> Seq<char> {
    match ret {
        Some(t) => " -> "@ + t@,
        None => Seq::empty(),
    }
}

pub open spec fn dep_text(depth: nat, dep: Option<Deprecation>) -> Seq<char> {
    match dep {
        None => Seq::empty(),
        Some(d) => deprecation_line(
            depth,
            match d.since {
                Some(v) => Some(v@),
                None => None,
            },
        ),
    }
}

pub open spec fn opt_text(prefix: Seq<char>, e: Option<Expr>) -> Seq<char> {
    match e {
        Some(x) => prefix + expr_text(x, 0),
        None => Seq::empty(),
    }
}

pub open spec fn opt_name(prefix: Seq<char>, n: Option<String>) -> Seq<char> {
    match n {
        Some(x) => prefix + x@,
        None => Seq::empty(),
    }
}

pub open spec fn line_of(s: Stmt) -> int {
    match s {
        Stmt::Let { line, .. } => line as int,
        Stmt::Assign { line, .. } => line as int,
        Stmt::If { line, .. } => line as int,
        Stmt::OnUpdate { line, .. } => line as int,
        Stmt::OnRender { line, .. } => line as int,
        Stmt::OnClassEvent { line, .. } => line as int,
        Stmt::Decl { line, .. } => line as int,
        Stmt::FunctionDecl { line, .. } => line as int,
        Stmt::Return { line, .. } => line as int,
        Stmt::While { line, .. } => line as int,
        Stmt::For { line, .. } => line as int,
        Stmt::Break { line } => line as int,
        Stmt::Continue { line } => line as int,
        Stmt::Transition { line, .. } => line as int,
        Stmt::Spawn { line, .. } => line as int,
        Stmt::Despawn { line, .. } => line as int,
        Stmt::Wait { line, .. } => line as int,
        Stmt::DialogueDecl { line, .. } => line as int,
        Stmt::Say { line, .. } => line as int,
        Stmt::Choice { line, .. } => line as int,
        Stmt::Import { line, .. } => line as int,
        Stmt::Expr(_, line) => line as int,
    }
}

pub open spec fn member_line(m: DeclMember) -> int {
    match m {
        DeclMember::Field { line, .. } => line as int,
        DeclMember::Method { line, .. } => line as int,
        DeclMember::InitialState { line, .. } => line as int,
        DeclMember::State { line, .. } => line as int,
    }
}

pub open spec fn state_member_line(m: StateMember) -> int {
    match m {
        StateMember::Stmt(s) => line_of(s),
        StateMember::Every { line, .. } => line as int,
        StateMember::OnRender { line, .. } => line as int,
        StateMember::OnKeyPress { line, .. } => line as int,
        StateMember::OnUpdate { line, .. } => line as int,
        StateMember::OnPredicate { line, .. } => line as int,
    }
}

/// Methods, states and the initial state are set off by a blank line.
pub open spec fn member_takes_blank(m: DeclMember) -> bool {
    m is Method || m is State || m is InitialState
}

/// Handlers inside a state are set off by a blank line.
pub open spec fn state_member_takes_blank(m: StateMember) -> bool {
    m is Every || m is OnRender || m is OnKeyPress || m is OnUpdate
}

/// Whether a blank line is added before the next piece: only where the
/// output is not empty and does not already end in a blank line.
pub open spec fn blank_if(st: Out, want: bool) -> Out {
    if want && !ends_with_blank(st.1) && st.1.len() != 0 {
        put(st, nl())
    } else {
        st
    }
}

/// The line printed for a statement without a body (empty for the
/// others).
pub open spec fn leaf_text(s: Stmt, depth: nat) -> Seq<char> {
    let ind = indent(depth);
    match s {
        Stmt::Let { name, value, .. } => ind + "let "@ + name@ + " = "@ + expr_text(value, 0) + nl(),
        Stmt::Assign { target, op, value, .. } => ind + target_text(target) + " "@ + assign_op_text(op) + " "@
            + expr_text(value, 0) + nl(),
        Stmt::Return { value, .. } => ind + "return"@ + opt_text(" "@, value) + nl(),
        Stmt::Break { .. } => ind + "break\n"@,
        Stmt::Continue { .. } => ind + "continue\n"@,
        Stmt::Transition { target, .. } => ind + "-> "@ + target@ + nl(),
        Stmt::Spawn { class, at, .. } => ind + "spawn "@ + class@ + opt_text(" at "@, at) + nl(),
        Stmt::Despawn { target, .. } => ind + "despawn "@ + expr_text(target, 0) + nl(),
        Stmt::Wait { duration, .. } => ind + "wait "@ + expr_text(duration, 0) + nl(),
        Stmt::Say { actor, text, .. } => ind + "say "@ + match actor {
            Some(a) => expr_text(a, 0) + ": "@,
            None => Seq::empty(),
        } + expr_text(text, 0) + nl(),
        Stmt::Import { path, alias, .. } => ind + "import \""@ + since_body(path@) + "\""@ + opt_name(" as "@, alias)
            + nl(),
        Stmt::Expr(e, _) => ind + expr_text(e, 0) + nl(),
        _ => Seq::empty(),
    }
}

/// Statements with a body of their own.
pub open spec fn is_nested(s: Stmt) -> bool {
    s is If || s is OnUpdate || s is OnRender || s is OnClassEvent || s is Decl || s is FunctionDecl || s is While
        || s is For || s is DialogueDecl || s is Choice
}

/// The output after printing `s` at `depth`: the trivia before its line,
/// then the statement.
pub open spec fn stmt_out(items: Items, st: Out, s: Stmt, depth: nat) -> Out
    decreases s, 1int,
{
    stmt_body(items, flush_to(items, st, line_of(s), depth), s, depth)
}

pub open spec fn stmt_body(items: Items, st: Out, s: Stmt, depth: nat) -> Out
    decreases s, 0int,
{
    let ind = indent(depth);
    match s {
        Stmt::If { cond, then_body, elifs, else_body, .. } => {
            let a = block_out(items, put(st, ind + "if "@ + expr_text(cond, 0) + ":\n"@), then_body@, deeper(depth));
            let b = arms_out(items, a, elifs@, depth, "elif "@);
            match else_body {
                Some(eb) => block_out(items, put(b, ind + "else:\n"@), eb@, deeper(depth)),
                None => b,
            }
        },
        Stmt::OnUpdate { param, body, .. } => block_out(
            items,
            put(st, ind + "on update("@ + param@ + "):\n"@),
            body@,
            deeper(depth),
        ),
        Stmt::OnRender { body, .. } => block_out(items, put(st, ind + "on render():\n"@), body@, deeper(depth)),
        Stmt::OnClassEvent { class, event, param, body, .. } => block_out(
            items,
            put(st, ind + "on "@ + class@ + "."@ + event@ + "("@ + param@ + "):\n"@),
            body@,
            deeper(depth),
        ),
        Stmt::Decl { kind, name, parent, members, deprecation, .. } => decl_members_out(
            items,
            put(
                st,
                dep_text(depth, deprecation) + ind + decl_kind_text(kind) + " "@ + name@ + opt_name(" extends "@, parent)
                    + ":\n"@,
            ),
            members@,
            deeper(depth),
        ),
        Stmt::FunctionDecl { name, params, ret, body, deprecation, .. } => block_out(
            items,
            put(
                st,
                dep_text(depth, deprecation) + ind + "function "@ + name@ + "("@ + params_text(params@) + ")"@
                    + ret_text(ret) + ":\n"@,
            ),
            body@,
            deeper(depth),
        ),
        Stmt::While { cond, body, .. } => block_out(
            items,
            put(st, ind + "while "@ + expr_text(cond, 0) + ":\n"@),
            body@,
            deeper(depth),
        ),
        Stmt::For { var, iter, body, .. } => block_out(
            items,
            put(st, ind + "for "@ + var@ + " in "@ + expr_text(iter, 0) + ":\n"@),
            body@,
            deeper(depth),
        ),
        Stmt::DialogueDecl { name, body, .. } => block_out(
            items,
            put(st, ind + "dialogue "@ + name@ + ":\n"@),
            body@,
            deeper(depth),
        ),
        Stmt::Choice { branches, .. } => arms_out(
            items,
            put(st, ind + "choice:\n"@),
            branches@,
            deeper(depth),
            Seq::empty(),
        ),
        _ => put(st, leaf_text(s, depth)),
    }
}

/// A body at `depth`; an empty one is printed as the no-op `0`.
pub open spec fn block_out(items: Items, st: Out, ss: Seq<Stmt>, depth: nat) -> Out
    decreases ss, 1int,
{
    if ss.len() == 0 {
        put(st, indent(depth) + "0\n"@)
    } else {
        stmts_out(items, st, ss, depth)
    }
}

/// The statements printed one after another.
pub open spec fn stmts_out(items: Items, st: Out, ss: Seq<Stmt>, depth: nat) -> Out
    decreases ss, 0int,
{
    if ss.len() == 0 {
        st
    } else {
        stmt_out(items, stmts_out(items, st, ss.drop_last(), depth), ss[ss.len() - 1], depth)
    }
}

/// Branches `<kw><label>:` at `pad`, each followed by its body one level
/// deeper (the `elif` arms of an `if`; the arms of a `choice`).
pub open spec fn arms_out(items: Items, st: Out, arms: Seq<(Expr, Vec<Stmt>)>, pad: nat, kw: Seq<char>) -> Out
    decreases arms, 0int,
{
    if arms.len() == 0 {
        st
    } else {
        let a = arms_out(items, st, arms.drop_last(), pad, kw);
        block_out(
            items,
            put(a, indent(pad) + kw + expr_text(arms[arms.len() - 1].0, 0) + ":\n"@),
            arms[arms.len() - 1].1@,
            deeper(pad),
        )
    }
}

/// A declaration's members; an empty one is printed as the no-op `0`.
pub open spec fn decl_members_out(items: Items, st: Out, ms: Seq<DeclMember>, depth: nat) -> Out
    decreases ms, 1int,
{
    if ms.len() == 0 {
        put(st, indent(depth) + "0\n"@)
    } else {
        members_out(items, st, ms, depth)
    }
}

pub open spec fn members_out(items: Items, st: Out, ms: Seq<DeclMember>, depth: nat) -> Out
    decreases ms, 0int,
{
    if ms.len() == 0 {
        st
    } else {
        let m = ms[ms.len() - 1];
        let a = flush_to(items, members_out(items, st, ms.drop_last(), depth), member_line(m), depth);
        member_out(items, blank_if(a, ms.len() > 1 && member_takes_blank(m)), m, depth)
    }
}

pub open spec fn member_out(items: Items, st: Out, m: DeclMember, depth: nat) -> Out
    decreases m, 0int,
{
    let ind = indent(depth);
    match m {
        DeclMember::Field { name, value, ty, .. } => put(
            st,
            ind + name@ + ": "@ + match ty {
                Some(t) => t@ + " = "@,
                None => Seq::empty(),
            } + expr_text(value, 0) + nl(),
        ),
        DeclMember::Method { name, params, ret, body, .. } => block_out(
            items,
            put(st, ind + name@ + "("@ + params_text(params@) + ")"@ + ret_text(ret) + ":\n"@),
            body@,
            deeper(depth),
        ),
        DeclMember::InitialState { name, .. } => put(st, ind + "initial: "@ + name@ + nl()),
        DeclMember::State { name, members, .. } => state_members_out(
            items,
            put(st, ind + "state "@ + name@ + ":\n"@),
            members@,
            deeper(depth),
        ),
    }
}

/// A state's members (an empty state prints nothing inside).
pub open spec fn state_members_out(items: Items, st: Out, ms: Seq<StateMember>, depth: nat) -> Out
    decreases ms, 0int,
{
    if ms.len() == 0 {
        st
    } else {
        let m = ms[ms.len() - 1];
        let a = flush_to(items, state_members_out(items, st, ms.drop_last(), depth), state_member_line(m), depth);
        state_member_out(items, blank_if(a, ms.len() > 1 && state_member_takes_blank(m)), m, depth)
    }
}

pub open spec fn state_member_out(items: Items, st: Out, m: StateMember, depth: nat) -> Out
    decreases m, 0int,
{
    let ind = indent(depth);
    match m {
        StateMember::Stmt(s) => stmt_out(items, st, s, depth),
        StateMember::Every { interval, body, .. } => block_out(
            items,
            put(st, ind + "every "@ + expr_text(interval, 0) + ":\n"@),
            body@,
            deeper(depth),
        ),
        StateMember::OnRender { body, .. } => block_out(items, put(st, ind + "on render():\n"@), body@, deeper(depth)),
        StateMember::OnKeyPress { key, body, .. } => block_out(
            items,
            put(st, ind + "on key_press."@ + key@ + ":\n"@),
            body@,
            deeper(depth),
        ),
        StateMember::OnUpdate { param, body, .. } => block_out(
            items,
            put(st, ind + "on update("@ + param@ + "):\n"@),
            body@,
            deeper(depth),
        ),
        StateMember::OnPredicate { predicate, body, .. } => block_out(
            items,
            put(st, ind + "on "@ + expr_text(predicate, 0) + ":\n"@),
            body@,
            deeper(depth),
        ),
    }
}

// ---------------------------------------------------------------------------
// Printing
// ---------------------------------------------------------------------------

/// The cursor's state paired with the output.
pub open spec fn at(c: TriviaCursor, out: Seq<char>) -> Out {
    (c.spec_next(), out)
}

pub open spec fn cursor_ok(c: TriviaCursor) -> bool {
    c.spec_next() <= c.spec_items().len()
}

fn next_depth(depth: usize) -> (r: usize)
    ensures
        r == deeper(depth as nat),
{
    if depth < usize::MAX { depth + 1 } else { depth }
}

pub(crate) fn decl_kind_str(k: DeclKind) -> (r: &'static str)
    ensures
        r@ == decl_kind_text(k),
{
    match k {
        DeclKind::Entity => "entity",
        DeclKind::Item => "item",
        DeclKind::Modifier => "modifier",
        DeclKind::Inventory => "inventory",
        DeclKind::Scene => "scene",
        DeclKind::Particles => "particles",
        DeclKind::Visual => "visual",
    }
}

fn assign_op_str(op: AssignOp) -> (r: &'static str)
    ensures
        r@ == assign_op_text(op),
{
    match op {
        AssignOp::Plain => "=",
        AssignOp::AddAssign => "+=",
        AssignOp::SubAssign => "-=",
        AssignOp::MulAssign => "*=",
        AssignOp::DivAssign => "/=",
    }
}

fn print_target(out: &mut String, t: &AssignTarget)
    ensures
        final(out)@ == old(out)@ + target_text(*t),
{
    let ghost o0 = out@;
    match t {
        AssignTarget::Name(n) => push_str(out, n.as_str()),
        AssignTarget::Field { object, name } => {
            print_expr(out, object, PREC_POSTFIX);
            push_str(out, ".");
            push_str(out, name.as_str());
        },
    }
    assert(out@ =~= o0 + target_text(*t));
}

fn push_params(out: &mut String, ps: &Vec<Param>)
    ensures
        final(out)@ == old(out)@ + params_text(ps@),
{
    let ghost o0 = out@;
    let mut i: usize = 0;
    while i < ps.len()
        invariant
            i <= ps@.len(),
            out@ == o0 + params_text(ps@.subrange(0, i as int)),
        decreases ps.len() - i,
    {
        let ghost sub = ps@.subrange(0, i + 1);
        assert(sub.drop_last() =~= ps@.subrange(0, i as int));
        if i > 0 {
            push_str(out, ", ");
        }
        push_str(out, ps[i].name.as_str());
        match &ps[i].ty {
            Some(t) => {
                push_str(out, ": ");
                push_str(out, t.as_str());
            },
            None => {},
        }
        assert(out@ =~= o0 + params_text(sub));
        i += 1;
    }
    assert(ps@.subrange(0, ps@.len() as int) =~= ps@);
}

fn push_ret(out: &mut String, ret: &Option<String>)
    ensures
        final(out)@ == old(out)@ + ret_text(*ret),
{
    match ret {
        Some(t) => {
            push_str(out, " -> ");
            push_str(out, t.as_str());
        },
        None => {
            assert(out@ =~= old(out)@ + ret_text(*ret));
        },
    }
}

fn print_dep(out: &mut String, depth: usize, dep: &Option<Deprecation>)
    ensures
        final(out)@ == old(out)@ + dep_text(depth as nat, *dep),
{
    match dep {
        None => {
            print_deprecation(out, depth, None);
        },
        Some(d) => match &d.since {
            Some(v) => print_deprecation(out, depth, Some(Some(v.as_str()))),
            None => print_deprecation(out, depth, Some(None)),
        },
    }
}

fn print_opt_expr(out: &mut String, prefix: &str, e: &Option<Expr>)
    ensures
        final(out)@ == old(out)@ + opt_text(prefix@, *e),
{
    match e {
        Some(x) => {
            push_str(out, prefix);
            print_expr(out, x, PREC_LOWEST);
        },
        None => {
            assert(out@ =~= old(out)@ + opt_text(prefix@, *e));
        },
    }
}

fn print_opt_name(out: &mut String, prefix: &str, n: &Option<String>)
    ensures
        final(out)@ == old(out)@ + opt_name(prefix@, *n),
{
    match n {
        Some(x) => {
            push_str(out, prefix);
            push_str(out, x.as_str());
        },
        None => {
            assert(out@ =~= old(out)@ + opt_name(prefix@, *n));
        },
    }
}

/// Appends `path` with backslashes and quotes escaped.
fn push_escaped_path(out: &mut String, path: &str)
    ensures
        final(out)@ == old(out)@ + since_body(path@),
{
    let ghost o0 = out@;
    let v = chars_of(path);
    let mut i: usize = 0;
    while i < v.len()
        invariant
            i <= v@.len(),
            v@ == path@,
            out@ == o0 + since_body(v@.subrange(0, i as int)),
        decreases v.len() - i,
    {
        let c = v[i];
        assert(v@.subrange(0, i + 1).drop_last() =~= v@.subrange(0, i as int));
        if c == '\\' {
            push_str(out, "\\\\");
        } else if c == '"' {
            push_str(out, "\\\"");
        } else {
            push_char(out, c);
        }
        proof {
            reveal_strlit("\\\\");
            reveal_strlit("\\\"");
        }
        assert(out@ =~= o0 + since_body(v@.subrange(0, i + 1)));
        i += 1;
    }
    assert(v@.subrange(0, v@.len() as int) =~= v@);
}

pub(crate) fn stmt_line(s: &Stmt) -> (r: u32)
    ensures
        r as int == line_of(*s),
{
    match s {
        Stmt::Let { line, .. } => *line,
        Stmt::Assign { line, .. } => *line,
        Stmt::If { line, .. } => *line,
        Stmt::OnUpdate { line, .. } => *line,
        Stmt::OnRender { line, .. } => *line,
        Stmt::OnClassEvent { line, .. } => *line,
        Stmt::Decl { line, .. } => *line,
        Stmt::FunctionDecl { line, .. } => *line,
        Stmt::Return { line, .. } => *line,
        Stmt::While { line, .. } => *line,
        Stmt::For { line, .. } => *line,
        Stmt::Break { line } => *line,
        Stmt::Continue { line } => *line,
        Stmt::Transition { line, .. } => *line,
        Stmt::Spawn { line, .. } => *line,
        Stmt::Despawn { line, .. } => *line,
        Stmt::Wait { line, .. } => *line,
        Stmt::DialogueDecl { line, .. } => *line,
        Stmt::Say { line, .. } => *line,
        Stmt::Choice { line, .. } => *line,
        Stmt::Import { line, .. } => *line,
        Stmt::Expr(_, line) => *line,
    }
}

fn nested(s: &Stmt) -> (r: bool)
    ensures
        r == is_nested(*s),
{
    match s {
        Stmt::If { .. } | Stmt::OnUpdate { .. } | Stmt::OnRender { .. } | Stmt::OnClassEvent { .. } | Stmt::Decl {
            ..
        } | Stmt::FunctionDecl { .. } | Stmt::While { .. } | Stmt::For { .. } | Stmt::DialogueDecl { .. }
        | Stmt::Choice { .. } => true,
        _ => false,
    }
}

/// Appends the line of a statement without a body.
#[verifier::rlimit(30)]
fn print_leaf(out: &mut String, s: &Stmt, depth: usize)
    requires
        !is_nested(*s),
    ensures
        final(out)@ == old(out)@ + leaf_text(*s, depth as nat),
{
    let ghost o0 = out@;
    push_indent(out, depth);
    match s {
        Stmt::Let { name, value, .. } => {
            push_str(out, "let ");
            push_str(out, name.as_str());
            push_str(out, " = ");
            print_expr(out, value, PREC_LOWEST);
        },
        Stmt::Assign { target, op, value, .. } => {
            print_target(out, target);
            push_str(out, " ");
            push_str(out, assign_op_str(*op));
            push_str(out, " ");
            print_expr(out, value, PREC_LOWEST);
        },
        Stmt::Return { value, .. } => {
            push_str(out, "return");
            print_opt_expr(out, " ", value);
        },
        Stmt::Break { .. } => {
            push_str(out, "break");
        },
        Stmt::Continue { .. } => {
            push_str(out, "continue");
        },
        Stmt::Transition { target, .. } => {
            push_str(out, "-> ");
            push_str(out, target.as_str());
        },
        Stmt::Spawn { class, at, .. } => {
            push_str(out, "spawn ");
            push_str(out, class.as_str());
            print_opt_expr(out, " at ", at);
        },
        Stmt::Despawn { target, .. } => {
            push_str(out, "despawn ");
            print_expr(out, target, PREC_LOWEST);
        },
        Stmt::Wait { duration, .. } => {
            push_str(out, "wait ");
            print_expr(out, duration, PREC_LOWEST);
        },
        Stmt::Say { actor, text, .. } => {
            push_str(out, "say ");
            match actor {
                Some(a) => {
                    print_expr(out, a, PREC_LOWEST);
                    push_str(out, ": ");
                },
                None => {},
            }
            print_expr(out, text, PREC_LOWEST);
        },
        Stmt::Import { path, alias, .. } => {
            push_str(out, "import \"");
            push_escaped_path(out, path.as_str());
            push_str(out, "\"");
            print_opt_name(out, " as ", alias);
        },
        Stmt::Expr(e, _) => {
            print_expr(out, e, PREC_LOWEST);
        },
        _ => {},
    }
    push_char(out, '\n');
    proof {
        reveal_strlit("break\n");
        reveal_strlit("break");
        reveal_strlit("continue\n");
        reveal_strlit("continue");
    }
    assert(out@ =~= o0 + leaf_text(*s, depth as nat));
}

/// Appends statement `s` at `depth`, after the trivia that comes before
/// its line.
pub fn print_stmt(out: &mut String, s: &Stmt, depth: usize, cursor: &mut TriviaCursor)
    requires
        cursor_ok(*old(cursor)),
    ensures
        final(cursor).spec_items() == old(cursor).spec_items(),
        cursor_ok(*final(cursor)),
        at(*final(cursor), final(out)@) == stmt_out(
            old(cursor).spec_items(),
            at(*old(cursor), old(out)@),
            *s,
            depth as nat,
        ),
    decreases s, 2int,
{
    cursor.flush_through(out, stmt_line(s), depth);
    if nested(s) {
        print_nested(out, s, depth, cursor);
    } else {
        print_leaf(out, s, depth);
    }
}

/// Appends a body at `depth` (the no-op `0` when it is empty).
pub fn print_block(out: &mut String, ss: &Vec<Stmt>, depth: usize, cursor: &mut TriviaCursor)
    requires
        cursor_ok(*old(cursor)),
    ensures
        final(cursor).spec_items() == old(cursor).spec_items(),
        cursor_ok(*final(cursor)),
        at(*final(cursor), final(out)@) == block_out(
            old(cursor).spec_items(),
            at(*old(cursor), old(out)@),
            ss@,
            depth as nat,
        ),
    decreases ss@, 0int,
{
    let ghost items = cursor.spec_items();
    let ghost st0 = at(*cursor, out@);
    if ss.len() == 0 {
        let ghost o0 = out@;
        push_indent(out, depth);
        push_str(out, "0\n");
        assert(out@ =~= o0 + (indent(depth as nat) + "0\n"@));
        return;
    }
    let mut i: usize = 0;
    while i < ss.len()
        invariant
            i <= ss@.len(),
            cursor.spec_items() == items,
            cursor_ok(*cursor),
            at(*cursor, out@) == stmts_out(items, st0, ss@.subrange(0, i as int), depth as nat),
        decreases ss.len() - i,
    {
        let ghost sub = ss@.subrange(0, i + 1);
        assert(sub.drop_last() =~= ss@.subrange(0, i as int));
        assert(sub[sub.len() - 1] == ss@[i as int]);
        print_stmt(out, &ss[i], depth, cursor);
        i += 1;
    }
    assert(ss@.subrange(0, ss@.len() as int) =~= ss@);
}

/// Appends branches `<kw><label>:` at `pad`, each with its body one
/// level deeper.
fn print_arms(out: &mut String, arms: &Vec<(Expr, Vec<Stmt>)>, pad: usize, kw: &str, cursor: &mut TriviaCursor)
    requires
        cursor_ok(*old(cursor)),
    ensures
        final(cursor).spec_items() == old(cursor).spec_items(),
        cursor_ok(*final(cursor)),
        at(*final(cursor), final(out)@) == arms_out(
            old(cursor).spec_items(),
            at(*old(cursor), old(out)@),
            arms@,
            pad as nat,
            kw@,
        ),
    decreases arms@, 0int,
{
    let ghost items = cursor.spec_items();
    let ghost st0 = at(*cursor, out@);
    let inner = next_depth(pad);
    let mut i: usize = 0;
    while i < arms.len()
        invariant
            i <= arms@.len(),
            inner == deeper(pad as nat),
            cursor.spec_items() == items,
            cursor_ok(*cursor),
            at(*cursor, out@) == arms_out(items, st0, arms@.subrange(0, i as int), pad as nat, kw@),
        decreases arms.len() - i,
    {
        let ghost sub = arms@.subrange(0, i + 1);
        assert(sub.drop_last() =~= arms@.subrange(0, i as int));
        assert(sub[sub.len() - 1] == arms@[i as int]);
        let ghost o1 = out@;
        push_indent(out, pad);
        push_str(out, kw);
        print_expr(out, &arms[i].0, PREC_LOWEST);
        push_str(out, ":\n");
        assert(out@ =~= o1 + (indent(pad as nat) + kw@ + expr_text(arms@[i as int].0, 0) + ":\n"@));
        print_block(out, &arms[i].1, inner, cursor);
        i += 1;
    }
    assert(arms@.subrange(0, arms@.len() as int) =~= arms@);
}

/// Appends a statement that has a body of its own.
fn print_nested(out: &mut String, s: &Stmt, depth: usize, cursor: &mut TriviaCursor)
    requires
        cursor_ok(*old(cursor)),
        is_nested(*s),
    ensures
        final(cursor).spec_items() == old(cursor).spec_items(),
        cursor_ok(*final(cursor)),
        at(*final(cursor), final(out)@) == stmt_body(
            old(cursor).spec_items(),
            at(*old(cursor), old(out)@),
            *s,
            depth as nat,
        ),
    decreases s, 1int,
{
    match s {
        Stmt::If { .. } | Stmt::Choice { .. } => print_branching(out, s, depth, cursor),
        Stmt::Decl { .. } | Stmt::FunctionDecl { .. } => print_declaration(out, s, depth, cursor),
        _ => print_headed(out, s, depth, cursor),
    }
}

/// `if` and `choice`: a header and arms.
fn print_branching(out: &mut String, s: &Stmt, depth: usize, cursor: &mut TriviaCursor)
    requires
        cursor_ok(*old(cursor)),
        s is If || s is Choice,
    ensures
        final(cursor).spec_items() == old(cursor).spec_items(),
        cursor_ok(*final(cursor)),
        at(*final(cursor), final(out)@) == stmt_body(
            old(cursor).spec_items(),
            at(*old(cursor), old(out)@),
            *s,
            depth as nat,
        ),
    decreases s, 0int,
{
    let ghost o0 = out@;
    let inner = next_depth(depth);
    match s {
        Stmt::If { cond, then_body, elifs, else_body, .. } => {
            push_indent(out, depth);
            push_str(out, "if ");
            print_expr(out, cond, PREC_LOWEST);
            push_str(out, ":\n");
            assert(out@ =~= o0 + (indent(depth as nat) + "if "@ + expr_text(*cond, 0) + ":\n"@));
            let ghost st1 = put(at(*old(cursor), o0), indent(depth as nat) + "if "@ + expr_text(*cond, 0) + ":\n"@);
            assert(at(*cursor, out@) == st1);
            print_block(out, then_body, inner, cursor);
            let ghost a = block_out(old(cursor).spec_items(), st1, then_body@, deeper(depth as nat));
            assert(at(*cursor, out@) == a);
            print_arms(out, elifs, depth, "elif ", cursor);
            let ghost b = arms_out(old(cursor).spec_items(), a, elifs@, depth as nat, "elif "@);
            assert(at(*cursor, out@) == b);
            match else_body {
                Some(eb) => {
                    let ghost o1 = out@;
                    push_indent(out, depth);
                    push_str(out, "else:\n");
                    assert(out@ =~= o1 + (indent(depth as nat) + "else:\n"@));
                    print_block(out, eb, inner, cursor);
                    assert(at(*cursor, out@) == block_out(
                        old(cursor).spec_items(),
                        put(b, indent(depth as nat) + "else:\n"@),
                        eb@,
                        deeper(depth as nat),
                    ));
                },
                None => {},
            }
            assert(at(*cursor, out@) == stmt_body(old(cursor).spec_items(), at(*old(cursor), o0), *s, depth as nat));
        },
        Stmt::Choice { branches, .. } => {
            push_indent(out, depth);
            push_str(out, "choice:\n");
            assert(out@ =~= o0 + (indent(depth as nat) + "choice:\n"@));
            proof {
                reveal_strlit("");
                assert(""@ =~= Seq::<char>::empty());
            }
            print_arms(out, branches, inner, "", cursor);
        },
        _ => {},
    }
}

/// Declarations and functions, after their `@deprecated` line.
fn print_declaration(out: &mut String, s: &Stmt, depth: usize, cursor: &mut TriviaCursor)
    requires
        cursor_ok(*old(cursor)),
        s is Decl || s is FunctionDecl,
    ensures
        final(cursor).spec_items() == old(cursor).spec_items(),
        cursor_ok(*final(cursor)),
        at(*final(cursor), final(out)@) == stmt_body(
            old(cursor).spec_items(),
            at(*old(cursor), old(out)@),
            *s,
            depth as nat,
        ),
    decreases s, 0int,
{
    let ghost o0 = out@;
    let inner = next_depth(depth);
    match s {
        Stmt::Decl { kind, name, parent, members, deprecation, .. } => {
            print_dep(out, depth, deprecation);
            push_indent(out, depth);
            push_str(out, decl_kind_str(*kind));
            push_str(out, " ");
            push_str(out, name.as_str());
            print_opt_name(out, " extends ", parent);
            push_str(out, ":\n");
            assert(out@ =~= o0 + (dep_text(depth as nat, *deprecation) + indent(depth as nat) + decl_kind_text(*kind)
                + " "@ + name@ + opt_name(" extends "@, *parent) + ":\n"@));
            print_decl_members(out, members, inner, cursor);
        },
        Stmt::FunctionDecl { name, params, ret, body, deprecation, .. } => {
            print_dep(out, depth, deprecation);
            push_indent(out, depth);
            push_str(out, "function ");
            push_str(out, name.as_str());
            push_str(out, "(");
            push_params(out, params);
            push_str(out, ")");
            push_ret(out, ret);
            push_str(out, ":\n");
            assert(out@ =~= o0 + (dep_text(depth as nat, *deprecation) + indent(depth as nat) + "function "@ + name@
                + "("@ + params_text(params@) + ")"@ + ret_text(*ret) + ":\n"@));
            print_block(out, body, inner, cursor);
        },
        _ => {},
    }
}

/// The other statements with a body: one header line, then the body.
#[verifier::rlimit(30)]
fn print_headed(out: &mut String, s: &Stmt, depth: usize, cursor: &mut TriviaCursor)
    requires
        cursor_ok(*old(cursor)),
        s is OnUpdate || s is OnRender || s is OnClassEvent || s is While || s is For || s is DialogueDecl,
    ensures
        final(cursor).spec_items() == old(cursor).spec_items(),
        cursor_ok(*final(cursor)),
        at(*final(cursor), final(out)@) == stmt_body(
            old(cursor).spec_items(),
            at(*old(cursor), old(out)@),
            *s,
            depth as nat,
        ),
    decreases s, 0int,
{
    let ghost o0 = out@;
    let inner = next_depth(depth);
    match s {
        Stmt::OnUpdate { param, body, .. } => {
            push_indent(out, depth);
            push_str(out, "on update(");
            push_str(out, param.as_str());
            push_str(out, "):\n");
            assert(out@ =~= o0 + (indent(depth as nat) + "on update("@ + param@ + "):\n"@));
            print_block(out, body, inner, cursor);
        },
        Stmt::OnRender { body, .. } => {
            push_indent(out, depth);
            push_str(out, "on render():\n");
            assert(out@ =~= o0 + (indent(depth as nat) + "on render():\n"@));
            print_block(out, body, inner, cursor);
        },
        Stmt::OnClassEvent { class, event, param, body, .. } => {
            push_indent(out, depth);
            push_str(out, "on ");
            push_str(out, class.as_str());
            push_str(out, ".");
            push_str(out, event.as_str());
            push_str(out, "(");
            push_str(out, param.as_str());
            push_str(out, "):\n");
            assert(out@ =~= o0 + (indent(depth as nat) + "on "@ + class@ + "."@ + event@ + "("@ + param@ + "):\n"@));
            print_block(out, body, inner, cursor);
        },
        Stmt::While { cond, body, .. } => {
            push_indent(out, depth);
            push_str(out, "while ");
            print_expr(out, cond, PREC_LOWEST);
            push_str(out, ":\n");
            assert(out@ =~= o0 + (indent(depth as nat) + "while "@ + expr_text(*cond, 0) + ":\n"@));
            print_block(out, body, inner, cursor);
        },
        Stmt::For { var, iter, body, .. } => {
            push_indent(out, depth);
            push_str(out, "for ");
            push_str(out, var.as_str());
            push_str(out, " in ");
            print_expr(out, iter, PREC_LOWEST);
            push_str(out, ":\n");
            assert(out@ =~= o0 + (indent(depth as nat) + "for "@ + var@ + " in "@ + expr_text(*iter, 0) + ":\n"@));
            print_block(out, body, inner, cursor);
        },
        Stmt::DialogueDecl { name, body, .. } => {
            push_indent(out, depth);
            push_str(out, "dialogue ");
            push_str(out, name.as_str());
            push_str(out, ":\n");
            assert(out@ =~= o0 + (indent(depth as nat) + "dialogue "@ + name@ + ":\n"@));
            print_block(out, body, inner, cursor);
        },
        _ => {},
    }
}

/// Appends a declaration's members at `depth`, a blank line before each
/// method or state after the first member.
fn print_decl_members(out: &mut String, ms: &Vec<DeclMember>, depth: usize, cursor: &mut TriviaCursor)
    requires
        cursor_ok(*old(cursor)),
    ensures
        final(cursor).spec_items() == old(cursor).spec_items(),
        cursor_ok(*final(cursor)),
        at(*final(cursor), final(out)@) == decl_members_out(
            old(cursor).spec_items(),
            at(*old(cursor), old(out)@),
            ms@,
            depth as nat,
        ),
    decreases ms@, 0int,
{
    let ghost items = cursor.spec_items();
    let ghost st0 = at(*cursor, out@);
    if ms.len() == 0 {
        let ghost o0 = out@;
        push_indent(out, depth);
        push_str(out, "0\n");
        assert(out@ =~= o0 + (indent(depth as nat) + "0\n"@));
        return;
    }
    let mut i: usize = 0;
    while i < ms.len()
        invariant
            i <= ms@.len(),
            cursor.spec_items() == items,
            cursor_ok(*cursor),
            at(*cursor, out@) == members_out(items, st0, ms@.subrange(0, i as int), depth as nat),
        decreases ms.len() - i,
    {
        let ghost sub = ms@.subrange(0, i + 1);
        assert(sub.drop_last() =~= ms@.subrange(0, i as int));
        assert(sub[sub.len() - 1] == ms@[i as int]);
        let m = &ms[i];
        cursor.flush_through(out, decl_member_line(m), depth);
        let ghost a = at(*cursor, out@);
        if i > 0 && decl_member_blank(m) && !ends_in_blank_line(out) && !is_empty_string(out) {
            push_char(out, '\n');
        }
        assert(out@ =~= blank_if(a, sub.len() > 1 && member_takes_blank(ms@[i as int])).1);
        print_member(out, m, depth, cursor);
        i += 1;
    }
    assert(ms@.subrange(0, ms@.len() as int) =~= ms@);
}

fn decl_member_line(m: &DeclMember) -> (r: u32)
    ensures
        r as int == member_line(*m),
{
    match m {
        DeclMember::Field { line, .. } => *line,
        DeclMember::Method { line, .. } => *line,
        DeclMember::InitialState { line, .. } => *line,
        DeclMember::State { line, .. } => *line,
    }
}

fn decl_member_blank(m: &DeclMember) -> (r: bool)
    ensures
        r == member_takes_blank(*m),
{
    match m {
        DeclMember::Field { .. } => false,
        _ => true,
    }
}

fn print_member(out: &mut String, m: &DeclMember, depth: usize, cursor: &mut TriviaCursor)
    requires
        cursor_ok(*old(cursor)),
    ensures
        final(cursor).spec_items() == old(cursor).spec_items(),
        cursor_ok(*final(cursor)),
        at(*final(cursor), final(out)@) == member_out(
            old(cursor).spec_items(),
            at(*old(cursor), old(out)@),
            *m,
            depth as nat,
        ),
    decreases m, 0int,
{
    let ghost o0 = out@;
    let inner = next_depth(depth);
    push_indent(out, depth);
    match m {
        DeclMember::Field { name, value, ty, .. } => {
            push_str(out, name.as_str());
            push_str(out, ": ");
            match ty {
                Some(t) => {
                    push_str(out, t.as_str());
                    push_str(out, " = ");
                },
                None => {},
            }
            print_expr(out, value, PREC_LOWEST);
            push_char(out, '\n');
            assert(out@ =~= o0 + (indent(depth as nat) + name@ + ": "@ + match *ty {
                Some(t) => t@ + " = "@,
                None => Seq::empty(),
            } + expr_text(*value, 0) + nl()));
        },
        DeclMember::Method { name, params, ret, body, .. } => {
            push_str(out, name.as_str());
            push_str(out, "(");
            push_params(out, params);
            push_str(out, ")");
            push_ret(out, ret);
            push_str(out, ":\n");
            assert(out@ =~= o0 + (indent(depth as nat) + name@ + "("@ + params_text(params@) + ")"@ + ret_text(*ret)
                + ":\n"@));
            print_block(out, body, inner, cursor);
        },
        DeclMember::InitialState { name, .. } => {
            push_str(out, "initial: ");
            push_str(out, name.as_str());
            push_char(out, '\n');
            assert(out@ =~= o0 + (indent(depth as nat) + "initial: "@ + name@ + nl()));
        },
        DeclMember::State { name, members, .. } => {
            push_str(out, "state ");
            push_str(out, name.as_str());
            push_str(out, ":\n");
            assert(out@ =~= o0 + (indent(depth as nat) + "state "@ + name@ + ":\n"@));
            print_state_members(out, members, inner, cursor);
        },
    }
}

/// Appends a state's members at `depth`, a blank line before each
/// handler after the first member.
fn print_state_members(out: &mut String, ms: &Vec<StateMember>, depth: usize, cursor: &mut TriviaCursor)
    requires
        cursor_ok(*old(cursor)),
    ensures
        final(cursor).spec_items() == old(cursor).spec_items(),
        cursor_ok(*final(cursor)),
        at(*final(cursor), final(out)@) == state_members_out(
            old(cursor).spec_items(),
            at(*old(cursor), old(out)@),
            ms@,
            depth as nat,
        ),
    decreases ms@, 0int,
{
    let ghost items = cursor.spec_items();
    let ghost st0 = at(*cursor, out@);
    let mut i: usize = 0;
    while i < ms.len()
        invariant
            i <= ms@.len(),
            cursor.spec_items() == items,
            cursor_ok(*cursor),
            at(*cursor, out@) == state_members_out(items, st0, ms@.subrange(0, i as int), depth as nat),
        decreases ms.len() - i,
    {
        let ghost sub = ms@.subrange(0, i + 1);
        assert(sub.drop_last() =~= ms@.subrange(0, i as int));
        assert(sub[sub.len() - 1] == ms@[i as int]);
        let m = &ms[i];
        cursor.flush_through(out, state_member_line_of(m), depth);
        let ghost a = at(*cursor, out@);
        if i > 0 && state_member_blank(m) && !ends_in_blank_line(out) && !is_empty_string(out) {
            push_char(out, '\n');
        }
        assert(out@ =~= blank_if(a, sub.len() > 1 && state_member_takes_blank(ms@[i as int])).1);
        print_state_member(out, m, depth, cursor);
        i += 1;
    }
    assert(ms@.subrange(0, ms@.len() as int) =~= ms@);
}

fn state_member_line_of(m: &StateMember) -> (r: u32)
    ensures
        r as int == state_member_line(*m),
{
    match m {
        StateMember::Stmt(s) => stmt_line(s),
        StateMember::Every { line, .. } => *line,
        StateMember::OnRender { line, .. } => *line,
        StateMember::OnKeyPress { line, .. } => *line,
        StateMember::OnUpdate { line, .. } => *line,
        StateMember::OnPredicate { line, .. } => *line,
    }
}

fn state_member_blank(m: &StateMember) -> (r: bool)
    ensures
        r == state_member_takes_blank(*m),
{
    match m {
        StateMember::Stmt(_) | StateMember::OnPredicate { .. } => false,
        _ => true,
    }
}

fn print_state_member(out: &mut String, m: &StateMember, depth: usize, cursor: &mut TriviaCursor)
    requires
        cursor_ok(*old(cursor)),
    ensures
        final(cursor).spec_items() == old(cursor).spec_items(),
        cursor_ok(*final(cursor)),
        at(*final(cursor), final(out)@) == state_member_out(
            old(cursor).spec_items(),
            at(*old(cursor), old(out)@),
            *m,
            depth as nat,
        ),
    decreases m, 0int,
{
    let ghost o0 = out@;
    let inner = next_depth(depth);
    match m {
        StateMember::Stmt(s) => print_stmt(out, s, depth, cursor),
        StateMember::Every { interval, body, .. } => {
            push_indent(out, depth);
            push_str(out, "every ");
            print_expr(out, interval, PREC_LOWEST);
            push_str(out, ":\n");
            assert(out@ =~= o0 + (indent(depth as nat) + "every "@ + expr_text(*interval, 0) + ":\n"@));
            print_block(out, body, inner, cursor);
        },
        StateMember::OnRender { body, .. } => {
            push_indent(out, depth);
            push_str(out, "on render():\n");
            assert(out@ =~= o0 + (indent(depth as nat) + "on render():\n"@));
            print_block(out, body, inner, cursor);
        },
        StateMember::OnKeyPress { key, body, .. } => {
            push_indent(out, depth);
            push_str(out, "on key_press.");
            push_str(out, key.as_str());
            push_str(out, ":\n");
            assert(out@ =~= o0 + (indent(depth as nat) + "on key_press."@ + key@ + ":\n"@));
            print_block(out, body, inner, cursor);
        },
        StateMember::OnUpdate { param, body, .. } => {
            push_indent(out, depth);
            push_str(out, "on update(");
            push_str(out, param.as_str());
            push_str(out, "):\n");
            assert(out@ =~= o0 + (indent(depth as nat) + "on update("@ + param@ + "):\n"@));
            print_block(out, body, inner, cursor);
        },
        StateMember::OnPredicate { predicate, body, .. } => {
            push_indent(out, depth);
            push_str(out, "on ");
            print_expr(out, predicate, PREC_LOWEST);
            push_str(out, ":\n");
            assert(out@ =~= o0 + (indent(depth as nat) + "on "@ + expr_text(*predicate, 0) + ":\n"@));
            print_block(out, body, inner, cursor);
        },
    }
}

// ---------------------------------------------------------------------------
// Whole programs
// ---------------------------------------------------------------------------

/// Top-level declarations, functions and handlers are set off from their
/// neighbours by a blank line.
pub open spec fn takes_blank_neighbor(s: Stmt) -> bool {
    s is Decl || s is FunctionDecl || s is OnUpdate || s is OnRender || s is OnClassEvent
}

/// The output after the top-level statements `ss`.
pub open spec fn program_fold(items: Items, st: Out, ss: Seq<Stmt>) -> Out
    decreases ss.len(),
{
    if ss.len() == 0 {
        st
    } else {
        let s = ss[ss.len() - 1];
        let a = flush_to(items, program_fold(items, st, ss.drop_last()), line_of(s), 0);
        stmt_out(
            items,
            blank_if(a, ss.len() > 1 && (takes_blank_neighbor(s) || takes_blank_neighbor(ss[ss.len() - 2]))),
            s,
            0,
        )
    }
}

/// `s` without the trailing run of blank lines.
pub open spec fn drop_blank_tail(s: Seq<char>) -> Seq<char>
    decreases s.len(),
{
    if ends_with_blank(s) {
        drop_blank_tail(s.drop_last())
    } else {
        s
    }
}

/// The formatted program, with the trivia `items` re-emitted: each
/// statement after the trivia before its line, the trivia left at the end
/// after the last, and no blank line at the very end.
pub open spec fn program_out(items: Items, ss: Seq<Stmt>) -> Seq<char> {
    drop_blank_tail(flush_to(items, program_fold(items, (0, Seq::empty()), ss), u32::MAX as int, 0).1)
}

/// The canonical text of a program, without comments or blank lines
/// from any source.
pub open spec fn program_text(ss: Seq<Stmt>) -> Seq<char> {
    program_out(Seq::empty(), ss)
}

/// The canonical text of a program with the source's trivia kept.
pub open spec fn program_text_with_trivia(ss: Seq<Stmt>, trivia: Items) -> Seq<char> {
    program_out(trivia, ss)
}

proof fn lemma_drop_blank_tail(s: Seq<char>)
    ensures
        !ends_with_blank(drop_blank_tail(s)),
    decreases s.len(),
{
    if ends_with_blank(s) {
        lemma_drop_blank_tail(s.drop_last());
    }
}

/// The formatted text never ends in a blank line, with or without trivia.
pub proof fn law_no_blank_line_at_end(ss: Seq<Stmt>, trivia: Items)
    ensures
        !ends_with_blank(program_text(ss)),
        !ends_with_blank(program_text_with_trivia(ss, trivia)),
{
    lemma_drop_blank_tail(flush_to(Seq::empty(), program_fold(Seq::empty(), (0, Seq::empty()), ss), u32::MAX as int, 0).1);
    lemma_drop_blank_tail(flush_to(trivia, program_fold(trivia, (0, Seq::empty()), ss), u32::MAX as int, 0).1);
}

pub(crate) fn top_level_blank(s: &Stmt) -> (r: bool)
    ensures
        r == takes_blank_neighbor(*s),
{
    match s {
        Stmt::Decl { .. } | Stmt::FunctionDecl { .. } | Stmt::OnUpdate { .. } | Stmt::OnRender { .. }
        | Stmt::OnClassEvent { .. } => true,
        _ => false,
    }
}

/// `out` without its trailing run of blank lines.
pub(crate) fn without_blank_tail(out: &String) -> (r: String)
    ensures
        r@ == drop_blank_tail(out@),
{
    let v = chars_of(out.as_str());
    let mut n: usize = v.len();
    assert(v@.subrange(0, n as int) =~= v@);
    while n >= 2 && v[n - 1] == '\n' && v[n - 2] == '\n'
        invariant
            n <= v@.len(),
            v@ == out@,
            drop_blank_tail(v@) == drop_blank_tail(v@.subrange(0, n as int)),
        decreases n,
    {
        assert(v@.subrange(0, n - 1) =~= v@.subrange(0, n as int).drop_last());
        n -= 1;
    }
    let kept = slice_vec(&v, 0, n);
    string_of(&kept)
}

// ---------------------------------------------------------------------------
// Every printed piece ends a line
// ---------------------------------------------------------------------------

/// The output so far is not empty and ends with a newline.
pub open spec fn ends_line(st: Out) -> bool {
    st.1.len() > 0 && st.1.last() == '\n'
}

proof fn lemma_put_line(st: Out, a: Seq<char>, b: Seq<char>)
    requires
        b.len() > 0,
        b.last() == '\n',
    ensures
        ends_line(put(st, a + b)),
{
    assert((st.1 + (a + b)).last() == (a + b).last());
}

proof fn lemma_literals()
    ensures
        ":\n"@.len() > 0 && ":\n"@.last() == '\n',
        "):\n"@.len() > 0 && "):\n"@.last() == '\n',
        "0\n"@.len() > 0 && "0\n"@.last() == '\n',
        "break\n"@.len() > 0 && "break\n"@.last() == '\n',
        "continue\n"@.len() > 0 && "continue\n"@.last() == '\n',
        "else:\n"@.len() > 0 && "else:\n"@.last() == '\n',
        "choice:\n"@.len() > 0 && "choice:\n"@.last() == '\n',
        "on render():\n"@.len() > 0 && "on render():\n"@.last() == '\n',
{
    reveal_strlit(":\n");
    reveal_strlit("):\n");
    reveal_strlit("0\n");
    reveal_strlit("break\n");
    reveal_strlit("continue\n");
    reveal_strlit("else:\n");
    reveal_strlit("choice:\n");
    reveal_strlit("on render():\n");
}

proof fn lemma_flush_keeps_line(items: Items, next: int, out: Seq<char>, target: int, depth: nat)
    requires
        out.len() > 0,
        out.last() == '\n',
    ensures
        ends_line(flush(items, next, out, target, depth)),
    decreases items.len() - next,
{
    if next < 0 || next >= items.len() || items[next].0 >= target {
    } else {
        let o = emit(out, items[next].1, items[next].2, depth);
        if items[next].1 == 0 {
        } else if items[next].1 == 1 {
            assert(o.last() == '\n');
        } else {
            assert(o.last() == '\n');
        }
        lemma_flush_keeps_line(items, next + 1, o, target, depth);
    }
}

proof fn lemma_stmt_line(items: Items, st: Out, s: Stmt, depth: nat)
    ensures
        ends_line(stmt_out(items, st, s, depth)),
    decreases s, 1int,
{
    lemma_body_line(items, flush_to(items, st, line_of(s), depth), s, depth);
}

proof fn lemma_body_line(items: Items, st: Out, s: Stmt, depth: nat)
    ensures
        ends_line(stmt_body(items, st, s, depth)),
    decreases s, 0int,
{
    lemma_literals();
    let ind = indent(depth);
    match s {
        Stmt::If { cond, then_body, elifs, else_body, .. } => {
            let a = block_out(items, put(st, ind + "if "@ + expr_text(cond, 0) + ":\n"@), then_body@, deeper(depth));
            lemma_block_line(items, put(st, ind + "if "@ + expr_text(cond, 0) + ":\n"@), then_body@, deeper(depth));
            lemma_arms_line(items, a, elifs@, depth, "elif "@);
            match else_body {
                Some(eb) => {
                    let b = arms_out(items, a, elifs@, depth, "elif "@);
                    lemma_block_line(items, put(b, ind + "else:\n"@), eb@, deeper(depth));
                },
                None => {},
            }
        },
        Stmt::OnUpdate { param, body, .. } => lemma_block_line(
            items,
            put(st, ind + "on update("@ + param@ + "):\n"@),
            body@,
            deeper(depth),
        ),
        Stmt::OnRender { body, .. } => lemma_block_line(items, put(st, ind + "on render():\n"@), body@, deeper(depth)),
        Stmt::OnClassEvent { class, event, param, body, .. } => lemma_block_line(
            items,
            put(st, ind + "on "@ + class@ + "."@ + event@ + "("@ + param@ + "):\n"@),
            body@,
            deeper(depth),
        ),
        Stmt::Decl { kind, name, parent, members, deprecation, .. } => lemma_decl_members_line(
            items,
            put(
                st,
                dep_text(depth, deprecation) + ind + decl_kind_text(kind) + " "@ + name@ + opt_name(" extends "@, parent)
                    + ":\n"@,
            ),
            members@,
            deeper(depth),
        ),
        Stmt::FunctionDecl { name, params, ret, body, deprecation, .. } => lemma_block_line(
            items,
            put(
                st,
                dep_text(depth, deprecation) + ind + "function "@ + name@ + "("@ + params_text(params@) + ")"@
                    + ret_text(ret) + ":\n"@,
            ),
            body@,
            deeper(depth),
        ),
        Stmt::While { cond, body, .. } => lemma_block_line(
            items,
            put(st, ind + "while "@ + expr_text(cond, 0) + ":\n"@),
            body@,
            deeper(depth),
        ),
        Stmt::For { var, iter, body, .. } => lemma_block_line(
            items,
            put(st, ind + "for "@ + var@ + " in "@ + expr_text(iter, 0) + ":\n"@),
            body@,
            deeper(depth),
        ),
        Stmt::DialogueDecl { name, body, .. } => lemma_block_line(
            items,
            put(st, ind + "dialogue "@ + name@ + ":\n"@),
            body@,
            deeper(depth),
        ),
        Stmt::Choice { branches, .. } => {
            lemma_put_line(st, ind, "choice:\n"@);
            lemma_arms_line(items, put(st, ind + "choice:\n"@), branches@, deeper(depth), Seq::empty());
        },
        _ => {
            let t = leaf_text(s, depth);
            assert(t.len() > 0 && t.last() == '\n');
            assert((st.1 + t).last() == t.last());
        },
    }
}

proof fn lemma_block_line(items: Items, st: Out, ss: Seq<Stmt>, depth: nat)
    ensures
        ends_line(block_out(items, st, ss, depth)),
    decreases ss, 1int,
{
    lemma_literals();
    if ss.len() == 0 {
        lemma_put_line(st, indent(depth), "0\n"@);
    } else {
        lemma_stmts_line(items, st, ss, depth);
    }
}

proof fn lemma_stmts_line(items: Items, st: Out, ss: Seq<Stmt>, depth: nat)
    requires
        ss.len() > 0,
    ensures
        ends_line(stmts_out(items, st, ss, depth)),
    decreases ss, 0int,
{
    lemma_stmt_line(items, stmts_out(items, st, ss.drop_last(), depth), ss[ss.len() - 1], depth);
}

proof fn lemma_arms_line(items: Items, st: Out, arms: Seq<(Expr, Vec<Stmt>)>, pad: nat, kw: Seq<char>)
    requires
        ends_line(st),
    ensures
        ends_line(arms_out(items, st, arms, pad, kw)),
    decreases arms, 0int,
{
    if arms.len() > 0 {
        let a = arms_out(items, st, arms.drop_last(), pad, kw);
        lemma_block_line(
            items,
            put(a, indent(pad) + kw + expr_text(arms[arms.len() - 1].0, 0) + ":\n"@),
            arms[arms.len() - 1].1@,
            deeper(pad),
        );
    }
}

proof fn lemma_decl_members_line(items: Items, st: Out, ms: Seq<DeclMember>, depth: nat)
    ensures
        ends_line(decl_members_out(items, st, ms, depth)),
    decreases ms, 1int,
{
    lemma_literals();
    if ms.len() == 0 {
        lemma_put_line(st, indent(depth), "0\n"@);
    } else {
        let m = ms[ms.len() - 1];
        let a = flush_to(items, members_out(items, st, ms.drop_last(), depth), member_line(m), depth);
        lemma_member_line(items, blank_if(a, ms.len() > 1 && member_takes_blank(m)), m, depth);
    }
}

proof fn lemma_member_line(items: Items, st: Out, m: DeclMember, depth: nat)
    ensures
        ends_line(member_out(items, st, m, depth)),
    decreases m, 0int,
{
    lemma_literals();
    let ind = indent(depth);
    match m {
        DeclMember::Method { name, params, ret, body, .. } => lemma_block_line(
            items,
            put(st, ind + name@ + "("@ + params_text(params@) + ")"@ + ret_text(ret) + ":\n"@),
            body@,
            deeper(depth),
        ),
        DeclMember::State { name, members, .. } => {
            lemma_put_line(st, ind + "state "@ + name@, ":\n"@);
            assert(ind + "state "@ + name@ + ":\n"@ =~= (ind + "state "@ + name@) + ":\n"@);
            lemma_state_members_line(items, put(st, ind + "state "@ + name@ + ":\n"@), members@, deeper(depth));
        },
        _ => {},
    }
}

proof fn lemma_state_members_line(items: Items, st: Out, ms: Seq<StateMember>, depth: nat)
    requires
        ends_line(st),
    ensures
        ends_line(state_members_out(items, st, ms, depth)),
    decreases ms, 0int,
{
    if ms.len() > 0 {
        let m = ms[ms.len() - 1];
        let a = flush_to(items, state_members_out(items, st, ms.drop_last(), depth), state_member_line(m), depth);
        lemma_state_member_line(items, blank_if(a, ms.len() > 1 && state_member_takes_blank(m)), m, depth);
    }
}

proof fn lemma_state_member_line(items: Items, st: Out, m: StateMember, depth: nat)
    ensures
        ends_line(state_member_out(items, st, m, depth)),
    decreases m, 0int,
{
    let ind = indent(depth);
    match m {
        StateMember::Stmt(s) => lemma_stmt_line(items, st, s, depth),
        StateMember::Every { interval, body, .. } => lemma_block_line(
            items,
            put(st, ind + "every "@ + expr_text(interval, 0) + ":\n"@),
            body@,
            deeper(depth),
        ),
        StateMember::OnRender { body, .. } => lemma_block_line(items, put(st, ind + "on render():\n"@), body@, deeper(depth)),
        StateMember::OnKeyPress { key, body, .. } => lemma_block_line(
            items,
            put(st, ind + "on key_press."@ + key@ + ":\n"@),
            body@,
            deeper(depth),
        ),
        StateMember::OnUpdate { param, body, .. } => lemma_block_line(
            items,
            put(st, ind + "on update("@ + param@ + "):\n"@),
            body@,
            deeper(depth),
        ),
        StateMember::OnPredicate { predicate, body, .. } => lemma_block_line(
            items,
            put(st, ind + "on "@ + expr_text(predicate, 0) + ":\n"@),
            body@,
            deeper(depth),
        ),
    }
}

proof fn lemma_drop_tail_keeps_line(s: Seq<char>)
    requires
        s.len() > 0,
        s.last() == '\n',
    ensures
        drop_blank_tail(s).len() > 0,
        drop_blank_tail(s).last() == '\n',
    decreases s.len(),
{
    if ends_with_blank(s) {
        lemma_drop_tail_keeps_line(s.drop_last());
    }
}

/// A formatted program is empty exactly when the program has no
/// statements; otherwise it ends with a newline. With trivia, a program
/// with statements also ends with a newline.
pub proof fn law_program_text_ends_lines(ss: Seq<Stmt>, trivia: Items)
    ensures
        (program_text(ss) == Seq::<char>::empty()) <==> ss.len() == 0,
        ss.len() > 0 ==> program_text(ss).last() == '\n',
        ss.len() > 0 ==> program_text_with_trivia(ss, trivia).len() > 0 && program_text_with_trivia(
            ss,
            trivia,
        ).last() == '\n',
{
    if ss.len() == 0 {
        assert(program_text(ss) =~= Seq::<char>::empty());
    } else {
        lemma_program_out_line(Seq::empty(), ss);
        lemma_program_out_line(trivia, ss);
    }
}

proof fn lemma_program_out_line(items: Items, ss: Seq<Stmt>)
    requires
        ss.len() > 0,
    ensures
        program_out(items, ss).len() > 0,
        program_out(items, ss).last() == '\n',
{
    let s = ss[ss.len() - 1];
    let a = flush_to(items, program_fold(items, (0, Seq::empty()), ss.drop_last()), line_of(s), 0);
    let b = blank_if(a, ss.len() > 1 && (takes_blank_neighbor(s) || takes_blank_neighbor(ss[ss.len() - 2])));
    lemma_stmt_line(items, b, s, 0);
    let f = program_fold(items, (0, Seq::empty()), ss);
    lemma_flush_keeps_line(items, f.0, f.1, u32::MAX as int, 0);
    lemma_drop_tail_keeps_line(flush_to(items, f, u32::MAX as int, 0).1);
}

// ---------------------------------------------------------------------------
// Every piece of trivia is emitted
// ---------------------------------------------------------------------------

pub open spec fn in_range(items: Items, st: Out) -> bool {
    0 <= st.0 <= items.len()
}

proof fn lemma_flush_index(items: Items, next: int, out: Seq<char>, target: int, depth: nat)
    requires
        0 <= next <= items.len(),
    ensures
        next <= flush(items, next, out, target, depth).0 <= items.len(),
        (forall|k: int| next <= k < items.len() ==> (#[trigger] items[k]).0 < target) ==> flush(
            items,
            next,
            out,
            target,
            depth,
        ).0 == items.len(),
    decreases items.len() - next,
{
    if next < 0 || next >= items.len() || items[next].0 >= target {
    } else {
        lemma_flush_index(items, next + 1, emit(out, items[next].1, items[next].2, depth), target, depth);
    }
}

proof fn lemma_stmt_index(items: Items, st: Out, s: Stmt, depth: nat)
    requires
        in_range(items, st),
    ensures
        in_range(items, stmt_out(items, st, s, depth)),
    decreases s, 1int,
{
    lemma_flush_index(items, st.0, st.1, line_of(s), depth);
    lemma_body_index(items, flush_to(items, st, line_of(s), depth), s, depth);
}

proof fn lemma_body_index(items: Items, st: Out, s: Stmt, depth: nat)
    requires
        in_range(items, st),
    ensures
        in_range(items, stmt_body(items, st, s, depth)),
    decreases s, 0int,
{
    let ind = indent(depth);
    match s {
        Stmt::If { cond, then_body, elifs, else_body, .. } => {
            let a = block_out(items, put(st, ind + "if "@ + expr_text(cond, 0) + ":\n"@), then_body@, deeper(depth));
            lemma_block_index(items, put(st, ind + "if "@ + expr_text(cond, 0) + ":\n"@), then_body@, deeper(depth));
            lemma_arms_index(items, a, elifs@, depth, "elif "@);
            match else_body {
                Some(eb) => {
                    let b = arms_out(items, a, elifs@, depth, "elif "@);
                    lemma_block_index(items, put(b, ind + "else:\n"@), eb@, deeper(depth));
                },
                None => {},
            }
        },
        Stmt::OnUpdate { param, body, .. } => lemma_block_index(
            items,
            put(st, ind + "on update("@ + param@ + "):\n"@),
            body@,
            deeper(depth),
        ),
        Stmt::OnRender { body, .. } => lemma_block_index(items, put(st, ind + "on render():\n"@), body@, deeper(depth)),
        Stmt::OnClassEvent { class, event, param, body, .. } => lemma_block_index(
            items,
            put(st, ind + "on "@ + class@ + "."@ + event@ + "("@ + param@ + "):\n"@),
            body@,
            deeper(depth),
        ),
        Stmt::Decl { kind, name, parent, members, deprecation, .. } => lemma_decl_members_index(
            items,
            put(
                st,
                dep_text(depth, deprecation) + ind + decl_kind_text(kind) + " "@ + name@ + opt_name(" extends "@, parent)
                    + ":\n"@,
            ),
            members@,
            deeper(depth),
        ),
        Stmt::FunctionDecl { name, params, ret, body, deprecation, .. } => lemma_block_index(
            items,
            put(
                st,
                dep_text(depth, deprecation) + ind + "function "@ + name@ + "("@ + params_text(params@) + ")"@
                    + ret_text(ret) + ":\n"@,
            ),
            body@,
            deeper(depth),
        ),
        Stmt::While { cond, body, .. } => lemma_block_index(
            items,
            put(st, ind + "while "@ + expr_text(cond, 0) + ":\n"@),
            body@,
            deeper(depth),
        ),
        Stmt::For { var, iter, body, .. } => lemma_block_index(
            items,
            put(st, ind + "for "@ + var@ + " in "@ + expr_text(iter, 0) + ":\n"@),
            body@,
            deeper(depth),
        ),
        Stmt::DialogueDecl { name, body, .. } => lemma_block_index(
            items,
            put(st, ind + "dialogue "@ + name@ + ":\n"@),
            body@,
            deeper(depth),
        ),
        Stmt::Choice { branches, .. } => lemma_arms_index(
            items,
            put(st, ind + "choice:\n"@),
            branches@,
            deeper(depth),
            Seq::empty(),
        ),
        _ => {},
    }
}

proof fn lemma_block_index(items: Items, st: Out, ss: Seq<Stmt>, depth: nat)
    requires
        in_range(items, st),
    ensures
        in_range(items, block_out(items, st, ss, depth)),
    decreases ss, 1int,
{
    if ss.len() > 0 {
        lemma_stmts_index(items, st, ss, depth);
    }
}

proof fn lemma_stmts_index(items: Items, st: Out, ss: Seq<Stmt>, depth: nat)
    requires
        in_range(items, st),
    ensures
        in_range(items, stmts_out(items, st, ss, depth)),
    decreases ss, 0int,
{
    if ss.len() > 0 {
        lemma_stmts_index(items, st, ss.drop_last(), depth);
        lemma_stmt_index(items, stmts_out(items, st, ss.drop_last(), depth), ss[ss.len() - 1], depth);
    }
}

proof fn lemma_arms_index(items: Items, st: Out, arms: Seq<(Expr, Vec<Stmt>)>, pad: nat, kw: Seq<char>)
    requires
        in_range(items, st),
    ensures
        in_range(items, arms_out(items, st, arms, pad, kw)),
    decreases arms, 0int,
{
    if arms.len() > 0 {
        lemma_arms_index(items, st, arms.drop_last(), pad, kw);
        let a = arms_out(items, st, arms.drop_last(), pad, kw);
        lemma_block_index(
            items,
            put(a, indent(pad) + kw + expr_text(arms[arms.len() - 1].0, 0) + ":\n"@),
            arms[arms.len() - 1].1@,
            deeper(pad),
        );
    }
}

proof fn lemma_decl_members_index(items: Items, st: Out, ms: Seq<DeclMember>, depth: nat)
    requires
        in_range(items, st),
    ensures
        in_range(items, decl_members_out(items, st, ms, depth)),
    decreases ms, 1int,
{
    if ms.len() > 0 {
        lemma_members_index(items, st, ms, depth);
    }
}

proof fn lemma_members_index(items: Items, st: Out, ms: Seq<DeclMember>, depth: nat)
    requires
        in_range(items, st),
    ensures
        in_range(items, members_out(items, st, ms, depth)),
    decreases ms, 0int,
{
    if ms.len() > 0 {
        let m = ms[ms.len() - 1];
        lemma_members_index(items, st, ms.drop_last(), depth);
        let a0 = members_out(items, st, ms.drop_last(), depth);
        lemma_flush_index(items, a0.0, a0.1, member_line(m), depth);
        let a = flush_to(items, a0, member_line(m), depth);
        lemma_member_index(items, blank_if(a, ms.len() > 1 && member_takes_blank(m)), m, depth);
    }
}

proof fn lemma_member_index(items: Items, st: Out, m: DeclMember, depth: nat)
    requires
        in_range(items, st),
    ensures
        in_range(items, member_out(items, st, m, depth)),
    decreases m, 0int,
{
    let ind = indent(depth);
    match m {
        DeclMember::Method { name, params, ret, body, .. } => lemma_block_index(
            items,
            put(st, ind + name@ + "("@ + params_text(params@) + ")"@ + ret_text(ret) + ":\n"@),
            body@,
            deeper(depth),
        ),
        DeclMember::State { name, members, .. } => lemma_state_members_index(
            items,
            put(st, ind + "state "@ + name@ + ":\n"@),
            members@,
            deeper(depth),
        ),
        _ => {},
    }
}

proof fn lemma_state_members_index(items: Items, st: Out, ms: Seq<StateMember>, depth: nat)
    requires
        in_range(items, st),
    ensures
        in_range(items, state_members_out(items, st, ms, depth)),
    decreases ms, 0int,
{
    if ms.len() > 0 {
        let m = ms[ms.len() - 1];
        lemma_state_members_index(items, st, ms.drop_last(), depth);
        let a0 = state_members_out(items, st, ms.drop_last(), depth);
        lemma_flush_index(items, a0.0, a0.1, state_member_line(m), depth);
        let a = flush_to(items, a0, state_member_line(m), depth);
        lemma_state_member_index(items, blank_if(a, ms.len() > 1 && state_member_takes_blank(m)), m, depth);
    }
}

proof fn lemma_state_member_index(items: Items, st: Out, m: StateMember, depth: nat)
    requires
        in_range(items, st),
    ensures
        in_range(items, state_member_out(items, st, m, depth)),
    decreases m, 0int,
{
    let ind = indent(depth);
    match m {
        StateMember::Stmt(s) => lemma_stmt_index(items, st, s, depth),
        StateMember::Every { interval, body, .. } => lemma_block_index(
            items,
            put(st, ind + "every "@ + expr_text(interval, 0) + ":\n"@),
            body@,
            deeper(depth),
        ),
        StateMember::OnRender { body, .. } => lemma_block_index(items, put(st, ind + "on render():\n"@), body@, deeper(depth)),
        StateMember::OnKeyPress { key, body, .. } => lemma_block_index(
            items,
            put(st, ind + "on key_press."@ + key@ + ":\n"@),
            body@,
            deeper(depth),
        ),
        StateMember::OnUpdate { param, body, .. } => lemma_block_index(
            items,
            put(st, ind + "on update("@ + param@ + "):\n"@),
            body@,
            deeper(depth),
        ),
        StateMember::OnPredicate { predicate, body, .. } => lemma_block_index(
            items,
            put(st, ind + "on "@ + expr_text(predicate, 0) + ":\n"@),
            body@,
            deeper(depth),
        ),
    }
}

proof fn lemma_fold_index(items: Items, ss: Seq<Stmt>)
    ensures
        in_range(items, program_fold(items, (0, Seq::empty()), ss)),
    decreases ss.len(),
{
    if ss.len() > 0 {
        let s = ss[ss.len() - 1];
        lemma_fold_index(items, ss.drop_last());
        let f = program_fold(items, (0, Seq::empty()), ss.drop_last());
        lemma_flush_index(items, f.0, f.1, line_of(s), 0);
        let a = flush_to(items, f, line_of(s), 0);
        lemma_stmt_index(
            items,
            blank_if(a, ss.len() > 1 && (takes_blank_neighbor(s) || takes_blank_neighbor(ss[ss.len() - 2]))),
            s,
            0,
        );
    }
}

/// Every trivia item whose line is before the largest line number is
/// emitted: after the last statement, the walk has gone past all of
/// them (each is emitted once, in order, as the flushes only move
/// forward).
pub proof fn law_all_trivia_emitted(ss: Seq<Stmt>, items: Items)
    requires
        forall|k: int| 0 <= k < items.len() ==> (#[trigger] items[k]).0 < u32::MAX,
    ensures
        flush_to(items, program_fold(items, (0, Seq::empty()), ss), u32::MAX as int, 0).0 == items.len(),
{
    lemma_fold_index(items, ss);
    let f = program_fold(items, (0, Seq::empty()), ss);
    lemma_flush_index(items, f.0, f.1, u32::MAX as int, 0);
}

} // verus!
