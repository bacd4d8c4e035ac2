//! The formatter's expression printer: canonical source text for an
//! expression, with the parentheses its operators' precedence needs.
use vstd::prelude::*;
use crate::ast::{BinOp, Expr, UnOp};
use crate::printer::{literal_body, print_string_literal, push_literal_body};
use crate::text::{dec, push_char, push_decimal, push_str};

verus! {

/// Precedence levels, loosest first: lowest 0, `or` 1, `and` 2, `not` 3,
/// comparisons 4, `+ -` 5, `* /` 6, ranges 7, unary minus 8, postfix 9,
/// atoms 10.
pub const PREC_LOWEST: u8 = 0;
pub const PREC_RANGE: u8 = 7;
pub const PREC_POSTFIX: u8 = 9;

pub open spec fn binop_rank(op: BinOp) -> nat {
    match op {
        BinOp::Or => 1,
        BinOp::And => 2,
        BinOp::Eq | BinOp::Neq | BinOp::Lt | BinOp::Lte | BinOp::Gt | BinOp::Gte | BinOp::In | BinOp::NotIn => 4,
        BinOp::Add | BinOp::Sub => 5,
        BinOp::Mul | BinOp::Div => 6,
    }
}

pub open spec fn binop_text(op: BinOp) -> Seq<char> {
    match op {
        BinOp::Add => "+"@,
        BinOp::Sub => "-"@,
        BinOp::Mul => "*"@,
        BinOp::Div => "/"@,
        BinOp::Eq => "=="@,
        BinOp::Neq => "!="@,
        BinOp::Lt => "<"@,
        BinOp::Gt => ">"@,
        BinOp::Lte => "<="@,
        BinOp::Gte => ">="@,
        BinOp::And => "and"@,
        BinOp::Or => "or"@,
        BinOp::In => "in"@,
        BinOp::NotIn => "not in"@,
    }
}

spec fn spelling_key(op: BinOp) -> (int, char) {
    match op {
        BinOp::Add => (1, '+'),
        BinOp::Sub => (1, '-'),
        BinOp::Mul => (1, '*'),
        BinOp::Div => (1, '/'),
        BinOp::Eq => (2, '='),
        BinOp::Neq => (2, '!'),
        BinOp::Lt => (1, '<'),
        BinOp::Gt => (1, '>'),
        BinOp::Lte => (2, '<'),
        BinOp::Gte => (2, '>'),
        BinOp::And => (3, 'a'),
        BinOp::Or => (2, 'o'),
        BinOp::In => (2, 'i'),
        BinOp::NotIn => (6, 'n'),
    }
}

proof fn lemma_spelling_key(op: BinOp)
    ensures
        binop_text(op).len() == spelling_key(op).0,
        binop_text(op)[0] == spelling_key(op).1,
{
    reveal_strlit("+");
    reveal_strlit("-");
    reveal_strlit("*");
    reveal_strlit("/");
    reveal_strlit("==");
    reveal_strlit("!=");
    reveal_strlit("<");
    reveal_strlit(">");
    reveal_strlit("<=");
    reveal_strlit(">=");
    reveal_strlit("and");
    reveal_strlit("or");
    reveal_strlit("in");
    reveal_strlit("not in");
}

/// Each binary operator is printed as its own source spelling, and no two
/// operators share one, so formatting never turns one operator into
/// another.
pub proof fn law_operator_spellings(a: BinOp, b: BinOp)
    ensures
        binop_text(BinOp::Add) == "+"@,
        binop_text(BinOp::Sub) == "-"@,
        binop_text(BinOp::Mul) == "*"@,
        binop_text(BinOp::Div) == "/"@,
        binop_text(BinOp::Eq) == "=="@,
        binop_text(BinOp::Neq) == "!="@,
        binop_text(BinOp::Lt) == "<"@,
        binop_text(BinOp::Gt) == ">"@,
        binop_text(BinOp::Lte) == "<="@,
        binop_text(BinOp::Gte) == ">="@,
        binop_text(BinOp::And) == "and"@,
        binop_text(BinOp::Or) == "or"@,
        binop_text(BinOp::In) == "in"@,
        binop_text(BinOp::NotIn) == "not in"@,
        a != b ==> binop_text(a) != binop_text(b),
{
    lemma_spelling_key(a);
    lemma_spelling_key(b);
    reveal_strlit("+");
    reveal_strlit("-");
    reveal_strlit("*");
    reveal_strlit("/");
    reveal_strlit("==");
    reveal_strlit("!=");
    reveal_strlit("<");
    reveal_strlit(">");
    reveal_strlit("<=");
    reveal_strlit(">=");
    reveal_strlit("and");
    reveal_strlit("or");
    reveal_strlit("in");
    reveal_strlit("not in");
}

/// A comparison prints its left side, the comparison's own symbol
/// between single spaces, then its right side, wherever it stands.
pub proof fn law_comparison_text(op: BinOp, l: Expr, r: Expr, parent: nat)
    requires
        binop_rank(op) == 4,
        parent <= 4,
    ensures
        expr_text(Expr::Binary { op, left: Box::new(l), right: Box::new(r) }, parent) == expr_text(l, 4) + seq![' ']
            + match op {
            BinOp::Eq => "=="@,
            BinOp::Neq => "!="@,
            BinOp::Lt => "<"@,
            BinOp::Gt => ">"@,
            BinOp::Lte => "<="@,
            BinOp::Gte => ">="@,
            BinOp::In => "in"@,
            _ => "not in"@,
        } + seq![' '] + expr_text(r, 5),
{
}

/// One level tighter (atoms stay atoms).
pub open spec fn next_rank(p: nat) -> nat {
    if p >= 10 { 10 } else { p + 1 }
}

/// The decimal text of an integer, with `-` when negative.
pub open spec fn int_text(x: i64) -> Seq<char> {
    if x < 0 {
        seq!['-'] + dec((-(x as int)) as nat)
    } else {
        dec(x as nat)
    }
}

pub open spec fn paren(need: bool, s: Seq<char>) -> Seq<char> {
    if need { seq!['('] + s + seq![')'] } else { s }
}

/// The text of `e` printed where the context binds at precedence
/// `parent`: parenthesised when its own operator binds looser.
pub open spec fn expr_text(e: Expr, parent: nat) -> Seq<char>
    decreases e, 0int,
{
    match e {
        Expr::Str(v) => seq!['"'] + literal_body(v@) + seq!['"'],
        Expr::Interp { parts, exprs } => seq!['"'] + interp_text(parts@, exprs@, parts@.len() as int) + seq!['"'],
        Expr::Int(x) => int_text(x),
        Expr::Float(t) => t@,
        Expr::Bool(b) => if b { "true"@ } else { "false"@ },
        Expr::Hole => "???"@,
        Expr::Percent(t) => t@ + seq!['%'],
        Expr::Quantity { value, unit } => value@ + unit@,
        Expr::Ident(n) => n@,
        Expr::SelfRef => "self"@,
        Expr::Tuple(v) => seq!['('] + list_text(v@) + (if v@.len() == 1 { seq![','] } else { Seq::empty() }) + seq![')'],
        Expr::List(v) => seq!['['] + list_text(v@) + seq![']'],
        Expr::Range { start, end, exclusive } => paren(
            parent > 7,
            expr_text(*start, 7) + (if exclusive { "..<"@ } else { ".."@ }) + expr_text(*end, 7),
        ),
        Expr::Index { object, index } => expr_text(*object, 9) + seq!['['] + expr_text(*index, 0) + seq![']'],
        Expr::Field { object, name } => expr_text(*object, 9) + seq!['.'] + name@,
        Expr::Call { callee, args, kwargs } => expr_text(*callee, 9) + seq!['('] + list_text(args@) + kwargs_text(
            kwargs@,
            args@.len() == 0,
        ) + seq![')'],
        Expr::Unary { op, operand } => match op {
            UnOp::Neg => paren(parent > 8, "-"@ + expr_text(*operand, 8)),
            UnOp::Not => paren(parent > 3, "not "@ + expr_text(*operand, 3)),
        },
        Expr::Binary { op, left, right } => paren(
            parent > binop_rank(op),
            expr_text(*left, binop_rank(op)) + seq![' '] + binop_text(op) + seq![' '] + expr_text(
                *right,
                next_rank(binop_rank(op)),
            ),
        ),
        Expr::IfExpr { cond, then_expr, elifs, else_expr } => paren(
            parent > 0,
            "if "@ + expr_text(*cond, 0) + ": "@ + expr_text(*then_expr, 0) + elifs_text(elifs@) + " else: "@
                + expr_text(*else_expr, 0),
        ),
    }
}

/// Expressions separated by `, `, each at the lowest precedence.
pub open spec fn list_text(es: Seq<Expr>) -> Seq<char>
    decreases es, 0int,
{
    if es.len() == 0 {
        Seq::empty()
    } else {
        list_text(es.drop_last()) + (if es.len() > 1 { ", "@ } else { Seq::empty() }) + expr_text(es[es.len() - 1], 0)
    }
}

/// Keyword arguments `name: value`, separated by `, `, with a leading
/// separator unless they come `first` in the call.
pub open spec fn kwargs_text(kw: Seq<(String, Expr)>, first: bool) -> Seq<char>
    decreases kw, 0int,
{
    if kw.len() == 0 {
        Seq::empty()
    } else {
        kwargs_text(kw.drop_last(), first) + (if kw.len() > 1 || !first { ", "@ } else { Seq::empty() })
            + kw[kw.len() - 1].0@ + ": "@ + expr_text(kw[kw.len() - 1].1, 0)
    }
}

/// The ` elif c: v` branches of a conditional expression.
pub open spec fn elifs_text(el: Seq<(Expr, Expr)>) -> Seq<char>
    decreases el, 0int,
{
    if el.len() == 0 {
        Seq::empty()
    } else {
        elifs_text(el.drop_last()) + " elif "@ + expr_text(el[el.len() - 1].0, 0) + ": "@ + expr_text(
            el[el.len() - 1].1,
            0,
        )
    }
}

/// The first `k` pieces of an interpolated string, each escaped and
/// followed by its expression in braces when it has one.
pub open spec fn interp_text(parts: Seq<String>, exprs: Seq<Expr>, k: int) -> Seq<char>
    decreases exprs, k,
{
    if k <= 0 {
        Seq::empty()
    } else {
        interp_text(parts, exprs, k - 1) + literal_body(parts[k - 1]@) + (if k - 1 < exprs.len() {
            seq!['{'] + expr_text(exprs[k - 1], 0) + seq!['}']
        } else {
            Seq::empty()
        })
    }
}

fn binop_prec(op: BinOp) -> (r: u8)
    ensures
        r == binop_rank(op),
{
    match op {
        BinOp::Or => 1,
        BinOp::And => 2,
        BinOp::Eq | BinOp::Neq | BinOp::Lt | BinOp::Lte | BinOp::Gt | BinOp::Gte | BinOp::In | BinOp::NotIn => 4,
        BinOp::Add | BinOp::Sub => 5,
        BinOp::Mul | BinOp::Div => 6,
    }
}

/// The spelling of a binary operator.
pub fn binop_str(op: BinOp) -> (r: &'static str)
    ensures
        r@ == binop_text(op),
{
    match op {
        BinOp::Add => "+",
        BinOp::Sub => "-",
        BinOp::Mul => "*",
        BinOp::Div => "/",
        BinOp::Eq => "==",
        BinOp::Neq => "!=",
        BinOp::Lt => "<",
        BinOp::Gt => ">",
        BinOp::Lte => "<=",
        BinOp::Gte => ">=",
        BinOp::And => "and",
        BinOp::Or => "or",
        BinOp::In => "in",
        BinOp::NotIn => "not in",
    }
}

fn push_int(out: &mut String, x: i64)
    ensures
        final(out)@ == old(out)@ + int_text(x),
{
    if x < 0 {
        push_char(out, '-');
        let m: u64 = if x == i64::MIN { 9223372036854775808u64 } else { (-x) as u64 };
        push_decimal(out, m);
    } else {
        push_decimal(out, x as u64);
    }
}

/// Appends the text of `e` printed where the context binds at
/// precedence `parent` (0 to 10).
pub fn print_expr(out: &mut String, e: &Expr, parent: u8)
    requires
        parent <= 10,
    ensures
        final(out)@ == old(out)@ + expr_text(*e, parent as nat),
    decreases e, 1int,
{
    let ghost o0 = out@;
    match e {
        Expr::Str(v) => print_string_literal(out, v.as_str()),
        Expr::Interp { parts, exprs } => {
            push_char(out, '"');
            print_interp(out, parts, exprs);
            push_char(out, '"');
        },
        Expr::Int(x) => push_int(out, *x),
        Expr::Float(t) => push_str(out, t.as_str()),
        Expr::Bool(b) => push_str(out, if *b { "true" } else { "false" }),
        Expr::Hole => push_str(out, "???"),
        Expr::Percent(t) => {
            push_str(out, t.as_str());
            push_char(out, '%');
        },
        Expr::Quantity { value, unit } => {
            push_str(out, value.as_str());
            push_str(out, unit.as_str());
        },
        Expr::Ident(n) => push_str(out, n.as_str()),
        Expr::SelfRef => push_str(out, "self"),
        Expr::Tuple(v) => {
            push_char(out, '(');
            print_list(out, v);
            if v.len() == 1 {
                push_char(out, ',');
            }
            push_char(out, ')');
        },
        Expr::List(v) => {
            push_char(out, '[');
            print_list(out, v);
            push_char(out, ']');
        },
        _ => print_operator(out, e, parent),
    }
    assert(out@ =~= o0 + expr_text(*e, parent as nat));
}

/// The expressions built with an operator, a call or a conditional.
#[verifier::rlimit(40)]
fn print_operator(out: &mut String, e: &Expr, parent: u8)
    requires
        parent <= 10,
        !(e is Str || e is Interp || e is Int || e is Float || e is Bool || e is Hole || e is Percent
            || e is Quantity || e is Ident || e is SelfRef || e is Tuple || e is List),
    ensures
        final(out)@ == old(out)@ + expr_text(*e, parent as nat),
    decreases e, 0int,
{
    let ghost o0 = out@;
    match e {
        Expr::Range { start, end, exclusive } => {
            let need = parent > 7;
            if need {
                push_char(out, '(');
            }
            let ghost o1 = out@;
            print_expr(out, start, 7);
            push_str(out, if *exclusive { "..<" } else { ".." });
            print_expr(out, end, 7);
            let ghost body = out@.subrange(o1.len() as int, out@.len() as int);
            if need {
                push_char(out, ')');
            }
            assert(out@ =~= o0 + expr_text(*e, parent as nat));
        },
        Expr::Index { object, index } => {
            print_expr(out, object, 9);
            push_char(out, '[');
            print_expr(out, index, 0);
            push_char(out, ']');
        },
        Expr::Field { object, name } => {
            print_expr(out, object, 9);
            push_char(out, '.');
            push_str(out, name.as_str());
        },
        Expr::Call { callee, args, kwargs } => {
            print_expr(out, callee, 9);
            push_char(out, '(');
            print_list(out, args);
            print_kwargs(out, kwargs, args.len() == 0);
            push_char(out, ')');
        },
        Expr::Unary { op, operand } => {
            let cp: u8 = match op {
                UnOp::Neg => 8,
                UnOp::Not => 3,
            };
            let need = parent > cp;
            if need {
                push_char(out, '(');
            }
            match op {
                UnOp::Neg => push_str(out, "-"),
                UnOp::Not => push_str(out, "not "),
            }
            print_expr(out, operand, cp);
            if need {
                push_char(out, ')');
            }
        },
        Expr::Binary { op, left, right } => {
            let p = binop_prec(*op);
            let need = parent > p;
            if need {
                push_char(out, '(');
            }
            print_expr(out, left, p);
            push_char(out, ' ');
            push_str(out, binop_str(*op));
            push_char(out, ' ');
            let np: u8 = if p >= 10 { 10 } else { p + 1 };
            print_expr(out, right, np);
            if need {
                push_char(out, ')');
            }
        },
        Expr::IfExpr { cond, then_expr, elifs, else_expr } => {
            let need = parent > 0;
            if need {
                push_char(out, '(');
            }
            push_str(out, "if ");
            print_expr(out, cond, 0);
            push_str(out, ": ");
            print_expr(out, then_expr, 0);
            print_elifs(out, elifs);
            push_str(out, " else: ");
            print_expr(out, else_expr, 0);
            if need {
                push_char(out, ')');
            }
        },
            _ => {},
    }
    assert(out@ =~= o0 + expr_text(*e, parent as nat));
}

fn print_list(out: &mut String, es: &Vec<Expr>)
    ensures
        final(out)@ == old(out)@ + list_text(es@),
    decreases es@, 0int,
{
    let ghost o0 = out@;
    let mut i: usize = 0;
    while i < es.len()
        invariant
            i <= es@.len(),
            out@ == o0 + list_text(es@.subrange(0, i as int)),
        decreases es.len() - i,
    {
        let ghost sub = es@.subrange(0, i + 1);
        assert(sub.drop_last() =~= es@.subrange(0, i as int));
        assert(sub[sub.len() - 1] == es@[i as int]);
        if i > 0 {
            push_str(out, ", ");
        }
        print_expr(out, &es[i], 0);
        assert(out@ =~= o0 + list_text(sub));
        i += 1;
    }
    assert(es@.subrange(0, es@.len() as int) =~= es@);
}

fn print_kwargs(out: &mut String, kw: &Vec<(String, Expr)>, first: bool)
    ensures
        final(out)@ == old(out)@ + kwargs_text(kw@, first),
    decreases kw@, 0int,
{
    let ghost o0 = out@;
    let mut i: usize = 0;
    while i < kw.len()
        invariant
            i <= kw@.len(),
            out@ == o0 + kwargs_text(kw@.subrange(0, i as int), first),
        decreases kw.len() - i,
    {
        let ghost sub = kw@.subrange(0, i + 1);
        assert(sub.drop_last() =~= kw@.subrange(0, i as int));
        assert(sub[sub.len() - 1] == kw@[i as int]);
        if i > 0 || !first {
            push_str(out, ", ");
        }
        push_str(out, kw[i].0.as_str());
        push_str(out, ": ");
        print_expr(out, &kw[i].1, 0);
        assert(out@ =~= o0 + kwargs_text(sub, first));
        i += 1;
    }
    assert(kw@.subrange(0, kw@.len() as int) =~= kw@);
}

fn print_elifs(out: &mut String, el: &Vec<(Expr, Expr)>)
    ensures
        final(out)@ == old(out)@ + elifs_text(el@),
    decreases el@, 0int,
{
    let ghost o0 = out@;
    let mut i: usize = 0;
    while i < el.len()
        invariant
            i <= el@.len(),
            out@ == o0 + elifs_text(el@.subrange(0, i as int)),
        decreases el.len() - i,
    {
        let ghost sub = el@.subrange(0, i + 1);
        assert(sub.drop_last() =~= el@.subrange(0, i as int));
        assert(sub[sub.len() - 1] == el@[i as int]);
        push_str(out, " elif ");
        print_expr(out, &el[i].0, 0);
        push_str(out, ": ");
        print_expr(out, &el[i].1, 0);
        assert(out@ =~= o0 + elifs_text(sub));
        i += 1;
    }
    assert(el@.subrange(0, el@.len() as int) =~= el@);
}

fn print_interp(out: &mut String, parts: &Vec<String>, exprs: &Vec<Expr>)
    ensures
        final(out)@ == old(out)@ + interp_text(parts@, exprs@, parts@.len() as int),
    decreases exprs@, parts@.len() + 1,
{
    let ghost o0 = out@;
    let mut i: usize = 0;
    while i < parts.len()
        invariant
            i <= parts@.len(),
            out@ == o0 + interp_text(parts@, exprs@, i as int),
        decreases parts.len() - i,
    {
        push_literal_body(out, parts[i].as_str());
        if i < exprs.len() {
            push_char(out, '{');
            print_expr(out, &exprs[i], 0);
            push_char(out, '}');
        }
        assert(out@ =~= o0 + interp_text(parts@, exprs@, i + 1));
        i += 1;
    }
}

} // verus!
