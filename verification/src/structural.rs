//! Structural analysis of differential-algebraic equation systems: index
//! reduction by the Pantelides algorithm, and tearing of algebraic loops.
//!
//! Index reduction matches equations to the unknowns they can determine
//! (the derivatives of states and the algebraic unknowns; never the states
//! themselves, which integration determines). While some unknown is left
//! unmatched, the unmatched equations of the highest differentiation level
//! (preferring constraints, which take no derivative) are differentiated
//! with respect to time and added to the system.
//!
//! Tearing picks, within a loop of mutually dependent equations, variables
//! whose values, once guessed, let the other equations be solved one by one.
use vstd::prelude::*;
use crate::ast::{ComponentRefPart, ComponentReference, Equation, EquationBlock, Expression, ExpressionBranch, ForIndex, OpBinary, Subscript, TerminalType, Token};
use crate::blt::{cref_name, cref_name_exec, der_name, der_of, expr_vars, collect_vars};
use crate::names::{views, string_views};
use crate::matching::{adjacency_ok, count_matched, is_matching, HopcroftKarp, NIL};

verus! {

// ---------------------------------------------------------------------------
// Copies
// ---------------------------------------------------------------------------

/// `b` is a copy of `a`: the same tree, with equal tokens and operators.
pub open spec fn same_expr(a: Expression, b: Expression) -> bool
    decreases a, 0nat,
{
    match a {
        Expression::Empty => b is Empty,
        Expression::Range { start, step, end } => match b {
            Expression::Range { start: s2, step: t2, end: e2 } => same_expr(*start, *s2) && same_expr(*end, *e2)
                && match step {
                Some(s) => match t2 {
                    Some(t) => same_expr(*s, *t),
                    None => false,
                },
                None => t2 is None,
            },
            _ => false,
        },
        Expression::Unary { op, rhs } => match b {
            Expression::Unary { op: o2, rhs: r2 } => op == o2 && same_expr(*rhs, *r2),
            _ => false,
        },
        Expression::Binary { op, lhs, rhs } => match b {
            Expression::Binary { op: o2, lhs: l2, rhs: r2 } => op == o2 && same_expr(*lhs, *l2) && same_expr(*rhs, *r2),
            _ => false,
        },
        Expression::Terminal { terminal_type, token } => match b {
            Expression::Terminal { terminal_type: t2, token: k2 } => terminal_type == t2 && token == k2,
            _ => false,
        },
        Expression::ComponentReference(c) => match b {
            Expression::ComponentReference(c2) => same_cref(c, c2),
            _ => false,
        },
        Expression::FunctionCall { comp, args } => match b {
            Expression::FunctionCall { comp: c2, args: a2 } => same_cref(comp, c2) && same_exprs(args@, a2@),
            _ => false,
        },
        Expression::Array { elements } => match b {
            Expression::Array { elements: e2 } => same_exprs(elements@, e2@),
            _ => false,
        },
        Expression::Tuple { elements } => match b {
            Expression::Tuple { elements: e2 } => same_exprs(elements@, e2@),
            _ => false,
        },
        Expression::If { branches, else_branch } => match b {
            Expression::If { branches: b2, else_branch: e2 } => same_branches(branches@, b2@) && same_expr(
                *else_branch,
                *e2,
            ),
            _ => false,
        },
        Expression::NamedArgument { name, value } => match b {
            Expression::NamedArgument { name: n2, value: v2 } => name == n2 && same_expr(*value, *v2),
            _ => false,
        },
    }
}

/// Element by element copies.
pub open spec fn same_exprs(a: Seq<Expression>, b: Seq<Expression>) -> bool
    decreases a, 0nat,
{
    a.len() == b.len() && (a.len() == 0 || (same_exprs(a.drop_last(), b.drop_last()) && same_expr(a.last(), b.last())))
}

/// Branch by branch copies.
pub open spec fn same_branches(a: Seq<ExpressionBranch>, b: Seq<ExpressionBranch>) -> bool
    decreases a, 0nat,
{
    a.len() == b.len() && (a.len() == 0 || (same_branches(a.drop_last(), b.drop_last()) && same_expr(
        a.last().cond,
        b.last().cond,
    ) && same_expr(a.last().value, b.last().value)))
}

/// Copies of a component reference.
pub open spec fn same_cref(a: ComponentReference, b: ComponentReference) -> bool
    decreases a, 0nat,
{
    a.local == b.local && same_parts(a.parts@, b.parts@)
}

/// Part by part copies.
pub open spec fn same_parts(a: Seq<ComponentRefPart>, b: Seq<ComponentRefPart>) -> bool
    decreases a, 0nat,
{
    a.len() == b.len() && (a.len() == 0 || (same_parts(a.drop_last(), b.drop_last()) && same_part(a.last(), b.last())))
}

/// Copies of a reference part.
pub open spec fn same_part(a: ComponentRefPart, b: ComponentRefPart) -> bool
    decreases a, 0nat,
{
    a.ident == b.ident && match a.subs {
        None => b.subs is None,
        Some(s) => match b.subs {
            Some(s2) => same_subs(s@, s2@),
            None => false,
        },
    }
}

/// Subscript by subscript copies.
pub open spec fn same_subs(a: Seq<Subscript>, b: Seq<Subscript>) -> bool
    decreases a, 0nat,
{
    a.len() == b.len() && (a.len() == 0 || (same_subs(a.drop_last(), b.drop_last()) && same_sub(a.last(), b.last())))
}

/// Copies of a subscript.
pub open spec fn same_sub(a: Subscript, b: Subscript) -> bool
    decreases a, 0nat,
{
    match a {
        Subscript::Empty => b is Empty,
        Subscript::Expression(e) => match b {
            Subscript::Expression(e2) => same_expr(e, e2),
            _ => false,
        },
        Subscript::Range { token } => match b {
            Subscript::Range { token: t2 } => token == t2,
            _ => false,
        },
    }
}

/// Copies a token.
pub fn copy_token(t: &Token) -> (r: Token)
    ensures
        r == *t,
{
    Token {
        text: t.text.clone(),
        location: crate::ast::Location {
            start_line: t.location.start_line,
            start_column: t.location.start_column,
            end_line: t.location.end_line,
            end_column: t.location.end_column,
            start: t.location.start,
            end: t.location.end,
            file_name: t.location.file_name.clone(),
        },
        token_number: t.token_number,
        token_type: t.token_type,
    }
}

/// Copies an expression.
pub fn copy_expression(e: &Expression) -> (r: Expression)
    ensures
        same_expr(*e, r),
    decreases e, 1nat,
{
    match e {
        Expression::Empty => Expression::Empty,
        Expression::Range { start, step, end } => {
            let s = copy_expression(start);
            let t = match step {
                Some(x) => Some(Box::new(copy_expression(x))),
                None => None,
            };
            let n = copy_expression(end);
            Expression::Range { start: Box::new(s), step: t, end: Box::new(n) }
        },
        Expression::Unary { op, rhs } => Expression::Unary { op: *op, rhs: Box::new(copy_expression(rhs)) },
        Expression::Binary { op, lhs, rhs } => {
            let l = copy_expression(lhs);
            let r = copy_expression(rhs);
            Expression::Binary { op: *op, lhs: Box::new(l), rhs: Box::new(r) }
        },
        Expression::Terminal { terminal_type, token } => Expression::Terminal {
            terminal_type: *terminal_type,
            token: copy_token(token),
        },
        Expression::ComponentReference(c) => Expression::ComponentReference(copy_cref(c)),
        Expression::FunctionCall { comp, args } => {
            let c = copy_cref(comp);
            let a = copy_expressions(args);
            Expression::FunctionCall { comp: c, args: a }
        },
        Expression::Array { elements } => Expression::Array { elements: copy_expressions(elements) },
        Expression::Tuple { elements } => Expression::Tuple { elements: copy_expressions(elements) },
        Expression::If { branches, else_branch } => {
            let b = copy_branches(branches);
            let x = copy_expression(else_branch);
            Expression::If { branches: b, else_branch: Box::new(x) }
        },
        Expression::NamedArgument { name, value } => {
            let n = copy_token(name);
            let v = copy_expression(value);
            Expression::NamedArgument { name: n, value: Box::new(v) }
        },
    }
}

/// Copies a list of expressions.
pub fn copy_expressions(es: &Vec<Expression>) -> (r: Vec<Expression>)
    ensures
        same_exprs(es@, r@),
    decreases es, 0nat,
{
    let mut out: Vec<Expression> = Vec::new();
    let mut i: usize = 0;
    while i < es.len()
        invariant
            i <= es@.len(),
            same_exprs(es@.take(i as int), out@),
        decreases es.len() - i,
    {
        proof {
            assert(decreases_to!(es => es@[i as int]));
        }
        let c = copy_expression(&es[i]);
        let ghost before = out@;
        out.push(c);
        proof {
            let t = es@.take(i as int + 1);
            assert(t.drop_last() =~= es@.take(i as int));
            assert(out@.drop_last() =~= before);
            assert(t.last() == es@[i as int]);
        }
        i = i + 1;
    }
    proof {
        assert(es@.take(es@.len() as int) =~= es@);
    }
    out
}

/// Copies the branches of an if-expression.
pub fn copy_branches(bs: &Vec<ExpressionBranch>) -> (r: Vec<ExpressionBranch>)
    ensures
        same_branches(bs@, r@),
    decreases bs, 0nat,
{
    let mut out: Vec<ExpressionBranch> = Vec::new();
    let mut i: usize = 0;
    while i < bs.len()
        invariant
            i <= bs@.len(),
            same_branches(bs@.take(i as int), out@),
        decreases bs.len() - i,
    {
        proof {
            assert(decreases_to!(bs => bs@[i as int]));
        }
        let c = copy_expression(&bs[i].cond);
        let v = copy_expression(&bs[i].value);
        let ghost before = out@;
        out.push(ExpressionBranch { cond: c, value: v });
        proof {
            let t = bs@.take(i as int + 1);
            assert(t.drop_last() =~= bs@.take(i as int));
            assert(out@.drop_last() =~= before);
            assert(t.last() == bs@[i as int]);
        }
        i = i + 1;
    }
    proof {
        assert(bs@.take(bs@.len() as int) =~= bs@);
    }
    out
}

/// Copies a component reference.
pub fn copy_cref(c: &ComponentReference) -> (r: ComponentReference)
    ensures
        same_cref(*c, r),
    decreases c, 1nat,
{
    let mut out: Vec<ComponentRefPart> = Vec::new();
    let mut i: usize = 0;
    while i < c.parts.len()
        invariant
            i <= c.parts@.len(),
            same_parts(c.parts@.take(i as int), out@),
        decreases c.parts.len() - i,
    {
        proof {
            assert(decreases_to!(c => c.parts));
            assert(decreases_to!(c.parts => c.parts@[i as int]));
        }
        let p = copy_part(&c.parts[i]);
        let ghost before = out@;
        out.push(p);
        proof {
            let t = c.parts@.take(i as int + 1);
            assert(t.drop_last() =~= c.parts@.take(i as int));
            assert(out@.drop_last() =~= before);
            assert(t.last() == c.parts@[i as int]);
        }
        i = i + 1;
    }
    proof {
        assert(c.parts@.take(c.parts@.len() as int) =~= c.parts@);
    }
    ComponentReference { local: c.local, parts: out }
}

/// Copies a reference part.
pub fn copy_part(p: &ComponentRefPart) -> (r: ComponentRefPart)
    ensures
        same_part(*p, r),
    decreases p, 1nat,
{
    let subs = match &p.subs {
        Some(ss) => {
            proof {
                assert(decreases_to!(p => p.subs));
            }
            Some(copy_subscripts(ss))
        },
        None => None,
    };
    ComponentRefPart { ident: copy_token(&p.ident), subs }
}

/// Copies a list of subscripts.
pub fn copy_subscripts(ss: &Vec<Subscript>) -> (r: Vec<Subscript>)
    ensures
        same_subs(ss@, r@),
    decreases ss, 0nat,
{
    let mut out: Vec<Subscript> = Vec::new();
    let mut i: usize = 0;
    while i < ss.len()
        invariant
            i <= ss@.len(),
            same_subs(ss@.take(i as int), out@),
        decreases ss.len() - i,
    {
        proof {
            assert(decreases_to!(ss => ss@[i as int]));
        }
        let s = copy_subscript(&ss[i]);
        let ghost before = out@;
        out.push(s);
        proof {
            let t = ss@.take(i as int + 1);
            assert(t.drop_last() =~= ss@.take(i as int));
            assert(out@.drop_last() =~= before);
            assert(t.last() == ss@[i as int]);
        }
        i = i + 1;
    }
    proof {
        assert(ss@.take(ss@.len() as int) =~= ss@);
    }
    out
}

/// Copies a subscript.
pub fn copy_subscript(s: &Subscript) -> (r: Subscript)
    ensures
        same_sub(*s, r),
    decreases s, 1nat,
{
    match s {
        Subscript::Empty => Subscript::Empty,
        Subscript::Expression(x) => Subscript::Expression(copy_expression(x)),
        Subscript::Range { token } => Subscript::Range { token: copy_token(token) },
    }
}

/// `b` is a copy of equation `a`.
pub open spec fn same_equation(a: Equation, b: Equation) -> bool
    decreases a, 0nat,
{
    match a {
        Equation::Empty => b is Empty,
        Equation::Simple { lhs, rhs } => match b {
            Equation::Simple { lhs: l2, rhs: r2 } => same_expr(lhs, l2) && same_expr(rhs, r2),
            _ => false,
        },
        Equation::Connect { lhs, rhs } => match b {
            Equation::Connect { lhs: l2, rhs: r2 } => same_cref(lhs, l2) && same_cref(rhs, r2),
            _ => false,
        },
        Equation::For { indices, equations } => match b {
            Equation::For { indices: i2, equations: e2 } => same_indices(indices@, i2@) && same_equations(
                equations@,
                e2@,
            ),
            _ => false,
        },
        Equation::When(blocks) => match b {
            Equation::When(b2) => same_blocks(blocks@, b2@),
            _ => false,
        },
        Equation::If { cond_blocks, else_block } => match b {
            Equation::If { cond_blocks: c2, else_block: e2 } => same_blocks(cond_blocks@, c2@) && match else_block {
                Some(x) => match e2 {
                    Some(y) => same_equations(x@, y@),
                    None => false,
                },
                None => e2 is None,
            },
            _ => false,
        },
        Equation::FunctionCall { comp, args } => match b {
            Equation::FunctionCall { comp: c2, args: a2 } => same_cref(comp, c2) && same_exprs(args@, a2@),
            _ => false,
        },
    }
}

/// Equation by equation copies.
pub open spec fn same_equations(a: Seq<Equation>, b: Seq<Equation>) -> bool
    decreases a, 0nat,
{
    a.len() == b.len() && (a.len() == 0 || (same_equations(a.drop_last(), b.drop_last()) && same_equation(
        a.last(),
        b.last(),
    )))
}

/// Block by block copies of guarded equations.
pub open spec fn same_blocks(a: Seq<EquationBlock>, b: Seq<EquationBlock>) -> bool
    decreases a, 0nat,
{
    a.len() == b.len() && (a.len() == 0 || (same_blocks(a.drop_last(), b.drop_last()) && same_expr(
        a.last().cond,
        b.last().cond,
    ) && same_equations(a.last().eqs@, b.last().eqs@)))
}

/// Index by index copies of `for` indices.
pub open spec fn same_indices(a: Seq<ForIndex>, b: Seq<ForIndex>) -> bool
    decreases a, 0nat,
{
    a.len() == b.len() && (a.len() == 0 || (same_indices(a.drop_last(), b.drop_last()) && a.last().ident
        == b.last().ident && same_expr(a.last().range, b.last().range)))
}

/// Copies an equation.
pub fn copy_equation(eq: &Equation) -> (r: Equation)
    ensures
        same_equation(*eq, r),
    decreases eq, 1nat,
{
    match eq {
        Equation::Empty => Equation::Empty,
        Equation::Simple { lhs, rhs } => {
            let l = copy_expression(lhs);
            let r = copy_expression(rhs);
            Equation::Simple { lhs: l, rhs: r }
        },
        Equation::Connect { lhs, rhs } => {
            let l = copy_cref(lhs);
            let r = copy_cref(rhs);
            Equation::Connect { lhs: l, rhs: r }
        },
        Equation::For { indices, equations } => {
            let i = copy_indices(indices);
            let e = copy_equations(equations);
            Equation::For { indices: i, equations: e }
        },
        Equation::When(blocks) => Equation::When(copy_blocks(blocks)),
        Equation::If { cond_blocks, else_block } => {
            let c = copy_blocks(cond_blocks);
            let e = match else_block {
                Some(x) => Some(copy_equations(x)),
                None => None,
            };
            Equation::If { cond_blocks: c, else_block: e }
        },
        Equation::FunctionCall { comp, args } => {
            let c = copy_cref(comp);
            let a = copy_expressions(args);
            Equation::FunctionCall { comp: c, args: a }
        },
    }
}

/// Copies a list of equations.
pub fn copy_equations(es: &Vec<Equation>) -> (r: Vec<Equation>)
    ensures
        same_equations(es@, r@),
    decreases es, 0nat,
{
    let mut out: Vec<Equation> = Vec::new();
    let mut i: usize = 0;
    while i < es.len()
        invariant
            i <= es@.len(),
            same_equations(es@.take(i as int), out@),
        decreases es.len() - i,
    {
        proof {
            assert(decreases_to!(es => es@[i as int]));
        }
        let c = copy_equation(&es[i]);
        let ghost before = out@;
        out.push(c);
        proof {
            let t = es@.take(i as int + 1);
            assert(t.drop_last() =~= es@.take(i as int));
            assert(out@.drop_last() =~= before);
            assert(t.last() == es@[i as int]);
        }
        i = i + 1;
    }
    proof {
        assert(es@.take(es@.len() as int) =~= es@);
    }
    out
}

/// Copies guarded blocks of equations.
pub fn copy_blocks(bs: &Vec<EquationBlock>) -> (r: Vec<EquationBlock>)
    ensures
        same_blocks(bs@, r@),
    decreases bs, 0nat,
{
    let mut out: Vec<EquationBlock> = Vec::new();
    let mut i: usize = 0;
    while i < bs.len()
        invariant
            i <= bs@.len(),
            same_blocks(bs@.take(i as int), out@),
        decreases bs.len() - i,
    {
        proof {
            assert(decreases_to!(bs => bs@[i as int]));
            assert(decreases_to!(bs@[i as int] => bs@[i as int].eqs));
        }
        let c = copy_expression(&bs[i].cond);
        let e = copy_equations(&bs[i].eqs);
        let ghost before = out@;
        out.push(EquationBlock { cond: c, eqs: e });
        proof {
            let t = bs@.take(i as int + 1);
            assert(t.drop_last() =~= bs@.take(i as int));
            assert(out@.drop_last() =~= before);
            assert(t.last() == bs@[i as int]);
        }
        i = i + 1;
    }
    proof {
        assert(bs@.take(bs@.len() as int) =~= bs@);
    }
    out
}

/// Copies the indices of a `for` equation.
pub fn copy_indices(xs: &Vec<ForIndex>) -> (r: Vec<ForIndex>)
    ensures
        same_indices(xs@, r@),
    decreases xs, 0nat,
{
    let mut out: Vec<ForIndex> = Vec::new();
    let mut i: usize = 0;
    while i < xs.len()
        invariant
            i <= xs@.len(),
            same_indices(xs@.take(i as int), out@),
        decreases xs.len() - i,
    {
        proof {
            assert(decreases_to!(xs => xs@[i as int]));
        }
        let t0 = copy_token(&xs[i].ident);
        let r0 = copy_expression(&xs[i].range);
        let ghost before = out@;
        out.push(ForIndex { ident: t0, range: r0 });
        proof {
            let t = xs@.take(i as int + 1);
            assert(t.drop_last() =~= xs@.take(i as int));
            assert(out@.drop_last() =~= before);
            assert(t.last() == xs@[i as int]);
        }
        i = i + 1;
    }
    proof {
        assert(xs@.take(xs@.len() as int) =~= xs@);
    }
    out
}

// ---------------------------------------------------------------------------
// Differentiation with respect to time
// ---------------------------------------------------------------------------

/// A fresh reference to `der`: one part named `der`, without subscripts.
pub open spec fn is_fresh_der(c: ComponentReference) -> bool {
    c.parts@.len() == 1 && c.parts@[0].subs is None && c.parts@[0].ident.text@ == der_name() && !c.local
}

/// `r` is `der(x)` for a copy `x` of `e`.
pub open spec fn der_applied(r: Expression, e: Expression) -> bool {
    match r {
        Expression::FunctionCall { comp, args } => is_fresh_der(comp) && args@.len() == 1 && same_expr(e, args@[0]),
        _ => false,
    }
}

/// A fresh integer literal `0`.
pub open spec fn is_fresh_int_zero(e: Expression) -> bool {
    match e {
        Expression::Terminal { terminal_type, token } => terminal_type == TerminalType::UnsignedInteger
            && token.text@ == seq!['0'],
        _ => false,
    }
}

/// `r` is the time derivative of `e` as written by differentiation:
/// a reference `x` becomes `der(x)`; sums and differences are differentiated
/// term by term; a product `a * b` becomes `der(a) * b + a * der(b)` (product
/// rule, with copies of `a` and `b`); a literal becomes `0`; `der(args)`
/// becomes `der` applied to the derivatives of `args`; any other call or
/// binary operation `f` becomes `der(f)`; anything else is copied unchanged.
pub open spec fn differentiated(e: Expression, r: Expression) -> bool
    decreases e, 0nat,
{
    match e {
        Expression::ComponentReference(_) => der_applied(r, e),
        Expression::Binary { op, lhs, rhs } => if op == OpBinary::Add || op == OpBinary::Sub {
            match r {
                Expression::Binary { op: o, lhs: l, rhs: rr } => o == op && differentiated(*lhs, *l) && differentiated(
                    *rhs,
                    *rr,
                ),
                _ => false,
            }
        } else if op == OpBinary::Mul {
            match r {
                Expression::Binary { op: o, lhs: l, rhs: rr } => o == OpBinary::Add && match *l {
                    Expression::Binary { op: o1, lhs: da, rhs: b } => o1 == OpBinary::Mul && differentiated(*lhs, *da)
                        && same_expr(*rhs, *b),
                    _ => false,
                } && match *rr {
                    Expression::Binary { op: o2, lhs: a, rhs: db } => o2 == OpBinary::Mul && same_expr(*lhs, *a)
                        && differentiated(*rhs, *db),
                    _ => false,
                },
                _ => false,
            }
        } else {
            der_applied(r, e)
        },
        Expression::Terminal { .. } => is_fresh_int_zero(r),
        Expression::FunctionCall { comp, args } => if cref_name(comp) == der_name() {
            match r {
                Expression::FunctionCall { comp: c2, args: a2 } => same_cref(comp, c2) && all_differentiated(
                    args@,
                    a2@,
                ),
                _ => false,
            }
        } else {
            der_applied(r, e)
        },
        _ => same_expr(e, r),
    }
}

/// Element by element derivatives.
pub open spec fn all_differentiated(a: Seq<Expression>, b: Seq<Expression>) -> bool
    decreases a, 0nat,
{
    a.len() == b.len() && (a.len() == 0 || (all_differentiated(a.drop_last(), b.drop_last()) && differentiated(
        a.last(),
        b.last(),
    )))
}

/// A token with the given text and no position.
fn plain_token(text: &[char]) -> (r: Token)
    ensures
        r.text@ == text@,
{
    Token {
        text: crate::text::chars_to_string(text),
        location: crate::ast::Location {
            start_line: 0,
            start_column: 0,
            end_line: 0,
            end_column: 0,
            start: 0,
            end: 0,
            file_name: String::new(),
        },
        token_number: 0,
        token_type: 0,
    }
}

/// A fresh reference to `der`.
fn der_reference() -> (r: ComponentReference)
    ensures
        is_fresh_der(r),
{
    let d: &[char] = &['d', 'e', 'r'];
    assert(d@ =~= der_name());
    let mut parts: Vec<ComponentRefPart> = Vec::new();
    parts.push(ComponentRefPart { ident: plain_token(d), subs: None });
    ComponentReference { local: false, parts }
}

/// `der(x)` for a copy `x` of `e`.
fn der_of_copy(e: &Expression) -> (r: Expression)
    ensures
        der_applied(r, *e),
{
    let mut args: Vec<Expression> = Vec::new();
    args.push(copy_expression(e));
    Expression::FunctionCall { comp: der_reference(), args }
}

/// Whether a reference is `der`.
fn is_der_reference(c: &ComponentReference) -> (r: bool)
    ensures
        r == (cref_name(*c) == der_name()),
{
    let name = cref_name_exec(c);
    let d: &[char] = &['d', 'e', 'r'];
    assert(d@ =~= der_name());
    crate::lexer::chars_equal(&name, d)
}

/// Differentiates an expression with respect to time (see `differentiated`).
pub fn differentiate_expression(e: &Expression) -> (r: Expression)
    ensures
        differentiated(*e, r),
    decreases e, 1nat,
{
    match e {
        Expression::ComponentReference(_) => der_of_copy(e),
        Expression::Binary { op, lhs, rhs } => {
            if *op == OpBinary::Add || *op == OpBinary::Sub {
                let dl = differentiate_expression(lhs);
                let dr = differentiate_expression(rhs);
                Expression::Binary { op: *op, lhs: Box::new(dl), rhs: Box::new(dr) }
            } else if *op == OpBinary::Mul {
                let da = differentiate_expression(lhs);
                let db = differentiate_expression(rhs);
                let b = copy_expression(rhs);
                let a = copy_expression(lhs);
                let left = Expression::Binary { op: OpBinary::Mul, lhs: Box::new(da), rhs: Box::new(b) };
                let right = Expression::Binary { op: OpBinary::Mul, lhs: Box::new(a), rhs: Box::new(db) };
                Expression::Binary { op: OpBinary::Add, lhs: Box::new(left), rhs: Box::new(right) }
            } else {
                der_of_copy(e)
            }
        },
        Expression::Terminal { .. } => {
            let z: &[char] = &['0'];
            assert(z@ =~= seq!['0']);
            Expression::Terminal { terminal_type: TerminalType::UnsignedInteger, token: plain_token(z) }
        },
        Expression::FunctionCall { comp, args } => {
            if is_der_reference(comp) {
                let c = copy_cref(comp);
                let a = differentiate_all(args);
                Expression::FunctionCall { comp: c, args: a }
            } else {
                der_of_copy(e)
            }
        },
        _ => copy_expression(e),
    }
}

/// Differentiates each expression of a list.
fn differentiate_all(es: &Vec<Expression>) -> (r: Vec<Expression>)
    ensures
        all_differentiated(es@, r@),
    decreases es, 0nat,
{
    let mut out: Vec<Expression> = Vec::new();
    let mut i: usize = 0;
    while i < es.len()
        invariant
            i <= es@.len(),
            all_differentiated(es@.take(i as int), out@),
        decreases es.len() - i,
    {
        proof {
            assert(decreases_to!(es => es@[i as int]));
        }
        let c = differentiate_expression(&es[i]);
        let ghost before = out@;
        out.push(c);
        proof {
            let t = es@.take(i as int + 1);
            assert(t.drop_last() =~= es@.take(i as int));
            assert(out@.drop_last() =~= before);
            assert(t.last() == es@[i as int]);
        }
        i = i + 1;
    }
    proof {
        assert(es@.take(es@.len() as int) =~= es@);
    }
    out
}

/// Differentiates a simple equation side by side; other equations have no
/// derivative here.
pub fn differentiate_equation(eq: &Equation) -> (r: Option<Equation>)
    ensures
        match *eq {
            Equation::Simple { lhs, rhs } => match r {
                Some(Equation::Simple { lhs: l, rhs: rr }) => differentiated(lhs, l) && differentiated(rhs, rr),
                _ => false,
            },
            _ => r is None,
        },
{
    match eq {
        Equation::Simple { lhs, rhs } => {
            let l = differentiate_expression(lhs);
            let r = differentiate_expression(rhs);
            Some(Equation::Simple { lhs: l, rhs: r })
        },
        _ => None,
    }
}

// ---------------------------------------------------------------------------
// Equation structure
// ---------------------------------------------------------------------------

/// The variable a `der` call differentiates, as the structural analysis
/// reads it: `x` for `der(x)`, and `vx` (by convention the velocity of `x`)
/// for `der(der(x))`.
pub open spec fn struct_der_target(comp: ComponentReference, args: Seq<Expression>) -> Option<Seq<char>> {
    if cref_name(comp) == der_name() && args.len() > 0 {
        match args[0] {
            Expression::ComponentReference(c) => Some(cref_name(c)),
            Expression::FunctionCall { comp: ic, args: ia } => if cref_name(ic) == der_name() && ia@.len() > 0 {
                match ia@[0] {
                    Expression::ComponentReference(c) => Some(seq!['v'] + cref_name(c)),
                    _ => None,
                }
            } else {
                None
            },
            _ => None,
        }
    } else {
        None
    }
}

/// The differentiated variables of an expression (see `struct_der_target`),
/// in order of appearance, with repetitions.
pub open spec fn struct_ders(e: Expression) -> Seq<Seq<char>>
    decreases e, 0nat,
{
    match e {
        Expression::FunctionCall { comp, args } => (match struct_der_target(comp, args@) {
            Some(x) => seq![x],
            None => seq![],
        }) + struct_ders_list(args@),
        Expression::Unary { rhs, .. } => struct_ders(*rhs),
        Expression::Binary { lhs, rhs, .. } => struct_ders(*lhs) + struct_ders(*rhs),
        Expression::Array { elements } | Expression::Tuple { elements } => struct_ders_list(elements@),
        Expression::Range { start, step, end } => struct_ders(*start) + (match step {
            Some(s) => struct_ders(*s),
            None => seq![],
        }) + struct_ders(*end),
        Expression::If { branches, else_branch } => struct_ders_branches(branches@) + struct_ders(*else_branch),
        Expression::NamedArgument { value, .. } => struct_ders(*value),
        _ => seq![],
    }
}

/// The differentiated variables of expressions, one after another.
pub open spec fn struct_ders_list(es: Seq<Expression>) -> Seq<Seq<char>>
    decreases es, 0nat,
{
    if es.len() == 0 {
        seq![]
    } else {
        struct_ders_list(es.drop_last()) + struct_ders(es.last())
    }
}

/// The differentiated variables of the branches of an if-expression.
pub open spec fn struct_ders_branches(bs: Seq<ExpressionBranch>) -> Seq<Seq<char>>
    decreases bs, 0nat,
{
    if bs.len() == 0 {
        seq![]
    } else {
        struct_ders_branches(bs.drop_last()) + struct_ders(bs.last().cond) + struct_ders(bs.last().value)
    }
}

/// The variables of a simple equation, left side first; none for other equations.
pub open spec fn equation_vars(eq: Equation) -> Seq<Seq<char>> {
    match eq {
        Equation::Simple { lhs, rhs } => expr_vars(lhs) + expr_vars(rhs),
        _ => seq![],
    }
}

/// The differentiated variables of a simple equation; none for other equations.
pub open spec fn equation_ders(eq: Equation) -> Seq<Seq<char>> {
    match eq {
        Equation::Simple { lhs, rhs } => struct_ders(lhs) + struct_ders(rhs),
        _ => seq![],
    }
}

/// The target of a `der` call, as characters (see `struct_der_target`).
fn struct_der_target_exec(comp: &ComponentReference, args: &Vec<Expression>) -> (r: Option<Vec<char>>)
    ensures
        match r {
            Some(v) => struct_der_target(*comp, args@) == Some(v@),
            None => struct_der_target(*comp, args@) is None,
        },
{
    if is_der_reference(comp) && args.len() > 0 {
        match &args[0] {
            Expression::ComponentReference(c) => Some(cref_name_exec(c)),
            Expression::FunctionCall { comp: ic, args: ia } => {
                if is_der_reference(ic) && ia.len() > 0 {
                    match &ia[0] {
                        Expression::ComponentReference(c) => {
                            let name = cref_name_exec(c);
                            let mut v: Vec<char> = Vec::new();
                            v.push('v');
                            crate::printer::append_chars(&mut v, &name);
                            assert(v@ =~= seq!['v'] + name@);
                            Some(v)
                        },
                        _ => None,
                    }
                } else {
                    None
                }
            },
            _ => None,
        }
    } else {
        None
    }
}

/// Appends the differentiated variables of an expression.
#[verifier::spinoff_prover]
#[verifier::rlimit(40)]
pub fn collect_struct_ders(out: &mut Vec<Vec<char>>, e: &Expression)
    ensures
        views(final(out)@) == views(old(out)@) + struct_ders(*e),
    decreases e, 1nat,
{
    let ghost start = views(out@);
    match e {
        Expression::FunctionCall { comp, args } => {
            match struct_der_target_exec(comp, args) {
                Some(x) => out.push(x),
                None => {},
            }
            collect_struct_ders_list(out, args);
        },
        Expression::Unary { rhs, .. } => {
            collect_struct_ders(out, rhs);
        },
        Expression::Binary { lhs, rhs, .. } => {
            collect_struct_ders(out, lhs);
            collect_struct_ders(out, rhs);
        },
        Expression::Array { elements } | Expression::Tuple { elements } => {
            collect_struct_ders_list(out, elements);
        },
        Expression::Range { start: s0, step, end } => {
            collect_struct_ders(out, s0);
            match step {
                Some(s) => collect_struct_ders(out, s),
                None => {},
            }
            collect_struct_ders(out, end);
        },
        Expression::If { branches, else_branch } => {
            collect_struct_ders_branches(out, branches);
            collect_struct_ders(out, else_branch);
        },
        Expression::NamedArgument { value, .. } => {
            collect_struct_ders(out, value);
        },
        _ => {},
    }
    assert(views(out@) =~= start + struct_ders(*e));
}

fn collect_struct_ders_branches(out: &mut Vec<Vec<char>>, branches: &Vec<ExpressionBranch>)
    ensures
        views(final(out)@) == views(old(out)@) + struct_ders_branches(branches@),
    decreases branches, 0nat,
{
    let ghost start = views(out@);
    let mut i: usize = 0;
    while i < branches.len()
        invariant
            i <= branches@.len(),
            views(out@) == start + struct_ders_branches(branches@.take(i as int)),
        decreases branches.len() - i,
    {
        proof {
            assert(decreases_to!(branches => branches@[i as int]));
        }
        collect_struct_ders(out, &branches[i].cond);
        collect_struct_ders(out, &branches[i].value);
        proof {
            let t = branches@.take(i as int + 1);
            assert(t.drop_last() =~= branches@.take(i as int));
            assert(t.last() == branches@[i as int]);
        }
        i = i + 1;
    }
    proof {
        assert(branches@.take(branches@.len() as int) =~= branches@);
    }
}

/// Appends the differentiated variables of a list of expressions.
pub fn collect_struct_ders_list(out: &mut Vec<Vec<char>>, es: &Vec<Expression>)
    ensures
        views(final(out)@) == views(old(out)@) + struct_ders_list(es@),
    decreases es, 0nat,
{
    let ghost start = views(out@);
    let mut i: usize = 0;
    while i < es.len()
        invariant
            i <= es@.len(),
            views(out@) == start + struct_ders_list(es@.take(i as int)),
        decreases es.len() - i,
    {
        proof {
            assert(decreases_to!(es => es@[i as int]));
        }
        collect_struct_ders(out, &es[i]);
        proof {
            let t = es@.take(i as int + 1);
            assert(t.drop_last() =~= es@.take(i as int));
            assert(t.last() == es@[i as int]);
        }
        i = i + 1;
    }
    proof {
        assert(es@.take(es@.len() as int) =~= es@);
    }
}

/// What index reduction knows of an equation.
pub struct EquationStructure {
    /// The equation.
    pub equation: Equation,
    /// The variables it involves, each once.
    pub variables: Vec<String>,
    /// The variables it differentiates, each once.
    pub derivatives: Vec<String>,
    /// Whether it differentiates nothing (a constraint).
    pub is_constraint: bool,
    /// The variable it is matched to, once matched.
    pub assigned_variable: Option<String>,
    /// How often it has been differentiated (0 for an equation of the input).
    pub diff_level: usize,
}

/// `st` describes `eq`: it holds a copy of `eq`, its variables and
/// differentiated variables each once, and whether it is a constraint.
pub open spec fn describes(st: EquationStructure, eq: Equation) -> bool {
    &&& same_equation(eq, st.equation)
    &&& string_views(st.variables@).no_duplicates()
    &&& string_views(st.variables@).to_set() == equation_vars(eq).to_set()
    &&& string_views(st.derivatives@).no_duplicates()
    &&& string_views(st.derivatives@).to_set() == equation_ders(eq).to_set()
    &&& st.is_constraint == (equation_ders(eq).len() == 0)
    &&& st.assigned_variable is None
}

/// Each name once, in order of first appearance.
fn distinct_names(names: &Vec<Vec<char>>) -> (r: Vec<String>)
    ensures
        string_views(r@).no_duplicates(),
        string_views(r@).to_set() == views(names@).to_set(),
{
    let mut u: Vec<Vec<char>> = Vec::new();
    crate::blt::push_all_unique(&mut u, names);
    let r = crate::names::to_strings(&u);
    assert(string_views(r@).to_set() =~= views(names@).to_set());
    r
}

/// Analyzes the structure of an equation (see `describes`).
pub fn analyze_equation_structure(equation: &Equation) -> (r: EquationStructure)
    ensures
        describes(r, *equation),
        r.diff_level == 0,
{
    let mut vars: Vec<Vec<char>> = Vec::new();
    let mut ders: Vec<Vec<char>> = Vec::new();
    match equation {
        Equation::Simple { lhs, rhs } => {
            collect_vars(&mut vars, lhs);
            collect_vars(&mut vars, rhs);
            collect_struct_ders(&mut ders, lhs);
            collect_struct_ders(&mut ders, rhs);
            assert(views(vars@) =~= equation_vars(*equation));
            assert(views(ders@) =~= equation_ders(*equation));
        },
        _ => {
            assert(views(vars@) =~= equation_vars(*equation));
            assert(views(ders@) =~= equation_ders(*equation));
        },
    }
    let is_constraint = ders.len() == 0;
    let variables = distinct_names(&vars);
    let derivatives = distinct_names(&ders);
    EquationStructure {
        equation: copy_equation(equation),
        variables,
        derivatives,
        is_constraint,
        assigned_variable: None,
        diff_level: 0,
    }
}

// ---------------------------------------------------------------------------
// Matching equations to unknowns
// ---------------------------------------------------------------------------

/// Whether a list of strings holds `name`.
fn contains_string(list: &Vec<String>, name: &String) -> (r: bool)
    ensures
        r == string_views(list@).contains(name@),
{
    match crate::names::string_position(list, name) {
        Some(i) => {
            assert(string_views(list@)[i as int] == name@);
            true
        },
        None => false,
    }
}

/// `der(x)` as a string.
fn der_string(x: &String) -> (r: String)
    ensures
        r@ == der_of(x@),
{
    let c = crate::text::str_to_chars(x.as_str());
    let d = crate::blt::der_of_exec(&c);
    crate::text::chars_to_string(&d)
}

/// Equation `st` may determine the unknown `u`: `u` is one of its variables
/// and not a state, or `u` is `der(x)` for a state `x` it differentiates.
/// States themselves are determined by integration, never by an equation.
pub open spec fn may_determine(st: EquationStructure, u: Seq<char>, states: Seq<Seq<char>>) -> bool {
    ||| (string_views(st.variables@).contains(u) && !states.contains(u))
    ||| exists|x: Seq<char>| #[trigger] string_views(st.derivatives@).contains(x) && states.contains(x) && u == der_of(x)
}

/// `m` gives each equation (by position) the position of an unknown it may
/// determine, or `NIL`, and no unknown to two equations.
pub open spec fn valid_pairing(structs: Seq<EquationStructure>, unknowns: Seq<Seq<char>>, states: Seq<Seq<char>>, m: Seq<usize>) -> bool {
    &&& m.len() == structs.len()
    &&& forall|e: int| 0 <= e < m.len() && #[trigger] m[e] != NIL ==> m[e] < unknowns.len() && may_determine(
        structs[e],
        unknowns[m[e] as int],
        states,
    )
    &&& forall|e1: int, e2: int| 0 <= e1 < m.len() && 0 <= e2 < m.len() && e1 != e2 && #[trigger] m[e1] != NIL ==> m[e1] != #[trigger] m[e2]
}

/// The positions of the unknowns an equation may determine.
fn candidates(st: &EquationStructure, unknowns: &Vec<String>, states: &Vec<String>) -> (r: Vec<usize>)
    requires
        string_views(unknowns@).no_duplicates(),
    ensures
        forall|k: int| 0 <= k < r@.len() ==> #[trigger] r@[k] < unknowns@.len(),
        forall|k: usize| #[trigger] r@.contains(k) <==> (k < unknowns@.len() && may_determine(*st, unknowns@[k as int]@, string_views(states@))),
{
    let ghost uv = string_views(unknowns@);
    let ghost sv = string_views(states@);
    let ghost vars = string_views(st.variables@);
    let ghost ders = string_views(st.derivatives@);
    let mut r: Vec<usize> = Vec::new();
    let mut j: usize = 0;
    while j < st.variables.len()
        invariant
            j <= st.variables@.len(),
            uv == string_views(unknowns@),
            sv == string_views(states@),
            vars == string_views(st.variables@),
            uv.no_duplicates(),
            forall|k: int| 0 <= k < r@.len() ==> #[trigger] r@[k] < unknowns@.len(),
            forall|k: usize| #[trigger] r@.contains(k) <==> (k < uv.len() && vars.take(j as int).contains(uv[k as int]) && !sv.contains(uv[k as int])),
        decreases st.variables.len() - j,
    {
        let v = &st.variables[j];
        let ghost before = r@;
        if !contains_string(states, v) {
            match crate::names::string_position(unknowns, v) {
                Some(k) => {
                    r.push(k);
                },
                None => {},
            }
        }
        proof {
            assert(vars.take(j + 1) =~= vars.take(j as int).push(vars[j as int]));
            assert forall|k: usize| #[trigger] r@.contains(k) <==> (k < uv.len() && vars.take(j + 1).contains(uv[k as int]) && !sv.contains(uv[k as int])) by {
                if r@.contains(k) && !before.contains(k) {
                    assert(r@[before.len() as int] == k) by {
                        let q = choose|q: int| 0 <= q < r@.len() && r@[q] == k;
                        if q < before.len() {
                            assert(before[q] == k);
                        }
                    }
                    assert(vars.take(j + 1)[j as int] == uv[k as int]);
                }
                if before.contains(k) {
                    let q = choose|q: int| 0 <= q < before.len() && before[q] == k;
                    assert(r@[q] == k);
                }
                if k < uv.len() && vars.take(j + 1).contains(uv[k as int]) && !sv.contains(uv[k as int]) {
                    if !vars.take(j as int).contains(uv[k as int]) {
                        assert(uv[k as int] == vars[j as int]);
                        assert(uv[k as int] == v@);
                        let k2 = r@[r@.len() - 1];
                        assert(r@.len() == before.len() + 1) by {
                            if r@.len() == before.len() {
                                if string_views(unknowns@).contains(v@) {
                                } else {
                                    assert(uv[k as int] == uv[k as int]);
                                    assert(uv.contains(v@));
                                }
                            }
                        }
                        assert(uv[k2 as int] == v@);
                        assert(k2 == k);
                        assert(r@[r@.len() - 1] == k);
                    } else {
                        assert(before.contains(k));
                        let q = choose|q: int| 0 <= q < before.len() && before[q] == k;
                        assert(r@[q] == k);
                    }
                }
            }
        }
        j = j + 1;
    }
    proof {
        assert(vars.take(vars.len() as int) =~= vars);
    }
    let mut i: usize = 0;
    while i < st.derivatives.len()
        invariant
            i <= st.derivatives@.len(),
            uv == string_views(unknowns@),
            sv == string_views(states@),
            vars == string_views(st.variables@),
            ders == string_views(st.derivatives@),
            uv.no_duplicates(),
            forall|k: int| 0 <= k < r@.len() ==> #[trigger] r@[k] < unknowns@.len(),
            forall|k: usize| #[trigger] r@.contains(k) <==> (k < uv.len() && ((vars.contains(uv[k as int]) && !sv.contains(uv[k as int]))
                || exists|x: Seq<char>| #[trigger] ders.take(i as int).contains(x) && sv.contains(x) && uv[k as int] == der_of(x))),
        decreases st.derivatives.len() - i,
    {
        let d = &st.derivatives[i];
        let ghost before = r@;
        let mut pushed: Option<usize> = None;
        if contains_string(states, d) {
            let name = der_string(d);
            match crate::names::string_position(unknowns, &name) {
                Some(k) => {
                    r.push(k);
                    pushed = Some(k);
                },
                None => {},
            }
        }
        proof {
            let dd = ders[i as int];
            assert(dd == d@);
            assert(ders.take(i + 1) =~= ders.take(i as int).push(dd));
            assert forall|k: usize| #[trigger] r@.contains(k) <==> (k < uv.len() && ((vars.contains(uv[k as int]) && !sv.contains(uv[k as int]))
                || exists|x: Seq<char>| #[trigger] ders.take(i + 1).contains(x) && sv.contains(x) && uv[k as int] == der_of(x))) by {
                let old_ex = exists|x: Seq<char>| #[trigger] ders.take(i as int).contains(x) && sv.contains(x) && uv[k as int] == der_of(x);
                let new_ex = exists|x: Seq<char>| #[trigger] ders.take(i + 1).contains(x) && sv.contains(x) && uv[k as int] == der_of(x);
                if old_ex {
                    let x = choose|x: Seq<char>| #[trigger] ders.take(i as int).contains(x) && sv.contains(x) && uv[k as int] == der_of(x);
                    let q = choose|q: int| 0 <= q < i && #[trigger] ders.take(i as int)[q] == x;
                    assert(ders.take(i + 1)[q] == x);
                    assert(ders.take(i + 1).contains(x));
                }
                if before.contains(k) {
                    let q = choose|q: int| 0 <= q < before.len() && before[q] == k;
                    assert(r@[q] == k);
                }
                if r@.contains(k) && !before.contains(k) {
                    let q = choose|q: int| 0 <= q < r@.len() && r@[q] == k;
                    if q < before.len() {
                        assert(before[q] == k);
                    }
                    assert(pushed == Some(k));
                    assert(ders.take(i + 1)[i as int] == dd);
                    assert(ders.take(i + 1).contains(dd));
                }
                if k < uv.len() && new_ex && !old_ex && !(vars.contains(uv[k as int]) && !sv.contains(uv[k as int])) {
                    let x = choose|x: Seq<char>| #[trigger] ders.take(i + 1).contains(x) && sv.contains(x) && uv[k as int] == der_of(x);
                    let q = choose|q: int| 0 <= q < i + 1 && #[trigger] ders.take(i + 1)[q] == x;
                    if q < i {
                        assert(ders.take(i as int)[q] == x);
                        assert(ders.take(i as int).contains(x));
                    } else {
                        assert(x == dd);
                        assert(uv.contains(der_of(dd)));
                        assert(pushed is Some);
                        let k2 = pushed->0;
                        assert(uv[k2 as int] == der_of(dd));
                        assert(k2 == k);
                        assert(r@[r@.len() - 1] == k);
                    }
                }
            }
        }
        i = i + 1;
    }
    proof {
        assert(ders.take(ders.len() as int) =~= ders);
        assert forall|k: usize| #[trigger] r@.contains(k) <==> (k < unknowns@.len() && may_determine(*st, unknowns@[k as int]@, sv)) by {
            if k < unknowns@.len() {
                assert(uv[k as int] == unknowns@[k as int]@);
            }
        }
    }
    r
}

/// A maximum matching of equations to unknowns (see `valid_pairing`):
/// no valid pairing matches more equations.
pub fn find_structural_matching(structs: &Vec<EquationStructure>, unknowns: &Vec<String>, states: &Vec<String>) -> (m: Vec<usize>)
    requires
        string_views(unknowns@).no_duplicates(),
        structs@.len() + 2 < NIL,
    ensures
        valid_pairing(structs@, string_views(unknowns@), string_views(states@), m@),
        forall|other: Seq<usize>| valid_pairing(structs@, string_views(unknowns@), string_views(states@), other)
            ==> count_matched(other) <= count_matched(m@),
{
    let n_eq = structs.len();
    let n_var = unknowns.len();
    let mut adj: Vec<Vec<usize>> = Vec::new();
    let mut e: usize = 0;
    while e < n_eq
        invariant
            e <= n_eq,
            n_eq == structs@.len(),
            n_var == unknowns@.len(),
            string_views(unknowns@).no_duplicates(),
            adj@.len() == e,
            forall|q: int, k: int| 0 <= q < adj@.len() && 0 <= k < adj@[q]@.len() ==> #[trigger] adj@[q]@[k] < n_var,
            forall|q: int, k: usize| 0 <= q < adj@.len() ==> (#[trigger] adj@[q]@.contains(k) <==> (k < n_var && may_determine(
                structs@[q],
                unknowns@[k as int]@,
                string_views(states@),
            ))),
        decreases n_eq - e,
    {
        let c = candidates(&structs[e], unknowns, states);
        adj.push(c);
        e = e + 1;
    }
    let ghost g = adj@;
    assert(adjacency_ok(g, n_eq as nat, n_var as nat));
    let mut hk = HopcroftKarp::new(n_eq, n_var, adj);
    let _size = hk.max_matching();
    proof {
        HopcroftKarp::lemma_pairing_is_matching(hk);
    }
    let m = hk.pair_eq.clone();
    proof {
        assert(m@ == hk.pair_eq@);
        assert forall|x: int| 0 <= x < m@.len() && #[trigger] m@[x] != NIL implies m@[x] < string_views(unknowns@).len()
            && may_determine(structs@[x], string_views(unknowns@)[m@[x] as int], string_views(states@)) by {
            assert(g[x]@.contains(m@[x]));
        }
        assert forall|other: Seq<usize>| valid_pairing(structs@, string_views(unknowns@), string_views(states@), other)
            implies count_matched(other) <= count_matched(m@) by {
            assert forall|x: int| 0 <= x < other.len() && #[trigger] other[x] != NIL implies other[x] < n_var && g[x]@.contains(other[x]) by {
                assert(string_views(unknowns@)[other[x] as int] == unknowns@[other[x] as int]@);
            }
            assert(is_matching(hk.adj@, hk.n_variables as nat, other));
            HopcroftKarp::lemma_matching_is_maximum(hk, other);
        }
    }
    m
}

// ---------------------------------------------------------------------------
// Choosing equations to differentiate
// ---------------------------------------------------------------------------

/// The highest differentiation level among the listed equations that exist (0 if none).
pub open spec fn max_level(structs: Seq<EquationStructure>, idx: Seq<usize>) -> nat
    decreases idx.len(),
{
    if idx.len() == 0 {
        0
    } else {
        let rest = max_level(structs, idx.drop_last());
        let i = idx.last();
        if i < structs.len() && structs[i as int].diff_level > rest {
            structs[i as int].diff_level as nat
        } else {
            rest
        }
    }
}

/// The listed equations that exist and have the given level, in list order.
pub open spec fn at_level(structs: Seq<EquationStructure>, idx: Seq<usize>, level: nat) -> Seq<usize>
    decreases idx.len(),
{
    if idx.len() == 0 {
        seq![]
    } else {
        let rest = at_level(structs, idx.drop_last(), level);
        let i = idx.last();
        if i < structs.len() && structs[i as int].diff_level == level {
            rest.push(i)
        } else {
            rest
        }
    }
}

/// The listed equations that are constraints, in list order.
pub open spec fn constraints_among(structs: Seq<EquationStructure>, idx: Seq<usize>) -> Seq<usize>
    decreases idx.len(),
{
    if idx.len() == 0 {
        seq![]
    } else {
        let rest = constraints_among(structs, idx.drop_last());
        let i = idx.last();
        if i < structs.len() && structs[i as int].is_constraint {
            rest.push(i)
        } else {
            rest
        }
    }
}

/// The unmatched equations to differentiate next: those of the highest level
/// among them; at level 0, only the constraints among those if there are any.
pub open spec fn to_differentiate(structs: Seq<EquationStructure>, unmatched: Seq<usize>) -> Seq<usize> {
    let level = max_level(structs, unmatched);
    let cands = at_level(structs, unmatched, level);
    let cons = constraints_among(structs, cands);
    if level == 0 && cands.len() > 0 && cons.len() > 0 {
        cons
    } else {
        cands
    }
}

/// Nothing listed stands above the highest level.
proof fn lemma_above_max_level(structs: Seq<EquationStructure>, idx: Seq<usize>, level: nat)
    requires
        level > max_level(structs, idx),
    ensures
        at_level(structs, idx, level) == Seq::<usize>::empty(),
    decreases idx.len(),
{
    if idx.len() > 0 {
        lemma_above_max_level(structs, idx.drop_last(), level);
    }
}

/// Picks the unmatched equations to differentiate (see `to_differentiate`).
pub fn find_equations_to_differentiate(structs: &Vec<EquationStructure>, unmatched: &Vec<usize>) -> (r: Vec<usize>)
    ensures
        r@ == to_differentiate(structs@, unmatched@),
{
    let mut max_diff_level: usize = 0;
    let mut to_diff: Vec<usize> = Vec::new();
    let mut i: usize = 0;
    while i < unmatched.len()
        invariant
            i <= unmatched@.len(),
            max_diff_level == max_level(structs@, unmatched@.take(i as int)),
            to_diff@ == at_level(structs@, unmatched@.take(i as int), max_diff_level as nat),
        decreases unmatched.len() - i,
    {
        let idx = unmatched[i];
        proof {
            let t = unmatched@.take(i as int + 1);
            assert(t.drop_last() =~= unmatched@.take(i as int));
            assert(t.last() == idx);
        }
        if idx < structs.len() {
            let level = structs[idx].diff_level;
            if level > max_diff_level {
                proof {
                    lemma_above_max_level(structs@, unmatched@.take(i as int), level as nat);
                }
                max_diff_level = level;
                to_diff.clear();
                to_diff.push(idx);
                assert(to_diff@ =~= seq![idx]);
            } else if level == max_diff_level {
                to_diff.push(idx);
            }
        }
        i = i + 1;
    }
    proof {
        assert(unmatched@.take(unmatched@.len() as int) =~= unmatched@);
    }
    if max_diff_level == 0 && to_diff.len() > 0 {
        let mut constraints: Vec<usize> = Vec::new();
        let mut k: usize = 0;
        while k < to_diff.len()
            invariant
                k <= to_diff@.len(),
                constraints@ == constraints_among(structs@, to_diff@.take(k as int)),
            decreases to_diff.len() - k,
        {
            let idx = to_diff[k];
            proof {
                let t = to_diff@.take(k as int + 1);
                assert(t.drop_last() =~= to_diff@.take(k as int));
                assert(t.last() == idx);
            }
            if idx < structs.len() && structs[idx].is_constraint {
                constraints.push(idx);
            }
            k = k + 1;
        }
        proof {
            assert(to_diff@.take(to_diff@.len() as int) =~= to_diff@);
        }
        if constraints.len() > 0 {
            return constraints;
        }
    }
    to_diff
}

/// Every equation picked for differentiation is listed and exists, and
/// none is picked twice when none is listed twice.
proof fn lemma_selection(structs: Seq<EquationStructure>, idx: Seq<usize>, level: nat)
    requires
        idx.no_duplicates(),
    ensures
        at_level(structs, idx, level).no_duplicates(),
        constraints_among(structs, idx).no_duplicates(),
        forall|k: int| 0 <= k < at_level(structs, idx, level).len() ==> #[trigger] at_level(structs, idx, level)[k] < structs.len()
            && idx.contains(at_level(structs, idx, level)[k]),
        forall|k: int| 0 <= k < constraints_among(structs, idx).len() ==> #[trigger] constraints_among(structs, idx)[k] < structs.len()
            && idx.contains(constraints_among(structs, idx)[k]),
    decreases idx.len(),
{
    if idx.len() > 0 {
        let d = idx.drop_last();
        assert(d.no_duplicates()) by {
            assert forall|a: int, b: int| 0 <= a < b < d.len() implies d[a] != d[b] by {
                assert(d[a] == idx[a] && d[b] == idx[b]);
            }
        }
        lemma_selection(structs, d, level);
        let x = idx.last();
        assert(!d.contains(x)) by {
            if d.contains(x) {
                let q = choose|q: int| 0 <= q < d.len() && d[q] == x;
                assert(idx[q] == idx[idx.len() - 1]);
            }
        }
        let a = at_level(structs, d, level);
        let c = constraints_among(structs, d);
        assert forall|k: int| 0 <= k < a.len() implies idx.contains(#[trigger] a[k]) by {
            let q = choose|q: int| 0 <= q < d.len() && d[q] == a[k];
            assert(idx[q] == a[k]);
        }
        assert forall|k: int| 0 <= k < c.len() implies idx.contains(#[trigger] c[k]) by {
            let q = choose|q: int| 0 <= q < d.len() && d[q] == c[k];
            assert(idx[q] == c[k]);
        }
        assert(idx.contains(x)) by {
            assert(idx[idx.len() - 1] == x);
        }
        if x < structs.len() && structs[x as int].diff_level == level {
            assert forall|p: int, q: int| 0 <= p < q < a.push(x).len() implies a.push(x)[p] != a.push(x)[q] by {
                if q == a.len() {
                    assert(d.contains(a[p]));
                }
            }
        }
        if x < structs.len() && structs[x as int].is_constraint {
            assert forall|p: int, q: int| 0 <= p < q < c.push(x).len() implies c.push(x)[p] != c.push(x)[q] by {
                if q == c.len() {
                    assert(d.contains(c[p]));
                }
            }
        }
    }
}

/// The picked equations exist, are unmatched, and none is picked twice.
proof fn lemma_to_differentiate(structs: Seq<EquationStructure>, unmatched: Seq<usize>)
    requires
        unmatched.no_duplicates(),
    ensures
        to_differentiate(structs, unmatched).no_duplicates(),
        forall|k: int| 0 <= k < to_differentiate(structs, unmatched).len() ==> #[trigger] to_differentiate(structs, unmatched)[k]
            < structs.len() && unmatched.contains(to_differentiate(structs, unmatched)[k]),
{
    let level = max_level(structs, unmatched);
    lemma_selection(structs, unmatched, level);
    let cands = at_level(structs, unmatched, level);
    lemma_selection(structs, cands, level);
    assert forall|k: int| 0 <= k < constraints_among(structs, cands).len() implies unmatched.contains(#[trigger] constraints_among(structs, cands)[k]) by {
        let x = constraints_among(structs, cands)[k];
        let q = choose|q: int| 0 <= q < cands.len() && cands[q] == x;
        assert(unmatched.contains(cands[q]));
    }
}

// ---------------------------------------------------------------------------
// Index reduction
// ---------------------------------------------------------------------------

/// The outcome of a structural analysis.
#[derive(Debug, Clone)]
pub struct StructuralAnalysis {
    /// The differentiation index (0 for an ODE, 1 for an index-1 DAE, ...).
    pub dae_index: usize,
    /// Equations to differentiate for index reduction, each with how many
    /// times; an equation index appears at most once.
    pub equations_to_differentiate: Vec<(usize, usize)>,
    /// Dummy derivatives introduced by index reduction.
    pub dummy_derivatives: Vec<DummyDerivative>,
    /// The algebraic loops found.
    pub algebraic_loops: Vec<AlgebraicLoop>,
    /// Whether the system is structurally singular.
    pub is_singular: bool,
    /// Diagnostic messages.
    pub diagnostics: Vec<String>,
}

/// A new algebraic variable standing for a higher derivative.
#[derive(Debug, Clone)]
pub struct DummyDerivative {
    /// Name of the dummy variable (such as `der_x` for `der(x)`).
    pub name: String,
    /// The variable differentiated.
    pub base_variable: String,
    /// Order of differentiation.
    pub order: usize,
}

/// An algebraic loop: equations that must be solved together.
#[derive(Debug, Clone)]
pub struct AlgebraicLoop {
    /// Indices of the equations of the loop.
    pub equation_indices: Vec<usize>,
    /// The variables involved, each once.
    pub variables: Vec<String>,
    /// The tearing variables chosen.
    pub tearing_variables: Vec<String>,
    /// The other variables, solved from the tearing variables.
    pub residual_variables: Vec<String>,
    /// Number of equations of the loop.
    pub size: usize,
}

impl Default for StructuralAnalysis {
    fn default() -> (r: Self)
        ensures
            r.dae_index == 0,
            r.equations_to_differentiate@.len() == 0,
            r.dummy_derivatives@.len() == 0,
            r.algebraic_loops@.len() == 0,
            !r.is_singular,
            r.diagnostics@.len() == 0,
    {
        StructuralAnalysis {
            dae_index: 0,
            equations_to_differentiate: Vec::new(),
            dummy_derivatives: Vec::new(),
            algebraic_loops: Vec::new(),
            is_singular: false,
            diagnostics: Vec::new(),
        }
    }
}

/// The most iterations index reduction makes.
pub const MAX_ITERATIONS: usize = 10;

/// The diagnostic of a system in which no equation can be differentiated.
pub open spec fn singular_message() -> Seq<char> {
    "Structurally singular system: cannot find equations to differentiate"@
}

/// The diagnostic of an index reduction that did not finish.
pub open spec fn no_convergence_message() -> Seq<char> {
    "Index reduction did not converge"@
}

/// Whether a name starts with `der(`.
pub open spec fn starts_with_der(x: Seq<char>) -> bool {
    x.len() >= 4 && x.subrange(0, 4) == seq!['d', 'e', 'r', '(']
}

/// Whether a name starts with `der(`.
fn starts_with_der_exec(x: &String) -> (r: bool)
    ensures
        r == starts_with_der(x@),
{
    let c = crate::text::str_to_chars(x.as_str());
    if c.len() < 4 {
        return false;
    }
    let r = c[0] == 'd' && c[1] == 'e' && c[2] == 'r' && c[3] == '(';
    assert(r == (c@.subrange(0, 4) =~= seq!['d', 'e', 'r', '(']));
    r
}

/// `2^k`.
pub open spec fn doubling(k: nat) -> nat
    decreases k,
{
    if k == 0 {
        1
    } else {
        2 * doubling((k - 1) as nat)
    }
}

proof fn lemma_doubling_bound(k: nat)
    requires
        k <= 10,
    ensures
        1 <= doubling(k) <= 1024,
        doubling(k) <= doubling(10),
    decreases k,
{
    reveal_with_fuel(doubling, 11);
    if k > 0 {
        lemma_doubling_bound((k - 1) as nat);
    }
}

/// The recorded differentiations: distinct equations, each recorded between
/// once and `bound` times.
pub open spec fn records_ok(rec: Seq<(usize, usize)>, bound: nat) -> bool {
    &&& forall|a: int, b: int| 0 <= a < b < rec.len() ==> (#[trigger] rec[a]).0 != (#[trigger] rec[b]).0
    &&& forall|a: int| 0 <= a < rec.len() ==> 1 <= (#[trigger] rec[a]).1 <= bound
}

/// Records one more differentiation of equation `idx`.
fn record_differentiation(rec: &mut Vec<(usize, usize)>, idx: usize, bound: Ghost<nat>)
    requires
        records_ok(old(rec)@, bound@),
        1 <= bound@ <= usize::MAX,
        forall|a: int| 0 <= a < old(rec)@.len() && (#[trigger] old(rec)@[a]).0 == idx ==> old(rec)@[a].1 < bound@,
    ensures
        records_ok(final(rec)@, bound@),
        final(rec)@.len() >= 1,
        final(rec)@.len() >= old(rec)@.len(),
        exists|a: int| 0 <= a < final(rec)@.len() && (#[trigger] final(rec)@[a]).0 == idx,
        forall|a: int| 0 <= a < old(rec)@.len() && (#[trigger] old(rec)@[a]).0 != idx ==> final(rec)@[a] == old(rec)@[a],
        forall|a: int| old(rec)@.len() <= a < final(rec)@.len() ==> (#[trigger] final(rec)@[a]).0 == idx,
        forall|a: int| 0 <= a < old(rec)@.len() ==> (#[trigger] final(rec)@[a]).0 == old(rec)@[a].0,
        forall|a: int| 0 <= a < final(rec)@.len() ==> (#[trigger] final(rec)@[a]).1 == (if a < old(rec)@.len() {
            old(rec)@[a].1 as int
        } else {
            0
        }) + (if final(rec)@[a].0 == idx {
            1int
        } else {
            0int
        }),
{
    let ghost r0 = rec@;
    let mut k: usize = 0;
    while k < rec.len()
        invariant
            k <= rec@.len(),
            rec@ == r0,
            r0 == old(rec)@,
            records_ok(r0, bound@),
            1 <= bound@ <= usize::MAX,
            forall|a: int| 0 <= a < r0.len() && (#[trigger] r0[a]).0 == idx ==> r0[a].1 < bound@,
            forall|a: int| 0 <= a < k ==> (#[trigger] rec@[a]).0 != idx,
        decreases rec.len() - k,
    {
        if rec[k].0 == idx {
            let c = rec[k].1;
            assert(r0[k as int].1 < bound@);
            rec.set(k, (idx, c + 1));
            assert(rec@ == r0.update(k as int, (idx, (c + 1) as usize)));
            assert(rec@[k as int].0 == idx);
            assert forall|a: int, b: int| 0 <= a < b < rec@.len() implies (#[trigger] rec@[a]).0 != (#[trigger] rec@[b]).0 by {
                assert(r0[a].0 != r0[b].0);
            }
            return;
        }
        k = k + 1;
    }
    rec.push((idx, 1));
    assert(rec@[rec@.len() - 1].0 == idx);
    assert(rec@ == r0.push((idx, 1usize)));
    assert forall|a: int, b: int| 0 <= a < b < rec@.len() implies (#[trigger] rec@[a]).0 != (#[trigger] rec@[b]).0 by {
        if b < r0.len() {
            assert(r0[a].0 != r0[b].0);
        }
    }
}

/// The variables of all the equations.
pub open spec fn all_equation_vars(equations: Seq<Equation>) -> Set<Seq<char>> {
    Set::new(|v: Seq<char>| exists|i: int| 0 <= i < equations.len() && #[trigger] equation_vars(equations[i]).contains(v))
}

/// The unknowns index reduction starts with: `der(x)` for each state `x`,
/// and the algebraic unknowns given, or, where none are given, every
/// variable of the equations that is neither a state nor starts with `der(`.
pub open spec fn initial_unknowns(equations: Seq<Equation>, states: Seq<Seq<char>>, algebraic: Option<Seq<Seq<char>>>) -> Set<Seq<char>> {
    states.map_values(|x: Seq<char>| der_of(x)).to_set().union(
        match algebraic {
            Some(a) => a.to_set(),
            None => Set::new(|v: Seq<char>| all_equation_vars(equations).contains(v) && !states.contains(v) && !starts_with_der(v)),
        },
    )
}

/// `structs` and `unknowns` are the system index reduction starts from.
pub open spec fn initial_system(
    equations: Seq<Equation>,
    states: Seq<Seq<char>>,
    algebraic: Option<Seq<Seq<char>>>,
    structs: Seq<EquationStructure>,
    unknowns: Seq<Seq<char>>,
) -> bool {
    &&& structs.len() == equations.len()
    &&& forall|i: int| 0 <= i < structs.len() ==> describes(#[trigger] structs[i], equations[i]) && structs[i].diff_level == 0
    &&& unknowns.no_duplicates()
    &&& unknowns.to_set() == initial_unknowns(equations, states, algebraic)
}

/// The positions among the first `k` of `m` that are `NIL`, in order.
pub open spec fn nil_positions(m: Seq<usize>, k: int) -> Seq<usize>
    decreases k,
{
    if k <= 0 {
        seq![]
    } else if m[k - 1] == NIL {
        nil_positions(m, k - 1).push((k - 1) as usize)
    } else {
        nil_positions(m, k - 1)
    }
}

/// `m` is a maximum matching of the system (see `find_structural_matching`).
pub open spec fn is_maximum_pairing(structs: Seq<EquationStructure>, unknowns: Seq<Seq<char>>, states: Seq<Seq<char>>, m: Seq<usize>) -> bool {
    &&& valid_pairing(structs, unknowns, states, m)
    &&& forall|other: Seq<usize>| valid_pairing(structs, unknowns, states, other) ==> count_matched(other) <= count_matched(m)
}

/// The equations picked for differentiation after matching `m`.
pub open spec fn picked(structs: Seq<EquationStructure>, m: Seq<usize>) -> Seq<usize> {
    to_differentiate(structs, nil_positions(m, m.len() as int))
}

/// `child` describes the time derivative of the simple equation `parent`
/// holds, one level higher.
pub open spec fn derived_from(parent: EquationStructure, child: EquationStructure) -> bool {
    &&& child.diff_level == parent.diff_level + 1
    &&& exists|d: Equation| #[trigger] describes(child, d) && match (parent.equation, d) {
        (Equation::Simple { lhs, rhs }, Equation::Simple { lhs: dl, rhs: dr }) => differentiated(lhs, dl) && differentiated(
            rhs,
            dr,
        ),
        _ => false,
    }
}

/// `new` holds, in order, the derivatives of the picked equations that are
/// simple (others have none).
pub open spec fn added(structs: Seq<EquationStructure>, picks: Seq<usize>, new: Seq<EquationStructure>) -> bool
    decreases picks.len(),
{
    if picks.len() == 0 {
        new.len() == 0
    } else {
        let idx = picks.last();
        if structs[idx as int].equation is Simple {
            new.len() > 0 && added(structs, picks.drop_last(), new.drop_last()) && derived_from(structs[idx as int], new.last())
        } else {
            added(structs, picks.drop_last(), new)
        }
    }
}

/// `der(x)` for each state `x` that one of `new` differentiates.
pub open spec fn new_unknowns(new: Seq<EquationStructure>, states: Seq<Seq<char>>) -> Set<Seq<char>> {
    Set::new(|u: Seq<char>| exists|j: int, x: Seq<char>| 0 <= j < new.len() && #[trigger] string_views(new[j].derivatives@).contains(x)
        && states.contains(x) && u == der_of(x))
}

/// `(s2, u2)` is the system `(s1, u1)` with the picked equations differentiated:
/// their derivatives appended, and the derivatives of the states these
/// differentiate added to the unknowns.
pub open spec fn grown(
    s1: Seq<EquationStructure>,
    u1: Seq<Seq<char>>,
    picks: Seq<usize>,
    states: Seq<Seq<char>>,
    s2: Seq<EquationStructure>,
    u2: Seq<Seq<char>>,
) -> bool {
    &&& s1.len() <= s2.len()
    &&& s2.take(s1.len() as int) == s1
    &&& added(s1, picks, s2.skip(s1.len() as int))
    &&& u2.no_duplicates()
    &&& u2.to_set() == u1.to_set().union(new_unknowns(s2.skip(s1.len() as int), states))
}

/// How many of the first `k` steps picked equation `idx`.
pub open spec fn times_picked(systems: Seq<(Seq<EquationStructure>, Seq<Seq<char>>)>, ms: Seq<Seq<usize>>, k: int, idx: usize) -> nat
    decreases k,
{
    if k <= 0 {
        0
    } else {
        times_picked(systems, ms, k - 1, idx) + if picked(systems[k - 1].0, ms[k - 1]).contains(idx) {
            1nat
        } else {
            0nat
        }
    }
}

/// A run of index reduction: `systems[0]` is the initial system, and each
/// `systems[j + 1]` grows from `systems[j]` by differentiating the
/// equations picked after a maximum matching `ms[j]` that leaves an unknown
/// unmatched.
pub open spec fn run(
    equations: Seq<Equation>,
    states: Seq<Seq<char>>,
    algebraic: Option<Seq<Seq<char>>>,
    systems: Seq<(Seq<EquationStructure>, Seq<Seq<char>>)>,
    ms: Seq<Seq<usize>>,
) -> bool {
    &&& systems.len() >= 1
    &&& ms.len() >= systems.len() - 1
    &&& initial_system(equations, states, algebraic, systems[0].0, systems[0].1)
    &&& forall|j: int| 0 <= j < systems.len() - 1 ==> {
        &&& is_maximum_pairing(systems[j].0, systems[j].1, states, #[trigger] ms[j])
        &&& count_matched(ms[j]) < systems[j].1.len()
        &&& picked(systems[j].0, ms[j]).len() > 0
        &&& grown(systems[j].0, systems[j].1, picked(systems[j].0, ms[j]), states, systems[j + 1].0, systems[j + 1].1)
    }
}

/// `r` reports the run: the index is the number of differentiating steps;
/// each picked equation is recorded with how often it was picked; the run
/// ends when a maximum matching leaves no unknown unmatched (converged), when
/// it leaves one unmatched but nothing can be picked (singular), or after
/// ten steps (not converged); the tenth matching counts as not converged
/// even when it leaves no unknown unmatched.
pub open spec fn reports_run(
    states: Seq<Seq<char>>,
    systems: Seq<(Seq<EquationStructure>, Seq<Seq<char>>)>,
    ms: Seq<Seq<usize>>,
    r: StructuralAnalysis,
) -> bool {
    let k = systems.len() - 1;
    let d = string_views(r.diagnostics@);
    &&& r.dae_index == k
    &&& forall|a: int| 0 <= a < r.equations_to_differentiate@.len() ==> (#[trigger] r.equations_to_differentiate@[a]).1
        == times_picked(systems, ms, k, r.equations_to_differentiate@[a].0)
    &&& forall|j: int, idx: usize| 0 <= j < k && #[trigger] picked(systems[j].0, ms[j]).contains(idx) ==> exists|a: int|
        0 <= a < r.equations_to_differentiate@.len() && (#[trigger] r.equations_to_differentiate@[a]).0 == idx
    &&& if k == MAX_ITERATIONS {
        &&& ms.len() == k
        &&& r.is_singular && d == seq![no_convergence_message()]
    } else {
        &&& ms.len() == k + 1
        &&& k < MAX_ITERATIONS
        &&& is_maximum_pairing(systems[k].0, systems[k].1, states, ms[k])
        &&& if count_matched(ms[k]) >= systems[k].1.len() {
            if k + 1 == MAX_ITERATIONS {
                r.is_singular && d == seq![no_convergence_message()]
            } else {
                !r.is_singular && d == Seq::<Seq<char>>::empty()
            }
        } else {
            &&& picked(systems[k].0, ms[k]).len() == 0
            &&& r.is_singular
            &&& if k + 1 == MAX_ITERATIONS {
                d == seq![singular_message(), no_convergence_message()]
            } else {
                d == seq![singular_message()]
            }
        }
    }
}

/// The algebraic unknowns given, as characters.
pub open spec fn opt_string_views(o: Option<&Vec<String>>) -> Option<Seq<Seq<char>>> {
    match o {
        Some(a) => Some(string_views(a@)),
        None => None,
    }
}

/// The system index reduction starts from (see `initial_system`).
fn initial_setup(
    equations: &Vec<Equation>,
    state_variables: &Vec<String>,
    algebraic_variables: Option<&Vec<String>>,
) -> (r: (Vec<EquationStructure>, Vec<String>))
    ensures
        initial_system(equations@, string_views(state_variables@), opt_string_views(algebraic_variables), r.0@, string_views(r.1@)),
{
    let ghost sv = string_views(state_variables@);
    let n = equations.len();
    let mut structs: Vec<EquationStructure> = Vec::new();
    let mut i: usize = 0;
    while i < n
        invariant
            i <= n,
            n == equations@.len(),
            structs@.len() == i,
            forall|k: int| 0 <= k < structs@.len() ==> describes(#[trigger] structs@[k], equations@[k]) && structs@[k].diff_level == 0,
        decreases n - i,
    {
        structs.push(analyze_equation_structure(&equations[i]));
        i = i + 1;
    }
    // every variable of the equations, each once
    let mut all_vars: Vec<String> = Vec::new();
    let mut e: usize = 0;
    while e < n
        invariant
            e <= n,
            n == equations@.len(),
            structs@.len() == n,
            forall|k: int| 0 <= k < structs@.len() ==> describes(#[trigger] structs@[k], equations@[k]) && structs@[k].diff_level == 0,
            string_views(all_vars@).no_duplicates(),
            string_views(all_vars@).to_set() == Set::new(|v: Seq<char>| exists|q: int| 0 <= q < e && #[trigger] equation_vars(equations@[q]).contains(v)),
        decreases n - e,
    {
        let ghost base = string_views(all_vars@).to_set();
        let ghost ev = string_views(structs@[e as int].variables@);
        let mut j: usize = 0;
        while j < structs[e].variables.len()
            invariant
                e < structs@.len(),
                ev == string_views(structs@[e as int].variables@),
                j <= ev.len(),
                string_views(all_vars@).no_duplicates(),
                string_views(all_vars@).to_set() == base.union(ev.take(j as int).to_set()),
            decreases ev.len() - j,
        {
            crate::names::push_unique_string(&mut all_vars, structs[e].variables[j].clone());
            proof {
                assert(ev.take(j as int + 1) =~= ev.take(j as int).push(ev[j as int]));
                crate::names::lemma_push_to_set(ev.take(j as int), ev[j as int]);
                assert(string_views(all_vars@).to_set() =~= base.union(ev.take(j as int + 1).to_set()));
            }
            j = j + 1;
        }
        proof {
            assert(ev.take(ev.len() as int) =~= ev);
            assert(describes(structs@[e as int], equations@[e as int]));
            assert(string_views(all_vars@).to_set() =~= Set::new(
                |v: Seq<char>| exists|q: int| 0 <= q < e + 1 && #[trigger] equation_vars(equations@[q]).contains(v),
            )) by {
                assert forall|v: Seq<char>| string_views(all_vars@).to_set().contains(v) <==> (exists|q: int| 0 <= q < e + 1 && #[trigger] equation_vars(equations@[q]).contains(v)) by {
                    if ev.to_set().contains(v) {
                        assert(equation_vars(equations@[e as int]).to_set().contains(v));
                        assert(equation_vars(equations@[e as int]).contains(v));
                    }
                    if exists|q: int| 0 <= q < e + 1 && #[trigger] equation_vars(equations@[q]).contains(v) {
                        let q = choose|q: int| 0 <= q < e + 1 && #[trigger] equation_vars(equations@[q]).contains(v);
                        if q == e {
                            assert(equation_vars(equations@[e as int]).to_set().contains(v));
                            assert(ev.to_set().contains(v));
                        } else {
                            assert(base.contains(v));
                        }
                    }
                }
            }
        }
        e = e + 1;
    }
    proof {
        assert(string_views(all_vars@).to_set() =~= all_equation_vars(equations@));
    }
    // the unknowns
    let ghost ders = sv.map_values(|x: Seq<char>| der_of(x));
    let mut unknowns: Vec<String> = Vec::new();
    let mut k: usize = 0;
    while k < state_variables.len()
        invariant
            k <= state_variables@.len(),
            sv == string_views(state_variables@),
            ders == sv.map_values(|x: Seq<char>| der_of(x)),
            string_views(unknowns@).no_duplicates(),
            string_views(unknowns@).to_set() == ders.take(k as int).to_set(),
        decreases state_variables.len() - k,
    {
        let d = der_string(&state_variables[k]);
        proof {
            assert(ders.take(k as int + 1) =~= ders.take(k as int).push(d@));
            crate::names::lemma_push_to_set(ders.take(k as int), d@);
        }
        crate::names::push_unique_string(&mut unknowns, d);
        k = k + 1;
    }
    proof {
        assert(ders.take(ders.len() as int) =~= ders);
    }
    let ghost dset = ders.to_set();
    match algebraic_variables {
        Some(alg) => {
            let ghost av = string_views(alg@);
            let mut q: usize = 0;
            while q < alg.len()
                invariant
                    q <= alg@.len(),
                    av == string_views(alg@),
                    string_views(unknowns@).no_duplicates(),
                    string_views(unknowns@).to_set() == dset.union(av.take(q as int).to_set()),
                decreases alg.len() - q,
            {
                proof {
                    assert(av.take(q as int + 1) =~= av.take(q as int).push(av[q as int]));
                    crate::names::lemma_push_to_set(av.take(q as int), av[q as int]);
                }
                crate::names::push_unique_string(&mut unknowns, alg[q].clone());
                proof {
                    assert(string_views(unknowns@).to_set() =~= dset.union(av.take(q as int + 1).to_set()));
                }
                q = q + 1;
            }
            proof {
                assert(av.take(av.len() as int) =~= av);
            }
        },
        None => {
            let ghost allv = string_views(all_vars@);
            let mut q: usize = 0;
            while q < all_vars.len()
                invariant
                    q <= all_vars@.len(),
                    allv == string_views(all_vars@),
                    sv == string_views(state_variables@),
                    string_views(unknowns@).no_duplicates(),
                    string_views(unknowns@).to_set() == dset.union(Set::new(
                        |v: Seq<char>| allv.take(q as int).contains(v) && !sv.contains(v) && !starts_with_der(v),
                    )),
                decreases all_vars.len() - q,
            {
                let v = &all_vars[q];
                let keep = !contains_string(state_variables, v) && !starts_with_der_exec(v);
                let ghost before = string_views(unknowns@).to_set();
                if keep {
                    crate::names::push_unique_string(&mut unknowns, v.clone());
                }
                proof {
                    assert(allv.take(q as int + 1) =~= allv.take(q as int).push(allv[q as int]));
                    assert forall|w: Seq<char>| allv.take(q as int + 1).contains(w) <==> (allv.take(q as int).contains(w) || w == allv[q as int]) by {
                        crate::names::lemma_push_to_set(allv.take(q as int), allv[q as int]);
                        assert(allv.take(q as int + 1).to_set().contains(w) == allv.take(q as int + 1).contains(w));
                        assert(allv.take(q as int).to_set().contains(w) == allv.take(q as int).contains(w));
                    }
                    let x = allv[q as int];
                    assert(x == v@);
                    assert(keep == (!sv.contains(x) && !starts_with_der(x)));
                    assert forall|w: Seq<char>| string_views(unknowns@).to_set().contains(w) <==> (dset.contains(w) || (
                        allv.take(q as int + 1).contains(w) && !sv.contains(w) && !starts_with_der(w))) by {
                        if keep {
                            assert(string_views(unknowns@).to_set() == before.insert(x));
                        } else {
                            assert(string_views(unknowns@).to_set() == before);
                        }
                    }
                    assert(string_views(unknowns@).to_set() =~= dset.union(Set::new(
                        |w: Seq<char>| allv.take(q as int + 1).contains(w) && !sv.contains(w) && !starts_with_der(w),
                    )));
                }
                q = q + 1;
            }
            proof {
                assert(allv.take(allv.len() as int) =~= allv);
                assert(Set::new(|v: Seq<char>| allv.contains(v) && !sv.contains(v) && !starts_with_der(v)) =~= Set::new(
                    |v: Seq<char>| all_equation_vars(equations@).contains(v) && !sv.contains(v) && !starts_with_der(v),
                )) by {
                    assert forall|v: Seq<char>| allv.contains(v) == all_equation_vars(equations@).contains(v) by {
                        assert(allv.to_set().contains(v) == allv.contains(v));
                    }
                }
            }
        },
    }
    proof {
        assert(string_views(unknowns@).to_set() =~= initial_unknowns(equations@, sv, opt_string_views(algebraic_variables)));
    }
    (structs, unknowns)
}

/// Steps beyond the first `k` do not change how often they picked an equation.
proof fn lemma_times_picked_prefix(
    s1: Seq<(Seq<EquationStructure>, Seq<Seq<char>>)>,
    m1: Seq<Seq<usize>>,
    s2: Seq<(Seq<EquationStructure>, Seq<Seq<char>>)>,
    m2: Seq<Seq<usize>>,
    k: int,
    idx: usize,
)
    requires
        k <= s1.len(),
        k <= s2.len(),
        k <= m1.len(),
        k <= m2.len(),
        forall|j: int| 0 <= j < k ==> s1[j] == s2[j] && m1[j] == m2[j],
    ensures
        times_picked(s1, m1, k, idx) == times_picked(s2, m2, k, idx),
    decreases k,
{
    if k > 0 {
        lemma_times_picked_prefix(s1, m1, s2, m2, k - 1, idx);
    }
}

/// The unknowns a new equation brings.
proof fn lemma_new_unknowns_push(new: Seq<EquationStructure>, d: EquationStructure, states: Seq<Seq<char>>)
    ensures
        new_unknowns(new.push(d), states) == new_unknowns(new, states).union(Set::new(
            |u: Seq<char>| exists|x: Seq<char>| #[trigger] string_views(d.derivatives@).contains(x) && states.contains(x) && u == der_of(x),
        )),
{
    let p = new.push(d);
    assert forall|u: Seq<char>| new_unknowns(p, states).contains(u) <==> (new_unknowns(new, states).contains(u) || exists|x: Seq<char>|
        #[trigger] string_views(d.derivatives@).contains(x) && states.contains(x) && u == der_of(x)) by {
        if new_unknowns(p, states).contains(u) {
            let (j, x) = choose|j: int, x: Seq<char>| 0 <= j < p.len() && #[trigger] string_views(p[j].derivatives@).contains(x)
                && states.contains(x) && u == der_of(x);
            if j < new.len() {
                assert(p[j] == new[j]);
                assert(new_unknowns(new, states).contains(u));
            } else {
                assert(p[j] == d);
            }
        }
        if new_unknowns(new, states).contains(u) {
            let (j, x) = choose|j: int, x: Seq<char>| 0 <= j < new.len() && #[trigger] string_views(new[j].derivatives@).contains(x)
                && states.contains(x) && u == der_of(x);
            assert(p[j] == new[j]);
            assert(string_views(p[j].derivatives@).contains(x));
        }
        if exists|x: Seq<char>| #[trigger] string_views(d.derivatives@).contains(x) && states.contains(x) && u == der_of(x) {
            let x = choose|x: Seq<char>| #[trigger] string_views(d.derivatives@).contains(x) && states.contains(x) && u == der_of(x);
            assert(p[new.len() as int] == d);
            assert(string_views(p[new.len() as int].derivatives@).contains(x));
        }
    }
    assert(new_unknowns(p, states) =~= new_unknowns(new, states).union(Set::new(
        |u: Seq<char>| exists|x: Seq<char>| #[trigger] string_views(d.derivatives@).contains(x) && states.contains(x) && u == der_of(x),
    )));
}

/// Index reduction by the Pantelides algorithm.
///
/// The unknowns are `der(x)` for each state `x`, and the algebraic unknowns
/// given, or, where none are given, every variable of the equations that is
/// neither a state nor starts with `der(` (see `initial_unknowns`). Each
/// iteration matches equations to unknowns (see `find_structural_matching`);
/// once a maximum matching leaves no unknown unmatched, the index is the
/// number of iterations that differentiated equations. Otherwise the
/// equations picked by `find_equations_to_differentiate` are differentiated
/// and added, with the derivatives of the states they differentiate as new
/// unknowns. The analysis gives up (structurally singular) when nothing can
/// be picked or after ten iterations; the tenth iteration counts as not
/// converged even when it matches every unknown (see `run` and `reports_run`).
pub fn pantelides_index_reduction(
    equations: &Vec<Equation>,
    state_variables: &Vec<String>,
    algebraic_variables: Option<&Vec<String>>,
) -> (r: StructuralAnalysis)
    requires
        equations@.len() * 1024 + 2 < NIL,
    ensures
        exists|systems: Seq<(Seq<EquationStructure>, Seq<Seq<char>>)>, ms: Seq<Seq<usize>>|
            #![trigger run(equations@, string_views(state_variables@), opt_string_views(algebraic_variables), systems, ms)]
            run(equations@, string_views(state_variables@), opt_string_views(algebraic_variables), systems, ms)
            && reports_run(string_views(state_variables@), systems, ms, r),
        r.dae_index <= MAX_ITERATIONS,
        (r.dae_index == 0) == (r.equations_to_differentiate@.len() == 0),
        records_ok(r.equations_to_differentiate@, r.dae_index as nat),
        r.dummy_derivatives@.len() == 0,
        r.algebraic_loops@.len() == 0,
        r.is_singular == (r.diagnostics@.len() > 0),
{
    let ghost sv = string_views(state_variables@);
    let ghost alg = opt_string_views(algebraic_variables);
    let n = equations.len();
    let mut analysis = StructuralAnalysis {
        dae_index: 0,
        equations_to_differentiate: Vec::new(),
        dummy_derivatives: Vec::new(),
        algebraic_loops: Vec::new(),
        is_singular: false,
        diagnostics: Vec::new(),
    };
    let (mut structs, mut unknowns) = initial_setup(equations, state_variables, algebraic_variables);
    let ghost mut systems: Seq<(Seq<EquationStructure>, Seq<Seq<char>>)> = seq![(structs@, string_views(unknowns@))];
    let ghost mut ms: Seq<Seq<usize>> = Seq::empty();
    let ghost mut converged = false;
    let ghost mut stuck = false;
    let mut iteration: usize = 0;
    proof {
        lemma_doubling_bound(0);
        assert(structs@.len() == n);
    }
    while iteration < MAX_ITERATIONS
        invariant_except_break
            analysis.dae_index == iteration,
            !analysis.is_singular,
            analysis.diagnostics@.len() == 0,
            (iteration == 0) == (analysis.equations_to_differentiate@.len() == 0),
            systems.len() == iteration + 1,
            ms.len() == iteration,
            systems.last() == (structs@, string_views(unknowns@)),
            !converged && !stuck,
        invariant
            iteration <= MAX_ITERATIONS,
            n == equations@.len(),
            n * 1024 + 2 < NIL,
            sv == string_views(state_variables@),
            alg == opt_string_views(algebraic_variables),
            structs@.len() <= n * doubling(iteration as nat),
            forall|q: int| 0 <= q < structs@.len() ==> (#[trigger] structs@[q]).diff_level <= iteration,
            string_views(unknowns@).no_duplicates(),
            records_ok(analysis.equations_to_differentiate@, analysis.dae_index as nat),
            analysis.dummy_derivatives@.len() == 0,
            analysis.algebraic_loops@.len() == 0,
            run(equations@, sv, alg, systems, ms),
            analysis.dae_index == systems.len() - 1,
            forall|a: int| 0 <= a < analysis.equations_to_differentiate@.len() ==> (#[trigger] analysis.equations_to_differentiate@[a]).1
                == times_picked(systems, ms, systems.len() - 1, analysis.equations_to_differentiate@[a].0),
            forall|j: int, idx: usize| 0 <= j < systems.len() - 1 && #[trigger] picked(systems[j].0, ms[j]).contains(idx) ==> exists|a: int|
                0 <= a < analysis.equations_to_differentiate@.len() && (#[trigger] analysis.equations_to_differentiate@[a]).0 == idx,
        ensures
            (analysis.dae_index == 0) == (analysis.equations_to_differentiate@.len() == 0),
            converged ==> {
                &&& ms.len() == systems.len() && iteration == systems.len()
                &&& is_maximum_pairing(systems.last().0, systems.last().1, sv, ms.last())
                &&& count_matched(ms.last()) >= systems.last().1.len()
                &&& !analysis.is_singular && string_views(analysis.diagnostics@) == Seq::<Seq<char>>::empty()
            },
            stuck ==> {
                &&& ms.len() == systems.len() && iteration == systems.len()
                &&& is_maximum_pairing(systems.last().0, systems.last().1, sv, ms.last())
                &&& count_matched(ms.last()) < systems.last().1.len()
                &&& picked(systems.last().0, ms.last()).len() == 0
                &&& analysis.is_singular && string_views(analysis.diagnostics@) == seq![singular_message()]
            },
            !converged && !stuck ==> {
                &&& ms.len() == MAX_ITERATIONS && systems.len() == MAX_ITERATIONS + 1 && iteration == MAX_ITERATIONS
                &&& !analysis.is_singular && analysis.diagnostics@.len() == 0
            },
        decreases MAX_ITERATIONS - iteration,
    {
        proof {
            lemma_doubling_bound(iteration as nat);
            lemma_doubling_bound(iteration as nat + 1);
            assert(n * doubling(iteration as nat) <= n * 1024) by (nonlinear_arith)
                requires
                    doubling(iteration as nat) <= 1024,
            ;
        }
        let ghost j = iteration as int;
        let ghost s0 = structs@;
        let ghost u0 = string_views(unknowns@);
        iteration = iteration + 1;
        proof {
            assert(doubling(iteration as nat) == 2 * doubling((iteration - 1) as nat));
            assert(n * doubling((iteration - 1) as nat) <= n * doubling(iteration as nat)) by (nonlinear_arith)
                requires
                    doubling(iteration as nat) == 2 * doubling((iteration - 1) as nat),
            ;
        }
        let m = find_structural_matching(&structs, &unknowns, state_variables);
        // the matched count and the unmatched equations
        let mut matched: usize = 0;
        let mut unmatched: Vec<usize> = Vec::new();
        let mut x: usize = 0;
        while x < m.len()
            invariant
                x <= m@.len(),
                matched <= x,
                matched == count_matched(m@.take(x as int)),
                unmatched@ == nil_positions(m@, x as int),
                forall|a: int, b: int| 0 <= a < b < unmatched@.len() ==> unmatched@[a] < unmatched@[b],
                forall|a: int| 0 <= a < unmatched@.len() ==> #[trigger] unmatched@[a] < x,
            decreases m.len() - x,
        {
            proof {
                assert(m@.take(x as int + 1).drop_last() =~= m@.take(x as int));
            }
            if m[x] == NIL {
                unmatched.push(x);
            } else {
                matched = matched + 1;
            }
            x = x + 1;
        }
        proof {
            assert(m@.take(m@.len() as int) =~= m@);
            assert(unmatched@.no_duplicates()) by {
                assert forall|a: int, b: int| 0 <= a < unmatched@.len() && 0 <= b < unmatched@.len() && a != b implies unmatched@[a] != unmatched@[b] by {
                    if a < b {
                        assert(unmatched@[a] < unmatched@[b]);
                    } else {
                        assert(unmatched@[b] < unmatched@[a]);
                    }
                }
            }
        }
        if matched >= unknowns.len() {
            analysis.dae_index = iteration - 1;
            proof {
                lemma_extend_matchings(equations@, sv, alg, systems, ms, m@, analysis.equations_to_differentiate@);
                ms = ms.push(m@);
                converged = true;
            }
            break;
        }
        if unmatched.len() > 0 {
            let mut max_level_all: usize = 0;
            let mut y: usize = 0;
            while y < structs.len()
                invariant
                    y <= structs@.len(),
                decreases structs.len() - y,
            {
                if structs[y].diff_level > max_level_all {
                    max_level_all = structs[y].diff_level;
                }
                y = y + 1;
            }
            let mut all_redundant = true;
            let mut z: usize = 0;
            while z < unmatched.len()
                invariant
                    z <= unmatched@.len(),
                decreases unmatched.len() - z,
            {
                let idx = unmatched[z];
                if !(idx < structs.len() && structs[idx].diff_level < max_level_all) {
                    all_redundant = false;
                }
                z = z + 1;
            }
            if all_redundant && matched == unknowns.len() {
                analysis.dae_index = iteration - 1;
                break;
            }
        }
        let to_diff = find_equations_to_differentiate(&structs, &unmatched);
        proof {
            lemma_to_differentiate(structs@, unmatched@);
            assert(to_diff@ == picked(s0, m@));
        }
        if to_diff.len() == 0 {
            analysis.is_singular = true;
            let msg = "Structurally singular system: cannot find equations to differentiate".to_owned();
            let ghost d0 = analysis.diagnostics@;
            analysis.diagnostics.push(msg);
            assert(string_views(analysis.diagnostics@) =~= seq![singular_message()]) by {
                assert(analysis.diagnostics@ =~= d0.push(msg));
            }
            proof {
                lemma_extend_matchings(equations@, sv, alg, systems, ms, m@, analysis.equations_to_differentiate@);
                ms = ms.push(m@);
                stuck = true;
            }
            break;
        }
        let ghost len0 = structs@.len();
        let ghost rec0 = analysis.equations_to_differentiate@;
        assert(forall|q: int| 0 <= q < len0 ==> (#[trigger] structs@[q]).diff_level < iteration);
        let mut t: usize = 0;
        while t < to_diff.len()
            invariant
                t <= to_diff@.len(),
                to_diff@.len() > 0,
                to_diff@.no_duplicates(),
                to_diff@ == picked(s0, m@),
                forall|a: int| 0 <= a < to_diff@.len() ==> #[trigger] to_diff@[a] < len0,
                len0 == s0.len(),
                len0 <= structs@.len() <= len0 + t,
                structs@.take(len0 as int) == s0,
                added(s0, to_diff@.take(t as int), structs@.skip(len0 as int)),
                forall|q: int| 0 <= q < len0 ==> (#[trigger] structs@[q]).diff_level < iteration,
                1 <= iteration <= MAX_ITERATIONS,
                forall|q: int| 0 <= q < structs@.len() ==> (#[trigger] structs@[q]).diff_level <= iteration,
                sv == string_views(state_variables@),
                string_views(unknowns@).no_duplicates(),
                string_views(unknowns@).to_set() == u0.to_set().union(new_unknowns(structs@.skip(len0 as int), sv)),
                records_ok(analysis.equations_to_differentiate@, iteration as nat),
                forall|a: int| 0 <= a < analysis.equations_to_differentiate@.len()
                    && !to_diff@.take(t as int).contains((#[trigger] analysis.equations_to_differentiate@[a]).0)
                    ==> analysis.equations_to_differentiate@[a].1 < iteration,
                forall|a: int| 0 <= a < analysis.equations_to_differentiate@.len() ==> (#[trigger] analysis.equations_to_differentiate@[a]).1
                    == times_picked(systems, ms, j, analysis.equations_to_differentiate@[a].0) + if to_diff@.take(t as int).contains(
                    analysis.equations_to_differentiate@[a].0,
                ) {
                    1int
                } else {
                    0int
                },
                forall|j2: int, idx: usize| 0 <= j2 < j && #[trigger] picked(systems[j2].0, ms[j2]).contains(idx) ==> exists|a: int|
                    0 <= a < analysis.equations_to_differentiate@.len() && (#[trigger] analysis.equations_to_differentiate@[a]).0 == idx,
                forall|idx: usize| #[trigger] to_diff@.take(t as int).contains(idx) ==> exists|a: int|
                    0 <= a < analysis.equations_to_differentiate@.len() && (#[trigger] analysis.equations_to_differentiate@[a]).0 == idx,
                t > 0 ==> analysis.equations_to_differentiate@.len() > 0,
                analysis.equations_to_differentiate@.len() >= rec0.len(),
                analysis.diagnostics@.len() == 0,
                !analysis.is_singular,
                analysis.dummy_derivatives@.len() == 0,
                analysis.algebraic_loops@.len() == 0,
            decreases to_diff.len() - t,
        {
            let eq_idx = to_diff[t];
            let ghost tk = to_diff@.take(t as int);
            let ghost tk1 = to_diff@.take(t as int + 1);
            proof {
                assert(tk1 =~= tk.push(eq_idx));
                assert(tk1.drop_last() == tk);
                assert(!tk.contains(eq_idx)) by {
                    if tk.contains(eq_idx) {
                        let q = choose|q: int| 0 <= q < t && tk[q] == eq_idx;
                        assert(to_diff@[q] == to_diff@[t as int]);
                    }
                }
                assert forall|w: usize| tk1.contains(w) <==> (tk.contains(w) || w == eq_idx) by {
                    if tk1.contains(w) {
                        let q = choose|q: int| 0 <= q < t + 1 && tk1[q] == w;
                        if q < t {
                            assert(tk[q] == w);
                        }
                    }
                    if tk.contains(w) {
                        let q = choose|q: int| 0 <= q < t && tk[q] == w;
                        assert(tk1[q] == w);
                    }
                    if w == eq_idx {
                        assert(tk1[t as int] == w);
                    }
                }
            }
            if eq_idx < structs.len() {
                proof {
                    assert forall|a: int| 0 <= a < analysis.equations_to_differentiate@.len()
                        && (#[trigger] analysis.equations_to_differentiate@[a]).0 == eq_idx
                        implies analysis.equations_to_differentiate@[a].1 < iteration by {}
                }
                let ghost before = analysis.equations_to_differentiate@;
                record_differentiation(&mut analysis.equations_to_differentiate, eq_idx, Ghost(iteration as nat));
                proof {
                    let after = analysis.equations_to_differentiate@;
                    assert forall|a: int| 0 <= a < after.len() && !tk1.contains((#[trigger] after[a]).0)
                        implies after[a].1 < iteration by {
                        if a < before.len() && before[a].0 != eq_idx {
                            assert(after[a] == before[a]);
                        }
                    }
                    assert forall|a: int| 0 <= a < after.len() implies (#[trigger] after[a]).1 == times_picked(systems, ms, j, after[a].0)
                        + if tk1.contains(after[a].0) {
                        1int
                    } else {
                        0int
                    } by {
                        if a < before.len() {
                            assert(after[a].0 == before[a].0);
                        } else {
                            assert(after[a].0 == eq_idx);
                            if times_picked(systems, ms, j, eq_idx) > 0 {
                                lemma_times_picked_positive(systems, ms, j, eq_idx);
                                let j2 = choose|j2: int| 0 <= j2 < j && #[trigger] picked(systems[j2].0, ms[j2]).contains(eq_idx);
                                let a2 = choose|a2: int| 0 <= a2 < before.len() && (#[trigger] before[a2]).0 == eq_idx;
                                assert(after[a2].0 == eq_idx);
                                assert(after[a2].0 != after[a].0);
                                assert(false);
                            }
                        }
                    }
                    assert forall|j2: int, idx: usize| 0 <= j2 < j && #[trigger] picked(systems[j2].0, ms[j2]).contains(idx) implies exists|a: int|
                        0 <= a < after.len() && (#[trigger] after[a]).0 == idx by {
                        let a2 = choose|a2: int| 0 <= a2 < before.len() && (#[trigger] before[a2]).0 == idx;
                        assert(after[a2].0 == idx);
                    }
                    assert forall|idx: usize| #[trigger] tk1.contains(idx) implies exists|a: int|
                        0 <= a < after.len() && (#[trigger] after[a]).0 == idx by {
                        if tk.contains(idx) {
                            let a2 = choose|a2: int| 0 <= a2 < before.len() && (#[trigger] before[a2]).0 == idx;
                            assert(after[a2].0 == idx);
                        }
                    }
                }
                let ghost new0 = structs@.skip(len0 as int);
                let ghost parent = structs@[eq_idx as int];
                proof {
                    assert(parent == s0[eq_idx as int]) by {
                        assert(structs@.take(len0 as int)[eq_idx as int] == structs@[eq_idx as int]);
                    }
                }
                match differentiate_equation(&structs[eq_idx].equation) {
                    Some(diff_eq) => {
                        let mut ds = analyze_equation_structure(&diff_eq);
                        ds.diff_level = structs[eq_idx].diff_level + 1;
                        let ghost ubase = string_views(unknowns@).to_set();
                        let ghost dd = string_views(ds.derivatives@);
                        let mut q: usize = 0;
                        while q < ds.derivatives.len()
                            invariant
                                q <= ds.derivatives@.len(),
                                dd == string_views(ds.derivatives@),
                                sv == string_views(state_variables@),
                                string_views(unknowns@).no_duplicates(),
                                string_views(unknowns@).to_set() == ubase.union(Set::new(
                                    |u: Seq<char>| exists|x: Seq<char>| #[trigger] dd.take(q as int).contains(x) && sv.contains(x) && u == der_of(x),
                                )),
                            decreases ds.derivatives.len() - q,
                        {
                            let ghost b = string_views(unknowns@).to_set();
                            let isst = contains_string(state_variables, &ds.derivatives[q]);
                            if isst {
                                let dn = der_string(&ds.derivatives[q]);
                                crate::names::push_unique_string(&mut unknowns, dn);
                            }
                            proof {
                                let xq = dd[q as int];
                                assert(dd.take(q as int + 1) =~= dd.take(q as int).push(xq));
                                crate::names::lemma_push_to_set(dd.take(q as int), xq);
                                assert forall|u: Seq<char>| string_views(unknowns@).to_set().contains(u) <==> (ubase.contains(u) || exists|x: Seq<char>|
                                    #[trigger] dd.take(q as int + 1).contains(x) && sv.contains(x) && u == der_of(x)) by {
                                    if exists|x: Seq<char>| #[trigger] dd.take(q as int + 1).contains(x) && sv.contains(x) && u == der_of(x) {
                                        let x = choose|x: Seq<char>| #[trigger] dd.take(q as int + 1).contains(x) && sv.contains(x) && u == der_of(x);
                                        assert(dd.take(q as int + 1).to_set().contains(x));
                                        if x != xq {
                                            assert(dd.take(q as int).to_set().contains(x));
                                            assert(dd.take(q as int).contains(x));
                                        }
                                    }
                                    if exists|x: Seq<char>| #[trigger] dd.take(q as int).contains(x) && sv.contains(x) && u == der_of(x) {
                                        let x = choose|x: Seq<char>| #[trigger] dd.take(q as int).contains(x) && sv.contains(x) && u == der_of(x);
                                        assert(dd.take(q as int).to_set().contains(x));
                                        assert(dd.take(q as int + 1).to_set().contains(x));
                                        assert(dd.take(q as int + 1).contains(x));
                                    }
                                    if isst {
                                        assert(dd.take(q as int + 1).to_set().contains(xq));
                                        assert(dd.take(q as int + 1).contains(xq));
                                    }
                                }
                                assert(string_views(unknowns@).to_set() =~= ubase.union(Set::new(
                                    |u: Seq<char>| exists|x: Seq<char>| #[trigger] dd.take(q as int + 1).contains(x) && sv.contains(x) && u == der_of(x),
                                )));
                            }
                            q = q + 1;
                        }
                        proof {
                            assert(dd.take(dd.len() as int) =~= dd);
                            assert(describes(ds, diff_eq));
                            assert(match (parent.equation, diff_eq) {
                                (Equation::Simple { lhs, rhs }, Equation::Simple { lhs: dl, rhs: dr }) => differentiated(lhs, dl)
                                    && differentiated(rhs, dr),
                                _ => false,
                            });
                            assert(derived_from(parent, ds));
                        }
                        structs.push(ds);
                        proof {
                            let new1 = structs@.skip(len0 as int);
                            assert(new1 =~= new0.push(ds));
                            assert(structs@.take(len0 as int) =~= s0);
                            assert(new1.drop_last() =~= new0);
                            assert(added(s0, tk1, new1));
                            lemma_new_unknowns_push(new0, ds, sv);
                            assert(string_views(unknowns@).to_set() =~= u0.to_set().union(new_unknowns(new1, sv)));
                        }
                    },
                    None => {
                        proof {
                            assert(!(parent.equation is Simple));
                            assert(added(s0, tk1, new0));
                        }
                    },
                }
            } else {
                proof {
                    assert(false);
                }
            }
            t = t + 1;
        }
        proof {
            assert(to_diff@.take(to_diff@.len() as int) =~= to_diff@);
            crate::matching::lemma_distinct_below_len(to_diff@, len0, None);
            assert(structs@.len() <= 2 * len0);
            assert(len0 <= n * doubling((iteration - 1) as nat));
            assert(doubling(iteration as nat) == 2 * doubling((iteration - 1) as nat));
            assert(2 * (n * doubling((iteration - 1) as nat)) == n * doubling(iteration as nat)) by (nonlinear_arith)
                requires
                    doubling(iteration as nat) == 2 * doubling((iteration - 1) as nat),
            ;
            // the run grows by this step
            let systems1 = systems.push((structs@, string_views(unknowns@)));
            let ms1 = ms.push(m@);
            assert(systems[j] == (s0, u0));
            assert(grown(s0, u0, picked(s0, m@), sv, structs@, string_views(unknowns@)));
            assert(run(equations@, sv, alg, systems1, ms1)) by {
                assert forall|j2: int| 0 <= j2 < systems1.len() - 1 implies {
                    &&& is_maximum_pairing(systems1[j2].0, systems1[j2].1, sv, #[trigger] ms1[j2])
                    &&& count_matched(ms1[j2]) < systems1[j2].1.len()
                    &&& picked(systems1[j2].0, ms1[j2]).len() > 0
                    &&& grown(systems1[j2].0, systems1[j2].1, picked(systems1[j2].0, ms1[j2]), sv, systems1[j2 + 1].0, systems1[j2 + 1].1)
                } by {
                    if j2 < j {
                        assert(systems1[j2] == systems[j2]);
                        assert(systems1[j2 + 1] == systems[j2 + 1]);
                        assert(ms1[j2] == ms[j2]);
                    } else {
                        assert(systems1[j2] == (s0, u0));
                        assert(ms1[j2] == m@);
                        assert(string_views(unknowns@).len() == unknowns@.len());
                    }
                }
            }
            assert forall|a: int| 0 <= a < analysis.equations_to_differentiate@.len() implies (#[trigger] analysis.equations_to_differentiate@[a]).1
                == times_picked(systems1, ms1, systems1.len() - 1, analysis.equations_to_differentiate@[a].0) by {
                let idx = analysis.equations_to_differentiate@[a].0;
                lemma_times_picked_prefix(systems, ms, systems1, ms1, j, idx);
                assert(systems1[j] == (s0, u0));
                assert(ms1[j] == m@);
            }
            assert forall|j2: int, idx: usize| 0 <= j2 < systems1.len() - 1 && #[trigger] picked(systems1[j2].0, ms1[j2]).contains(idx) implies exists|a: int|
                0 <= a < analysis.equations_to_differentiate@.len() && (#[trigger] analysis.equations_to_differentiate@[a]).0 == idx by {
                if j2 < j {
                    assert(systems1[j2] == systems[j2]);
                    assert(ms1[j2] == ms[j2]);
                } else {
                    assert(systems1[j2] == (s0, u0));
                    assert(ms1[j2] == m@);
                    assert(to_diff@.take(to_diff@.len() as int).contains(idx));
                }
            }
            systems = systems1;
            ms = ms1;
        }
        analysis.dae_index = iteration;
    }
    let ghost rec_final = analysis.equations_to_differentiate@;
    assert(forall|j: int, idx: usize| 0 <= j < systems.len() - 1 && #[trigger] picked(systems[j].0, ms[j]).contains(idx) ==> exists|a: int|
        0 <= a < rec_final.len() && (#[trigger] rec_final[a]).0 == idx);
    if iteration >= MAX_ITERATIONS {
        analysis.is_singular = true;
        let msg = "Index reduction did not converge".to_owned();
        let ghost d0 = string_views(analysis.diagnostics@);
        analysis.diagnostics.push(msg);
        proof {
            assert(string_views(analysis.diagnostics@) =~= d0.push(no_convergence_message()));
            if d0.len() == 0 {
                assert(d0.push(no_convergence_message()) =~= seq![no_convergence_message()]);
            } else {
                assert(d0 == seq![singular_message()]);
                assert(d0.push(no_convergence_message()) =~= seq![singular_message(), no_convergence_message()]);
            }
        }
    }
    assert(analysis.equations_to_differentiate@ == rec_final);
    proof {
        let k = systems.len() - 1;
        assert(systems.last() == systems[k]);
        if converged || stuck {
            assert(ms.last() == ms[k]);
            assert(k < MAX_ITERATIONS);
        } else {
            assert(k == MAX_ITERATIONS);
        }
        assert(reports_run(sv, systems, ms, analysis));
    }
    analysis
}

/// Recording one more matching after the last system changes neither the
/// run nor what the records say of its steps.
proof fn lemma_extend_matchings(
    equations: Seq<Equation>,
    sv: Seq<Seq<char>>,
    alg: Option<Seq<Seq<char>>>,
    systems: Seq<(Seq<EquationStructure>, Seq<Seq<char>>)>,
    ms: Seq<Seq<usize>>,
    m: Seq<usize>,
    rec: Seq<(usize, usize)>,
)
    requires
        run(equations, sv, alg, systems, ms),
        ms.len() == systems.len() - 1,
        forall|a: int| 0 <= a < rec.len() ==> (#[trigger] rec[a]).1 == times_picked(systems, ms, systems.len() - 1, rec[a].0),
        forall|j: int, idx: usize| 0 <= j < systems.len() - 1 && #[trigger] picked(systems[j].0, ms[j]).contains(idx) ==> exists|a: int|
            0 <= a < rec.len() && (#[trigger] rec[a]).0 == idx,
    ensures
        run(equations, sv, alg, systems, ms.push(m)),
        forall|a: int| 0 <= a < rec.len() ==> (#[trigger] rec[a]).1 == times_picked(systems, ms.push(m), systems.len() - 1, rec[a].0),
        forall|j: int, idx: usize| 0 <= j < systems.len() - 1 && #[trigger] picked(systems[j].0, ms.push(m)[j]).contains(idx) ==> exists|a: int|
            0 <= a < rec.len() && (#[trigger] rec[a]).0 == idx,
{
    let ms1 = ms.push(m);
    assert forall|j: int| 0 <= j < ms.len() implies ms1[j] == ms[j] by {}
    assert forall|a: int| 0 <= a < rec.len() implies (#[trigger] rec[a]).1 == times_picked(systems, ms1, systems.len() - 1, rec[a].0) by {
        lemma_times_picked_prefix(systems, ms, systems, ms1, systems.len() - 1, rec[a].0);
    }
    assert forall|j: int, idx: usize| 0 <= j < systems.len() - 1 && #[trigger] picked(systems[j].0, ms1[j]).contains(idx) implies exists|a: int|
        0 <= a < rec.len() && (#[trigger] rec[a]).0 == idx by {
        assert(ms1[j] == ms[j]);
        assert(picked(systems[j].0, ms[j]).contains(idx));
    }
    assert forall|j: int| 0 <= j < systems.len() - 1 implies {
        &&& is_maximum_pairing(systems[j].0, systems[j].1, sv, #[trigger] ms1[j])
        &&& count_matched(ms1[j]) < systems[j].1.len()
        &&& picked(systems[j].0, ms1[j]).len() > 0
        &&& grown(systems[j].0, systems[j].1, picked(systems[j].0, ms1[j]), sv, systems[j + 1].0, systems[j + 1].1)
    } by {
        assert(ms1[j] == ms[j]);
    }
}

/// An equation picked at some step was picked more than zero times.
proof fn lemma_times_picked_positive(systems: Seq<(Seq<EquationStructure>, Seq<Seq<char>>)>, ms: Seq<Seq<usize>>, k: int, idx: usize)
    requires
        times_picked(systems, ms, k, idx) > 0,
    ensures
        exists|j: int| 0 <= j < k && #[trigger] picked(systems[j].0, ms[j]).contains(idx),
    decreases k,
{
    if k > 0 {
        if !picked(systems[k - 1].0, ms[k - 1]).contains(idx) {
            lemma_times_picked_positive(systems, ms, k - 1, idx);
            let j = choose|j: int| 0 <= j < k - 1 && #[trigger] picked(systems[j].0, ms[j]).contains(idx);
            assert(picked(systems[j].0, ms[j]).contains(idx));
        }
    }
}

// ---------------------------------------------------------------------------
// Tearing
// ---------------------------------------------------------------------------

/// A step of tearing: equation `row` solved for variable `var`, or variable
/// `var` chosen as a tearing variable (its value guessed).
pub enum TearStep {
    Solve { row: usize, var: usize },
    Tear { var: usize },
}

/// The variable a step makes known.
pub open spec fn step_var(s: TearStep) -> usize {
    match s {
        TearStep::Solve { var, .. } => var,
        TearStep::Tear { var } => var,
    }
}

/// The variables known after the steps.
pub open spec fn known_vars(steps: Seq<TearStep>) -> Set<usize>
    decreases steps.len(),
{
    if steps.len() == 0 {
        Set::empty()
    } else {
        known_vars(steps.drop_last()).insert(step_var(steps.last()))
    }
}

/// The equations solved by the steps.
pub open spec fn solved_rows(steps: Seq<TearStep>) -> Set<usize>
    decreases steps.len(),
{
    if steps.len() == 0 {
        Set::empty()
    } else {
        match steps.last() {
            TearStep::Solve { row, .. } => solved_rows(steps.drop_last()).insert(row),
            TearStep::Tear { .. } => solved_rows(steps.drop_last()),
        }
    }
}

/// The tearing variables chosen by the steps, in order.
pub open spec fn torn_vars(steps: Seq<TearStep>) -> Seq<usize>
    decreases steps.len(),
{
    if steps.len() == 0 {
        seq![]
    } else {
        match steps.last() {
            TearStep::Solve { .. } => torn_vars(steps.drop_last()),
            TearStep::Tear { var } => torn_vars(steps.drop_last()).push(var),
        }
    }
}

/// How many variables of `row` are not yet known.
pub open spec fn unknown_count(row: Seq<usize>, known: Set<usize>) -> nat
    decreases row.len(),
{
    if row.len() == 0 {
        0
    } else {
        unknown_count(row.drop_last(), known) + if known.contains(row.last()) { 0nat } else { 1nat }
    }
}

/// How many of the first `k` equations are unsolved and involve `v`.
pub open spec fn occurrences_in(rows: Seq<Seq<usize>>, solved: Set<usize>, v: usize, k: int) -> nat
    decreases k,
{
    if k <= 0 {
        0
    } else {
        occurrences_in(rows, solved, v, k - 1) + if !solved.contains((k - 1) as usize) && rows[k - 1].contains(v) {
            1nat
        } else {
            0nat
        }
    }
}

/// No unsolved equation has exactly one unknown variable.
pub open spec fn is_stuck(rows: Seq<Seq<usize>>, steps: Seq<TearStep>) -> bool {
    forall|r: int| 0 <= r < rows.len() && !solved_rows(steps).contains(r as usize) ==> unknown_count(
        #[trigger] rows[r],
        known_vars(steps),
    ) != 1
}

/// Step `k` follows the greedy rule given the steps before it: an equation
/// is solved when exactly one of its variables is unknown, for that
/// variable; a variable is torn only when no equation can be solved, and
/// it is an unknown variable involved in the most unsolved equations.
pub open spec fn greedy_step(rows: Seq<Seq<usize>>, n_vars: nat, steps: Seq<TearStep>, k: int) -> bool {
    let before = steps.take(k);
    let known = known_vars(before);
    let solved = solved_rows(before);
    match steps[k] {
        TearStep::Solve { row, var } => row < rows.len() && !solved.contains(row) && rows[row as int].contains(var)
            && !known.contains(var) && unknown_count(rows[row as int], known) == 1,
        TearStep::Tear { var } => var < n_vars && !known.contains(var) && is_stuck(rows, before) && occurrences_in(
            rows,
            solved,
            var,
            rows.len() as int,
        ) >= 1 && forall|u: usize| u < n_vars && !known.contains(u) ==> #[trigger] occurrences_in(
            rows,
            solved,
            u,
            rows.len() as int,
        ) <= occurrences_in(rows, solved, var, rows.len() as int),
    }
}

/// A complete greedy tearing: every step follows the rule, and at the end
/// every equation is solved or has no unknown variable left.
pub open spec fn greedy_tearing(rows: Seq<Seq<usize>>, n_vars: nat, steps: Seq<TearStep>) -> bool {
    &&& forall|k: int| 0 <= k < steps.len() ==> #[trigger] greedy_step(rows, n_vars, steps, k)
    &&& forall|r: int| 0 <= r < rows.len() && !solved_rows(steps).contains(r as usize) ==> unknown_count(
        #[trigger] rows[r],
        known_vars(steps),
    ) == 0
}

/// How many entries are `false`.
pub open spec fn count_false(s: Seq<bool>) -> nat
    decreases s.len(),
{
    if s.len() == 0 {
        0
    } else {
        count_false(s.drop_last()) + if s.last() { 0nat } else { 1nat }
    }
}

proof fn lemma_count_false_update(s: Seq<bool>, i: int)
    requires
        0 <= i < s.len(),
        !s[i],
    ensures
        count_false(s.update(i, true)) + 1 == count_false(s),
    decreases s.len(),
{
    let u = s.update(i, true);
    if i < s.len() - 1 {
        assert(u.drop_last() =~= s.drop_last().update(i, true));
        lemma_count_false_update(s.drop_last(), i);
    } else {
        assert(u.drop_last() =~= s.drop_last());
    }
}

proof fn lemma_count_false_bound(s: Seq<bool>)
    ensures
        count_false(s) <= s.len(),
        count_false(s) == 0 ==> forall|i: int| 0 <= i < s.len() ==> #[trigger] s[i],
    decreases s.len(),
{
    if s.len() > 0 {
        lemma_count_false_bound(s.drop_last());
        assert forall|i: int| count_false(s) == 0 && 0 <= i < s.len() implies #[trigger] s[i] by {
            if i < s.len() - 1 {
                assert(s.drop_last()[i] == s[i]);
            }
        }
    }
}

/// A row with an unknown variable names one.
proof fn lemma_unknown_witness(row: Seq<usize>, known: Set<usize>)
    requires
        unknown_count(row, known) > 0,
    ensures
        exists|j: int| 0 <= j < row.len() && !known.contains(#[trigger] row[j]),
    decreases row.len(),
{
    if known.contains(row.last()) {
        lemma_unknown_witness(row.drop_last(), known);
        let j = choose|j: int| 0 <= j < row.drop_last().len() && !known.contains(#[trigger] row.drop_last()[j]);
        assert(row[j] == row.drop_last()[j]);
    } else {
        assert(!known.contains(row[row.len() - 1]));
    }
}

/// An unsolved equation involving `v` counts towards its occurrences.
proof fn lemma_occurrence_counts(rows: Seq<Seq<usize>>, solved: Set<usize>, v: usize, r: int, k: int)
    requires
        0 <= r < k <= rows.len(),
        !solved.contains(r as usize),
        rows[r].contains(v),
    ensures
        occurrences_in(rows, solved, v, k) >= 1,
    decreases k,
{
    if k - 1 > r {
        lemma_occurrence_counts(rows, solved, v, r, k - 1);
    }
}

/// The steps after one more: what the new step adds.
proof fn lemma_push_step(steps: Seq<TearStep>, x: TearStep)
    ensures
        known_vars(steps.push(x)) == known_vars(steps).insert(step_var(x)),
        solved_rows(steps.push(x)) == match x {
            TearStep::Solve { row, .. } => solved_rows(steps).insert(row),
            TearStep::Tear { .. } => solved_rows(steps),
        },
        torn_vars(steps.push(x)) == match x {
            TearStep::Solve { .. } => torn_vars(steps),
            TearStep::Tear { var } => torn_vars(steps).push(var),
        },
        steps.push(x).take(steps.len() as int) == steps,
        forall|k: int| 0 <= k <= steps.len() ==> #[trigger] steps.push(x).take(k) == steps.take(k),
{
    assert(steps.push(x).drop_last() =~= steps);
    assert(steps.push(x).take(steps.len() as int) =~= steps);
    assert forall|k: int| 0 <= k <= steps.len() implies #[trigger] steps.push(x).take(k) == steps.take(k) by {
        assert(steps.push(x).take(k) =~= steps.take(k));
    }
}

/// Greedy tearing of equations given as rows of variable positions
/// (distinct, below `n_vars`): returns the tearing variables in the order
/// chosen, with the steps taken.
fn greedy_tear(rows: &Vec<Vec<usize>>, n_vars: usize) -> (r: (Vec<usize>, Ghost<Seq<TearStep>>))
    requires
        forall|i: int| 0 <= i < rows@.len() ==> (#[trigger] rows@[i])@.no_duplicates(),
        forall|i: int, j: int| 0 <= i < rows@.len() && 0 <= j < rows@[i]@.len() ==> #[trigger] rows@[i]@[j] < n_vars,
    ensures
        greedy_tearing(rows@.map_values(|x: Vec<usize>| x@), n_vars as nat, r.1@),
        r.0@ == torn_vars(r.1@),
        forall|a: int| 0 <= a < r.0@.len() ==> #[trigger] r.0@[a] < n_vars,
{
    let ghost rs = rows@.map_values(|x: Vec<usize>| x@);
    let n_rows = rows.len();
    let mut solved_eq: Vec<bool> = Vec::new();
    let mut solved_var: Vec<bool> = Vec::new();
    let mut i: usize = 0;
    while i < n_rows
        invariant
            i <= n_rows,
            solved_eq@.len() == i,
            count_false(solved_eq@) == i,
            forall|q: int| 0 <= q < i ==> !(#[trigger] solved_eq@[q]),
        decreases n_rows - i,
    {
        let ghost b = solved_eq@;
        solved_eq.push(false);
        assert(solved_eq@.drop_last() =~= b);
        i = i + 1;
    }
    let mut v: usize = 0;
    while v < n_vars
        invariant
            v <= n_vars,
            solved_var@.len() == v,
            count_false(solved_var@) == v,
            forall|q: int| 0 <= q < v ==> !(#[trigger] solved_var@[q]),
        decreases n_vars - v,
    {
        let ghost b = solved_var@;
        solved_var.push(false);
        assert(solved_var@.drop_last() =~= b);
        v = v + 1;
    }
    let ghost mut steps: Seq<TearStep> = Seq::empty();
    let mut torn: Vec<usize> = Vec::new();
    let mut solved_count: usize = 0;
    proof {
        lemma_count_false_bound(solved_var@);
    }
    while solved_count < n_rows
        invariant
            n_rows == rows@.len(),
            rs == rows@.map_values(|x: Vec<usize>| x@),
            forall|q: int| 0 <= q < rows@.len() ==> (#[trigger] rows@[q])@.no_duplicates(),
            forall|q: int, j: int| 0 <= q < rows@.len() && 0 <= j < rows@[q]@.len() ==> #[trigger] rows@[q]@[j] < n_vars,
            solved_eq@.len() == n_rows,
            solved_var@.len() == n_vars,
            solved_count + count_false(solved_eq@) == n_rows,
            forall|q: int| 0 <= q < n_rows ==> #[trigger] solved_eq@[q] == solved_rows(steps).contains(q as usize),
            forall|q: int| 0 <= q < n_vars ==> #[trigger] solved_var@[q] == known_vars(steps).contains(q as usize),
            forall|x: usize| #[trigger] known_vars(steps).contains(x) ==> x < n_vars,
            forall|x: usize| #[trigger] solved_rows(steps).contains(x) ==> x < n_rows,
            forall|k: int| 0 <= k < steps.len() ==> #[trigger] greedy_step(rs, n_vars as nat, steps, k),
            torn@ == torn_vars(steps),
            forall|a: int| 0 <= a < torn@.len() ==> #[trigger] torn@[a] < n_vars,
        ensures
            forall|k: int| 0 <= k < steps.len() ==> #[trigger] greedy_step(rs, n_vars as nat, steps, k),
            torn@ == torn_vars(steps),
            forall|a: int| 0 <= a < torn@.len() ==> #[trigger] torn@[a] < n_vars,
            solved_count + count_false(solved_eq@) == n_rows,
            forall|q: int| 0 <= q < n_rows ==> #[trigger] solved_eq@[q] == solved_rows(steps).contains(q as usize),
            solved_count >= n_rows || forall|q: int| 0 <= q < rs.len() && !solved_rows(steps).contains(q as usize) ==> unknown_count(
                #[trigger] rs[q],
                known_vars(steps),
            ) == 0,
        decreases count_false(solved_eq@) + count_false(solved_var@),
    {
        let ghost measure0 = count_false(solved_eq@) + count_false(solved_var@);
        let ghost steps0 = steps;
        let mut made_progress = false;
        let mut r: usize = 0;
        while r < n_rows
            invariant
                n_rows == rows@.len(),
                rs == rows@.map_values(|x: Vec<usize>| x@),
                forall|q: int| 0 <= q < rows@.len() ==> (#[trigger] rows@[q])@.no_duplicates(),
                forall|q: int, j: int| 0 <= q < rows@.len() && 0 <= j < rows@[q]@.len() ==> #[trigger] rows@[q]@[j] < n_vars,
                r <= n_rows,
                solved_eq@.len() == n_rows,
                solved_var@.len() == n_vars,
                solved_count + count_false(solved_eq@) == n_rows,
                forall|q: int| 0 <= q < n_rows ==> #[trigger] solved_eq@[q] == solved_rows(steps).contains(q as usize),
                forall|q: int| 0 <= q < n_vars ==> #[trigger] solved_var@[q] == known_vars(steps).contains(q as usize),
                forall|x: usize| #[trigger] known_vars(steps).contains(x) ==> x < n_vars,
                forall|x: usize| #[trigger] solved_rows(steps).contains(x) ==> x < n_rows,
                forall|k: int| 0 <= k < steps.len() ==> #[trigger] greedy_step(rs, n_vars as nat, steps, k),
                torn@ == torn_vars(steps),
                forall|a: int| 0 <= a < torn@.len() ==> #[trigger] torn@[a] < n_vars,
                count_false(solved_eq@) + count_false(solved_var@) <= measure0,
                made_progress ==> count_false(solved_eq@) + count_false(solved_var@) < measure0,
                !made_progress ==> steps == steps0,
                !made_progress ==> forall|q: int| 0 <= q < r && !solved_rows(steps).contains(q as usize) ==> unknown_count(
                    #[trigger] rs[q],
                    known_vars(steps),
                ) != 1,
            decreases n_rows - r,
        {
            if !solved_eq[r] {
                let row = &rows[r];
                let ghost known = known_vars(steps);
                let mut cnt: usize = 0;
                let mut last: usize = 0;
                let mut j: usize = 0;
                while j < row.len()
                    invariant
                        j <= row@.len(),
                        row@ == rows@[r as int]@,
                        forall|q: int| 0 <= q < row@.len() ==> #[trigger] row@[q] < n_vars,
                        solved_var@.len() == n_vars,
                        forall|q: int| 0 <= q < n_vars ==> #[trigger] solved_var@[q] == known.contains(q as usize),
                        cnt == unknown_count(row@.take(j as int), known),
                        cnt <= j,
                        cnt >= 1 ==> row@.take(j as int).contains(last) && !known.contains(last) && last < n_vars,
                    decreases row.len() - j,
                {
                    let x = row[j];
                    proof {
                        let t = row@.take(j as int + 1);
                        assert(t.drop_last() =~= row@.take(j as int));
                        assert(t.last() == x);
                        if cnt >= 1 {
                            let q = choose|q: int| 0 <= q < j && row@.take(j as int)[q] == last;
                            assert(t[q] == last);
                        }
                    }
                    if !solved_var[x] {
                        cnt = cnt + 1;
                        last = x;
                        proof {
                            assert(row@.take(j as int + 1)[j as int] == x);
                        }
                    }
                    j = j + 1;
                }
                proof {
                    assert(row@.take(row@.len() as int) =~= row@);
                    assert(rs[r as int] == row@);
                }
                if cnt == 1 {
                    let ghost step = TearStep::Solve { row: r, var: last };
                    proof {
                        assert(row@.contains(last));
                        assert(greedy_step(rs, n_vars as nat, steps.push(step), steps.len() as int)) by {
                            lemma_push_step(steps, step);
                        }
                        lemma_push_step(steps, step);
                        assert forall|k: int| 0 <= k < steps.len() + 1 implies #[trigger] greedy_step(rs, n_vars as nat, steps.push(step), k) by {
                            if k < steps.len() {
                                assert(steps.push(step)[k] == steps[k]);
                                assert(greedy_step(rs, n_vars as nat, steps, k));
                            }
                        }
                        lemma_count_false_update(solved_eq@, r as int);
                        lemma_count_false_update(solved_var@, last as int);
                        steps = steps.push(step);
                    }
                    solved_eq.set(r, true);
                    solved_var.set(last, true);
                    solved_count = solved_count + 1;
                    made_progress = true;
                    proof {
                        lemma_count_false_bound(solved_eq@);
                    }
                }
            }
            r = r + 1;
        }
        if !made_progress {
            // every unknown variable's number of unsolved equations
            let ghost known = known_vars(steps);
            let ghost solved = solved_rows(steps);
            let mut counts: Vec<usize> = Vec::new();
            let mut c: usize = 0;
            while c < n_vars
                invariant
                    c <= n_vars,
                    counts@.len() == c,
                    forall|q: int| 0 <= q < c ==> #[trigger] counts@[q] == 0,
                decreases n_vars - c,
            {
                counts.push(0);
                c = c + 1;
            }
            let mut rr: usize = 0;
            while rr < n_rows
                invariant
                    rr <= n_rows,
                    n_rows == rows@.len(),
                    rs == rows@.map_values(|x: Vec<usize>| x@),
                    forall|q: int| 0 <= q < rows@.len() ==> (#[trigger] rows@[q])@.no_duplicates(),
                    forall|q: int, j: int| 0 <= q < rows@.len() && 0 <= j < rows@[q]@.len() ==> #[trigger] rows@[q]@[j] < n_vars,
                    counts@.len() == n_vars,
                    solved_eq@.len() == n_rows,
                    solved_var@.len() == n_vars,
                    forall|q: int| 0 <= q < n_rows ==> #[trigger] solved_eq@[q] == solved.contains(q as usize),
                    forall|q: int| 0 <= q < n_vars ==> #[trigger] solved_var@[q] == known.contains(q as usize),
                    forall|u: int| 0 <= u < n_vars ==> #[trigger] counts@[u] == if known.contains(u as usize) {
                        0
                    } else {
                        occurrences_in(rs, solved, u as usize, rr as int)
                    },
                    forall|u: int| 0 <= u < n_vars ==> #[trigger] counts@[u] <= rr,
                decreases n_rows - rr,
            {
                        if !solved_eq[rr] {
                    let row = &rows[rr];
                    let mut j: usize = 0;
                    while j < row.len()
                        invariant
                            j <= row@.len(),
                            rr < n_rows,
                            n_rows == rows@.len(),
                            row@ == rows@[rr as int]@,
                            row@.no_duplicates(),
                            forall|q: int| 0 <= q < row@.len() ==> #[trigger] row@[q] < n_vars,
                            counts@.len() == n_vars,
                            solved_var@.len() == n_vars,
                            forall|q: int| 0 <= q < n_vars ==> #[trigger] solved_var@[q] == known.contains(q as usize),
                            forall|u: int| 0 <= u < n_vars ==> #[trigger] counts@[u] == if known.contains(u as usize) {
                                0
                            } else {
                                occurrences_in(rs, solved, u as usize, rr as int) + if row@.take(j as int).contains(u as usize) {
                                    1nat
                                } else {
                                    0nat
                                }
                            },
                            forall|u: int| 0 <= u < n_vars ==> #[trigger] counts@[u] <= rr + if row@.take(j as int).contains(u as usize) {
                                1int
                            } else {
                                0int
                            },
                        decreases row.len() - j,
                    {
                        let x = row[j];
                        proof {
                            assert(row@.take(j as int + 1) =~= row@.take(j as int).push(x));
                            assert(!row@.take(j as int).contains(x)) by {
                                if row@.take(j as int).contains(x) {
                                    let q = choose|q: int| 0 <= q < j && row@.take(j as int)[q] == x;
                                    assert(row@[q] == row@[j as int]);
                                }
                            }
                            assert forall|u: usize| u != x implies (row@.take(j as int + 1).contains(u) == row@.take(j as int).contains(u)) by {
                                if row@.take(j as int + 1).contains(u) {
                                    let q = choose|q: int| 0 <= q < j + 1 && #[trigger] row@.take(j as int + 1)[q] == u;
                                    assert(row@.take(j as int)[q] == u);
                                }
                                if row@.take(j as int).contains(u) {
                                    let q = choose|q: int| 0 <= q < j && #[trigger] row@.take(j as int)[q] == u;
                                    assert(row@.take(j as int + 1)[q] == u);
                                }
                            }
                            assert(row@.take(j as int + 1).contains(x)) by {
                                assert(row@.take(j as int + 1)[j as int] == x);
                            }
                        }
                        if !solved_var[x] {
                            let cx = counts[x];
                            counts.set(x, cx + 1);
                        }
                        j = j + 1;
                    }
                    proof {
                        assert(row@.take(row@.len() as int) =~= row@);
                        assert(rs[rr as int] == row@);
                    }
                }
                proof {
                    assert forall|u: int| 0 <= u < n_vars implies #[trigger] counts@[u] == if known.contains(u as usize) {
                        0
                    } else {
                        occurrences_in(rs, solved, u as usize, rr + 1)
                    } by {
                        assert(rs[rr as int] == rows@[rr as int]@);
                    }
                }
                rr = rr + 1;
            }
            // the variable in most unsolved equations, the first on ties
            let mut best: usize = 0;
            let mut best_count: usize = 0;
            let mut u: usize = 0;
            while u < n_vars
                invariant
                    u <= n_vars,
                    counts@.len() == n_vars,
                    forall|q: int| 0 <= q < u ==> #[trigger] counts@[q] <= best_count,
                    best_count > 0 ==> best < n_vars && counts@[best as int] == best_count,
                decreases n_vars - u,
            {
                if counts[u] > best_count {
                    best = u;
                    best_count = counts[u];
                }
                u = u + 1;
            }
            if best_count == 0 {
                proof {
                    assert forall|q: int| 0 <= q < rs.len() && !solved_rows(steps).contains(q as usize) implies unknown_count(
                        #[trigger] rs[q],
                        known_vars(steps),
                    ) == 0 by {
                        if unknown_count(rs[q], known) > 0 {
                            lemma_unknown_witness(rs[q], known);
                            let j = choose|j: int| 0 <= j < rs[q].len() && !known.contains(#[trigger] rs[q][j]);
                            let x = rs[q][j];
                            assert(rows@[q]@[j] < n_vars);
                            lemma_occurrence_counts(rs, solved, x, q, rs.len() as int);
                            assert(counts@[x as int] >= 1);
                        }
                    }
                }
                break;
            }
            let ghost step = TearStep::Tear { var: best };
            proof {
                assert(!known.contains(best)) by {
                    if known.contains(best) {
                        assert(counts@[best as int] == 0);
                    }
                }
                assert(is_stuck(rs, steps));
                assert forall|w: usize| w < n_vars && !known.contains(w) implies #[trigger] occurrences_in(
                    rs,
                    solved,
                    w,
                    rs.len() as int,
                ) <= occurrences_in(rs, solved, best, rs.len() as int) by {
                    assert(counts@[w as int] <= best_count);
                }
                lemma_push_step(steps, step);
                assert(greedy_step(rs, n_vars as nat, steps.push(step), steps.len() as int));
                assert forall|k: int| 0 <= k < steps.len() + 1 implies #[trigger] greedy_step(rs, n_vars as nat, steps.push(step), k) by {
                    if k < steps.len() {
                        assert(steps.push(step)[k] == steps[k]);
                        assert(greedy_step(rs, n_vars as nat, steps, k));
                    }
                }
                lemma_count_false_update(solved_var@, best as int);
                steps = steps.push(step);
            }
            torn.push(best);
            solved_var.set(best, true);
        }
    }
    proof {
        lemma_count_false_bound(solved_eq@);
        assert forall|q: int| 0 <= q < rs.len() && !solved_rows(steps).contains(q as usize) implies unknown_count(
            #[trigger] rs[q],
            known_vars(steps),
        ) == 0 by {
            if solved_count >= n_rows {
                assert(solved_eq@[q]);
            }
        }
    }
    (torn, Ghost(steps))
}

/// The indices below `n` among `idx`, in order.
pub open spec fn valid_indices(n: nat, idx: Seq<usize>) -> Seq<usize>
    decreases idx.len(),
{
    if idx.len() == 0 {
        seq![]
    } else if idx.last() < n {
        valid_indices(n, idx.drop_last()).push(idx.last())
    } else {
        valid_indices(n, idx.drop_last())
    }
}

/// `rows` gives, for each existing equation of the loop, the positions in
/// `vars` of the loop variables it involves, each once.
pub open spec fn loop_rows(equations: Seq<Equation>, eq_indices: Seq<usize>, vars: Seq<Seq<char>>, rows: Seq<Seq<usize>>) -> bool {
    let valid = valid_indices(equations.len(), eq_indices);
    &&& rows.len() == valid.len()
    &&& forall|i: int| 0 <= i < rows.len() ==> (#[trigger] rows[i]).no_duplicates()
    &&& forall|i: int, k: usize| 0 <= i < rows.len() ==> (#[trigger] rows[i].contains(k) <==> (k < vars.len()
        && equation_vars(equations[valid[i] as int]).contains(vars[k as int])))
}

/// The names at the given positions.
pub open spec fn names_at(vars: Seq<Seq<char>>, ks: Seq<usize>) -> Seq<Seq<char>> {
    ks.map_values(|k: usize| vars[k as int])
}

/// The names of `vars` among the first `k` whose positions are not in `torn`, in order.
pub open spec fn residual_names(vars: Seq<Seq<char>>, torn: Seq<usize>, k: int) -> Seq<Seq<char>>
    decreases k,
{
    if k <= 0 {
        seq![]
    } else if torn.contains((k - 1) as usize) {
        residual_names(vars, torn, k - 1)
    } else {
        residual_names(vars, torn, k - 1).push(vars[k - 1])
    }
}

/// Each name once, in order of first appearance.
fn distinct_strings(names: &Vec<String>) -> (r: Vec<String>)
    ensures
        string_views(r@).no_duplicates(),
        string_views(r@).to_set() == string_views(names@).to_set(),
{
    let mut r: Vec<String> = Vec::new();
    let mut i: usize = 0;
    while i < names.len()
        invariant
            i <= names@.len(),
            string_views(r@).no_duplicates(),
            string_views(r@).to_set() == string_views(names@.take(i as int)).to_set(),
        decreases names.len() - i,
    {
        crate::names::push_unique_string(&mut r, names[i].clone());
        proof {
            let p0 = string_views(names@.take(i as int));
            let x = names@[i as int]@;
            assert(string_views(names@.take(i as int + 1)) =~= p0.push(x));
            crate::names::lemma_push_to_set(p0, x);
        }
        i = i + 1;
    }
    proof {
        assert(names@.take(names@.len() as int) =~= names@);
    }
    r
}

/// The positions in `vars` of the loop variables of an equation.
fn loop_row(st: &EquationStructure, vars: &Vec<String>) -> (r: Vec<usize>)
    requires
        string_views(vars@).no_duplicates(),
        string_views(st.variables@).no_duplicates(),
    ensures
        r@.no_duplicates(),
        forall|k: usize| #[trigger] r@.contains(k) <==> (k < vars@.len() && string_views(st.variables@).contains(vars@[k as int]@)),
        forall|j: int| 0 <= j < r@.len() ==> #[trigger] r@[j] < vars@.len(),
{
    let ghost sv = string_views(st.variables@);
    let ghost vv = string_views(vars@);
    let mut r: Vec<usize> = Vec::new();
    let mut j: usize = 0;
    while j < st.variables.len()
        invariant
            j <= st.variables@.len(),
            sv == string_views(st.variables@),
            vv == string_views(vars@),
            sv.no_duplicates(),
            vv.no_duplicates(),
            r@.no_duplicates(),
            forall|q: int| 0 <= q < r@.len() ==> #[trigger] r@[q] < vars@.len(),
            forall|k: usize| #[trigger] r@.contains(k) <==> (k < vv.len() && sv.take(j as int).contains(vv[k as int])),
        decreases st.variables.len() - j,
    {
        let ghost before = r@;
        proof {
            assert(sv.take(j as int + 1) =~= sv.take(j as int).push(sv[j as int]));
        }
        match crate::names::string_position(vars, &st.variables[j]) {
            Some(k) => {
                proof {
                    assert(vv[k as int] == sv[j as int]);
                    assert(!before.contains(k)) by {
                        if before.contains(k) {
                            assert(sv.take(j as int).contains(vv[k as int]));
                            let q = choose|q: int| 0 <= q < j && sv.take(j as int)[q] == vv[k as int];
                            assert(sv[q] == sv[j as int]);
                        }
                    }
                }
                r.push(k);
                proof {
                    assert forall|a: int, b: int| 0 <= a < b < r@.len() implies r@[a] != r@[b] by {
                        if b == before.len() {
                            assert(before.contains(before[a]));
                        } else {
                            assert(before[a] != before[b]);
                        }
                    }
                    assert forall|k2: usize| #[trigger] r@.contains(k2) <==> (k2 < vv.len() && sv.take(j as int + 1).contains(vv[k2 as int])) by {
                        if r@.contains(k2) && k2 != k {
                            let q = choose|q: int| 0 <= q < r@.len() && r@[q] == k2;
                            assert(before[q] == k2);
                        }
                        if before.contains(k2) {
                            let q = choose|q: int| 0 <= q < before.len() && before[q] == k2;
                            assert(r@[q] == k2);
                        }
                        if k2 == k {
                            assert(r@[before.len() as int] == k);
                            assert(sv.take(j as int + 1)[j as int] == vv[k as int]);
                        }
                        if k2 < vv.len() && sv.take(j as int + 1).contains(vv[k2 as int]) && !sv.take(j as int).contains(vv[k2 as int]) {
                            assert(vv[k2 as int] == sv[j as int]);
                            assert(vv[k2 as int] == vv[k as int]);
                        }
                    }
                }
            },
            None => {
                proof {
                    assert forall|k2: usize| #[trigger] r@.contains(k2) <==> (k2 < vv.len() && sv.take(j as int + 1).contains(vv[k2 as int])) by {
                        if k2 < vv.len() && sv.take(j as int + 1).contains(vv[k2 as int]) && !sv.take(j as int).contains(vv[k2 as int]) {
                            assert(vv[k2 as int] == sv[j as int]);
                            assert(vv.contains(st.variables@[j as int]@));
                        }
                    }
                }
            },
        }
        j = j + 1;
    }
    proof {
        assert(sv.take(sv.len() as int) =~= sv);
    }
    r
}

/// `r` is the tearing of the loop of equations `eq_indices` in the
/// variables `variables` (see `tear_algebraic_loop`).
pub open spec fn tearing_of(equations: Seq<Equation>, eq_indices: Seq<usize>, variables: Set<Seq<char>>, r: AlgebraicLoop) -> bool {
    &&& r.size == eq_indices.len()
    &&& r.equation_indices@ == eq_indices
    &&& string_views(r.variables@).no_duplicates()
    &&& string_views(r.variables@).to_set() == variables
    &&& eq_indices.len() <= 1 ==> r.tearing_variables@.len() == 0 && string_views(r.residual_variables@) == string_views(
        r.variables@,
    )
    &&& eq_indices.len() > 1 ==> exists|rows: Seq<Seq<usize>>, steps: Seq<TearStep>|
        #![trigger loop_rows(equations, eq_indices, string_views(r.variables@), rows), greedy_tearing(rows, r.variables@.len() as nat, steps)]
        loop_rows(equations, eq_indices, string_views(r.variables@), rows) && greedy_tearing(
            rows,
            r.variables@.len() as nat,
            steps,
        ) && string_views(r.tearing_variables@) == names_at(string_views(r.variables@), torn_vars(steps))
            && string_views(r.residual_variables@) == residual_names(
            string_views(r.variables@),
            torn_vars(steps),
            r.variables@.len() as int,
        )
}

/// Tears an algebraic loop: the equations at `eq_indices` in the loop
/// variables `variables`. With at most one equation nothing is torn. Else,
/// repeatedly, every equation with exactly one unknown variable is solved
/// for it; when none is left, the unknown variable occurring in the most
/// unsolved equations (the first on ties) is made a tearing variable; this
/// stops when every equation is solved or no unsolved equation has an
/// unknown variable (see `greedy_tearing`). The other variables are the
/// residual variables.
pub fn tear_algebraic_loop(equations: &Vec<Equation>, eq_indices: &Vec<usize>, variables: &Vec<String>) -> (r: AlgebraicLoop)
    ensures
        tearing_of(equations@, eq_indices@, string_views(variables@).to_set(), r),
{
    let n = eq_indices.len();
    let vars = distinct_strings(variables);
    let mut indices: Vec<usize> = Vec::new();
    let mut i: usize = 0;
    while i < n
        invariant
            i <= n,
            n == eq_indices@.len(),
            indices@ == eq_indices@.take(i as int),
        decreases n - i,
    {
        indices.push(eq_indices[i]);
        proof {
            assert(indices@ =~= eq_indices@.take(i as int + 1));
        }
        i = i + 1;
    }
    proof {
        assert(eq_indices@.take(n as int) =~= eq_indices@);
    }
    if n <= 1 {
        let mut residual: Vec<String> = Vec::new();
        let mut k: usize = 0;
        while k < vars.len()
            invariant
                k <= vars@.len(),
                string_views(residual@) == string_views(vars@.take(k as int)),
            decreases vars.len() - k,
        {
            let ghost r0 = residual@;
            let c = vars[k].clone();
            residual.push(c);
            proof {
                assert(residual@ =~= r0.push(c));
                assert(vars@.take(k as int + 1) =~= vars@.take(k as int).push(vars@[k as int]));
                assert(string_views(residual@) =~= string_views(r0).push(c@));
                assert(string_views(vars@.take(k as int + 1)) =~= string_views(vars@.take(k as int)).push(vars@[k as int]@));
            }
            k = k + 1;
        }
        proof {
            assert(vars@.take(vars@.len() as int) =~= vars@);
        }
        return AlgebraicLoop {
            equation_indices: indices,
            variables: vars,
            tearing_variables: Vec::new(),
            residual_variables: residual,
            size: n,
        };
    }
    let ghost vv = string_views(vars@);
    let mut rows: Vec<Vec<usize>> = Vec::new();
    let mut q: usize = 0;
    while q < n
        invariant
            q <= n,
            n == eq_indices@.len(),
            vv == string_views(vars@),
            vv.no_duplicates(),
            rows@.len() == valid_indices(equations@.len(), eq_indices@.take(q as int)).len(),
            forall|a: int| 0 <= a < rows@.len() ==> (#[trigger] rows@[a])@.no_duplicates(),
            forall|a: int, j: int| 0 <= a < rows@.len() && 0 <= j < rows@[a]@.len() ==> #[trigger] rows@[a]@[j] < vars@.len(),
            forall|a: int, k: usize| 0 <= a < rows@.len() ==> (#[trigger] rows@[a]@.contains(k) <==> (k < vv.len()
                && equation_vars(equations@[valid_indices(equations@.len(), eq_indices@.take(q as int))[a] as int]).contains(vv[k as int]))),
        decreases n - q,
    {
        let idx = eq_indices[q];
        let ghost before = rows@;
        let ghost valid0 = valid_indices(equations@.len(), eq_indices@.take(q as int));
        proof {
            let t = eq_indices@.take(q as int + 1);
            assert(t.drop_last() =~= eq_indices@.take(q as int));
            assert(t.last() == idx);
        }
        if idx < equations.len() {
            let st = analyze_equation_structure(&equations[idx]);
            let row = loop_row(&st, &vars);
            rows.push(row);
            proof {
                let valid1 = valid_indices(equations@.len(), eq_indices@.take(q as int + 1));
                assert(valid1 == valid0.push(idx));
                assert forall|a: int, k: usize| 0 <= a < rows@.len() implies (#[trigger] rows@[a]@.contains(k) <==> (k < vv.len()
                    && equation_vars(equations@[valid1[a] as int]).contains(vv[k as int]))) by {
                    if a < before.len() {
                        assert(rows@[a] == before[a]);
                        assert(valid1[a] == valid0[a]);
                    } else {
                        assert(valid1[a] == idx);
                        if k < vv.len() {
                            assert(vv[k as int] == vars@[k as int]@);
                            assert(string_views(st.variables@).contains(vv[k as int]) == string_views(st.variables@).to_set().contains(vv[k as int]));
                            assert(equation_vars(equations@[idx as int]).contains(vv[k as int]) == equation_vars(equations@[idx as int]).to_set().contains(vv[k as int]));
                        }
                    }
                }
            }
        }
        q = q + 1;
    }
    proof {
        assert(eq_indices@.take(n as int) =~= eq_indices@);
    }
    let (torn, steps) = greedy_tear(&rows, vars.len());
    let ghost rs = rows@.map_values(|x: Vec<usize>| x@);
    proof {
        assert(loop_rows(equations@, eq_indices@, vv, rs));
    }
    let mut tearing: Vec<String> = Vec::new();
    let mut a: usize = 0;
    while a < torn.len()
        invariant
            a <= torn@.len(),
            torn@ == torn_vars(steps@),
            greedy_tearing(rs, vars@.len() as nat, steps@),
            vv == string_views(vars@),
            forall|x: int| 0 <= x < torn@.len() ==> #[trigger] torn@[x] < vars@.len(),
            string_views(tearing@) == names_at(vv, torn@.take(a as int)),
        decreases torn.len() - a,
    {
        let t = torn[a];
        let ghost t0 = tearing@;
        let c = vars[t].clone();
        tearing.push(c);
        proof {
            assert(tearing@ =~= t0.push(c));
            assert(torn@.take(a as int + 1) =~= torn@.take(a as int).push(t));
            assert(string_views(tearing@) =~= string_views(t0).push(c@));
            assert(string_views(tearing@) =~= names_at(vv, torn@.take(a as int + 1)));
        }
        a = a + 1;
    }
    let mut residual: Vec<String> = Vec::new();
    let mut k: usize = 0;
    while k < vars.len()
        invariant
            k <= vars@.len(),
            vv == string_views(vars@),
            string_views(residual@) == residual_names(vv, torn@, k as int),
        decreases vars.len() - k,
    {
        let mut found = false;
        let mut b: usize = 0;
        while b < torn.len()
            invariant
                b <= torn@.len(),
                found == torn@.take(b as int).contains(k),
            decreases torn.len() - b,
        {
            proof {
                let p0 = torn@.take(b as int);
                assert(torn@.take(b as int + 1) =~= p0.push(torn@[b as int]));
                assert(p0.push(torn@[b as int])[b as int] == torn@[b as int]);
                if p0.contains(k) {
                    let z = choose|z: int| 0 <= z < p0.len() && p0[z] == k;
                    assert(p0.push(torn@[b as int])[z] == k);
                }
                if p0.push(torn@[b as int]).contains(k) && torn@[b as int] != k {
                    let z = choose|z: int| 0 <= z < p0.len() + 1 && p0.push(torn@[b as int])[z] == k;
                    assert(p0[z] == k);
                }
            }
            if torn[b] == k {
                found = true;
            }
            b = b + 1;
        }
        proof {
            assert(torn@.take(torn@.len() as int) =~= torn@);
        }
        let ghost r0 = residual@;
        if !found {
            let c = vars[k].clone();
            residual.push(c);
            proof {
                assert(residual@ =~= r0.push(c));
                assert(string_views(residual@) =~= string_views(r0).push(c@));
            }
        }
        proof {
            assert(string_views(residual@) =~= residual_names(vv, torn@, k as int + 1));
        }
        k = k + 1;
    }
    proof {
        assert(torn@.take(torn@.len() as int) =~= torn@);
        assert(loop_rows(equations@, eq_indices@, string_views(vars@), rs));
        assert(greedy_tearing(rs, vars@.len() as nat, steps@));
        assert(string_views(tearing@) == names_at(string_views(vars@), torn_vars(steps@)));
        assert(string_views(residual@) == residual_names(string_views(vars@), torn_vars(steps@), vars@.len() as int));
    }
    let ghost vs = string_views(vars@);
    let ghost nv = vars@.len() as nat;
    let result = AlgebraicLoop {
        equation_indices: indices,
        variables: vars,
        tearing_variables: tearing,
        residual_variables: residual,
        size: n,
    };
    proof {
        assert(string_views(result.variables@) == vs);
        assert(result.variables@.len() as nat == nv);
        assert(loop_rows(equations@, eq_indices@, string_views(result.variables@), rs) && greedy_tearing(
            rs,
            result.variables@.len() as nat,
            steps@,
        ) && string_views(result.tearing_variables@) == names_at(string_views(result.variables@), torn_vars(steps@))
            && string_views(result.residual_variables@) == residual_names(
            string_views(result.variables@),
            torn_vars(steps@),
            result.variables@.len() as int,
        ));
    }
    result
}

/// The components of more than one equation, in order.
pub open spec fn big_components(sccs: Seq<Vec<usize>>) -> Seq<Seq<usize>>
    decreases sccs.len(),
{
    if sccs.len() == 0 {
        seq![]
    } else if sccs.last()@.len() > 1 {
        big_components(sccs.drop_last()).push(sccs.last()@)
    } else {
        big_components(sccs.drop_last())
    }
}

/// The variables of the existing equations among `idx`.
pub open spec fn loop_variables(equations: Seq<Equation>, idx: Seq<usize>) -> Set<Seq<char>>
    decreases idx.len(),
{
    if idx.len() == 0 {
        Set::empty()
    } else if idx.last() < equations.len() {
        loop_variables(equations, idx.drop_last()).union(equation_vars(equations[idx.last() as int]).to_set())
    } else {
        loop_variables(equations, idx.drop_last())
    }
}

/// Finds the algebraic loops of an ordered system: each strongly connected
/// component of more than one equation, torn (see `tear_algebraic_loop`) in
/// the variables of its equations.
pub fn analyze_algebraic_loops(equations: &Vec<Equation>, sccs: &Vec<Vec<usize>>) -> (r: Vec<AlgebraicLoop>)
    ensures
        r@.len() == big_components(sccs@).len(),
        forall|j: int| 0 <= j < r@.len() ==> tearing_of(
            equations@,
            big_components(sccs@)[j],
            loop_variables(equations@, big_components(sccs@)[j]),
            #[trigger] r@[j],
        ),
{
    let mut loops: Vec<AlgebraicLoop> = Vec::new();
    let mut c: usize = 0;
    while c < sccs.len()
        invariant
            c <= sccs@.len(),
            loops@.len() == big_components(sccs@.take(c as int)).len(),
            forall|j: int| 0 <= j < loops@.len() ==> tearing_of(
                equations@,
                big_components(sccs@.take(c as int))[j],
                loop_variables(equations@, big_components(sccs@.take(c as int))[j]),
                #[trigger] loops@[j],
            ),
        decreases sccs.len() - c,
    {
        let scc = &sccs[c];
        let ghost big0 = big_components(sccs@.take(c as int));
        proof {
            let t = sccs@.take(c as int + 1);
            assert(t.drop_last() =~= sccs@.take(c as int));
            assert(t.last() == sccs@[c as int]);
        }
        if scc.len() > 1 {
            let mut loop_vars: Vec<String> = Vec::new();
            let mut e: usize = 0;
            while e < scc.len()
                invariant
                    e <= scc@.len(),
                    string_views(loop_vars@).to_set() == loop_variables(equations@, scc@.take(e as int)),
                decreases scc.len() - e,
            {
                let idx = scc[e];
                proof {
                    let t = scc@.take(e as int + 1);
                    assert(t.drop_last() =~= scc@.take(e as int));
                    assert(t.last() == idx);
                }
                if idx < equations.len() {
                    let st = analyze_equation_structure(&equations[idx]);
                    let ghost l0 = string_views(loop_vars@);
                    let mut j: usize = 0;
                    while j < st.variables.len()
                        invariant
                            j <= st.variables@.len(),
                            string_views(loop_vars@).to_set() == l0.to_set().union(string_views(st.variables@.take(j as int)).to_set()),
                        decreases st.variables.len() - j,
                    {
                        let ghost b = string_views(loop_vars@);
                        let v = st.variables[j].clone();
                        loop_vars.push(v);
                        proof {
                            assert(string_views(loop_vars@) =~= b.push(v@));
                            crate::names::lemma_push_to_set(b, v@);
                            let sj = string_views(st.variables@.take(j as int));
                            assert(string_views(st.variables@.take(j as int + 1)) =~= sj.push(v@));
                            crate::names::lemma_push_to_set(sj, v@);
                            assert(string_views(loop_vars@).to_set() =~= l0.to_set().union(sj.push(v@).to_set()));
                        }
                        j = j + 1;
                    }
                    proof {
                        assert(st.variables@.take(st.variables@.len() as int) =~= st.variables@);
                    }
                }
                e = e + 1;
            }
            proof {
                assert(scc@.take(scc@.len() as int) =~= scc@);
            }
            let l = tear_algebraic_loop(equations, scc, &loop_vars);
            let ghost before = loops@;
            loops.push(l);
            proof {
                let big1 = big_components(sccs@.take(c as int + 1));
                assert(big1 == big0.push(scc@));
                assert forall|j: int| 0 <= j < loops@.len() implies tearing_of(
                    equations@,
                    big1[j],
                    loop_variables(equations@, big1[j]),
                    #[trigger] loops@[j],
                ) by {
                    if j < before.len() {
                        assert(loops@[j] == before[j]);
                        assert(big1[j] == big0[j]);
                    }
                }
            }
        }
        c = c + 1;
    }
    proof {
        assert(sccs@.take(sccs@.len() as int) =~= sccs@);
    }
    loops
}

} // verus!
