//! Block lower triangular ordering of equation systems.
//!
//! Equations are matched to the variables they are solved for (maximum
//! bipartite matching), ordered by their dependencies (strongly connected
//! components in topological order), and rewritten so that each defines its
//! matched variable where a simple rearrangement allows it.
use vstd::prelude::*;
use crate::ast::{ComponentRefPart, ComponentReference, Equation, Expression, OpBinary, OpUnary, TerminalType, Token};
use crate::printer::{cref_text, write_cref};
use crate::names::{views, position, insert_sorted, strictly_sorted, lex_lt, string_views};
use crate::matching::{adjacency_ok, count_matched, is_matching, HopcroftKarp, NIL};

verus! {

/// The name of a variable: its reference as written.
pub open spec fn cref_name(c: ComponentReference) -> Seq<char> {
    cref_text(c)
}

/// The name of a reference, as characters.
pub fn cref_name_exec(c: &ComponentReference) -> (r: Vec<char>)
    ensures
        r@ == cref_name(*c),
{
    let mut out: Vec<char> = Vec::new();
    write_cref(&mut out, c);
    assert(out@ =~= cref_name(*c));
    out
}

/// `der`, the derivative operator's name.
pub open spec fn der_name() -> Seq<char> {
    seq!['d', 'e', 'r']
}

/// `der(x)`: the name given to the derivative of variable `x`.
pub open spec fn der_of(x: Seq<char>) -> Seq<char> {
    der_name() + seq!['('] + x + seq![')']
}

/// Whether a call is `der` applied to a reference: gives the reference's name.
pub open spec fn der_call_target(comp: ComponentReference, args: Seq<Expression>) -> Option<Seq<char>> {
    if cref_name(comp) == der_name() && args.len() > 0 {
        match args[0] {
            Expression::ComponentReference(c) => Some(cref_name(c)),
            _ => None,
        }
    } else {
        None
    }
}

/// The variables an expression refers to, in order of appearance and with
/// repetitions; the names of called functions are not variables.
pub open spec fn expr_vars(e: Expression) -> Seq<Seq<char>>
    decreases e, 0nat,
{
    match e {
        Expression::ComponentReference(c) => seq![cref_name(c)],
        Expression::FunctionCall { args, .. } => exprs_vars(args@),
        Expression::Unary { rhs, .. } => expr_vars(*rhs),
        Expression::Binary { lhs, rhs, .. } => expr_vars(*lhs) + expr_vars(*rhs),
        Expression::Array { elements } | Expression::Tuple { elements } => exprs_vars(elements@),
        Expression::Range { start, step, end } => expr_vars(*start) + (match step {
            Some(s) => expr_vars(*s),
            None => seq![],
        }) + expr_vars(*end),
        Expression::If { branches, else_branch } => branches_vars(branches@) + expr_vars(*else_branch),
        Expression::NamedArgument { value, .. } => expr_vars(*value),
        _ => seq![],
    }
}

/// The variables of expressions, one after another.
pub open spec fn exprs_vars(es: Seq<Expression>) -> Seq<Seq<char>>
    decreases es, 0nat,
{
    if es.len() == 0 {
        seq![]
    } else {
        exprs_vars(es.drop_last()) + expr_vars(es.last())
    }
}

/// The variables of the branches of an if-expression.
pub open spec fn branches_vars(bs: Seq<crate::ast::ExpressionBranch>) -> Seq<Seq<char>>
    decreases bs, 0nat,
{
    if bs.len() == 0 {
        seq![]
    } else {
        branches_vars(bs.drop_last()) + expr_vars(bs.last().cond) + expr_vars(bs.last().value)
    }
}

/// The variables whose derivatives `der(x)` an expression takes, in order of appearance.
pub open spec fn expr_ders(e: Expression) -> Seq<Seq<char>>
    decreases e, 0nat,
{
    match e {
        Expression::FunctionCall { comp, args } => (match der_call_target(comp, args@) {
            Some(x) => seq![x],
            None => seq![],
        }) + exprs_ders(args@),
        Expression::Unary { rhs, .. } => expr_ders(*rhs),
        Expression::Binary { lhs, rhs, .. } => expr_ders(*lhs) + expr_ders(*rhs),
        Expression::Array { elements } | Expression::Tuple { elements } => exprs_ders(elements@),
        Expression::Range { start, step, end } => expr_ders(*start) + (match step {
            Some(s) => expr_ders(*s),
            None => seq![],
        }) + expr_ders(*end),
        Expression::If { branches, else_branch } => branches_ders(branches@) + expr_ders(*else_branch),
        Expression::NamedArgument { value, .. } => expr_ders(*value),
        _ => seq![],
    }
}

/// The derivatives taken in expressions, one after another.
pub open spec fn exprs_ders(es: Seq<Expression>) -> Seq<Seq<char>>
    decreases es, 0nat,
{
    if es.len() == 0 {
        seq![]
    } else {
        exprs_ders(es.drop_last()) + expr_ders(es.last())
    }
}

/// The derivatives taken in the branches of an if-expression.
pub open spec fn branches_ders(bs: Seq<crate::ast::ExpressionBranch>) -> Seq<Seq<char>>
    decreases bs, 0nat,
{
    if bs.len() == 0 {
        seq![]
    } else {
        branches_ders(bs.drop_last()) + expr_ders(bs.last().cond) + expr_ders(bs.last().value)
    }
}

/// Whether `name` is `der`.
fn is_der_name(name: &[char]) -> (r: bool)
    ensures
        r == (name@ == der_name()),
{
    let d: &[char] = &['d', 'e', 'r'];
    assert(d@ =~= der_name());
    crate::lexer::chars_equal(name, d)
}

/// The variable a `der` call differentiates, if the call is `der` of a reference.
pub fn der_call_target_exec(comp: &ComponentReference, args: &Vec<Expression>) -> (r: Option<Vec<char>>)
    ensures
        match r {
            Some(v) => der_call_target(*comp, args@) == Some(v@),
            None => der_call_target(*comp, args@) is None,
        },
{
    let name = cref_name_exec(comp);
    if is_der_name(&name) && args.len() > 0 {
        match &args[0] {
            Expression::ComponentReference(c) => Some(cref_name_exec(c)),
            _ => None,
        }
    } else {
        None
    }
}

/// Appends the variables of an expression.
pub fn collect_vars(out: &mut Vec<Vec<char>>, e: &Expression)
    ensures
        final(out)@.map_values(|v: Vec<char>| v@) == old(out)@.map_values(|v: Vec<char>| v@) + expr_vars(*e),
    decreases e, 1nat,
{
    let ghost start = out@.map_values(|v: Vec<char>| v@);
    match e {
        Expression::ComponentReference(c) => {
            out.push(cref_name_exec(c));
        },
        Expression::FunctionCall { args, .. } => {
            collect_vars_list(out, args);
        },
        Expression::Unary { rhs, .. } => {
            collect_vars(out, rhs);
        },
        Expression::Binary { lhs, rhs, .. } => {
            collect_vars(out, lhs);
            collect_vars(out, rhs);
        },
        Expression::Array { elements } | Expression::Tuple { elements } => {
            collect_vars_list(out, elements);
        },
        Expression::Range { start: s0, step, end } => {
            collect_vars(out, s0);
            match step {
                Some(s) => collect_vars(out, s),
                None => {},
            }
            collect_vars(out, end);
        },
        Expression::If { branches, else_branch } => {
            collect_vars_branches(out, branches);
            collect_vars(out, else_branch);
        },
        Expression::NamedArgument { value, .. } => {
            collect_vars(out, value);
        },
        _ => {},
    }
    assert(out@.map_values(|v: Vec<char>| v@) =~= start + expr_vars(*e));
}

/// Appends the variables of the branches of an if-expression.
fn collect_vars_branches(out: &mut Vec<Vec<char>>, branches: &Vec<crate::ast::ExpressionBranch>)
    ensures
        final(out)@.map_values(|v: Vec<char>| v@) == old(out)@.map_values(|v: Vec<char>| v@) + branches_vars(branches@),
    decreases branches, 0nat,
{
    let ghost start = out@.map_values(|v: Vec<char>| v@);
    let mut i: usize = 0;
    while i < branches.len()
        invariant
            i <= branches@.len(),
            out@.map_values(|v: Vec<char>| v@) == start + branches_vars(branches@.take(i as int)),
        decreases branches.len() - i,
    {
        proof {
            assert(decreases_to!(branches => branches@[i as int]));
        }
        collect_vars(out, &branches[i].cond);
        collect_vars(out, &branches[i].value);
        proof {
            let t = branches@.take(i as int + 1);
            assert(t.drop_last() =~= branches@.take(i as int));
            assert(t.last() == branches@[i as int]);
        }
        i = i + 1;
    }
    proof {
        assert(branches@.take(branches@.len() as int) =~= branches@);
    }
}

/// Appends the variables of a list of expressions.
pub fn collect_vars_list(out: &mut Vec<Vec<char>>, es: &Vec<Expression>)
    ensures
        final(out)@.map_values(|v: Vec<char>| v@) == old(out)@.map_values(|v: Vec<char>| v@) + exprs_vars(es@),
    decreases es, 0nat,
{
    let ghost start = out@.map_values(|v: Vec<char>| v@);
    let mut i: usize = 0;
    while i < es.len()
        invariant
            i <= es@.len(),
            out@.map_values(|v: Vec<char>| v@) == start + exprs_vars(es@.take(i as int)),
        decreases es.len() - i,
    {
        proof {
            assert(decreases_to!(es => es@[i as int]));
        }
        collect_vars(out, &es[i]);
        proof {
            let t = es@.take(i as int + 1);
            assert(t.drop_last() =~= es@.take(i as int));
            assert(t.last() == es@[i as int]);
        }
        i = i + 1;
    }
    proof {
        assert(es@.take(es@.len() as int) =~= es@);
    }
}


/// Appends the derivatives taken in an expression.
pub fn collect_ders(out: &mut Vec<Vec<char>>, e: &Expression)
    ensures
        final(out)@.map_values(|v: Vec<char>| v@) == old(out)@.map_values(|v: Vec<char>| v@) + expr_ders(*e),
    decreases e, 1nat,
{
    let ghost start = out@.map_values(|v: Vec<char>| v@);
    match e {
        Expression::FunctionCall { comp, args } => {
            match der_call_target_exec(comp, args) {
                Some(x) => out.push(x),
                None => {},
            }
            collect_ders_list(out, args);
        },
        Expression::Unary { rhs, .. } => {
            collect_ders(out, rhs);
        },
        Expression::Binary { lhs, rhs, .. } => {
            collect_ders(out, lhs);
            collect_ders(out, rhs);
        },
        Expression::Array { elements } | Expression::Tuple { elements } => {
            collect_ders_list(out, elements);
        },
        Expression::Range { start: s0, step, end } => {
            collect_ders(out, s0);
            match step {
                Some(s) => collect_ders(out, s),
                None => {},
            }
            collect_ders(out, end);
        },
        Expression::If { branches, else_branch } => {
            collect_ders_branches(out, branches);
            collect_ders(out, else_branch);
        },
        Expression::NamedArgument { value, .. } => {
            collect_ders(out, value);
        },
        _ => {},
    }
    assert(out@.map_values(|v: Vec<char>| v@) =~= start + expr_ders(*e));
}

fn collect_ders_branches(out: &mut Vec<Vec<char>>, branches: &Vec<crate::ast::ExpressionBranch>)
    ensures
        final(out)@.map_values(|v: Vec<char>| v@) == old(out)@.map_values(|v: Vec<char>| v@) + branches_ders(branches@),
    decreases branches, 0nat,
{
    let ghost start = out@.map_values(|v: Vec<char>| v@);
    let mut i: usize = 0;
    while i < branches.len()
        invariant
            i <= branches@.len(),
            out@.map_values(|v: Vec<char>| v@) == start + branches_ders(branches@.take(i as int)),
        decreases branches.len() - i,
    {
        proof {
            assert(decreases_to!(branches => branches@[i as int]));
        }
        collect_ders(out, &branches[i].cond);
        collect_ders(out, &branches[i].value);
        proof {
            let t = branches@.take(i as int + 1);
            assert(t.drop_last() =~= branches@.take(i as int));
            assert(t.last() == branches@[i as int]);
        }
        i = i + 1;
    }
    proof {
        assert(branches@.take(branches@.len() as int) =~= branches@);
    }
}

/// Appends the derivatives taken in a list of expressions.
pub fn collect_ders_list(out: &mut Vec<Vec<char>>, es: &Vec<Expression>)
    ensures
        final(out)@.map_values(|v: Vec<char>| v@) == old(out)@.map_values(|v: Vec<char>| v@) + exprs_ders(es@),
    decreases es, 0nat,
{
    let ghost start = out@.map_values(|v: Vec<char>| v@);
    let mut i: usize = 0;
    while i < es.len()
        invariant
            i <= es@.len(),
            out@.map_values(|v: Vec<char>| v@) == start + exprs_ders(es@.take(i as int)),
        decreases es.len() - i,
    {
        proof {
            assert(decreases_to!(es => es@[i as int]));
        }
        collect_ders(out, &es[i]);
        proof {
            let t = es@.take(i as int + 1);
            assert(t.drop_last() =~= es@.take(i as int));
            assert(t.last() == es@[i as int]);
        }
        i = i + 1;
    }
    proof {
        assert(es@.take(es@.len() as int) =~= es@);
    }
}

/// Whether an expression takes a derivative `der(x)` of a variable.
pub fn has_der_call(e: &Expression) -> (r: bool)
    ensures
        r == (expr_ders(*e).len() > 0),
{
    let mut found: Vec<Vec<char>> = Vec::new();
    collect_ders(&mut found, e);
    assert(found@.map_values(|v: Vec<char>| v@) =~= expr_ders(*e));
    found.len() > 0
}

/// Whether an equation is to be turned around: it takes a derivative on
/// the right-hand side but none on the left.
pub open spec fn needs_swap(lhs: Expression, rhs: Expression) -> bool {
    expr_ders(lhs).len() == 0 && expr_ders(rhs).len() > 0
}

/// Whether an equation is to be turned around.
pub fn check_if_needs_swap(lhs: &Expression, rhs: &Expression) -> (r: bool)
    ensures
        r == needs_swap(*lhs, *rhs),
{
    !has_der_call(lhs) && has_der_call(rhs)
}

/// The literal `0` or `0.0`.
pub open spec fn is_zero_expr(e: Expression) -> bool {
    match e {
        Expression::Terminal { token, .. } => token.text@ == seq!['0'] || token.text@ == seq!['0', '.', '0'],
        _ => false,
    }
}

/// Whether an expression is the literal `0` or `0.0`.
pub fn is_zero_expression(e: &Expression) -> (r: bool)
    ensures
        r == is_zero_expr(*e),
{
    match e {
        Expression::Terminal { token, .. } => {
            let t = crate::text::str_to_chars(token.text.as_str());
            let z1: &[char] = &['0'];
            let z2: &[char] = &['0', '.', '0'];
            assert(z1@ =~= seq!['0']);
            assert(z2@ =~= seq!['0', '.', '0']);
            crate::lexer::chars_equal(&t, z1) || crate::lexer::chars_equal(&t, z2)
        },
        _ => false,
    }
}

/// A reference to the variable `v`: a single part named `v`.
pub open spec fn is_var_ref(e: Expression, v: Seq<char>) -> bool {
    match e {
        Expression::ComponentReference(c) => cref_name(c) == v,
        _ => false,
    }
}

/// A fresh reference to the variable `v` without subscripts.
pub open spec fn is_fresh_var(e: Expression, v: Seq<char>) -> bool {
    match e {
        Expression::ComponentReference(c) => c.parts@.len() == 1 && c.parts@[0].subs is None
            && c.parts@[0].ident.text@ == v && !c.local,
        _ => false,
    }
}

/// A fresh literal `0`.
pub open spec fn is_fresh_zero(e: Expression) -> bool {
    match e {
        Expression::Terminal { terminal_type, token } => terminal_type == TerminalType::UnsignedReal
            && token.text@ == seq!['0'],
        _ => false,
    }
}

/// The negation of `e`, simplifying `-(-x)` to `x` and `-(a - b)` to `b - a`.
pub open spec fn negate_spec(e: Expression) -> Expression {
    match e {
        Expression::Unary { op: OpUnary::Minus, rhs } => *rhs,
        Expression::Binary { op: OpBinary::Sub, lhs, rhs } => Expression::Binary { op: OpBinary::Sub, lhs: rhs, rhs: lhs },
        _ => Expression::Unary { op: OpUnary::Minus, rhs: Box::new(e) },
    }
}

/// Negates an expression.
pub fn negate_expression(e: Expression) -> (r: Expression)
    ensures
        r == negate_spec(e),
{
    match e {
        Expression::Unary { op: OpUnary::Minus, rhs } => *rhs,
        Expression::Binary { op: OpBinary::Sub, lhs, rhs } => Expression::Binary { op: OpBinary::Sub, lhs: rhs, rhs: lhs },
        other => Expression::Unary { op: OpUnary::Minus, rhs: Box::new(other) },
    }
}

/// The split of `e` into `±v + rest` for the variable `v`, looking through
/// `+`, `-` and unary minus: whether `v` enters with a plus sign, and the rest
/// (`zero` when nothing is left). `None` when `v` is not found that way.
pub open spec fn linear_split(e: Expression, v: Seq<char>, zero: Expression) -> Option<(bool, Expression)>
    decreases e,
{
    match e {
        Expression::ComponentReference(c) => if cref_name(c) == v {
            Some((true, zero))
        } else {
            None
        },
        Expression::Unary { op: OpUnary::Minus, rhs } => if is_var_ref(*rhs, v) {
            Some((false, zero))
        } else {
            match linear_split(*rhs, v, zero) {
                Some((p, o)) => Some((!p, negate_spec(o))),
                None => None,
            }
        },
        Expression::Binary { op: OpBinary::Add, lhs, rhs } => match linear_split(*lhs, v, zero) {
            Some((p, o)) => Some((p, if is_zero_expr(o) {
                *rhs
            } else {
                Expression::Binary { op: OpBinary::Add, lhs: Box::new(o), rhs }
            })),
            None => match linear_split(*rhs, v, zero) {
                Some((p, o)) => Some((p, if is_zero_expr(o) {
                    *lhs
                } else {
                    Expression::Binary { op: OpBinary::Add, lhs, rhs: Box::new(o) }
                })),
                None => None,
            },
        },
        Expression::Binary { op: OpBinary::Sub, lhs, rhs } => match linear_split(*lhs, v, zero) {
            Some((p, o)) => Some((p, if is_zero_expr(o) {
                negate_spec(*rhs)
            } else {
                Expression::Binary { op: OpBinary::Sub, lhs: Box::new(o), rhs }
            })),
            None => match linear_split(*rhs, v, zero) {
                Some((p, o)) => Some((!p, if is_zero_expr(o) {
                    *lhs
                } else {
                    Expression::Binary { op: OpBinary::Sub, lhs, rhs: Box::new(o) }
                })),
                None => None,
            },
        },
        _ => None,
    }
}

/// Splits `e` into `±v + rest`; when `v` is not found that way, hands back
/// `e` and `zero` unchanged.
pub fn extract_linear_term(e: Expression, v: &[char], zero: Expression) -> (r: Result<(bool, Expression), (Expression, Expression)>)
    ensures
        match r {
            Ok((p, o)) => linear_split(e, v@, zero) == Some((p, o)),
            Err((e2, z2)) => linear_split(e, v@, zero) is None && e2 == e && z2 == zero,
        },
    decreases e,
{
    let ghost e0 = e;
    match e {
        Expression::ComponentReference(c) => {
            let name = cref_name_exec(&c);
            if crate::lexer::chars_equal(&name, v) {
                Ok((true, zero))
            } else {
                Err((Expression::ComponentReference(c), zero))
            }
        },
        Expression::Unary { op: OpUnary::Minus, rhs } => {
            let direct = match &*rhs {
                Expression::ComponentReference(c) => {
                    let name = cref_name_exec(c);
                    crate::lexer::chars_equal(&name, v)
                },
                _ => false,
            };
            if direct {
                return Ok((false, zero));
            }
            match extract_linear_term(*rhs, v, zero) {
                Ok((p, o)) => Ok((!p, negate_expression(o))),
                Err((back, z)) => Err((Expression::Unary { op: OpUnary::Minus, rhs: Box::new(back) }, z)),
            }
        },
        Expression::Binary { op: OpBinary::Add, lhs, rhs } => match extract_linear_term(*lhs, v, zero) {
            Ok((p, o)) => {
                if is_zero_expression(&o) {
                    Ok((p, *rhs))
                } else {
                    Ok((p, Expression::Binary { op: OpBinary::Add, lhs: Box::new(o), rhs }))
                }
            },
            Err((lhs_back, z)) => match extract_linear_term(*rhs, v, z) {
                Ok((p, o)) => {
                    if is_zero_expression(&o) {
                        Ok((p, lhs_back))
                    } else {
                        Ok((p, Expression::Binary { op: OpBinary::Add, lhs: Box::new(lhs_back), rhs: Box::new(o) }))
                    }
                },
                Err((rhs_back, z2)) => Err((
                    Expression::Binary { op: OpBinary::Add, lhs: Box::new(lhs_back), rhs: Box::new(rhs_back) },
                    z2,
                )),
            },
        },
        Expression::Binary { op: OpBinary::Sub, lhs, rhs } => match extract_linear_term(*lhs, v, zero) {
            Ok((p, o)) => {
                if is_zero_expression(&o) {
                    Ok((p, negate_expression(*rhs)))
                } else {
                    Ok((p, Expression::Binary { op: OpBinary::Sub, lhs: Box::new(o), rhs }))
                }
            },
            Err((lhs_back, z)) => match extract_linear_term(*rhs, v, z) {
                Ok((p, o)) => {
                    if is_zero_expression(&o) {
                        Ok((!p, lhs_back))
                    } else {
                        Ok((!p, Expression::Binary { op: OpBinary::Sub, lhs: Box::new(lhs_back), rhs: Box::new(o) }))
                    }
                },
                Err((rhs_back, z2)) => Err((
                    Expression::Binary { op: OpBinary::Sub, lhs: Box::new(lhs_back), rhs: Box::new(rhs_back) },
                    z2,
                )),
            },
        },
        other => Err((other, zero)),
    }
}


/// `v = rhs` for the fresh reference `var` to `v`.
pub open spec fn defines(var: Expression, rhs: Expression) -> Equation {
    Equation::Simple { lhs: var, rhs }
}

/// `e` with the sign of the solved variable folded in: `-e` when it entered
/// with a plus sign (moved to the other side), `e` otherwise.
pub open spec fn signed_other(p: bool, o: Expression) -> Expression {
    if p {
        negate_spec(o)
    } else {
        o
    }
}

/// `side - other` unless `other` is the literal zero, then `side`; negated
/// when `v` entered with a minus sign.
pub open spec fn moved_across(p: bool, side: Expression, other: Expression) -> Expression {
    let diff = if is_zero_expr(other) {
        side
    } else {
        Expression::Binary { op: OpBinary::Sub, lhs: Box::new(side), rhs: Box::new(other) }
    };
    if p {
        diff
    } else {
        negate_spec(diff)
    }
}

/// The equation `lhs = rhs` solved for the variable `v`, where a simple
/// rearrangement does it: `None` when it already reads `v = ...` or cannot
/// be rearranged. `var` is a fresh reference to `v` and `zero` a fresh `0`.
pub open spec fn causalize_spec(lhs: Expression, rhs: Expression, v: Seq<char>, var: Expression, zero: Expression) -> Option<Equation> {
    if is_var_ref(lhs, v) {
        None
    } else if is_var_ref(rhs, v) {
        Some(Equation::Simple { lhs: rhs, rhs: lhs })
    } else if is_zero_expr(rhs) && linear_split(lhs, v, zero) is Some {
        let (p, o) = linear_split(lhs, v, zero)->0;
        Some(defines(var, signed_other(p, o)))
    } else if is_zero_expr(lhs) && linear_split(rhs, v, zero) is Some {
        let (p, o) = linear_split(rhs, v, zero)->0;
        Some(defines(var, signed_other(p, o)))
    } else if lhs matches Expression::Binary { op: OpBinary::Mul, rhs: m, .. } && is_var_ref(*m, v) {
        Some(defines(var, Expression::Binary { op: OpBinary::Div, lhs: Box::new(rhs), rhs: lhs->lhs }))
    } else if lhs matches Expression::Binary { op: OpBinary::Mul, lhs: m, .. } && is_var_ref(*m, v) {
        Some(defines(var, Expression::Binary { op: OpBinary::Div, lhs: Box::new(rhs), rhs: lhs->Binary_rhs }))
    } else if linear_split(lhs, v, zero) is Some {
        let (p, o) = linear_split(lhs, v, zero)->0;
        Some(defines(var, moved_across(p, rhs, o)))
    } else if linear_split(rhs, v, zero) is Some {
        let (p, o) = linear_split(rhs, v, zero)->0;
        Some(defines(var, moved_across(p, lhs, o)))
    } else {
        None
    }
}

fn is_var_ref_exec(e: &Expression, v: &[char]) -> (r: bool)
    ensures
        r == is_var_ref(*e, v@),
{
    match e {
        Expression::ComponentReference(c) => {
            let name = cref_name_exec(c);
            crate::lexer::chars_equal(&name, v)
        },
        _ => false,
    }
}

/// `side - other` (or `side` when `other` is zero), negated when `p` is false.
fn move_across(p: bool, side: Expression, other: Expression) -> (r: Expression)
    ensures
        r == moved_across(p, side, other),
{
    let diff = if is_zero_expression(&other) {
        side
    } else {
        Expression::Binary { op: OpBinary::Sub, lhs: Box::new(side), rhs: Box::new(other) }
    };
    if p {
        diff
    } else {
        negate_expression(diff)
    }
}

/// Solves `lhs = rhs` for the variable `v` where a simple rearrangement does
/// it; otherwise hands back `lhs` and `rhs` unchanged.
pub fn causalize_equation(lhs: Expression, rhs: Expression, v: &[char], var: Expression, zero: Expression) -> (r: Result<Equation, (Expression, Expression)>)
    ensures
        match r {
            Ok(eq) => causalize_spec(lhs, rhs, v@, var, zero) == Some(eq),
            Err((l2, r2)) => causalize_spec(lhs, rhs, v@, var, zero) is None && l2 == lhs && r2 == rhs,
        },
{
    let ghost l0 = lhs;
    let ghost r0 = rhs;
    if is_var_ref_exec(&lhs, v) {
        return Err((lhs, rhs));
    }
    if is_var_ref_exec(&rhs, v) {
        return Ok(Equation::Simple { lhs: rhs, rhs: lhs });
    }
    let mut lhs = lhs;
    let mut rhs = rhs;
    let mut zero = zero;
    if is_zero_expression(&rhs) {
        match extract_linear_term(lhs, v, zero) {
            Ok((p, o)) => {
                let new_rhs = if p { negate_expression(o) } else { o };
                return Ok(Equation::Simple { lhs: var, rhs: new_rhs });
            },
            Err((l, z)) => {
                lhs = l;
                zero = z;
            },
        }
    }
    if is_zero_expression(&lhs) {
        match extract_linear_term(rhs, v, zero) {
            Ok((p, o)) => {
                let new_rhs = if p { negate_expression(o) } else { o };
                return Ok(Equation::Simple { lhs: var, rhs: new_rhs });
            },
            Err((r, z)) => {
                rhs = r;
                zero = z;
            },
        }
    }
    assert(lhs == l0 && rhs == r0);
    let mul_right = match &lhs {
        Expression::Binary { op: OpBinary::Mul, rhs: m, .. } => is_var_ref_exec(m, v),
        _ => false,
    };
    let mul_left = match &lhs {
        Expression::Binary { op: OpBinary::Mul, lhs: m, .. } => is_var_ref_exec(m, v),
        _ => false,
    };
    if mul_right || mul_left {
        match lhs {
            Expression::Binary { op, lhs: ml, rhs: mr } => {
                let coeff = if mul_right { ml } else { mr };
                return Ok(Equation::Simple {
                    lhs: var,
                    rhs: Expression::Binary { op: OpBinary::Div, lhs: Box::new(rhs), rhs: coeff },
                });
            },
            _ => {
                return Err((lhs, rhs));
            },
        }
    }
    match extract_linear_term(lhs, v, zero) {
        Ok((p, o)) => {
            return Ok(Equation::Simple { lhs: var, rhs: move_across(p, rhs, o) });
        },
        Err((l, z)) => {
            lhs = l;
            zero = z;
        },
    }
    match extract_linear_term(rhs, v, zero) {
        Ok((p, o)) => Ok(Equation::Simple { lhs: var, rhs: move_across(p, lhs, o) }),
        Err((r, _z)) => Err((lhs, r)),
    }
}

/// A call of `der` with exactly one argument.
pub open spec fn is_der_call_one(e: Expression) -> bool {
    match e {
        Expression::FunctionCall { comp, args } => cref_name(comp) == der_name() && args@.len() == 1,
        _ => false,
    }
}

/// `c * der(x) = y` or `der(x) * c = y` written as `der(x) = y / c`;
/// `None` for equations of other forms.
pub open spec fn normalize_derivative_spec(lhs: Expression, rhs: Expression) -> Option<Equation> {
    match lhs {
        Expression::Binary { op: OpBinary::Mul, lhs: ml, rhs: mr } => if is_der_call_one(*mr) {
            Some(Equation::Simple { lhs: *mr, rhs: Expression::Binary { op: OpBinary::Div, lhs: Box::new(rhs), rhs: ml } })
        } else if is_der_call_one(*ml) {
            Some(Equation::Simple { lhs: *ml, rhs: Expression::Binary { op: OpBinary::Div, lhs: Box::new(rhs), rhs: mr } })
        } else {
            None
        },
        _ => None,
    }
}

fn is_der_call_one_exec(e: &Expression) -> (r: bool)
    ensures
        r == is_der_call_one(*e),
{
    match e {
        Expression::FunctionCall { comp, args } => {
            let name = cref_name_exec(comp);
            is_der_name(&name) && args.len() == 1
        },
        _ => false,
    }
}

/// Writes `c * der(x) = y` as `der(x) = y / c`; otherwise hands back `lhs` and `rhs`.
pub fn normalize_derivative_equation(lhs: Expression, rhs: Expression) -> (r: Result<Equation, (Expression, Expression)>)
    ensures
        match r {
            Ok(eq) => normalize_derivative_spec(lhs, rhs) == Some(eq),
            Err((l2, r2)) => normalize_derivative_spec(lhs, rhs) is None && l2 == lhs && r2 == rhs,
        },
{
    let which = match &lhs {
        Expression::Binary { op: OpBinary::Mul, lhs: ml, rhs: mr } => if is_der_call_one_exec(mr) {
            1u8
        } else if is_der_call_one_exec(ml) {
            2u8
        } else {
            0u8
        },
        _ => 0u8,
    };
    if which == 0 {
        return Err((lhs, rhs));
    }
    match lhs {
        Expression::Binary { op, lhs: ml, rhs: mr } => {
            if which == 1 {
                Ok(Equation::Simple { lhs: *mr, rhs: Expression::Binary { op: OpBinary::Div, lhs: Box::new(rhs), rhs: ml } })
            } else {
                Ok(Equation::Simple { lhs: *ml, rhs: Expression::Binary { op: OpBinary::Div, lhs: Box::new(rhs), rhs: mr } })
            }
        },
        other => Err((other, rhs)),
    }
}

/// How an equation comes out of the ordering, given the variable it was
/// matched to: turned around when only its right side differentiates, or
/// `c * der(x) = y` as `der(x) = y / c`, or solved for its matched variable,
/// or else unchanged. `var` is a fresh reference to the matched variable and
/// `zero` a fresh `0`.
pub open spec fn transform_spec(eq: Equation, matched: Option<Seq<char>>, var: Expression, zero: Expression) -> Equation {
    match eq {
        Equation::Simple { lhs, rhs } => if needs_swap(lhs, rhs) {
            Equation::Simple { lhs: rhs, rhs: lhs }
        } else if normalize_derivative_spec(lhs, rhs) is Some {
            normalize_derivative_spec(lhs, rhs)->0
        } else {
            match matched {
                Some(v) => match causalize_spec(lhs, rhs, v, var, zero) {
                    Some(c) => c,
                    None => eq,
                },
                None => eq,
            }
        },
        _ => eq,
    }
}

/// A fresh reference to the variable named `v`.
pub fn make_var(v: &[char]) -> (r: Expression)
    ensures
        is_fresh_var(r, v@),
{
    let ident = Token {
        text: crate::text::chars_to_string(v),
        location: crate::ast::Location {
            start_line: 0,
            start_column: 0,
            end_line: 0,
            end_column: 0,
            start: 0,
            end: 0,
            file_name: String::new(),
        },
        token_number: 0,
        token_type: 0,
    };
    let mut parts: Vec<ComponentRefPart> = Vec::new();
    parts.push(ComponentRefPart { ident, subs: None });
    Expression::ComponentReference(ComponentReference { local: false, parts })
}

/// A fresh literal `0`.
pub fn make_zero() -> (r: Expression)
    ensures
        is_fresh_zero(r),
{
    let z: &[char] = &['0'];
    assert(z@ =~= seq!['0']);
    let token = Token {
        text: crate::text::chars_to_string(z),
        location: crate::ast::Location {
            start_line: 0,
            start_column: 0,
            end_line: 0,
            end_column: 0,
            start: 0,
            end: 0,
            file_name: String::new(),
        },
        token_number: 0,
        token_type: 0,
    };
    Expression::Terminal { terminal_type: TerminalType::UnsignedReal, token }
}

/// The characters of an optional slice.
pub open spec fn opt_chars(m: Option<&[char]>) -> Option<Seq<char>> {
    match m {
        Some(x) => Some(x@),
        None => None,
    }
}

/// `r` is `eq` rewritten by `transform_spec`, for some fresh reference to
/// the matched variable and some fresh `0`.
pub open spec fn transformed(eq: Equation, mv: Option<Seq<char>>, r: Equation) -> bool {
    exists|var: Expression, zero: Expression|
        #![trigger transform_spec(eq, mv, var, zero)]
        (mv is Some ==> is_fresh_var(var, mv->0)) && is_fresh_zero(zero) && r == transform_spec(eq, mv, var, zero)
}

/// Rewrites an equation as it comes out of the ordering (see `transform_spec`).
pub fn transform_equation(eq: Equation, matched: Option<&[char]>) -> (r: Equation)
    ensures
        transformed(eq, opt_chars(matched), r),
{
    let zero = make_zero();
    let ghost z0 = zero;
    let var = match matched {
        Some(m) => make_var(m),
        None => make_var(&[]),
    };
    let ghost v0 = var;
    let ghost mv = opt_chars(matched);
    let r = match eq {
        Equation::Simple { lhs, rhs } => {
            if check_if_needs_swap(&lhs, &rhs) {
                Equation::Simple { lhs: rhs, rhs: lhs }
            } else {
                match normalize_derivative_equation(lhs, rhs) {
                    Ok(n) => n,
                    Err((lhs, rhs)) => match matched {
                        Some(m) => match causalize_equation(lhs, rhs, m, var, zero) {
                            Ok(c) => c,
                            Err((l, r)) => Equation::Simple { lhs: l, rhs: r },
                        },
                        None => Equation::Simple { lhs, rhs },
                    },
                }
            }
        },
        other => other,
    };
    assert(r == transform_spec(eq, mv, v0, z0));
    assert((mv is Some ==> is_fresh_var(v0, mv->0)) && is_fresh_zero(z0));
    r
}


/// The value of an expression under a valuation `env` of the variables (by
/// name) and `atom` of every other subexpression that is not `+`, `-`, a
/// negation or the literal zero, over the integers.
pub open spec fn eval(e: Expression, env: spec_fn(Seq<char>) -> int, atom: spec_fn(Expression) -> int) -> int
    decreases e,
{
    match e {
        Expression::ComponentReference(c) => env(cref_name(c)),
        Expression::Unary { op: OpUnary::Minus, rhs } => -eval(*rhs, env, atom),
        Expression::Binary { op: OpBinary::Add, lhs, rhs } => eval(*lhs, env, atom) + eval(*rhs, env, atom),
        Expression::Binary { op: OpBinary::Sub, lhs, rhs } => eval(*lhs, env, atom) - eval(*rhs, env, atom),
        _ => if is_zero_expr(e) {
            0
        } else {
            atom(e)
        },
    }
}

/// Negation as written by `negate_expression` has the opposite value.
pub proof fn lemma_negate_value(e: Expression, env: spec_fn(Seq<char>) -> int, atom: spec_fn(Expression) -> int)
    ensures
        eval(negate_spec(e), env, atom) == -eval(e, env, atom),
{
}

/// The split of an expression into `±v + rest` keeps its value: it is
/// `v + rest` when `v` enters with a plus sign and `-v + rest` otherwise.
pub proof fn lemma_linear_split_value(
    e: Expression,
    v: Seq<char>,
    zero: Expression,
    env: spec_fn(Seq<char>) -> int,
    atom: spec_fn(Expression) -> int,
)
    requires
        is_zero_expr(zero),
        linear_split(e, v, zero) is Some,
    ensures
        ({
            let (p, o) = linear_split(e, v, zero)->0;
            eval(e, env, atom) == (if p { env(v) } else { -env(v) }) + eval(o, env, atom)
        }),
    decreases e,
{
    match e {
        Expression::Unary { op: OpUnary::Minus, rhs } => {
            assert(eval(zero, env, atom) == 0);
            if is_var_ref(*rhs, v) {
                assert(eval(*rhs, env, atom) == env(v));
            } else {
                lemma_linear_split_value(*rhs, v, zero, env, atom);
                let (p, o) = linear_split(*rhs, v, zero)->0;
                lemma_negate_value(o, env, atom);
            }
        },
        Expression::Binary { op: OpBinary::Add, lhs, rhs } => {
            if linear_split(*lhs, v, zero) is Some {
                lemma_linear_split_value(*lhs, v, zero, env, atom);
            } else {
                lemma_linear_split_value(*rhs, v, zero, env, atom);
            }
        },
        Expression::Binary { op: OpBinary::Sub, lhs, rhs } => {
            if linear_split(*lhs, v, zero) is Some {
                lemma_linear_split_value(*lhs, v, zero, env, atom);
                lemma_negate_value(*rhs, env, atom);
            } else {
                lemma_linear_split_value(*rhs, v, zero, env, atom);
            }
        },
        _ => {},
    }
}

/// Solving an equation for a variable keeps its solutions: whenever
/// `causalize_equation` rewrites `lhs = rhs` (other than a product `c * v`
/// on the left, which it divides out), the result holds under exactly the
/// valuations under which `lhs = rhs` does.
pub proof fn lemma_causalize_equivalent(
    lhs: Expression,
    rhs: Expression,
    v: Seq<char>,
    var: Expression,
    zero: Expression,
    env: spec_fn(Seq<char>) -> int,
    atom: spec_fn(Expression) -> int,
)
    requires
        is_fresh_var(var, v),
        is_fresh_zero(zero),
        !(lhs matches Expression::Binary { op: OpBinary::Mul, .. }),
        causalize_spec(lhs, rhs, v, var, zero) is Some,
    ensures
        ({
            let eq = causalize_spec(lhs, rhs, v, var, zero)->0;
            eq matches Equation::Simple { lhs: l2, rhs: r2 } && ((eval(lhs, env, atom) == eval(rhs, env, atom)) <==> (
            eval(l2, env, atom) == eval(r2, env, atom)))
        }),
{
    assert(cref_name(var->0) == v) by {
        let c = var->0;
        assert(c.parts@.len() == 1);
        assert(crate::printer::parts_text(c.parts@) == crate::printer::part_text(c.parts@[0]));
    }
    assert(eval(var, env, atom) == env(v));
    if is_var_ref(rhs, v) {
    } else if is_zero_expr(rhs) && linear_split(lhs, v, zero) is Some {
        lemma_linear_split_value(lhs, v, zero, env, atom);
        let (p, o) = linear_split(lhs, v, zero)->0;
        lemma_negate_value(o, env, atom);
    } else if is_zero_expr(lhs) && linear_split(rhs, v, zero) is Some {
        lemma_linear_split_value(rhs, v, zero, env, atom);
        let (p, o) = linear_split(rhs, v, zero)->0;
        lemma_negate_value(o, env, atom);
    } else if linear_split(lhs, v, zero) is Some {
        lemma_linear_split_value(lhs, v, zero, env, atom);
        let (p, o) = linear_split(lhs, v, zero)->0;
        let diff = if is_zero_expr(o) {
            rhs
        } else {
            Expression::Binary { op: OpBinary::Sub, lhs: Box::new(rhs), rhs: Box::new(o) }
        };
        lemma_negate_value(diff, env, atom);
    } else {
        lemma_linear_split_value(rhs, v, zero, env, atom);
        let (p, o) = linear_split(rhs, v, zero)->0;
        let diff = if is_zero_expr(o) {
            lhs
        } else {
            Expression::Binary { op: OpBinary::Sub, lhs: Box::new(lhs), rhs: Box::new(o) }
        };
        lemma_negate_value(diff, env, atom);
    }
}


/// The variable an equation states on its left: `x` for `x = ...`, `der(x)`
/// for `der(x) = ...`.
pub open spec fn lhs_variable_spec(eq: Equation) -> Option<Seq<char>> {
    match eq {
        Equation::Simple { lhs, .. } => match lhs {
            Expression::ComponentReference(c) => Some(cref_name(c)),
            Expression::FunctionCall { comp, args } => match der_call_target(comp, args@) {
                Some(x) => Some(der_of(x)),
                None => None,
            },
            _ => None,
        },
        _ => None,
    }
}

/// The variables an equation involves, in order of appearance, with
/// repetitions: its left-hand variable (or those of a left side that is
/// neither a reference nor a call), those of its right side, and `der(x)`
/// for each derivative it takes. Only simple equations take part.
pub open spec fn occurrences(eq: Equation) -> Seq<Seq<char>> {
    match eq {
        Equation::Simple { lhs, rhs } => {
            let left = match lhs {
                Expression::ComponentReference(c) => seq![cref_name(c)],
                Expression::FunctionCall { comp, args } => match der_call_target(comp, args@) {
                    Some(x) => seq![der_of(x)],
                    None => seq![],
                },
                _ => expr_vars(lhs),
            };
            left + expr_vars(rhs) + (expr_ders(lhs) + expr_ders(rhs)).map_values(|x: Seq<char>| der_of(x))
        },
        _ => seq![],
    }
}

/// What the ordering knows of an equation.
pub struct EquationInfo {
    /// The variables it involves, each once.
    pub all_variables: Vec<Vec<char>>,
    /// The variable its left side states, if any.
    pub lhs_variable: Option<Vec<char>>,
    /// Whether it reads `der(x) = ...`.
    pub is_derivative: bool,
    /// The variable it is solved for, once matched.
    pub matched_variable: Option<Vec<char>>,
}

/// `der(x)` as characters.
pub fn der_of_exec(x: &[char]) -> (r: Vec<char>)
    ensures
        r@ == der_of(x@),
{
    let mut r: Vec<char> = Vec::new();
    r.push('d');
    r.push('e');
    r.push('r');
    r.push('(');
    crate::printer::append_chars(&mut r, x);
    r.push(')');
    assert(r@ =~= der_of(x@));
    r
}

/// Appends `name` unless it is already in `list`.
fn push_unique(list: &mut Vec<Vec<char>>, name: Vec<char>)
    requires
        views(old(list)@).no_duplicates(),
    ensures
        views(final(list)@).no_duplicates(),
        forall|x: Seq<char>| views(final(list)@).contains(x) <==> (views(old(list)@).contains(x) || x == name@),
{
    match position(list, &name) {
        Some(i) => {
            assert forall|x: Seq<char>| views(list@).contains(x) <==> (views(list@).contains(x) || x == name@) by {
                if x == name@ {
                    assert(views(list@)[i as int] == x);
                }
            }
        },
        None => {
            let ghost before = views(list@);
            list.push(name);
            proof {
                assert(views(list@) =~= before.push(name@));
                assert(views(list@)[before.len() as int] == name@);
                assert forall|x: Seq<char>| views(list@).contains(x) <==> (before.contains(x) || x == name@) by {
                    if x == name@ {
                        assert(views(list@)[before.len() as int] == x);
                    }
                    if before.contains(x) {
                        let k = choose|k: int| 0 <= k < before.len() && before[k] == x;
                        assert(views(list@)[k] == x);
                    }
                    if views(list@).contains(x) {
                        let k = choose|k: int| 0 <= k < views(list@).len() && views(list@)[k] == x;
                        if k < before.len() {
                            assert(before[k] == x);
                        }
                    }
                }
                assert forall|a: int, b: int| 0 <= a < b < views(list@).len() implies views(list@)[a] != views(list@)[b] by {
                    if b == before.len() {
                        assert(views(list@)[a] == list@[a]@);
                    }
                }
            }
        },
    }
}

/// `x` is among the first `j` names of `all`.
pub open spec fn among_first(all: Seq<Seq<char>>, j: int, x: Seq<char>) -> bool {
    exists|k: int| 0 <= k < j && all[k] == x
}

/// Appends each name of `names` that is not yet in `list`.
pub(crate) fn push_all_unique(list: &mut Vec<Vec<char>>, names: &Vec<Vec<char>>)
    requires
        views(old(list)@).no_duplicates(),
    ensures
        views(final(list)@).no_duplicates(),
        forall|x: Seq<char>| views(final(list)@).contains(x) <==> (views(old(list)@).contains(x) || views(names@).contains(x)),
{
    let ghost start = views(list@);
    let ghost all = views(names@);
    let mut j: usize = 0;
    while j < names.len()
        invariant
            j <= names@.len(),
            all == views(names@),
            views(list@).no_duplicates(),
            forall|x: Seq<char>| #![trigger among_first(all, j as int, x)] #![trigger views(list@).contains(x)] views(list@).contains(x) <==> (start.contains(x) || among_first(all, j as int, x)),
        decreases names.len() - j,
    {
        let x = crate::lexer::slice_chars(&names[j], 0, names[j].len());
        proof {
            assert(x@ =~= all[j as int]);
        }
        let ghost before = views(list@);
        push_unique(list, x);
        proof {
            assert forall|y: Seq<char>| views(list@).contains(y) <==> (start.contains(y) || #[trigger] among_first(all, j + 1, y)) by {
                assert(before.contains(y) <==> (start.contains(y) || among_first(all, j as int, y)));
                if y == all[j as int] {
                    assert(among_first(all, j + 1, y));
                }
                if among_first(all, j as int, y) {
                    let k = choose|k: int| 0 <= k < j && all[k] == y;
                    assert(among_first(all, j + 1, y));
                }
                if among_first(all, j + 1, y) {
                    let k = choose|k: int| 0 <= k < j + 1 && all[k] == y;
                    if k < j {
                        assert(among_first(all, j as int, y));
                    }
                }
            }
        }
        j = j + 1;
    }
    assert forall|y: Seq<char>| views(list@).contains(y) <==> (start.contains(y) || all.contains(y)) by {
        assert(views(list@).contains(y) <==> (start.contains(y) || among_first(all, names@.len() as int, y)));
        if all.contains(y) {
            let k = choose|k: int| 0 <= k < all.len() && all[k] == y;
            assert(among_first(all, names@.len() as int, y));
        }
    }
}

/// Gathers what the ordering needs of an equation.
pub fn equation_info(eq: &Equation) -> (r: EquationInfo)
    ensures
        views(r.all_variables@).no_duplicates(),
        forall|x: Seq<char>| views(r.all_variables@).contains(x) <==> occurrences(*eq).contains(x),
        match r.lhs_variable {
            Some(v) => lhs_variable_spec(*eq) == Some(v@),
            None => lhs_variable_spec(*eq) is None,
        },
        r.matched_variable is None,
        info_ok(r),
{
    let mut all: Vec<Vec<char>> = Vec::new();
    let mut lhs_variable: Option<Vec<char>> = None;
    let mut is_derivative = false;
    match eq {
        Equation::Simple { lhs, rhs } => {
            let mut occ: Vec<Vec<char>> = Vec::new();
            match lhs {
                Expression::ComponentReference(c) => {
                    let name = cref_name_exec(c);
                    lhs_variable = Some(cref_name_exec(c));
                    occ.push(name);
                },
                Expression::FunctionCall { comp, args } => {
                    match der_call_target_exec(comp, args) {
                        Some(x) => {
                            let d = der_of_exec(&x);
                            lhs_variable = Some(der_of_exec(&x));
                            is_derivative = true;
                            occ.push(d);
                        },
                        None => {},
                    }
                },
                _ => {
                    collect_vars(&mut occ, lhs);
                },
            }
            collect_vars(&mut occ, rhs);
            let mut ders: Vec<Vec<char>> = Vec::new();
            collect_ders(&mut ders, lhs);
            collect_ders(&mut ders, rhs);
            let ghost dv = views(ders@);
            let mut k: usize = 0;
            let ghost occ0 = views(occ@);
            while k < ders.len()
                invariant
                    k <= ders@.len(),
                    views(ders@) == dv,
                    views(occ@) == occ0 + dv.take(k as int).map_values(|x: Seq<char>| der_of(x)),
                decreases ders.len() - k,
            {
                let d = der_of_exec(&ders[k]);
                let ghost before = views(occ@);
                occ.push(d);
                proof {
                    assert(views(occ@) =~= before.push(d@));
                    assert(d@ == der_of(dv[k as int]));
                }
                proof {
                    assert(dv.take(k as int + 1).map_values(|x: Seq<char>| der_of(x)) =~= dv.take(k as int).map_values(
                        |x: Seq<char>| der_of(x),
                    ).push(der_of(dv[k as int])));
                    assert(views(occ@) =~= occ0 + dv.take(k as int + 1).map_values(|x: Seq<char>| der_of(x)));
                }
                k = k + 1;
            }
            proof {
                assert(dv.take(dv.len() as int) =~= dv);
                assert(views(occ@) =~= occurrences(*eq));
            }
            push_all_unique(&mut all, &occ);
        },
        _ => {
            assert(occurrences(*eq) =~= seq![]);
        },
    }
    let r = EquationInfo { all_variables: all, lhs_variable, is_derivative, matched_variable: None };
    proof {
        if r.lhs_variable is Some {
            let v = r.lhs_variable->0;
            let occ = occurrences(*eq);
            assert(occ[0] == v@);
            assert(occ.contains(v@));
        }
    }
    r
}


/// The names in `list` are distinct when sorted strictly.
proof fn lemma_sorted_distinct(s: Seq<Seq<char>>)
    requires
        strictly_sorted(s),
    ensures
        s.no_duplicates(),
{
    assert forall|i: int, j: int| 0 <= i < s.len() && 0 <= j < s.len() && i != j implies s[i] != s[j] by {
        if i < j {
            assert(lex_lt(s[i], s[j]));
        } else {
            assert(lex_lt(s[j], s[i]));
        }
        crate::names::lemma_lex_irreflexive(s[i]);
    }
}

/// The variables of all equations, minus the excluded ones, in sorted order.
pub fn sorted_variables(infos: &Vec<EquationInfo>, excluded: &Vec<Vec<char>>) -> (r: Vec<Vec<char>>)
    ensures
        strictly_sorted(views(r@)),
        forall|x: Seq<char>| #![trigger views(r@).contains(x)]
            views(r@).contains(x) <==> (!views(excluded@).contains(x) && exists|i: int|
                0 <= i < infos@.len() && #[trigger] views(infos@[i].all_variables@).contains(x)),
{
    let mut r: Vec<Vec<char>> = Vec::new();
    let mut i: usize = 0;
    while i < infos.len()
        invariant
            i <= infos@.len(),
            strictly_sorted(views(r@)),
            forall|x: Seq<char>| #![trigger views(r@).contains(x)]
                views(r@).contains(x) <==> (!views(excluded@).contains(x) && exists|k: int|
                    0 <= k < i && #[trigger] views(infos@[k].all_variables@).contains(x)),
        decreases infos.len() - i,
    {
        let vars = &infos[i].all_variables;
        let mut j: usize = 0;
        while j < vars.len()
            invariant
                i < infos@.len(),
                vars == infos@[i as int].all_variables,
                j <= vars@.len(),
                strictly_sorted(views(r@)),
                forall|x: Seq<char>| #![trigger views(r@).contains(x)]
                    views(r@).contains(x) <==> (!views(excluded@).contains(x) && ((exists|k: int|
                        0 <= k < i && #[trigger] views(infos@[k].all_variables@).contains(x)) || exists|m: int|
                        0 <= m < j && #[trigger] vars@[m]@ == x)),
            decreases vars.len() - j,
        {
            let pos = position(excluded, &vars[j]);
            let ghost r0 = views(r@);
            if pos.is_none() {
                let name = crate::lexer::slice_chars(&vars[j], 0, vars[j].len());
                assert(name@ =~= vars@[j as int]@);
                insert_sorted(&mut r, name);
            }
            proof {
                let vj = vars@[j as int]@;
                let ex = views(excluded@).contains(vj);
                match pos {
                    Some(q) => {
                        assert(views(excluded@)[q as int] == vj);
                        assert(ex);
                        assert(r0 == views(r@));
                    },
                    None => {
                        assert(!ex) by {
                            if ex {
                                let q = choose|q: int| 0 <= q < views(excluded@).len() && views(excluded@)[q] == vj;
                                assert(excluded@[q]@ == vj);
                            }
                        }
                    },
                }
                assert forall|x: Seq<char>| #![trigger views(r@).contains(x)]
                    views(r@).contains(x) <==> (!views(excluded@).contains(x) && ((exists|k: int|
                        0 <= k < i && #[trigger] views(infos@[k].all_variables@).contains(x)) || exists|m: int|
                        0 <= m < j + 1 && #[trigger] vars@[m]@ == x)) by {
                    assert(r0.contains(x) <==> (!views(excluded@).contains(x) && ((exists|k: int|
                        0 <= k < i && #[trigger] views(infos@[k].all_variables@).contains(x)) || exists|m: int|
                        0 <= m < j && #[trigger] vars@[m]@ == x)));
                    if x == vj {
                        assert(vars@[j as int]@ == x);
                    }
                    if exists|m: int| 0 <= m < j + 1 && #[trigger] vars@[m]@ == x {
                        let m = choose|m: int| 0 <= m < j + 1 && #[trigger] vars@[m]@ == x;
                        if m < j {
                            assert(vars@[m]@ == x);
                        }
                    }
                }
            }
            j = j + 1;
        }
        proof {
            assert forall|x: Seq<char>| #![trigger views(r@).contains(x)]
                views(r@).contains(x) <==> (!views(excluded@).contains(x) && exists|k: int|
                    0 <= k < i + 1 && #[trigger] views(infos@[k].all_variables@).contains(x)) by {
                if exists|m: int| 0 <= m < vars@.len() && #[trigger] vars@[m]@ == x {
                    let m = choose|m: int| 0 <= m < vars@.len() && #[trigger] vars@[m]@ == x;
                    assert(views(vars@)[m] == x);
                    assert(views(infos@[i as int].all_variables@).contains(x));
                }
                if views(infos@[i as int].all_variables@).contains(x) {
                    let m = choose|m: int| 0 <= m < views(vars@).len() && views(vars@)[m] == x;
                    assert(vars@[m]@ == x);
                }
            }
        }
        i = i + 1;
    }
    r
}


/// Equation `e` may be solved for variable `v`: `v` occurs in it and is not excluded.
pub open spec fn may_solve(infos: Seq<EquationInfo>, vars: Seq<Vec<char>>, excluded: Seq<Vec<char>>, e: int, v: int) -> bool {
    &&& 0 <= e < infos.len()
    &&& 0 <= v < vars.len()
    &&& views(infos[e].all_variables@).contains(vars[v]@)
    &&& !views(excluded).contains(vars[v]@)
}

/// Every variable listed for an equation may be solved for there.
pub open spec fn lists_sound(adj: Seq<Vec<usize>>, infos: Seq<EquationInfo>, vars: Seq<Vec<char>>, excluded: Seq<Vec<char>>) -> bool {
    forall|e: int, k: int| 0 <= e < adj.len() && 0 <= k < adj[e]@.len() ==> may_solve(infos, vars, excluded, e, #[trigger] adj[e]@[k] as int)
}

/// Every equation listed for a variable may be solved for it.
pub open spec fn reverse_sound(radj: Seq<Vec<usize>>, infos: Seq<EquationInfo>, vars: Seq<Vec<char>>, excluded: Seq<Vec<char>>) -> bool {
    forall|v: int, k: int| 0 <= v < radj.len() && 0 <= k < radj[v]@.len() ==> may_solve(infos, vars, excluded, #[trigger] radj[v]@[k] as int, v)
}

/// Whether `x` is in `v`.
fn vec_contains(v: &Vec<usize>, x: usize) -> (r: bool)
    ensures
        r == v@.contains(x),
{
    let mut i: usize = 0;
    while i < v.len()
        invariant
            i <= v@.len(),
            forall|k: int| 0 <= k < i ==> v@[k] != x,
        decreases v.len() - i,
    {
        if v[i] == x {
            assert(v@[i as int] == x);
            return true;
        }
        i = i + 1;
    }
    false
}

/// `v` with `x` appended.
fn pushed(v: &Vec<usize>, x: usize) -> (r: Vec<usize>)
    ensures
        r@ == v@.push(x),
{
    let mut r: Vec<usize> = Vec::new();
    let mut i: usize = 0;
    while i < v.len()
        invariant
            i <= v@.len(),
            r@ == v@.take(i as int),
        decreases v.len() - i,
    {
        r.push(v[i]);
        assert(r@ =~= v@.take(i + 1));
        i = i + 1;
    }
    r.push(x);
    assert(r@ =~= v@.push(x));
    r
}

/// The variables each equation may be solved for (in the order they occur
/// in it), and the equations each variable may be solved by.
pub fn build_adjacency(infos: &Vec<EquationInfo>, vars: &Vec<Vec<char>>, excluded: &Vec<Vec<char>>) -> (r: (Vec<Vec<usize>>, Vec<Vec<usize>>))
    ensures
        adjacency_ok(r.0@, infos@.len() as nat, vars@.len() as nat),
        lists_sound(r.0@, infos@, vars@, excluded@),
        r.1@.len() == vars@.len(),
        reverse_sound(r.1@, infos@, vars@, excluded@),
{
    let mut adj: Vec<Vec<usize>> = Vec::new();
    let mut radj: Vec<Vec<usize>> = Vec::new();
    let mut v: usize = 0;
    while v < vars.len()
        invariant
            v <= vars@.len(),
            radj@.len() == v,
            forall|w: int| 0 <= w < v ==> (#[trigger] radj@[w])@.len() == 0,
        decreases vars.len() - v,
    {
        radj.push(Vec::new());
        v = v + 1;
    }
    let mut e: usize = 0;
    while e < infos.len()
        invariant
            e <= infos@.len(),
            adj@.len() == e,
            radj@.len() == vars@.len(),
            adjacency_ok(adj@, e as nat, vars@.len() as nat),
            lists_sound(adj@, infos@, vars@, excluded@),
            reverse_sound(radj@, infos@, vars@, excluded@),
        decreases infos.len() - e,
    {
        let ivars = &infos[e].all_variables;
        let mut cands: Vec<usize> = Vec::new();
        let mut j: usize = 0;
        while j < ivars.len()
            invariant
                e < infos@.len(),
                ivars == infos@[e as int].all_variables,
                j <= ivars@.len(),
                adj@.len() == e,
                radj@.len() == vars@.len(),
                forall|k: int| 0 <= k < cands@.len() ==> (#[trigger] cands@[k]) < vars@.len() && may_solve(infos@, vars@, excluded@, e as int, cands@[k] as int),
                reverse_sound(radj@, infos@, vars@, excluded@),
            decreases ivars.len() - j,
        {
            if position(excluded, &ivars[j]).is_none() {
                match position(vars, &ivars[j]) {
                    Some(idx) => {
                        proof {
                            assert(views(ivars@)[j as int] == vars@[idx as int]@);
                            assert(views(excluded@).contains(vars@[idx as int]@) ==> false) by {
                                if views(excluded@).contains(vars@[idx as int]@) {
                                    let q = choose|q: int| 0 <= q < views(excluded@).len() && views(excluded@)[q] == vars@[idx as int]@;
                                    assert(excluded@[q]@ == ivars@[j as int]@);
                                }
                            }
                            assert(may_solve(infos@, vars@, excluded@, e as int, idx as int));
                        }
                        if !vec_contains(&cands, idx) {
                            cands.push(idx);
                            let row = pushed(&radj[idx], e);
                            let ghost old_radj = radj@;
                            radj.set(idx, row);
                            proof {
                                assert forall|w: int, k: int| 0 <= w < radj@.len() && 0 <= k < radj@[w]@.len() implies may_solve(infos@, vars@, excluded@, #[trigger] radj@[w]@[k] as int, w) by {
                                    if w != idx {
                                        assert(radj@[w] == old_radj[w]);
                                    } else if k < old_radj[w]@.len() {
                                        assert(radj@[w]@[k] == old_radj[w]@[k]);
                                    }
                                }
                            }
                        }
                    },
                    None => {},
                }
            }
            j = j + 1;
        }
        let ghost old_adj = adj@;
        adj.push(cands);
        proof {
            assert forall|x: int, k: int| 0 <= x < adj@.len() && 0 <= k < adj@[x]@.len() implies #[trigger] adj@[x]@[k] < vars@.len() by {
                if x < e {
                    assert(adj@[x] == old_adj[x]);
                }
            }
            assert forall|x: int, k: int| 0 <= x < adj@.len() && 0 <= k < adj@[x]@.len() implies may_solve(infos@, vars@, excluded@, x, #[trigger] adj@[x]@[k] as int) by {
                if x < e {
                    assert(adj@[x] == old_adj[x]);
                }
            }
        }
        e = e + 1;
    }
    (adj, radj)
}


/// Forced pairs are mutual and each is listed in `radj`.
pub open spec fn forced_ok(radj: Seq<Vec<usize>>, n_eq: nat, fe: Seq<usize>, fv: Seq<usize>) -> bool {
    &&& fe.len() == n_eq
    &&& fv.len() == radj.len()
    &&& forall|e: int| 0 <= e < fe.len() && #[trigger] fe[e] != NIL ==> fe[e] < fv.len() && fv[fe[e] as int] == e
        && radj[fe[e] as int]@.contains(e as usize)
    &&& forall|v: int| 0 <= v < fv.len() && #[trigger] fv[v] != NIL ==> fv[v] < fe.len() && fe[fv[v] as int] == v
}

/// A vector of `n` copies of `NIL`.
fn nil_vec(n: usize) -> (r: Vec<usize>)
    ensures
        r@.len() == n,
        forall|i: int| 0 <= i < n ==> #[trigger] r@[i] == NIL,
{
    let mut r: Vec<usize> = Vec::new();
    let mut i: usize = 0;
    while i < n
        invariant
            i <= n,
            r@.len() == i,
            forall|k: int| 0 <= k < i ==> #[trigger] r@[k] == NIL,
        decreases n - i,
    {
        r.push(NIL);
        i = i + 1;
    }
    r
}

/// Essential assignments: a variable that only one equation not yet forced
/// may be solved by is forced onto that equation, repeated until nothing
/// changes. Returns the forced variable of each equation and the forced
/// equation of each variable (`NIL` where none).
pub fn essential_assignments(radj: &Vec<Vec<usize>>, n_eq: usize) -> (r: (Vec<usize>, Vec<usize>))
    requires
        forall|v: int, k: int| 0 <= v < radj@.len() && 0 <= k < radj@[v]@.len() ==> #[trigger] radj@[v]@[k] < n_eq,
        radj@.len() < NIL,
        n_eq < NIL,
    ensures
        forced_ok(radj@, n_eq as nat, r.0@, r.1@),
{
    let n_var = radj.len();
    let mut fe = nil_vec(n_eq);
    let mut fv = nil_vec(n_var);
    let mut changed = true;
    proof {
        crate::matching::lemma_count_matched_le(fv@);
    }
    while changed
        invariant
            n_var == radj@.len(),
            forall|v: int, k: int| 0 <= v < radj@.len() && 0 <= k < radj@[v]@.len() ==> #[trigger] radj@[v]@[k] < n_eq,
            forced_ok(radj@, n_eq as nat, fe@, fv@),
            count_matched(fv@) <= n_var,
        decreases n_var - count_matched(fv@) + if changed { 1int } else { 0int },
    {
        changed = false;
        let ghost round_start = count_matched(fv@);
        let mut v: usize = 0;
        while v < n_var
            invariant
                n_var == radj@.len(),
                v <= n_var,
                forall|w: int, k: int| 0 <= w < radj@.len() && 0 <= k < radj@[w]@.len() ==> #[trigger] radj@[w]@[k] < n_eq,
                forced_ok(radj@, n_eq as nat, fe@, fv@),
                count_matched(fv@) <= n_var,
                count_matched(fv@) >= round_start + if changed { 1int } else { 0int },
            decreases n_var - v,
        {
            if fv[v] == NIL {
                let eqs = &radj[v];
                let mut count: usize = 0;
                let mut only: usize = 0;
                let mut k: usize = 0;
                while k < eqs.len()
                    invariant
                        v < radj@.len(),
                        eqs == radj@[v as int],
                        k <= eqs@.len(),
                        count <= k,
                        count > 0 ==> only < n_eq && eqs@.contains(only) && fe@[only as int] == NIL,
                        forall|w: int, q: int| 0 <= w < radj@.len() && 0 <= q < radj@[w]@.len() ==> #[trigger] radj@[w]@[q] < n_eq,
                        fe@.len() == n_eq,
                    decreases eqs.len() - k,
                {
                    let q = eqs[k];
                    if fe[q] == NIL {
                        if count == 0 {
                            only = q;
                        }
                        count = count + 1;
                    }
                    k = k + 1;
                }
                if count == 1 {
                    let ghost fv0 = fv@;
                    fe.set(only, v);
                    fv.set(v, only);
                    proof {
                        crate::matching::lemma_count_matched_step(fv0, fv@, v as int);
                        crate::matching::lemma_count_matched_le(fv@);
                    }
                    changed = true;
                }
            }
            v = v + 1;
        }
    }
    (fe, fv)
}


/// The left-hand variable of an equation is among its variables.
pub open spec fn info_ok(info: EquationInfo) -> bool {
    match info.lhs_variable {
        Some(x) => views(info.all_variables@).contains(x@),
        None => true,
    }
}

/// Each equation is assigned at most one variable it may be solved for,
/// and no variable is assigned twice (`NIL` for unassigned equations).
pub open spec fn valid_assignment(m: Seq<usize>, infos: Seq<EquationInfo>, vars: Seq<Vec<char>>, excluded: Seq<Vec<char>>) -> bool {
    &&& m.len() == infos.len()
    &&& forall|e: int| 0 <= e < m.len() && #[trigger] m[e] != NIL ==> may_solve(infos, vars, excluded, e, m[e] as int)
    &&& forall|e1: int, e2: int| 0 <= e1 < m.len() && 0 <= e2 < m.len() && e1 != e2 && #[trigger] m[e1] != NIL ==> m[e1] != #[trigger] m[e2]
}

/// Whether variable `v` is a candidate for equation `e` once the essential
/// assignments `fe` (equation to variable) and `fv` (variable to equation)
/// are made: a forced equation has only its forced variable; any other may
/// take any variable it may be solved for that is not forced elsewhere.
pub open spec fn candidate_edge(
    infos: Seq<EquationInfo>,
    vars: Seq<Vec<char>>,
    excluded: Seq<Vec<char>>,
    fe: Seq<usize>,
    fv: Seq<usize>,
    e: int,
    v: int,
) -> bool {
    if fe[e] != NIL {
        v == fe[e]
    } else {
        may_solve(infos, vars, excluded, e, v) && fv[v] == NIL
    }
}

/// The candidate lists handed to the matching: a forced equation gets only
/// its forced variable; any other gets the variables not forced elsewhere,
/// its left-hand variable first (see `candidate_edge`).
fn modified_adjacency(
    infos: &Vec<EquationInfo>,
    vars: &Vec<Vec<char>>,
    excluded: &Vec<Vec<char>>,
    radj: &Vec<Vec<usize>>,
    fe: &Vec<usize>,
    fv: &Vec<usize>,
) -> (r: Vec<Vec<usize>>)
    requires
        forall|e: int| 0 <= e < infos@.len() ==> info_ok(#[trigger] infos@[e]),
        radj@.len() == vars@.len(),
        reverse_sound(radj@, infos@, vars@, excluded@),
        forced_ok(radj@, infos@.len() as nat, fe@, fv@),
        views(vars@).no_duplicates(),
    ensures
        adjacency_ok(r@, infos@.len() as nat, vars@.len() as nat),
        lists_sound(r@, infos@, vars@, excluded@),
        forall|x: int, v: usize| #![trigger r@[x]@.contains(v)] 0 <= x < infos@.len() && v < vars@.len() ==> (r@[x]@.contains(v)
            <==> candidate_edge(infos@, vars@, excluded@, fe@, fv@, x, v as int)),
{
    let mut adj: Vec<Vec<usize>> = Vec::new();
    let mut e: usize = 0;
    while e < infos.len()
        invariant
            e <= infos@.len(),
            adj@.len() == e,
            forall|x: int| 0 <= x < infos@.len() ==> info_ok(#[trigger] infos@[x]),
            radj@.len() == vars@.len(),
            reverse_sound(radj@, infos@, vars@, excluded@),
            forced_ok(radj@, infos@.len() as nat, fe@, fv@),
            views(vars@).no_duplicates(),
            adjacency_ok(adj@, e as nat, vars@.len() as nat),
            lists_sound(adj@, infos@, vars@, excluded@),
            forall|x: int, v: usize| #![trigger adj@[x]@.contains(v)] 0 <= x < e && v < vars@.len() ==> (adj@[x]@.contains(v)
                <==> candidate_edge(infos@, vars@, excluded@, fe@, fv@, x, v as int)),
        decreases infos.len() - e,
    {
        let mut cands: Vec<usize> = Vec::new();
        if fe[e] != NIL {
            let f = fe[e];
            proof {
                let k = choose|k: int| 0 <= k < radj@[f as int]@.len() && radj@[f as int]@[k] == e as usize;
                assert(may_solve(infos@, vars@, excluded@, radj@[f as int]@[k] as int, f as int));
            }
            cands.push(f);
            proof {
                assert forall|v: usize| v < vars@.len() implies (cands@.contains(v) <==> candidate_edge(
                    infos@,
                    vars@,
                    excluded@,
                    fe@,
                    fv@,
                    e as int,
                    v as int,
                )) by {
                    if v == f {
                        assert(cands@[0] == v);
                    }
                }
            }
        } else {
            let info = &infos[e];
            match &info.lhs_variable {
                Some(lv) => {
                    if position(excluded, lv).is_none() {
                        match position(vars, lv) {
                            Some(idx) => {
                                if fv[idx] == NIL {
                                    proof {
                                        assert(info_ok(infos@[e as int]));
                                        assert(!views(excluded@).contains(vars@[idx as int]@)) by {
                                            if views(excluded@).contains(vars@[idx as int]@) {
                                                let q = choose|q: int| 0 <= q < views(excluded@).len() && views(excluded@)[q] == vars@[idx as int]@;
                                                assert(excluded@[q]@ == lv@);
                                            }
                                        }
                                    }
                                    cands.push(idx);
                                }
                            },
                            None => {},
                        }
                    }
                },
                None => {},
            }
            let ivars = &info.all_variables;
            let mut j: usize = 0;
            while j < ivars.len()
                invariant
                    e < infos@.len(),
                    fe@[e as int] == NIL,
                    ivars == infos@[e as int].all_variables,
                    j <= ivars@.len(),
                    fv@.len() == vars@.len(),
                    views(vars@).no_duplicates(),
                    forall|k: int| 0 <= k < cands@.len() ==> (#[trigger] cands@[k]) < vars@.len() && may_solve(infos@, vars@, excluded@, e as int, cands@[k] as int)
                        && fv@[cands@[k] as int] == NIL,
                    forall|u: int, v: int| #![trigger ivars@[u], vars@[v]] 0 <= u < j && 0 <= v < vars@.len() && vars@[v]@ == ivars@[u]@
                        && !views(excluded@).contains(vars@[v]@) && fv@[v] == NIL ==> cands@.contains(v as usize),
                decreases ivars.len() - j,
            {
                let ghost c0 = cands@;
                let ex = position(excluded, &ivars[j]);
                let pv = if ex.is_none() { position(vars, &ivars[j]) } else { None };
                let mut pushed_now = false;
                match pv {
                    Some(idx) => {
                        if fv[idx] == NIL && !vec_contains(&cands, idx) {
                            proof {
                                assert(views(ivars@)[j as int] == vars@[idx as int]@);
                                assert(!views(excluded@).contains(vars@[idx as int]@)) by {
                                    if views(excluded@).contains(vars@[idx as int]@) {
                                        let q = choose|q: int| 0 <= q < views(excluded@).len() && views(excluded@)[q] == vars@[idx as int]@;
                                        assert(excluded@[q]@ == ivars@[j as int]@);
                                    }
                                }
                            }
                            cands.push(idx);
                            pushed_now = true;
                        }
                    },
                    None => {},
                }
                proof {
                    assert forall|u: int, v: int| #![trigger ivars@[u], vars@[v]] 0 <= u < j + 1 && 0 <= v < vars@.len() && vars@[v]@ == ivars@[u]@
                        && !views(excluded@).contains(vars@[v]@) && fv@[v] == NIL implies cands@.contains(v as usize) by {
                        if u < j {
                            assert(c0.contains(v as usize));
                            let k = choose|k: int| 0 <= k < c0.len() && c0[k] == v as usize;
                            assert(cands@[k] == c0[k]);
                        } else {
                            match ex {
                                Some(q) => {
                                    assert(views(excluded@)[q as int] == vars@[v]@);
                                },
                                None => {
                                    match pv {
                                        Some(idx) => {
                                            assert(views(vars@)[v] == views(vars@)[idx as int]);
                                            assert(v == idx);
                                            if pushed_now {
                                                assert(cands@[c0.len() as int] == v as usize);
                                            } else {
                                                assert(cands@ == c0);
                                            }
                                        },
                                        None => {
                                            assert(vars@[v]@ != ivars@[j as int]@);
                                        },
                                    }
                                },
                            }
                        }
                    }
                }
                j = j + 1;
            }
            proof {
                assert forall|v: usize| v < vars@.len() implies (cands@.contains(v) <==> candidate_edge(
                    infos@,
                    vars@,
                    excluded@,
                    fe@,
                    fv@,
                    e as int,
                    v as int,
                )) by {
                    if cands@.contains(v) {
                        let k = choose|k: int| 0 <= k < cands@.len() && cands@[k] == v;
                    }
                    if candidate_edge(infos@, vars@, excluded@, fe@, fv@, e as int, v as int) {
                        assert(views(ivars@).contains(vars@[v as int]@));
                        let u = choose|u: int| 0 <= u < views(ivars@).len() && views(ivars@)[u] == vars@[v as int]@;
                        assert(ivars@[u]@ == vars@[v as int]@);
                    }
                }
            }
        }
        let ghost old_adj = adj@;
        adj.push(cands);
        proof {
            assert forall|x: int, k: int| 0 <= x < adj@.len() && 0 <= k < adj@[x]@.len() implies #[trigger] adj@[x]@[k] < vars@.len() by {
                if x < e {
                    assert(adj@[x] == old_adj[x]);
                }
            }
            assert forall|x: int, k: int| 0 <= x < adj@.len() && 0 <= k < adj@[x]@.len() implies may_solve(infos@, vars@, excluded@, x, #[trigger] adj@[x]@[k] as int) by {
                if x < e {
                    assert(adj@[x] == old_adj[x]);
                }
            }
            assert forall|x: int, v: usize| #![trigger adj@[x]@.contains(v)] 0 <= x < e + 1 && v < vars@.len() implies (adj@[x]@.contains(v)
                <==> candidate_edge(infos@, vars@, excluded@, fe@, fv@, x, v as int)) by {
                if x < e {
                    assert(adj@[x] == old_adj[x]);
                }
            }
        }
        e = e + 1;
    }
    adj
}


/// Variables no equation is assigned to, in increasing order.
fn unassigned_variables(m: &Vec<usize>, n_var: usize) -> (r: Vec<usize>)
    ensures
        forall|k: int| 0 <= k < r@.len() ==> #[trigger] r@[k] < n_var && !m@.contains(r@[k]),
        forall|a: int, b: int| 0 <= a < b < r@.len() ==> #[trigger] r@[a] < #[trigger] r@[b],
{
    let mut r: Vec<usize> = Vec::new();
    let mut v: usize = 0;
    while v < n_var
        invariant
            v <= n_var,
            forall|k: int| 0 <= k < r@.len() ==> #[trigger] r@[k] < v && !m@.contains(r@[k]),
            forall|a: int, b: int| 0 <= a < b < r@.len() ==> #[trigger] r@[a] < #[trigger] r@[b],
        decreases n_var - v,
    {
        if !vec_contains(m, v) {
            r.push(v);
        }
        v = v + 1;
    }
    r
}

/// Tries to give each unassigned variable an equation: an unassigned
/// equation that may be solved for it, or an assigned one whose variable
/// another unassigned equation can take over.
fn fix_unmatched_variables(m: Vec<usize>, radj: &Vec<Vec<usize>>, infos: Ghost<Seq<EquationInfo>>, vars: Ghost<Seq<Vec<char>>>, excluded: Ghost<Seq<Vec<char>>>) -> (r: Vec<usize>)
    requires
        valid_assignment(m@, infos@, vars@, excluded@),
        radj@.len() == vars@.len(),
        reverse_sound(radj@, infos@, vars@, excluded@),
    ensures
        valid_assignment(r@, infos@, vars@, excluded@),
        count_matched(r@) >= count_matched(m@),
{
    let ghost m_orig = m@;
    let mut m = m;
    let unmatched = unassigned_variables(&m, radj.len());
    let mut i: usize = 0;
    while i < unmatched.len()
        invariant
            i <= unmatched@.len(),
            valid_assignment(m@, infos@, vars@, excluded@),
            count_matched(m@) >= count_matched(m_orig),
            radj@.len() == vars@.len(),
            reverse_sound(radj@, infos@, vars@, excluded@),
            forall|k: int| 0 <= k < unmatched@.len() ==> #[trigger] unmatched@[k] < radj@.len(),
            forall|a: int, b: int| 0 <= a < b < unmatched@.len() ==> #[trigger] unmatched@[a] < #[trigger] unmatched@[b],
            forall|k: int| i <= k < unmatched@.len() ==> !m@.contains(#[trigger] unmatched@[k]),
        decreases unmatched.len() - i,
    {
        let u = unmatched[i];
        let cands = &radj[u];
        let mut c: usize = 0;
        let ghost m_start = m@;
        while c < cands.len()
            invariant_except_break
                m@ == m_start,
            invariant
                i < unmatched@.len(),
                u == unmatched@[i as int],
                u < radj@.len(),
                cands == radj@[u as int],
                c <= cands@.len(),
                valid_assignment(m_start, infos@, vars@, excluded@),
                radj@.len() == vars@.len(),
                reverse_sound(radj@, infos@, vars@, excluded@),
                forall|k: int| 0 <= k < unmatched@.len() ==> #[trigger] unmatched@[k] < radj@.len(),
                forall|a: int, b: int| 0 <= a < b < unmatched@.len() ==> #[trigger] unmatched@[a] < #[trigger] unmatched@[b],
                forall|k: int| i <= k < unmatched@.len() ==> !m_start.contains(#[trigger] unmatched@[k]),
            ensures
                valid_assignment(m@, infos@, vars@, excluded@),
                count_matched(m@) >= count_matched(m_start),
                forall|kk: int| i + 1 <= kk < unmatched@.len() ==> !m@.contains(#[trigger] unmatched@[kk]),
            decreases cands.len() - c,
        {
            let ce = cands[c];
            proof {
                assert(may_solve(infos@, vars@, excluded@, radj@[u as int]@[c as int] as int, u as int));
            }
            if m[ce] == NIL {
                let ghost m0 = m@;
                m.set(ce, u);
                proof {
                    crate::matching::lemma_count_matched_step(m0, m@, ce as int);
                    assert forall|e1: int, e2: int| 0 <= e1 < m@.len() && 0 <= e2 < m@.len() && e1 != e2 && #[trigger] m@[e1] != NIL implies m@[e1] != #[trigger] m@[e2] by {
                        if e1 == ce {
                            assert(!m0.contains(u));
                            if m@[e2] == u {
                                assert(m0[e2] == u);
                            }
                        } else if e2 == ce {
                            assert(!m0.contains(u));
                            assert(m0[e1] == m@[e1]);
                        }
                    }
                    assert forall|k: int| i + 1 <= k < unmatched@.len() implies !m@.contains(#[trigger] unmatched@[k]) by {
                        assert(unmatched@[i as int] < unmatched@[k]);
                        if m@.contains(unmatched@[k]) {
                            let x = choose|x: int| 0 <= x < m@.len() && m@[x] == unmatched@[k];
                            assert(m0[x] == unmatched@[k]);
                        }
                    }
                }
                break;
            }
            let cur = m[ce];
            let others = &radj[cur];
            let mut found: usize = NIL;
            let mut k: usize = 0;
            while k < others.len()
                invariant
                    cur < radj@.len(),
                    others == radj@[cur as int],
                    k <= others@.len(),
                    found == NIL || (others@.contains(found) && found != ce && m@[found as int] == NIL),
                    m@.len() == infos@.len(),
                    reverse_sound(radj@, infos@, vars@, excluded@),
                decreases others.len() - k,
            {
                let o = others[k];
                proof {
                    assert(may_solve(infos@, vars@, excluded@, radj@[cur as int]@[k as int] as int, cur as int));
                }
                if found == NIL && o != ce && m[o] == NIL {
                    found = o;
                }
                k = k + 1;
            }
            if found != NIL {
                let ghost m0 = m@;
                proof {
                    let q = choose|q: int| 0 <= q < others@.len() && others@[q] == found;
                    assert(may_solve(infos@, vars@, excluded@, radj@[cur as int]@[q] as int, cur as int));
                }
                m.set(ce, u);
                m.set(found, cur);
                proof {
                    assert(m0[ce as int] == cur);
                    assert(cur != NIL);
                    crate::matching::lemma_count_matched_step(m0, m@, found as int);
                    assert(!m0.contains(u));
                    assert forall|e1: int, e2: int| 0 <= e1 < m@.len() && 0 <= e2 < m@.len() && e1 != e2 && #[trigger] m@[e1] != NIL implies m@[e1] != #[trigger] m@[e2] by {
                        if e1 == ce || e2 == ce {
                            if e1 == ce && e2 != found && m@[e2] == u {
                                assert(m0[e2] == u);
                            }
                            if e2 == ce && e1 != found && m@[e1] == u {
                                assert(m0[e1] == u);
                            }
                        } else if e1 == found || e2 == found {
                            if e1 == found && m@[e2] == cur {
                                assert(m0[e2] == cur);
                                assert(m0[ce as int] == cur);
                            }
                            if e2 == found && m@[e1] == cur {
                                assert(m0[e1] == cur);
                                assert(m0[ce as int] == cur);
                            }
                        } else {
                            assert(m0[e1] == m@[e1] && m0[e2] == m@[e2]);
                        }
                    }
                    assert forall|kk: int| i + 1 <= kk < unmatched@.len() implies !m@.contains(#[trigger] unmatched@[kk]) by {
                        assert(unmatched@[i as int] < unmatched@[kk]);
                        assert(m0.contains(cur)) by {
                            assert(m0[ce as int] == cur);
                        }
                        if m@.contains(unmatched@[kk]) {
                            let x = choose|x: int| 0 <= x < m@.len() && m@[x] == unmatched@[kk];
                            if x != ce && x != found {
                                assert(m0[x] == unmatched@[kk]);
                            }
                        }
                    }
                }
                break;
            }
            c = c + 1;
        }
        i = i + 1;
    }
    m
}


/// Essential assignments: `fe` gives equations their forced variable and
/// `fv` variables their forced equation, each the inverse of the other, each
/// pair one the equation may be solved for.
pub open spec fn essential_ok(infos: Seq<EquationInfo>, vars: Seq<Vec<char>>, excluded: Seq<Vec<char>>, fe: Seq<usize>, fv: Seq<usize>) -> bool {
    &&& fe.len() == infos.len()
    &&& fv.len() == vars.len()
    &&& forall|e: int| 0 <= e < fe.len() && #[trigger] fe[e] != NIL ==> fe[e] < fv.len() && fv[fe[e] as int] == e && may_solve(
        infos,
        vars,
        excluded,
        e,
        fe[e] as int,
    )
    &&& forall|v: int| 0 <= v < fv.len() && #[trigger] fv[v] != NIL ==> fv[v] < fe.len() && fe[fv[v] as int] == v
}

/// A matching that keeps the essential assignments: each matched equation is
/// matched along a `candidate_edge`, no variable twice.
pub open spec fn candidate_matching(
    m: Seq<usize>,
    infos: Seq<EquationInfo>,
    vars: Seq<Vec<char>>,
    excluded: Seq<Vec<char>>,
    fe: Seq<usize>,
    fv: Seq<usize>,
) -> bool {
    &&& m.len() == infos.len()
    &&& forall|e: int| 0 <= e < m.len() && #[trigger] m[e] != NIL ==> m[e] < vars.len() && candidate_edge(infos, vars, excluded, fe, fv, e, m[e] as int)
    &&& forall|e1: int, e2: int| 0 <= e1 < m.len() && 0 <= e2 < m.len() && e1 != e2 && #[trigger] m[e1] != NIL ==> m[e1] != #[trigger] m[e2]
}

/// A matching of equations to variables, each equation to at most one
/// variable it may be solved for and no variable to two equations, found by
/// forcing essential assignments, running Hopcroft-Karp with each
/// equation's left-hand variable preferred, and then reassigning to cover
/// variables left unmatched where possible.
pub fn find_maximum_matching(infos: &Vec<EquationInfo>, vars: &Vec<Vec<char>>, excluded: &Vec<Vec<char>>) -> (r: Vec<usize>)
    requires
        forall|e: int| 0 <= e < infos@.len() ==> info_ok(#[trigger] infos@[e]),
        infos@.len() + 2 < NIL,
        vars@.len() < NIL,
        views(vars@).no_duplicates(),
    ensures
        valid_assignment(r@, infos@, vars@, excluded@),
        exists|fe: Seq<usize>, fv: Seq<usize>| #[trigger] essential_ok(infos@, vars@, excluded@, fe, fv)
            && forall|m2: Seq<usize>| #[trigger] candidate_matching(m2, infos@, vars@, excluded@, fe, fv) ==> count_matched(m2) <= count_matched(r@),
{
    let n_eq = infos.len();
    let n_var = vars.len();
    let (_adj, radj) = build_adjacency(infos, vars, excluded);
    proof {
        assert forall|v: int, k: int| 0 <= v < radj@.len() && 0 <= k < radj@[v]@.len() implies #[trigger] radj@[v]@[k] < n_eq by {
            assert(may_solve(infos@, vars@, excluded@, radj@[v]@[k] as int, v));
        }
    }
    let (fe, fv) = essential_assignments(&radj, n_eq);
    let adj_mod = modified_adjacency(infos, vars, excluded, &radj, &fe, &fv);
    let ghost am = adj_mod@;
    let mut hk = HopcroftKarp::new(n_eq, n_var, adj_mod);
    let _size = hk.max_matching();
    proof {
        HopcroftKarp::lemma_pairing_is_matching(hk);
    }
    let m = hk.pair_eq;
    proof {
        assert(essential_ok(infos@, vars@, excluded@, fe@, fv@)) by {
            assert forall|e: int| 0 <= e < fe@.len() && #[trigger] fe@[e] != NIL implies may_solve(infos@, vars@, excluded@, e, fe@[e] as int) by {
                let f = fe@[e] as int;
                let k = choose|k: int| 0 <= k < radj@[f]@.len() && radj@[f]@[k] == e as usize;
                assert(may_solve(infos@, vars@, excluded@, radj@[f]@[k] as int, f));
            }
        }
        assert forall|m2: Seq<usize>| #[trigger] candidate_matching(m2, infos@, vars@, excluded@, fe@, fv@) implies count_matched(m2) <= count_matched(m@) by {
            assert forall|e: int| 0 <= e < m2.len() && #[trigger] m2[e] != NIL implies m2[e] < n_var && am[e]@.contains(m2[e]) by {
                assert(candidate_edge(infos@, vars@, excluded@, fe@, fv@, e, m2[e] as int));
            }
            assert(is_matching(am, n_var as nat, m2));
            HopcroftKarp::lemma_matching_is_maximum(hk, m2);
        }
        assert(is_matching(am, n_var as nat, m@));
        assert forall|e: int| 0 <= e < m@.len() && #[trigger] m@[e] != NIL implies may_solve(infos@, vars@, excluded@, e, m@[e] as int) by {
            let k = choose|k: int| 0 <= k < am[e]@.len() && am[e]@[k] == m@[e];
        }
    }
    let ghost mh = m@;
    let r = fix_unmatched_variables(m, &radj, Ghost(infos@), Ghost(vars@), Ghost(excluded@));
    proof {
        assert(forall|m2: Seq<usize>| #[trigger] candidate_matching(m2, infos@, vars@, excluded@, fe@, fv@) ==> count_matched(m2) <= count_matched(r@));
        assert(essential_ok(infos@, vars@, excluded@, fe@, fv@));
    }
    r
}

/// The last of the first `k` equations that defines `x`.
pub open spec fn last_def(defs: Seq<Option<Vec<char>>>, x: Seq<char>, k: int) -> Option<int>
    decreases k,
{
    if k <= 0 || k > defs.len() {
        None
    } else if defs[k - 1] matches Some(d) && d@ == x {
        Some(k - 1)
    } else {
        last_def(defs, x, k - 1)
    }
}

/// Equation `i` uses `x`, which it does not define itself, from equation `j`,
/// the last equation defining `x`.
pub open spec fn uses_from(defs: Seq<Option<Vec<char>>>, x: Seq<char>, i: int, j: int) -> bool {
    &&& !(defs[i] matches Some(d) && d@ == x)
    &&& last_def(defs, x, defs.len() as int) == Some(j)
}

/// Whether the dependency graph has an edge from `j` to `i`: equation `i`
/// uses a variable that equation `j`, another equation, defines last.
pub open spec fn dep_edge(defs: Seq<Option<Vec<char>>>, infos: Seq<EquationInfo>, j: int, i: int) -> bool {
    &&& i != j
    &&& exists|t: int| 0 <= t < infos[i].all_variables@.len() && #[trigger] uses_from(defs, infos[i].all_variables@[t]@, i, j)
}

/// The last equation defining `x` (see `last_def`).
fn last_definer(defs: &Vec<Option<Vec<char>>>, x: &[char]) -> (r: Option<usize>)
    ensures
        r matches Some(j) ==> j < defs@.len(),
        match r {
            Some(j) => last_def(defs@, x@, defs@.len() as int) == Some(j as int),
            None => last_def(defs@, x@, defs@.len() as int) is None,
        },
{
    let mut j = defs.len();
    while j > 0
        invariant
            j <= defs@.len(),
            last_def(defs@, x@, defs@.len() as int) == last_def(defs@, x@, j as int),
        decreases j,
    {
        j = j - 1;
        match &defs[j] {
            Some(d) => {
                if crate::lexer::chars_equal(d, x) {
                    return Some(j);
                }
            },
            None => {},
        }
    }
    None
}

/// The dependency graph: an edge from `j` to `i` exactly where `dep_edge`
/// says, each edge listed once for every variable of `i` it stands for.
pub fn dependency_graph(defs: &Vec<Option<Vec<char>>>, infos: &Vec<EquationInfo>) -> (r: Vec<Vec<usize>>)
    requires
        defs@.len() == infos@.len(),
    ensures
        r@.len() == infos@.len(),
        crate::scc::graph_ok(r@),
        forall|j: int, i: usize| #![trigger r@[j]@.contains(i)] 0 <= j < r@.len() && i < r@.len() ==> (r@[j]@.contains(i) <==> dep_edge(defs@, infos@, j, i as int)),
{
    let n = infos.len();
    let mut graph: Vec<Vec<usize>> = Vec::new();
    let mut k: usize = 0;
    while k < n
        invariant
            k <= n,
            graph@.len() == k,
            forall|a: int| 0 <= a < k ==> (#[trigger] graph@[a])@.len() == 0,
        decreases n - k,
    {
        graph.push(Vec::new());
        k = k + 1;
    }
    let mut i: usize = 0;
    while i < n
        invariant
            i <= n,
            n == infos@.len(),
            defs@.len() == n,
            graph@.len() == n,
            crate::scc::graph_ok(graph@),
            forall|j: int, q: usize| #![trigger graph@[j]@.contains(q)] 0 <= j < n && q < n ==> (graph@[j]@.contains(q) <==> (q < i && dep_edge(defs@, infos@, j, q as int))),
        decreases n - i,
    {
        let vars = &infos[i].all_variables;
        let mut t: usize = 0;
        proof {
            assert forall|j: int, q: usize| #![trigger graph@[j]@.contains(q)] 0 <= j < n && q < n implies (graph@[j]@.contains(q) <==> (
                (q < i && dep_edge(defs@, infos@, j, q as int))
                || (q == i && j != i && exists|u: int| 0 <= u < t && #[trigger] uses_from(defs@, vars@[u]@, i as int, j)))) by {
                assert(graph@[j]@.contains(q) <==> (q < i && dep_edge(defs@, infos@, j, q as int)));
            }
        }
        while t < vars.len()
            invariant
                i < n,
                n == infos@.len(),
                defs@.len() == n,
                graph@.len() == n,
                vars == &infos@[i as int].all_variables,
                crate::scc::graph_ok(graph@),
                t <= vars@.len(),
                forall|j: int, q: usize| #![trigger graph@[j]@.contains(q)] 0 <= j < n && q < n ==> (graph@[j]@.contains(q) <==> (
                    (q < i && dep_edge(defs@, infos@, j, q as int))
                    || (q == i && j != i && exists|u: int| 0 <= u < t && #[trigger] uses_from(defs@, vars@[u]@, i as int, j)))),
            decreases vars.len() - t,
        {
            let own = match &defs[i] {
                Some(d) => crate::lexer::chars_equal(d, &vars[t]),
                None => false,
            };
            let ghost g0 = graph@;
            if !own {
                match last_definer(defs, &vars[t]) {
                    Some(j) => {
                        if j != i {
                            let row = pushed(&graph[j], i);
                            graph.set(j, row);
                            proof {
                                assert forall|v: int, q: int| 0 <= v < graph@.len() && 0 <= q < graph@[v]@.len() implies #[trigger] graph@[v]@[q] < graph@.len() by {
                                    if v != j {
                                        assert(graph@[v] == g0[v]);
                                    } else if q < g0[v]@.len() {
                                        assert(graph@[v]@[q] == g0[v]@[q]);
                                    }
                                }
                            }
                        }
                    },
                    None => {},
                }
            }
            proof {
                assert forall|j: int, q: usize| #![trigger graph@[j]@.contains(q)] 0 <= j < n && q < n implies (graph@[j]@.contains(q) <==> (
                    (q < i && dep_edge(defs@, infos@, j, q as int))
                    || (q == i && j != i && exists|u: int| 0 <= u < t + 1 && #[trigger] uses_from(defs@, vars@[u]@, i as int, j)))) by {
                    let now = uses_from(defs@, vars@[t as int]@, i as int, j);
                    if graph@[j] != g0[j] {
                        let gj = graph@[j]@;
                        let hj = g0[j]@;
                        assert(gj == hj.push(i));
                        if gj.contains(q) {
                            let k = choose|k: int| 0 <= k < gj.len() && gj[k] == q;
                            if k < hj.len() {
                                assert(hj[k] == q);
                            }
                        }
                        if hj.contains(q) {
                            let k = choose|k: int| 0 <= k < hj.len() && hj[k] == q;
                            assert(gj[k] == q);
                        }
                        if q == i {
                            assert(gj[hj.len() as int] == q);
                        }
                        assert(gj.contains(q) <==> (hj.contains(q) || q == i));
                    } else {
                        assert(graph@[j] == g0[j]);
                    }
                    if q == i && j != i && now {
                        assert(graph@[j]@.contains(i as usize)) by {
                            assert(!own);
                            assert(graph@[j]@ == g0[j]@.push(i));
                            assert(graph@[j]@[g0[j]@.len() as int] == i);
                        }
                    }
                    if q == i && j != i && (exists|u: int| 0 <= u < t + 1 && #[trigger] uses_from(defs@, vars@[u]@, i as int, j)) && !now {
                        let u = choose|u: int| 0 <= u < t + 1 && #[trigger] uses_from(defs@, vars@[u]@, i as int, j);
                        assert(u < t);
                    }
                }
            }
            t = t + 1;
        }
        proof {
            assert forall|j: int, q: usize| #![trigger graph@[j]@.contains(q)] 0 <= j < n && q < n implies (graph@[j]@.contains(q) <==> (q < i + 1 && dep_edge(defs@, infos@, j, q as int))) by {
                if q == i && j != i {
                    if dep_edge(defs@, infos@, j, q as int) {
                        let u = choose|u: int| 0 <= u < infos@[q as int].all_variables@.len() && #[trigger] uses_from(defs@, infos@[q as int].all_variables@[u]@, q as int, j);
                        assert(uses_from(defs@, vars@[u]@, i as int, j));
                    }
                    if exists|u: int| 0 <= u < vars@.len() && #[trigger] uses_from(defs@, vars@[u]@, i as int, j) {
                        let u = choose|u: int| 0 <= u < vars@.len() && #[trigger] uses_from(defs@, vars@[u]@, i as int, j);
                        assert(uses_from(defs@, infos@[q as int].all_variables@[u]@, q as int, j));
                    }
                }
            }
        }
        i = i + 1;
    }
    graph
}

/// The result of the ordering.
pub struct BltResult {
    /// The equations in dependency order, rewritten (see `transform_spec`).
    pub equations: Vec<Equation>,
    /// Strongly connected components of the dependency graph, in
    /// topological order; a component of more than one equation is an
    /// algebraic loop.
    pub sccs: Vec<Vec<usize>>,
    /// For each input equation, the variable it was matched to.
    pub matching: Vec<Option<String>>,
    /// Whether a perfect matching was found: every equation is matched, and
    /// every variable the equations can be solved for.
    pub is_complete_matching: bool,
}

/// The names the equations can be solved for: those occurring in some
/// equation, other than the excluded ones.
pub open spec fn solvable_names(eqs: Seq<Equation>, ex: Seq<Seq<char>>) -> Set<Seq<char>> {
    Set::new(|x: Seq<char>| !ex.contains(x) && exists|i: int| 0 <= i < eqs.len() && occurrences(eqs[i]).contains(x))
}

/// The characters of an optional string.
pub open spec fn opt_view(o: Option<String>) -> Option<Seq<char>> {
    match o {
        Some(s) => Some(s@),
        None => None,
    }
}


/// What equation `i` defines: the variable it is matched to, else the
/// variable its left side states.
pub open spec fn definer(eqs: Seq<Equation>, matching: Seq<Option<String>>, i: int) -> Option<Seq<char>> {
    match matching[i] {
        Some(s) => Some(s@),
        None => lhs_variable_spec(eqs[i]),
    }
}

/// The last of the first `k` equations that defines `x`.
pub open spec fn last_definer_of(eqs: Seq<Equation>, matching: Seq<Option<String>>, x: Seq<char>, k: int) -> Option<int>
    decreases k,
{
    if k <= 0 || k > eqs.len() {
        None
    } else if definer(eqs, matching, k - 1) == Some(x) {
        Some(k - 1)
    } else {
        last_definer_of(eqs, matching, x, k - 1)
    }
}

/// Equation `i` depends on equation `j`: `i` uses a variable, other than the
/// one it defines itself, whose last defining equation is `j`, another one.
pub open spec fn depends(eqs: Seq<Equation>, matching: Seq<Option<String>>, j: int, i: int) -> bool {
    &&& i != j
    &&& exists|x: Seq<char>| #[trigger] occurrences(eqs[i]).contains(x) && definer(eqs, matching, i) != Some(x)
        && last_definer_of(eqs, matching, x, eqs.len() as int) == Some(j)
}

proof fn lemma_last_def_matches(defs: Seq<Option<Vec<char>>>, eqs: Seq<Equation>, matching: Seq<Option<String>>, x: Seq<char>, k: int)
    requires
        defs.len() == eqs.len(),
        matching.len() == eqs.len(),
        0 <= k <= defs.len(),
        forall|q: int| 0 <= q < defs.len() ==> opt_name(#[trigger] defs[q]) == definer(eqs, matching, q),
    ensures
        last_def(defs, x, k) == last_definer_of(eqs, matching, x, k),
    decreases k,
{
    if k > 0 {
        assert(opt_name(defs[k - 1]) == definer(eqs, matching, k - 1));
        lemma_last_def_matches(defs, eqs, matching, x, k - 1);
    }
}

/// The names to exclude, as characters.
fn excluded_chars(exclude: &[String]) -> (r: Vec<Vec<char>>)
    ensures
        views(r@) == string_views(exclude@),
{
    let mut r: Vec<Vec<char>> = Vec::new();
    let mut i: usize = 0;
    while i < exclude.len()
        invariant
            i <= exclude@.len(),
            views(r@) == string_views(exclude@.take(i as int)),
        decreases exclude.len() - i,
    {
        let c = crate::text::str_to_chars(exclude[i].as_str());
        let ghost before = views(r@);
        r.push(c);
        proof {
            assert(views(r@) =~= before.push(c@));
            assert(string_views(exclude@.take(i + 1)) =~= string_views(exclude@.take(i as int)).push(exclude@[i as int]@));
        }
        i = i + 1;
    }
    assert(exclude@.take(exclude@.len() as int) =~= exclude@);
    r
}

/// The facts gathered for each equation.
fn equation_infos(equations: &Vec<Equation>) -> (r: Vec<EquationInfo>)
    ensures
        r@.len() == equations@.len(),
        forall|i: int| 0 <= i < r@.len() ==> info_ok(#[trigger] r@[i]),
        forall|i: int, x: Seq<char>| 0 <= i < r@.len() ==> (#[trigger] views(r@[i].all_variables@).contains(x) <==> occurrences(equations@[i]).contains(x)),
        forall|i: int| 0 <= i < r@.len() ==> match (#[trigger] r@[i]).lhs_variable {
            Some(v) => lhs_variable_spec(equations@[i]) == Some(v@),
            None => lhs_variable_spec(equations@[i]) is None,
        },
{
    let mut r: Vec<EquationInfo> = Vec::new();
    let mut i: usize = 0;
    while i < equations.len()
        invariant
            i <= equations@.len(),
            r@.len() == i,
            forall|k: int| 0 <= k < r@.len() ==> info_ok(#[trigger] r@[k]),
            forall|k: int, x: Seq<char>| 0 <= k < r@.len() ==> (#[trigger] views(r@[k].all_variables@).contains(x) <==> occurrences(equations@[k]).contains(x)),
            forall|k: int| 0 <= k < r@.len() ==> match (#[trigger] r@[k]).lhs_variable {
                Some(v) => lhs_variable_spec(equations@[k]) == Some(v@),
                None => lhs_variable_spec(equations@[k]) is None,
            },
        decreases equations.len() - i,
    {
        let info = equation_info(&equations[i]);
        r.push(info);
        i = i + 1;
    }
    r
}

/// Equation `i`'s matched name under assignment `m`.
pub open spec fn matched_name(m: Seq<usize>, vars: Seq<Vec<char>>, i: int) -> Option<Seq<char>> {
    if m[i] == NIL {
        None
    } else {
        Some(vars[m[i] as int]@)
    }
}

/// The matched variable name of each equation.
fn matched_names(m: &Vec<usize>, vars: &Vec<Vec<char>>) -> (r: Vec<Option<Vec<char>>>)
    requires
        forall|e: int| 0 <= e < m@.len() && #[trigger] m@[e] != NIL ==> m@[e] < vars@.len(),
    ensures
        r@.len() == m@.len(),
        forall|i: int| 0 <= i < r@.len() ==> match #[trigger] r@[i] {
            Some(x) => matched_name(m@, vars@, i) == Some(x@),
            None => matched_name(m@, vars@, i) is None,
        },
{
    let mut r: Vec<Option<Vec<char>>> = Vec::new();
    let mut i: usize = 0;
    while i < m.len()
        invariant
            i <= m@.len(),
            r@.len() == i,
            forall|e: int| 0 <= e < m@.len() && #[trigger] m@[e] != NIL ==> m@[e] < vars@.len(),
            forall|k: int| 0 <= k < r@.len() ==> match #[trigger] r@[k] {
                Some(x) => matched_name(m@, vars@, k) == Some(x@),
                None => matched_name(m@, vars@, k) is None,
            },
        decreases m.len() - i,
    {
        if m[i] == NIL {
            r.push(None);
        } else {
            let v = m[i];
            r.push(Some(crate::lexer::slice_chars(&vars[v], 0, vars[v].len())));
            proof {
                assert(r@[i as int]->0@ =~= vars@[v as int]@);
            }
        }
        i = i + 1;
    }
    r
}


/// The characters of an optional name.
pub open spec fn opt_name(o: Option<Vec<char>>) -> Option<Seq<char>> {
    match o {
        Some(x) => Some(x@),
        None => None,
    }
}

/// Moves the equations into slots that can be emptied one by one.
fn to_slots(equations: Vec<Equation>) -> (r: Vec<Option<Equation>>)
    ensures
        r@.len() == equations@.len(),
        forall|i: int| 0 <= i < r@.len() ==> #[trigger] r@[i] == Some(equations@[i]),
{
    let ghost input = equations@;
    let n = equations.len();
    let mut slots: Vec<Option<Equation>> = Vec::new();
    let mut k: usize = 0;
    while k < n
        invariant
            k <= n,
            slots@.len() == k,
            forall|i: int| 0 <= i < k ==> #[trigger] slots@[i] is None,
        decreases n - k,
    {
        slots.push(None);
        k = k + 1;
    }
    let mut eqs = equations;
    while eqs.len() > 0
        invariant
            slots@.len() == n,
            n == input.len(),
            eqs@.len() <= n,
            eqs@ == input.take(eqs@.len() as int),
            forall|i: int| 0 <= i < eqs@.len() ==> #[trigger] slots@[i] is None,
            forall|i: int| eqs@.len() <= i < n ==> #[trigger] slots@[i] == Some(input[i]),
        decreases eqs@.len(),
    {
        let last = eqs.len() - 1;
        let ghost e0 = eqs@;
        let x = eqs.pop().unwrap();
        proof {
            assert(x == e0[last as int]);
            assert(e0[last as int] == input[last as int]);
            assert(eqs@ =~= input.take(last as int));
        }
        slots.set(last, Some(x));
    }
    slots
}

/// Takes the equations out of their slots in the given order and rewrites
/// each for the variable it was matched to.
fn order_and_transform(
    slots: Vec<Option<Equation>>,
    order: &Vec<usize>,
    names: &Vec<Option<Vec<char>>>,
    input: Ghost<Seq<Equation>>,
) -> (r: Vec<Equation>)
    requires
        slots@.len() == input@.len(),
        names@.len() == input@.len(),
        forall|i: int| 0 <= i < slots@.len() ==> #[trigger] slots@[i] == Some(input@[i]),
        order@.no_duplicates(),
        forall|q: int| 0 <= q < order@.len() ==> #[trigger] order@[q] < input@.len(),
    ensures
        r@.len() == order@.len(),
        forall|k: int| 0 <= k < r@.len() ==> transformed(input@[order@[k] as int], opt_name(names@[order@[k] as int]), #[trigger] r@[k]),
{
    let mut slots = slots;
    let mut out: Vec<Equation> = Vec::new();
    let mut k: usize = 0;
    while k < order.len()
        invariant
            k <= order@.len(),
            out@.len() == k,
            slots@.len() == input@.len(),
            names@.len() == input@.len(),
            order@.no_duplicates(),
            forall|q: int| 0 <= q < order@.len() ==> #[trigger] order@[q] < input@.len(),
            forall|i: int| 0 <= i < slots@.len() && !order@.take(k as int).contains(i as usize) ==> #[trigger] slots@[i] == Some(input@[i]),
            forall|q: int| 0 <= q < out@.len() ==> transformed(input@[order@[q] as int], opt_name(names@[order@[q] as int]), #[trigger] out@[q]),
        decreases order.len() - k,
    {
        let idx = order[k];
        proof {
            assert(!order@.take(k as int).contains(idx)) by {
                if order@.take(k as int).contains(idx) {
                    let q = choose|q: int| 0 <= q < k && order@.take(k as int)[q] == idx;
                    assert(order@[q] == order@[k as int]);
                }
            }
        }
        let ghost s0 = slots@;
        slots.push(None);
        let taken = slots.swap_remove(idx);
        proof {
            assert(taken == s0[idx as int]);
            assert(slots@ =~= s0.update(idx as int, None));
        }
        let eq = match taken {
            Some(e) => e,
            None => Equation::Empty,
        };
        let matched: Option<&[char]> = match &names[idx] {
            Some(x) => Some(x.as_slice()),
            None => None,
        };
        proof {
            assert(opt_chars(matched) == opt_name(names@[idx as int]));
        }
        let t = transform_equation(eq, matched);
        out.push(t);
        proof {
            assert forall|i: int| 0 <= i < slots@.len() && !order@.take(k + 1).contains(i as usize) implies #[trigger] slots@[i] == Some(input@[i]) by {
                assert(order@.take(k + 1)[k as int] == idx);
                if i != idx {
                    assert(slots@[i] == s0[i]);
                    if order@.take(k as int).contains(i as usize) {
                        let q = choose|q: int| 0 <= q < k && order@.take(k as int)[q] == i as usize;
                        assert(order@.take(k + 1)[q] == i as usize);
                    }
                }
            }
        }
        k = k + 1;
    }
    out
}

/// Orders equations for solving and rewrites each for its variable, and
/// reports the matching and the strongly connected components.
///
/// Each simple equation is matched to a variable it involves (never one of
/// `exclude_from_matching`, such as parameters or `time`); equations are
/// ordered so that each comes after the equations defining the variables it
/// uses, mutually dependent ones kept together; and each is rewritten: turned
/// around when only its right side differentiates, `c * der(x) = y` as
/// `der(x) = y / c`, or solved for its matched variable where a simple
/// rearrangement does it.
pub fn blt_transform_with_info(equations: Vec<Equation>, exclude_from_matching: &[String]) -> (r: BltResult)
    requires
        equations@.len() + 2 < usize::MAX,
    ensures
        r.equations@.len() == equations@.len(),
        r.matching@.len() == equations@.len(),
        crate::scc::is_partition(r.sccs@, equations@.len() as nat),
        forall|k: int| 0 <= k < r.equations@.len() ==> transformed(
            equations@[crate::scc::concat_components(r.sccs@)[k] as int],
            opt_view(r.matching@[crate::scc::concat_components(r.sccs@)[k] as int]),
            #[trigger] r.equations@[k],
        ),
        forall|i: int| 0 <= i < r.matching@.len() && #[trigger] r.matching@[i] is Some ==> occurrences(equations@[i]).contains(
            r.matching@[i]->0@,
        ) && !string_views(exclude_from_matching@).contains(r.matching@[i]->0@),
        forall|i: int, j: int| 0 <= i < r.matching@.len() && 0 <= j < r.matching@.len() && i != j && #[trigger] r.matching@[i] is Some
            && #[trigger] r.matching@[j] is Some ==> r.matching@[i]->0@ != r.matching@[j]->0@,
        r.is_complete_matching == ((forall|i: int| 0 <= i < r.matching@.len() ==> #[trigger] r.matching@[i] is Some)
            && solvable_names(equations@, string_views(exclude_from_matching@)).len() == equations@.len()),
        exists|g: Seq<Vec<usize>>| #[trigger] crate::scc::exact_components(g, r.sccs@) && g.len() == equations@.len()
            && forall|j: int, i: usize| #![trigger g[j]@.contains(i)] 0 <= j < g.len() && i < g.len() ==> (g[j]@.contains(i)
            <==> depends(equations@, r.matching@, j, i as int)),
{
    let ghost input = equations@;
    let n = equations.len();
    let infos = equation_infos(&equations);
    let excluded = excluded_chars(exclude_from_matching);
    let vars = sorted_variables(&infos, &excluded);
    proof {
        lemma_sorted_distinct(views(vars@));
    }
    let m = if vars.len() < NIL {
        find_maximum_matching(&infos, &vars, &excluded)
    } else {
        nil_vec(n)
    };
    proof {
        assert(valid_assignment(m@, infos@, vars@, excluded@));
    }
    let names = matched_names(&m, &vars);
    let mut defs: Vec<Option<Vec<char>>> = Vec::new();
    let mut i: usize = 0;
    while i < n
        invariant
            i <= n,
            n == infos@.len(),
            n == names@.len(),
            n == input.len(),
            defs@.len() == i,
            forall|q: int| 0 <= q < i ==> opt_name(#[trigger] defs@[q]) == match opt_name(names@[q]) {
                Some(x) => Some(x),
                None => lhs_variable_spec(input[q]),
            },
            forall|q: int| 0 <= q < infos@.len() ==> match (#[trigger] infos@[q]).lhs_variable {
                Some(v) => lhs_variable_spec(input[q]) == Some(v@),
                None => lhs_variable_spec(input[q]) is None,
            },
        decreases n - i,
    {
        let d = match &names[i] {
            Some(x) => Some(crate::lexer::slice_chars(x, 0, x.len())),
            None => match &infos[i].lhs_variable {
                Some(l) => Some(crate::lexer::slice_chars(l, 0, l.len())),
                None => None,
            },
        };
        defs.push(d);
        i = i + 1;
    }
    let graph = dependency_graph(&defs, &infos);
    let tr = crate::scc::tarjan_components(&graph);
    let slots = to_slots(equations);
    let ordered = order_and_transform(slots, &tr.ordered_indices, &names, Ghost(input));
    let mut matching: Vec<Option<String>> = Vec::new();
    let mut complete = true;
    let mut j: usize = 0;
    while j < n
        invariant
            j <= n,
            n == names@.len(),
            matching@.len() == j,
            forall|q: int| 0 <= q < j ==> opt_view(#[trigger] matching@[q]) == opt_name(names@[q]),
            complete == forall|q: int| 0 <= q < j ==> #[trigger] matching@[q] is Some,
        decreases n - j,
    {
        let ghost was = complete;
        let s = match &names[j] {
            Some(x) => Some(crate::text::chars_to_string(x)),
            None => {
                complete = false;
                None
            },
        };
        let ghost m0 = matching@;
        matching.push(s);
        proof {
            assert((matching@[j as int] is Some) == (names@[j as int] is Some));
            assert forall|q: int| 0 <= q < j implies #[trigger] matching@[q] == m0[q] by {}
            if complete {
                assert forall|q: int| 0 <= q < j + 1 implies #[trigger] matching@[q] is Some by {
                    if q < j {
                        assert(m0[q] is Some);
                    }
                }
            } else {
                if was {
                    assert(!(matching@[j as int] is Some));
                } else {
                    assert(!(forall|q: int| 0 <= q < j ==> #[trigger] m0[q] is Some));
                    let q = choose|q: int| !(0 <= q < j ==> #[trigger] m0[q] is Some);
                    assert(matching@[q] == m0[q]);
                }
            }
        }
        j = j + 1;
    }
    proof {
        let ord = crate::scc::concat_components(tr.sccs@);
        assert(ord == tr.ordered_indices@);
        assert forall|q: int| 0 <= q < ord.len() implies #[trigger] ord[q] < n by {}
        assert forall|k: int| 0 <= k < ordered@.len() implies transformed(
            input[ord[k] as int],
            opt_view(matching@[ord[k] as int]),
            #[trigger] ordered@[k],
        ) by {
            assert(opt_view(matching@[ord[k] as int]) == opt_name(names@[ord[k] as int]));
        }
        assert(ord.len() == n) by {
            assert(ord.no_duplicates());
            assert forall|x: usize| x < n implies ord.contains(x) by {}
            lemma_permutation_len(ord, n as nat);
        }
        assert forall|q: int| 0 <= q < matching@.len() && #[trigger] matching@[q] is Some implies occurrences(input[q]).contains(
            matching@[q]->0@,
        ) && !string_views(exclude_from_matching@).contains(matching@[q]->0@) by {
            assert(opt_view(matching@[q]) == opt_name(names@[q]));
            assert(m@[q] != NIL);
            assert(may_solve(infos@, vars@, excluded@, q, m@[q] as int));
            assert(views(infos@[q].all_variables@).contains(vars@[m@[q] as int]@));
        }
        assert forall|a: int, b: int| 0 <= a < matching@.len() && 0 <= b < matching@.len() && a != b && #[trigger] matching@[a] is Some
            && #[trigger] matching@[b] is Some implies matching@[a]->0@ != matching@[b]->0@ by {
            assert(opt_view(matching@[a]) == opt_name(names@[a]));
            assert(opt_view(matching@[b]) == opt_name(names@[b]));
            assert(m@[a] != NIL && m@[b] != NIL);
            assert(m@[a] != m@[b]);
            assert(views(vars@)[m@[a] as int] == vars@[m@[a] as int]@);
            assert(views(vars@)[m@[b] as int] == vars@[m@[b] as int]@);
        }
    }
    proof {
        let vs = views(vars@);
        let sn = solvable_names(input, string_views(exclude_from_matching@));
        assert(vs.to_set() =~= sn) by {
            assert forall|x: Seq<char>| vs.to_set().contains(x) <==> sn.contains(x) by {
                if vs.contains(x) {
                    let i = choose|i: int| 0 <= i < infos@.len() && #[trigger] views(infos@[i].all_variables@).contains(x);
                    assert(occurrences(input[i]).contains(x));
                }
                if sn.contains(x) {
                    let i = choose|i: int| 0 <= i < input.len() && occurrences(input[i]).contains(x);
                    assert(views(infos@[i].all_variables@).contains(x));
                }
            }
        }
        vs.unique_seq_to_set();
        assert(sn.len() == vars@.len());
    }
    let complete = complete && vars.len() == n;
    proof {
        let g = graph@;
        assert forall|q: int| 0 <= q < n implies opt_name(#[trigger] defs@[q]) == definer(input, matching@, q) by {
            assert(opt_view(matching@[q]) == opt_name(names@[q]));
        }
        assert forall|j: int, i: usize| #![trigger g[j]@.contains(i)] 0 <= j < g.len() && i < g.len() implies (g[j]@.contains(i)
            <==> depends(input, matching@, j, i as int)) by {
            let ii = i as int;
            if dep_edge(defs@, infos@, j, ii) {
                let t = choose|t: int| 0 <= t < infos@[ii].all_variables@.len() && #[trigger] uses_from(defs@, infos@[ii].all_variables@[t]@, ii, j);
                let x = infos@[ii].all_variables@[t]@;
                assert(views(infos@[ii].all_variables@)[t] == x);
                assert(views(infos@[ii].all_variables@).contains(x));
                assert(occurrences(input[ii]).contains(x));
                lemma_last_def_matches(defs@, input, matching@, x, n as int);
                assert(opt_name(defs@[ii]) == definer(input, matching@, ii));
            }
            if depends(input, matching@, j, ii) {
                let x = choose|x: Seq<char>| #[trigger] occurrences(input[ii]).contains(x) && definer(input, matching@, ii) != Some(x)
                    && last_definer_of(input, matching@, x, input.len() as int) == Some(j);
                assert(views(infos@[ii].all_variables@).contains(x));
                let t = choose|t: int| 0 <= t < views(infos@[ii].all_variables@).len() && views(infos@[ii].all_variables@)[t] == x;
                assert(infos@[ii].all_variables@[t]@ == x);
                lemma_last_def_matches(defs@, input, matching@, x, n as int);
                assert(opt_name(defs@[ii]) == definer(input, matching@, ii));
                assert(uses_from(defs@, infos@[ii].all_variables@[t]@, ii, j));
            }
        }
        assert(crate::scc::exact_components(g, tr.sccs@));
    }
    BltResult { equations: ordered, sccs: tr.sccs, matching, is_complete_matching: complete }
}

/// A sequence of distinct numbers that covers `0..n` and stays below `n` has length `n`.
proof fn lemma_permutation_len(s: Seq<usize>, n: nat)
    requires
        s.no_duplicates(),
        forall|q: int| 0 <= q < s.len() ==> #[trigger] s[q] < n,
        forall|x: usize| x < n ==> s.contains(x),
        n <= usize::MAX,
    ensures
        s.len() == n,
{
    let sset = s.to_set();
    let range = Set::new(|x: usize| x < n);
    assert(sset =~= range);
    s.unique_seq_to_set();
    lemma_range_len(n);
}

proof fn lemma_range_len(n: nat)
    requires
        n <= usize::MAX,
    ensures
        Set::new(|x: usize| x < n).finite(),
        Set::new(|x: usize| x < n).len() == n,
    decreases n,
{
    if n == 0 {
        assert(Set::new(|x: usize| x < n) =~= Set::empty());
    } else {
        lemma_range_len((n - 1) as nat);
        assert(Set::new(|x: usize| x < n) =~= Set::new(|x: usize| x < (n - 1) as nat).insert((n - 1) as usize));
    }
}

/// The equations in the order for solving, each rewritten for its variable
/// (see `blt_transform_with_info`).
pub fn blt_transform(equations: Vec<Equation>, exclude_from_matching: &[String]) -> (r: Vec<Equation>)
    requires
        equations@.len() + 2 < usize::MAX,
    ensures
        r@.len() == equations@.len(),
        exists|res: BltResult| #![trigger res.equations] res.equations@ == r@ && crate::scc::is_partition(res.sccs@, equations@.len() as nat)
            && res.matching@.len() == equations@.len() && forall|k: int| 0 <= k < r@.len() ==> transformed(
            equations@[crate::scc::concat_components(res.sccs@)[k] as int],
            opt_view(res.matching@[crate::scc::concat_components(res.sccs@)[k] as int]),
            #[trigger] r@[k],
        ),
{
    let res = blt_transform_with_info(equations, exclude_from_matching);
    let ghost g = res;
    let r = res.equations;
    assert(g.equations@ == r@);
    r
}

} // verus!
