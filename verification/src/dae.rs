//! The differential-algebraic form of a flattened class.
//!
//! A flattened class becomes a DAE in three steps. First every derivative
//! `der(x)` of a reference is replaced by the reference `der_x`, and the
//! differentiated variables are noted as states. Then the condition of each
//! `when` block is replaced by a fresh condition variable `__c<i>`. Last the
//! components are sorted into parameters, constants, discrete variables,
//! states, inputs and algebraic variables, and the equations into continuous
//! equations and reset assignments.
use vstd::prelude::*;
use crate::ast::{
    Causality, ClassDefinition, Component, ComponentRefPart, ComponentReference, Equation, EquationBlock, Expression,
    ExpressionBranch, ForIndex, Location, Statement, Token, Variability,
};
use crate::blt::{cref_name, cref_name_exec, der_name};
use crate::code_lens::{decimal, write_decimal};
use crate::names::views;
use crate::structural::{copy_cref, copy_equation, copy_expression, same_cref, same_equation, same_expr};

verus! {

// ---------------------------------------------------------------------------
// States: `der(x)` becomes the reference `der_x`
// ---------------------------------------------------------------------------

/// `der_` repeated `k` times.
pub open spec fn der_prefix(k: nat) -> Seq<char>
    decreases k,
{
    if k == 0 {
        seq![]
    } else {
        seq!['d', 'e', 'r', '_'] + der_prefix((k - 1) as nat)
    }
}

/// An expression that is a reference with `der` applied `k` times around
/// it: `(k, reference)`. `der(der(x))` gives `(2, x)`, `x` gives `(0, x)`.
pub open spec fn der_chain(e: Expression) -> Option<(nat, ComponentReference)>
    decreases e,
{
    match e {
        Expression::ComponentReference(c) => Some((0nat, c)),
        Expression::FunctionCall { comp, args } => if cref_name(comp) == der_name() && args@.len() > 0 {
            match der_chain(args@[0]) {
                Some((k, c)) => Some((k + 1, c)),
                None => None,
            }
        } else {
            None
        },
        _ => None,
    }
}

/// `p2` is part `p` with `der_` written `k` times before its name.
pub open spec fn part_renamed(p: ComponentRefPart, p2: ComponentRefPart, k: nat) -> bool {
    &&& p2.ident.text@ == der_prefix(k) + p.ident.text@
    &&& p2.ident.location == p.ident.location
    &&& p2.ident.token_number == p.ident.token_number
    &&& p2.ident.token_type == p.ident.token_type
    &&& p2.subs == p.subs
}

/// `c2` is reference `c` with `der_` written `k` times before its first part.
pub open spec fn renamed(c: ComponentReference, c2: ComponentReference, k: nat) -> bool {
    if k == 0 {
        c2 == c
    } else {
        &&& c.parts@.len() > 0
        &&& c2.local == c.local
        &&& c2.parts@.len() == c.parts@.len()
        &&& part_renamed(c.parts@[0], c2.parts@[0], k)
        &&& forall|i: int| 1 <= i < c.parts@.len() ==> c2.parts@[i] == c.parts@[i]
    }
}

/// Whether a call is `der` of something that ends as a reference.
pub open spec fn replaced_der(comp: ComponentReference, args: Seq<Expression>) -> bool {
    cref_name(comp) == der_name() && args.len() > 0 && der_chain(args[0]) is Some
}

/// `r` is `e` with every `der(x)` of a reference `x` replaced by the
/// reference `der_x` (innermost first, so `der(der(x))` becomes `der_der_x`).
pub open spec fn states_replaced(e: Expression, r: Expression) -> bool
    decreases e, 0nat,
{
    match e {
        Expression::FunctionCall { comp, args } => if replaced_der(comp, args@) {
            let (k, c) = der_chain(args@[0])->0;
            match r {
                Expression::ComponentReference(c2) => renamed(c, c2, k + 1),
                _ => false,
            }
        } else {
            match r {
                Expression::FunctionCall { comp: c2, args: a2 } => c2 == comp && all_replaced(args@, a2@),
                _ => false,
            }
        },
        Expression::Unary { op, rhs } => match r {
            Expression::Unary { op: o2, rhs: r2 } => o2 == op && states_replaced(*rhs, *r2),
            _ => false,
        },
        Expression::Binary { op, lhs, rhs } => match r {
            Expression::Binary { op: o2, lhs: l2, rhs: r2 } => o2 == op && states_replaced(*lhs, *l2)
                && states_replaced(*rhs, *r2),
            _ => false,
        },
        Expression::Array { elements } => match r {
            Expression::Array { elements: e2 } => all_replaced(elements@, e2@),
            _ => false,
        },
        Expression::Tuple { elements } => match r {
            Expression::Tuple { elements: e2 } => all_replaced(elements@, e2@),
            _ => false,
        },
        Expression::Range { start, step, end } => match r {
            Expression::Range { start: s2, step: t2, end: e2 } => states_replaced(*start, *s2) && states_replaced(
                *end,
                *e2,
            ) && match step {
                Some(s) => match t2 {
                    Some(t) => states_replaced(*s, *t),
                    None => false,
                },
                None => t2 is None,
            },
            _ => false,
        },
        Expression::If { branches, else_branch } => match r {
            Expression::If { branches: b2, else_branch: e2 } => branches_replaced(branches@, b2@) && states_replaced(
                *else_branch,
                *e2,
            ),
            _ => false,
        },
        Expression::NamedArgument { name, value } => match r {
            Expression::NamedArgument { name: n2, value: v2 } => n2 == name && states_replaced(*value, *v2),
            _ => false,
        },
        _ => r == e,
    }
}

/// Element by element replacement.
pub open spec fn all_replaced(a: Seq<Expression>, b: Seq<Expression>) -> bool
    decreases a, 0nat,
{
    a.len() == b.len() && (a.len() == 0 || (all_replaced(a.drop_last(), b.drop_last()) && states_replaced(
        a.last(),
        b.last(),
    )))
}

/// Branch by branch replacement.
pub open spec fn branches_replaced(a: Seq<ExpressionBranch>, b: Seq<ExpressionBranch>) -> bool
    decreases a, 0nat,
{
    a.len() == b.len() && (a.len() == 0 || (branches_replaced(a.drop_last(), b.drop_last()) && states_replaced(
        a.last().cond,
        b.last().cond,
    ) && states_replaced(a.last().value, b.last().value)))
}

/// The states met while replacing, innermost and leftmost first: for each
/// replaced `der(y)`, the name of the first part of the reference `y` as it
/// stands once its own derivatives are replaced.
pub open spec fn found_states(e: Expression) -> Seq<Seq<char>>
    decreases e, 0nat,
{
    match e {
        Expression::FunctionCall { comp, args } => found_states_list(args@) + if replaced_der(comp, args@) {
            let (k, c) = der_chain(args@[0])->0;
            seq![der_prefix(k) + c.parts@[0].ident.text@]
        } else {
            seq![]
        },
        Expression::Unary { rhs, .. } => found_states(*rhs),
        Expression::Binary { lhs, rhs, .. } => found_states(*lhs) + found_states(*rhs),
        Expression::Array { elements } => found_states_list(elements@),
        Expression::Tuple { elements } => found_states_list(elements@),
        Expression::Range { start, step, end } => found_states(*start) + (match step {
            Some(s) => found_states(*s),
            None => seq![],
        }) + found_states(*end),
        Expression::If { branches, else_branch } => found_states_branches(branches@) + found_states(*else_branch),
        Expression::NamedArgument { value, .. } => found_states(*value),
        _ => seq![],
    }
}

/// The states met in expressions, one after another.
pub open spec fn found_states_list(es: Seq<Expression>) -> Seq<Seq<char>>
    decreases es, 0nat,
{
    if es.len() == 0 {
        seq![]
    } else {
        found_states_list(es.drop_last()) + found_states(es.last())
    }
}

/// The states met in the branches of an if-expression.
pub open spec fn found_states_branches(bs: Seq<ExpressionBranch>) -> Seq<Seq<char>>
    decreases bs, 0nat,
{
    if bs.len() == 0 {
        seq![]
    } else {
        found_states_branches(bs.drop_last()) + found_states(bs.last().cond) + found_states(bs.last().value)
    }
}

/// Every `der` call has an argument, and one that ends as a reference has
/// a first part to rename.
pub open spec fn ders_ok(e: Expression) -> bool
    decreases e, 0nat,
{
    match e {
        Expression::FunctionCall { comp, args } => (cref_name(comp) == der_name() ==> (args@.len() > 0 && match der_chain(
            args@[0],
        ) {
            Some((_, c)) => c.parts@.len() > 0,
            None => true,
        })) && all_ders_ok(args@),
        Expression::Unary { rhs, .. } => ders_ok(*rhs),
        Expression::Binary { lhs, rhs, .. } => ders_ok(*lhs) && ders_ok(*rhs),
        Expression::Array { elements } => all_ders_ok(elements@),
        Expression::Tuple { elements } => all_ders_ok(elements@),
        Expression::Range { start, step, end } => ders_ok(*start) && ders_ok(*end) && match step {
            Some(s) => ders_ok(*s),
            None => true,
        },
        Expression::If { branches, else_branch } => branches_ders_ok(branches@) && ders_ok(*else_branch),
        Expression::NamedArgument { value, .. } => ders_ok(*value),
        _ => true,
    }
}

/// `ders_ok` of each expression.
pub open spec fn all_ders_ok(es: Seq<Expression>) -> bool
    decreases es, 0nat,
{
    es.len() == 0 || (all_ders_ok(es.drop_last()) && ders_ok(es.last()))
}

/// `ders_ok` of each branch.
pub open spec fn branches_ders_ok(bs: Seq<ExpressionBranch>) -> bool
    decreases bs, 0nat,
{
    bs.len() == 0 || (branches_ders_ok(bs.drop_last()) && ders_ok(bs.last().cond) && ders_ok(bs.last().value))
}

/// A replaced expression is a reference exactly when the original ends as one.
proof fn lemma_replaced_reference(a: Expression, r: Expression)
    requires
        states_replaced(a, r),
    ensures
        r is ComponentReference <==> der_chain(a) is Some,
        r matches Expression::ComponentReference(c1) ==> renamed(der_chain(a).unwrap().1, c1, der_chain(a).unwrap().0),
{
}

/// Whether a reference is `der`.
fn is_der_ref(comp: &ComponentReference) -> (r: bool)
    ensures
        r == (cref_name(*comp) == der_name()),
{
    let name = cref_name_exec(comp);
    let d: &[char] = &['d', 'e', 'r'];
    assert(d@ =~= der_name());
    crate::lexer::chars_equal(&name, d)
}

/// Writes `der_` before the name of the first part of a reference.
fn prefix_der(c: ComponentReference) -> (r: (ComponentReference, Vec<char>))
    requires
        c.parts@.len() > 0,
    ensures
        r.1@ == c.parts@[0].ident.text@,
        r.0.local == c.local,
        r.0.parts@.len() == c.parts@.len(),
        part_renamed(c.parts@[0], r.0.parts@[0], 1),
        forall|i: int| 1 <= i < c.parts@.len() ==> r.0.parts@[i] == c.parts@[i],
{
    let mut c = c;
    let ghost before = c.parts@;
    let mut p0 = c.parts.remove(0);
    let old_text = crate::text::str_to_chars(&p0.ident.text);
    let mut t: Vec<char> = vec!['d', 'e', 'r', '_'];
    let mut i: usize = 0;
    while i < old_text.len()
        invariant
            i <= old_text@.len(),
            t@ == seq!['d', 'e', 'r', '_'] + old_text@.take(i as int),
        decreases old_text.len() - i,
    {
        t.push(old_text[i]);
        assert(old_text@.take(i as int + 1) =~= old_text@.take(i as int).push(old_text@[i as int]));
        i = i + 1;
    }
    assert(old_text@.take(old_text@.len() as int) =~= old_text@);
    p0.ident.text = crate::text::chars_to_string(&t);
    c.parts.insert(0, p0);
    proof {
        assert(der_prefix(0) =~= seq![]);
        assert(der_prefix(1) =~= seq!['d', 'e', 'r', '_']);
        assert forall|i: int| 1 <= i < before.len() implies c.parts@[i] == before[i] by {
            assert(c.parts@[i] == before.remove(0)[i - 1]);
        }
    }
    (c, old_text)
}

/// Replaces the derivatives in a call: a `der` of what ends as a reference
/// becomes that reference renamed, with its name noted as a state.
#[verifier::spinoff_prover]
fn replace_states_call(comp: ComponentReference, args: Vec<Expression>, states: &mut Vec<Vec<char>>) -> (r: Expression)
    requires
        ders_ok(Expression::FunctionCall { comp, args }),
    ensures
        states_replaced(Expression::FunctionCall { comp, args }, r),
        views(final(states)@) == views(old(states)@) + found_states(Expression::FunctionCall { comp, args }),
    decreases args, 1nat,
{
    let ghost e0 = Expression::FunctionCall { comp, args };
    let ghost s0 = views(states@);
    let ghost a0 = args@;
    let mut new_args = replace_states_list(args, states);
    if is_der_ref(&comp) && new_args.len() > 0 {
        proof {
            lemma_all_replaced_index(a0, new_args@, 0);
            lemma_replaced_reference(a0[0], new_args@[0]);
        }
        let ghost whole = new_args@;
        let first = new_args.remove(0);
        match first {
            Expression::ComponentReference(c1) => {
                let ghost k = der_chain(a0[0]).unwrap().0;
                let ghost c = der_chain(a0[0]).unwrap().1;
                let (c2, old_text) = prefix_der(c1);
                let ghost s1 = views(states@);
                states.push(old_text);
                proof {
                    assert(views(states@) =~= s1.push(old_text@));
                    assert(der_prefix(0) =~= seq![]);
                    assert(der_prefix(1) =~= seq!['d', 'e', 'r', '_']);
                    assert(der_prefix(k + 1) =~= seq!['d', 'e', 'r', '_'] + der_prefix(k));
                    assert(old_text@ =~= der_prefix(k) + c.parts@[0].ident.text@);
                    assert(c2.parts@[0].ident.text@ =~= der_prefix(k + 1) + c.parts@[0].ident.text@);
                    assert(renamed(c, c2, k + 1));
                    assert(views(states@) =~= s0 + found_states(e0));
                }
                Expression::ComponentReference(c2)
            },
            other => {
                let ghost removed = new_args@;
                new_args.insert(0, other);
                proof {
                    assert(new_args@ =~= whole);
                    assert(views(states@) =~= s0 + found_states(e0));
                }
                Expression::FunctionCall { comp, args: new_args }
            },
        }
    } else {
        proof {
            assert(views(states@) =~= s0 + found_states(e0));
        }
        Expression::FunctionCall { comp, args: new_args }
    }
}

/// Replaces the derivatives of references in an expression, noting the states.
#[verifier::spinoff_prover]
pub fn replace_states(e: Expression, states: &mut Vec<Vec<char>>) -> (r: Expression)
    requires
        ders_ok(e),
    ensures
        states_replaced(e, r),
        views(final(states)@) == views(old(states)@) + found_states(e),
    decreases e, 1nat,
{
    let ghost e0 = e;
    let ghost s0 = views(states@);
    match e {
        Expression::FunctionCall { comp, args } => replace_states_call(comp, args, states),
        Expression::Unary { op, rhs } => {
            let r2 = replace_states(*rhs, states);
            Expression::Unary { op, rhs: Box::new(r2) }
        },
        Expression::Binary { op, lhs, rhs } => {
            let l2 = replace_states(*lhs, states);
            let r2 = replace_states(*rhs, states);
            proof {
                assert(views(states@) =~= s0 + found_states(e0));
            }
            Expression::Binary { op, lhs: Box::new(l2), rhs: Box::new(r2) }
        },
        Expression::Array { elements } => {
            let e2 = replace_states_list(elements, states);
            Expression::Array { elements: e2 }
        },
        Expression::Tuple { elements } => {
            let e2 = replace_states_list(elements, states);
            Expression::Tuple { elements: e2 }
        },
        Expression::Range { start, step, end } => {
            let s2 = replace_states(*start, states);
            let t2 = match step {
                Some(s) => Some(Box::new(replace_states(*s, states))),
                None => None,
            };
            let e2 = replace_states(*end, states);
            proof {
                assert(views(states@) =~= s0 + found_states(e0));
            }
            Expression::Range { start: Box::new(s2), step: t2, end: Box::new(e2) }
        },
        Expression::If { branches, else_branch } => {
            let b2 = replace_states_branches(branches, states);
            let e2 = replace_states(*else_branch, states);
            proof {
                assert(views(states@) =~= s0 + found_states(e0));
            }
            Expression::If { branches: b2, else_branch: Box::new(e2) }
        },
        Expression::NamedArgument { name, value } => {
            let v2 = replace_states(*value, states);
            Expression::NamedArgument { name, value: Box::new(v2) }
        },
        other => {
            proof {
                assert(views(states@) =~= s0 + found_states(e0));
            }
            other
        },
    }
}

/// The `i`-th elements of element by element replacements.
proof fn lemma_all_replaced_index(a: Seq<Expression>, b: Seq<Expression>, i: int)
    requires
        all_replaced(a, b),
        0 <= i < a.len(),
    ensures
        b.len() == a.len(),
        states_replaced(a[i], b[i]),
    decreases a.len(),
{
    if i < a.len() - 1 {
        lemma_all_replaced_index(a.drop_last(), b.drop_last(), i);
    }
}

/// `all_ders_ok` gives `ders_ok` of each element.
proof fn lemma_all_ders_ok_index(es: Seq<Expression>, i: int)
    requires
        all_ders_ok(es),
        0 <= i < es.len(),
    ensures
        ders_ok(es[i]),
    decreases es.len(),
{
    if i < es.len() - 1 {
        lemma_all_ders_ok_index(es.drop_last(), i);
    }
}

/// Replaces the derivatives in a list of expressions.
pub fn replace_states_list(es: Vec<Expression>, states: &mut Vec<Vec<char>>) -> (r: Vec<Expression>)
    requires
        all_ders_ok(es@),
    ensures
        all_replaced(es@, r@),
        views(final(states)@) == views(old(states)@) + found_states_list(es@),
    decreases es, 0nat,
{
    let ghost e0 = es@;
    let ghost s0 = views(states@);
    let n = es.len();
    let mut rest = es;
    let mut out: Vec<Expression> = Vec::new();
    let mut i: usize = 0;
    while rest.len() > 0
        invariant
            e0.len() == i + rest@.len(),
            e0.len() == n,
            e0 == es@,
            rest@ == e0.skip(i as int),
            all_ders_ok(e0),
            all_replaced(e0.take(i as int), out@),
            views(states@) == s0 + found_states_list(e0.take(i as int)),
        decreases rest.len(),
    {
        proof {
            lemma_all_ders_ok_index(e0, i as int);
            assert(decreases_to!(es => es@[i as int]));
        }
        let x = rest.remove(0);
        let y = replace_states(x, states);
        let ghost before = out@;
        out.push(y);
        proof {
            let t = e0.take(i as int + 1);
            assert(t.drop_last() =~= e0.take(i as int));
            assert(t.last() == e0[i as int]);
            assert(out@.drop_last() =~= before);
            assert(rest@ =~= e0.skip(i as int + 1));
        }
        i = i + 1;
    }
    proof {
        assert(e0.take(i as int) =~= e0);
    }
    out
}

/// Replaces the derivatives in the branches of an if-expression.
pub fn replace_states_branches(bs: Vec<ExpressionBranch>, states: &mut Vec<Vec<char>>) -> (r: Vec<ExpressionBranch>)
    requires
        branches_ders_ok(bs@),
    ensures
        branches_replaced(bs@, r@),
        views(final(states)@) == views(old(states)@) + found_states_branches(bs@),
    decreases bs, 0nat,
{
    let ghost b0 = bs@;
    let ghost s0 = views(states@);
    let n = bs.len();
    let mut rest = bs;
    let mut out: Vec<ExpressionBranch> = Vec::new();
    let mut i: usize = 0;
    while rest.len() > 0
        invariant
            b0.len() == i + rest@.len(),
            b0.len() == n,
            b0 == bs@,
            rest@ == b0.skip(i as int),
            branches_ders_ok(b0),
            branches_replaced(b0.take(i as int), out@),
            views(states@) == s0 + found_states_branches(b0.take(i as int)),
        decreases rest.len(),
    {
        proof {
            lemma_branches_ders_ok_index(b0, i as int);
            assert(decreases_to!(bs => bs@[i as int]));
        }
        let x = rest.remove(0);
        let c2 = replace_states(x.cond, states);
        let v2 = replace_states(x.value, states);
        let ghost before = out@;
        out.push(ExpressionBranch { cond: c2, value: v2 });
        proof {
            let t = b0.take(i as int + 1);
            assert(t.drop_last() =~= b0.take(i as int));
            assert(t.last() == b0[i as int]);
            assert(out@.drop_last() =~= before);
            assert(rest@ =~= b0.skip(i as int + 1));
            assert(views(states@) =~= s0 + found_states_branches(t));
        }
        i = i + 1;
    }
    proof {
        assert(b0.take(i as int) =~= b0);
    }
    out
}

/// `branches_ders_ok` gives `ders_ok` of each branch.
proof fn lemma_branches_ders_ok_index(bs: Seq<ExpressionBranch>, i: int)
    requires
        branches_ders_ok(bs),
        0 <= i < bs.len(),
    ensures
        ders_ok(bs[i].cond),
        ders_ok(bs[i].value),
    decreases bs.len(),
{
    if i < bs.len() - 1 {
        lemma_branches_ders_ok_index(bs.drop_last(), i);
    }
}

/// `r` is equation `eq` with the derivatives of references replaced in
/// all its expressions.
pub open spec fn eq_replaced(eq: Equation, r: Equation) -> bool
    decreases eq, 0nat,
{
    match eq {
        Equation::Simple { lhs, rhs } => match r {
            Equation::Simple { lhs: l2, rhs: r2 } => states_replaced(lhs, l2) && states_replaced(rhs, r2),
            _ => false,
        },
        Equation::FunctionCall { comp, args } => match r {
            Equation::FunctionCall { comp: c2, args: a2 } => c2 == comp && all_replaced(args@, a2@),
            _ => false,
        },
        Equation::For { indices, equations } => match r {
            Equation::For { indices: i2, equations: e2 } => indices_replaced(indices@, i2@) && eqs_replaced(
                equations@,
                e2@,
            ),
            _ => false,
        },
        Equation::When(blocks) => match r {
            Equation::When(b2) => blocks_replaced(blocks@, b2@),
            _ => false,
        },
        Equation::If { cond_blocks, else_block } => match r {
            Equation::If { cond_blocks: c2, else_block: e2 } => blocks_replaced(cond_blocks@, c2@) && match else_block {
                Some(x) => match e2 {
                    Some(y) => eqs_replaced(x@, y@),
                    None => false,
                },
                None => e2 is None,
            },
            _ => false,
        },
        _ => r == eq,
    }
}

/// Equation by equation replacement.
pub open spec fn eqs_replaced(a: Seq<Equation>, b: Seq<Equation>) -> bool
    decreases a, 0nat,
{
    a.len() == b.len() && (a.len() == 0 || (eqs_replaced(a.drop_last(), b.drop_last()) && eq_replaced(
        a.last(),
        b.last(),
    )))
}

/// Block by block replacement, in conditions and equations.
pub open spec fn blocks_replaced(a: Seq<EquationBlock>, b: Seq<EquationBlock>) -> bool
    decreases a, 0nat,
{
    a.len() == b.len() && (a.len() == 0 || (blocks_replaced(a.drop_last(), b.drop_last()) && states_replaced(
        a.last().cond,
        b.last().cond,
    ) && eqs_replaced(a.last().eqs@, b.last().eqs@)))
}

/// Index by index replacement in the ranges of `for` indices.
pub open spec fn indices_replaced(a: Seq<ForIndex>, b: Seq<ForIndex>) -> bool
    decreases a, 0nat,
{
    a.len() == b.len() && (a.len() == 0 || (indices_replaced(a.drop_last(), b.drop_last()) && b.last().ident
        == a.last().ident && states_replaced(a.last().range, b.last().range)))
}

/// The states met in an equation, in the order its parts are visited.
pub open spec fn eq_found_states(eq: Equation) -> Seq<Seq<char>>
    decreases eq, 0nat,
{
    match eq {
        Equation::Simple { lhs, rhs } => found_states(lhs) + found_states(rhs),
        Equation::FunctionCall { args, .. } => found_states_list(args@),
        Equation::For { indices, equations } => indices_found_states(indices@) + eqs_found_states(equations@),
        Equation::When(blocks) => blocks_found_states(blocks@),
        Equation::If { cond_blocks, else_block } => blocks_found_states(cond_blocks@) + match else_block {
            Some(x) => eqs_found_states(x@),
            None => seq![],
        },
        _ => seq![],
    }
}

/// The states met in equations, one after another.
pub open spec fn eqs_found_states(eqs: Seq<Equation>) -> Seq<Seq<char>>
    decreases eqs, 0nat,
{
    if eqs.len() == 0 {
        seq![]
    } else {
        eqs_found_states(eqs.drop_last()) + eq_found_states(eqs.last())
    }
}

/// The states met in guarded blocks: each condition, then its equations.
pub open spec fn blocks_found_states(bs: Seq<EquationBlock>) -> Seq<Seq<char>>
    decreases bs, 0nat,
{
    if bs.len() == 0 {
        seq![]
    } else {
        blocks_found_states(bs.drop_last()) + found_states(bs.last().cond) + eqs_found_states(bs.last().eqs@)
    }
}

/// The states met in the ranges of `for` indices.
pub open spec fn indices_found_states(xs: Seq<ForIndex>) -> Seq<Seq<char>>
    decreases xs, 0nat,
{
    if xs.len() == 0 {
        seq![]
    } else {
        indices_found_states(xs.drop_last()) + found_states(xs.last().range)
    }
}

/// `ders_ok` of every expression of an equation.
pub open spec fn eq_ders_ok(eq: Equation) -> bool
    decreases eq, 0nat,
{
    match eq {
        Equation::Simple { lhs, rhs } => ders_ok(lhs) && ders_ok(rhs),
        Equation::FunctionCall { args, .. } => all_ders_ok(args@),
        Equation::For { indices, equations } => indices_ders_ok(indices@) && eqs_ders_ok(equations@),
        Equation::When(blocks) => blocks_ders_ok(blocks@),
        Equation::If { cond_blocks, else_block } => blocks_ders_ok(cond_blocks@) && match else_block {
            Some(x) => eqs_ders_ok(x@),
            None => true,
        },
        _ => true,
    }
}

/// `eq_ders_ok` of each equation.
pub open spec fn eqs_ders_ok(eqs: Seq<Equation>) -> bool
    decreases eqs, 0nat,
{
    eqs.len() == 0 || (eqs_ders_ok(eqs.drop_last()) && eq_ders_ok(eqs.last()))
}

/// `ders_ok` of each block's condition and equations.
pub open spec fn blocks_ders_ok(bs: Seq<EquationBlock>) -> bool
    decreases bs, 0nat,
{
    bs.len() == 0 || (blocks_ders_ok(bs.drop_last()) && ders_ok(bs.last().cond) && eqs_ders_ok(bs.last().eqs@))
}

/// `ders_ok` of each index range.
pub open spec fn indices_ders_ok(xs: Seq<ForIndex>) -> bool
    decreases xs, 0nat,
{
    xs.len() == 0 || (indices_ders_ok(xs.drop_last()) && ders_ok(xs.last().range))
}

proof fn lemma_eqs_ders_ok_index(es: Seq<Equation>, i: int)
    requires
        eqs_ders_ok(es),
        0 <= i < es.len(),
    ensures
        eq_ders_ok(es[i]),
    decreases es.len(),
{
    if i < es.len() - 1 {
        lemma_eqs_ders_ok_index(es.drop_last(), i);
    }
}

proof fn lemma_blocks_ders_ok_index(bs: Seq<EquationBlock>, i: int)
    requires
        blocks_ders_ok(bs),
        0 <= i < bs.len(),
    ensures
        ders_ok(bs[i].cond),
        eqs_ders_ok(bs[i].eqs@),
    decreases bs.len(),
{
    if i < bs.len() - 1 {
        lemma_blocks_ders_ok_index(bs.drop_last(), i);
    }
}

proof fn lemma_indices_ders_ok_index(xs: Seq<ForIndex>, i: int)
    requires
        indices_ders_ok(xs),
        0 <= i < xs.len(),
    ensures
        ders_ok(xs[i].range),
    decreases xs.len(),
{
    if i < xs.len() - 1 {
        lemma_indices_ders_ok_index(xs.drop_last(), i);
    }
}

/// Replaces the derivatives of references in an equation, noting the states.
#[verifier::spinoff_prover]
pub fn replace_states_eq(eq: Equation, states: &mut Vec<Vec<char>>) -> (r: Equation)
    requires
        eq_ders_ok(eq),
    ensures
        eq_replaced(eq, r),
        views(final(states)@) == views(old(states)@) + eq_found_states(eq),
    decreases eq, 1nat,
{
    let ghost e0 = eq;
    let ghost s0 = views(states@);
    match eq {
        Equation::Simple { lhs, rhs } => {
            let l2 = replace_states(lhs, states);
            let r2 = replace_states(rhs, states);
            proof {
                assert(views(states@) =~= s0 + eq_found_states(e0));
            }
            Equation::Simple { lhs: l2, rhs: r2 }
        },
        Equation::FunctionCall { comp, args } => {
            let a2 = replace_states_list(args, states);
            Equation::FunctionCall { comp, args: a2 }
        },
        Equation::For { indices, equations } => {
            let i2 = replace_states_indices(indices, states);
            let e2 = replace_states_eqs(equations, states);
            proof {
                assert(views(states@) =~= s0 + eq_found_states(e0));
            }
            Equation::For { indices: i2, equations: e2 }
        },
        Equation::When(blocks) => {
            let b2 = replace_states_blocks(blocks, states);
            Equation::When(b2)
        },
        Equation::If { cond_blocks, else_block } => {
            let c2 = replace_states_blocks(cond_blocks, states);
            let e2 = match else_block {
                Some(x) => Some(replace_states_eqs(x, states)),
                None => None,
            };
            proof {
                assert(views(states@) =~= s0 + eq_found_states(e0));
            }
            Equation::If { cond_blocks: c2, else_block: e2 }
        },
        other => {
            proof {
                assert(views(states@) =~= s0 + eq_found_states(e0));
            }
            other
        },
    }
}

/// Replaces the derivatives in a list of equations.
pub fn replace_states_eqs(es: Vec<Equation>, states: &mut Vec<Vec<char>>) -> (r: Vec<Equation>)
    requires
        eqs_ders_ok(es@),
    ensures
        eqs_replaced(es@, r@),
        views(final(states)@) == views(old(states)@) + eqs_found_states(es@),
    decreases es, 0nat,
{
    let ghost e0 = es@;
    let ghost s0 = views(states@);
    let n = es.len();
    let mut rest = es;
    let mut out: Vec<Equation> = Vec::new();
    let mut i: usize = 0;
    while rest.len() > 0
        invariant
            e0.len() == i + rest@.len(),
            e0.len() == n,
            e0 == es@,
            rest@ == e0.skip(i as int),
            eqs_ders_ok(e0),
            eqs_replaced(e0.take(i as int), out@),
            views(states@) == s0 + eqs_found_states(e0.take(i as int)),
        decreases rest.len(),
    {
        proof {
            lemma_eqs_ders_ok_index(e0, i as int);
            assert(decreases_to!(es => es@[i as int]));
        }
        let x = rest.remove(0);
        let y = replace_states_eq(x, states);
        let ghost before = out@;
        out.push(y);
        proof {
            let t = e0.take(i as int + 1);
            assert(t.drop_last() =~= e0.take(i as int));
            assert(t.last() == e0[i as int]);
            assert(out@.drop_last() =~= before);
            assert(rest@ =~= e0.skip(i as int + 1));
        }
        i = i + 1;
    }
    proof {
        assert(e0.take(i as int) =~= e0);
    }
    out
}

/// Replaces the derivatives in guarded blocks.
pub fn replace_states_blocks(bs: Vec<EquationBlock>, states: &mut Vec<Vec<char>>) -> (r: Vec<EquationBlock>)
    requires
        blocks_ders_ok(bs@),
    ensures
        blocks_replaced(bs@, r@),
        views(final(states)@) == views(old(states)@) + blocks_found_states(bs@),
    decreases bs, 0nat,
{
    let ghost b0 = bs@;
    let ghost s0 = views(states@);
    let n = bs.len();
    let mut rest = bs;
    let mut out: Vec<EquationBlock> = Vec::new();
    let mut i: usize = 0;
    while rest.len() > 0
        invariant
            b0.len() == i + rest@.len(),
            b0.len() == n,
            b0 == bs@,
            rest@ == b0.skip(i as int),
            blocks_ders_ok(b0),
            blocks_replaced(b0.take(i as int), out@),
            views(states@) == s0 + blocks_found_states(b0.take(i as int)),
        decreases rest.len(),
    {
        proof {
            lemma_blocks_ders_ok_index(b0, i as int);
            assert(decreases_to!(bs => bs@[i as int]));
            assert(decreases_to!(bs@[i as int] => bs@[i as int].eqs));
        }
        let x = rest.remove(0);
        let c2 = replace_states(x.cond, states);
        let e2 = replace_states_eqs(x.eqs, states);
        let ghost before = out@;
        out.push(EquationBlock { cond: c2, eqs: e2 });
        proof {
            let t = b0.take(i as int + 1);
            assert(t.drop_last() =~= b0.take(i as int));
            assert(t.last() == b0[i as int]);
            assert(out@.drop_last() =~= before);
            assert(rest@ =~= b0.skip(i as int + 1));
            assert(views(states@) =~= s0 + blocks_found_states(t));
        }
        i = i + 1;
    }
    proof {
        assert(b0.take(i as int) =~= b0);
    }
    out
}

/// Replaces the derivatives in the ranges of `for` indices.
pub fn replace_states_indices(xs: Vec<ForIndex>, states: &mut Vec<Vec<char>>) -> (r: Vec<ForIndex>)
    requires
        indices_ders_ok(xs@),
    ensures
        indices_replaced(xs@, r@),
        views(final(states)@) == views(old(states)@) + indices_found_states(xs@),
    decreases xs, 0nat,
{
    let ghost x0 = xs@;
    let ghost s0 = views(states@);
    let n = xs.len();
    let mut rest = xs;
    let mut out: Vec<ForIndex> = Vec::new();
    let mut i: usize = 0;
    while rest.len() > 0
        invariant
            x0.len() == i + rest@.len(),
            x0.len() == n,
            x0 == xs@,
            rest@ == x0.skip(i as int),
            indices_ders_ok(x0),
            indices_replaced(x0.take(i as int), out@),
            views(states@) == s0 + indices_found_states(x0.take(i as int)),
        decreases rest.len(),
    {
        proof {
            lemma_indices_ders_ok_index(x0, i as int);
            assert(decreases_to!(xs => xs@[i as int]));
        }
        let x = rest.remove(0);
        let r2 = replace_states(x.range, states);
        let ghost before = out@;
        out.push(ForIndex { ident: x.ident, range: r2 });
        proof {
            let t = x0.take(i as int + 1);
            assert(t.drop_last() =~= x0.take(i as int));
            assert(t.last() == x0[i as int]);
            assert(out@.drop_last() =~= before);
            assert(rest@ =~= x0.skip(i as int + 1));
        }
        i = i + 1;
    }
    proof {
        assert(x0.take(i as int) =~= x0);
    }
    out
}

// ---------------------------------------------------------------------------
// Conditions: each `when` condition becomes a variable `__c<i>`
// ---------------------------------------------------------------------------

/// The name of condition variable `i`: `__c` and `i` in decimal.
pub open spec fn cond_name(i: nat) -> Seq<char> {
    seq!['_', '_', 'c'] + decimal(i)
}

/// A token made up by the compiler: no position, numbers zero.
pub open spec fn fresh_token(t: Token) -> bool {
    &&& t.location.start_line == 0
    &&& t.location.start_column == 0
    &&& t.location.end_line == 0
    &&& t.location.end_column == 0
    &&& t.location.start == 0
    &&& t.location.end == 0
    &&& t.location.file_name@ == Seq::<char>::empty()
    &&& t.token_number == 0
    &&& t.token_type == 0
}

/// `e` is a fresh, plain reference to condition variable `i`.
pub open spec fn is_cond_ref(e: Expression, i: nat) -> bool {
    match e {
        Expression::ComponentReference(c) => !c.local && c.parts@.len() == 1 && c.parts@[0].subs is None
            && c.parts@[0].ident.text@ == cond_name(i) && fresh_token(c.parts@[0].ident),
        _ => false,
    }
}

/// The conditions of the `when` blocks of an equation, in the order they
/// are numbered: those nested in a `when`'s equations before its own, and
/// a `when`'s own blocks in order.
pub open spec fn eq_conds(eq: Equation) -> Seq<Expression>
    decreases eq, 0nat,
{
    match eq {
        Equation::When(blocks) => blocks_conds(blocks@) + block_conditions(blocks@),
        Equation::For { equations, .. } => eqs_conds(equations@),
        Equation::If { cond_blocks, else_block } => blocks_conds(cond_blocks@) + match else_block {
            Some(x) => eqs_conds(x@),
            None => seq![],
        },
        _ => seq![],
    }
}

/// The `when` conditions of equations, one after another.
pub open spec fn eqs_conds(eqs: Seq<Equation>) -> Seq<Expression>
    decreases eqs, 0nat,
{
    if eqs.len() == 0 {
        seq![]
    } else {
        eqs_conds(eqs.drop_last()) + eq_conds(eqs.last())
    }
}

/// The `when` conditions inside the equations of blocks.
pub open spec fn blocks_conds(bs: Seq<EquationBlock>) -> Seq<Expression>
    decreases bs, 0nat,
{
    if bs.len() == 0 {
        seq![]
    } else {
        blocks_conds(bs.drop_last()) + eqs_conds(bs.last().eqs@)
    }
}

/// The conditions of the blocks themselves.
pub open spec fn block_conditions(bs: Seq<EquationBlock>) -> Seq<Expression>
    decreases bs.len(),
{
    if bs.len() == 0 {
        seq![]
    } else {
        block_conditions(bs.drop_last()).push(bs.last().cond)
    }
}

proof fn lemma_block_conditions_len(bs: Seq<EquationBlock>)
    ensures
        block_conditions(bs).len() == bs.len(),
    decreases bs.len(),
{
    if bs.len() > 0 {
        lemma_block_conditions_len(bs.drop_last());
    }
}

/// `r` is `eq` with its `when` conditions replaced by condition variables
/// numbered from `n` on, in the order of `eq_conds`.
pub open spec fn conds_replaced(eq: Equation, r: Equation, n: nat) -> bool
    decreases eq, 0nat,
{
    match eq {
        Equation::When(blocks) => match r {
            Equation::When(b2) => blocks_conds_replaced(blocks@, b2@, n) && forall|j: int|
                0 <= j < blocks@.len() ==> #[trigger] is_cond_ref(b2@[j].cond, (n + blocks_conds(blocks@).len() + j) as nat),
            _ => false,
        },
        Equation::For { indices, equations } => match r {
            Equation::For { indices: i2, equations: e2 } => i2 == indices && eqs_conds_replaced(equations@, e2@, n),
            _ => false,
        },
        Equation::If { cond_blocks, else_block } => match r {
            Equation::If { cond_blocks: c2, else_block: e2 } => blocks_conds_replaced(cond_blocks@, c2@, n)
                && (forall|j: int| 0 <= j < cond_blocks@.len() ==> #[trigger] c2@[j].cond == cond_blocks@[j].cond)
                && match else_block {
                Some(x) => match e2 {
                    Some(y) => eqs_conds_replaced(x@, y@, n + blocks_conds(cond_blocks@).len()),
                    None => false,
                },
                None => e2 is None,
            },
            _ => false,
        },
        _ => r == eq,
    }
}

/// Equation by equation replacement, numbering on.
pub open spec fn eqs_conds_replaced(a: Seq<Equation>, b: Seq<Equation>, n: nat) -> bool
    decreases a, 0nat,
{
    a.len() == b.len() && (a.len() == 0 || (eqs_conds_replaced(a.drop_last(), b.drop_last(), n) && conds_replaced(
        a.last(),
        b.last(),
        n + eqs_conds(a.drop_last()).len(),
    )))
}

/// Replacement in the equations of blocks, numbering on (the blocks' own
/// conditions are not related here).
pub open spec fn blocks_conds_replaced(a: Seq<EquationBlock>, b: Seq<EquationBlock>, n: nat) -> bool
    decreases a, 0nat,
{
    a.len() == b.len() && (a.len() == 0 || (blocks_conds_replaced(a.drop_last(), b.drop_last(), n)
        && eqs_conds_replaced(a.last().eqs@, b.last().eqs@, n + blocks_conds(a.drop_last()).len())))
}

/// `new` is `old` with the conditions `cs` appended under their names.
pub open spec fn conds_pushed(old: Seq<(String, Expression)>, new: Seq<(String, Expression)>, cs: Seq<Expression>) -> bool {
    &&& new.len() == old.len() + cs.len()
    &&& forall|i: int| 0 <= i < old.len() ==> #[trigger] new[i] == old[i]
    &&& forall|k: int| 0 <= k < cs.len() ==> (#[trigger] new[old.len() + k]).0@ == cond_name((old.len() + k) as nat)
        && new[old.len() + k].1 == cs[k]
}

proof fn lemma_conds_pushed_chain(
    a: Seq<(String, Expression)>,
    b: Seq<(String, Expression)>,
    c: Seq<(String, Expression)>,
    x: Seq<Expression>,
    y: Seq<Expression>,
)
    requires
        conds_pushed(a, b, x),
        conds_pushed(b, c, y),
    ensures
        conds_pushed(a, c, x + y),
{
    assert forall|k: int| 0 <= k < (x + y).len() implies (#[trigger] c[a.len() + k]).0@ == cond_name(
        (a.len() + k) as nat,
    ) && c[a.len() + k].1 == (x + y)[k] by {
        if k < x.len() {
            assert(c[a.len() + k] == b[a.len() + k]);
        } else {
            let k2 = k - x.len();
            assert(c[b.len() + k2] == c[a.len() + k]);
        }
    }
}

/// The characters of the name of condition variable `i`.
fn cond_chars(i: usize) -> (r: Vec<char>)
    ensures
        r@ == cond_name(i as nat),
{
    let mut v: Vec<char> = vec!['_', '_', 'c'];
    write_decimal(&mut v, i);
    v
}

/// A fresh reference to condition variable `i`.
fn cond_reference(i: usize) -> (r: Expression)
    ensures
        is_cond_ref(r, i as nat),
{
    let t = Token {
        text: crate::text::chars_to_string(&cond_chars(i)),
        location: Location {
            start_line: 0,
            start_column: 0,
            end_line: 0,
            end_column: 0,
            start: 0,
            end: 0,
            file_name: String::new(),
        },
        token_number: 0,
        token_type: 0,
    };
    let r = Expression::ComponentReference(ComponentReference {
        local: false,
        parts: vec![ComponentRefPart { ident: t, subs: None }],
    });
    r
}

/// Replaces the `when` conditions of an equation by condition variables,
/// numbered on from the conditions already found, which it adds to.
#[verifier::spinoff_prover]
pub fn replace_conditions(eq: Equation, conds: &mut Vec<(String, Expression)>) -> (r: Equation)
    ensures
        conds_replaced(eq, r, old(conds)@.len() as nat),
        conds_pushed(old(conds)@, final(conds)@, eq_conds(eq)),
    decreases eq, 1nat,
{
    let ghost e0 = eq;
    let ghost c0 = conds@;
    match eq {
        Equation::When(blocks) => {
            let ghost b0 = blocks@;
            let mut mid = replace_conditions_blocks(blocks, conds);
            let ghost c1 = conds@;
            let ghost m0 = mid@;
            let n = mid.len();
            let mut out: Vec<EquationBlock> = Vec::new();
            let mut j: usize = 0;
            while mid.len() > 0
                invariant
                    m0.len() == b0.len(),
                    m0.len() == n,
                    j + mid@.len() == n,
                    mid@ == m0.skip(j as int),
                    out@.len() == j,
                    c1.len() == c0.len() + blocks_conds(b0).len(),
                    forall|t: int| 0 <= t < b0.len() ==> #[trigger] m0[t].cond == b0[t].cond,
                    forall|t: int| 0 <= t < j ==> #[trigger] out@[t].eqs == m0[t].eqs,
                    forall|t: int| 0 <= t < j ==> #[trigger] is_cond_ref(out@[t].cond, (c1.len() + t) as nat),
                    conds_pushed(c1, conds@, block_conditions(b0.take(j as int))),
                decreases mid.len(),
            {
                proof {
                    lemma_block_conditions_len(b0.take(j as int));
                }
                let x = mid.remove(0);
                let i = conds.len();
                let ghost before = conds@;
                let ghost ob = out@;
                conds.push((crate::text::chars_to_string(&cond_chars(i)), x.cond));
                out.push(EquationBlock { cond: cond_reference(i), eqs: x.eqs });
                proof {
                    assert(x == m0[j as int]);
                    let t = b0.take(j as int + 1);
                    assert(t.drop_last() =~= b0.take(j as int));
                    assert(block_conditions(t) =~= block_conditions(b0.take(j as int)).push(b0[j as int].cond));
                    assert forall|t2: int| 0 <= t2 < j + 1 implies #[trigger] out@[t2].eqs == m0[t2].eqs by {
                        if t2 < j {
                            assert(out@[t2] == ob[t2]);
                        }
                    }
                    assert forall|t2: int| 0 <= t2 < j + 1 implies #[trigger] is_cond_ref(
                        out@[t2].cond,
                        (c1.len() + t2) as nat,
                    ) by {
                        if t2 < j {
                            assert(out@[t2] == ob[t2]);
                        }
                    }
                    assert(mid@ =~= m0.skip(j as int + 1));
                    assert(conds_pushed(before, conds@, seq![b0[j as int].cond]));
                    lemma_conds_pushed_chain(c1, before, conds@, block_conditions(b0.take(j as int)), seq![b0[j as int].cond]);
                    assert(block_conditions(b0.take(j as int)) + seq![b0[j as int].cond] =~= block_conditions(t));
                }
                j = j + 1;
            }
            proof {
                assert(b0.take(j as int) =~= b0);
                assert(out@.len() == b0.len());
                lemma_blocks_conds_replaced_eqs(b0, m0, out@, c0.len() as nat);
                lemma_conds_pushed_chain(c0, c1, conds@, blocks_conds(b0), block_conditions(b0));
            }
            Equation::When(out)
        },
        Equation::For { indices, equations } => {
            let e2 = replace_conditions_eqs(equations, conds);
            Equation::For { indices, equations: e2 }
        },
        Equation::If { cond_blocks, else_block } => {
            let ghost cb = cond_blocks@;
            let ghost eb = else_block;
            let c2 = replace_conditions_blocks(cond_blocks, conds);
            let ghost c1 = conds@;
            let e2 = match else_block {
                Some(x) => Some(replace_conditions_eqs(x, conds)),
                None => None,
            };
            proof {
                match eb {
                    Some(x) => {
                        lemma_conds_pushed_chain(c0, c1, conds@, blocks_conds(cb), eqs_conds(x@));
                    },
                    None => {
                        assert(blocks_conds(cb) + Seq::<Expression>::empty() =~= blocks_conds(cb));
                    },
                }
            }
            Equation::If { cond_blocks: c2, else_block: e2 }
        },
        other => {
            proof {
                assert(conds@ =~= c0);
            }
            other
        },
    }
}

/// Blocks whose equations relate as `mid`'s do, with `mid`'s conditions
/// or any others, relate the same.
proof fn lemma_blocks_conds_replaced_eqs(a: Seq<EquationBlock>, mid: Seq<EquationBlock>, out: Seq<EquationBlock>, n: nat)
    requires
        blocks_conds_replaced(a, mid, n),
        out.len() == mid.len(),
        forall|t: int| 0 <= t < mid.len() ==> #[trigger] out[t].eqs == mid[t].eqs,
    ensures
        blocks_conds_replaced(a, out, n),
    decreases a.len(),
{
    if a.len() > 0 {
        lemma_blocks_conds_replaced_eqs(a.drop_last(), mid.drop_last(), out.drop_last(), n);
        assert(out.last().eqs == mid.last().eqs);
    }
}

/// Replaces the `when` conditions of a list of equations.
pub fn replace_conditions_eqs(es: Vec<Equation>, conds: &mut Vec<(String, Expression)>) -> (r: Vec<Equation>)
    ensures
        eqs_conds_replaced(es@, r@, old(conds)@.len() as nat),
        conds_pushed(old(conds)@, final(conds)@, eqs_conds(es@)),
    decreases es, 0nat,
{
    let ghost e0 = es@;
    let ghost c0 = conds@;
    let n = es.len();
    let mut rest = es;
    let mut out: Vec<Equation> = Vec::new();
    let mut i: usize = 0;
    while rest.len() > 0
        invariant
            e0.len() == i + rest@.len(),
            e0.len() == n,
            e0 == es@,
            rest@ == e0.skip(i as int),
            eqs_conds_replaced(e0.take(i as int), out@, c0.len() as nat),
            conds_pushed(c0, conds@, eqs_conds(e0.take(i as int))),
        decreases rest.len(),
    {
        proof {
            assert(decreases_to!(es => es@[i as int]));
        }
        let x = rest.remove(0);
        let ghost before = conds@;
        let y = replace_conditions(x, conds);
        let ghost ob = out@;
        out.push(y);
        proof {
            let t = e0.take(i as int + 1);
            assert(t.drop_last() =~= e0.take(i as int));
            assert(t.last() == e0[i as int]);
            assert(out@.drop_last() =~= ob);
            assert(rest@ =~= e0.skip(i as int + 1));
            lemma_conds_pushed_chain(c0, before, conds@, eqs_conds(e0.take(i as int)), eq_conds(e0[i as int]));
        }
        i = i + 1;
    }
    proof {
        assert(e0.take(i as int) =~= e0);
    }
    out
}

/// Replaces the `when` conditions inside the equations of blocks, keeping
/// the blocks' own conditions.
pub fn replace_conditions_blocks(bs: Vec<EquationBlock>, conds: &mut Vec<(String, Expression)>) -> (r: Vec<EquationBlock>)
    ensures
        blocks_conds_replaced(bs@, r@, old(conds)@.len() as nat),
        r@.len() == bs@.len(),
        forall|j: int| 0 <= j < bs@.len() ==> #[trigger] r@[j].cond == bs@[j].cond,
        conds_pushed(old(conds)@, final(conds)@, blocks_conds(bs@)),
    decreases bs, 0nat,
{
    let ghost b0 = bs@;
    let ghost c0 = conds@;
    let n = bs.len();
    let mut rest = bs;
    let mut out: Vec<EquationBlock> = Vec::new();
    let mut i: usize = 0;
    while rest.len() > 0
        invariant
            b0.len() == i + rest@.len(),
            b0.len() == n,
            b0 == bs@,
            rest@ == b0.skip(i as int),
            out@.len() == i,
            forall|j: int| 0 <= j < i ==> #[trigger] out@[j].cond == b0[j].cond,
            blocks_conds_replaced(b0.take(i as int), out@, c0.len() as nat),
            conds_pushed(c0, conds@, blocks_conds(b0.take(i as int))),
        decreases rest.len(),
    {
        proof {
            assert(decreases_to!(bs => bs@[i as int]));
            assert(decreases_to!(bs@[i as int] => bs@[i as int].eqs));
        }
        let x = rest.remove(0);
        let ghost before = conds@;
        let e2 = replace_conditions_eqs(x.eqs, conds);
        let ghost ob = out@;
        out.push(EquationBlock { cond: x.cond, eqs: e2 });
        proof {
            let t = b0.take(i as int + 1);
            assert(t.drop_last() =~= b0.take(i as int));
            assert(t.last() == b0[i as int]);
            assert(out@.drop_last() =~= ob);
            assert(rest@ =~= b0.skip(i as int + 1));
            assert forall|j: int| 0 <= j < i + 1 implies #[trigger] out@[j].cond == b0[j].cond by {
                if j < i {
                    assert(out@[j] == ob[j]);
                }
            }
            lemma_conds_pushed_chain(c0, before, conds@, blocks_conds(b0.take(i as int)), eqs_conds(b0[i as int].eqs@));
        }
        i = i + 1;
    }
    proof {
        assert(b0.take(i as int) =~= b0);
    }
    out
}

// ---------------------------------------------------------------------------
// Keyed lists: insertion replaces the value of a present key in place
// ---------------------------------------------------------------------------

/// The first position of key `k`.
pub open spec fn key_index(keys: Seq<Seq<char>>, k: Seq<char>) -> Option<int>
    decreases keys.len(),
{
    if keys.len() == 0 {
        None
    } else {
        match key_index(keys.drop_last(), k) {
            Some(i) => Some(i),
            None => if keys.last() == k {
                Some(keys.len() - 1)
            } else {
                None
            },
        }
    }
}

/// The keys of a keyed list.
pub open spec fn keys_of<V>(s: Seq<(Seq<char>, V)>) -> Seq<Seq<char>> {
    s.map_values(|e: (Seq<char>, V)| e.0)
}

/// Inserts `(k, v)`: a present key keeps its place and takes the value `v`;
/// a new key goes last.
pub open spec fn insert_entry<V>(s: Seq<(Seq<char>, V)>, k: Seq<char>, v: V) -> Seq<(Seq<char>, V)> {
    match key_index(keys_of(s), k) {
        Some(i) => s.update(i, (k, v)),
        None => s.push((k, v)),
    }
}

/// The keys of a list of named entries, as characters.
pub open spec fn string_keys<V>(v: Seq<(String, V)>) -> Seq<Seq<char>> {
    v.map_values(|e: (String, V)| e.0@)
}

/// A list of named component positions, with names as characters.
pub open spec fn entry_views(v: Seq<(String, usize)>) -> Seq<(Seq<char>, usize)> {
    v.map_values(|e: (String, usize)| (e.0@, e.1))
}

pub(crate) proof fn lemma_key_index_bounds(keys: Seq<Seq<char>>, k: Seq<char>)
    ensures
        match key_index(keys, k) {
            Some(i) => 0 <= i < keys.len() && keys[i] == k && forall|j: int| 0 <= j < i ==> keys[j] != k,
            None => forall|j: int| 0 <= j < keys.len() ==> keys[j] != k,
        },
    decreases keys.len(),
{
    if keys.len() > 0 {
        let d = keys.drop_last();
        lemma_key_index_bounds(d, k);
        assert forall|j: int| 0 <= j < d.len() implies #[trigger] d[j] == keys[j] by {}
        match key_index(d, k) {
            Some(i) => {
                assert(keys[i] == d[i]);
                assert forall|j: int| 0 <= j < i implies keys[j] != k by {
                    assert(d[j] == keys[j]);
                }
            },
            None => {
                if keys.last() == k {
                    assert forall|j: int| 0 <= j < keys.len() - 1 implies keys[j] != k by {
                        assert(d[j] == keys[j]);
                    }
                } else {
                    assert forall|j: int| 0 <= j < keys.len() implies keys[j] != k by {
                        if j < d.len() {
                            assert(d[j] == keys[j]);
                        }
                    }
                }
            },
        }
    }
}

proof fn lemma_key_index_first(keys: Seq<Seq<char>>, k: Seq<char>, i: int)
    requires
        0 <= i < keys.len(),
        keys[i] == k,
        forall|j: int| 0 <= j < i ==> keys[j] != k,
    ensures
        key_index(keys, k) == Some(i),
    decreases keys.len(),
{
    lemma_key_index_bounds(keys, k);
    if i < keys.len() - 1 {
        lemma_key_index_first(keys.drop_last(), k, i);
    } else {
        lemma_key_index_bounds(keys.drop_last(), k);
    }
}

/// The position of key `k` in a list of named entries.
pub(crate) fn key_position<V>(v: &Vec<(String, V)>, k: &[char]) -> (r: Option<usize>)
    ensures
        match r {
            Some(i) => key_index(string_keys(v@), k@) == Some(i as int),
            None => key_index(string_keys(v@), k@) is None,
        },
{
    let mut i: usize = 0;
    while i < v.len()
        invariant
            i <= v@.len(),
            forall|j: int| 0 <= j < i ==> string_keys(v@)[j] != k@,
        decreases v.len() - i,
    {
        let key = crate::text::str_to_chars(&v[i].0);
        if crate::lexer::chars_equal(&key, k) {
            proof {
                lemma_key_index_first(string_keys(v@), k@, i as int);
            }
            return Some(i);
        }
        i = i + 1;
    }
    proof {
        lemma_key_index_bounds(string_keys(v@), k@);
    }
    None
}

/// Inserts a named component position.
fn insert_position(v: &mut Vec<(String, usize)>, k: Vec<char>, idx: usize)
    ensures
        entry_views(final(v)@) == insert_entry(entry_views(old(v)@), k@, idx),
{
    proof {
        assert(keys_of(entry_views(v@)) =~= string_keys(v@));
    }
    let name = crate::text::chars_to_string(&k);
    proof {
        lemma_key_index_bounds(string_keys(v@), k@);
    }
    match key_position(v, &k) {
        Some(i) => {
            v.set(i, (name, idx));
        },
        None => {
            v.push((name, idx));
        },
    }
    proof {
        assert(entry_views(final(v)@) =~= insert_entry(entry_views(old(v)@), k@, idx));
    }
}

// ---------------------------------------------------------------------------
// Components
// ---------------------------------------------------------------------------

/// Where a component goes, given the states: 0 parameters, 1 constants,
/// 2 discrete variables, 3 states, 4 inputs, 5 algebraic variables (outputs
/// and undeclared causality).
pub open spec fn slot(c: Component, states: Seq<Seq<char>>) -> nat {
    match c.variability {
        Variability::Parameter(_) => 0,
        Variability::Constant(_) => 1,
        Variability::Discrete(_) => 2,
        Variability::Empty => if states.contains(c.name@) {
            3
        } else {
            match c.causality {
                Causality::Input(_) => 4,
                _ => 5,
            }
        },
    }
}

/// The components among the first `n` that go to slot `k`, each inserted
/// under its name after `prefix` with its position.
pub open spec fn slot_entries(cs: Seq<Component>, states: Seq<Seq<char>>, k: nat, prefix: Seq<char>, n: int) -> Seq<
    (Seq<char>, usize),
>
    decreases n,
{
    if n <= 0 {
        seq![]
    } else {
        let prev = slot_entries(cs, states, k, prefix, n - 1);
        if slot(cs[n - 1], states) == k {
            insert_entry(prev, prefix + cs[n - 1].name@, (n - 1) as usize)
        } else {
            prev
        }
    }
}

/// The entries of `s` inserted one by one under their names after `prefix`.
pub open spec fn prefixed_entries(s: Seq<(Seq<char>, usize)>, prefix: Seq<char>) -> Seq<(Seq<char>, usize)>
    decreases s.len(),
{
    if s.len() == 0 {
        seq![]
    } else {
        insert_entry(prefixed_entries(s.drop_last(), prefix), prefix + s.last().0, s.last().1)
    }
}

/// `der_`.
pub open spec fn der_underscore() -> Seq<char> {
    seq!['d', 'e', 'r', '_']
}

/// `pre_`.
pub open spec fn pre_underscore() -> Seq<char> {
    seq!['p', 'r', 'e', '_']
}

/// A class in differential-algebraic form. Variables are listed under
/// their names in the DAE, each with the position of its component among
/// the class's components.
#[derive(Debug)]
pub struct Dae {
    /// Parameters.
    pub p: Vec<(String, usize)>,
    /// Constants.
    pub cp: Vec<(String, usize)>,
    /// States: continuous variables that appear differentiated.
    pub x: Vec<(String, usize)>,
    /// The derivatives of the states, named `der_x`.
    pub x_dot: Vec<(String, usize)>,
    /// Algebraic variables: outputs and variables of no declared causality.
    pub y: Vec<(String, usize)>,
    /// Inputs.
    pub u: Vec<(String, usize)>,
    /// Values of `z` before an event.
    pub pre_z: Vec<(String, usize)>,
    /// Values of the states before an event, named `pre_x`.
    pub pre_x: Vec<(String, usize)>,
    /// Values of `m` before an event, named `pre_m`.
    pub pre_m: Vec<(String, usize)>,
    /// Real discrete variables.
    pub z: Vec<(String, usize)>,
    /// Discrete variables.
    pub m: Vec<(String, usize)>,
    /// The condition variables.
    pub c: Vec<String>,
    /// Continuous-time equations.
    pub fx: Vec<Equation>,
    /// Event update equations.
    pub fz: Vec<Equation>,
    /// Discrete update equations.
    pub fm: Vec<Equation>,
    /// Reset assignments, by condition variable.
    pub fr: Vec<(String, Statement)>,
    /// The condition variables with the conditions they stand for.
    pub fc: Vec<(String, Expression)>,
    /// The MD5 digest of the model's source, in lower-case hexadecimal; empty
    /// until `stamp_model_hash` sets it.
    pub model_hash: String,
}

/// The component lists of a DAE for a class with the given components and states.
pub open spec fn components_sorted(d: Dae, cs: Seq<Component>, st: Seq<Seq<char>>) -> bool {
    let n = cs.len() as int;
    &&& entry_views(d.p@) == slot_entries(cs, st, 0, seq![], n)
    &&& entry_views(d.cp@) == slot_entries(cs, st, 1, seq![], n)
    &&& entry_views(d.m@) == slot_entries(cs, st, 2, seq![], n)
    &&& entry_views(d.x@) == slot_entries(cs, st, 3, seq![], n)
    &&& entry_views(d.x_dot@) == slot_entries(cs, st, 3, der_underscore(), n)
    &&& entry_views(d.u@) == slot_entries(cs, st, 4, seq![], n)
    &&& entry_views(d.y@) == slot_entries(cs, st, 5, seq![], n)
}

/// Sorts the components into the lists of a DAE.
fn sort_components(d: &mut Dae, cs: &Vec<Component>, states: &Vec<Vec<char>>)
    requires
        old(d).p@.len() == 0,
        old(d).cp@.len() == 0,
        old(d).m@.len() == 0,
        old(d).x@.len() == 0,
        old(d).x_dot@.len() == 0,
        old(d).u@.len() == 0,
        old(d).y@.len() == 0,
    ensures
        components_sorted(*final(d), cs@, views(states@)),
        final(d).c == old(d).c,
        final(d).fx == old(d).fx,
        final(d).fr == old(d).fr,
        final(d).fc == old(d).fc,
        final(d).z == old(d).z,
        final(d).pre_x == old(d).pre_x,
        final(d).pre_m == old(d).pre_m,
        final(d).pre_z == old(d).pre_z,
        final(d).fz == old(d).fz,
        final(d).fm == old(d).fm,
{
    let ghost st = views(states@);
    let ghost c0 = d.c;
    let ghost fx0 = d.fx;
    let ghost fr0 = d.fr;
    let ghost fc0 = d.fc;
    let ghost z0 = d.z;
    let ghost px0 = d.pre_x;
    let ghost pm0 = d.pre_m;
    let ghost pz0 = d.pre_z;
    let ghost fz0 = d.fz;
    let ghost fm0 = d.fm;
    let mut i: usize = 0;
    proof {
        assert(entry_views(d.p@) =~= seq![]);
        assert(entry_views(d.cp@) =~= seq![]);
        assert(entry_views(d.m@) =~= seq![]);
        assert(entry_views(d.x@) =~= seq![]);
        assert(entry_views(d.x_dot@) =~= seq![]);
        assert(entry_views(d.u@) =~= seq![]);
        assert(entry_views(d.y@) =~= seq![]);
    }
    while i < cs.len()
        invariant
            i <= cs@.len(),
            st == views(states@),
            entry_views(d.p@) == slot_entries(cs@, st, 0, seq![], i as int),
            entry_views(d.cp@) == slot_entries(cs@, st, 1, seq![], i as int),
            entry_views(d.m@) == slot_entries(cs@, st, 2, seq![], i as int),
            entry_views(d.x@) == slot_entries(cs@, st, 3, seq![], i as int),
            entry_views(d.x_dot@) == slot_entries(cs@, st, 3, der_underscore(), i as int),
            entry_views(d.u@) == slot_entries(cs@, st, 4, seq![], i as int),
            entry_views(d.y@) == slot_entries(cs@, st, 5, seq![], i as int),
            d.c == c0,
            d.fx == fx0,
            d.fr == fr0,
            d.fc == fc0,
            d.z == z0,
            d.pre_x == px0,
            d.pre_m == pm0,
            d.pre_z == pz0,
            d.fz == fz0,
            d.fm == fm0,
        decreases cs.len() - i,
    {
        let comp = &cs[i];
        let name = crate::text::str_to_chars(&comp.name);
        proof {
            assert(seq![] + name@ =~= name@);
        }
        match comp.variability {
            Variability::Parameter(_) => insert_position(&mut d.p, name, i),
            Variability::Constant(_) => insert_position(&mut d.cp, name, i),
            Variability::Discrete(_) => insert_position(&mut d.m, name, i),
            Variability::Empty => {
                let found = crate::names::position(states, &name);
                if found.is_some() {
                    let mut dn: Vec<char> = vec!['d', 'e', 'r', '_'];
                    let mut j: usize = 0;
                    while j < name.len()
                        invariant
                            j <= name@.len(),
                            dn@ == der_underscore() + name@.take(j as int),
                        decreases name.len() - j,
                    {
                        dn.push(name[j]);
                        assert(name@.take(j as int + 1) =~= name@.take(j as int).push(name@[j as int]));
                        j = j + 1;
                    }
                    assert(name@.take(name@.len() as int) =~= name@);
                    proof {
                        let k = found.unwrap() as int;
                        assert(st[k] == name@);
                        assert(st.contains(name@));
                    }
                    insert_position(&mut d.x, name, i);
                    insert_position(&mut d.x_dot, dn, i);
                } else {
                    proof {
                        if st.contains(cs@[i as int].name@) {
                            let k = choose|k: int| 0 <= k < st.len() && st[k] == cs@[i as int].name@;
                            assert(states@[k]@ == name@);
                        }
                    }
                    match comp.causality {
                        Causality::Input(_) => insert_position(&mut d.u, name, i),
                        _ => insert_position(&mut d.y, name, i),
                    }
                }
            },
        }
        i = i + 1;
    }
}

/// Inserts each entry of `src` under its name after `pre_`.
fn pre_positions(src: &Vec<(String, usize)>) -> (r: Vec<(String, usize)>)
    ensures
        entry_views(r@) == prefixed_entries(entry_views(src@), pre_underscore()),
{
    let mut out: Vec<(String, usize)> = Vec::new();
    let mut i: usize = 0;
    proof {
        assert(entry_views(out@) =~= seq![]);
        assert(entry_views(src@).take(0) =~= seq![]);
    }
    while i < src.len()
        invariant
            i <= src@.len(),
            entry_views(out@) == prefixed_entries(entry_views(src@).take(i as int), pre_underscore()),
        decreases src.len() - i,
    {
        let name = crate::text::str_to_chars(&src[i].0);
        let mut pn: Vec<char> = vec!['p', 'r', 'e', '_'];
        let mut j: usize = 0;
        while j < name.len()
            invariant
                j <= name@.len(),
                pn@ == pre_underscore() + name@.take(j as int),
            decreases name.len() - j,
        {
            pn.push(name[j]);
            assert(name@.take(j as int + 1) =~= name@.take(j as int).push(name@[j as int]));
            j = j + 1;
        }
        assert(name@.take(name@.len() as int) =~= name@);
        insert_position(&mut out, pn, src[i].1);
        proof {
            let t = entry_views(src@).take(i as int + 1);
            assert(t.drop_last() =~= entry_views(src@).take(i as int));
            assert(t.last() == (src@[i as int].0@, src@[i as int].1));
        }
        i = i + 1;
    }
    proof {
        assert(entry_views(src@).take(i as int) =~= entry_views(src@));
    }
    out
}

// ---------------------------------------------------------------------------
// Equations
// ---------------------------------------------------------------------------

/// The continuous-time equations among `eqs`: the simple and `if` equations, in order.
pub open spec fn continuous_eqs(eqs: Seq<Equation>) -> Seq<Equation>
    decreases eqs.len(),
{
    if eqs.len() == 0 {
        seq![]
    } else {
        continuous_eqs(eqs.drop_last()) + if eqs.last() is Simple || eqs.last() is If {
            seq![eqs.last()]
        } else {
            seq![]
        }
    }
}

/// `b` holds copies of the equations of `a`.
pub open spec fn eq_copies(a: Seq<Equation>, b: Seq<Equation>) -> bool {
    a.len() == b.len() && forall|i: int| 0 <= i < a.len() ==> #[trigger] same_equation(a[i], b[i])
}

/// Copies of the continuous-time equations.
fn continuous_equations(eqs: &Vec<Equation>) -> (r: Vec<Equation>)
    ensures
        eq_copies(continuous_eqs(eqs@), r@),
{
    let mut out: Vec<Equation> = Vec::new();
    let mut i: usize = 0;
    while i < eqs.len()
        invariant
            i <= eqs@.len(),
            eq_copies(continuous_eqs(eqs@.take(i as int)), out@),
        decreases eqs.len() - i,
    {
        let ghost t = eqs@.take(i as int + 1);
        let ghost before = out@;
        proof {
            assert(t.drop_last() =~= eqs@.take(i as int));
            assert(t.last() == eqs@[i as int]);
        }
        match &eqs[i] {
            Equation::Simple { .. } | Equation::If { .. } => {
                out.push(copy_equation(&eqs[i]));
                proof {
                    let c = continuous_eqs(t);
                    assert(c =~= continuous_eqs(eqs@.take(i as int)).push(eqs@[i as int]));
                    assert forall|k: int| 0 <= k < c.len() implies #[trigger] same_equation(c[k], out@[k]) by {
                        if k < before.len() {
                            assert(out@[k] == before[k]);
                        }
                    }
                }
            },
            _ => {
                proof {
                    assert(continuous_eqs(t) =~= continuous_eqs(eqs@.take(i as int)));
                }
            },
        }
        i = i + 1;
    }
    proof {
        assert(eqs@.take(i as int) =~= eqs@);
    }
    out
}

/// `reinit`.
pub open spec fn reinit_name() -> Seq<char> {
    seq!['r', 'e', 'i', 'n', 'i', 't']
}

/// A reset: the condition variable it happens at, the variable reset, and its new value.
pub type Reset = (Seq<char>, (ComponentReference, Expression));

/// The reset an equation of a `when` block under condition variable `key`
/// makes: `reinit(x, v)` of a reference `x` resets `x` to `v`.
pub open spec fn reset_of(key: Seq<char>, eq: Equation) -> Seq<Reset> {
    match eq {
        Equation::FunctionCall { comp, args } => if cref_name(comp) == reinit_name() && args@.len() == 2 {
            match args@[0] {
                Expression::ComponentReference(x) => seq![(key, (x, args@[1]))],
                _ => seq![],
            }
        } else {
            seq![]
        },
        _ => seq![],
    }
}

/// The resets of the equations of a `when` block, in order.
pub open spec fn block_resets(key: Seq<char>, eqs: Seq<Equation>) -> Seq<Reset>
    decreases eqs.len(),
{
    if eqs.len() == 0 {
        seq![]
    } else {
        block_resets(key, eqs.drop_last()) + reset_of(key, eqs.last())
    }
}

/// The resets of `when` blocks whose conditions are condition variables.
pub open spec fn blocks_resets(bs: Seq<EquationBlock>) -> Seq<Reset>
    decreases bs.len(),
{
    if bs.len() == 0 {
        seq![]
    } else {
        blocks_resets(bs.drop_last()) + match bs.last().cond {
            Expression::ComponentReference(c) => block_resets(cref_name(c), bs.last().eqs@),
            _ => seq![],
        }
    }
}

/// The resets of the `when` equations among `eqs`, in order.
pub open spec fn resets(eqs: Seq<Equation>) -> Seq<Reset>
    decreases eqs.len(),
{
    if eqs.len() == 0 {
        seq![]
    } else {
        resets(eqs.drop_last()) + match eqs.last() {
            Equation::When(bs) => blocks_resets(bs@),
            _ => seq![],
        }
    }
}

/// Resets inserted one by one by condition variable: a later reset at the
/// same condition replaces an earlier one in its place.
pub open spec fn reset_table(ev: Seq<Reset>) -> Seq<Reset>
    decreases ev.len(),
{
    if ev.len() == 0 {
        seq![]
    } else {
        insert_entry(reset_table(ev.drop_last()), ev.last().0, ev.last().1)
    }
}

/// `fr` holds the assignments `x := v` of the reset table, copied.
pub open spec fn resets_match(fr: Seq<(String, Statement)>, t: Seq<Reset>) -> bool {
    &&& fr.len() == t.len()
    &&& forall|i: int| 0 <= i < fr.len() ==> (#[trigger] fr[i]).0@ == t[i].0 && match fr[i].1 {
        Statement::Assignment { comp, value } => same_cref((t[i].1).0, comp) && same_expr((t[i].1).1, value),
        _ => false,
    }
}

/// Inserts the assignment `x := v` at condition variable `key`.
fn add_reset(fr: &mut Vec<(String, Statement)>, Ghost(t): Ghost<Seq<Reset>>, key: &Vec<char>, x: &ComponentReference, v: &Expression)
    requires
        resets_match(old(fr)@, t),
    ensures
        resets_match(final(fr)@, insert_entry(t, key@, (*x, *v))),
{
    proof {
        assert(keys_of(t) =~= string_keys(fr@));
        lemma_key_index_bounds(string_keys(fr@), key@);
    }
    let stmt = Statement::Assignment { comp: copy_cref(x), value: copy_expression(v) };
    let name = crate::text::chars_to_string(key);
    let ghost f0 = fr@;
    match key_position(fr, key) {
        Some(i) => {
            fr.set(i, (name, stmt));
            proof {
                let t2 = insert_entry(t, key@, (*x, *v));
                assert forall|k: int| 0 <= k < fr@.len() implies (#[trigger] fr@[k]).0@ == t2[k].0 && match fr@[k].1 {
                    Statement::Assignment { comp, value } => same_cref((t2[k].1).0, comp) && same_expr((t2[k].1).1, value),
                    _ => false,
                } by {
                    if k != i {
                        assert(fr@[k] == f0[k]);
                    }
                }
            }
        },
        None => {
            fr.push((name, stmt));
            proof {
                let t2 = insert_entry(t, key@, (*x, *v));
                assert forall|k: int| 0 <= k < fr@.len() implies (#[trigger] fr@[k]).0@ == t2[k].0 && match fr@[k].1 {
                    Statement::Assignment { comp, value } => same_cref((t2[k].1).0, comp) && same_expr((t2[k].1).1, value),
                    _ => false,
                } by {
                    if k < f0.len() {
                        assert(fr@[k] == f0[k]);
                    }
                }
            }
        },
    }
}

/// Whether a reference is `reinit`.
fn is_reinit_ref(comp: &ComponentReference) -> (r: bool)
    ensures
        r == (cref_name(*comp) == reinit_name()),
{
    let name = cref_name_exec(comp);
    let d: &[char] = &['r', 'e', 'i', 'n', 'i', 't'];
    assert(d@ =~= reinit_name());
    crate::lexer::chars_equal(&name, d)
}

/// Adds the resets of the equations of a `when` block.
fn add_block_resets(fr: &mut Vec<(String, Statement)>, Ghost(t): Ghost<Seq<Reset>>, key: &Vec<char>, eqs: &Vec<Equation>)
    requires
        resets_match(old(fr)@, reset_table(t)),
    ensures
        resets_match(final(fr)@, reset_table(t + block_resets(key@, eqs@))),
{
    let mut i: usize = 0;
    proof {
        assert(t + block_resets(key@, eqs@.take(0)) =~= t);
    }
    while i < eqs.len()
        invariant
            i <= eqs@.len(),
            resets_match(fr@, reset_table(t + block_resets(key@, eqs@.take(i as int)))),
        decreases eqs.len() - i,
    {
        let ghost acc = t + block_resets(key@, eqs@.take(i as int));
        proof {
            let s1 = eqs@.take(i as int + 1);
            assert(s1.drop_last() =~= eqs@.take(i as int));
            assert(s1.last() == eqs@[i as int]);
        }
        match &eqs[i] {
            Equation::FunctionCall { comp, args } => {
                if is_reinit_ref(comp) && args.len() == 2 {
                    match &args[0] {
                        Expression::ComponentReference(x) => {
                            add_reset(fr, Ghost(reset_table(acc)), key, x, &args[1]);
                            proof {
                                let e = (key@, (*x, args@[1]));
                                assert(t + block_resets(key@, eqs@.take(i as int + 1)) =~= acc.push(e));
                                assert(acc.push(e).drop_last() =~= acc);
                            }
                        },
                        _ => {
                            proof {
                                assert(t + block_resets(key@, eqs@.take(i as int + 1)) =~= acc);
                            }
                        },
                    }
                } else {
                    proof {
                        assert(t + block_resets(key@, eqs@.take(i as int + 1)) =~= acc);
                    }
                }
            },
            _ => {
                proof {
                    assert(t + block_resets(key@, eqs@.take(i as int + 1)) =~= acc);
                }
            },
        }
        i = i + 1;
    }
    proof {
        assert(eqs@.take(i as int) =~= eqs@);
    }
}

/// Adds the resets of `when` blocks.
fn add_blocks_resets(fr: &mut Vec<(String, Statement)>, Ghost(t): Ghost<Seq<Reset>>, bs: &Vec<EquationBlock>)
    requires
        resets_match(old(fr)@, reset_table(t)),
    ensures
        resets_match(final(fr)@, reset_table(t + blocks_resets(bs@))),
{
    let mut j: usize = 0;
    proof {
        assert(t + blocks_resets(bs@.take(0)) =~= t);
    }
    while j < bs.len()
        invariant
            j <= bs@.len(),
            resets_match(fr@, reset_table(t + blocks_resets(bs@.take(j as int)))),
        decreases bs.len() - j,
    {
        let ghost acc = t + blocks_resets(bs@.take(j as int));
        proof {
            let s1 = bs@.take(j as int + 1);
            assert(s1.drop_last() =~= bs@.take(j as int));
            assert(s1.last() == bs@[j as int]);
        }
        match &bs[j].cond {
            Expression::ComponentReference(c) => {
                let key = cref_name_exec(c);
                add_block_resets(fr, Ghost(acc), &key, &bs[j].eqs);
                proof {
                    assert(t + blocks_resets(bs@.take(j as int + 1)) =~= acc + block_resets(key@, bs@[j as int].eqs@));
                }
            },
            _ => {
                proof {
                    assert(t + blocks_resets(bs@.take(j as int + 1)) =~= acc);
                }
            },
        }
        j = j + 1;
    }
    proof {
        assert(bs@.take(j as int) =~= bs@);
    }
}

/// The reset assignments of the `when` equations among `eqs`.
fn reset_assignments(eqs: &Vec<Equation>) -> (r: Vec<(String, Statement)>)
    ensures
        resets_match(r@, reset_table(resets(eqs@))),
{
    let mut fr: Vec<(String, Statement)> = Vec::new();
    let mut i: usize = 0;
    proof {
        assert(resets(eqs@.take(0)) =~= seq![]);
    }
    while i < eqs.len()
        invariant
            i <= eqs@.len(),
            resets_match(fr@, reset_table(resets(eqs@.take(i as int)))),
        decreases eqs.len() - i,
    {
        let ghost acc = resets(eqs@.take(i as int));
        proof {
            let s1 = eqs@.take(i as int + 1);
            assert(s1.drop_last() =~= eqs@.take(i as int));
            assert(s1.last() == eqs@[i as int]);
        }
        match &eqs[i] {
            Equation::When(bs) => {
                add_blocks_resets(&mut fr, Ghost(acc), bs);
            },
            _ => {
                proof {
                    assert(resets(eqs@.take(i as int + 1)) =~= acc);
                }
            },
        }
        i = i + 1;
    }
    proof {
        assert(eqs@.take(i as int) =~= eqs@);
    }
    fr
}

// ---------------------------------------------------------------------------
// The DAE of a class
// ---------------------------------------------------------------------------

/// An equation of a `when` block that the DAE form accepts: a call, and a
/// `reinit` call has two arguments, the first of which ends as a reference.
pub open spec fn when_eq_ok(eq: Equation) -> bool {
    match eq {
        Equation::FunctionCall { comp, args } => cref_name(comp) == reinit_name() ==> args@.len() == 2 && der_chain(
            args@[0],
        ) is Some,
        _ => false,
    }
}

/// An equation of the class that the DAE form accepts: no `connect`
/// (flattening expands those), and `when` blocks of accepted equations.
pub open spec fn top_level_ok(eq: Equation) -> bool {
    match eq {
        Equation::Connect { .. } => false,
        Equation::When(blocks) => forall|j: int, q: int|
            0 <= j < blocks@.len() && 0 <= q < blocks@[j].eqs@.len() ==> when_eq_ok(#[trigger] blocks@[j].eqs@[q]),
        _ => true,
    }
}

/// A flattened class that can be put in DAE form.
pub open spec fn dae_ready(c: ClassDefinition) -> bool {
    &&& eqs_ders_ok(c.equations@)
    &&& forall|t: int| 0 <= t < c.equations@.len() ==> top_level_ok(#[trigger] c.equations@[t])
}

/// Puts a flattened class in DAE form.
///
/// The class's equations are rewritten: each `der(x)` of a reference
/// becomes the reference `der_x`, and the condition of each `when` block a
/// condition variable `__c<i>`, numbered as `eq_conds` lists them. The
/// components are sorted by `slot`, the states being the variables found
/// differentiated; the simple and `if` equations become the continuous
/// equations, and each `reinit(x, v)` in a `when` block a reset `x := v`
/// at the block's condition variable.
pub fn create_dae(fclass: &mut ClassDefinition) -> (r: Dae)
    requires
        dae_ready(*old(fclass)),
    ensures
        r.model_hash@ == Seq::<char>::empty(),
        exists|mid: Seq<Equation>|
            eqs_replaced(old(fclass).equations@, mid) && eqs_conds_replaced(mid, final(fclass).equations@, 0)
                && #[trigger] conds_pushed(seq![], r.fc@, eqs_conds(mid)),
        final(fclass).name == old(fclass).name,
        final(fclass).class_type == old(fclass).class_type,
        final(fclass).encapsulated == old(fclass).encapsulated,
        final(fclass).extends == old(fclass).extends,
        final(fclass).imports == old(fclass).imports,
        final(fclass).classes == old(fclass).classes,
        final(fclass).components == old(fclass).components,
        final(fclass).initial_equations == old(fclass).initial_equations,
        final(fclass).algorithms == old(fclass).algorithms,
        final(fclass).initial_algorithms == old(fclass).initial_algorithms,
        components_sorted(r, old(fclass).components@, eqs_found_states(old(fclass).equations@)),
        r.z@.len() == 0,
        entry_views(r.pre_x@) == prefixed_entries(entry_views(r.x@), pre_underscore()),
        entry_views(r.pre_m@) == prefixed_entries(entry_views(r.m@), pre_underscore()),
        r.pre_z@.len() == 0,
        r.c@.len() == r.fc@.len(),
        forall|i: int| 0 <= i < r.c@.len() ==> (#[trigger] r.c@[i])@ == cond_name(i as nat),
        eq_copies(continuous_eqs(final(fclass).equations@), r.fx@),
        r.fz@.len() == 0,
        r.fm@.len() == 0,
        resets_match(r.fr@, reset_table(resets(final(fclass).equations@))),
{
    let mut eqs: Vec<Equation> = Vec::new();
    std::mem::swap(&mut eqs, &mut fclass.equations);
    let mut states: Vec<Vec<char>> = Vec::new();
    let mid = replace_states_eqs(eqs, &mut states);
    let ghost mid_v = mid@;
    let mut conds: Vec<(String, Expression)> = Vec::new();
    proof {
        assert(conds@ =~= seq![]);
    }
    let fin = replace_conditions_eqs(mid, &mut conds);
    fclass.equations = fin;
    proof {
        assert(views(states@) =~= eqs_found_states(old(fclass).equations@));
    }
    let mut d = Dae {
        p: Vec::new(),
        cp: Vec::new(),
        x: Vec::new(),
        x_dot: Vec::new(),
        y: Vec::new(),
        u: Vec::new(),
        pre_z: Vec::new(),
        pre_x: Vec::new(),
        pre_m: Vec::new(),
        z: Vec::new(),
        m: Vec::new(),
        c: Vec::new(),
        fx: Vec::new(),
        fz: Vec::new(),
        fm: Vec::new(),
        fr: Vec::new(),
        fc: Vec::new(),
        model_hash: String::new(),
    };
    sort_components(&mut d, &fclass.components, &states);
    d.pre_x = pre_positions(&d.x);
    d.pre_m = pre_positions(&d.m);
    d.pre_z = pre_positions(&d.z);
    proof {
        assert(entry_views(d.z@) =~= seq![]);
        assert(entry_views(d.pre_z@) =~= seq![]);
    }
    let mut names: Vec<String> = Vec::new();
    let mut i: usize = 0;
    while i < conds.len()
        invariant
            i <= conds@.len(),
            names@.len() == i,
            conds_pushed(seq![], conds@, eqs_conds(mid_v)),
            forall|k: int| 0 <= k < i ==> (#[trigger] names@[k])@ == cond_name(k as nat),
        decreases conds.len() - i,
    {
        names.push(conds[i].0.clone());
        proof {
            assert(conds@[0 + i as int] == conds@[i as int]);
        }
        i = i + 1;
    }
    d.c = names;
    d.fc = conds;
    d.fx = continuous_equations(&fclass.equations);
    d.fr = reset_assignments(&fclass.equations);
    d.model_hash = String::new();
    proof {
        assert(eqs_replaced(old(fclass).equations@, mid_v) && eqs_conds_replaced(mid_v, fclass.equations@, 0)
            && conds_pushed(seq![], d.fc@, eqs_conds(mid_v)));
    }
    d
}

// ---------------------------------------------------------------------------
// Checking that a class can be put in DAE form
// ---------------------------------------------------------------------------

/// The reference a chain of `der` ends in, if it does (see `der_chain`).
fn chain_base(e: &Expression) -> (r: Option<&ComponentReference>)
    ensures
        match r {
            Some(c) => der_chain(*e) is Some && der_chain(*e).unwrap().1 == *c,
            None => der_chain(*e) is None,
        },
    decreases e,
{
    match e {
        Expression::ComponentReference(c) => Some(c),
        Expression::FunctionCall { comp, args } => {
            if is_der_ref(comp) && args.len() > 0 {
                chain_base(&args[0])
            } else {
                None
            }
        },
        _ => None,
    }
}

/// Whether every `der` in an expression is well formed (see `ders_ok`).
pub fn check_ders(e: &Expression) -> (r: bool)
    ensures
        r == ders_ok(*e),
    decreases e, 1nat,
{
    match e {
        Expression::FunctionCall { comp, args } => {
            if is_der_ref(comp) {
                if args.len() == 0 {
                    return false;
                }
                match chain_base(&args[0]) {
                    Some(c) => {
                        if c.parts.len() == 0 {
                            return false;
                        }
                    },
                    None => {},
                }
            }
            check_ders_list(args)
        },
        Expression::Unary { rhs, .. } => check_ders(rhs),
        Expression::Binary { lhs, rhs, .. } => check_ders(lhs) && check_ders(rhs),
        Expression::Array { elements } => check_ders_list(elements),
        Expression::Tuple { elements } => check_ders_list(elements),
        Expression::Range { start, step, end } => check_ders(start) && check_ders(end) && match step {
            Some(s) => check_ders(s),
            None => true,
        },
        Expression::If { branches, else_branch } => check_ders_branches(branches) && check_ders(else_branch),
        Expression::NamedArgument { value, .. } => check_ders(value),
        _ => true,
    }
}

fn check_ders_list(es: &Vec<Expression>) -> (r: bool)
    ensures
        r == all_ders_ok(es@),
    decreases es, 0nat,
{
    let mut i: usize = 0;
    while i < es.len()
        invariant
            i <= es@.len(),
            all_ders_ok(es@.take(i as int)),
        decreases es.len() - i,
    {
        proof {
            let t = es@.take(i as int + 1);
            assert(t.drop_last() =~= es@.take(i as int));
            assert(t.last() == es@[i as int]);
            assert(decreases_to!(es => es@[i as int]));
        }
        if !check_ders(&es[i]) {
            proof {
                if all_ders_ok(es@) {
                    lemma_all_ders_ok_index(es@, i as int);
                }
            }
            return false;
        }
        i = i + 1;
    }
    assert(es@.take(i as int) =~= es@);
    true
}

fn check_ders_branches(bs: &Vec<ExpressionBranch>) -> (r: bool)
    ensures
        r == branches_ders_ok(bs@),
    decreases bs, 0nat,
{
    let mut i: usize = 0;
    while i < bs.len()
        invariant
            i <= bs@.len(),
            branches_ders_ok(bs@.take(i as int)),
        decreases bs.len() - i,
    {
        proof {
            let t = bs@.take(i as int + 1);
            assert(t.drop_last() =~= bs@.take(i as int));
            assert(t.last() == bs@[i as int]);
            assert(decreases_to!(bs => bs@[i as int]));
        }
        if !check_ders(&bs[i].cond) || !check_ders(&bs[i].value) {
            proof {
                if branches_ders_ok(bs@) {
                    lemma_branches_ders_ok_index(bs@, i as int);
                }
            }
            return false;
        }
        i = i + 1;
    }
    assert(bs@.take(i as int) =~= bs@);
    true
}

/// Whether every `der` in an equation is well formed (see `eq_ders_ok`).
pub fn check_eq_ders(eq: &Equation) -> (r: bool)
    ensures
        r == eq_ders_ok(*eq),
    decreases eq, 1nat,
{
    match eq {
        Equation::Simple { lhs, rhs } => check_ders(lhs) && check_ders(rhs),
        Equation::FunctionCall { args, .. } => check_ders_list(args),
        Equation::For { indices, equations } => check_indices_ders(indices) && check_eqs_ders(equations),
        Equation::When(blocks) => check_blocks_ders(blocks),
        Equation::If { cond_blocks, else_block } => check_blocks_ders(cond_blocks) && match else_block {
            Some(x) => check_eqs_ders(x),
            None => true,
        },
        _ => true,
    }
}

fn check_eqs_ders(es: &Vec<Equation>) -> (r: bool)
    ensures
        r == eqs_ders_ok(es@),
    decreases es, 0nat,
{
    let mut i: usize = 0;
    while i < es.len()
        invariant
            i <= es@.len(),
            eqs_ders_ok(es@.take(i as int)),
        decreases es.len() - i,
    {
        proof {
            let t = es@.take(i as int + 1);
            assert(t.drop_last() =~= es@.take(i as int));
            assert(t.last() == es@[i as int]);
            assert(decreases_to!(es => es@[i as int]));
        }
        if !check_eq_ders(&es[i]) {
            proof {
                if eqs_ders_ok(es@) {
                    lemma_eqs_ders_ok_index(es@, i as int);
                }
            }
            return false;
        }
        i = i + 1;
    }
    assert(es@.take(i as int) =~= es@);
    true
}

fn check_blocks_ders(bs: &Vec<EquationBlock>) -> (r: bool)
    ensures
        r == blocks_ders_ok(bs@),
    decreases bs, 0nat,
{
    let mut i: usize = 0;
    while i < bs.len()
        invariant
            i <= bs@.len(),
            blocks_ders_ok(bs@.take(i as int)),
        decreases bs.len() - i,
    {
        proof {
            let t = bs@.take(i as int + 1);
            assert(t.drop_last() =~= bs@.take(i as int));
            assert(t.last() == bs@[i as int]);
            assert(decreases_to!(bs => bs@[i as int]));
            assert(decreases_to!(bs@[i as int] => bs@[i as int].eqs));
        }
        if !check_ders(&bs[i].cond) || !check_eqs_ders(&bs[i].eqs) {
            proof {
                if blocks_ders_ok(bs@) {
                    lemma_blocks_ders_ok_index(bs@, i as int);
                }
            }
            return false;
        }
        i = i + 1;
    }
    assert(bs@.take(i as int) =~= bs@);
    true
}

fn check_indices_ders(xs: &Vec<ForIndex>) -> (r: bool)
    ensures
        r == indices_ders_ok(xs@),
    decreases xs, 0nat,
{
    let mut i: usize = 0;
    while i < xs.len()
        invariant
            i <= xs@.len(),
            indices_ders_ok(xs@.take(i as int)),
        decreases xs.len() - i,
    {
        proof {
            let t = xs@.take(i as int + 1);
            assert(t.drop_last() =~= xs@.take(i as int));
            assert(t.last() == xs@[i as int]);
            assert(decreases_to!(xs => xs@[i as int]));
        }
        if !check_ders(&xs[i].range) {
            proof {
                if indices_ders_ok(xs@) {
                    lemma_indices_ders_ok_index(xs@, i as int);
                }
            }
            return false;
        }
        i = i + 1;
    }
    assert(xs@.take(i as int) =~= xs@);
    true
}

/// Whether an equation of a `when` block is accepted (see `when_eq_ok`).
fn check_when_eq(eq: &Equation) -> (r: bool)
    ensures
        r == when_eq_ok(*eq),
{
    match eq {
        Equation::FunctionCall { comp, args } => {
            if is_reinit_ref(comp) {
                args.len() == 2 && chain_base(&args[0]).is_some()
            } else {
                true
            }
        },
        _ => false,
    }
}

/// Whether an equation of the class is accepted (see `top_level_ok`).
fn check_top_level(eq: &Equation) -> (r: bool)
    ensures
        r == top_level_ok(*eq),
{
    match eq {
        Equation::Connect { .. } => false,
        Equation::When(blocks) => {
            let mut j: usize = 0;
            while j < blocks.len()
                invariant
                    j <= blocks@.len(),
                    *eq == Equation::When(*blocks),
                    forall|a: int, q: int|
                        0 <= a < j && 0 <= q < blocks@[a].eqs@.len() ==> when_eq_ok(#[trigger] blocks@[a].eqs@[q]),
                decreases blocks.len() - j,
            {
                let b = &blocks[j];
                let mut q: usize = 0;
                while q < b.eqs.len()
                    invariant
                        q <= b.eqs@.len(),
                        j < blocks@.len(),
                        *b == blocks@[j as int],
                        *eq == Equation::When(*blocks),
                        forall|k: int| 0 <= k < q ==> when_eq_ok(#[trigger] b.eqs@[k]),
                    decreases b.eqs.len() - q,
                {
                    if !check_when_eq(&b.eqs[q]) {
                        assert(!when_eq_ok(blocks@[j as int].eqs@[q as int]));
                        return false;
                    }
                    q = q + 1;
                }
                j = j + 1;
            }
            true
        },
        _ => true,
    }
}

/// Whether a class can be put in DAE form (see `dae_ready`).
pub fn is_dae_ready(c: &ClassDefinition) -> (r: bool)
    ensures
        r == dae_ready(*c),
{
    if !check_eqs_ders(&c.equations) {
        return false;
    }
    let mut t: usize = 0;
    while t < c.equations.len()
        invariant
            t <= c.equations@.len(),
            forall|k: int| 0 <= k < t ==> top_level_ok(#[trigger] c.equations@[k]),
        decreases c.equations.len() - t,
    {
        if !check_top_level(&c.equations[t]) {
            return false;
        }
        t = t + 1;
    }
    true
}

/// The MD5 digest of a text's UTF-8 bytes, in lower-case hexadecimal.
pub uninterp spec fn md5_hex(s: Seq<char>) -> Seq<char>;

/// Calls `chksum_md5::hash` on the bytes of `source` and writes the digest
/// with its `LowerHex` format. The contract claims only that the result is
/// a function of the source text, named `md5_hex`; nothing of what MD5
/// computes is stated.
#[verifier::external_body]
fn md5_lower_hex(source: &str) -> (r: String)
    ensures
        r@ == md5_hex(source@),
{
    format!("{:x}", chksum_md5::hash(source))
}

/// Records in a DAE the MD5 digest of the source it was made from, leaving
/// everything else as it was.
pub fn stamp_model_hash(dae: &mut Dae, source: &str)
    ensures
        final(dae).model_hash@ == md5_hex(source@),
        final(dae).p == old(dae).p,
        final(dae).cp == old(dae).cp,
        final(dae).x == old(dae).x,
        final(dae).x_dot == old(dae).x_dot,
        final(dae).y == old(dae).y,
        final(dae).u == old(dae).u,
        final(dae).pre_z == old(dae).pre_z,
        final(dae).pre_x == old(dae).pre_x,
        final(dae).pre_m == old(dae).pre_m,
        final(dae).z == old(dae).z,
        final(dae).m == old(dae).m,
        final(dae).c == old(dae).c,
        final(dae).fx == old(dae).fx,
        final(dae).fz == old(dae).fz,
        final(dae).fm == old(dae).fm,
        final(dae).fr == old(dae).fr,
        final(dae).fc == old(dae).fc,
{
    dae.model_hash = md5_lower_hex(source);
}

} // verus!
