//! The undefined-reference lint: every use of a name that is neither
//! declared in the class, bound by an enclosing `for`, nor global.
use vstd::prelude::*;
use crate::ast::{
    ClassDefinition, Component, ComponentRefPart, ComponentReference, Equation, EquationBlock, Expression,
    ExpressionBranch, ForIndex, Statement, StatementBlock, Subscript, Token,
};
use crate::lint::{emit, join3, lint_views, LintLevel, LintMessage, LintResult, LintView};
use crate::names::{string_position, string_views};

verus! {

// ---------------------------------------------------------------------------
// What is reported
// ---------------------------------------------------------------------------

/// Whether a name is in scope or global.
pub open spec fn known(n: Seq<char>, scope: Seq<Seq<char>>, globals: Seq<Seq<char>>) -> bool {
    scope.contains(n) || globals.contains(n)
}

/// The message for a use of an undefined name.
pub open spec fn undefined_message(t: Token, file: Seq<char>) -> LintView {
    (
        "undefined-reference"@,
        LintLevel::Error,
        "Undefined variable '"@ + t.text@ + "'"@,
        file,
        t.location.start_line,
        t.location.start_column,
        Some("Check for typos or ensure the variable is declared"@),
    )
}

/// The messages of an expression: of its references, of the subscripts of
/// the functions it calls (not of their names), and of its operands, in order.
pub open spec fn expr_undef(e: Expression, f: Seq<char>, s: Seq<Seq<char>>, g: Seq<Seq<char>>) -> Seq<LintView>
    decreases e, 0nat,
{
    match e {
        Expression::ComponentReference(c) => cref_undef(c, f, s, g),
        Expression::FunctionCall { comp, args } => parts_undef(comp.parts@, f, s, g) + exprs_undef(args@, f, s, g),
        Expression::Unary { rhs, .. } => expr_undef(*rhs, f, s, g),
        Expression::Binary { lhs, rhs, .. } => expr_undef(*lhs, f, s, g) + expr_undef(*rhs, f, s, g),
        Expression::Array { elements } => exprs_undef(elements@, f, s, g),
        Expression::Tuple { elements } => exprs_undef(elements@, f, s, g),
        Expression::If { branches, else_branch } => branches_undef(branches@, f, s, g) + expr_undef(
            *else_branch,
            f,
            s,
            g,
        ),
        Expression::Range { start, step, end } => expr_undef(*start, f, s, g) + (match step {
            Some(x) => expr_undef(*x, f, s, g),
            None => seq![],
        }) + expr_undef(*end, f, s, g),
        Expression::NamedArgument { value, .. } => expr_undef(*value, f, s, g),
        _ => seq![],
    }
}

/// The messages of a reference: its first part's name where it is unknown,
/// then the subscripts of all its parts.
pub open spec fn cref_undef(c: ComponentReference, f: Seq<char>, s: Seq<Seq<char>>, g: Seq<Seq<char>>) -> Seq<LintView>
    decreases c, 1nat,
{
    (if c.parts@.len() > 0 && !known(c.parts@[0].ident.text@, s, g) {
        seq![undefined_message(c.parts@[0].ident, f)]
    } else {
        seq![]
    }) + parts_undef(c.parts@, f, s, g)
}

/// The messages of the subscripts of reference parts.
pub open spec fn parts_undef(ps: Seq<ComponentRefPart>, f: Seq<char>, s: Seq<Seq<char>>, g: Seq<Seq<char>>) -> Seq<LintView>
    decreases ps, 0nat,
{
    if ps.len() == 0 {
        seq![]
    } else {
        parts_undef(ps.drop_last(), f, s, g) + match ps.last().subs {
            Some(ss) => subs_undef(ss@, f, s, g),
            None => seq![],
        }
    }
}

/// The messages of expression subscripts.
pub open spec fn subs_undef(ss: Seq<Subscript>, f: Seq<char>, s: Seq<Seq<char>>, g: Seq<Seq<char>>) -> Seq<LintView>
    decreases ss, 0nat,
{
    if ss.len() == 0 {
        seq![]
    } else {
        subs_undef(ss.drop_last(), f, s, g) + match ss.last() {
            Subscript::Expression(e) => expr_undef(e, f, s, g),
            _ => seq![],
        }
    }
}

/// The messages of expressions, one after another.
pub open spec fn exprs_undef(es: Seq<Expression>, f: Seq<char>, s: Seq<Seq<char>>, g: Seq<Seq<char>>) -> Seq<LintView>
    decreases es, 0nat,
{
    if es.len() == 0 {
        seq![]
    } else {
        exprs_undef(es.drop_last(), f, s, g) + expr_undef(es.last(), f, s, g)
    }
}

/// The messages of the branches of an if-expression.
pub open spec fn branches_undef(bs: Seq<ExpressionBranch>, f: Seq<char>, s: Seq<Seq<char>>, g: Seq<Seq<char>>) -> Seq<LintView>
    decreases bs, 0nat,
{
    if bs.len() == 0 {
        seq![]
    } else {
        branches_undef(bs.drop_last(), f, s, g) + expr_undef(bs.last().cond, f, s, g) + expr_undef(
            bs.last().value,
            f,
            s,
            g,
        )
    }
}

/// The scope with the names of the first `n` indices added, the latest first.
pub open spec fn bind(xs: Seq<ForIndex>, n: int, s: Seq<Seq<char>>) -> Seq<Seq<char>>
    decreases n,
{
    if n <= 0 {
        s
    } else {
        seq![xs[n - 1].ident.text@] + bind(xs, n - 1, s)
    }
}

/// The messages of the ranges of the first `n` indices, each under the scope
/// that binds the indices up to it.
pub open spec fn indices_undef(xs: Seq<ForIndex>, n: int, f: Seq<char>, s: Seq<Seq<char>>, g: Seq<Seq<char>>) -> Seq<LintView>
    decreases n,
{
    if n <= 0 {
        seq![]
    } else {
        indices_undef(xs, n - 1, f, s, g) + expr_undef(xs[n - 1].range, f, bind(xs, n, s), g)
    }
}

/// The messages of an equation. The name of a called function is not checked.
pub open spec fn eq_undef(eq: Equation, f: Seq<char>, s: Seq<Seq<char>>, g: Seq<Seq<char>>) -> Seq<LintView>
    decreases eq, 0nat,
{
    match eq {
        Equation::Simple { lhs, rhs } => expr_undef(lhs, f, s, g) + expr_undef(rhs, f, s, g),
        Equation::Connect { lhs, rhs } => cref_undef(lhs, f, s, g) + cref_undef(rhs, f, s, g),
        Equation::For { indices, equations } => indices_undef(indices@, indices@.len() as int, f, s, g) + eqs_undef(
            equations@,
            f,
            bind(indices@, indices@.len() as int, s),
            g,
        ),
        Equation::When(blocks) => eq_blocks_undef(blocks@, f, s, g),
        Equation::If { cond_blocks, else_block } => eq_blocks_undef(cond_blocks@, f, s, g) + match else_block {
            Some(x) => eqs_undef(x@, f, s, g),
            None => seq![],
        },
        Equation::FunctionCall { args, .. } => exprs_undef(args@, f, s, g),
        _ => seq![],
    }
}

/// The messages of equations.
pub open spec fn eqs_undef(eqs: Seq<Equation>, f: Seq<char>, s: Seq<Seq<char>>, g: Seq<Seq<char>>) -> Seq<LintView>
    decreases eqs, 0nat,
{
    if eqs.len() == 0 {
        seq![]
    } else {
        eqs_undef(eqs.drop_last(), f, s, g) + eq_undef(eqs.last(), f, s, g)
    }
}

/// The messages of guarded blocks: condition, then equations.
pub open spec fn eq_blocks_undef(bs: Seq<EquationBlock>, f: Seq<char>, s: Seq<Seq<char>>, g: Seq<Seq<char>>) -> Seq<LintView>
    decreases bs, 0nat,
{
    if bs.len() == 0 {
        seq![]
    } else {
        eq_blocks_undef(bs.drop_last(), f, s, g) + expr_undef(bs.last().cond, f, s, g) + eqs_undef(
            bs.last().eqs@,
            f,
            s,
            g,
        )
    }
}

/// The messages of a statement. The name of a called function is not checked.
pub open spec fn st_undef(st: Statement, f: Seq<char>, s: Seq<Seq<char>>, g: Seq<Seq<char>>) -> Seq<LintView>
    decreases st, 0nat,
{
    match st {
        Statement::Assignment { comp, value } => cref_undef(comp, f, s, g) + expr_undef(value, f, s, g),
        Statement::FunctionCall { args, .. } => exprs_undef(args@, f, s, g),
        Statement::For { indices, equations } => indices_undef(indices@, indices@.len() as int, f, s, g) + sts_undef(
            equations@,
            f,
            bind(indices@, indices@.len() as int, s),
            g,
        ),
        Statement::While(block) => expr_undef(block.cond, f, s, g) + sts_undef(block.stmts@, f, s, g),
        Statement::If { cond_blocks, else_block } => st_blocks_undef(cond_blocks@, f, s, g) + match else_block {
            Some(x) => sts_undef(x@, f, s, g),
            None => seq![],
        },
        Statement::When(blocks) => st_blocks_undef(blocks@, f, s, g),
        _ => seq![],
    }
}

/// The messages of statements.
pub open spec fn sts_undef(sts: Seq<Statement>, f: Seq<char>, s: Seq<Seq<char>>, g: Seq<Seq<char>>) -> Seq<LintView>
    decreases sts, 0nat,
{
    if sts.len() == 0 {
        seq![]
    } else {
        sts_undef(sts.drop_last(), f, s, g) + st_undef(sts.last(), f, s, g)
    }
}

/// The messages of guarded statement blocks.
pub open spec fn st_blocks_undef(bs: Seq<StatementBlock>, f: Seq<char>, s: Seq<Seq<char>>, g: Seq<Seq<char>>) -> Seq<LintView>
    decreases bs, 0nat,
{
    if bs.len() == 0 {
        seq![]
    } else {
        st_blocks_undef(bs.drop_last(), f, s, g) + expr_undef(bs.last().cond, f, s, g) + sts_undef(
            bs.last().stmts@,
            f,
            s,
            g,
        )
    }
}

/// The messages of algorithm sections.
pub open spec fn algs_undef(a: Seq<Vec<Statement>>, f: Seq<char>, s: Seq<Seq<char>>, g: Seq<Seq<char>>) -> Seq<LintView>
    decreases a.len(),
{
    if a.len() == 0 {
        seq![]
    } else {
        algs_undef(a.drop_last(), f, s, g) + sts_undef(a.last()@, f, s, g)
    }
}

/// The messages of the bindings of components.
pub open spec fn starts_undef(cs: Seq<Component>, f: Seq<char>, s: Seq<Seq<char>>, g: Seq<Seq<char>>) -> Seq<LintView>
    decreases cs.len(),
{
    if cs.len() == 0 {
        seq![]
    } else {
        starts_undef(cs.drop_last(), f, s, g) + expr_undef(cs.last().start, f, s, g)
    }
}

/// The messages of a class, with `s` the names it declares: of its equations,
/// initial equations, algorithms, initial algorithms, then of the bindings of
/// its components.
pub open spec fn class_undef(c: ClassDefinition, f: Seq<char>, s: Seq<Seq<char>>, g: Seq<Seq<char>>) -> Seq<LintView> {
    eqs_undef(c.equations@, f, s, g) + eqs_undef(c.initial_equations@, f, s, g) + algs_undef(c.algorithms@, f, s, g)
        + algs_undef(c.initial_algorithms@, f, s, g) + starts_undef(c.components@, f, s, g)
}

// ---------------------------------------------------------------------------
// Checking
// ---------------------------------------------------------------------------

/// Reports the first part of a reference where its name is unknown.
fn check_first(c: &ComponentReference, file: &str, scope: &Vec<String>, globals: &Vec<String>, result: &mut LintResult)
    ensures
        lint_views(final(result).messages@) == lint_views(old(result).messages@) + (if c.parts@.len() > 0 && !known(
            c.parts@[0].ident.text@,
            string_views(scope@),
            string_views(globals@),
        ) {
            seq![undefined_message(c.parts@[0].ident, file@)]
        } else {
            seq![]
        }),
{
    let ghost v0 = lint_views(result.messages@);
    if c.parts.len() > 0 {
        let t = &c.parts[0].ident;
        let in_scope = string_position(scope, &t.text);
        let in_globals = string_position(globals, &t.text);
        if in_scope.is_none() && in_globals.is_none() {
            let m = LintMessage {
                rule: "undefined-reference".to_owned(),
                level: LintLevel::Error,
                message: join3("Undefined variable '", t.text.as_str(), "'"),
                file: file.to_owned(),
                line: t.location.start_line,
                column: t.location.start_column,
                suggestion: Some("Check for typos or ensure the variable is declared".to_owned()),
            };
            emit(result, m);
        } else {
            proof {
                match in_scope {
                    Some(k) => assert(string_views(scope@)[k as int] == t.text@),
                    None => {
                        let k = in_globals.unwrap();
                        assert(string_views(globals@)[k as int] == t.text@);
                    },
                }
            }
        }
    }
    assert(lint_views(result.messages@) =~= v0 + (if c.parts@.len() > 0 && !known(
        c.parts@[0].ident.text@,
        string_views(scope@),
        string_views(globals@),
    ) {
        seq![undefined_message(c.parts@[0].ident, file@)]
    } else {
        seq![]
    }));
}

fn check_expr(e: &Expression, file: &str, scope: &Vec<String>, globals: &Vec<String>, result: &mut LintResult)
    ensures
        lint_views(final(result).messages@) == lint_views(old(result).messages@) + expr_undef(
            *e,
            file@,
            string_views(scope@),
            string_views(globals@),
        ),
    decreases e, 2nat,
{
    let ghost v0 = lint_views(result.messages@);
    match e {
        Expression::ComponentReference(c) => check_cref(c, file, scope, globals, result),
        Expression::FunctionCall { comp, args } => {
            proof {
                assert(decreases_to!(comp => comp.parts));
            }
            check_parts(&comp.parts, file, scope, globals, result);
            check_exprs(args, file, scope, globals, result);
        },
        Expression::Unary { rhs, .. } => check_expr(rhs, file, scope, globals, result),
        Expression::Binary { lhs, rhs, .. } => {
            check_expr(lhs, file, scope, globals, result);
            check_expr(rhs, file, scope, globals, result);
        },
        Expression::Array { elements } => check_exprs(elements, file, scope, globals, result),
        Expression::Tuple { elements } => check_exprs(elements, file, scope, globals, result),
        Expression::If { branches, else_branch } => {
            check_branches(branches, file, scope, globals, result);
            check_expr(else_branch, file, scope, globals, result);
        },
        Expression::Range { start, step, end } => {
            check_expr(start, file, scope, globals, result);
            match step {
                Some(x) => check_expr(x, file, scope, globals, result),
                None => {},
            }
            check_expr(end, file, scope, globals, result);
        },
        Expression::NamedArgument { value, .. } => check_expr(value, file, scope, globals, result),
        _ => {},
    }
    assert(lint_views(result.messages@) =~= v0 + expr_undef(*e, file@, string_views(scope@), string_views(globals@)));
}

fn check_cref(c: &ComponentReference, file: &str, scope: &Vec<String>, globals: &Vec<String>, result: &mut LintResult)
    ensures
        lint_views(final(result).messages@) == lint_views(old(result).messages@) + cref_undef(
            *c,
            file@,
            string_views(scope@),
            string_views(globals@),
        ),
    decreases c, 1nat,
{
    let ghost v0 = lint_views(result.messages@);
    check_first(c, file, scope, globals, result);
    proof {
        assert(decreases_to!(c => c.parts));
    }
    check_parts(&c.parts, file, scope, globals, result);
    assert(lint_views(result.messages@) =~= v0 + cref_undef(*c, file@, string_views(scope@), string_views(globals@)));
}

fn check_parts(xs: &Vec<ComponentRefPart>, file: &str, scope: &Vec<String>, globals: &Vec<String>, result: &mut LintResult)
    ensures
        lint_views(final(result).messages@) == lint_views(old(result).messages@) + parts_undef(
            xs@,
            file@,
            string_views(scope@),
            string_views(globals@),
        ),
    decreases xs, 0nat,
{
    let ghost v0 = lint_views(result.messages@);
    let ghost s = string_views(scope@);
    let ghost g = string_views(globals@);
    let mut i: usize = 0;
    proof {
        assert(v0 + parts_undef(xs@.take(0), file@, s, g) =~= v0);
    }
    while i < xs.len()
        invariant
            i <= xs@.len(),
            s == string_views(scope@),
            g == string_views(globals@),
            lint_views(result.messages@) == v0 + parts_undef(xs@.take(i as int), file@, s, g),
        decreases xs.len() - i,
    {
        proof {
            let t = xs@.take(i as int + 1);
            assert(t.drop_last() =~= xs@.take(i as int));
            assert(t.last() == xs@[i as int]);
            assert(decreases_to!(xs => xs@[i as int]));
        }
        match &xs[i].subs {
            Some(ss) => {
                proof {
                    assert(decreases_to!(xs@[i as int] => xs@[i as int].subs));
                }
                check_subs(ss, file, scope, globals, result);
            },
            None => {},
        }
        proof {
            assert(lint_views(result.messages@) =~= v0 + parts_undef(xs@.take(i as int + 1), file@, s, g));
        }
        i = i + 1;
    }
    assert(xs@.take(i as int) =~= xs@);
}

fn check_subs(xs: &Vec<Subscript>, file: &str, scope: &Vec<String>, globals: &Vec<String>, result: &mut LintResult)
    ensures
        lint_views(final(result).messages@) == lint_views(old(result).messages@) + subs_undef(
            xs@,
            file@,
            string_views(scope@),
            string_views(globals@),
        ),
    decreases xs, 0nat,
{
    let ghost v0 = lint_views(result.messages@);
    let ghost s = string_views(scope@);
    let ghost g = string_views(globals@);
    let mut i: usize = 0;
    proof {
        assert(v0 + subs_undef(xs@.take(0), file@, s, g) =~= v0);
    }
    while i < xs.len()
        invariant
            i <= xs@.len(),
            s == string_views(scope@),
            g == string_views(globals@),
            lint_views(result.messages@) == v0 + subs_undef(xs@.take(i as int), file@, s, g),
        decreases xs.len() - i,
    {
        proof {
            let t = xs@.take(i as int + 1);
            assert(t.drop_last() =~= xs@.take(i as int));
            assert(t.last() == xs@[i as int]);
            assert(decreases_to!(xs => xs@[i as int]));
        }
        match &xs[i] {
            Subscript::Expression(e) => check_expr(e, file, scope, globals, result),
            _ => {},
        }
        proof {
            assert(lint_views(result.messages@) =~= v0 + subs_undef(xs@.take(i as int + 1), file@, s, g));
        }
        i = i + 1;
    }
    assert(xs@.take(i as int) =~= xs@);
}

fn check_exprs(xs: &Vec<Expression>, file: &str, scope: &Vec<String>, globals: &Vec<String>, result: &mut LintResult)
    ensures
        lint_views(final(result).messages@) == lint_views(old(result).messages@) + exprs_undef(
            xs@,
            file@,
            string_views(scope@),
            string_views(globals@),
        ),
    decreases xs, 0nat,
{
    let ghost v0 = lint_views(result.messages@);
    let ghost s = string_views(scope@);
    let ghost g = string_views(globals@);
    let mut i: usize = 0;
    proof {
        assert(v0 + exprs_undef(xs@.take(0), file@, s, g) =~= v0);
    }
    while i < xs.len()
        invariant
            i <= xs@.len(),
            s == string_views(scope@),
            g == string_views(globals@),
            lint_views(result.messages@) == v0 + exprs_undef(xs@.take(i as int), file@, s, g),
        decreases xs.len() - i,
    {
        proof {
            let t = xs@.take(i as int + 1);
            assert(t.drop_last() =~= xs@.take(i as int));
            assert(t.last() == xs@[i as int]);
            assert(decreases_to!(xs => xs@[i as int]));
        }
        check_expr(&xs[i], file, scope, globals, result);
        proof {
            assert(lint_views(result.messages@) =~= v0 + exprs_undef(xs@.take(i as int + 1), file@, s, g));
        }
        i = i + 1;
    }
    assert(xs@.take(i as int) =~= xs@);
}

fn check_branches(
    xs: &Vec<ExpressionBranch>,
    file: &str,
    scope: &Vec<String>,
    globals: &Vec<String>,
    result: &mut LintResult,
)
    ensures
        lint_views(final(result).messages@) == lint_views(old(result).messages@) + branches_undef(
            xs@,
            file@,
            string_views(scope@),
            string_views(globals@),
        ),
    decreases xs, 0nat,
{
    let ghost v0 = lint_views(result.messages@);
    let ghost s = string_views(scope@);
    let ghost g = string_views(globals@);
    let mut i: usize = 0;
    proof {
        assert(v0 + branches_undef(xs@.take(0), file@, s, g) =~= v0);
    }
    while i < xs.len()
        invariant
            i <= xs@.len(),
            s == string_views(scope@),
            g == string_views(globals@),
            lint_views(result.messages@) == v0 + branches_undef(xs@.take(i as int), file@, s, g),
        decreases xs.len() - i,
    {
        proof {
            let t = xs@.take(i as int + 1);
            assert(t.drop_last() =~= xs@.take(i as int));
            assert(t.last() == xs@[i as int]);
            assert(decreases_to!(xs => xs@[i as int]));
        }
        check_expr(&xs[i].cond, file, scope, globals, result);
        check_expr(&xs[i].value, file, scope, globals, result);
        proof {
            assert(lint_views(result.messages@) =~= v0 + branches_undef(xs@.take(i as int + 1), file@, s, g));
        }
        i = i + 1;
    }
    assert(xs@.take(i as int) =~= xs@);
}

/// Removes the first `n` names of a scope.
fn unbind(scope: &mut Vec<String>, n: usize)
    requires
        n <= old(scope)@.len(),
    ensures
        final(scope)@ == old(scope)@.skip(n as int),
{
    let ghost s0 = scope@;
    let mut k: usize = 0;
    while k < n
        invariant
            k <= n,
            n <= s0.len(),
            scope@ == s0.skip(k as int),
        decreases n - k,
    {
        scope.remove(0);
        assert(scope@ =~= s0.skip(k as int + 1));
        k = k + 1;
    }
}

/// Binds the indices one after another, checking each range under the scope
/// that binds the indices up to it; the indices stay bound.
fn check_indices(xs: &Vec<ForIndex>, file: &str, scope: &mut Vec<String>, globals: &Vec<String>, result: &mut LintResult)
    ensures
        final(scope)@.len() == old(scope)@.len() + xs@.len(),
        final(scope)@.skip(xs@.len() as int) == old(scope)@,
        string_views(final(scope)@) == bind(xs@, xs@.len() as int, string_views(old(scope)@)),
        lint_views(final(result).messages@) == lint_views(old(result).messages@) + indices_undef(
            xs@,
            xs@.len() as int,
            file@,
            string_views(old(scope)@),
            string_views(globals@),
        ),
{
    let ghost v0 = lint_views(result.messages@);
    let ghost s0 = scope@;
    let ghost g = string_views(globals@);
    let mut i: usize = 0;
    proof {
        assert(scope@.skip(0) =~= s0);
    }
    while i < xs.len()
        invariant
            i <= xs@.len(),
            g == string_views(globals@),
            scope@.len() == s0.len() + i,
            scope@.skip(i as int) == s0,
            string_views(scope@) == bind(xs@, i as int, string_views(s0)),
            lint_views(result.messages@) == v0 + indices_undef(xs@, i as int, file@, string_views(s0), g),
        decreases xs.len() - i,
    {
        let ghost before = scope@;
        scope.insert(0, xs[i].ident.text.clone());
        proof {
            assert(string_views(scope@) =~= seq![xs@[i as int].ident.text@] + string_views(before));
            assert(scope@.skip(i as int + 1) =~= before.skip(i as int));
        }
        check_expr(&xs[i].range, file, scope, globals, result);
        i = i + 1;
    }
}

fn check_eq(eq: &Equation, file: &str, scope: &mut Vec<String>, globals: &Vec<String>, result: &mut LintResult)
    ensures
        final(scope)@ == old(scope)@,
        lint_views(final(result).messages@) == lint_views(old(result).messages@) + eq_undef(
            *eq,
            file@,
            string_views(old(scope)@),
            string_views(globals@),
        ),
    decreases eq, 1nat,
{
    let ghost v0 = lint_views(result.messages@);
    let ghost s0 = scope@;
    match eq {
        Equation::Simple { lhs, rhs } => {
            check_expr(lhs, file, scope, globals, result);
            check_expr(rhs, file, scope, globals, result);
        },
        Equation::Connect { lhs, rhs } => {
            check_cref(lhs, file, scope, globals, result);
            check_cref(rhs, file, scope, globals, result);
        },
        Equation::For { indices, equations } => {
            check_indices(indices, file, scope, globals, result);
            check_eqs(equations, file, scope, globals, result);
            unbind(scope, indices.len());
        },
        Equation::When(blocks) => check_eq_blocks(blocks, file, scope, globals, result),
        Equation::If { cond_blocks, else_block } => {
            check_eq_blocks(cond_blocks, file, scope, globals, result);
            match else_block {
                Some(x) => check_eqs(x, file, scope, globals, result),
                None => {},
            }
        },
        Equation::FunctionCall { args, .. } => check_exprs(args, file, scope, globals, result),
        _ => {},
    }
    assert(lint_views(result.messages@) =~= v0 + eq_undef(*eq, file@, string_views(s0), string_views(globals@)));
}

fn check_eqs(xs: &Vec<Equation>, file: &str, scope: &mut Vec<String>, globals: &Vec<String>, result: &mut LintResult)
    ensures
        final(scope)@ == old(scope)@,
        lint_views(final(result).messages@) == lint_views(old(result).messages@) + eqs_undef(
            xs@,
            file@,
            string_views(old(scope)@),
            string_views(globals@),
        ),
    decreases xs, 0nat,
{
    let ghost v0 = lint_views(result.messages@);
    let ghost s0 = scope@;
    let ghost s = string_views(scope@);
    let ghost g = string_views(globals@);
    let mut i: usize = 0;
    proof {
        assert(v0 + eqs_undef(xs@.take(0), file@, s, g) =~= v0);
    }
    while i < xs.len()
        invariant
            i <= xs@.len(),
            scope@ == s0,
            s == string_views(s0),
            g == string_views(globals@),
            lint_views(result.messages@) == v0 + eqs_undef(xs@.take(i as int), file@, s, g),
        decreases xs.len() - i,
    {
        proof {
            let t = xs@.take(i as int + 1);
            assert(t.drop_last() =~= xs@.take(i as int));
            assert(t.last() == xs@[i as int]);
            assert(decreases_to!(xs => xs@[i as int]));
        }
        check_eq(&xs[i], file, scope, globals, result);
        proof {
            assert(lint_views(result.messages@) =~= v0 + eqs_undef(xs@.take(i as int + 1), file@, s, g));
        }
        i = i + 1;
    }
    assert(xs@.take(i as int) =~= xs@);
}

fn check_eq_blocks(
    xs: &Vec<EquationBlock>,
    file: &str,
    scope: &mut Vec<String>,
    globals: &Vec<String>,
    result: &mut LintResult,
)
    ensures
        final(scope)@ == old(scope)@,
        lint_views(final(result).messages@) == lint_views(old(result).messages@) + eq_blocks_undef(
            xs@,
            file@,
            string_views(old(scope)@),
            string_views(globals@),
        ),
    decreases xs, 0nat,
{
    let ghost v0 = lint_views(result.messages@);
    let ghost s0 = scope@;
    let ghost s = string_views(scope@);
    let ghost g = string_views(globals@);
    let mut i: usize = 0;
    proof {
        assert(v0 + eq_blocks_undef(xs@.take(0), file@, s, g) =~= v0);
    }
    while i < xs.len()
        invariant
            i <= xs@.len(),
            scope@ == s0,
            s == string_views(s0),
            g == string_views(globals@),
            lint_views(result.messages@) == v0 + eq_blocks_undef(xs@.take(i as int), file@, s, g),
        decreases xs.len() - i,
    {
        proof {
            let t = xs@.take(i as int + 1);
            assert(t.drop_last() =~= xs@.take(i as int));
            assert(t.last() == xs@[i as int]);
            assert(decreases_to!(xs => xs@[i as int]));
            assert(decreases_to!(xs@[i as int] => xs@[i as int].eqs));
        }
        check_expr(&xs[i].cond, file, scope, globals, result);
        check_eqs(&xs[i].eqs, file, scope, globals, result);
        proof {
            assert(lint_views(result.messages@) =~= v0 + eq_blocks_undef(xs@.take(i as int + 1), file@, s, g));
        }
        i = i + 1;
    }
    assert(xs@.take(i as int) =~= xs@);
}

fn check_st(st: &Statement, file: &str, scope: &mut Vec<String>, globals: &Vec<String>, result: &mut LintResult)
    ensures
        final(scope)@ == old(scope)@,
        lint_views(final(result).messages@) == lint_views(old(result).messages@) + st_undef(
            *st,
            file@,
            string_views(old(scope)@),
            string_views(globals@),
        ),
    decreases st, 1nat,
{
    let ghost v0 = lint_views(result.messages@);
    let ghost s0 = scope@;
    match st {
        Statement::Assignment { comp, value } => {
            check_cref(comp, file, scope, globals, result);
            check_expr(value, file, scope, globals, result);
        },
        Statement::FunctionCall { args, .. } => check_exprs(args, file, scope, globals, result),
        Statement::For { indices, equations } => {
            check_indices(indices, file, scope, globals, result);
            check_sts(equations, file, scope, globals, result);
            unbind(scope, indices.len());
        },
        Statement::While(block) => {
            check_expr(&block.cond, file, scope, globals, result);
            check_sts(&block.stmts, file, scope, globals, result);
        },
        Statement::If { cond_blocks, else_block } => {
            check_st_blocks(cond_blocks, file, scope, globals, result);
            match else_block {
                Some(x) => check_sts(x, file, scope, globals, result),
                None => {},
            }
        },
        Statement::When(blocks) => check_st_blocks(blocks, file, scope, globals, result),
        _ => {},
    }
    assert(lint_views(result.messages@) =~= v0 + st_undef(*st, file@, string_views(s0), string_views(globals@)));
}

fn check_sts(xs: &Vec<Statement>, file: &str, scope: &mut Vec<String>, globals: &Vec<String>, result: &mut LintResult)
    ensures
        final(scope)@ == old(scope)@,
        lint_views(final(result).messages@) == lint_views(old(result).messages@) + sts_undef(
            xs@,
            file@,
            string_views(old(scope)@),
            string_views(globals@),
        ),
    decreases xs, 0nat,
{
    let ghost v0 = lint_views(result.messages@);
    let ghost s0 = scope@;
    let ghost s = string_views(scope@);
    let ghost g = string_views(globals@);
    let mut i: usize = 0;
    proof {
        assert(v0 + sts_undef(xs@.take(0), file@, s, g) =~= v0);
    }
    while i < xs.len()
        invariant
            i <= xs@.len(),
            scope@ == s0,
            s == string_views(s0),
            g == string_views(globals@),
            lint_views(result.messages@) == v0 + sts_undef(xs@.take(i as int), file@, s, g),
        decreases xs.len() - i,
    {
        proof {
            let t = xs@.take(i as int + 1);
            assert(t.drop_last() =~= xs@.take(i as int));
            assert(t.last() == xs@[i as int]);
            assert(decreases_to!(xs => xs@[i as int]));
        }
        check_st(&xs[i], file, scope, globals, result);
        proof {
            assert(lint_views(result.messages@) =~= v0 + sts_undef(xs@.take(i as int + 1), file@, s, g));
        }
        i = i + 1;
    }
    assert(xs@.take(i as int) =~= xs@);
}

fn check_st_blocks(
    xs: &Vec<StatementBlock>,
    file: &str,
    scope: &mut Vec<String>,
    globals: &Vec<String>,
    result: &mut LintResult,
)
    ensures
        final(scope)@ == old(scope)@,
        lint_views(final(result).messages@) == lint_views(old(result).messages@) + st_blocks_undef(
            xs@,
            file@,
            string_views(old(scope)@),
            string_views(globals@),
        ),
    decreases xs, 0nat,
{
    let ghost v0 = lint_views(result.messages@);
    let ghost s0 = scope@;
    let ghost s = string_views(scope@);
    let ghost g = string_views(globals@);
    let mut i: usize = 0;
    proof {
        assert(v0 + st_blocks_undef(xs@.take(0), file@, s, g) =~= v0);
    }
    while i < xs.len()
        invariant
            i <= xs@.len(),
            scope@ == s0,
            s == string_views(s0),
            g == string_views(globals@),
            lint_views(result.messages@) == v0 + st_blocks_undef(xs@.take(i as int), file@, s, g),
        decreases xs.len() - i,
    {
        proof {
            let t = xs@.take(i as int + 1);
            assert(t.drop_last() =~= xs@.take(i as int));
            assert(t.last() == xs@[i as int]);
            assert(decreases_to!(xs => xs@[i as int]));
            assert(decreases_to!(xs@[i as int] => xs@[i as int].stmts));
        }
        check_expr(&xs[i].cond, file, scope, globals, result);
        check_sts(&xs[i].stmts, file, scope, globals, result);
        proof {
            assert(lint_views(result.messages@) =~= v0 + st_blocks_undef(xs@.take(i as int + 1), file@, s, g));
        }
        i = i + 1;
    }
    assert(xs@.take(i as int) =~= xs@);
}

fn check_algs(a: &Vec<Vec<Statement>>, file: &str, scope: &mut Vec<String>, globals: &Vec<String>, result: &mut LintResult)
    ensures
        final(scope)@ == old(scope)@,
        lint_views(final(result).messages@) == lint_views(old(result).messages@) + algs_undef(
            a@,
            file@,
            string_views(old(scope)@),
            string_views(globals@),
        ),
{
    let ghost v0 = lint_views(result.messages@);
    let ghost s0 = scope@;
    let ghost s = string_views(scope@);
    let ghost g = string_views(globals@);
    let mut i: usize = 0;
    proof {
        assert(v0 + algs_undef(a@.take(0), file@, s, g) =~= v0);
    }
    while i < a.len()
        invariant
            i <= a@.len(),
            scope@ == s0,
            s == string_views(s0),
            g == string_views(globals@),
            lint_views(result.messages@) == v0 + algs_undef(a@.take(i as int), file@, s, g),
        decreases a.len() - i,
    {
        check_sts(&a[i], file, scope, globals, result);
        proof {
            let t = a@.take(i as int + 1);
            assert(t.drop_last() =~= a@.take(i as int));
            assert(t.last() == a@[i as int]);
            assert(lint_views(result.messages@) =~= v0 + algs_undef(t, file@, s, g));
        }
        i = i + 1;
    }
    assert(a@.take(i as int) =~= a@);
}

/// Reports every use of a name in a class that is neither among `defined`
/// (the names the class declares) nor among `globals`, nor bound by an
/// enclosing `for` (see `class_undef`).
pub fn lint_undefined_references(
    class: &ClassDefinition,
    file_path: &str,
    defined: &Vec<String>,
    globals: &Vec<String>,
    result: &mut LintResult,
)
    ensures
        lint_views(final(result).messages@) == lint_views(old(result).messages@) + class_undef(
            *class,
            file_path@,
            string_views(defined@),
            string_views(globals@),
        ),
{
    let ghost v0 = lint_views(result.messages@);
    let ghost s = string_views(defined@);
    let ghost g = string_views(globals@);
    let mut scope: Vec<String> = defined.clone();
    proof {
        assert(string_views(scope@) =~= s) by {
            assert forall|k: int| 0 <= k < scope@.len() implies #[trigger] scope@[k]@ == defined@[k]@ by {
                assert(vstd::pervasive::cloned(defined@[k], scope@[k]));
            }
        }
    }
    check_eqs(&class.equations, file_path, &mut scope, globals, result);
    check_eqs(&class.initial_equations, file_path, &mut scope, globals, result);
    check_algs(&class.algorithms, file_path, &mut scope, globals, result);
    check_algs(&class.initial_algorithms, file_path, &mut scope, globals, result);
    let ghost v1 = lint_views(result.messages@);
    let cs = &class.components;
    let mut i: usize = 0;
    proof {
        assert(v1 + starts_undef(cs@.take(0), file_path@, s, g) =~= v1);
    }
    while i < cs.len()
        invariant
            i <= cs@.len(),
            string_views(scope@) == s,
            g == string_views(globals@),
            lint_views(result.messages@) == v1 + starts_undef(cs@.take(i as int), file_path@, s, g),
        decreases cs.len() - i,
    {
        check_expr(&cs[i].start, file_path, &scope, globals, result);
        proof {
            let t = cs@.take(i as int + 1);
            assert(t.drop_last() =~= cs@.take(i as int));
            assert(t.last() == cs@[i as int]);
            assert(lint_views(result.messages@) =~= v1 + starts_undef(t, file_path@, s, g));
        }
        i = i + 1;
    }
    assert(cs@.take(i as int) =~= cs@);
    assert(lint_views(result.messages@) =~= v0 + class_undef(*class, file_path@, s, g));
}

} // verus!
