//! Editor diagnostics of a class: references to undefined variables,
//! equations whose sides' types cannot agree, variables declared but never
//! used, and parameters without a default value.
use vstd::prelude::*;
use crate::ast::{
    ClassDefinition, Component, TerminalType, Variability, ComponentRefPart, ComponentReference, Equation, EquationBlock, Expression, ExpressionBranch, ForIndex, Statement,
    StatementBlock, Subscript, Token,
};
use crate::names::{string_views, string_position};
use crate::dae::{insert_entry, keys_of, string_keys};
use crate::formatter::name_text;
use crate::types::{check_equation_types, is_class_instance_spec, is_class_instance_type, equation_type_issues, infer_type, lookup, scope_view, DefinedSymbol, ScopeView, TypeIssue};

verus! {

/// How serious a diagnostic is.
#[derive(Debug, Clone, Copy, PartialEq, Eq, Structural)]
pub enum Severity {
    Error,
    Warning,
    Information,
    Hint,
}

/// A diagnostic placed in the document: its line and column, counted from
/// 0, the column where its highlight ends, its message and severity.
#[derive(Debug)]
pub struct Diagnostic {
    pub line: u32,
    pub character: u32,
    pub end_character: u32,
    pub message: String,
    pub severity: Severity,
}

/// A finding: the source line and column, counted from 1, where it is
/// reported, its message and its severity.
pub type Finding = (u32, u32, Seq<char>, Severity);

/// `x - 1`, or 0 for 0.
pub open spec fn before(x: u32) -> u32 {
    if x == 0 {
        0
    } else {
        (x - 1) as u32
    }
}

/// A finding placed: lines and columns from 0, a highlight of 20 columns
/// (ending at the largest column where it would pass it).
pub open spec fn placed(d: Diagnostic, f: Finding) -> bool {
    &&& d.line == before(f.0)
    &&& d.character == before(f.1)
    &&& d.end_character == if before(f.1) + 20 <= u32::MAX {
        (before(f.1) + 20) as u32
    } else {
        u32::MAX
    }
    &&& d.message@ == f.2
    &&& d.severity == f.3
}

/// `ds` places the findings `fs`, in order.
pub open spec fn all_placed(ds: Seq<Diagnostic>, fs: Seq<Finding>) -> bool {
    ds.len() == fs.len() && forall|i: int| 0 <= i < ds.len() ==> #[trigger] placed(ds[i], fs[i])
}

/// Places and adds a finding.
fn report(diags: &mut Vec<Diagnostic>, Ghost(fs): Ghost<Seq<Finding>>, line: u32, col: u32, message: String, severity: Severity)
    requires
        all_placed(old(diags)@, fs),
    ensures
        all_placed(final(diags)@, fs.push((line, col, message@, severity))),
{
    let l = if line == 0 { 0 } else { line - 1 };
    let c = if col == 0 { 0 } else { col - 1 };
    let e = c.saturating_add(20);
    let ghost m = message@;
    let ghost d0 = diags@;
    diags.push(Diagnostic { line: l, character: c, end_character: e, message, severity });
    proof {
        let f2 = fs.push((line, col, m, severity));
        assert forall|i: int| 0 <= i < diags@.len() implies #[trigger] placed(diags@[i], f2[i]) by {
            if i < d0.len() {
                assert(diags@[i] == d0[i]);
                assert(f2[i] == fs[i]);
            }
        }
    }
}

/// The message for a reference to an undefined variable.
pub open spec fn undefined_message(n: Seq<char>) -> Seq<char> {
    "Undefined variable '"@ + n + "'"@
}

/// Whether `n` is declared in the scope or a global name.
pub open spec fn known(d: ScopeView, g: Seq<Seq<char>>, n: Seq<char>) -> bool {
    lookup(d, n) is Some || g.contains(n)
}

/// The findings of a reference: an error where its first part names
/// neither a declared variable nor a global, then those of the subscripts
/// of its parts.
pub open spec fn cref_findings(c: ComponentReference, d: ScopeView, g: Seq<Seq<char>>) -> Seq<Finding>
    decreases c, 1nat,
{
    if c.parts@.len() == 0 {
        seq![]
    } else {
        let t = c.parts@[0].ident;
        (if known(d, g, t.text@) {
            seq![]
        } else {
            seq![(t.location.start_line, t.location.start_column, undefined_message(t.text@), Severity::Error)]
        }) + parts_findings(c.parts@, d, g)
    }
}

/// The findings of the subscripts of reference parts, in order.
pub open spec fn parts_findings(ps: Seq<ComponentRefPart>, d: ScopeView, g: Seq<Seq<char>>) -> Seq<Finding>
    decreases ps, 0nat,
{
    if ps.len() == 0 {
        seq![]
    } else {
        parts_findings(ps.drop_last(), d, g) + match ps.last().subs {
            Some(ss) => subs_findings(ss@, d, g),
            None => seq![],
        }
    }
}

/// The findings of the expression subscripts.
pub open spec fn subs_findings(ss: Seq<Subscript>, d: ScopeView, g: Seq<Seq<char>>) -> Seq<Finding>
    decreases ss, 0nat,
{
    if ss.len() == 0 {
        seq![]
    } else {
        subs_findings(ss.drop_last(), d, g) + match ss.last() {
            Subscript::Expression(e) => expr_findings(e, d, g),
            _ => seq![],
        }
    }
}

/// The findings of an expression: those of its references, in order; the
/// names of called functions are not checked.
pub open spec fn expr_findings(e: Expression, d: ScopeView, g: Seq<Seq<char>>) -> Seq<Finding>
    decreases e, 0nat,
{
    match e {
        Expression::ComponentReference(c) => cref_findings(c, d, g),
        Expression::FunctionCall { args, .. } => exprs_findings(args@, d, g),
        Expression::Unary { rhs, .. } => expr_findings(*rhs, d, g),
        Expression::Binary { lhs, rhs, .. } => expr_findings(*lhs, d, g) + expr_findings(*rhs, d, g),
        Expression::Array { elements } => exprs_findings(elements@, d, g),
        Expression::Tuple { elements } => exprs_findings(elements@, d, g),
        Expression::If { branches, else_branch } => branches_findings(branches@, d, g) + expr_findings(*else_branch, d, g),
        Expression::Range { start, step, end } => expr_findings(*start, d, g) + (match step {
            Some(s) => expr_findings(*s, d, g),
            None => seq![],
        }) + expr_findings(*end, d, g),
        Expression::NamedArgument { value, .. } => expr_findings(*value, d, g),
        _ => seq![],
    }
}

/// The findings of expressions, one after another.
pub open spec fn exprs_findings(es: Seq<Expression>, d: ScopeView, g: Seq<Seq<char>>) -> Seq<Finding>
    decreases es, 0nat,
{
    if es.len() == 0 {
        seq![]
    } else {
        exprs_findings(es.drop_last(), d, g) + expr_findings(es.last(), d, g)
    }
}

/// The findings of the branches of an if-expression.
pub open spec fn branches_findings(bs: Seq<ExpressionBranch>, d: ScopeView, g: Seq<Seq<char>>) -> Seq<Finding>
    decreases bs, 0nat,
{
    if bs.len() == 0 {
        seq![]
    } else {
        branches_findings(bs.drop_last(), d, g) + expr_findings(bs.last().cond, d, g) + expr_findings(
            bs.last().value,
            d,
            g,
        )
    }
}

/// The names an expression uses: the first part of each reference, and
/// each called function declared in the scope.
pub open spec fn expr_uses(e: Expression, d: ScopeView) -> Seq<Seq<char>>
    decreases e, 0nat,
{
    match e {
        Expression::ComponentReference(c) => cref_uses(c, d),
        Expression::FunctionCall { comp, args } => (if comp.parts@.len() > 0 && lookup(d, comp.parts@[0].ident.text@) is Some {
            seq![comp.parts@[0].ident.text@]
        } else {
            seq![]
        }) + exprs_uses(args@, d),
        Expression::Unary { rhs, .. } => expr_uses(*rhs, d),
        Expression::Binary { lhs, rhs, .. } => expr_uses(*lhs, d) + expr_uses(*rhs, d),
        Expression::Array { elements } => exprs_uses(elements@, d),
        Expression::Tuple { elements } => exprs_uses(elements@, d),
        Expression::If { branches, else_branch } => branches_uses(branches@, d) + expr_uses(*else_branch, d),
        Expression::Range { start, step, end } => expr_uses(*start, d) + (match step {
            Some(s) => expr_uses(*s, d),
            None => seq![],
        }) + expr_uses(*end, d),
        Expression::NamedArgument { value, .. } => expr_uses(*value, d),
        _ => seq![],
    }
}

/// The names a reference uses: its first part, then those of its subscripts.
pub open spec fn cref_uses(c: ComponentReference, d: ScopeView) -> Seq<Seq<char>>
    decreases c, 1nat,
{
    if c.parts@.len() == 0 {
        seq![]
    } else {
        seq![c.parts@[0].ident.text@] + parts_uses(c.parts@, d)
    }
}

/// The names used in the subscripts of reference parts.
pub open spec fn parts_uses(ps: Seq<ComponentRefPart>, d: ScopeView) -> Seq<Seq<char>>
    decreases ps, 0nat,
{
    if ps.len() == 0 {
        seq![]
    } else {
        parts_uses(ps.drop_last(), d) + match ps.last().subs {
            Some(ss) => subs_uses(ss@, d),
            None => seq![],
        }
    }
}

/// The names used in expression subscripts.
pub open spec fn subs_uses(ss: Seq<Subscript>, d: ScopeView) -> Seq<Seq<char>>
    decreases ss, 0nat,
{
    if ss.len() == 0 {
        seq![]
    } else {
        subs_uses(ss.drop_last(), d) + match ss.last() {
            Subscript::Expression(e) => expr_uses(e, d),
            _ => seq![],
        }
    }
}

/// The names used by expressions, one after another.
pub open spec fn exprs_uses(es: Seq<Expression>, d: ScopeView) -> Seq<Seq<char>>
    decreases es, 0nat,
{
    if es.len() == 0 {
        seq![]
    } else {
        exprs_uses(es.drop_last(), d) + expr_uses(es.last(), d)
    }
}

/// The names used by the branches of an if-expression.
pub open spec fn branches_uses(bs: Seq<ExpressionBranch>, d: ScopeView) -> Seq<Seq<char>>
    decreases bs, 0nat,
{
    if bs.len() == 0 {
        seq![]
    } else {
        branches_uses(bs.drop_last(), d) + expr_uses(bs.last().cond, d) + expr_uses(bs.last().value, d)
    }
}

/// The state of a check: the names used so far and the diagnostics so far.
pub open spec fn progressed(
    used0: Seq<String>,
    used: Seq<String>,
    diags0: Seq<Diagnostic>,
    diags: Seq<Diagnostic>,
    fs0: Seq<Finding>,
    uses: Seq<Seq<char>>,
    found: Seq<Finding>,
) -> bool {
    &&& string_views(used) == string_views(used0) + uses
    &&& all_placed(diags, fs0 + found)
}

/// Whether `name` is declared or a global name.
fn is_known(defined: &Vec<(String, DefinedSymbol)>, globals: &Vec<String>, name: &String) -> (r: bool)
    ensures
        r == known(scope_view(defined@), string_views(globals@), name@),
{
    if crate::types::has_symbol(defined, name) {
        true
    } else {
        let p = string_position(globals, name);
        proof {
            if p is Some {
                let i = p.unwrap() as int;
                assert(string_views(globals@)[i] == name@);
            }
        }
        p.is_some()
    }
}

/// The message for a reference to an undefined variable.
fn undefined_text(name: &String) -> (r: String)
    ensures
        r@ == undefined_message(name@),
{
    let mut m: Vec<char> = Vec::new();
    crate::printer::append_str(&mut m, "Undefined variable '");
    let n = crate::text::str_to_chars(name.as_str());
    let mut i: usize = 0;
    let ghost m0 = m@;
    while i < n.len()
        invariant
            i <= n@.len(),
            m@ == m0 + n@.take(i as int),
        decreases n.len() - i,
    {
        m.push(n[i]);
        assert(n@.take(i as int + 1) =~= n@.take(i as int).push(n@[i as int]));
        i = i + 1;
    }
    assert(n@.take(n@.len() as int) =~= n@);
    crate::printer::append_str(&mut m, "'");
    crate::text::chars_to_string(&m)
}

/// Checks a reference: notes its first part as used, reports it where it
/// names nothing known, and checks the subscripts of its parts.
pub fn check_cref(
    c: &ComponentReference,
    used: &mut Vec<String>,
    diags: &mut Vec<Diagnostic>,
    Ghost(fs): Ghost<Seq<Finding>>,
    defined: &Vec<(String, DefinedSymbol)>,
    globals: &Vec<String>,
)
    requires
        all_placed(old(diags)@, fs),
    ensures
        progressed(
            old(used)@,
            final(used)@,
            old(diags)@,
            final(diags)@,
            fs,
            cref_uses(*c, scope_view(defined@)),
            cref_findings(*c, scope_view(defined@), string_views(globals@)),
        ),
    decreases c, 1nat,
{
    let ghost d = scope_view(defined@);
    let ghost g = string_views(globals@);
    let ghost u0 = string_views(used@);
    if c.parts.len() == 0 {
        proof {
            assert(fs + seq![] =~= fs);
            assert(u0 + seq![] =~= u0);
        }
        return;
    }
    let t = &c.parts[0].ident;
    used.push(t.text.clone());
    proof {
        assert(string_views(used@) =~= u0.push(t.text@));
    }
    let ghost fs1 = if known(d, g, t.text@) {
        fs
    } else {
        fs.push((t.location.start_line, t.location.start_column, undefined_message(t.text@), Severity::Error))
    };
    if !is_known(defined, globals, &t.text) {
        let m = undefined_text(&t.text);
        report(diags, Ghost(fs), t.location.start_line, t.location.start_column, m, Severity::Error);
    }
    let ghost u1 = string_views(used@);
    check_parts(&c.parts, used, diags, Ghost(fs1), defined, globals);
    proof {
        reveal_strlit("Undefined variable '");
        reveal_strlit("'");
        assert(string_views(used@) =~= u0 + cref_uses(*c, d));
        assert(fs1 + parts_findings(c.parts@, d, g) =~= fs + cref_findings(*c, d, g));
    }
}

/// Checks the subscripts of reference parts.
fn check_parts(
    ps: &Vec<ComponentRefPart>,
    used: &mut Vec<String>,
    diags: &mut Vec<Diagnostic>,
    Ghost(fs): Ghost<Seq<Finding>>,
    defined: &Vec<(String, DefinedSymbol)>,
    globals: &Vec<String>,
)
    requires
        all_placed(old(diags)@, fs),
    ensures
        progressed(
            old(used)@,
            final(used)@,
            old(diags)@,
            final(diags)@,
            fs,
            parts_uses(ps@, scope_view(defined@)),
            parts_findings(ps@, scope_view(defined@), string_views(globals@)),
        ),
    decreases ps, 0nat,
{
    let ghost d = scope_view(defined@);
    let ghost g = string_views(globals@);
    let ghost u0 = string_views(used@);
    let mut i: usize = 0;
    proof {
        assert(ps@.take(0) =~= seq![]);
        assert(fs + seq![] =~= fs);
        assert(u0 + seq![] =~= u0);
    }
    while i < ps.len()
        invariant
            i <= ps@.len(),
            d == scope_view(defined@),
            g == string_views(globals@),
            string_views(used@) == u0 + parts_uses(ps@.take(i as int), d),
            all_placed(diags@, fs + parts_findings(ps@.take(i as int), d, g)),
        decreases ps.len() - i,
    {
        let ghost t = ps@.take(i as int + 1);
        proof {
            assert(t.drop_last() =~= ps@.take(i as int));
            assert(t.last() == ps@[i as int]);
            assert(decreases_to!(ps => ps@[i as int]));
        }
        match &ps[i].subs {
            Some(ss) => {
                proof {
                    assert(decreases_to!(ps@[i as int] => ps@[i as int].subs));
                }
                let ghost f1 = fs + parts_findings(ps@.take(i as int), d, g);
                let ghost u1 = string_views(used@);
                check_subs(ss, used, diags, Ghost(f1), defined, globals);
                proof {
                    assert(f1 + subs_findings(ss@, d, g) =~= fs + parts_findings(t, d, g));
                    assert(u1 + subs_uses(ss@, d) =~= u0 + parts_uses(t, d));
                }
            },
            None => {
                proof {
                    assert(parts_findings(t, d, g) =~= parts_findings(ps@.take(i as int), d, g));
                    assert(parts_uses(t, d) =~= parts_uses(ps@.take(i as int), d));
                }
            },
        }
        i = i + 1;
    }
    proof {
        assert(ps@.take(i as int) =~= ps@);
    }
}

/// Checks expression subscripts.
fn check_subs(
    ss: &Vec<Subscript>,
    used: &mut Vec<String>,
    diags: &mut Vec<Diagnostic>,
    Ghost(fs): Ghost<Seq<Finding>>,
    defined: &Vec<(String, DefinedSymbol)>,
    globals: &Vec<String>,
)
    requires
        all_placed(old(diags)@, fs),
    ensures
        progressed(
            old(used)@,
            final(used)@,
            old(diags)@,
            final(diags)@,
            fs,
            subs_uses(ss@, scope_view(defined@)),
            subs_findings(ss@, scope_view(defined@), string_views(globals@)),
        ),
    decreases ss, 0nat,
{
    let ghost d = scope_view(defined@);
    let ghost g = string_views(globals@);
    let ghost u0 = string_views(used@);
    let mut i: usize = 0;
    proof {
        assert(ss@.take(0) =~= seq![]);
        assert(fs + seq![] =~= fs);
        assert(u0 + seq![] =~= u0);
    }
    while i < ss.len()
        invariant
            i <= ss@.len(),
            d == scope_view(defined@),
            g == string_views(globals@),
            string_views(used@) == u0 + subs_uses(ss@.take(i as int), d),
            all_placed(diags@, fs + subs_findings(ss@.take(i as int), d, g)),
        decreases ss.len() - i,
    {
        let ghost t = ss@.take(i as int + 1);
        proof {
            assert(t.drop_last() =~= ss@.take(i as int));
            assert(t.last() == ss@[i as int]);
            assert(decreases_to!(ss => ss@[i as int]));
        }
        match &ss[i] {
            Subscript::Expression(e) => {
                let ghost f1 = fs + subs_findings(ss@.take(i as int), d, g);
                let ghost u1 = string_views(used@);
                check_expr(e, used, diags, Ghost(f1), defined, globals);
                proof {
                    assert(f1 + expr_findings(*e, d, g) =~= fs + subs_findings(t, d, g));
                    assert(u1 + expr_uses(*e, d) =~= u0 + subs_uses(t, d));
                }
            },
            _ => {
                proof {
                    assert(subs_findings(t, d, g) =~= subs_findings(ss@.take(i as int), d, g));
                    assert(subs_uses(t, d) =~= subs_uses(ss@.take(i as int), d));
                }
            },
        }
        i = i + 1;
    }
    proof {
        assert(ss@.take(i as int) =~= ss@);
    }
}

/// Checks an expression: its references (see `expr_findings`) and the
/// names it uses (see `expr_uses`).
#[verifier::spinoff_prover]
pub fn check_expr(
    e: &Expression,
    used: &mut Vec<String>,
    diags: &mut Vec<Diagnostic>,
    Ghost(fs): Ghost<Seq<Finding>>,
    defined: &Vec<(String, DefinedSymbol)>,
    globals: &Vec<String>,
)
    requires
        all_placed(old(diags)@, fs),
    ensures
        progressed(
            old(used)@,
            final(used)@,
            old(diags)@,
            final(diags)@,
            fs,
            expr_uses(*e, scope_view(defined@)),
            expr_findings(*e, scope_view(defined@), string_views(globals@)),
        ),
    decreases e, 2nat,
{
    let ghost d = scope_view(defined@);
    let ghost g = string_views(globals@);
    let ghost u0 = string_views(used@);
    match e {
        Expression::ComponentReference(c) => {
            check_cref(c, used, diags, Ghost(fs), defined, globals);
        },
        Expression::FunctionCall { comp, args } => {
            if comp.parts.len() > 0 && crate::types::has_symbol(defined, &comp.parts[0].ident.text) {
                used.push(comp.parts[0].ident.text.clone());
            }
            let ghost u1 = string_views(used@);
            check_exprs(args, used, diags, Ghost(fs), defined, globals);
            proof {
                assert(string_views(used@) =~= u0 + expr_uses(*e, d));
            }
        },
        Expression::Unary { rhs, .. } => {
            check_expr(rhs, used, diags, Ghost(fs), defined, globals);
        },
        Expression::Binary { lhs, rhs, .. } => {
            check_expr(lhs, used, diags, Ghost(fs), defined, globals);
            let ghost f1 = fs + expr_findings(**lhs, d, g);
            check_expr(rhs, used, diags, Ghost(f1), defined, globals);
            proof {
                assert(f1 + expr_findings(**rhs, d, g) =~= fs + expr_findings(*e, d, g));
                assert(string_views(used@) =~= u0 + expr_uses(*e, d));
            }
        },
        Expression::Array { elements } => {
            check_exprs(elements, used, diags, Ghost(fs), defined, globals);
        },
        Expression::Tuple { elements } => {
            check_exprs(elements, used, diags, Ghost(fs), defined, globals);
        },
        Expression::If { branches, else_branch } => {
            check_branches(branches, used, diags, Ghost(fs), defined, globals);
            let ghost f1 = fs + branches_findings(branches@, d, g);
            check_expr(else_branch, used, diags, Ghost(f1), defined, globals);
            proof {
                assert(f1 + expr_findings(**else_branch, d, g) =~= fs + expr_findings(*e, d, g));
                assert(string_views(used@) =~= u0 + expr_uses(*e, d));
            }
        },
        Expression::Range { start, step, end } => {
            check_expr(start, used, diags, Ghost(fs), defined, globals);
            let ghost f1 = fs + expr_findings(**start, d, g);
            let ghost f2 = f1 + match step {
                Some(s) => expr_findings(**s, d, g),
                None => seq![],
            };
            match step {
                Some(s) => {
                    check_expr(s, used, diags, Ghost(f1), defined, globals);
                },
                None => {
                    assert(f1 + seq![] =~= f1);
                },
            }
            check_expr(end, used, diags, Ghost(f2), defined, globals);
            proof {
                assert(f2 + expr_findings(**end, d, g) =~= fs + expr_findings(*e, d, g));
                assert(string_views(used@) =~= u0 + expr_uses(*e, d));
            }
        },
        Expression::NamedArgument { value, .. } => {
            check_expr(value, used, diags, Ghost(fs), defined, globals);
        },
        _ => {
            proof {
                assert(fs + seq![] =~= fs);
                assert(u0 + seq![] =~= u0);
            }
        },
    }
}

/// Checks expressions, one after another.
pub fn check_exprs(
    es: &Vec<Expression>,
    used: &mut Vec<String>,
    diags: &mut Vec<Diagnostic>,
    Ghost(fs): Ghost<Seq<Finding>>,
    defined: &Vec<(String, DefinedSymbol)>,
    globals: &Vec<String>,
)
    requires
        all_placed(old(diags)@, fs),
    ensures
        progressed(
            old(used)@,
            final(used)@,
            old(diags)@,
            final(diags)@,
            fs,
            exprs_uses(es@, scope_view(defined@)),
            exprs_findings(es@, scope_view(defined@), string_views(globals@)),
        ),
    decreases es, 0nat,
{
    let ghost d = scope_view(defined@);
    let ghost g = string_views(globals@);
    let ghost u0 = string_views(used@);
    let mut i: usize = 0;
    proof {
        assert(es@.take(0) =~= seq![]);
        assert(fs + seq![] =~= fs);
        assert(u0 + seq![] =~= u0);
    }
    while i < es.len()
        invariant
            i <= es@.len(),
            d == scope_view(defined@),
            g == string_views(globals@),
            string_views(used@) == u0 + exprs_uses(es@.take(i as int), d),
            all_placed(diags@, fs + exprs_findings(es@.take(i as int), d, g)),
        decreases es.len() - i,
    {
        let ghost t = es@.take(i as int + 1);
        proof {
            assert(t.drop_last() =~= es@.take(i as int));
            assert(t.last() == es@[i as int]);
            assert(decreases_to!(es => es@[i as int]));
        }
        let ghost f1 = fs + exprs_findings(es@.take(i as int), d, g);
        let ghost u1 = string_views(used@);
        check_expr(&es[i], used, diags, Ghost(f1), defined, globals);
        proof {
            assert(f1 + expr_findings(es@[i as int], d, g) =~= fs + exprs_findings(t, d, g));
            assert(u1 + expr_uses(es@[i as int], d) =~= u0 + exprs_uses(t, d));
        }
        i = i + 1;
    }
    proof {
        assert(es@.take(i as int) =~= es@);
    }
}

/// Checks the branches of an if-expression.
fn check_branches(
    bs: &Vec<ExpressionBranch>,
    used: &mut Vec<String>,
    diags: &mut Vec<Diagnostic>,
    Ghost(fs): Ghost<Seq<Finding>>,
    defined: &Vec<(String, DefinedSymbol)>,
    globals: &Vec<String>,
)
    requires
        all_placed(old(diags)@, fs),
    ensures
        progressed(
            old(used)@,
            final(used)@,
            old(diags)@,
            final(diags)@,
            fs,
            branches_uses(bs@, scope_view(defined@)),
            branches_findings(bs@, scope_view(defined@), string_views(globals@)),
        ),
    decreases bs, 0nat,
{
    let ghost d = scope_view(defined@);
    let ghost g = string_views(globals@);
    let ghost u0 = string_views(used@);
    let mut i: usize = 0;
    proof {
        assert(bs@.take(0) =~= seq![]);
        assert(fs + seq![] =~= fs);
        assert(u0 + seq![] =~= u0);
    }
    while i < bs.len()
        invariant
            i <= bs@.len(),
            d == scope_view(defined@),
            g == string_views(globals@),
            string_views(used@) == u0 + branches_uses(bs@.take(i as int), d),
            all_placed(diags@, fs + branches_findings(bs@.take(i as int), d, g)),
        decreases bs.len() - i,
    {
        let ghost t = bs@.take(i as int + 1);
        proof {
            assert(t.drop_last() =~= bs@.take(i as int));
            assert(t.last() == bs@[i as int]);
            assert(decreases_to!(bs => bs@[i as int]));
        }
        let ghost f1 = fs + branches_findings(bs@.take(i as int), d, g);
        let ghost u1 = string_views(used@);
        check_expr(&bs[i].cond, used, diags, Ghost(f1), defined, globals);
        let ghost f2 = f1 + expr_findings(bs@[i as int].cond, d, g);
        let ghost u2 = string_views(used@);
        check_expr(&bs[i].value, used, diags, Ghost(f2), defined, globals);
        proof {
            assert(f2 + expr_findings(bs@[i as int].value, d, g) =~= fs + branches_findings(t, d, g));
            assert(u2 + expr_uses(bs@[i as int].value, d) =~= u0 + branches_uses(t, d));
        }
        i = i + 1;
    }
    proof {
        assert(bs@.take(i as int) =~= bs@);
    }
}

// ---------------------------------------------------------------------------
// Equations and statements
// ---------------------------------------------------------------------------

/// The scope inside a `for` whose first `n` indices are bound, as `Integer`
/// scalars, the latest first.
pub open spec fn bind_indices(xs: Seq<ForIndex>, n: int, d: ScopeView) -> ScopeView
    decreases n,
{
    if n <= 0 {
        d
    } else {
        seq![(xs[n - 1].ident.text@, ("Integer"@, Seq::<usize>::empty()))] + bind_indices(xs, n - 1, d)
    }
}

/// The findings of the ranges of the first `n` indices, each under the
/// scope that binds the indices up to it.
pub open spec fn indices_findings(xs: Seq<ForIndex>, n: int, d: ScopeView, g: Seq<Seq<char>>) -> Seq<Finding>
    decreases n,
{
    if n <= 0 {
        seq![]
    } else {
        indices_findings(xs, n - 1, d, g) + expr_findings(xs[n - 1].range, bind_indices(xs, n, d), g)
    }
}

/// The names used by the ranges of the first `n` indices.
pub open spec fn indices_uses(xs: Seq<ForIndex>, n: int, d: ScopeView) -> Seq<Seq<char>>
    decreases n,
{
    if n <= 0 {
        seq![]
    } else {
        indices_uses(xs, n - 1, d) + expr_uses(xs[n - 1].range, bind_indices(xs, n, d))
    }
}

/// The source line and column of an expression's first token, if it has one.
pub open spec fn expr_location(e: Expression) -> Option<(u32, u32)>
    decreases e,
{
    match e {
        Expression::Terminal { token, .. } => Some((token.location.start_line, token.location.start_column)),
        Expression::ComponentReference(c) => if c.parts@.len() > 0 {
            Some((c.parts@[0].ident.location.start_line, c.parts@[0].ident.location.start_column))
        } else {
            None
        },
        Expression::FunctionCall { comp, .. } => if comp.parts@.len() > 0 {
            Some((comp.parts@[0].ident.location.start_line, comp.parts@[0].ident.location.start_column))
        } else {
            None
        },
        Expression::Binary { lhs, .. } => expr_location(*lhs),
        Expression::Unary { rhs, .. } => expr_location(*rhs),
        Expression::Range { start, .. } => expr_location(*start),
        Expression::Array { elements } => if elements@.len() > 0 {
            expr_location(elements@[0])
        } else {
            None
        },
        Expression::Tuple { elements } => if elements@.len() > 0 {
            expr_location(elements@[0])
        } else {
            None
        },
        Expression::If { branches, .. } => if branches@.len() > 0 {
            expr_location(branches@[0].cond)
        } else {
            None
        },
        Expression::NamedArgument { name, .. } => Some((name.location.start_line, name.location.start_column)),
        _ => None,
    }
}

/// The source line and column of an expression's first token, if it has one.
pub fn expression_location(e: &Expression) -> (r: Option<(u32, u32)>)
    ensures
        r == expr_location(*e),
    decreases e,
{
    match e {
        Expression::Terminal { token, .. } => Some((token.location.start_line, token.location.start_column)),
        Expression::ComponentReference(c) => if c.parts.len() > 0 {
            Some((c.parts[0].ident.location.start_line, c.parts[0].ident.location.start_column))
        } else {
            None
        },
        Expression::FunctionCall { comp, .. } => if comp.parts.len() > 0 {
            Some((comp.parts[0].ident.location.start_line, comp.parts[0].ident.location.start_column))
        } else {
            None
        },
        Expression::Binary { lhs, .. } => expression_location(lhs),
        Expression::Unary { rhs, .. } => expression_location(rhs),
        Expression::Range { start, .. } => expression_location(start),
        Expression::Array { elements } => if elements.len() > 0 {
            expression_location(&elements[0])
        } else {
            None
        },
        Expression::Tuple { elements } => if elements.len() > 0 {
            expression_location(&elements[0])
        } else {
            None
        },
        Expression::If { branches, .. } => if branches.len() > 0 {
            proof {
                assert(decreases_to!(e => branches@[0].cond));
            }
            expression_location(&branches[0].cond)
        } else {
            None
        },
        Expression::NamedArgument { name, .. } => Some((name.location.start_line, name.location.start_column)),
        _ => None,
    }
}

/// The type problems of an equation, reported at its left side's first token.
pub open spec fn type_findings(lhs: Expression, rhs: Expression, d: ScopeView) -> Seq<Finding> {
    match expr_location(lhs) {
        Some((l, c)) => equation_type_issues(infer_type(lhs, d), infer_type(rhs, d)).map_values(
            |x: (Seq<char>, bool)| (l, c, x.0, if x.1 { Severity::Error } else { Severity::Warning }),
        ),
        None => seq![],
    }
}

/// The findings of an equation: those of its references in order, and the
/// type problems of a simple equation after those of its sides; the
/// indices of a `for` are declared (as `Integer`) inside it.
pub open spec fn eq_findings(eq: Equation, d: ScopeView, g: Seq<Seq<char>>) -> Seq<Finding>
    decreases eq, 0nat,
{
    match eq {
        Equation::Simple { lhs, rhs } => expr_findings(lhs, d, g) + expr_findings(rhs, d, g) + type_findings(lhs, rhs, d),
        Equation::Connect { lhs, rhs } => cref_findings(lhs, d, g) + cref_findings(rhs, d, g),
        Equation::For { indices, equations } => indices_findings(indices@, indices@.len() as int, d, g) + eqs_findings(
            equations@,
            bind_indices(indices@, indices@.len() as int, d),
            g,
        ),
        Equation::When(blocks) => eq_blocks_findings(blocks@, d, g),
        Equation::If { cond_blocks, else_block } => eq_blocks_findings(cond_blocks@, d, g) + match else_block {
            Some(x) => eqs_findings(x@, d, g),
            None => seq![],
        },
        Equation::FunctionCall { comp, args } => cref_findings(comp, d, g) + exprs_findings(args@, d, g),
        _ => seq![],
    }
}

/// The findings of equations, one after another.
pub open spec fn eqs_findings(eqs: Seq<Equation>, d: ScopeView, g: Seq<Seq<char>>) -> Seq<Finding>
    decreases eqs, 0nat,
{
    if eqs.len() == 0 {
        seq![]
    } else {
        eqs_findings(eqs.drop_last(), d, g) + eq_findings(eqs.last(), d, g)
    }
}

/// The findings of guarded blocks: each condition, then its equations.
pub open spec fn eq_blocks_findings(bs: Seq<EquationBlock>, d: ScopeView, g: Seq<Seq<char>>) -> Seq<Finding>
    decreases bs, 0nat,
{
    if bs.len() == 0 {
        seq![]
    } else {
        eq_blocks_findings(bs.drop_last(), d, g) + expr_findings(bs.last().cond, d, g) + eqs_findings(
            bs.last().eqs@,
            d,
            g,
        )
    }
}

/// The names an equation uses.
pub open spec fn eq_uses(eq: Equation, d: ScopeView) -> Seq<Seq<char>>
    decreases eq, 0nat,
{
    match eq {
        Equation::Simple { lhs, rhs } => expr_uses(lhs, d) + expr_uses(rhs, d),
        Equation::Connect { lhs, rhs } => cref_uses(lhs, d) + cref_uses(rhs, d),
        Equation::For { indices, equations } => indices_uses(indices@, indices@.len() as int, d) + eqs_uses(
            equations@,
            bind_indices(indices@, indices@.len() as int, d),
        ),
        Equation::When(blocks) => eq_blocks_uses(blocks@, d),
        Equation::If { cond_blocks, else_block } => eq_blocks_uses(cond_blocks@, d) + match else_block {
            Some(x) => eqs_uses(x@, d),
            None => seq![],
        },
        Equation::FunctionCall { comp, args } => cref_uses(comp, d) + exprs_uses(args@, d),
        _ => seq![],
    }
}

/// The names used by equations.
pub open spec fn eqs_uses(eqs: Seq<Equation>, d: ScopeView) -> Seq<Seq<char>>
    decreases eqs, 0nat,
{
    if eqs.len() == 0 {
        seq![]
    } else {
        eqs_uses(eqs.drop_last(), d) + eq_uses(eqs.last(), d)
    }
}

/// The names used by guarded blocks.
pub open spec fn eq_blocks_uses(bs: Seq<EquationBlock>, d: ScopeView) -> Seq<Seq<char>>
    decreases bs, 0nat,
{
    if bs.len() == 0 {
        seq![]
    } else {
        eq_blocks_uses(bs.drop_last(), d) + expr_uses(bs.last().cond, d) + eqs_uses(bs.last().eqs@, d)
    }
}

/// The symbol a loop index declares: an `Integer` scalar at the index's name.
fn loop_symbol(t: &Token) -> (r: DefinedSymbol)
    ensures
        r.declared_type@ == "Integer"@,
        r.shape@ == Seq::<usize>::empty(),
{
    let n = crate::text::str_to_chars(t.text.as_str()).len();
    let len: u32 = if n <= 0xffff_ffff { n as u32 } else { 0xffff_ffff };
    DefinedSymbol {
        line: t.location.start_line,
        col: t.location.start_column,
        name_len: len,
        is_parameter: false,
        is_class: false,
        has_default: true,
        declared_type: "Integer".to_owned(),
        shape: Vec::new(),
    }
}

/// Declares the indices of a `for` one by one, checking each range once its
/// own index is declared; the indices stay declared, the latest first.
fn bind_and_check_indices(
    xs: &Vec<ForIndex>,
    used: &mut Vec<String>,
    diags: &mut Vec<Diagnostic>,
    Ghost(fs): Ghost<Seq<Finding>>,
    defined: &mut Vec<(String, DefinedSymbol)>,
    globals: &Vec<String>,
)
    requires
        all_placed(old(diags)@, fs),
    ensures
        final(defined)@.len() == old(defined)@.len() + xs@.len(),
        final(defined)@.skip(xs@.len() as int) == old(defined)@,
        scope_view(final(defined)@) == bind_indices(xs@, xs@.len() as int, scope_view(old(defined)@)),
        progressed(
            old(used)@,
            final(used)@,
            old(diags)@,
            final(diags)@,
            fs,
            indices_uses(xs@, xs@.len() as int, scope_view(old(defined)@)),
            indices_findings(xs@, xs@.len() as int, scope_view(old(defined)@), string_views(globals@)),
        ),
{
    let ghost d0 = scope_view(defined@);
    let ghost def0 = defined@;
    let ghost g = string_views(globals@);
    let ghost u0 = string_views(used@);
    let mut k: usize = 0;
    proof {
        assert(defined@.skip(0) =~= def0);
        assert(fs + seq![] =~= fs);
        assert(u0 + seq![] =~= u0);
    }
    while k < xs.len()
        invariant
            k <= xs@.len(),
            g == string_views(globals@),
            defined@.len() == def0.len() + k,
            defined@.skip(k as int) == def0,
            d0 == scope_view(def0),
            scope_view(defined@) == bind_indices(xs@, k as int, d0),
            string_views(used@) == u0 + indices_uses(xs@, k as int, d0),
            all_placed(diags@, fs + indices_findings(xs@, k as int, d0, g)),
        decreases xs.len() - k,
    {
        let ghost before = defined@;
        let sym = loop_symbol(&xs[k].ident);
        defined.insert(0, (xs[k].ident.text.clone(), sym));
        proof {
            assert(defined@.skip(k as int + 1) =~= before.skip(k as int));
            assert(scope_view(defined@) =~= seq![(xs@[k as int].ident.text@, ("Integer"@, Seq::<usize>::empty()))]
                + scope_view(before));
        }
        let ghost f1 = fs + indices_findings(xs@, k as int, d0, g);
        let ghost u1 = string_views(used@);
        check_expr(&xs[k].range, used, diags, Ghost(f1), defined, globals);
        proof {
            assert(f1 + expr_findings(xs@[k as int].range, bind_indices(xs@, k as int + 1, d0), g) =~= fs
                + indices_findings(xs@, k as int + 1, d0, g));
            assert(u1 + expr_uses(xs@[k as int].range, bind_indices(xs@, k as int + 1, d0)) =~= u0 + indices_uses(
                xs@,
                k as int + 1,
                d0,
            ));
        }
        k = k + 1;
    }
}

/// Removes the `n` latest declarations.
fn unbind(defined: &mut Vec<(String, DefinedSymbol)>, n: usize)
    requires
        n <= old(defined)@.len(),
    ensures
        final(defined)@ == old(defined)@.skip(n as int),
{
    let ghost d0 = defined@;
    let mut k: usize = 0;
    while k < n
        invariant
            k <= n,
            n <= d0.len(),
            defined@ == d0.skip(k as int),
        decreases n - k,
    {
        defined.remove(0);
        assert(defined@ =~= d0.skip(k as int + 1));
        k = k + 1;
    }
}

/// Places the type problems of an equation found at `loc`.
fn report_type_issues(
    diags: &mut Vec<Diagnostic>,
    Ghost(fs): Ghost<Seq<Finding>>,
    issues: Vec<TypeIssue>,
    l: u32,
    c: u32,
)
    requires
        all_placed(old(diags)@, fs),
    ensures
        all_placed(
            final(diags)@,
            fs + issues@.map_values(|i: TypeIssue| (i.message@, i.is_error)).map_values(
                |x: (Seq<char>, bool)| (l, c, x.0, if x.1 { Severity::Error } else { Severity::Warning }),
            ),
        ),
{
    let ghost all = issues@.map_values(|i: TypeIssue| (i.message@, i.is_error)).map_values(
        |x: (Seq<char>, bool)| (l, c, x.0, if x.1 { Severity::Error } else { Severity::Warning }),
    );
    let ghost iv = issues@;
    let mut rest = issues;
    let n = rest.len();
    let mut k: usize = 0;
    proof {
        assert(fs + all.take(0) =~= fs);
    }
    while rest.len() > 0
        invariant
            k + rest@.len() == n,
            n == all.len(),
            rest@ == iv.skip(k as int),
            all == iv.map_values(|i: TypeIssue| (i.message@, i.is_error)).map_values(
                |x: (Seq<char>, bool)| (l, c, x.0, if x.1 { Severity::Error } else { Severity::Warning }),
            ),
            all_placed(diags@, fs + all.take(k as int)),
        decreases rest.len(),
    {
        let ghost r0 = rest@;
        let x = rest.remove(0);
        proof {
            assert(x == iv[k as int]);
        }
        let sev = if x.is_error { Severity::Error } else { Severity::Warning };
        let ghost f1 = fs + all.take(k as int);
        report(diags, Ghost(f1), l, c, x.message, sev);
        proof {
            assert(f1.push((l, c, x.message@, sev)) =~= fs + all.take(k as int + 1));
            assert(rest@ =~= iv.skip(k as int + 1));
        }
        k = k + 1;
    }
    proof {
        assert(all.take(k as int) =~= all);
    }
}

/// Checks an equation (see `eq_findings` and `eq_uses`); the declarations
/// end as they began.
#[verifier::spinoff_prover]
pub fn check_equation(
    eq: &Equation,
    used: &mut Vec<String>,
    diags: &mut Vec<Diagnostic>,
    Ghost(fs): Ghost<Seq<Finding>>,
    defined: &mut Vec<(String, DefinedSymbol)>,
    globals: &Vec<String>,
)
    requires
        all_placed(old(diags)@, fs),
    ensures
        final(defined)@ == old(defined)@,
        progressed(
            old(used)@,
            final(used)@,
            old(diags)@,
            final(diags)@,
            fs,
            eq_uses(*eq, scope_view(old(defined)@)),
            eq_findings(*eq, scope_view(old(defined)@), string_views(globals@)),
        ),
    decreases eq, 1nat,
{
    let ghost d = scope_view(defined@);
    let ghost g = string_views(globals@);
    let ghost u0 = string_views(used@);
    match eq {
        Equation::Simple { lhs, rhs } => {
            check_expr(lhs, used, diags, Ghost(fs), defined, globals);
            let ghost f1 = fs + expr_findings(*lhs, d, g);
            check_expr(rhs, used, diags, Ghost(f1), defined, globals);
            let ghost f2 = f1 + expr_findings(*rhs, d, g);
            match expression_location(lhs) {
                Some((l, c)) => {
                    let issues = check_equation_types(lhs, rhs, defined);
                    report_type_issues(diags, Ghost(f2), issues, l, c);
                },
                None => {
                    assert(f2 + seq![] =~= f2);
                },
            }
            proof {
                assert(f2 + type_findings(*lhs, *rhs, d) =~= fs + eq_findings(*eq, d, g));
                assert(string_views(used@) =~= u0 + eq_uses(*eq, d));
            }
        },
        Equation::Connect { lhs, rhs } => {
            check_cref(lhs, used, diags, Ghost(fs), defined, globals);
            let ghost f1 = fs + cref_findings(*lhs, d, g);
            check_cref(rhs, used, diags, Ghost(f1), defined, globals);
            proof {
                assert(f1 + cref_findings(*rhs, d, g) =~= fs + eq_findings(*eq, d, g));
                assert(string_views(used@) =~= u0 + eq_uses(*eq, d));
            }
        },
        Equation::For { indices, equations } => {
            bind_and_check_indices(indices, used, diags, Ghost(fs), defined, globals);
            let ghost f1 = fs + indices_findings(indices@, indices@.len() as int, d, g);
            let ghost d1 = scope_view(defined@);
            check_equations(equations, used, diags, Ghost(f1), defined, globals);
            unbind(defined, indices.len());
            proof {
                assert(f1 + eqs_findings(equations@, d1, g) =~= fs + eq_findings(*eq, d, g));
                assert(string_views(used@) =~= u0 + eq_uses(*eq, d));
            }
        },
        Equation::When(blocks) => {
            check_eq_blocks(blocks, used, diags, Ghost(fs), defined, globals);
        },
        Equation::If { cond_blocks, else_block } => {
            check_eq_blocks(cond_blocks, used, diags, Ghost(fs), defined, globals);
            let ghost f1 = fs + eq_blocks_findings(cond_blocks@, d, g);
            match else_block {
                Some(x) => {
                    check_equations(x, used, diags, Ghost(f1), defined, globals);
                },
                None => {},
            }
            proof {
                assert(string_views(used@) =~= u0 + eq_uses(*eq, d));
                assert(fs + eq_findings(*eq, d, g) =~= f1 + match else_block {
                    Some(x) => eqs_findings(x@, d, g),
                    None => seq![],
                });
            }
        },
        Equation::FunctionCall { comp, args } => {
            check_cref(comp, used, diags, Ghost(fs), defined, globals);
            let ghost f1 = fs + cref_findings(*comp, d, g);
            check_exprs(args, used, diags, Ghost(f1), defined, globals);
            proof {
                assert(f1 + exprs_findings(args@, d, g) =~= fs + eq_findings(*eq, d, g));
                assert(string_views(used@) =~= u0 + eq_uses(*eq, d));
            }
        },
        _ => {
            proof {
                assert(fs + seq![] =~= fs);
                assert(u0 + seq![] =~= u0);
            }
        },
    }
}

/// Checks equations, one after another.
pub fn check_equations(
    eqs: &Vec<Equation>,
    used: &mut Vec<String>,
    diags: &mut Vec<Diagnostic>,
    Ghost(fs): Ghost<Seq<Finding>>,
    defined: &mut Vec<(String, DefinedSymbol)>,
    globals: &Vec<String>,
)
    requires
        all_placed(old(diags)@, fs),
    ensures
        final(defined)@ == old(defined)@,
        progressed(
            old(used)@,
            final(used)@,
            old(diags)@,
            final(diags)@,
            fs,
            eqs_uses(eqs@, scope_view(old(defined)@)),
            eqs_findings(eqs@, scope_view(old(defined)@), string_views(globals@)),
        ),
    decreases eqs, 0nat,
{
    let ghost def0 = defined@;
    let ghost d = scope_view(defined@);
    let ghost g = string_views(globals@);
    let ghost u0 = string_views(used@);
    let mut i: usize = 0;
    proof {
        assert(eqs@.take(0) =~= seq![]);
        assert(fs + seq![] =~= fs);
        assert(u0 + seq![] =~= u0);
    }
    while i < eqs.len()
        invariant
            i <= eqs@.len(),
            defined@ == def0,
            d == scope_view(def0),
            g == string_views(globals@),
            string_views(used@) == u0 + eqs_uses(eqs@.take(i as int), d),
            all_placed(diags@, fs + eqs_findings(eqs@.take(i as int), d, g)),
        decreases eqs.len() - i,
    {
        let ghost t = eqs@.take(i as int + 1);
        proof {
            assert(t.drop_last() =~= eqs@.take(i as int));
            assert(t.last() == eqs@[i as int]);
            assert(decreases_to!(eqs => eqs@[i as int]));
        }
        let ghost f1 = fs + eqs_findings(eqs@.take(i as int), d, g);
        let ghost u1 = string_views(used@);
        check_equation(&eqs[i], used, diags, Ghost(f1), defined, globals);
        proof {
            assert(f1 + eq_findings(eqs@[i as int], d, g) =~= fs + eqs_findings(t, d, g));
            assert(u1 + eq_uses(eqs@[i as int], d) =~= u0 + eqs_uses(t, d));
        }
        i = i + 1;
    }
    proof {
        assert(eqs@.take(i as int) =~= eqs@);
    }
}

/// Checks guarded blocks: each condition, then its equations.
fn check_eq_blocks(
    bs: &Vec<EquationBlock>,
    used: &mut Vec<String>,
    diags: &mut Vec<Diagnostic>,
    Ghost(fs): Ghost<Seq<Finding>>,
    defined: &mut Vec<(String, DefinedSymbol)>,
    globals: &Vec<String>,
)
    requires
        all_placed(old(diags)@, fs),
    ensures
        final(defined)@ == old(defined)@,
        progressed(
            old(used)@,
            final(used)@,
            old(diags)@,
            final(diags)@,
            fs,
            eq_blocks_uses(bs@, scope_view(old(defined)@)),
            eq_blocks_findings(bs@, scope_view(old(defined)@), string_views(globals@)),
        ),
    decreases bs, 0nat,
{
    let ghost def0 = defined@;
    let ghost d = scope_view(defined@);
    let ghost g = string_views(globals@);
    let ghost u0 = string_views(used@);
    let mut i: usize = 0;
    proof {
        assert(bs@.take(0) =~= seq![]);
        assert(fs + seq![] =~= fs);
        assert(u0 + seq![] =~= u0);
    }
    while i < bs.len()
        invariant
            i <= bs@.len(),
            defined@ == def0,
            d == scope_view(def0),
            g == string_views(globals@),
            string_views(used@) == u0 + eq_blocks_uses(bs@.take(i as int), d),
            all_placed(diags@, fs + eq_blocks_findings(bs@.take(i as int), d, g)),
        decreases bs.len() - i,
    {
        let ghost t = bs@.take(i as int + 1);
        proof {
            assert(t.drop_last() =~= bs@.take(i as int));
            assert(t.last() == bs@[i as int]);
            assert(decreases_to!(bs => bs@[i as int]));
            assert(decreases_to!(bs@[i as int] => bs@[i as int].eqs));
        }
        let ghost f1 = fs + eq_blocks_findings(bs@.take(i as int), d, g);
        let ghost u1 = string_views(used@);
        check_expr(&bs[i].cond, used, diags, Ghost(f1), defined, globals);
        let ghost f2 = f1 + expr_findings(bs@[i as int].cond, d, g);
        let ghost u2 = string_views(used@);
        check_equations(&bs[i].eqs, used, diags, Ghost(f2), defined, globals);
        proof {
            assert(f2 + eqs_findings(bs@[i as int].eqs@, d, g) =~= fs + eq_blocks_findings(t, d, g));
            assert(u2 + eqs_uses(bs@[i as int].eqs@, d) =~= u0 + eq_blocks_uses(t, d));
        }
        i = i + 1;
    }
    proof {
        assert(bs@.take(i as int) =~= bs@);
    }
}

/// The findings of a statement (see `eq_findings`); the called function of
/// a call statement is checked as a reference.
pub open spec fn st_findings(st: Statement, d: ScopeView, g: Seq<Seq<char>>) -> Seq<Finding>
    decreases st, 0nat,
{
    match st {
        Statement::Assignment { comp, value } => cref_findings(comp, d, g) + expr_findings(value, d, g),
        Statement::FunctionCall { comp, args } => cref_findings(comp, d, g) + exprs_findings(args@, d, g),
        Statement::For { indices, equations } => indices_findings(indices@, indices@.len() as int, d, g) + sts_findings(
            equations@,
            bind_indices(indices@, indices@.len() as int, d),
            g,
        ),
        Statement::While(block) => expr_findings(block.cond, d, g) + sts_findings(block.stmts@, d, g),
        Statement::If { cond_blocks, else_block } => st_blocks_findings(cond_blocks@, d, g) + match else_block {
            Some(x) => sts_findings(x@, d, g),
            None => seq![],
        },
        Statement::When(blocks) => st_blocks_findings(blocks@, d, g),
        _ => seq![],
    }
}

/// The findings of statements, one after another.
pub open spec fn sts_findings(sts: Seq<Statement>, d: ScopeView, g: Seq<Seq<char>>) -> Seq<Finding>
    decreases sts, 0nat,
{
    if sts.len() == 0 {
        seq![]
    } else {
        sts_findings(sts.drop_last(), d, g) + st_findings(sts.last(), d, g)
    }
}

/// The findings of guarded statement blocks.
pub open spec fn st_blocks_findings(bs: Seq<StatementBlock>, d: ScopeView, g: Seq<Seq<char>>) -> Seq<Finding>
    decreases bs, 0nat,
{
    if bs.len() == 0 {
        seq![]
    } else {
        st_blocks_findings(bs.drop_last(), d, g) + expr_findings(bs.last().cond, d, g) + sts_findings(
            bs.last().stmts@,
            d,
            g,
        )
    }
}

/// The names a statement uses.
pub open spec fn st_uses(st: Statement, d: ScopeView) -> Seq<Seq<char>>
    decreases st, 0nat,
{
    match st {
        Statement::Assignment { comp, value } => cref_uses(comp, d) + expr_uses(value, d),
        Statement::FunctionCall { comp, args } => cref_uses(comp, d) + exprs_uses(args@, d),
        Statement::For { indices, equations } => indices_uses(indices@, indices@.len() as int, d) + sts_uses(
            equations@,
            bind_indices(indices@, indices@.len() as int, d),
        ),
        Statement::While(block) => expr_uses(block.cond, d) + sts_uses(block.stmts@, d),
        Statement::If { cond_blocks, else_block } => st_blocks_uses(cond_blocks@, d) + match else_block {
            Some(x) => sts_uses(x@, d),
            None => seq![],
        },
        Statement::When(blocks) => st_blocks_uses(blocks@, d),
        _ => seq![],
    }
}

/// The names used by statements.
pub open spec fn sts_uses(sts: Seq<Statement>, d: ScopeView) -> Seq<Seq<char>>
    decreases sts, 0nat,
{
    if sts.len() == 0 {
        seq![]
    } else {
        sts_uses(sts.drop_last(), d) + st_uses(sts.last(), d)
    }
}

/// The names used by guarded statement blocks.
pub open spec fn st_blocks_uses(bs: Seq<StatementBlock>, d: ScopeView) -> Seq<Seq<char>>
    decreases bs, 0nat,
{
    if bs.len() == 0 {
        seq![]
    } else {
        st_blocks_uses(bs.drop_last(), d) + expr_uses(bs.last().cond, d) + sts_uses(bs.last().stmts@, d)
    }
}

/// Checks a statement (see `st_findings` and `st_uses`).
#[verifier::spinoff_prover]
pub fn check_statement(
    st: &Statement,
    used: &mut Vec<String>,
    diags: &mut Vec<Diagnostic>,
    Ghost(fs): Ghost<Seq<Finding>>,
    defined: &mut Vec<(String, DefinedSymbol)>,
    globals: &Vec<String>,
)
    requires
        all_placed(old(diags)@, fs),
    ensures
        final(defined)@ == old(defined)@,
        progressed(
            old(used)@,
            final(used)@,
            old(diags)@,
            final(diags)@,
            fs,
            st_uses(*st, scope_view(old(defined)@)),
            st_findings(*st, scope_view(old(defined)@), string_views(globals@)),
        ),
    decreases st, 1nat,
{
    let ghost d = scope_view(defined@);
    let ghost g = string_views(globals@);
    let ghost u0 = string_views(used@);
    match st {
        Statement::Assignment { comp, value } => {
            check_cref(comp, used, diags, Ghost(fs), defined, globals);
            let ghost f1 = fs + cref_findings(*comp, d, g);
            check_expr(value, used, diags, Ghost(f1), defined, globals);
            proof {
                assert(f1 + expr_findings(*value, d, g) =~= fs + st_findings(*st, d, g));
                assert(string_views(used@) =~= u0 + st_uses(*st, d));
            }
        },
        Statement::FunctionCall { comp, args } => {
            check_cref(comp, used, diags, Ghost(fs), defined, globals);
            let ghost f1 = fs + cref_findings(*comp, d, g);
            check_exprs(args, used, diags, Ghost(f1), defined, globals);
            proof {
                assert(f1 + exprs_findings(args@, d, g) =~= fs + st_findings(*st, d, g));
                assert(string_views(used@) =~= u0 + st_uses(*st, d));
            }
        },
        Statement::For { indices, equations } => {
            bind_and_check_indices(indices, used, diags, Ghost(fs), defined, globals);
            let ghost f1 = fs + indices_findings(indices@, indices@.len() as int, d, g);
            let ghost d1 = scope_view(defined@);
            check_statements(equations, used, diags, Ghost(f1), defined, globals);
            unbind(defined, indices.len());
            proof {
                assert(f1 + sts_findings(equations@, d1, g) =~= fs + st_findings(*st, d, g));
                assert(string_views(used@) =~= u0 + st_uses(*st, d));
            }
        },
        Statement::While(block) => {
            check_expr(&block.cond, used, diags, Ghost(fs), defined, globals);
            let ghost f1 = fs + expr_findings(block.cond, d, g);
            check_statements(&block.stmts, used, diags, Ghost(f1), defined, globals);
            proof {
                assert(f1 + sts_findings(block.stmts@, d, g) =~= fs + st_findings(*st, d, g));
                assert(string_views(used@) =~= u0 + st_uses(*st, d));
            }
        },
        Statement::If { cond_blocks, else_block } => {
            check_st_blocks(cond_blocks, used, diags, Ghost(fs), defined, globals);
            let ghost f1 = fs + st_blocks_findings(cond_blocks@, d, g);
            match else_block {
                Some(x) => {
                    check_statements(x, used, diags, Ghost(f1), defined, globals);
                },
                None => {},
            }
            proof {
                assert(string_views(used@) =~= u0 + st_uses(*st, d));
                assert(fs + st_findings(*st, d, g) =~= f1 + match else_block {
                    Some(x) => sts_findings(x@, d, g),
                    None => seq![],
                });
            }
        },
        Statement::When(blocks) => {
            check_st_blocks(blocks, used, diags, Ghost(fs), defined, globals);
        },
        _ => {
            proof {
                assert(fs + seq![] =~= fs);
                assert(u0 + seq![] =~= u0);
            }
        },
    }
}

/// Checks statements, one after another.
pub fn check_statements(
    sts: &Vec<Statement>,
    used: &mut Vec<String>,
    diags: &mut Vec<Diagnostic>,
    Ghost(fs): Ghost<Seq<Finding>>,
    defined: &mut Vec<(String, DefinedSymbol)>,
    globals: &Vec<String>,
)
    requires
        all_placed(old(diags)@, fs),
    ensures
        final(defined)@ == old(defined)@,
        progressed(
            old(used)@,
            final(used)@,
            old(diags)@,
            final(diags)@,
            fs,
            sts_uses(sts@, scope_view(old(defined)@)),
            sts_findings(sts@, scope_view(old(defined)@), string_views(globals@)),
        ),
    decreases sts, 0nat,
{
    let ghost def0 = defined@;
    let ghost d = scope_view(defined@);
    let ghost g = string_views(globals@);
    let ghost u0 = string_views(used@);
    let mut i: usize = 0;
    proof {
        assert(sts@.take(0) =~= seq![]);
        assert(fs + seq![] =~= fs);
        assert(u0 + seq![] =~= u0);
    }
    while i < sts.len()
        invariant
            i <= sts@.len(),
            defined@ == def0,
            d == scope_view(def0),
            g == string_views(globals@),
            string_views(used@) == u0 + sts_uses(sts@.take(i as int), d),
            all_placed(diags@, fs + sts_findings(sts@.take(i as int), d, g)),
        decreases sts.len() - i,
    {
        let ghost t = sts@.take(i as int + 1);
        proof {
            assert(t.drop_last() =~= sts@.take(i as int));
            assert(t.last() == sts@[i as int]);
            assert(decreases_to!(sts => sts@[i as int]));
        }
        let ghost f1 = fs + sts_findings(sts@.take(i as int), d, g);
        let ghost u1 = string_views(used@);
        check_statement(&sts[i], used, diags, Ghost(f1), defined, globals);
        proof {
            assert(f1 + st_findings(sts@[i as int], d, g) =~= fs + sts_findings(t, d, g));
            assert(u1 + st_uses(sts@[i as int], d) =~= u0 + sts_uses(t, d));
        }
        i = i + 1;
    }
    proof {
        assert(sts@.take(i as int) =~= sts@);
    }
}

/// Checks guarded statement blocks.
fn check_st_blocks(
    bs: &Vec<StatementBlock>,
    used: &mut Vec<String>,
    diags: &mut Vec<Diagnostic>,
    Ghost(fs): Ghost<Seq<Finding>>,
    defined: &mut Vec<(String, DefinedSymbol)>,
    globals: &Vec<String>,
)
    requires
        all_placed(old(diags)@, fs),
    ensures
        final(defined)@ == old(defined)@,
        progressed(
            old(used)@,
            final(used)@,
            old(diags)@,
            final(diags)@,
            fs,
            st_blocks_uses(bs@, scope_view(old(defined)@)),
            st_blocks_findings(bs@, scope_view(old(defined)@), string_views(globals@)),
        ),
    decreases bs, 0nat,
{
    let ghost def0 = defined@;
    let ghost d = scope_view(defined@);
    let ghost g = string_views(globals@);
    let ghost u0 = string_views(used@);
    let mut i: usize = 0;
    proof {
        assert(bs@.take(0) =~= seq![]);
        assert(fs + seq![] =~= fs);
        assert(u0 + seq![] =~= u0);
    }
    while i < bs.len()
        invariant
            i <= bs@.len(),
            defined@ == def0,
            d == scope_view(def0),
            g == string_views(globals@),
            string_views(used@) == u0 + st_blocks_uses(bs@.take(i as int), d),
            all_placed(diags@, fs + st_blocks_findings(bs@.take(i as int), d, g)),
        decreases bs.len() - i,
    {
        let ghost t = bs@.take(i as int + 1);
        proof {
            assert(t.drop_last() =~= bs@.take(i as int));
            assert(t.last() == bs@[i as int]);
            assert(decreases_to!(bs => bs@[i as int]));
            assert(decreases_to!(bs@[i as int] => bs@[i as int].stmts));
        }
        let ghost f1 = fs + st_blocks_findings(bs@.take(i as int), d, g);
        let ghost u1 = string_views(used@);
        check_expr(&bs[i].cond, used, diags, Ghost(f1), defined, globals);
        let ghost f2 = f1 + expr_findings(bs@[i as int].cond, d, g);
        let ghost u2 = string_views(used@);
        check_statements(&bs[i].stmts, used, diags, Ghost(f2), defined, globals);
        proof {
            assert(f2 + sts_findings(bs@[i as int].stmts@, d, g) =~= fs + st_blocks_findings(t, d, g));
            assert(u2 + sts_uses(bs@[i as int].stmts@, d) =~= u0 + st_blocks_uses(t, d));
        }
        i = i + 1;
    }
    proof {
        assert(bs@.take(i as int) =~= bs@);
    }
}

// ---------------------------------------------------------------------------
// Classes
// ---------------------------------------------------------------------------

/// Whether `c` is a decimal digit.
pub open spec fn is_digit(c: char) -> bool {
    '0' <= c && c <= '9'
}

/// The value of a decimal numeral, if `s` is one.
pub open spec fn decimal_value(s: Seq<char>) -> Option<nat>
    decreases s.len(),
{
    if s.len() == 0 || !is_digit(s.last()) {
        None
    } else if s.len() == 1 {
        Some((s.last() as nat - '0' as nat) as nat)
    } else {
        match decimal_value(s.drop_last()) {
            Some(v) => Some(v * 10 + (s.last() as nat - '0' as nat) as nat),
            None => None,
        }
    }
}

/// The dimensions of a declaration that are written as integer literals
/// (that fit a `usize`), in order.
pub open spec fn literal_dims(ss: Seq<Subscript>) -> Seq<usize>
    decreases ss.len(),
{
    if ss.len() == 0 {
        seq![]
    } else {
        literal_dims(ss.drop_last()) + match ss.last() {
            Subscript::Expression(Expression::Terminal { terminal_type: TerminalType::UnsignedInteger, token }) => match decimal_value(
                token.text@,
            ) {
                Some(v) => if v <= usize::MAX {
                    seq![v as usize]
                } else {
                    seq![]
                },
                None => seq![],
            },
            _ => seq![],
        }
    }
}

proof fn lemma_decimal_grows(s: Seq<char>, k: int)
    requires
        0 < k <= s.len(),
        decimal_value(s) is Some,
    ensures
        decimal_value(s.take(k)) is Some,
        decimal_value(s.take(k)).unwrap() <= decimal_value(s).unwrap(),
    decreases s.len(),
{
    if k < s.len() {
        assert(s.drop_last().take(k) =~= s.take(k));
        lemma_decimal_grows(s.drop_last(), k);
    } else {
        assert(s.take(k) =~= s);
    }
}

/// The value of a decimal numeral that fits a `usize`.
fn decimal_usize(s: &[char]) -> (r: Option<usize>)
    ensures
        match r {
            Some(v) => decimal_value(s@) == Some(v as nat),
            None => decimal_value(s@) is None || decimal_value(s@).unwrap() > usize::MAX,
        },
{
    if s.len() == 0 {
        return None;
    }
    let mut v: usize = 0;
    let mut i: usize = 0;
    while i < s.len()
        invariant
            0 < s@.len(),
            i <= s@.len(),
            i == 0 ==> v == 0,
            i > 0 ==> decimal_value(s@.take(i as int)) == Some(v as nat),
        decreases s.len() - i,
    {
        let c = s[i];
        proof {
            let t = s@.take(i as int + 1);
            assert(t.drop_last() =~= s@.take(i as int));
            assert(t.last() == c);
        }
        if !('0' <= c && c <= '9') {
            proof {
                if decimal_value(s@) is Some {
                    lemma_decimal_grows(s@, i as int + 1);
                }
            }
            return None;
        }
        let d = (c as u32 - '0' as u32) as usize;
        match v.checked_mul(10) {
            Some(m) => match m.checked_add(d) {
                Some(n) => {
                    v = n;
                },
                None => {
                    proof {
                        if decimal_value(s@) is Some {
                            lemma_decimal_grows(s@, i as int + 1);
                        }
                    }
                    return None;
                },
            },
            None => {
                proof {
                    if decimal_value(s@) is Some {
                        lemma_decimal_grows(s@, i as int + 1);
                    }
                }
                return None;
            },
        }
        i = i + 1;
    }
    assert(s@.take(s@.len() as int) =~= s@);
    Some(v)
}

/// The dimensions written as integer literals (see `literal_dims`).
pub(crate) fn literal_dimensions(ss: &Vec<Subscript>) -> (r: Vec<usize>)
    ensures
        r@ == literal_dims(ss@),
{
    let mut out: Vec<usize> = Vec::new();
    let mut i: usize = 0;
    while i < ss.len()
        invariant
            i <= ss@.len(),
            out@ == literal_dims(ss@.take(i as int)),
        decreases ss.len() - i,
    {
        proof {
            let t = ss@.take(i as int + 1);
            assert(t.drop_last() =~= ss@.take(i as int));
            assert(t.last() == ss@[i as int]);
        }
        match &ss[i] {
            Subscript::Expression(Expression::Terminal { terminal_type: TerminalType::UnsignedInteger, token }) => {
                let chars = crate::text::str_to_chars(token.text.as_str());
                match decimal_usize(&chars) {
                    Some(v) => {
                        out.push(v);
                    },
                    None => {},
                }
            },
            _ => {},
        }
        i = i + 1;
    }
    assert(ss@.take(i as int) =~= ss@);
    out
}

/// What the diagnostics record of a declaration: its line and column
/// (from 1), whether it is a parameter, whether a class, whether it has a
/// default value, its declared type and its dimensions.
pub type DeclInfo = (u32, u32, bool, bool, bool, Seq<char>, Seq<usize>);

/// The record of a declared symbol.
pub open spec fn decl_info(s: DefinedSymbol) -> DeclInfo {
    (s.line, s.col, s.is_parameter, s.is_class, s.has_default, s.declared_type@, s.shape@)
}

/// The records of declared symbols, by name.
pub open spec fn decl_list(v: Seq<(String, DefinedSymbol)>) -> Seq<(Seq<char>, DeclInfo)> {
    v.map_values(|e: (String, DefinedSymbol)| (e.0@, decl_info(e.1)))
}

/// The record of a component: at its type's first token (or line 1,
/// column 1), a parameter if declared so, with a default if it has a
/// binding, of its type's dotted name and its literal dimensions.
pub open spec fn component_decl(c: Component) -> DeclInfo {
    let ts = c.type_path.name@;
    (
        if ts.len() > 0 { ts[0].location.start_line } else { 1 },
        if ts.len() > 0 { ts[0].location.start_column } else { 1 },
        c.variability is Parameter,
        false,
        !(c.start is Empty),
        name_text(c.type_path),
        literal_dims(c.shape@),
    )
}

/// The record of a nested class named `n`: a class at line 1, column 1, of type `n`.
pub open spec fn nested_decl(n: Seq<char>) -> DeclInfo {
    (1, 1, false, true, true, n, Seq::<usize>::empty())
}

/// The records of the first `n` components, inserted by name.
pub open spec fn comps_decls(cs: Seq<Component>, n: int) -> Seq<(Seq<char>, DeclInfo)>
    decreases n,
{
    if n <= 0 {
        seq![]
    } else {
        insert_entry(comps_decls(cs, n - 1), cs[n - 1].name@, component_decl(cs[n - 1]))
    }
}

/// `base` with the records of the first `n` nested classes inserted by name.
pub open spec fn nested_decls(base: Seq<(Seq<char>, DeclInfo)>, cls: Seq<ClassDefinition>, n: int) -> Seq<
    (Seq<char>, DeclInfo),
>
    decreases n,
{
    if n <= 0 {
        base
    } else {
        insert_entry(nested_decls(base, cls, n - 1), cls[n - 1].name.text@, nested_decl(cls[n - 1].name.text@))
    }
}

/// The declarations of a class: its components, then its nested classes,
/// a later one of a name replacing an earlier in its place.
pub open spec fn class_decls(c: ClassDefinition) -> Seq<(Seq<char>, DeclInfo)> {
    nested_decls(comps_decls(c.components@, c.components@.len() as int), c.classes@, c.classes@.len() as int)
}

/// The scope of declarations, as type inference reads it.
pub open spec fn decl_scope(ds: Seq<(Seq<char>, DeclInfo)>) -> ScopeView {
    ds.map_values(|e: (Seq<char>, DeclInfo)| (e.0, (e.1.5, e.1.6)))
}

/// The names a binding uses: the first part of each reference and the
/// name of each called function.
pub open spec fn start_uses(e: Expression) -> Seq<Seq<char>>
    decreases e, 0nat,
{
    match e {
        Expression::ComponentReference(c) => if c.parts@.len() > 0 {
            seq![c.parts@[0].ident.text@]
        } else {
            seq![]
        },
        Expression::FunctionCall { comp, args } => (if comp.parts@.len() > 0 {
            seq![comp.parts@[0].ident.text@]
        } else {
            seq![]
        }) + starts_list_uses(args@),
        Expression::Unary { rhs, .. } => start_uses(*rhs),
        Expression::Binary { lhs, rhs, .. } => start_uses(*lhs) + start_uses(*rhs),
        Expression::Array { elements } => starts_list_uses(elements@),
        Expression::Tuple { elements } => starts_list_uses(elements@),
        Expression::If { branches, else_branch } => start_branches_uses(branches@) + start_uses(*else_branch),
        Expression::Range { start, step, end } => start_uses(*start) + (match step {
            Some(s) => start_uses(*s),
            None => seq![],
        }) + start_uses(*end),
        Expression::NamedArgument { value, .. } => start_uses(*value),
        _ => seq![],
    }
}

/// `start_uses` of expressions, one after another.
pub open spec fn starts_list_uses(es: Seq<Expression>) -> Seq<Seq<char>>
    decreases es, 0nat,
{
    if es.len() == 0 {
        seq![]
    } else {
        starts_list_uses(es.drop_last()) + start_uses(es.last())
    }
}

/// `start_uses` of the branches of an if-expression.
pub open spec fn start_branches_uses(bs: Seq<ExpressionBranch>) -> Seq<Seq<char>>
    decreases bs, 0nat,
{
    if bs.len() == 0 {
        seq![]
    } else {
        start_branches_uses(bs.drop_last()) + start_uses(bs.last().cond) + start_uses(bs.last().value)
    }
}

/// The names the bindings of components use.
pub open spec fn comps_start_uses(cs: Seq<Component>) -> Seq<Seq<char>>
    decreases cs.len(),
{
    if cs.len() == 0 {
        seq![]
    } else {
        comps_start_uses(cs.drop_last()) + start_uses(cs.last().start)
    }
}

/// The findings of algorithm sections, one after another.
pub open spec fn algs_findings(a: Seq<Vec<Statement>>, d: ScopeView, g: Seq<Seq<char>>) -> Seq<Finding>
    decreases a.len(),
{
    if a.len() == 0 {
        seq![]
    } else {
        algs_findings(a.drop_last(), d, g) + sts_findings(a.last()@, d, g)
    }
}

/// The names used in algorithm sections.
pub open spec fn algs_uses(a: Seq<Vec<Statement>>, d: ScopeView) -> Seq<Seq<char>>
    decreases a.len(),
{
    if a.len() == 0 {
        seq![]
    } else {
        algs_uses(a.drop_last(), d) + sts_uses(a.last()@, d)
    }
}

/// The names a class uses: in the bindings of its components, its
/// equations and its algorithms.
pub open spec fn class_uses(c: ClassDefinition, d: ScopeView) -> Seq<Seq<char>> {
    comps_start_uses(c.components@) + eqs_uses(c.equations@, d) + eqs_uses(c.initial_equations@, d) + algs_uses(
        c.algorithms@,
        d,
    ) + algs_uses(c.initial_algorithms@, d)
}

/// The message for a variable declared but never used.
pub open spec fn unused_message(n: Seq<char>) -> Seq<char> {
    "Variable '"@ + n + "' is declared but never used"@
}

/// The message for a parameter without a default value.
pub open spec fn no_default_message(n: Seq<char>) -> Seq<char> {
    "Parameter '"@ + n + "' has no default value - consider adding one"@
}

/// Whether a name starts with `_`.
pub open spec fn underscored(n: Seq<char>) -> bool {
    n.len() > 0 && n[0] == '_'
}

/// Warnings for the declarations never used: not parameters, classes or
/// instances of classes, and not named with a leading `_`.
pub open spec fn unused_findings(ds: Seq<(Seq<char>, DeclInfo)>, used: Seq<Seq<char>>) -> Seq<Finding>
    decreases ds.len(),
{
    if ds.len() == 0 {
        seq![]
    } else {
        let (n, i) = ds.last();
        unused_findings(ds.drop_last(), used) + if !used.contains(n) && !underscored(n) && !i.2 && !i.3
            && !is_class_instance_spec(i.5) {
            seq![(i.0, i.1, unused_message(n), Severity::Warning)]
        } else {
            seq![]
        }
    }
}

/// Hints for the parameters without a default value.
pub open spec fn param_findings(ds: Seq<(Seq<char>, DeclInfo)>) -> Seq<Finding>
    decreases ds.len(),
{
    if ds.len() == 0 {
        seq![]
    } else {
        let (n, i) = ds.last();
        param_findings(ds.drop_last()) + if i.2 && !i.4 {
            seq![(i.0, i.1, no_default_message(n), Severity::Hint)]
        } else {
            seq![]
        }
    }
}

/// The findings of a class: those of its equations, initial equations,
/// algorithms and initial algorithms under its declarations and the globals
/// `g`; then its unused variables; then its parameters without default;
/// then those of its nested classes.
pub open spec fn class_findings(c: ClassDefinition, g: Seq<Seq<char>>) -> Seq<Finding>
    decreases c, 1nat,
{
    let ds = class_decls(c);
    let d = decl_scope(ds);
    eqs_findings(c.equations@, d, g) + eqs_findings(c.initial_equations@, d, g) + algs_findings(c.algorithms@, d, g)
        + algs_findings(c.initial_algorithms@, d, g) + unused_findings(ds, class_uses(c, d)) + param_findings(ds)
        + classes_findings(c.classes@, g)
}

/// The findings of classes, one after another.
pub open spec fn classes_findings(cs: Seq<ClassDefinition>, g: Seq<Seq<char>>) -> Seq<Finding>
    decreases cs, 0nat,
{
    if cs.len() == 0 {
        seq![]
    } else {
        classes_findings(cs.drop_last(), g) + class_findings(cs.last(), g)
    }
}

/// Declares a symbol: a name already declared keeps its place.
fn declare(defined: &mut Vec<(String, DefinedSymbol)>, name: &String, sym: DefinedSymbol)
    ensures
        decl_list(final(defined)@) == insert_entry(decl_list(old(defined)@), name@, decl_info(sym)),
{
    proof {
        assert(keys_of(decl_list(defined@)) =~= string_keys(defined@));
        crate::dae::lemma_key_index_bounds(string_keys(defined@), name@);
    }
    let chars = crate::text::str_to_chars(name.as_str());
    let ghost info = decl_info(sym);
    match crate::dae::key_position(defined, &chars) {
        Some(i) => {
            defined.set(i, (name.clone(), sym));
        },
        None => {
            defined.push((name.clone(), sym));
        },
    }
    proof {
        assert(decl_list(defined@) =~= insert_entry(decl_list(old(defined)@), name@, info));
    }
}

/// The symbol a component declares (see `component_decl`).
fn component_symbol(c: &Component) -> (r: DefinedSymbol)
    ensures
        decl_info(r) == component_decl(*c),
{
    let (line, col) = if c.type_path.name.len() > 0 {
        (c.type_path.name[0].location.start_line, c.type_path.name[0].location.start_column)
    } else {
        (1, 1)
    };
    let n = crate::text::str_to_chars(c.name.as_str()).len();
    let len: u32 = if n <= 0xffff_ffff { n as u32 } else { 0xffff_ffff };
    let mut t: Vec<char> = Vec::new();
    crate::formatter::write_name(&mut t, &c.type_path);
    assert(t@ =~= name_text(c.type_path));
    DefinedSymbol {
        line,
        col,
        name_len: len,
        is_parameter: matches!(c.variability, Variability::Parameter(_)),
        is_class: false,
        has_default: !matches!(c.start, Expression::Empty),
        declared_type: crate::text::chars_to_string(&t),
        shape: literal_dimensions(&c.shape),
    }
}

/// The symbol a nested class declares (see `nested_decl`).
fn nested_symbol(n: &String) -> (r: DefinedSymbol)
    ensures
        decl_info(r) == nested_decl(n@),
{
    let k = crate::text::str_to_chars(n.as_str()).len();
    let len: u32 = if k <= 0xffff_ffff { k as u32 } else { 0xffff_ffff };
    let r = DefinedSymbol {
        line: 1,
        col: 1,
        name_len: len,
        is_parameter: false,
        is_class: true,
        has_default: true,
        declared_type: n.clone(),
        shape: Vec::new(),
    };
    assert(r.shape@ =~= Seq::<usize>::empty());
    r
}

/// Notes the names a binding uses (see `start_uses`).
fn collect_start_uses(e: &Expression, used: &mut Vec<String>)
    ensures
        string_views(final(used)@) == string_views(old(used)@) + start_uses(*e),
    decreases e, 1nat,
{
    let ghost u0 = string_views(used@);
    match e {
        Expression::ComponentReference(c) => {
            if c.parts.len() > 0 {
                used.push(c.parts[0].ident.text.clone());
            }
        },
        Expression::FunctionCall { comp, args } => {
            if comp.parts.len() > 0 {
                used.push(comp.parts[0].ident.text.clone());
            }
            collect_starts_list(args, used);
        },
        Expression::Unary { rhs, .. } => collect_start_uses(rhs, used),
        Expression::Binary { lhs, rhs, .. } => {
            collect_start_uses(lhs, used);
            collect_start_uses(rhs, used);
        },
        Expression::Array { elements } => collect_starts_list(elements, used),
        Expression::Tuple { elements } => collect_starts_list(elements, used),
        Expression::If { branches, else_branch } => {
            collect_start_branches(branches, used);
            collect_start_uses(else_branch, used);
        },
        Expression::Range { start, step, end } => {
            collect_start_uses(start, used);
            match step {
                Some(s) => collect_start_uses(s, used),
                None => {},
            }
            collect_start_uses(end, used);
        },
        Expression::NamedArgument { value, .. } => collect_start_uses(value, used),
        _ => {},
    }
    assert(string_views(used@) =~= u0 + start_uses(*e));
}

/// Notes the names expressions use as bindings.
fn collect_starts_list(es: &Vec<Expression>, used: &mut Vec<String>)
    ensures
        string_views(final(used)@) == string_views(old(used)@) + starts_list_uses(es@),
    decreases es, 0nat,
{
    let ghost u0 = string_views(used@);
    let mut i: usize = 0;
    while i < es.len()
        invariant
            i <= es@.len(),
            string_views(used@) == u0 + starts_list_uses(es@.take(i as int)),
        decreases es.len() - i,
    {
        proof {
            let t = es@.take(i as int + 1);
            assert(t.drop_last() =~= es@.take(i as int));
            assert(t.last() == es@[i as int]);
            assert(decreases_to!(es => es@[i as int]));
        }
        collect_start_uses(&es[i], used);
        i = i + 1;
    }
    assert(es@.take(i as int) =~= es@);
}

/// Notes the names the branches of an if-expression use as bindings.
fn collect_start_branches(bs: &Vec<ExpressionBranch>, used: &mut Vec<String>)
    ensures
        string_views(final(used)@) == string_views(old(used)@) + start_branches_uses(bs@),
    decreases bs, 0nat,
{
    let ghost u0 = string_views(used@);
    let mut i: usize = 0;
    while i < bs.len()
        invariant
            i <= bs@.len(),
            string_views(used@) == u0 + start_branches_uses(bs@.take(i as int)),
        decreases bs.len() - i,
    {
        proof {
            let t = bs@.take(i as int + 1);
            assert(t.drop_last() =~= bs@.take(i as int));
            assert(t.last() == bs@[i as int]);
            assert(decreases_to!(bs => bs@[i as int]));
        }
        collect_start_uses(&bs[i].cond, used);
        collect_start_uses(&bs[i].value, used);
        i = i + 1;
    }
    assert(bs@.take(i as int) =~= bs@);
}

/// A message `pre`, the name, `post`.
fn quoted(pre: &str, name: &String, post: &str) -> (r: String)
    ensures
        r@ == pre@ + name@ + post@,
{
    let mut m: Vec<char> = Vec::new();
    crate::printer::append_str(&mut m, pre);
    crate::printer::append_str(&mut m, name.as_str());
    crate::printer::append_str(&mut m, post);
    crate::text::chars_to_string(&m)
}

/// Checks algorithm sections, one after another.
fn check_algorithms(
    a: &Vec<Vec<Statement>>,
    used: &mut Vec<String>,
    diags: &mut Vec<Diagnostic>,
    Ghost(fs): Ghost<Seq<Finding>>,
    defined: &mut Vec<(String, DefinedSymbol)>,
    globals: &Vec<String>,
)
    requires
        all_placed(old(diags)@, fs),
    ensures
        final(defined)@ == old(defined)@,
        progressed(
            old(used)@,
            final(used)@,
            old(diags)@,
            final(diags)@,
            fs,
            algs_uses(a@, scope_view(old(defined)@)),
            algs_findings(a@, scope_view(old(defined)@), string_views(globals@)),
        ),
{
    let ghost def0 = defined@;
    let ghost d = scope_view(defined@);
    let ghost g = string_views(globals@);
    let ghost u0 = string_views(used@);
    let mut i: usize = 0;
    proof {
        assert(a@.take(0) =~= seq![]);
        assert(fs + seq![] =~= fs);
        assert(u0 + seq![] =~= u0);
    }
    while i < a.len()
        invariant
            i <= a@.len(),
            defined@ == def0,
            d == scope_view(def0),
            g == string_views(globals@),
            string_views(used@) == u0 + algs_uses(a@.take(i as int), d),
            all_placed(diags@, fs + algs_findings(a@.take(i as int), d, g)),
        decreases a.len() - i,
    {
        let ghost t = a@.take(i as int + 1);
        proof {
            assert(t.drop_last() =~= a@.take(i as int));
            assert(t.last() == a@[i as int]);
        }
        let ghost f1 = fs + algs_findings(a@.take(i as int), d, g);
        let ghost u1 = string_views(used@);
        check_statements(&a[i], used, diags, Ghost(f1), defined, globals);
        proof {
            assert(f1 + sts_findings(a@[i as int]@, d, g) =~= fs + algs_findings(t, d, g));
            assert(u1 + sts_uses(a@[i as int]@, d) =~= u0 + algs_uses(t, d));
        }
        i = i + 1;
    }
    proof {
        assert(a@.take(i as int) =~= a@);
    }
}

/// Whether a name starts with `_`.
fn is_underscored(n: &String) -> (r: bool)
    ensures
        r == underscored(n@),
{
    let c = crate::text::str_to_chars(n.as_str());
    c.len() > 0 && c[0] == '_'
}

/// Diagnoses a class and its nested classes (see `class_findings`).
#[verifier::spinoff_prover]
#[verifier::rlimit(30)]
fn analyze_into(class: &ClassDefinition, globals: &Vec<String>, diags: &mut Vec<Diagnostic>, Ghost(fs): Ghost<Seq<Finding>>)
    requires
        all_placed(old(diags)@, fs),
    ensures
        all_placed(final(diags)@, fs + class_findings(*class, string_views(globals@))),
    decreases class, 1nat,
{
    proof {
        reveal_strlit("Variable '");
        reveal_strlit("' is declared but never used");
        reveal_strlit("Parameter '");
        reveal_strlit("' has no default value - consider adding one");
    }
    let ghost g = string_views(globals@);
    let ghost cs = class.components@;
    let mut defined: Vec<(String, DefinedSymbol)> = Vec::new();
    let mut used: Vec<String> = Vec::new();
    let mut i: usize = 0;
    proof {
        assert(decl_list(defined@) =~= seq![]);
        assert(string_views(used@) =~= seq![]);
        assert(cs.take(0) =~= seq![]);
    }
    while i < class.components.len()
        invariant
            i <= cs.len(),
            cs == class.components@,
            decl_list(defined@) == comps_decls(cs, i as int),
            string_views(used@) == comps_start_uses(cs.take(i as int)),
        decreases cs.len() - i,
    {
        let c = &class.components[i];
        let sym = component_symbol(c);
        declare(&mut defined, &c.name, sym);
        collect_start_uses(&c.start, &mut used);
        proof {
            let t = cs.take(i as int + 1);
            assert(t.drop_last() =~= cs.take(i as int));
            assert(t.last() == cs[i as int]);
        }
        i = i + 1;
    }
    proof {
        assert(cs.take(i as int) =~= cs);
    }
    let ghost base = decl_list(defined@);
    let mut j: usize = 0;
    while j < class.classes.len()
        invariant
            j <= class.classes@.len(),
            base == comps_decls(cs, cs.len() as int),
            decl_list(defined@) == nested_decls(base, class.classes@, j as int),
            string_views(used@) == comps_start_uses(cs),
        decreases class.classes.len() - j,
    {
        let n = &class.classes[j].name.text;
        let sym = nested_symbol(n);
        declare(&mut defined, n, sym);
        j = j + 1;
    }
    let ghost ds = decl_list(defined@);
    let ghost d = decl_scope(ds);
    proof {
        assert(ds == class_decls(*class));
        assert(scope_view(defined@) =~= d);
    }
    check_equations(&class.equations, &mut used, diags, Ghost(fs), &mut defined, globals);
    let ghost f1 = fs + eqs_findings(class.equations@, d, g);
    check_equations(&class.initial_equations, &mut used, diags, Ghost(f1), &mut defined, globals);
    let ghost f2 = f1 + eqs_findings(class.initial_equations@, d, g);
    check_algorithms(&class.algorithms, &mut used, diags, Ghost(f2), &mut defined, globals);
    let ghost f3 = f2 + algs_findings(class.algorithms@, d, g);
    check_algorithms(&class.initial_algorithms, &mut used, diags, Ghost(f3), &mut defined, globals);
    let ghost f4 = f3 + algs_findings(class.initial_algorithms@, d, g);
    let ghost uv = string_views(used@);
    proof {
        assert(uv =~= class_uses(*class, d));
    }
    let mut k: usize = 0;
    proof {
        assert(ds.take(0) =~= seq![]);
        assert(f4 + seq![] =~= f4);
    }
    while k < defined.len()
        invariant
            k <= defined@.len(),
            ds == decl_list(defined@),
            uv == string_views(used@),
            all_placed(diags@, f4 + unused_findings(ds.take(k as int), uv)),
        decreases defined.len() - k,
    {
        let ghost t = ds.take(k as int + 1);
        proof {
            assert(t.drop_last() =~= ds.take(k as int));
            assert(t.last() == ds[k as int]);
        }
        let name = &defined[k].0;
        let sym = &defined[k].1;
        let found = string_position(&used, name);
        proof {
            if found is Some {
                let p = found.unwrap() as int;
                assert(uv[p] == name@);
            }
        }
        let ghost f5 = f4 + unused_findings(ds.take(k as int), uv);
        if found.is_none() && !is_underscored(name) && !sym.is_parameter && !sym.is_class && !is_class_instance_type(
            sym.declared_type.as_str(),
        ) {
            let m = quoted("Variable '", name, "' is declared but never used");
            report(diags, Ghost(f5), sym.line, sym.col, m, Severity::Warning);
            proof {
                assert(f5.push((sym.line, sym.col, m@, Severity::Warning)) =~= f4 + unused_findings(t, uv));
            }
        } else {
            proof {
                assert(f5 =~= f4 + unused_findings(t, uv));
            }
        }
        k = k + 1;
    }
    proof {
        assert(ds.take(k as int) =~= ds);
    }
    let ghost f6 = f4 + unused_findings(ds, uv);
    let mut k: usize = 0;
    proof {
        assert(f6 + param_findings(ds.take(0)) =~= f6);
    }
    while k < defined.len()
        invariant
            k <= defined@.len(),
            ds == decl_list(defined@),
            all_placed(diags@, f6 + param_findings(ds.take(k as int))),
        decreases defined.len() - k,
    {
        let ghost t = ds.take(k as int + 1);
        proof {
            assert(t.drop_last() =~= ds.take(k as int));
            assert(t.last() == ds[k as int]);
        }
        let name = &defined[k].0;
        let sym = &defined[k].1;
        let ghost f7 = f6 + param_findings(ds.take(k as int));
        if sym.is_parameter && !sym.has_default {
            let m = quoted("Parameter '", name, "' has no default value - consider adding one");
            report(diags, Ghost(f7), sym.line, sym.col, m, Severity::Hint);
            proof {
                assert(f7.push((sym.line, sym.col, m@, Severity::Hint)) =~= f6 + param_findings(t));
            }
        } else {
            proof {
                assert(f7 =~= f6 + param_findings(t));
            }
        }
        k = k + 1;
    }
    proof {
        assert(ds.take(k as int) =~= ds);
    }
    let ghost f8 = f6 + param_findings(ds);
    analyze_classes(&class.classes, globals, diags, Ghost(f8));
    proof {
        assert(f8 + classes_findings(class.classes@, g) =~= fs + class_findings(*class, g));
    }
}

/// Diagnoses classes, one after another.
fn analyze_classes(cs: &Vec<ClassDefinition>, globals: &Vec<String>, diags: &mut Vec<Diagnostic>, Ghost(fs): Ghost<Seq<Finding>>)
    requires
        all_placed(old(diags)@, fs),
    ensures
        all_placed(final(diags)@, fs + classes_findings(cs@, string_views(globals@))),
    decreases cs, 0nat,
{
    let ghost g = string_views(globals@);
    let mut i: usize = 0;
    proof {
        assert(fs + classes_findings(cs@.take(0), g) =~= fs);
    }
    while i < cs.len()
        invariant
            i <= cs@.len(),
            g == string_views(globals@),
            all_placed(diags@, fs + classes_findings(cs@.take(i as int), g)),
        decreases cs.len() - i,
    {
        let ghost t = cs@.take(i as int + 1);
        proof {
            assert(t.drop_last() =~= cs@.take(i as int));
            assert(t.last() == cs@[i as int]);
            assert(decreases_to!(cs => cs@[i as int]));
        }
        let ghost f1 = fs + classes_findings(cs@.take(i as int), g);
        analyze_into(&cs[i], globals, diags, Ghost(f1));
        proof {
            assert(f1 + class_findings(cs@[i as int], g) =~= fs + classes_findings(t, g));
        }
        i = i + 1;
    }
    proof {
        assert(cs@.take(i as int) =~= cs@);
    }
}

/// Diagnoses a class, with `globals` as the names known everywhere: the
/// diagnostics of `class_findings`, placed, are added after those there were.
pub fn analyze_class(class: &ClassDefinition, globals: &Vec<String>, diagnostics: &mut Vec<Diagnostic>)
    ensures
        final(diagnostics)@.len() >= old(diagnostics)@.len(),
        final(diagnostics)@.take(old(diagnostics)@.len() as int) == old(diagnostics)@,
        all_placed(
            final(diagnostics)@.skip(old(diagnostics)@.len() as int),
            class_findings(*class, string_views(globals@)),
        ),
{
    let mut found: Vec<Diagnostic> = Vec::new();
    proof {
        assert(all_placed(found@, Seq::<Finding>::empty()));
    }
    analyze_into(class, globals, &mut found, Ghost(Seq::<Finding>::empty()));
    let ghost fv = found@;
    diagnostics.append(&mut found);
    proof {
        assert(Seq::<Finding>::empty() + class_findings(*class, string_views(globals@)) =~= class_findings(
            *class,
            string_views(globals@),
        ));
        assert(final(diagnostics)@.skip(old(diagnostics)@.len() as int) =~= fv);
        assert(final(diagnostics)@.take(old(diagnostics)@.len() as int) =~= old(diagnostics)@);
    }
}

} // verus!
