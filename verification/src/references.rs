//! The references of a symbol: each place in a document's syntax tree where
//! its name occurs, with or without the places that declare it.
use vstd::prelude::*;
use crate::ast::{
    ClassDefinition, Component, Equation, EquationBlock, Expression, ForIndex, Statement, StatementBlock,
    StoredDefinition,
};
use crate::rename::{
    at, at_exec, before, collect_cref_hits, collect_expr_hits, collect_exprs_hits, collect_hit, cref_hits,
    expr_hits, exprs_hits, hit, tokens_hits, Position, Range,
};

verus! {

// ---------------------------------------------------------------------------
// Places
// ---------------------------------------------------------------------------

/// Places at the given positions (line and column, from 0), with no offset.
/// A place is a position and how many columns past it the reference starts.
pub open spec fn lift(ps: Seq<(u32, u32)>) -> Seq<(u32, u32, u128)> {
    ps.map_values(|p: (u32, u32)| (p.0, p.1, 0u128))
}

/// Where a component's own name is taken to be: one column past the end of
/// its type's first token, on that token's line.
pub open spec fn decl_place(c: Component) -> (u32, u32, u128) {
    let f = c.type_path.name@[0];
    (before(f.location.start_line), before(f.location.start_column), (f.text@.len() + 1) as u128)
}

/// The references in a component: its own name where declarations count and
/// it has a type, then the tokens of its type, then its binding.
pub open spec fn comp_refs(c: Component, n: Seq<char>, decl: bool) -> Seq<(u32, u32, u128)> {
    (if decl && c.name@ == n && c.type_path.name@.len() > 0 {
        seq![decl_place(c)]
    } else {
        seq![]
    }) + lift(tokens_hits(c.type_path.name@, n)) + lift(expr_hits(c.start, n))
}

/// The references in components, one after another.
pub open spec fn comps_refs(cs: Seq<Component>, n: Seq<char>, decl: bool) -> Seq<(u32, u32, u128)>
    decreases cs.len(),
{
    if cs.len() == 0 {
        seq![]
    } else {
        comps_refs(cs.drop_last(), n, decl) + comp_refs(cs.last(), n, decl)
    }
}

/// The references in `for` indices: each index's own name, then its range.
pub open spec fn indices_refs(xs: Seq<ForIndex>, n: Seq<char>) -> Seq<(u32, u32, u128)>
    decreases xs.len(),
{
    if xs.len() == 0 {
        seq![]
    } else {
        indices_refs(xs.drop_last(), n) + lift(hit(xs.last().ident, n) + expr_hits(xs.last().range, n))
    }
}

/// The references in an equation.
pub open spec fn eq_refs(eq: Equation, n: Seq<char>) -> Seq<(u32, u32, u128)>
    decreases eq, 0nat,
{
    match eq {
        Equation::Simple { lhs, rhs } => lift(expr_hits(lhs, n) + expr_hits(rhs, n)),
        Equation::Connect { lhs, rhs } => lift(cref_hits(lhs, n) + cref_hits(rhs, n)),
        Equation::For { indices, equations } => indices_refs(indices@, n) + eqs_refs(equations@, n),
        Equation::When(blocks) => eq_blocks_refs(blocks@, n),
        Equation::If { cond_blocks, else_block } => eq_blocks_refs(cond_blocks@, n) + match else_block {
            Some(x) => eqs_refs(x@, n),
            None => seq![],
        },
        Equation::FunctionCall { comp, args } => lift(cref_hits(comp, n) + exprs_hits(args@, n)),
        _ => seq![],
    }
}

/// The references in equations.
pub open spec fn eqs_refs(eqs: Seq<Equation>, n: Seq<char>) -> Seq<(u32, u32, u128)>
    decreases eqs, 0nat,
{
    if eqs.len() == 0 {
        seq![]
    } else {
        eqs_refs(eqs.drop_last(), n) + eq_refs(eqs.last(), n)
    }
}

/// The references in guarded blocks: condition, then equations.
pub open spec fn eq_blocks_refs(bs: Seq<EquationBlock>, n: Seq<char>) -> Seq<(u32, u32, u128)>
    decreases bs, 0nat,
{
    if bs.len() == 0 {
        seq![]
    } else {
        eq_blocks_refs(bs.drop_last(), n) + lift(expr_hits(bs.last().cond, n)) + eqs_refs(bs.last().eqs@, n)
    }
}

/// The references in a statement.
pub open spec fn st_refs(st: Statement, n: Seq<char>) -> Seq<(u32, u32, u128)>
    decreases st, 0nat,
{
    match st {
        Statement::Assignment { comp, value } => lift(cref_hits(comp, n) + expr_hits(value, n)),
        Statement::FunctionCall { comp, args } => lift(cref_hits(comp, n) + exprs_hits(args@, n)),
        Statement::For { indices, equations } => indices_refs(indices@, n) + sts_refs(equations@, n),
        Statement::While(block) => lift(expr_hits(block.cond, n)) + sts_refs(block.stmts@, n),
        Statement::If { cond_blocks, else_block } => st_blocks_refs(cond_blocks@, n) + match else_block {
            Some(x) => sts_refs(x@, n),
            None => seq![],
        },
        Statement::When(blocks) => st_blocks_refs(blocks@, n),
        _ => seq![],
    }
}

/// The references in statements.
pub open spec fn sts_refs(sts: Seq<Statement>, n: Seq<char>) -> Seq<(u32, u32, u128)>
    decreases sts, 0nat,
{
    if sts.len() == 0 {
        seq![]
    } else {
        sts_refs(sts.drop_last(), n) + st_refs(sts.last(), n)
    }
}

/// The references in guarded statement blocks.
pub open spec fn st_blocks_refs(bs: Seq<StatementBlock>, n: Seq<char>) -> Seq<(u32, u32, u128)>
    decreases bs, 0nat,
{
    if bs.len() == 0 {
        seq![]
    } else {
        st_blocks_refs(bs.drop_last(), n) + lift(expr_hits(bs.last().cond, n)) + sts_refs(bs.last().stmts@, n)
    }
}

/// The references in algorithm sections.
pub open spec fn algs_refs(a: Seq<Vec<Statement>>, n: Seq<char>) -> Seq<(u32, u32, u128)>
    decreases a.len(),
{
    if a.len() == 0 {
        seq![]
    } else {
        algs_refs(a.drop_last(), n) + sts_refs(a.last()@, n)
    }
}

/// The references in a class: its own name where declarations count; then
/// its components, equations, initial equations, algorithms, initial
/// algorithms and nested classes.
pub open spec fn class_refs(c: ClassDefinition, n: Seq<char>, decl: bool) -> Seq<(u32, u32, u128)>
    decreases c, 1nat,
{
    (if decl && c.name.text@ == n {
        lift(seq![at(c.name)])
    } else {
        seq![]
    }) + comps_refs(c.components@, n, decl) + eqs_refs(c.equations@, n) + eqs_refs(c.initial_equations@, n)
        + algs_refs(c.algorithms@, n) + algs_refs(c.initial_algorithms@, n) + nested_refs(c.classes@, n, decl)
}

/// The references in nested classes: for each, its name where declarations
/// count, then the references in it.
pub open spec fn nested_refs(cs: Seq<ClassDefinition>, n: Seq<char>, decl: bool) -> Seq<(u32, u32, u128)>
    decreases cs, 0nat,
{
    if cs.len() == 0 {
        seq![]
    } else {
        nested_refs(cs.drop_last(), n, decl) + (if decl {
            lift(hit(cs.last().name, n))
        } else {
            seq![]
        }) + class_refs(cs.last(), n, decl)
    }
}

/// The references in the top-level classes of a document.
pub open spec fn top_refs(cs: Seq<ClassDefinition>, n: Seq<char>, decl: bool) -> Seq<(u32, u32, u128)>
    decreases cs.len(),
{
    if cs.len() == 0 {
        seq![]
    } else {
        top_refs(cs.drop_last(), n, decl) + class_refs(cs.last(), n, decl)
    }
}

/// The range of `len` characters at a place.
pub open spec fn place_range(p: (u32, u32, u128), len: nat) -> Range {
    Range {
        start: Position { line: p.0, character: (p.1 + p.2) as u32 },
        end: Position { line: p.0, character: (p.1 + p.2 + len) as u32 },
    }
}

/// The ranges of `len` characters at places.
pub open spec fn place_ranges(ps: Seq<(u32, u32, u128)>, len: nat) -> Seq<Range> {
    ps.map_values(|p: (u32, u32, u128)| place_range(p, len))
}

/// Whether a range of `len` characters at each of the places ends within the
/// range of `u32`.
pub open spec fn places_fit(ps: Seq<(u32, u32, u128)>, len: nat) -> bool {
    forall|k: int| 0 <= k < ps.len() ==> (#[trigger] ps[k]).1 + ps[k].2 + len <= u32::MAX
}

// ---------------------------------------------------------------------------
// Collecting
// ---------------------------------------------------------------------------

/// Adds the places at the given positions.
fn append_lifted(out: &mut Vec<(u32, u32, u128)>, ps: &Vec<(u32, u32)>)
    ensures
        final(out)@ == old(out)@ + lift(ps@),
{
    let ghost o0 = out@;
    let mut i: usize = 0;
    proof {
        assert(o0 + lift(ps@.take(0)) =~= o0);
    }
    while i < ps.len()
        invariant
            i <= ps@.len(),
            out@ == o0 + lift(ps@.take(i as int)),
        decreases ps.len() - i,
    {
        let (a, b) = ps[i];
        out.push((a, b, 0u128));
        proof {
            assert(lift(ps@.take(i as int + 1)) =~= lift(ps@.take(i as int)).push((a, b, 0u128)));
            assert(out@ =~= o0 + lift(ps@.take(i as int + 1)));
        }
        i = i + 1;
    }
    assert(ps@.take(i as int) =~= ps@);
}

/// Adds the references in an expression.
fn collect_expr_refs(e: &Expression, n: &String, out: &mut Vec<(u32, u32, u128)>)
    ensures
        final(out)@ == old(out)@ + lift(expr_hits(*e, n@)),
{
    let mut tmp: Vec<(u32, u32)> = Vec::new();
    collect_expr_hits(e, n, &mut tmp);
    assert(tmp@ =~= expr_hits(*e, n@));
    append_lifted(out, &tmp);
}

/// Adds the references in a component (see `comp_refs`).
fn collect_comp_refs(c: &Component, n: &String, decl: bool, out: &mut Vec<(u32, u32, u128)>)
    ensures
        final(out)@ == old(out)@ + comp_refs(*c, n@, decl),
{
    let ghost o0 = out@;
    if decl && c.name == *n && c.type_path.name.len() > 0 {
        let f = &c.type_path.name[0];
        let (l, col) = at_exec(f);
        let tl = crate::text::str_to_chars(f.text.as_str()).len();
        out.push((l, col, tl as u128 + 1));
        proof {
            assert((l, col, (tl as u128 + 1) as u128) == decl_place(*c));
        }
    }
    let ghost o1 = out@;
    let mut tmp: Vec<(u32, u32)> = Vec::new();
    let ts = &c.type_path.name;
    let mut i: usize = 0;
    while i < ts.len()
        invariant
            i <= ts@.len(),
            tmp@ == tokens_hits(ts@.take(i as int), n@),
        decreases ts.len() - i,
    {
        collect_hit(&ts[i], n, &mut tmp);
        proof {
            let t = ts@.take(i as int + 1);
            assert(t.drop_last() =~= ts@.take(i as int));
            assert(t.last() == ts@[i as int]);
        }
        i = i + 1;
    }
    assert(ts@.take(i as int) =~= ts@);
    append_lifted(out, &tmp);
    collect_expr_refs(&c.start, n, out);
    assert(out@ =~= o0 + comp_refs(*c, n@, decl));
}

/// Adds the references in `for` indices (see `indices_refs`).
fn collect_indices_refs(xs: &Vec<ForIndex>, n: &String, out: &mut Vec<(u32, u32, u128)>)
    ensures
        final(out)@ == old(out)@ + indices_refs(xs@, n@),
{
    let ghost o0 = out@;
    let mut i: usize = 0;
    proof {
        assert(o0 + indices_refs(xs@.take(0), n@) =~= o0);
    }
    while i < xs.len()
        invariant
            i <= xs@.len(),
            out@ == o0 + indices_refs(xs@.take(i as int), n@),
        decreases xs.len() - i,
    {
        let mut tmp: Vec<(u32, u32)> = Vec::new();
        collect_hit(&xs[i].ident, n, &mut tmp);
        collect_expr_hits(&xs[i].range, n, &mut tmp);
        append_lifted(out, &tmp);
        proof {
            let t = xs@.take(i as int + 1);
            assert(t.drop_last() =~= xs@.take(i as int));
            assert(t.last() == xs@[i as int]);
            assert(tmp@ =~= hit(xs@[i as int].ident, n@) + expr_hits(xs@[i as int].range, n@));
            assert(out@ =~= o0 + indices_refs(t, n@));
        }
        i = i + 1;
    }
    assert(xs@.take(i as int) =~= xs@);
}

/// Adds the references in an equation (see `eq_refs`).
fn collect_eq_refs(eq: &Equation, n: &String, out: &mut Vec<(u32, u32, u128)>)
    ensures
        final(out)@ == old(out)@ + eq_refs(*eq, n@),
    decreases eq, 1nat,
{
    let ghost o0 = out@;
    match eq {
        Equation::Simple { lhs, rhs } => {
            let mut tmp: Vec<(u32, u32)> = Vec::new();
            collect_expr_hits(lhs, n, &mut tmp);
            collect_expr_hits(rhs, n, &mut tmp);
            assert(tmp@ =~= expr_hits(*lhs, n@) + expr_hits(*rhs, n@));
            append_lifted(out, &tmp);
        },
        Equation::Connect { lhs, rhs } => {
            let mut tmp: Vec<(u32, u32)> = Vec::new();
            collect_cref_hits(lhs, n, &mut tmp);
            collect_cref_hits(rhs, n, &mut tmp);
            assert(tmp@ =~= cref_hits(*lhs, n@) + cref_hits(*rhs, n@));
            append_lifted(out, &tmp);
        },
        Equation::For { indices, equations } => {
            collect_indices_refs(indices, n, out);
            collect_eqs_refs(equations, n, out);
        },
        Equation::When(blocks) => collect_eq_blocks_refs(blocks, n, out),
        Equation::If { cond_blocks, else_block } => {
            collect_eq_blocks_refs(cond_blocks, n, out);
            match else_block {
                Some(x) => collect_eqs_refs(x, n, out),
                None => {},
            }
        },
        Equation::FunctionCall { comp, args } => {
            let mut tmp: Vec<(u32, u32)> = Vec::new();
            collect_cref_hits(comp, n, &mut tmp);
            collect_exprs_hits(args, n, &mut tmp);
            assert(tmp@ =~= cref_hits(*comp, n@) + exprs_hits(args@, n@));
            append_lifted(out, &tmp);
        },
        _ => {},
    }
    assert(out@ =~= o0 + eq_refs(*eq, n@));
}

/// Adds the references in equations.
fn collect_eqs_refs(xs: &Vec<Equation>, n: &String, out: &mut Vec<(u32, u32, u128)>)
    ensures
        final(out)@ == old(out)@ + eqs_refs(xs@, n@),
    decreases xs, 0nat,
{
    let ghost o0 = out@;
    let mut i: usize = 0;
    proof {
        assert(o0 + eqs_refs(xs@.take(0), n@) =~= o0);
    }
    while i < xs.len()
        invariant
            i <= xs@.len(),
            out@ == o0 + eqs_refs(xs@.take(i as int), n@),
        decreases xs.len() - i,
    {
        proof {
            let t = xs@.take(i as int + 1);
            assert(t.drop_last() =~= xs@.take(i as int));
            assert(t.last() == xs@[i as int]);
            assert(decreases_to!(xs => xs@[i as int]));
        }
        collect_eq_refs(&xs[i], n, out);
        proof {
            assert(out@ =~= o0 + eqs_refs(xs@.take(i as int + 1), n@));
        }
        i = i + 1;
    }
    assert(xs@.take(i as int) =~= xs@);
}

/// Adds the references in guarded equation blocks.
fn collect_eq_blocks_refs(xs: &Vec<EquationBlock>, n: &String, out: &mut Vec<(u32, u32, u128)>)
    ensures
        final(out)@ == old(out)@ + eq_blocks_refs(xs@, n@),
    decreases xs, 0nat,
{
    let ghost o0 = out@;
    let mut i: usize = 0;
    proof {
        assert(o0 + eq_blocks_refs(xs@.take(0), n@) =~= o0);
    }
    while i < xs.len()
        invariant
            i <= xs@.len(),
            out@ == o0 + eq_blocks_refs(xs@.take(i as int), n@),
        decreases xs.len() - i,
    {
        proof {
            let t = xs@.take(i as int + 1);
            assert(t.drop_last() =~= xs@.take(i as int));
            assert(t.last() == xs@[i as int]);
            assert(decreases_to!(xs => xs@[i as int]));
            assert(decreases_to!(xs@[i as int] => xs@[i as int].eqs));
        }
        collect_expr_refs(&xs[i].cond, n, out);
        collect_eqs_refs(&xs[i].eqs, n, out);
        proof {
            assert(out@ =~= o0 + eq_blocks_refs(xs@.take(i as int + 1), n@));
        }
        i = i + 1;
    }
    assert(xs@.take(i as int) =~= xs@);
}

/// Adds the references in a statement (see `st_refs`).
fn collect_st_refs(st: &Statement, n: &String, out: &mut Vec<(u32, u32, u128)>)
    ensures
        final(out)@ == old(out)@ + st_refs(*st, n@),
    decreases st, 1nat,
{
    let ghost o0 = out@;
    match st {
        Statement::Assignment { comp, value } => {
            let mut tmp: Vec<(u32, u32)> = Vec::new();
            collect_cref_hits(comp, n, &mut tmp);
            collect_expr_hits(value, n, &mut tmp);
            assert(tmp@ =~= cref_hits(*comp, n@) + expr_hits(*value, n@));
            append_lifted(out, &tmp);
        },
        Statement::FunctionCall { comp, args } => {
            let mut tmp: Vec<(u32, u32)> = Vec::new();
            collect_cref_hits(comp, n, &mut tmp);
            collect_exprs_hits(args, n, &mut tmp);
            assert(tmp@ =~= cref_hits(*comp, n@) + exprs_hits(args@, n@));
            append_lifted(out, &tmp);
        },
        Statement::For { indices, equations } => {
            collect_indices_refs(indices, n, out);
            collect_sts_refs(equations, n, out);
        },
        Statement::While(block) => {
            collect_expr_refs(&block.cond, n, out);
            collect_sts_refs(&block.stmts, n, out);
        },
        Statement::If { cond_blocks, else_block } => {
            collect_st_blocks_refs(cond_blocks, n, out);
            match else_block {
                Some(x) => collect_sts_refs(x, n, out),
                None => {},
            }
        },
        Statement::When(blocks) => collect_st_blocks_refs(blocks, n, out),
        _ => {},
    }
    assert(out@ =~= o0 + st_refs(*st, n@));
}

/// Adds the references in statements.
fn collect_sts_refs(xs: &Vec<Statement>, n: &String, out: &mut Vec<(u32, u32, u128)>)
    ensures
        final(out)@ == old(out)@ + sts_refs(xs@, n@),
    decreases xs, 0nat,
{
    let ghost o0 = out@;
    let mut i: usize = 0;
    proof {
        assert(o0 + sts_refs(xs@.take(0), n@) =~= o0);
    }
    while i < xs.len()
        invariant
            i <= xs@.len(),
            out@ == o0 + sts_refs(xs@.take(i as int), n@),
        decreases xs.len() - i,
    {
        proof {
            let t = xs@.take(i as int + 1);
            assert(t.drop_last() =~= xs@.take(i as int));
            assert(t.last() == xs@[i as int]);
            assert(decreases_to!(xs => xs@[i as int]));
        }
        collect_st_refs(&xs[i], n, out);
        proof {
            assert(out@ =~= o0 + sts_refs(xs@.take(i as int + 1), n@));
        }
        i = i + 1;
    }
    assert(xs@.take(i as int) =~= xs@);
}

/// Adds the references in guarded statement blocks.
fn collect_st_blocks_refs(xs: &Vec<StatementBlock>, n: &String, out: &mut Vec<(u32, u32, u128)>)
    ensures
        final(out)@ == old(out)@ + st_blocks_refs(xs@, n@),
    decreases xs, 0nat,
{
    let ghost o0 = out@;
    let mut i: usize = 0;
    proof {
        assert(o0 + st_blocks_refs(xs@.take(0), n@) =~= o0);
    }
    while i < xs.len()
        invariant
            i <= xs@.len(),
            out@ == o0 + st_blocks_refs(xs@.take(i as int), n@),
        decreases xs.len() - i,
    {
        proof {
            let t = xs@.take(i as int + 1);
            assert(t.drop_last() =~= xs@.take(i as int));
            assert(t.last() == xs@[i as int]);
            assert(decreases_to!(xs => xs@[i as int]));
            assert(decreases_to!(xs@[i as int] => xs@[i as int].stmts));
        }
        collect_expr_refs(&xs[i].cond, n, out);
        collect_sts_refs(&xs[i].stmts, n, out);
        proof {
            assert(out@ =~= o0 + st_blocks_refs(xs@.take(i as int + 1), n@));
        }
        i = i + 1;
    }
    assert(xs@.take(i as int) =~= xs@);
}

/// Adds the references in algorithm sections.
fn collect_algs_refs(a: &Vec<Vec<Statement>>, n: &String, out: &mut Vec<(u32, u32, u128)>)
    ensures
        final(out)@ == old(out)@ + algs_refs(a@, n@),
{
    let ghost o0 = out@;
    let mut i: usize = 0;
    proof {
        assert(o0 + algs_refs(a@.take(0), n@) =~= o0);
    }
    while i < a.len()
        invariant
            i <= a@.len(),
            out@ == o0 + algs_refs(a@.take(i as int), n@),
        decreases a.len() - i,
    {
        collect_sts_refs(&a[i], n, out);
        proof {
            let t = a@.take(i as int + 1);
            assert(t.drop_last() =~= a@.take(i as int));
            assert(t.last() == a@[i as int]);
            assert(out@ =~= o0 + algs_refs(t, n@));
        }
        i = i + 1;
    }
    assert(a@.take(i as int) =~= a@);
}

/// Adds the references in a class (see `class_refs`).
fn collect_class_refs(c: &ClassDefinition, n: &String, decl: bool, out: &mut Vec<(u32, u32, u128)>)
    ensures
        final(out)@ == old(out)@ + class_refs(*c, n@, decl),
    decreases c, 1nat,
{
    let ghost o0 = out@;
    if decl && c.name.text == *n {
        let (l, col) = at_exec(&c.name);
        out.push((l, col, 0u128));
        assert(seq![(l, col, 0u128)] =~= lift(seq![at(c.name)]));
    }
    let ghost o1 = out@;
    let cs = &c.components;
    let mut i: usize = 0;
    proof {
        assert(o1 + comps_refs(cs@.take(0), n@, decl) =~= o1);
    }
    while i < cs.len()
        invariant
            i <= cs@.len(),
            out@ == o1 + comps_refs(cs@.take(i as int), n@, decl),
        decreases cs.len() - i,
    {
        collect_comp_refs(&cs[i], n, decl, out);
        proof {
            let t = cs@.take(i as int + 1);
            assert(t.drop_last() =~= cs@.take(i as int));
            assert(t.last() == cs@[i as int]);
            assert(out@ =~= o1 + comps_refs(t, n@, decl));
        }
        i = i + 1;
    }
    assert(cs@.take(i as int) =~= cs@);
    collect_eqs_refs(&c.equations, n, out);
    collect_eqs_refs(&c.initial_equations, n, out);
    collect_algs_refs(&c.algorithms, n, out);
    collect_algs_refs(&c.initial_algorithms, n, out);
    proof {
        assert(decreases_to!(c => c.classes));
    }
    collect_nested_refs(&c.classes, n, decl, out);
    assert(out@ =~= o0 + class_refs(*c, n@, decl));
}

/// Adds the references in nested classes (see `nested_refs`).
fn collect_nested_refs(cs: &Vec<ClassDefinition>, n: &String, decl: bool, out: &mut Vec<(u32, u32, u128)>)
    ensures
        final(out)@ == old(out)@ + nested_refs(cs@, n@, decl),
    decreases cs, 0nat,
{
    let ghost o0 = out@;
    let mut i: usize = 0;
    proof {
        assert(o0 + nested_refs(cs@.take(0), n@, decl) =~= o0);
    }
    while i < cs.len()
        invariant
            i <= cs@.len(),
            out@ == o0 + nested_refs(cs@.take(i as int), n@, decl),
        decreases cs.len() - i,
    {
        proof {
            assert(decreases_to!(cs => cs@[i as int]));
        }
        let ghost o1 = out@;
        if decl {
            let mut tmp: Vec<(u32, u32)> = Vec::new();
            collect_hit(&cs[i].name, n, &mut tmp);
            assert(tmp@ =~= hit(cs@[i as int].name, n@));
            append_lifted(out, &tmp);
        }
        proof {
            assert(out@ =~= o1 + (if decl { lift(hit(cs@[i as int].name, n@)) } else { seq![] }));
        }
        collect_class_refs(&cs[i], n, decl, out);
        proof {
            let t = cs@.take(i as int + 1);
            assert(t.drop_last() =~= cs@.take(i as int));
            assert(t.last() == cs@[i as int]);
            assert(out@ =~= o0 + nested_refs(t, n@, decl));
        }
        i = i + 1;
    }
    assert(cs@.take(i as int) =~= cs@);
}

/// The places of the references to `name` in a document (see `top_refs`),
/// in the order the syntax tree holds them.
pub fn reference_places(def: &StoredDefinition, name: &String, include_declaration: bool) -> (r: Vec<(u32, u32, u128)>)
    ensures
        r@ == top_refs(def.class_list@, name@, include_declaration),
{
    let cs = &def.class_list;
    let mut out: Vec<(u32, u32, u128)> = Vec::new();
    let mut i: usize = 0;
    proof {
        assert(out@ =~= top_refs(cs@.take(0), name@, include_declaration));
    }
    while i < cs.len()
        invariant
            i <= cs@.len(),
            out@ == top_refs(cs@.take(i as int), name@, include_declaration),
        decreases cs.len() - i,
    {
        collect_class_refs(&cs[i], name, include_declaration, &mut out);
        proof {
            let t = cs@.take(i as int + 1);
            assert(t.drop_last() =~= cs@.take(i as int));
            assert(t.last() == cs@[i as int]);
            assert(out@ =~= top_refs(t, name@, include_declaration));
        }
        i = i + 1;
    }
    assert(cs@.take(i as int) =~= cs@);
    out
}

/// Whether a range of `len` characters at each place ends within `u32`
/// (see `places_fit`).
pub fn places_fit_in(ps: &Vec<(u32, u32, u128)>, len: usize) -> (r: bool)
    ensures
        r == places_fit(ps@, len as nat),
{
    let mut i: usize = 0;
    while i < ps.len()
        invariant
            i <= ps@.len(),
            places_fit(ps@.take(i as int), len as nat),
        decreases ps.len() - i,
    {
        let (_, b, c) = ps[i];
        if c > 0xFFFF_FFFFu128 - b as u128 || len as u128 > 0xFFFF_FFFFu128 - b as u128 - c {
            assert(!(ps@[i as int].1 + ps@[i as int].2 + len <= u32::MAX));
            return false;
        }
        proof {
            let t = ps@.take(i as int + 1);
            assert forall|k: int| 0 <= k < t.len() implies (#[trigger] t[k]).1 + t[k].2 + len <= u32::MAX by {
                if k < i {
                    assert(t[k] == ps@.take(i as int)[k]);
                }
            }
        }
        i = i + 1;
    }
    assert(ps@.take(i as int) =~= ps@);
    true
}

/// The references to `name` in a document: none where there is none; else
/// the range of `name` at each place of `top_refs`, in that order.
pub fn find_references(def: &StoredDefinition, name: &String, include_declaration: bool) -> (r: Option<Vec<Range>>)
    requires
        places_fit(top_refs(def.class_list@, name@, include_declaration), name@.len()),
    ensures
        match r {
            None => top_refs(def.class_list@, name@, include_declaration).len() == 0,
            Some(rs) => {
                &&& top_refs(def.class_list@, name@, include_declaration).len() > 0
                &&& rs@ == place_ranges(top_refs(def.class_list@, name@, include_declaration), name@.len())
            },
        },
{
    let ps = reference_places(def, name, include_declaration);
    if ps.len() == 0 {
        return None;
    }
    let len = crate::text::str_to_chars(name.as_str()).len();
    let mut rs: Vec<Range> = Vec::new();
    let mut i: usize = 0;
    while i < ps.len()
        invariant
            i <= ps@.len(),
            len == name@.len(),
            places_fit(ps@, name@.len()),
            rs@ == place_ranges(ps@.take(i as int), len as nat),
        decreases ps.len() - i,
    {
        let (a, b, c) = ps[i];
        assert(ps@[i as int].1 + ps@[i as int].2 + len <= u32::MAX);
        let col = (b as u128 + c) as u32;
        let end = col + len as u32;
        rs.push(Range { start: Position { line: a, character: col }, end: Position { line: a, character: end } });
        proof {
            assert(place_ranges(ps@.take(i as int + 1), len as nat) =~= place_ranges(ps@.take(i as int), len as nat).push(place_range(ps@[i as int], len as nat)));
        }
        i = i + 1;
    }
    assert(ps@.take(i as int) =~= ps@);
    Some(rs)
}


// ---------------------------------------------------------------------------
// Laws
// ---------------------------------------------------------------------------

proof fn lemma_eqs_refs_has(s: Seq<Equation>, n: Seq<char>, i: int, k: int)
    requires
        0 <= i < s.len(),
        0 <= k < eq_refs(s[i], n).len(),
    ensures
        eqs_refs(s, n).contains(eq_refs(s[i], n)[k]),
    decreases s.len(),
{
    let whole = eqs_refs(s, n);
    let front = eqs_refs(s.drop_last(), n);
    if i == s.len() - 1 {
        assert(whole[front.len() + k] == eq_refs(s[i], n)[k]);
    } else {
        assert(s.drop_last()[i] == s[i]);
        lemma_eqs_refs_has(s.drop_last(), n, i, k);
        let j = choose|j: int| 0 <= j < front.len() && front[j] == eq_refs(s[i], n)[k];
        assert(whole[j] == front[j]);
    }
}

proof fn lemma_sts_refs_has(s: Seq<Statement>, n: Seq<char>, i: int, k: int)
    requires
        0 <= i < s.len(),
        0 <= k < st_refs(s[i], n).len(),
    ensures
        sts_refs(s, n).contains(st_refs(s[i], n)[k]),
    decreases s.len(),
{
    let whole = sts_refs(s, n);
    let front = sts_refs(s.drop_last(), n);
    if i == s.len() - 1 {
        assert(whole[front.len() + k] == st_refs(s[i], n)[k]);
    } else {
        assert(s.drop_last()[i] == s[i]);
        lemma_sts_refs_has(s.drop_last(), n, i, k);
        let j = choose|j: int| 0 <= j < front.len() && front[j] == st_refs(s[i], n)[k];
        assert(whole[j] == front[j]);
    }
}

proof fn lemma_algs_refs_has(s: Seq<Vec<Statement>>, n: Seq<char>, i: int, k: int)
    requires
        0 <= i < s.len(),
        0 <= k < sts_refs(s[i]@, n).len(),
    ensures
        algs_refs(s, n).contains(sts_refs(s[i]@, n)[k]),
    decreases s.len(),
{
    let whole = algs_refs(s, n);
    let front = algs_refs(s.drop_last(), n);
    if i == s.len() - 1 {
        assert(whole[front.len() + k] == sts_refs(s[i]@, n)[k]);
    } else {
        assert(s.drop_last()[i] == s[i]);
        lemma_algs_refs_has(s.drop_last(), n, i, k);
        let j = choose|j: int| 0 <= j < front.len() && front[j] == sts_refs(s[i]@, n)[k];
        assert(whole[j] == front[j]);
    }
}

proof fn lemma_comps_refs_has(s: Seq<Component>, n: Seq<char>, decl: bool, i: int, k: int)
    requires
        0 <= i < s.len(),
        0 <= k < comp_refs(s[i], n, decl).len(),
    ensures
        comps_refs(s, n, decl).contains(comp_refs(s[i], n, decl)[k]),
    decreases s.len(),
{
    let whole = comps_refs(s, n, decl);
    let front = comps_refs(s.drop_last(), n, decl);
    if i == s.len() - 1 {
        assert(whole[front.len() + k] == comp_refs(s[i], n, decl)[k]);
    } else {
        assert(s.drop_last()[i] == s[i]);
        lemma_comps_refs_has(s.drop_last(), n, decl, i, k);
        let j = choose|j: int| 0 <= j < front.len() && front[j] == comp_refs(s[i], n, decl)[k];
        assert(whole[j] == front[j]);
    }
}

proof fn lemma_nested_refs_has(s: Seq<ClassDefinition>, n: Seq<char>, decl: bool, i: int, k: int)
    requires
        0 <= i < s.len(),
        0 <= k < class_refs(s[i], n, decl).len(),
    ensures
        nested_refs(s, n, decl).contains(class_refs(s[i], n, decl)[k]),
    decreases s.len(),
{
    let whole = nested_refs(s, n, decl);
    let front = nested_refs(s.drop_last(), n, decl);
    if i == s.len() - 1 {
        let mid = if decl {
            lift(hit(s.last().name, n))
        } else {
            seq![]
        };
        assert(whole == front + mid + class_refs(s.last(), n, decl));
        assert(whole[front.len() + mid.len() + k] == class_refs(s[i], n, decl)[k]);
    } else {
        assert(s.drop_last()[i] == s[i]);
        lemma_nested_refs_has(s.drop_last(), n, decl, i, k);
        let j = choose|j: int| 0 <= j < front.len() && front[j] == class_refs(s[i], n, decl)[k];
        assert(whole[j] == front[j]);
    }
}

proof fn lemma_top_refs_has(s: Seq<ClassDefinition>, n: Seq<char>, decl: bool, i: int, k: int)
    requires
        0 <= i < s.len(),
        0 <= k < class_refs(s[i], n, decl).len(),
    ensures
        top_refs(s, n, decl).contains(class_refs(s[i], n, decl)[k]),
    decreases s.len(),
{
    let whole = top_refs(s, n, decl);
    let front = top_refs(s.drop_last(), n, decl);
    if i == s.len() - 1 {
        assert(whole[front.len() + k] == class_refs(s[i], n, decl)[k]);
    } else {
        assert(s.drop_last()[i] == s[i]);
        lemma_top_refs_has(s.drop_last(), n, decl, i, k);
        let j = choose|j: int| 0 <= j < front.len() && front[j] == class_refs(s[i], n, decl)[k];
        assert(whole[j] == front[j]);
    }
}

/// Law: the references found in a class cover every section of it. Each
/// reference found in an equation or an initial equation, in a statement of
/// an algorithm or initial algorithm section, in the binding of a component,
/// or in a nested class, is among the class's references; and every
/// reference of a component-reference expression in a binding is found.
pub proof fn lemma_class_refs_cover_sections(c: ClassDefinition, n: Seq<char>, decl: bool)
    ensures
        forall|i: int, k: int| 0 <= i < c.equations@.len() && 0 <= k < eq_refs(c.equations@[i], n).len()
            ==> class_refs(c, n, decl).contains(#[trigger] eq_refs(c.equations@[i], n)[k]),
        forall|i: int, k: int| 0 <= i < c.initial_equations@.len() && 0 <= k < eq_refs(c.initial_equations@[i], n).len()
            ==> class_refs(c, n, decl).contains(#[trigger] eq_refs(c.initial_equations@[i], n)[k]),
        forall|a: int, i: int, k: int| 0 <= a < c.algorithms@.len() && 0 <= i < c.algorithms@[a]@.len() && 0 <= k < st_refs(
            c.algorithms@[a]@[i],
            n,
        ).len() ==> class_refs(c, n, decl).contains(#[trigger] st_refs(c.algorithms@[a]@[i], n)[k]),
        forall|a: int, i: int, k: int| 0 <= a < c.initial_algorithms@.len() && 0 <= i < c.initial_algorithms@[a]@.len() && 0 <= k
            < st_refs(c.initial_algorithms@[a]@[i], n).len() ==> class_refs(c, n, decl).contains(
            #[trigger] st_refs(c.initial_algorithms@[a]@[i], n)[k],
        ),
        forall|i: int, k: int| 0 <= i < c.components@.len() && 0 <= k < comp_refs(c.components@[i], n, decl).len()
            ==> class_refs(c, n, decl).contains(#[trigger] comp_refs(c.components@[i], n, decl)[k]),
        forall|i: int, k: int| 0 <= i < c.classes@.len() && 0 <= k < class_refs(c.classes@[i], n, decl).len()
            ==> class_refs(c, n, decl).contains(#[trigger] class_refs(c.classes@[i], n, decl)[k]),
{
    let whole = class_refs(c, n, decl);
    let head = if decl && c.name.text@ == n {
        lift(seq![at(c.name)])
    } else {
        seq![]
    };
    let s1 = head + comps_refs(c.components@, n, decl);
    let s2 = s1 + eqs_refs(c.equations@, n);
    let s3 = s2 + eqs_refs(c.initial_equations@, n);
    let s4 = s3 + algs_refs(c.algorithms@, n);
    let s5 = s4 + algs_refs(c.initial_algorithms@, n);
    assert(whole == s5 + nested_refs(c.classes@, n, decl));
    assert forall|i: int, k: int| 0 <= i < c.components@.len() && 0 <= k < comp_refs(c.components@[i], n, decl).len()
        implies whole.contains(#[trigger] comp_refs(c.components@[i], n, decl)[k]) by {
        lemma_comps_refs_has(c.components@, n, decl, i, k);
        let part = comps_refs(c.components@, n, decl);
        let j = choose|j: int| 0 <= j < part.len() && part[j] == comp_refs(c.components@[i], n, decl)[k];
        assert(whole[head.len() + j] == part[j]);
    }
    assert forall|i: int, k: int| 0 <= i < c.equations@.len() && 0 <= k < eq_refs(c.equations@[i], n).len()
        implies whole.contains(#[trigger] eq_refs(c.equations@[i], n)[k]) by {
        lemma_eqs_refs_has(c.equations@, n, i, k);
        let part = eqs_refs(c.equations@, n);
        let j = choose|j: int| 0 <= j < part.len() && part[j] == eq_refs(c.equations@[i], n)[k];
        assert(whole[s1.len() + j] == part[j]);
    }
    assert forall|i: int, k: int| 0 <= i < c.initial_equations@.len() && 0 <= k < eq_refs(c.initial_equations@[i], n).len()
        implies whole.contains(#[trigger] eq_refs(c.initial_equations@[i], n)[k]) by {
        lemma_eqs_refs_has(c.initial_equations@, n, i, k);
        let part = eqs_refs(c.initial_equations@, n);
        let j = choose|j: int| 0 <= j < part.len() && part[j] == eq_refs(c.initial_equations@[i], n)[k];
        assert(whole[s2.len() + j] == part[j]);
    }
    assert forall|a: int, i: int, k: int| 0 <= a < c.algorithms@.len() && 0 <= i < c.algorithms@[a]@.len() && 0 <= k < st_refs(
        c.algorithms@[a]@[i],
        n,
    ).len() implies whole.contains(#[trigger] st_refs(c.algorithms@[a]@[i], n)[k]) by {
        lemma_sts_refs_has(c.algorithms@[a]@, n, i, k);
        let inner = sts_refs(c.algorithms@[a]@, n);
        let j0 = choose|j: int| 0 <= j < inner.len() && inner[j] == st_refs(c.algorithms@[a]@[i], n)[k];
        lemma_algs_refs_has(c.algorithms@, n, a, j0);
        let part = algs_refs(c.algorithms@, n);
        let j = choose|j: int| 0 <= j < part.len() && part[j] == inner[j0];
        assert(whole[s3.len() + j] == part[j]);
    }
    assert forall|a: int, i: int, k: int| 0 <= a < c.initial_algorithms@.len() && 0 <= i < c.initial_algorithms@[a]@.len() && 0
        <= k < st_refs(c.initial_algorithms@[a]@[i], n).len() implies whole.contains(
        #[trigger] st_refs(c.initial_algorithms@[a]@[i], n)[k],
    ) by {
        lemma_sts_refs_has(c.initial_algorithms@[a]@, n, i, k);
        let inner = sts_refs(c.initial_algorithms@[a]@, n);
        let j0 = choose|j: int| 0 <= j < inner.len() && inner[j] == st_refs(c.initial_algorithms@[a]@[i], n)[k];
        lemma_algs_refs_has(c.initial_algorithms@, n, a, j0);
        let part = algs_refs(c.initial_algorithms@, n);
        let j = choose|j: int| 0 <= j < part.len() && part[j] == inner[j0];
        assert(whole[s4.len() + j] == part[j]);
    }
    assert forall|i: int, k: int| 0 <= i < c.classes@.len() && 0 <= k < class_refs(c.classes@[i], n, decl).len()
        implies whole.contains(#[trigger] class_refs(c.classes@[i], n, decl)[k]) by {
        lemma_nested_refs_has(c.classes@, n, decl, i, k);
        let part = nested_refs(c.classes@, n, decl);
        let j = choose|j: int| 0 <= j < part.len() && part[j] == class_refs(c.classes@[i], n, decl)[k];
        assert(whole[s5.len() + j] == part[j]);
    }
}

/// Law: every reference found in any class of a document is among the ranges
/// `find_references` reports (see its contract, which maps `top_refs` to ranges).
pub proof fn lemma_top_refs_cover_classes(cs: Seq<ClassDefinition>, n: Seq<char>, decl: bool)
    ensures
        forall|i: int, k: int| 0 <= i < cs.len() && 0 <= k < class_refs(cs[i], n, decl).len() ==> top_refs(cs, n, decl).contains(
            #[trigger] class_refs(cs[i], n, decl)[k],
        ),
{
    assert forall|i: int, k: int| 0 <= i < cs.len() && 0 <= k < class_refs(cs[i], n, decl).len() implies top_refs(cs, n, decl).contains(
        #[trigger] class_refs(cs[i], n, decl)[k],
    ) by {
        lemma_top_refs_has(cs, n, decl, i, k);
    }
}

} // verus!
