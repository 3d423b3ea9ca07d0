//! Semantic tokens: the classes, declarations, references, literals and
//! calls of a document, each with its kind, sorted by position and encoded
//! relative to the one before, as editors take them for highlighting.
use vstd::prelude::*;
use crate::ast::{
    Causality, ClassDefinition, ClassType, Component, ComponentRefPart, ComponentReference, Equation, EquationBlock,
    Expression, ExpressionBranch, StoredDefinition, Subscript, TerminalType, Token, Variability,
};
use crate::outline::{utf8_len, utf8_length};

verus! {

/// Token type: a package.
pub const TYPE_NAMESPACE: u32 = 0;
/// Token type: a type (model, block, connector, record, or a declared type).
pub const TYPE_TYPE: u32 = 1;
/// Token type: a class.
pub const TYPE_CLASS: u32 = 2;
/// Token type: a parameter.
pub const TYPE_PARAMETER: u32 = 3;
/// Token type: a variable.
pub const TYPE_VARIABLE: u32 = 4;
/// Token type: a constant.
pub const TYPE_PROPERTY: u32 = 5;
/// Token type: a function.
pub const TYPE_FUNCTION: u32 = 6;
/// Token type: a string.
pub const TYPE_STRING: u32 = 9;
/// Token type: a number.
pub const TYPE_NUMBER: u32 = 10;
/// Modifier bit: a declaration.
pub const MOD_DECLARATION: u32 = 1;
/// Modifier bit: a definition.
pub const MOD_DEFINITION: u32 = 2;
/// Modifier bit: read-only.
pub const MOD_READONLY: u32 = 4;

/// The names of the token types, by index.
pub fn token_type_names() -> (r: Vec<&'static str>)
    ensures
        r@.len() == 12,
{
    vec![
        "namespace",
        "type",
        "class",
        "parameter",
        "variable",
        "property",
        "function",
        "keyword",
        "comment",
        "string",
        "number",
        "operator",
    ]
}

/// The names of the token modifiers, by bit.
pub fn token_modifier_names() -> (r: Vec<&'static str>)
    ensures
        r@.len() == 4,
{
    vec!["declaration", "definition", "readonly", "modification"]
}

/// A token: line and column (from 0), length in bytes, type, modifiers.
pub type SemTok = (u32, u32, u32, u32, u32);

/// `x - 1`, or 0 for 0.
pub open spec fn before(x: u32) -> u32 {
    if x == 0 {
        0
    } else {
        (x - 1) as u32
    }
}

/// The length of a text in bytes, as a `u32` (cut to its low bits).
pub open spec fn byte_len(t: Seq<char>) -> u32 {
    utf8_len(t) as u32
}

/// The token of a source token, of type `ty` with modifiers `mods`.
pub open spec fn tok_at(t: Token, ty: u32, mods: u32) -> SemTok {
    (before(t.location.start_line), before(t.location.start_column), byte_len(t.text@), ty, mods)
}

/// The tokens of an expression; references are of type `dt`, called
/// functions of type function, literals numbers or strings.
pub open spec fn expr_toks(e: Expression, dt: u32) -> Seq<SemTok>
    decreases e, 0nat,
{
    match e {
        Expression::ComponentReference(c) => cref_toks(c, dt),
        Expression::Terminal { terminal_type, token } => match terminal_type {
            TerminalType::UnsignedInteger | TerminalType::UnsignedReal | TerminalType::Bool => seq![tok_at(token, TYPE_NUMBER, 0)],
            TerminalType::String => seq![tok_at(token, TYPE_STRING, 0)],
            _ => seq![],
        },
        Expression::FunctionCall { comp, args } => cref_toks(comp, TYPE_FUNCTION) + exprs_toks(args@, dt),
        Expression::Unary { rhs, .. } => expr_toks(*rhs, dt),
        Expression::Binary { lhs, rhs, .. } => expr_toks(*lhs, dt) + expr_toks(*rhs, dt),
        Expression::Array { elements } => exprs_toks(elements@, dt),
        Expression::Tuple { elements } => exprs_toks(elements@, dt),
        Expression::If { branches, else_branch } => branches_toks(branches@, dt) + expr_toks(*else_branch, dt),
        Expression::Range { start, step, end } => expr_toks(*start, dt) + (match step {
            Some(s) => expr_toks(*s, dt),
            None => seq![],
        }) + expr_toks(*end, dt),
        Expression::NamedArgument { value, .. } => expr_toks(*value, dt),
        _ => seq![],
    }
}

/// The tokens of a reference: each part, of type `ty`, then its subscripts.
pub open spec fn cref_toks(c: ComponentReference, ty: u32) -> Seq<SemTok>
    decreases c, 1nat,
{
    parts_toks(c.parts@, ty)
}

/// The tokens of reference parts.
pub open spec fn parts_toks(ps: Seq<ComponentRefPart>, ty: u32) -> Seq<SemTok>
    decreases ps, 0nat,
{
    if ps.len() == 0 {
        seq![]
    } else {
        parts_toks(ps.drop_last(), ty) + seq![tok_at(ps.last().ident, ty, 0)] + match ps.last().subs {
            Some(ss) => subs_toks(ss@, ty),
            None => seq![],
        }
    }
}

/// The tokens of expression subscripts.
pub open spec fn subs_toks(ss: Seq<Subscript>, ty: u32) -> Seq<SemTok>
    decreases ss, 0nat,
{
    if ss.len() == 0 {
        seq![]
    } else {
        subs_toks(ss.drop_last(), ty) + match ss.last() {
            Subscript::Expression(e) => expr_toks(e, ty),
            _ => seq![],
        }
    }
}

/// The tokens of expressions.
pub open spec fn exprs_toks(es: Seq<Expression>, dt: u32) -> Seq<SemTok>
    decreases es, 0nat,
{
    if es.len() == 0 {
        seq![]
    } else {
        exprs_toks(es.drop_last(), dt) + expr_toks(es.last(), dt)
    }
}

/// The tokens of the branches of an if-expression.
pub open spec fn branches_toks(bs: Seq<ExpressionBranch>, dt: u32) -> Seq<SemTok>
    decreases bs, 0nat,
{
    if bs.len() == 0 {
        seq![]
    } else {
        branches_toks(bs.drop_last(), dt) + expr_toks(bs.last().cond, dt) + expr_toks(bs.last().value, dt)
    }
}

/// The tokens of an equation (the indices of a `for` are not included).
pub open spec fn eq_toks(eq: Equation, dt: u32) -> Seq<SemTok>
    decreases eq, 0nat,
{
    match eq {
        Equation::Simple { lhs, rhs } => expr_toks(lhs, dt) + expr_toks(rhs, dt),
        Equation::Connect { lhs, rhs } => cref_toks(lhs, dt) + cref_toks(rhs, dt),
        Equation::For { equations, .. } => eqs_toks(equations@, dt),
        Equation::When(blocks) => blocks_toks(blocks@, dt),
        Equation::If { cond_blocks, else_block } => blocks_toks(cond_blocks@, dt) + match else_block {
            Some(x) => eqs_toks(x@, dt),
            None => seq![],
        },
        Equation::FunctionCall { comp, args } => cref_toks(comp, TYPE_FUNCTION) + exprs_toks(args@, dt),
        _ => seq![],
    }
}

/// The tokens of equations.
pub open spec fn eqs_toks(eqs: Seq<Equation>, dt: u32) -> Seq<SemTok>
    decreases eqs, 0nat,
{
    if eqs.len() == 0 {
        seq![]
    } else {
        eqs_toks(eqs.drop_last(), dt) + eq_toks(eqs.last(), dt)
    }
}

/// The tokens of guarded blocks: condition, then equations.
pub open spec fn blocks_toks(bs: Seq<EquationBlock>, dt: u32) -> Seq<SemTok>
    decreases bs, 0nat,
{
    if bs.len() == 0 {
        seq![]
    } else {
        blocks_toks(bs.drop_last(), dt) + expr_toks(bs.last().cond, dt) + eqs_toks(bs.last().eqs@, dt)
    }
}

/// The token type of a class's name.
pub open spec fn class_tok_type(t: ClassType) -> u32 {
    match t {
        ClassType::Package => TYPE_NAMESPACE,
        ClassType::Function => TYPE_FUNCTION,
        ClassType::Type => TYPE_TYPE,
        _ => TYPE_CLASS,
    }
}

/// The token type and modifiers of a component's name.
pub open spec fn comp_kind(c: Component) -> (u32, u32) {
    match c.variability {
        Variability::Parameter(_) => (TYPE_PARAMETER, MOD_DECLARATION | MOD_READONLY),
        Variability::Constant(_) => (TYPE_PROPERTY, MOD_DECLARATION | MOD_READONLY),
        _ => (TYPE_VARIABLE, MOD_DECLARATION),
    }
}

/// The tokens of a declaration with a type: the type's first token, then
/// the name, taken to stand one column after that token.
pub open spec fn comp_toks(c: Component) -> Seq<SemTok> {
    if c.type_path.name@.len() > 0 {
        let f = c.type_path.name@[0];
        seq![
            tok_at(f, TYPE_TYPE, 0),
            (
                before(f.location.start_line),
                (before(f.location.start_column) + byte_len(f.text@) + 1) as u32,
                byte_len(c.name@),
                comp_kind(c).0,
                comp_kind(c).1,
            ),
        ]
    } else {
        seq![]
    }
}

/// The name of a declaration, placed after its type, stays within `u32`.
pub open spec fn comp_fits(c: Component) -> bool {
    c.type_path.name@.len() > 0 ==> before(c.type_path.name@[0].location.start_column) + byte_len(
        c.type_path.name@[0].text@,
    ) + 1 <= u32::MAX
}

/// The tokens of declarations.
pub open spec fn comps_toks(cs: Seq<Component>) -> Seq<SemTok>
    decreases cs.len(),
{
    if cs.len() == 0 {
        seq![]
    } else {
        comps_toks(cs.drop_last()) + comp_toks(cs.last())
    }
}

/// The tokens of a class: its name (a definition), its declarations, its
/// equations and initial equations (references as variables), and its
/// nested classes.
pub open spec fn class_toks(c: ClassDefinition) -> Seq<SemTok>
    decreases c, 1nat,
{
    seq![tok_at(c.name, class_tok_type(c.class_type), MOD_DEFINITION)] + comps_toks(c.components@) + eqs_toks(
        c.equations@,
        TYPE_VARIABLE,
    ) + eqs_toks(c.initial_equations@, TYPE_VARIABLE) + classes_toks(c.classes@)
}

/// The tokens of classes.
pub open spec fn classes_toks(cs: Seq<ClassDefinition>) -> Seq<SemTok>
    decreases cs, 0nat,
{
    if cs.len() == 0 {
        seq![]
    } else {
        classes_toks(cs.drop_last()) + class_toks(cs.last())
    }
}

/// Every declaration of the class and its nested classes fits (see `comp_fits`).
pub open spec fn class_fits(c: ClassDefinition) -> bool
    decreases c, 1nat,
{
    (forall|i: int| 0 <= i < c.components@.len() ==> #[trigger] comp_fits(c.components@[i])) && classes_fit(c.classes@)
}

/// Every class fits.
pub open spec fn classes_fit(cs: Seq<ClassDefinition>) -> bool
    decreases cs, 0nat,
{
    cs.len() == 0 || (classes_fit(cs.drop_last()) && class_fits(cs.last()))
}

/// The length of a text in bytes, as a `u32` (see `byte_len`).
fn byte_length(s: &String) -> (r: u32)
    ensures
        r == byte_len(s@),
{
    let c = crate::text::str_to_chars(s.as_str());
    let n = utf8_length(&c);
    n as u32
}

/// The token of a source token (see `tok_at`).
fn tok_exec(t: &Token, ty: u32, mods: u32) -> (r: SemTok)
    ensures
        r == tok_at(*t, ty, mods),
{
    let l = if t.location.start_line == 0 { 0 } else { t.location.start_line - 1 };
    let c = if t.location.start_column == 0 { 0 } else { t.location.start_column - 1 };
    (l, c, byte_length(&t.text), ty, mods)
}

fn collect_expr_toks(e: &Expression, dt: u32, out: &mut Vec<SemTok>)
    ensures
        final(out)@ == old(out)@ + expr_toks(*e, dt),
    decreases e, 2nat,
{
    let ghost o0 = out@;
    match e {
        Expression::ComponentReference(c) => collect_cref_toks(c, dt, out),
        Expression::Terminal { terminal_type, token } => match terminal_type {
            TerminalType::UnsignedInteger | TerminalType::UnsignedReal | TerminalType::Bool => {
                out.push(tok_exec(token, TYPE_NUMBER, 0));
            },
            TerminalType::String => {
                out.push(tok_exec(token, TYPE_STRING, 0));
            },
            _ => {},
        },
        Expression::FunctionCall { comp, args } => {
            collect_cref_toks(comp, TYPE_FUNCTION, out);
            collect_exprs_toks(args, dt, out);
        },
        Expression::Unary { rhs, .. } => collect_expr_toks(rhs, dt, out),
        Expression::Binary { lhs, rhs, .. } => {
            collect_expr_toks(lhs, dt, out);
            collect_expr_toks(rhs, dt, out);
        },
        Expression::Array { elements } => collect_exprs_toks(elements, dt, out),
        Expression::Tuple { elements } => collect_exprs_toks(elements, dt, out),
        Expression::If { branches, else_branch } => {
            collect_branches_toks(branches, dt, out);
            collect_expr_toks(else_branch, dt, out);
        },
        Expression::Range { start, step, end } => {
            collect_expr_toks(start, dt, out);
            match step {
                Some(x) => collect_expr_toks(x, dt, out),
                None => {},
            }
            collect_expr_toks(end, dt, out);
        },
        Expression::NamedArgument { value, .. } => collect_expr_toks(value, dt, out),
        _ => {},
    }
    assert(out@ =~= o0 + expr_toks(*e, dt));
}

fn collect_cref_toks(c: &ComponentReference, ty: u32, out: &mut Vec<SemTok>)
    ensures
        final(out)@ == old(out)@ + cref_toks(*c, ty),
    decreases c, 1nat,
{
    proof {
        assert(decreases_to!(c => c.parts));
    }
    collect_parts_toks(&c.parts, ty, out);
}

fn collect_parts_toks(xs: &Vec<ComponentRefPart>, ty: u32, out: &mut Vec<SemTok>)
    ensures
        final(out)@ == old(out)@ + parts_toks(xs@, ty),
    decreases xs, 0nat,
{
    let ghost o0 = out@;
    let mut i: usize = 0;
    while i < xs.len()
        invariant
            i <= xs@.len(),
            out@ == o0 + parts_toks(xs@.take(i as int), ty),
        decreases xs.len() - i,
    {
        proof {
            let t = xs@.take(i as int + 1);
            assert(t.drop_last() =~= xs@.take(i as int));
            assert(t.last() == xs@[i as int]);
            assert(decreases_to!(xs => xs@[i as int]));
        }
        out.push(tok_exec(&xs[i].ident, ty, 0));
        match &xs[i].subs {
            Some(ss) => {
                proof {
                    assert(decreases_to!(xs@[i as int] => xs@[i as int].subs));
                }
                collect_subs_toks(ss, ty, out);
            },
            None => {},
        }
        proof {
            assert(out@ =~= o0 + parts_toks(xs@.take(i as int + 1), ty));
        }
        i = i + 1;
    }
    assert(xs@.take(i as int) =~= xs@);
}

fn collect_subs_toks(xs: &Vec<Subscript>, ty: u32, out: &mut Vec<SemTok>)
    ensures
        final(out)@ == old(out)@ + subs_toks(xs@, ty),
    decreases xs, 0nat,
{
    let ghost o0 = out@;
    let mut i: usize = 0;
    while i < xs.len()
        invariant
            i <= xs@.len(),
            out@ == o0 + subs_toks(xs@.take(i as int), ty),
        decreases xs.len() - i,
    {
        proof {
            let t = xs@.take(i as int + 1);
            assert(t.drop_last() =~= xs@.take(i as int));
            assert(t.last() == xs@[i as int]);
            assert(decreases_to!(xs => xs@[i as int]));
        }
        match &xs[i] {
            Subscript::Expression(e) => collect_expr_toks(e, ty, out),
            _ => {},
        }
        proof {
            assert(out@ =~= o0 + subs_toks(xs@.take(i as int + 1), ty));
        }
        i = i + 1;
    }
    assert(xs@.take(i as int) =~= xs@);
}

fn collect_exprs_toks(xs: &Vec<Expression>, dt: u32, out: &mut Vec<SemTok>)
    ensures
        final(out)@ == old(out)@ + exprs_toks(xs@, dt),
    decreases xs, 0nat,
{
    let ghost o0 = out@;
    let mut i: usize = 0;
    while i < xs.len()
        invariant
            i <= xs@.len(),
            out@ == o0 + exprs_toks(xs@.take(i as int), dt),
        decreases xs.len() - i,
    {
        proof {
            let t = xs@.take(i as int + 1);
            assert(t.drop_last() =~= xs@.take(i as int));
            assert(t.last() == xs@[i as int]);
            assert(decreases_to!(xs => xs@[i as int]));
        }
        collect_expr_toks(&xs[i], dt, out);
        proof {
            assert(out@ =~= o0 + exprs_toks(xs@.take(i as int + 1), dt));
        }
        i = i + 1;
    }
    assert(xs@.take(i as int) =~= xs@);
}

fn collect_branches_toks(xs: &Vec<ExpressionBranch>, dt: u32, out: &mut Vec<SemTok>)
    ensures
        final(out)@ == old(out)@ + branches_toks(xs@, dt),
    decreases xs, 0nat,
{
    let ghost o0 = out@;
    let mut i: usize = 0;
    while i < xs.len()
        invariant
            i <= xs@.len(),
            out@ == o0 + branches_toks(xs@.take(i as int), dt),
        decreases xs.len() - i,
    {
        proof {
            let t = xs@.take(i as int + 1);
            assert(t.drop_last() =~= xs@.take(i as int));
            assert(t.last() == xs@[i as int]);
            assert(decreases_to!(xs => xs@[i as int]));
        }
        collect_expr_toks(&xs[i].cond, dt, out);
        collect_expr_toks(&xs[i].value, dt, out);
        proof {
            assert(out@ =~= o0 + branches_toks(xs@.take(i as int + 1), dt));
        }
        i = i + 1;
    }
    assert(xs@.take(i as int) =~= xs@);
}

fn collect_eq_toks(eq: &Equation, dt: u32, out: &mut Vec<SemTok>)
    ensures
        final(out)@ == old(out)@ + eq_toks(*eq, dt),
    decreases eq, 1nat,
{
    let ghost o0 = out@;
    match eq {
        Equation::Simple { lhs, rhs } => {
            collect_expr_toks(lhs, dt, out);
            collect_expr_toks(rhs, dt, out);
        },
        Equation::Connect { lhs, rhs } => {
            collect_cref_toks(lhs, dt, out);
            collect_cref_toks(rhs, dt, out);
        },
        Equation::For { equations, .. } => collect_eqs_toks(equations, dt, out),
        Equation::When(blocks) => collect_blocks_toks(blocks, dt, out),
        Equation::If { cond_blocks, else_block } => {
            collect_blocks_toks(cond_blocks, dt, out);
            match else_block {
                Some(x) => collect_eqs_toks(x, dt, out),
                None => {},
            }
        },
        Equation::FunctionCall { comp, args } => {
            collect_cref_toks(comp, TYPE_FUNCTION, out);
            collect_exprs_toks(args, dt, out);
        },
        _ => {},
    }
    assert(out@ =~= o0 + eq_toks(*eq, dt));
}

fn collect_eqs_toks(xs: &Vec<Equation>, dt: u32, out: &mut Vec<SemTok>)
    ensures
        final(out)@ == old(out)@ + eqs_toks(xs@, dt),
    decreases xs, 0nat,
{
    let ghost o0 = out@;
    let mut i: usize = 0;
    while i < xs.len()
        invariant
            i <= xs@.len(),
            out@ == o0 + eqs_toks(xs@.take(i as int), dt),
        decreases xs.len() - i,
    {
        proof {
            let t = xs@.take(i as int + 1);
            assert(t.drop_last() =~= xs@.take(i as int));
            assert(t.last() == xs@[i as int]);
            assert(decreases_to!(xs => xs@[i as int]));
        }
        collect_eq_toks(&xs[i], dt, out);
        proof {
            assert(out@ =~= o0 + eqs_toks(xs@.take(i as int + 1), dt));
        }
        i = i + 1;
    }
    assert(xs@.take(i as int) =~= xs@);
}

fn collect_blocks_toks(xs: &Vec<EquationBlock>, dt: u32, out: &mut Vec<SemTok>)
    ensures
        final(out)@ == old(out)@ + blocks_toks(xs@, dt),
    decreases xs, 0nat,
{
    let ghost o0 = out@;
    let mut i: usize = 0;
    while i < xs.len()
        invariant
            i <= xs@.len(),
            out@ == o0 + blocks_toks(xs@.take(i as int), dt),
        decreases xs.len() - i,
    {
        proof {
            let t = xs@.take(i as int + 1);
            assert(t.drop_last() =~= xs@.take(i as int));
            assert(t.last() == xs@[i as int]);
            assert(decreases_to!(xs => xs@[i as int]));
            assert(decreases_to!(xs@[i as int] => xs@[i as int].eqs));
        }
        collect_expr_toks(&xs[i].cond, dt, out);
        collect_eqs_toks(&xs[i].eqs, dt, out);
        proof {
            assert(out@ =~= o0 + blocks_toks(xs@.take(i as int + 1), dt));
        }
        i = i + 1;
    }
    assert(xs@.take(i as int) =~= xs@);
}

/// Adds the tokens of a declaration (see `comp_toks`).
fn collect_comp_toks(c: &Component, out: &mut Vec<SemTok>)
    requires
        comp_fits(*c),
    ensures
        final(out)@ == old(out)@ + comp_toks(*c),
{
    let ghost o0 = out@;
    if c.type_path.name.len() > 0 {
        let f = &c.type_path.name[0];
        let t = tok_exec(f, TYPE_TYPE, 0);
        out.push(t);
        let (ty, mods) = match c.variability {
            Variability::Parameter(_) => (TYPE_PARAMETER, MOD_DECLARATION | MOD_READONLY),
            Variability::Constant(_) => (TYPE_PROPERTY, MOD_DECLARATION | MOD_READONLY),
            _ => (TYPE_VARIABLE, MOD_DECLARATION),
        };
        out.push((t.0, t.1 + t.2 + 1, byte_length(&c.name), ty, mods));
    }
    assert(out@ =~= o0 + comp_toks(*c));
}

/// Adds the tokens of a class (see `class_toks`).
fn collect_class_toks(c: &ClassDefinition, out: &mut Vec<SemTok>)
    requires
        class_fits(*c),
    ensures
        final(out)@ == old(out)@ + class_toks(*c),
    decreases c, 1nat,
{
    let ghost o0 = out@;
    let ty = match c.class_type {
        ClassType::Package => TYPE_NAMESPACE,
        ClassType::Function => TYPE_FUNCTION,
        ClassType::Type => TYPE_TYPE,
        _ => TYPE_CLASS,
    };
    out.push(tok_exec(&c.name, ty, MOD_DEFINITION));
    let ghost o1 = out@;
    let cs = &c.components;
    let mut i: usize = 0;
    proof {
        assert(o1 + comps_toks(cs@.take(0)) =~= o1);
    }
    while i < cs.len()
        invariant
            i <= cs@.len(),
            forall|k: int| 0 <= k < cs@.len() ==> #[trigger] comp_fits(cs@[k]),
            out@ == o1 + comps_toks(cs@.take(i as int)),
        decreases cs.len() - i,
    {
        collect_comp_toks(&cs[i], out);
        proof {
            let t = cs@.take(i as int + 1);
            assert(t.drop_last() =~= cs@.take(i as int));
            assert(t.last() == cs@[i as int]);
            assert(out@ =~= o1 + comps_toks(t));
        }
        i = i + 1;
    }
    assert(cs@.take(i as int) =~= cs@);
    collect_eqs_toks(&c.equations, TYPE_VARIABLE, out);
    collect_eqs_toks(&c.initial_equations, TYPE_VARIABLE, out);
    proof {
        assert(decreases_to!(c => c.classes));
    }
    collect_classes_toks(&c.classes, out);
    assert(out@ =~= o0 + class_toks(*c));
}

proof fn lemma_classes_fit_index(cs: Seq<ClassDefinition>, i: int)
    requires
        classes_fit(cs),
        0 <= i < cs.len(),
    ensures
        class_fits(cs[i]),
    decreases cs.len(),
{
    if i < cs.len() - 1 {
        lemma_classes_fit_index(cs.drop_last(), i);
    }
}

/// Adds the tokens of classes.
fn collect_classes_toks(cs: &Vec<ClassDefinition>, out: &mut Vec<SemTok>)
    requires
        classes_fit(cs@),
    ensures
        final(out)@ == old(out)@ + classes_toks(cs@),
    decreases cs, 0nat,
{
    let ghost o0 = out@;
    let mut i: usize = 0;
    while i < cs.len()
        invariant
            i <= cs@.len(),
            classes_fit(cs@),
            out@ == o0 + classes_toks(cs@.take(i as int)),
        decreases cs.len() - i,
    {
        proof {
            let t = cs@.take(i as int + 1);
            assert(t.drop_last() =~= cs@.take(i as int));
            assert(t.last() == cs@[i as int]);
            assert(decreases_to!(cs => cs@[i as int]));
            lemma_classes_fit_index(cs@, i as int);
        }
        collect_class_toks(&cs[i], out);
        proof {
            assert(out@ =~= o0 + classes_toks(cs@.take(i as int + 1)));
        }
        i = i + 1;
    }
    assert(cs@.take(i as int) =~= cs@);
}

// ---------------------------------------------------------------------------
// Order and encoding
// ---------------------------------------------------------------------------

/// `a` stands no later than `b`: by line, then by column.
pub open spec fn pos_le(a: SemTok, b: SemTok) -> bool {
    a.0 < b.0 || (a.0 == b.0 && a.1 <= b.1)
}

/// The first position from `k` on of a token standing after `x`.
pub open spec fn first_after(s: Seq<SemTok>, x: SemTok, k: int) -> int
    decreases s.len() - k,
{
    if k >= s.len() {
        s.len() as int
    } else if !pos_le(s[k], x) {
        k
    } else {
        first_after(s, x, k + 1)
    }
}

/// The tokens sorted by position, those at the same position in their
/// original order: each inserted after every one standing no later.
pub open spec fn sorted_toks(s: Seq<SemTok>) -> Seq<SemTok>
    decreases s.len(),
{
    if s.len() == 0 {
        seq![]
    } else {
        let t = sorted_toks(s.drop_last());
        t.insert(first_after(t, s.last(), 0), s.last())
    }
}

/// The tokens stand in order of position.
pub open spec fn in_order(s: Seq<SemTok>) -> bool {
    forall|i: int, j: int| 0 <= i < j < s.len() ==> pos_le(#[trigger] s[i], #[trigger] s[j])
}

/// Each token relative to the one before: lines apart, and columns apart on
/// the same line (else its column); length, type and modifiers as they are.
pub open spec fn encoded(s: Seq<SemTok>) -> Seq<SemTok> {
    Seq::new(
        s.len(),
        |i: int|
            {
                let (pl, pc) = if i == 0 {
                    (0u32, 0u32)
                } else {
                    (s[i - 1].0, s[i - 1].1)
                };
                let dl = (s[i].0 - pl) as u32;
                let dc = if dl == 0 {
                    (s[i].1 - pc) as u32
                } else {
                    s[i].1
                };
                (dl, dc, s[i].2, s[i].3, s[i].4)
            },
    )
}

proof fn lemma_first_after(s: Seq<SemTok>, x: SemTok, k: int)
    requires
        0 <= k <= s.len(),
    ensures
        k <= first_after(s, x, k) <= s.len(),
        forall|j: int| k <= j < first_after(s, x, k) ==> pos_le(s[j], x),
        first_after(s, x, k) < s.len() ==> !pos_le(s[first_after(s, x, k)], x),
    decreases s.len() - k,
{
    if k < s.len() && pos_le(s[k], x) {
        lemma_first_after(s, x, k + 1);
    }
}

/// Inserting after every token standing no later keeps tokens in order.
proof fn lemma_insert_in_order(t: Seq<SemTok>, x: SemTok)
    requires
        in_order(t),
    ensures
        in_order(t.insert(first_after(t, x, 0), x)),
{
    lemma_first_after(t, x, 0);
    let p = first_after(t, x, 0);
    let s = t.insert(p, x);
    assert forall|i: int, j: int| 0 <= i < j < s.len() implies pos_le(#[trigger] s[i], #[trigger] s[j]) by {
        if j < p {
            assert(s[i] == t[i] && s[j] == t[j]);
        } else if j == p {
            assert(s[i] == t[i]);
        } else if i == p {
            assert(s[j] == t[j - 1]);
            assert(!pos_le(t[p], x));
            if j - 1 > p {
                assert(pos_le(t[p], t[j - 1]));
            }
        } else if i < p {
            assert(s[i] == t[i] && s[j] == t[j - 1]);
        } else {
            assert(s[i] == t[i - 1] && s[j] == t[j - 1]);
        }
    }
}

proof fn lemma_sorted_in_order(s: Seq<SemTok>)
    ensures
        in_order(sorted_toks(s)),
        sorted_toks(s).len() == s.len(),
    decreases s.len(),
{
    if s.len() > 0 {
        lemma_sorted_in_order(s.drop_last());
        lemma_insert_in_order(sorted_toks(s.drop_last()), s.last());
        lemma_first_after(sorted_toks(s.drop_last()), s.last(), 0);
    }
}

/// Sorts tokens by position (see `sorted_toks`).
fn sort_toks(v: &Vec<SemTok>) -> (r: Vec<SemTok>)
    ensures
        r@ == sorted_toks(v@),
{
    let mut out: Vec<SemTok> = Vec::new();
    let mut i: usize = 0;
    proof {
        assert(out@ =~= sorted_toks(v@.take(0)));
    }
    while i < v.len()
        invariant
            i <= v@.len(),
            out@ == sorted_toks(v@.take(i as int)),
        decreases v.len() - i,
    {
        let x = v[i];
        let mut k: usize = 0;
        proof {
            lemma_first_after(out@, x, 0);
        }
        while k < out.len() && (out[k].0 < x.0 || (out[k].0 == x.0 && out[k].1 <= x.1))
            invariant
                k <= out@.len(),
                first_after(out@, x, 0) == first_after(out@, x, k as int),
            decreases out.len() - k,
        {
            k = k + 1;
        }
        proof {
            let t = v@.take(i as int + 1);
            assert(t.drop_last() =~= v@.take(i as int));
            assert(t.last() == x);
        }
        out.insert(k, x);
        i = i + 1;
    }
    assert(v@.take(i as int) =~= v@);
    out
}

/// Encodes tokens standing in order (see `encoded`).
fn encode_toks(s: &Vec<SemTok>) -> (r: Vec<SemTok>)
    requires
        in_order(s@),
    ensures
        r@ == encoded(s@),
{
    let mut out: Vec<SemTok> = Vec::new();
    let mut prev_line: u32 = 0;
    let mut prev_start: u32 = 0;
    let mut i: usize = 0;
    while i < s.len()
        invariant
            i <= s@.len(),
            in_order(s@),
            out@.len() == i,
            forall|k: int| 0 <= k < i ==> #[trigger] out@[k] == encoded(s@)[k],
            i == 0 ==> prev_line == 0 && prev_start == 0,
            i > 0 ==> prev_line == s@[i - 1].0 && prev_start == s@[i - 1].1,
        decreases s.len() - i,
    {
        let (line, col, len, ty, mods) = s[i];
        proof {
            if i > 0 {
                assert(pos_le(s@[i - 1], s@[i as int]));
            }
        }
        let delta_line = line - prev_line;
        let delta_start = if delta_line == 0 { col - prev_start } else { col };
        out.push((delta_line, delta_start, len, ty, mods));
        prev_line = line;
        prev_start = col;
        i = i + 1;
    }
    assert(out@ =~= encoded(s@));
    out
}

/// The tokens of a document, in the order its classes give them.
pub open spec fn document_toks(def: StoredDefinition) -> Seq<SemTok> {
    classes_toks(def.class_list@)
}

/// The semantic tokens of a document: its tokens (see `class_toks`) sorted
/// by position (see `sorted_toks`) and encoded relative to each other (see
/// `encoded`).
pub fn semantic_tokens(def: &StoredDefinition) -> (r: Vec<SemTok>)
    requires
        classes_fit(def.class_list@),
    ensures
        r@ == encoded(sorted_toks(document_toks(*def))),
{
    let mut toks: Vec<SemTok> = Vec::new();
    collect_classes_toks(&def.class_list, &mut toks);
    proof {
        assert(toks@ =~= document_toks(*def));
    }
    let sorted = sort_toks(&toks);
    proof {
        lemma_sorted_in_order(toks@);
    }
    encode_toks(&sorted)
}

/// Sorting reorders the tokens, losing and adding none, so that they stand
/// in order of position.
pub proof fn lemma_sorted_toks_permutes(s: Seq<SemTok>)
    ensures
        sorted_toks(s).to_multiset() == s.to_multiset(),
        in_order(sorted_toks(s)),
    decreases s.len(),
{
    lemma_sorted_in_order(s);
    if s.len() > 0 {
        let t = sorted_toks(s.drop_last());
        lemma_sorted_toks_permutes(s.drop_last());
        lemma_first_after(t, s.last(), 0);
        vstd::seq_lib::to_multiset_insert(t, first_after(t, s.last(), 0), s.last());
        vstd::seq_lib::to_multiset_build(s.drop_last(), s.last());
        assert(s.drop_last().push(s.last()) =~= s);
    } else {
        assert(sorted_toks(s) =~= s);
    }
}

} // verus!
