//! The text form of expressions, equations, statements and declarations.
use vstd::prelude::*;
use crate::text::chars_to_string;
use crate::ast::{
    ComponentRefPart, ComponentReference, Expression, ExpressionBranch, OpBinary, OpUnary, Subscript,
    TerminalType,
};

verus! {

/// How a binary operator is written.
pub open spec fn binary_op_text(op: OpBinary) -> Seq<char> {
    match op {
        OpBinary::Empty => seq![],
        OpBinary::Add => seq!['+'],
        OpBinary::Sub => seq!['-'],
        OpBinary::Mul => seq!['*'],
        OpBinary::Div => seq!['/'],
        OpBinary::Exp => seq!['^'],
        OpBinary::Eq => seq!['=', '='],
        OpBinary::Neq => seq!['<', '>'],
        OpBinary::Lt => seq!['<'],
        OpBinary::Le => seq!['<', '='],
        OpBinary::Gt => seq!['>'],
        OpBinary::Ge => seq!['>', '='],
        OpBinary::And => seq!['a', 'n', 'd'],
        OpBinary::Or => seq!['o', 'r'],
        OpBinary::AddElem => seq!['.', '+'],
        OpBinary::SubElem => seq!['.', '-'],
        OpBinary::MulElem => seq!['.', '*'],
        OpBinary::DivElem => seq!['.', '/'],
    }
}

/// How a unary operator is written (`not` with its trailing space).
pub open spec fn unary_op_text(op: OpUnary) -> Seq<char> {
    match op {
        OpUnary::Empty => seq![],
        OpUnary::Minus => seq!['-'],
        OpUnary::Plus => seq!['+'],
        OpUnary::DotMinus => seq!['.', '-'],
        OpUnary::DotPlus => seq!['.', '+'],
        OpUnary::Not => seq!['n', 'o', 't', ' '],
    }
}

/// Binding strength of binary operators; higher binds tighter:
/// `or` 1, `and` 2, relations 3, additive 4, multiplicative 5, `^` 6.
pub open spec fn precedence(op: OpBinary) -> nat {
    match op {
        OpBinary::Empty => 0,
        OpBinary::Or => 1,
        OpBinary::And => 2,
        OpBinary::Eq | OpBinary::Neq | OpBinary::Lt | OpBinary::Le | OpBinary::Gt | OpBinary::Ge => 3,
        OpBinary::Add | OpBinary::Sub | OpBinary::AddElem | OpBinary::SubElem => 4,
        OpBinary::Mul | OpBinary::Div | OpBinary::MulElem | OpBinary::DivElem => 5,
        OpBinary::Exp => 6,
    }
}

/// Only `^` associates to the right.
pub open spec fn is_right_assoc(op: OpBinary) -> bool {
    op == OpBinary::Exp
}

/// Whether a binary expression with operator `op` needs parentheses as a
/// child (right child if `is_right`) of `parent`.
pub open spec fn needs_parens(op: OpBinary, parent: Option<OpBinary>, is_right: bool) -> bool {
    match parent {
        None => false,
        Some(p) => precedence(op) < precedence(p) || (precedence(op) == precedence(p) && if is_right_assoc(p) {
            !is_right
        } else {
            is_right
        }),
    }
}

/// `s` in parentheses.
pub open spec fn parens(s: Seq<char>) -> Seq<char> {
    seq!['('] + s + seq![')']
}

/// The separator of list items.
pub open spec fn comma_sep() -> Seq<char> {
    seq![',', ' ']
}

/// The text of an expression that is a child of `parent` (as its right
/// child if `is_right`).
pub open spec fn expr_text(e: Expression, parent: Option<OpBinary>, is_right: bool) -> Seq<char>
    decreases e, 0nat,
{
    match e {
        Expression::Empty => seq![],
        Expression::Terminal { terminal_type, token } => if terminal_type == TerminalType::String {
            seq!['"'] + token.text@ + seq!['"']
        } else {
            token.text@
        },
        Expression::ComponentReference(c) => cref_text(c),
        Expression::Binary { op, lhs, rhs } => {
            let inner = expr_text(*lhs, Some(op), false) + seq![' '] + binary_op_text(op) + seq![' '] + expr_text(
                *rhs,
                Some(op),
                true,
            );
            if needs_parens(op, parent, is_right) {
                parens(inner)
            } else {
                inner
            }
        },
        Expression::Unary { op, rhs } => {
            let inner = unary_op_text(op) + expr_text(*rhs, None, false);
            if parent is Some && precedence(parent->0) >= 5 && (*rhs is Binary) {
                parens(inner)
            } else {
                inner
            }
        },
        Expression::FunctionCall { comp, args } => cref_text(comp) + parens(list_text(args@)),
        Expression::Array { elements } => seq!['{'] + list_text(elements@) + seq!['}'],
        Expression::Tuple { elements } => parens(list_text(elements@)),
        Expression::Range { start, step, end } => match step {
            Some(st) => expr_text(*start, None, false) + seq![':'] + expr_text(*st, None, false) + seq![':']
                + expr_text(*end, None, false),
            None => expr_text(*start, None, false) + seq![':'] + expr_text(*end, None, false),
        },
        Expression::If { branches, else_branch } => branches_text(branches@) + seq![' ', 'e', 'l', 's', 'e', ' ']
            + expr_text(*else_branch, None, false),
        Expression::NamedArgument { name, value } => name.text@ + seq![' ', '=', ' '] + expr_text(*value, None, false),
    }
}

/// Expressions written as a comma-separated list.
pub open spec fn list_text(es: Seq<Expression>) -> Seq<char>
    decreases es, 0nat,
{
    if es.len() == 0 {
        seq![]
    } else if es.len() == 1 {
        expr_text(es[0], None, false)
    } else {
        list_text(es.drop_last()) + comma_sep() + expr_text(es.last(), None, false)
    }
}

/// The branches of an if-expression: `if c then v`, then ` elseif c then v` for each later one.
pub open spec fn branches_text(bs: Seq<ExpressionBranch>) -> Seq<char>
    decreases bs, 0nat,
{
    if bs.len() == 0 {
        seq![]
    } else {
        let b = bs.last();
        let kw = if bs.len() == 1 { seq!['i', 'f', ' '] } else { seq![' ', 'e', 'l', 's', 'e', 'i', 'f', ' '] };
        branches_text(bs.drop_last()) + kw + expr_text(b.cond, None, false) + seq![' ', 't', 'h', 'e', 'n', ' ']
            + expr_text(b.value, None, false)
    }
}

/// A component reference: its parts joined by dots.
pub open spec fn cref_text(c: ComponentReference) -> Seq<char>
    decreases c, 0nat,
{
    parts_text(c.parts@)
}

/// Reference parts joined by dots.
pub open spec fn parts_text(ps: Seq<ComponentRefPart>) -> Seq<char>
    decreases ps, 0nat,
{
    if ps.len() == 0 {
        seq![]
    } else if ps.len() == 1 {
        part_text(ps[0])
    } else {
        parts_text(ps.drop_last()) + seq!['.'] + part_text(ps.last())
    }
}

/// One reference part: its identifier and any subscripts.
pub open spec fn part_text(p: ComponentRefPart) -> Seq<char>
    decreases p, 0nat,
{
    match p.subs {
        None => p.ident.text@,
        Some(subs) => p.ident.text@ + seq!['['] + subscripts_text(subs@) + seq![']'],
    }
}

/// Subscripts joined by commas.
pub open spec fn subscripts_text(ss: Seq<Subscript>) -> Seq<char>
    decreases ss, 0nat,
{
    if ss.len() == 0 {
        seq![]
    } else if ss.len() == 1 {
        subscript_text(ss[0])
    } else {
        subscripts_text(ss.drop_last()) + comma_sep() + subscript_text(ss.last())
    }
}

/// One subscript.
pub open spec fn subscript_text(s: Subscript) -> Seq<char>
    decreases s, 0nat,
{
    match s {
        Subscript::Empty => seq![],
        Subscript::Expression(e) => expr_text(e, None, false),
        Subscript::Range { .. } => seq![':'],
    }
}


/// Appends the characters of `s`.
pub fn append_str(out: &mut Vec<char>, s: &str)
    ensures
        final(out)@ == old(out)@ + s@,
{
    let ghost start = out@;
    for c in it: s.chars()
        invariant
            out@ == start + it.seq().take(it.index() as int),
    {
        out.push(c);
        proof {
            assert(it.seq().take(it.index() as int + 1) =~= it.seq().take(it.index() as int).push(c));
        }
    }
}

/// Appends the characters of a slice.
pub fn append_chars(out: &mut Vec<char>, s: &[char])
    ensures
        final(out)@ == old(out)@ + s@,
{
    let ghost start = out@;
    let mut i: usize = 0;
    while i < s.len()
        invariant
            i <= s@.len(),
            out@ == start + s@.take(i as int),
        decreases s.len() - i,
    {
        out.push(s[i]);
        proof {
            assert(s@.take(i as int + 1) =~= s@.take(i as int).push(s@[i as int]));
        }
        i = i + 1;
    }
    proof {
        assert(s@.take(s@.len() as int) =~= s@);
    }
}

/// How a binary operator is written.
pub fn format_binary_op(op: OpBinary) -> (r: &'static [char])
    ensures
        r@ == binary_op_text(op),
{
    match op {
        OpBinary::Empty => &[],
        OpBinary::Add => &['+'],
        OpBinary::Sub => &['-'],
        OpBinary::Mul => &['*'],
        OpBinary::Div => &['/'],
        OpBinary::Exp => &['^'],
        OpBinary::Eq => &['=', '='],
        OpBinary::Neq => &['<', '>'],
        OpBinary::Lt => &['<'],
        OpBinary::Le => &['<', '='],
        OpBinary::Gt => &['>'],
        OpBinary::Ge => &['>', '='],
        OpBinary::And => &['a', 'n', 'd'],
        OpBinary::Or => &['o', 'r'],
        OpBinary::AddElem => &['.', '+'],
        OpBinary::SubElem => &['.', '-'],
        OpBinary::MulElem => &['.', '*'],
        OpBinary::DivElem => &['.', '/'],
    }
}

/// How a unary operator is written.
pub fn format_unary_op(op: OpUnary) -> (r: &'static [char])
    ensures
        r@ == unary_op_text(op),
{
    match op {
        OpUnary::Empty => &[],
        OpUnary::Minus => &['-'],
        OpUnary::Plus => &['+'],
        OpUnary::DotMinus => &['.', '-'],
        OpUnary::DotPlus => &['.', '+'],
        OpUnary::Not => &['n', 'o', 't', ' '],
    }
}

/// Binding strength of a binary operator.
pub fn binary_op_precedence(op: OpBinary) -> (r: u8)
    ensures
        r == precedence(op),
{
    match op {
        OpBinary::Empty => 0,
        OpBinary::Or => 1,
        OpBinary::And => 2,
        OpBinary::Eq | OpBinary::Neq | OpBinary::Lt | OpBinary::Le | OpBinary::Gt | OpBinary::Ge => 3,
        OpBinary::Add | OpBinary::Sub | OpBinary::AddElem | OpBinary::SubElem => 4,
        OpBinary::Mul | OpBinary::Div | OpBinary::MulElem | OpBinary::DivElem => 5,
        OpBinary::Exp => 6,
    }
}

/// Whether a binary operator associates to the right.
pub fn binary_op_is_right_assoc(op: OpBinary) -> (r: bool)
    ensures
        r == is_right_assoc(op),
{
    op == OpBinary::Exp
}

/// Whether a binary child needs parentheses.
pub fn child_needs_parens(op: OpBinary, parent: Option<OpBinary>, is_right: bool) -> (r: bool)
    ensures
        r == needs_parens(op, parent, is_right),
{
    match parent {
        None => false,
        Some(p) => {
            let mine = binary_op_precedence(op);
            let theirs = binary_op_precedence(p);
            if mine < theirs {
                true
            } else if mine == theirs {
                if binary_op_is_right_assoc(p) {
                    !is_right
                } else {
                    is_right
                }
            } else {
                false
            }
        },
    }
}

/// Writes an expression that is a child of `parent`.
pub fn write_expression(out: &mut Vec<char>, e: &Expression, parent: Option<OpBinary>, is_right: bool)
    ensures
        final(out)@ == old(out)@ + expr_text(*e, parent, is_right),
    decreases e, 2nat,
{
    let ghost start = out@;
    match e {
        Expression::Empty => {
            assert(out@ =~= start + expr_text(*e, parent, is_right));
        },
        Expression::Terminal { terminal_type, token } => {
            if *terminal_type == TerminalType::String {
                out.push('"');
                append_str(out, token.text.as_str());
                out.push('"');
            } else {
                append_str(out, token.text.as_str());
            }
            assert(out@ =~= start + expr_text(*e, parent, is_right));
        },
        Expression::ComponentReference(c) => {
            write_cref(out, c);
        },
        Expression::Binary { .. } => {
            write_binary(out, e, parent, is_right);
        },
        Expression::Unary { .. } => {
            write_unary(out, e, parent);
        },
        Expression::FunctionCall { comp, args } => {
            write_cref(out, comp);
            out.push('(');
            write_list(out, args);
            out.push(')');
            assert(out@ =~= start + expr_text(*e, parent, is_right));
        },
        Expression::Array { elements } => {
            out.push('{');
            write_list(out, elements);
            out.push('}');
            assert(out@ =~= start + expr_text(*e, parent, is_right));
        },
        Expression::Tuple { elements } => {
            out.push('(');
            write_list(out, elements);
            out.push(')');
            assert(out@ =~= start + expr_text(*e, parent, is_right));
        },
        Expression::Range { start: s0, step, end } => {
            write_expression(out, s0, None, false);
            out.push(':');
            match step {
                Some(st) => {
                    write_expression(out, st, None, false);
                    out.push(':');
                },
                None => {},
            }
            write_expression(out, end, None, false);
            assert(out@ =~= start + expr_text(*e, parent, is_right));
        },
        Expression::If { branches, else_branch } => {
            write_branches(out, branches);
            append_chars(out, &[' ', 'e', 'l', 's', 'e', ' ']);
            write_expression(out, else_branch, None, false);
            assert(out@ =~= start + expr_text(*e, parent, is_right));
        },
        Expression::NamedArgument { name, value } => {
            append_str(out, name.text.as_str());
            append_chars(out, &[' ', '=', ' ']);
            write_expression(out, value, None, false);
            assert(out@ =~= start + expr_text(*e, parent, is_right));
        },
    }
}

/// Writes a binary expression, in parentheses where its parent binds tighter.
fn write_binary(out: &mut Vec<char>, e: &Expression, parent: Option<OpBinary>, is_right: bool)
    requires
        *e is Binary,
    ensures
        final(out)@ == old(out)@ + expr_text(*e, parent, is_right),
    decreases e, 1nat,
{
    let ghost start = out@;
    match e {
        Expression::Binary { op, lhs, rhs } => {
            let paren = child_needs_parens(*op, parent, is_right);
            if paren {
                out.push('(');
            }
            let ghost mid = out@;
            write_expression(out, lhs, Some(*op), false);
            out.push(' ');
            append_chars(out, format_binary_op(*op));
            out.push(' ');
            write_expression(out, rhs, Some(*op), true);
            let ghost inner = expr_text(**lhs, Some(*op), false) + seq![' '] + binary_op_text(*op) + seq![' ']
                + expr_text(**rhs, Some(*op), true);
            assert(out@ =~= mid + inner);
            if paren {
                out.push(')');
            }
            assert(out@ =~= start + expr_text(*e, parent, is_right));
        },
        _ => {},
    }
}

/// Writes a unary expression, in parentheses when it applies to a binary
/// expression under a multiplicative or tighter parent.
fn write_unary(out: &mut Vec<char>, e: &Expression, parent: Option<OpBinary>)
    requires
        *e is Unary,
    ensures
        forall|r: bool| final(out)@ == old(out)@ + #[trigger] expr_text(*e, parent, r),
    decreases e, 1nat,
{
    let ghost start = out@;
    match e {
        Expression::Unary { op, rhs } => {
            let paren = match parent {
                Some(p) => binary_op_precedence(p) >= 5 && matches!(**rhs, Expression::Binary { .. }),
                None => false,
            };
            if paren {
                out.push('(');
            }
            let ghost mid = out@;
            append_chars(out, format_unary_op(*op));
            write_expression(out, rhs, None, false);
            assert(out@ =~= mid + unary_op_text(*op) + expr_text(**rhs, None, false));
            if paren {
                out.push(')');
            }
            assert forall|r: bool| out@ == start + #[trigger] expr_text(*e, parent, r) by {
                assert(out@ =~= start + expr_text(*e, parent, r));
            }
        },
        _ => {},
    }
}

/// Writes expressions as a comma-separated list.
pub fn write_list(out: &mut Vec<char>, es: &Vec<Expression>)
    ensures
        final(out)@ == old(out)@ + list_text(es@),
    decreases es, 1nat,
{
    let ghost start = out@;
    let mut i: usize = 0;
    while i < es.len()
        invariant
            i <= es@.len(),
            out@ == start + list_text(es@.take(i as int)),
        decreases es.len() - i,
    {
        let ghost before = out@;
        if i > 0 {
            out.push(',');
            out.push(' ');
        }
        proof {
            assert(decreases_to!(es => es@[i as int]));
        }
        write_expression(out, &es[i], None, false);
        proof {
            let t = es@.take(i as int + 1);
            assert(t.drop_last() =~= es@.take(i as int));
            assert(t.last() == es@[i as int]);
            if i == 0 {
                assert(t.len() == 1);
                assert(out@ =~= start + list_text(t));
            } else {
                assert(out@ =~= start + list_text(t));
            }
        }
        i = i + 1;
    }
    proof {
        assert(es@.take(es@.len() as int) =~= es@);
    }
}

/// Writes the branches of an if-expression.
pub fn write_branches(out: &mut Vec<char>, bs: &Vec<ExpressionBranch>)
    ensures
        final(out)@ == old(out)@ + branches_text(bs@),
    decreases bs, 1nat,
{
    let ghost start = out@;
    let mut i: usize = 0;
    proof {
        assert(bs@.take(0).len() == 0);
        assert(out@ =~= start + branches_text(bs@.take(0)));
    }
    while i < bs.len()
        invariant
            i <= bs@.len(),
            out@ == start + branches_text(bs@.take(i as int)),
        decreases bs.len() - i,
    {
        if i == 0 {
            append_chars(out, &['i', 'f', ' ']);
        } else {
            append_chars(out, &[' ', 'e', 'l', 's', 'e', 'i', 'f', ' ']);
        }
        proof {
            assert(decreases_to!(bs => bs@[i as int]));
        }
        write_expression(out, &bs[i].cond, None, false);
        append_chars(out, &[' ', 't', 'h', 'e', 'n', ' ']);
        write_expression(out, &bs[i].value, None, false);
        proof {
            let t = bs@.take(i as int + 1);
            assert(t.drop_last() =~= bs@.take(i as int));
            assert(t.last() == bs@[i as int]);
            assert(out@ =~= start + branches_text(t));
        }
        i = i + 1;
    }
    proof {
        assert(bs@.take(bs@.len() as int) =~= bs@);
    }
}

/// Writes a component reference.
pub fn write_cref(out: &mut Vec<char>, c: &ComponentReference)
    ensures
        final(out)@ == old(out)@ + cref_text(*c),
    decreases c, 1nat,
{
    let ghost start = out@;
    let mut i: usize = 0;
    while i < c.parts.len()
        invariant
            i <= c.parts@.len(),
            out@ == start + parts_text(c.parts@.take(i as int)),
        decreases c.parts.len() - i,
    {
        if i > 0 {
            out.push('.');
        }
        proof {
            assert(decreases_to!(c => c.parts@[i as int]));
        }
        write_part(out, &c.parts[i]);
        proof {
            let t = c.parts@.take(i as int + 1);
            assert(t.drop_last() =~= c.parts@.take(i as int));
            assert(t.last() == c.parts@[i as int]);
            assert(out@ =~= start + parts_text(t));
        }
        i = i + 1;
    }
    proof {
        assert(c.parts@.take(c.parts@.len() as int) =~= c.parts@);
    }
}

/// Writes one part of a component reference.
pub fn write_part(out: &mut Vec<char>, p: &ComponentRefPart)
    ensures
        final(out)@ == old(out)@ + part_text(*p),
    decreases p, 1nat,
{
    let ghost start = out@;
    append_str(out, p.ident.text.as_str());
    match &p.subs {
        None => {},
        Some(subs) => {
            out.push('[');
            write_subscripts(out, subs);
            out.push(']');
        },
    }
    assert(out@ =~= start + part_text(*p));
}

/// Writes subscripts separated by commas.
pub fn write_subscripts(out: &mut Vec<char>, subs: &Vec<Subscript>)
    ensures
        final(out)@ == old(out)@ + subscripts_text(subs@),
    decreases subs, 1nat,
{
    let ghost mid = out@;
    let mut i: usize = 0;
    while i < subs.len()
        invariant
            i <= subs@.len(),
            out@ == mid + subscripts_text(subs@.take(i as int)),
        decreases subs.len() - i,
    {
        if i > 0 {
            out.push(',');
            out.push(' ');
        }
        proof {
            assert(decreases_to!(subs => subs@[i as int]));
        }
        write_subscript(out, &subs[i]);
        proof {
            let t = subs@.take(i as int + 1);
            assert(t.drop_last() =~= subs@.take(i as int));
            assert(t.last() == subs@[i as int]);
            assert(out@ =~= mid + subscripts_text(t));
        }
        i = i + 1;
    }
    proof {
        assert(subs@.take(subs@.len() as int) =~= subs@);
    }
}

/// Writes one subscript.
pub fn write_subscript(out: &mut Vec<char>, s: &Subscript)
    ensures
        final(out)@ == old(out)@ + subscript_text(*s),
    decreases s, 1nat,
{
    match s {
        Subscript::Empty => {
            assert(out@ =~= old(out)@ + subscript_text(*s));
        },
        Subscript::Expression(e) => {
            write_expression(out, e, None, false);
        },
        Subscript::Range { .. } => {
            out.push(':');
            assert(out@ =~= old(out)@ + subscript_text(*s));
        },
    }
}

/// The text of an expression standing on its own.
pub fn format_expression(e: &Expression) -> (r: String)
    ensures
        r@ == expr_text(*e, None, false),
{
    let mut out: Vec<char> = Vec::new();
    write_expression(&mut out, e, None, false);
    assert(out@ =~= expr_text(*e, None, false));
    chars_to_string(&out)
}

} // verus!
