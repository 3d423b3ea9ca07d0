//! Modelica source formatting.
//!
//! Source text is lexed and parsed, and the syntax tree is written back with
//! consistent indentation, operator spacing and line layout; comments are put
//! back before the constructs that followed them. Text that does not parse is
//! re-indented line by line instead.
use vstd::prelude::*;
use crate::ast::{
    Causality, ClassDefinition, ClassType, Component, ComponentReference, Connection, Equation, EquationBlock,
    Expression, ForIndex, Import, Name, Statement, StatementBlock, StoredDefinition, Subscript, TerminalType,
    Variability,
};
use crate::printer::{
    append_chars, append_str, cref_text, expr_text, list_text, subscripts_text, write_cref, write_expression,
    write_list, write_subscripts,
};
use crate::text::chars_to_string;

verus! {

/// Formatting options.
#[derive(Debug, Clone)]
pub struct FormatOptions {
    /// Spaces per indentation level (ignored when `use_tabs` is set).
    pub indent_size: usize,
    /// Indent with tabs instead of spaces.
    pub use_tabs: bool,
    /// Line length beyond which arrays are written one element per line.
    pub max_line_length: usize,
    /// Keep content that the formatter does not handle.
    pub preserve_unformatted: bool,
    /// Blank lines between top-level class definitions.
    pub blank_lines_between_classes: usize,
}

/// The default number of blank lines between top-level classes.
pub fn default_blank_lines_between_classes() -> (r: usize)
    ensures
        r == 1,
{
    1
}

impl Default for FormatOptions {
    fn default() -> (r: Self)
        ensures
            r.indent_size == 2,
            !r.use_tabs,
            r.max_line_length == 100,
            r.preserve_unformatted,
            r.blank_lines_between_classes == 1,
    {
        FormatOptions {
            indent_size: 2,
            use_tabs: false,
            max_line_length: 100,
            preserve_unformatted: true,
            blank_lines_between_classes: 1,
        }
    }
}

impl FormatOptions {
    /// Options indenting with `indent_size` spaces.
    pub fn with_spaces(indent_size: usize) -> (r: Self)
        ensures
            r.indent_size == indent_size,
            !r.use_tabs,
            r.max_line_length == 100,
            r.preserve_unformatted,
            r.blank_lines_between_classes == 1,
    {
        FormatOptions {
            indent_size,
            use_tabs: false,
            max_line_length: 100,
            preserve_unformatted: true,
            blank_lines_between_classes: 1,
        }
    }

    /// Options indenting with tabs.
    pub fn with_tabs() -> (r: Self)
        ensures
            r.indent_size == 1,
            r.use_tabs,
            r.max_line_length == 100,
            r.preserve_unformatted,
            r.blank_lines_between_classes == 1,
    {
        FormatOptions {
            indent_size: 1,
            use_tabs: true,
            max_line_length: 100,
            preserve_unformatted: true,
            blank_lines_between_classes: 1,
        }
    }

    /// Overrides the options given on the command line; the others stay.
    pub fn merge_cli_options(
        &mut self,
        cli_indent_size: Option<usize>,
        cli_use_tabs: Option<bool>,
        cli_max_line_length: Option<usize>,
    )
        ensures
            final(self).indent_size == match cli_indent_size {
                Some(v) => v,
                None => old(self).indent_size,
            },
            final(self).use_tabs == match cli_use_tabs {
                Some(v) => v,
                None => old(self).use_tabs,
            },
            final(self).max_line_length == match cli_max_line_length {
                Some(v) => v,
                None => old(self).max_line_length,
            },
            final(self).preserve_unformatted == old(self).preserve_unformatted,
            final(self).blank_lines_between_classes == old(self).blank_lines_between_classes,
    {
        if let Some(indent_size) = cli_indent_size {
            self.indent_size = indent_size;
        }
        if let Some(use_tabs) = cli_use_tabs {
            self.use_tabs = use_tabs;
        }
        if let Some(max_line_length) = cli_max_line_length {
            self.max_line_length = max_line_length;
        }
    }

    /// Like `merge_cli_options`, also overriding the blank lines between classes.
    pub fn merge_cli_options_ext(
        &mut self,
        cli_indent_size: Option<usize>,
        cli_use_tabs: Option<bool>,
        cli_max_line_length: Option<usize>,
        cli_blank_lines_between_classes: Option<usize>,
    )
        ensures
            final(self).indent_size == match cli_indent_size {
                Some(v) => v,
                None => old(self).indent_size,
            },
            final(self).use_tabs == match cli_use_tabs {
                Some(v) => v,
                None => old(self).use_tabs,
            },
            final(self).max_line_length == match cli_max_line_length {
                Some(v) => v,
                None => old(self).max_line_length,
            },
            final(self).preserve_unformatted == old(self).preserve_unformatted,
            final(self).blank_lines_between_classes == match cli_blank_lines_between_classes {
                Some(v) => v,
                None => old(self).blank_lines_between_classes,
            },
    {
        self.merge_cli_options(cli_indent_size, cli_use_tabs, cli_max_line_length);
        if let Some(blank_lines) = cli_blank_lines_between_classes {
            self.blank_lines_between_classes = blank_lines;
        }
    }
}

/// `s` repeated `n` times.
pub open spec fn repeat(s: Seq<char>, n: nat) -> Seq<char>
    decreases n,
{
    if n == 0 {
        seq![]
    } else {
        repeat(s, (n - 1) as nat) + s
    }
}

/// One level of indentation.
pub open spec fn indent_unit(o: FormatOptions) -> Seq<char> {
    if o.use_tabs {
        seq!['\t']
    } else {
        repeat(seq![' '], o.indent_size as nat)
    }
}

/// The indentation of nesting level `level`.
pub open spec fn indent_text(o: FormatOptions, level: nat) -> Seq<char> {
    repeat(indent_unit(o), level)
}

/// Builds one level of indentation.
pub fn make_indent_unit(o: &FormatOptions) -> (r: Vec<char>)
    ensures
        r@ == indent_unit(*o),
{
    let mut r: Vec<char> = Vec::new();
    if o.use_tabs {
        r.push('\t');
        assert(r@ =~= seq!['\t']);
    } else {
        let mut i: usize = 0;
        while i < o.indent_size
            invariant
                !o.use_tabs,
                i <= o.indent_size,
                r@ == repeat(seq![' '], i as nat),
            decreases o.indent_size - i,
        {
            r.push(' ');
            proof {
                assert(r@ =~= repeat(seq![' '], i as nat) + seq![' ']);
            }
            i = i + 1;
        }
    }
    r
}

/// Writes `level` copies of `unit`.
pub fn write_indent(out: &mut Vec<char>, unit: &[char], level: usize)
    ensures
        final(out)@ == old(out)@ + repeat(unit@, level as nat),
{
    let ghost start = out@;
    let mut i: usize = 0;
    while i < level
        invariant
            i <= level,
            out@ == start + repeat(unit@, i as nat),
        decreases level - i,
    {
        append_chars(out, unit);
        proof {
            assert(out@ =~= start + repeat(unit@, (i + 1) as nat));
        }
        i = i + 1;
    }
}


/// Whether an array right-hand side is written one element per line: it
/// has more than two elements, or on one line it would pass the maximum
/// line length at this indentation.
pub open spec fn array_multiline(o: FormatOptions, es: Seq<Expression>, level: nat) -> bool {
    es.len() > 2 || (seq!['{'] + list_text(es) + seq!['}']).len() + level * o.indent_size > o.max_line_length
}

/// Line `i` of a multi-line array: the element, a comma unless it is the last, a newline.
pub open spec fn array_line(o: FormatOptions, es: Seq<Expression>, i: int, level: nat) -> Seq<char> {
    indent_text(o, level + 1) + expr_text(es[i], None, false) + (if i + 1 < es.len() {
        seq![',']
    } else {
        seq![]
    }) + seq!['\n']
}

/// The first `k` lines of a multi-line array.
pub open spec fn array_lines(o: FormatOptions, es: Seq<Expression>, k: nat, level: nat) -> Seq<char>
    decreases k,
{
    if k == 0 {
        seq![]
    } else {
        array_lines(o, es, (k - 1) as nat, level) + array_line(o, es, k - 1, level)
    }
}

/// An array written one element per line.
pub open spec fn array_multiline_text(o: FormatOptions, es: Seq<Expression>, level: nat) -> Seq<char> {
    seq!['{', '\n'] + array_lines(o, es, es.len(), level) + indent_text(o, level) + seq!['}']
}

/// `for` indices: `i in range` or just `i`, separated by commas.
pub open spec fn for_indices_text(ix: Seq<ForIndex>) -> Seq<char>
    decreases ix.len(),
{
    if ix.len() == 0 {
        seq![]
    } else {
        let last = ix.last();
        let one = if last.range is Empty {
            last.ident.text@
        } else {
            last.ident.text@ + seq![' ', 'i', 'n', ' '] + expr_text(last.range, None, false)
        };
        if ix.len() == 1 {
            one
        } else {
            for_indices_text(ix.drop_last()) + seq![',', ' '] + one
        }
    }
}

/// An equation at nesting level `level`, with its trailing newline.
pub open spec fn equation_text(o: FormatOptions, eq: Equation, level: nat) -> Seq<char>
    decreases eq, 0nat,
{
    let ind = indent_text(o, level);
    match eq {
        Equation::Empty => seq![],
        Equation::Simple { lhs, rhs } => {
            let rhs_text = match rhs {
                Expression::Array { elements } => if array_multiline(o, elements@, level) {
                    array_multiline_text(o, elements@, level)
                } else {
                    expr_text(rhs, None, false)
                },
                _ => expr_text(rhs, None, false),
            };
            ind + expr_text(lhs, None, false) + seq![' ', '=', ' '] + rhs_text + seq![';', '\n']
        },
        Equation::Connect { lhs, rhs } => ind + seq!['c', 'o', 'n', 'n', 'e', 'c', 't', '('] + cref_text(lhs)
            + seq![',', ' '] + cref_text(rhs) + seq![')', ';', '\n'],
        Equation::For { indices, equations } => ind + seq!['f', 'o', 'r', ' '] + for_indices_text(indices@)
            + seq![' ', 'l', 'o', 'o', 'p', '\n'] + equations_text(o, equations@, level + 1) + ind + seq![
            'e',
            'n',
            'd',
            ' ',
            'f',
            'o',
            'r',
            ';',
            '\n',
        ],
        Equation::When(blocks) => eq_blocks_text(o, blocks@, level, false) + ind + seq![
            'e',
            'n',
            'd',
            ' ',
            'w',
            'h',
            'e',
            'n',
            ';',
            '\n',
        ],
        Equation::If { cond_blocks, else_block } => eq_blocks_text(o, cond_blocks@, level, true) + match else_block {
            Some(eqs) => ind + seq!['e', 'l', 's', 'e', '\n'] + equations_text(o, eqs@, level + 1),
            None => seq![],
        } + ind + seq!['e', 'n', 'd', ' ', 'i', 'f', ';', '\n'],
        Equation::FunctionCall { comp, args } => ind + cref_text(comp) + seq!['('] + list_text(args@) + seq![
            ')',
            ';',
            '\n',
        ],
    }
}

/// Equations one after another.
pub open spec fn equations_text(o: FormatOptions, eqs: Seq<Equation>, level: nat) -> Seq<char>
    decreases eqs, 0nat,
{
    if eqs.len() == 0 {
        seq![]
    } else {
        equations_text(o, eqs.drop_last(), level) + equation_text(o, eqs.last(), level)
    }
}

/// The keyword that opens block `i` of an if (`if`/`elseif`) or when (`when`/`elsewhen`) clause.
pub open spec fn block_keyword(is_if: bool, i: int) -> Seq<char> {
    if is_if {
        if i == 0 { seq!['i', 'f'] } else { seq!['e', 'l', 's', 'e', 'i', 'f'] }
    } else {
        if i == 0 { seq!['w', 'h', 'e', 'n'] } else { seq!['e', 'l', 's', 'e', 'w', 'h', 'e', 'n'] }
    }
}

/// The guarded blocks of an if or when equation.
pub open spec fn eq_blocks_text(o: FormatOptions, bs: Seq<EquationBlock>, level: nat, is_if: bool) -> Seq<char>
    decreases bs, 0nat,
{
    if bs.len() == 0 {
        seq![]
    } else {
        eq_blocks_text(o, bs.drop_last(), level, is_if) + eq_block_text(o, bs.last(), bs.len() - 1, level, is_if)
    }
}

/// Block `i` of an if or when equation: its keyword, condition and body.
pub open spec fn eq_block_text(o: FormatOptions, b: EquationBlock, i: int, level: nat, is_if: bool) -> Seq<char>
    decreases b, 0nat,
{
    indent_text(o, level) + block_keyword(is_if, i) + seq![' '] + expr_text(b.cond, None, false) + seq![
        ' ',
        't',
        'h',
        'e',
        'n',
        '\n',
    ] + equations_text(o, b.eqs@, level + 1)
}


/// How deeply equations nest inside `eq`.
pub open spec fn eq_depth(eq: Equation) -> nat
    decreases eq, 0nat,
{
    match eq {
        Equation::For { equations, .. } => 1 + eqs_depth(equations@),
        Equation::When(blocks) => 1 + eq_blocks_depth(blocks@),
        Equation::If { cond_blocks, else_block } => 1 + match else_block {
            Some(eqs) => if eqs_depth(eqs@) > eq_blocks_depth(cond_blocks@) {
                eqs_depth(eqs@)
            } else {
                eq_blocks_depth(cond_blocks@)
            },
            None => eq_blocks_depth(cond_blocks@),
        },
        _ => 0,
    }
}

/// The deepest nesting among equations.
pub open spec fn eqs_depth(eqs: Seq<Equation>) -> nat
    decreases eqs, 0nat,
{
    if eqs.len() == 0 {
        0
    } else {
        let a = eqs_depth(eqs.drop_last());
        let b = eq_depth(eqs.last());
        if a > b { a } else { b }
    }
}

/// The deepest nesting among the bodies of guarded blocks.
pub open spec fn eq_blocks_depth(bs: Seq<EquationBlock>) -> nat
    decreases bs, 0nat,
{
    if bs.len() == 0 {
        0
    } else {
        let a = eq_blocks_depth(bs.drop_last());
        let b = eqs_depth(bs.last().eqs@);
        if a > b { a } else { b }
    }
}

proof fn lemma_eqs_depth(eqs: Seq<Equation>, i: int)
    requires
        0 <= i < eqs.len(),
    ensures
        eq_depth(eqs[i]) <= eqs_depth(eqs),
    decreases eqs.len(),
{
    if i < eqs.len() - 1 {
        lemma_eqs_depth(eqs.drop_last(), i);
    }
}

proof fn lemma_eq_blocks_depth(bs: Seq<EquationBlock>, i: int)
    requires
        0 <= i < bs.len(),
    ensures
        eqs_depth(bs[i].eqs@) <= eq_blocks_depth(bs),
    decreases bs.len(),
{
    if i < bs.len() - 1 {
        lemma_eq_blocks_depth(bs.drop_last(), i);
    }
}

/// Whether an array is written one element per line.
pub fn should_format_array_multiline(o: &FormatOptions, es: &Vec<Expression>, level: usize) -> (r: bool)
    ensures
        r == array_multiline(*o, es@, level as nat),
{
    if es.len() > 2 {
        return true;
    }
    let mut single: Vec<char> = Vec::new();
    single.push('{');
    write_list(&mut single, es);
    single.push('}');
    proof {
        assert(single@ =~= seq!['{'] + list_text(es@) + seq!['}']);
    }
    match level.checked_mul(o.indent_size) {
        Some(indent_len) => match single.len().checked_add(indent_len) {
            Some(total) => total > o.max_line_length,
            None => true,
        },
        None => true,
    }
}

/// Writes an array one element per line.
fn write_array_multiline(out: &mut Vec<char>, o: &FormatOptions, unit: &[char], es: &Vec<Expression>, level: usize)
    requires
        unit@ == indent_unit(*o),
        level < usize::MAX,
    ensures
        final(out)@ == old(out)@ + array_multiline_text(*o, es@, level as nat),
{
    let ghost start = out@;
    out.push('{');
    out.push('\n');
    let ghost mid = out@;
    let mut i: usize = 0;
    while i < es.len()
        invariant
            unit@ == indent_unit(*o),
            level < usize::MAX,
            i <= es@.len(),
            out@ == mid + array_lines(*o, es@, i as nat, level as nat),
        decreases es.len() - i,
    {
        let ghost before = out@;
        write_indent(out, unit, level + 1);
        write_expression(out, &es[i], None, false);
        if i + 1 < es.len() {
            out.push(',');
        }
        out.push('\n');
        proof {
            assert(out@ =~= before + array_line(*o, es@, i as int, level as nat));
        }
        i = i + 1;
    }
    write_indent(out, unit, level);
    out.push('}');
    assert(out@ =~= start + array_multiline_text(*o, es@, level as nat));
}

/// Writes `for` indices.
fn write_for_indices(out: &mut Vec<char>, ix: &Vec<ForIndex>)
    ensures
        final(out)@ == old(out)@ + for_indices_text(ix@),
{
    let ghost start = out@;
    let mut i: usize = 0;
    while i < ix.len()
        invariant
            i <= ix@.len(),
            out@ == start + for_indices_text(ix@.take(i as int)),
        decreases ix.len() - i,
    {
        if i > 0 {
            out.push(',');
            out.push(' ');
        }
        append_str(out, ix[i].ident.text.as_str());
        if !matches!(ix[i].range, Expression::Empty) {
            append_chars(out, &[' ', 'i', 'n', ' ']);
            write_expression(out, &ix[i].range, None, false);
        }
        proof {
            let t = ix@.take(i as int + 1);
            assert(t.drop_last() =~= ix@.take(i as int));
            assert(t.last() == ix@[i as int]);
            assert(out@ =~= start + for_indices_text(t));
        }
        i = i + 1;
    }
    proof {
        assert(ix@.take(ix@.len() as int) =~= ix@);
    }
}

/// Writes a simple equation `lhs = rhs;`, an array right-hand side one
/// element per line where it is long.
fn write_simple_equation(out: &mut Vec<char>, o: &FormatOptions, unit: &[char], eq: &Equation, level: usize)
    requires
        unit@ == indent_unit(*o),
        *eq is Simple,
        level < usize::MAX,
    ensures
        final(out)@ == old(out)@ + equation_text(*o, *eq, level as nat),
{
    let ghost start = out@;
    match eq {
        Equation::Simple { lhs, rhs } => {
            write_indent(out, unit, level);
            write_expression(out, lhs, None, false);
            append_chars(out, &[' ', '=', ' ']);
            let mut done = false;
            match rhs {
                Expression::Array { elements } => {
                    if should_format_array_multiline(o, elements, level) {
                        write_array_multiline(out, o, unit, elements, level);
                        done = true;
                    }
                },
                _ => {},
            }
            if !done {
                write_expression(out, rhs, None, false);
            }
            out.push(';');
            out.push('\n');
            assert(out@ =~= start + equation_text(*o, *eq, level as nat));
        },
        _ => {},
    }
}

/// Writes an if or when equation.
fn write_if_when_equation(out: &mut Vec<char>, o: &FormatOptions, unit: &[char], eq: &Equation, level: usize)
    requires
        unit@ == indent_unit(*o),
        *eq is If || *eq is When,
        level + eq_depth(*eq) < usize::MAX,
    ensures
        final(out)@ == old(out)@ + equation_text(*o, *eq, level as nat),
    decreases eq, 1nat,
{
    let ghost start = out@;
    match eq {
        Equation::When(blocks) => {
            write_eq_blocks(out, o, unit, blocks, level, false);
            write_indent(out, unit, level);
            append_chars(out, &['e', 'n', 'd', ' ', 'w', 'h', 'e', 'n', ';', '\n']);
            assert(out@ =~= start + equation_text(*o, *eq, level as nat));
        },
        Equation::If { cond_blocks, else_block } => {
            write_eq_blocks(out, o, unit, cond_blocks, level, true);
            let ghost mid = out@;
            match else_block {
                Some(eqs) => {
                    write_indent(out, unit, level);
                    append_chars(out, &['e', 'l', 's', 'e', '\n']);
                    write_equations(out, o, unit, eqs, level + 1);
                },
                None => {},
            }
            write_indent(out, unit, level);
            append_chars(out, &['e', 'n', 'd', ' ', 'i', 'f', ';', '\n']);
            assert(out@ =~= start + equation_text(*o, *eq, level as nat));
        },
        _ => {},
    }
}

/// Writes `connect(a, b);`.
fn write_connect_equation(out: &mut Vec<char>, o: &FormatOptions, unit: &[char], eq: &Equation, level: usize)
    requires
        unit@ == indent_unit(*o),
        *eq is Connect,
    ensures
        final(out)@ == old(out)@ + equation_text(*o, *eq, level as nat),
{
    let ghost start = out@;
    match eq {
        Equation::Connect { lhs, rhs } => {
            write_indent(out, unit, level);
            append_chars(out, &['c', 'o', 'n', 'n', 'e', 'c', 't', '(']);
            write_cref(out, lhs);
            append_chars(out, &[',', ' ']);
            write_cref(out, rhs);
            append_chars(out, &[')', ';', '\n']);
            assert(out@ =~= start + equation_text(*o, *eq, level as nat));
        },
        _ => {},
    }
}

/// Writes a call equation `f(args);`.
fn write_call_equation(out: &mut Vec<char>, o: &FormatOptions, unit: &[char], eq: &Equation, level: usize)
    requires
        unit@ == indent_unit(*o),
        *eq is FunctionCall,
    ensures
        final(out)@ == old(out)@ + equation_text(*o, *eq, level as nat),
{
    let ghost start = out@;
    match eq {
        Equation::FunctionCall { comp, args } => {
            write_indent(out, unit, level);
            write_cref(out, comp);
            out.push('(');
            write_list(out, args);
            append_chars(out, &[')', ';', '\n']);
            assert(out@ =~= start + equation_text(*o, *eq, level as nat));
        },
        _ => {},
    }
}

/// Writes a for equation.
fn write_for_equation(out: &mut Vec<char>, o: &FormatOptions, unit: &[char], eq: &Equation, level: usize)
    requires
        unit@ == indent_unit(*o),
        *eq is For,
        level + eq_depth(*eq) < usize::MAX,
    ensures
        final(out)@ == old(out)@ + equation_text(*o, *eq, level as nat),
    decreases eq, 1nat,
{
    let ghost start = out@;
    match eq {
        Equation::For { indices, equations } => {
            write_indent(out, unit, level);
            append_chars(out, &['f', 'o', 'r', ' ']);
            write_for_indices(out, indices);
            append_chars(out, &[' ', 'l', 'o', 'o', 'p', '\n']);
            write_equations(out, o, unit, equations, level + 1);
            write_indent(out, unit, level);
            append_chars(out, &['e', 'n', 'd', ' ', 'f', 'o', 'r', ';', '\n']);
            assert(out@ =~= start + equation_text(*o, *eq, level as nat));
        },
        _ => {},
    }
}

/// Writes an equation at nesting level `level`.
pub fn write_equation(out: &mut Vec<char>, o: &FormatOptions, unit: &[char], eq: &Equation, level: usize)
    requires
        unit@ == indent_unit(*o),
        level + eq_depth(*eq) < usize::MAX,
    ensures
        final(out)@ == old(out)@ + equation_text(*o, *eq, level as nat),
    decreases eq, 2nat,
{
    match eq {
        Equation::Empty => {
            assert(out@ =~= old(out)@ + equation_text(*o, *eq, level as nat));
        },
        Equation::Simple { .. } => {
            write_simple_equation(out, o, unit, eq, level);
        },
        Equation::Connect { .. } => {
            write_connect_equation(out, o, unit, eq, level);
        },
        Equation::FunctionCall { .. } => {
            write_call_equation(out, o, unit, eq, level);
        },
        Equation::For { .. } => {
            write_for_equation(out, o, unit, eq, level);
        },
        Equation::When(..) | Equation::If { .. } => {
            write_if_when_equation(out, o, unit, eq, level);
        },
    }
}

/// Writes equations one after another.
pub fn write_equations(out: &mut Vec<char>, o: &FormatOptions, unit: &[char], eqs: &Vec<Equation>, level: usize)
    requires
        unit@ == indent_unit(*o),
        level + eqs_depth(eqs@) < usize::MAX,
    ensures
        final(out)@ == old(out)@ + equations_text(*o, eqs@, level as nat),
    decreases eqs, 1nat,
{
    let ghost start = out@;
    let mut i: usize = 0;
    while i < eqs.len()
        invariant
            unit@ == indent_unit(*o),
            level + eqs_depth(eqs@) < usize::MAX,
            i <= eqs@.len(),
            out@ == start + equations_text(*o, eqs@.take(i as int), level as nat),
        decreases eqs.len() - i,
    {
        proof {
            lemma_eqs_depth(eqs@, i as int);
            assert(decreases_to!(eqs => eqs@[i as int]));
        }
        write_equation(out, o, unit, &eqs[i], level);
        proof {
            let t = eqs@.take(i as int + 1);
            assert(t.drop_last() =~= eqs@.take(i as int));
            assert(t.last() == eqs@[i as int]);
        }
        i = i + 1;
    }
    proof {
        assert(eqs@.take(eqs@.len() as int) =~= eqs@);
    }
}

/// Writes the keyword that opens block `i` of an if or when clause.
fn write_block_keyword(out: &mut Vec<char>, is_if: bool, i: usize)
    ensures
        final(out)@ == old(out)@ + block_keyword(is_if, i as int),
{
    if is_if {
        if i == 0 {
            append_chars(out, &['i', 'f']);
        } else {
            append_chars(out, &['e', 'l', 's', 'e', 'i', 'f']);
        }
    } else {
        if i == 0 {
            append_chars(out, &['w', 'h', 'e', 'n']);
        } else {
            append_chars(out, &['e', 'l', 's', 'e', 'w', 'h', 'e', 'n']);
        }
    }
}

/// Writes one guarded block of an if or when equation.
fn write_eq_block(out: &mut Vec<char>, o: &FormatOptions, unit: &[char], b: &EquationBlock, i: usize, level: usize, is_if: bool)
    requires
        unit@ == indent_unit(*o),
        level + 1 + eqs_depth(b.eqs@) < usize::MAX,
    ensures
        final(out)@ == old(out)@ + eq_block_text(*o, *b, i as int, level as nat, is_if),
    decreases b, 1nat,
{
    let ghost start = out@;
    write_indent(out, unit, level);
    write_block_keyword(out, is_if, i);
    out.push(' ');
    write_expression(out, &b.cond, None, false);
    append_chars(out, &[' ', 't', 'h', 'e', 'n', '\n']);
    write_equations(out, o, unit, &b.eqs, level + 1);
    assert(out@ =~= start + eq_block_text(*o, *b, i as int, level as nat, is_if));
}

/// Writes the guarded blocks of an if or when equation.
fn write_eq_blocks(out: &mut Vec<char>, o: &FormatOptions, unit: &[char], bs: &Vec<EquationBlock>, level: usize, is_if: bool)
    requires
        unit@ == indent_unit(*o),
        level + 1 + eq_blocks_depth(bs@) < usize::MAX,
    ensures
        final(out)@ == old(out)@ + eq_blocks_text(*o, bs@, level as nat, is_if),
    decreases bs, 2nat,
{
    let ghost start = out@;
    let mut i: usize = 0;
    while i < bs.len()
        invariant
            unit@ == indent_unit(*o),
            level + 1 + eq_blocks_depth(bs@) < usize::MAX,
            i <= bs@.len(),
            out@ == start + eq_blocks_text(*o, bs@.take(i as int), level as nat, is_if),
        decreases bs.len() - i,
    {
        proof {
            lemma_eq_blocks_depth(bs@, i as int);
            assert(decreases_to!(bs => bs@[i as int]));
        }
        write_eq_block(out, o, unit, &bs[i], i, level, is_if);
        proof {
            let t = bs@.take(i as int + 1);
            assert(t.drop_last() =~= bs@.take(i as int));
            assert(t.last() == bs@[i as int]);
        }
        i = i + 1;
    }
    proof {
        assert(bs@.take(bs@.len() as int) =~= bs@);
    }
}


/// A statement at nesting level `level`, with its trailing newline.
pub open spec fn statement_text(o: FormatOptions, st: Statement, level: nat) -> Seq<char>
    decreases st, 0nat,
{
    let ind = indent_text(o, level);
    match st {
        Statement::Empty => seq![],
        Statement::Assignment { comp, value } => ind + cref_text(comp) + seq![' ', ':', '=', ' '] + expr_text(value, None, false)
            + seq![';', '\n'],
        Statement::FunctionCall { comp, args } => ind + cref_text(comp) + seq!['('] + list_text(args@) + seq![')', ';', '\n'],
        Statement::For { indices, equations } => ind + seq!['f', 'o', 'r', ' '] + for_indices_text(indices@) + seq![' ', 'l', 'o', 'o', 'p', '\n']
            + statements_text(o, equations@, level + 1) + ind + seq!['e', 'n', 'd', ' ', 'f', 'o', 'r', ';', '\n'],
        Statement::While(block) => ind + seq!['w', 'h', 'i', 'l', 'e', ' '] + expr_text(block.cond, None, false) + seq![' ', 'l', 'o', 'o', 'p', '\n']
            + statements_text(o, block.stmts@, level + 1) + ind + seq!['e', 'n', 'd', ' ', 'w', 'h', 'i', 'l', 'e', ';', '\n'],
        Statement::If { cond_blocks, else_block } => st_blocks_text(o, cond_blocks@, level, true) + match else_block {
            Some(sts) => ind + seq!['e', 'l', 's', 'e', '\n'] + statements_text(o, sts@, level + 1),
            None => seq![],
        } + ind + seq!['e', 'n', 'd', ' ', 'i', 'f', ';', '\n'],
        Statement::When(blocks) => st_blocks_text(o, blocks@, level, false) + ind + seq!['e', 'n', 'd', ' ', 'w', 'h', 'e', 'n', ';', '\n'],
        Statement::Return { .. } => ind + seq!['r', 'e', 't', 'u', 'r', 'n', ';', '\n'],
        Statement::Break { .. } => ind + seq!['b', 'r', 'e', 'a', 'k', ';', '\n'],
    }
}

/// Statements one after another.
pub open spec fn statements_text(o: FormatOptions, sts: Seq<Statement>, level: nat) -> Seq<char>
    decreases sts, 0nat,
{
    if sts.len() == 0 {
        seq![]
    } else {
        statements_text(o, sts.drop_last(), level) + statement_text(o, sts.last(), level)
    }
}

/// The guarded blocks of an if or when statement.
pub open spec fn st_blocks_text(o: FormatOptions, bs: Seq<StatementBlock>, level: nat, is_if: bool) -> Seq<char>
    decreases bs, 0nat,
{
    if bs.len() == 0 {
        seq![]
    } else {
        st_blocks_text(o, bs.drop_last(), level, is_if) + st_block_text(o, bs.last(), bs.len() - 1, level, is_if)
    }
}

/// Block `i` of an if or when statement.
pub open spec fn st_block_text(o: FormatOptions, b: StatementBlock, i: int, level: nat, is_if: bool) -> Seq<char>
    decreases b, 0nat,
{
    indent_text(o, level) + block_keyword(is_if, i) + seq![' '] + expr_text(b.cond, None, false) + seq![' ', 't', 'h', 'e', 'n', '\n']
        + statements_text(o, b.stmts@, level + 1)
}

/// How deeply statements nest inside `st`.
pub open spec fn st_depth(st: Statement) -> nat
    decreases st, 0nat,
{
    match st {
        Statement::For { equations, .. } => 1 + sts_depth(equations@),
        Statement::While(block) => 1 + sts_depth(block.stmts@),
        Statement::When(blocks) => 1 + st_blocks_depth(blocks@),
        Statement::If { cond_blocks, else_block } => 1 + match else_block {
            Some(sts) => if sts_depth(sts@) > st_blocks_depth(cond_blocks@) {
                sts_depth(sts@)
            } else {
                st_blocks_depth(cond_blocks@)
            },
            None => st_blocks_depth(cond_blocks@),
        },
        _ => 0,
    }
}

/// The deepest nesting among statements.
pub open spec fn sts_depth(sts: Seq<Statement>) -> nat
    decreases sts, 0nat,
{
    if sts.len() == 0 {
        0
    } else {
        let a = sts_depth(sts.drop_last());
        let b = st_depth(sts.last());
        if a > b { a } else { b }
    }
}

/// The deepest nesting among the bodies of guarded statement blocks.
pub open spec fn st_blocks_depth(bs: Seq<StatementBlock>) -> nat
    decreases bs, 0nat,
{
    if bs.len() == 0 {
        0
    } else {
        let a = st_blocks_depth(bs.drop_last());
        let b = sts_depth(bs.last().stmts@);
        if a > b { a } else { b }
    }
}

proof fn lemma_sts_depth(sts: Seq<Statement>, i: int)
    requires
        0 <= i < sts.len(),
    ensures
        st_depth(sts[i]) <= sts_depth(sts),
    decreases sts.len(),
{
    if i < sts.len() - 1 {
        lemma_sts_depth(sts.drop_last(), i);
    }
}

proof fn lemma_st_blocks_depth(bs: Seq<StatementBlock>, i: int)
    requires
        0 <= i < bs.len(),
    ensures
        sts_depth(bs[i].stmts@) <= st_blocks_depth(bs),
    decreases bs.len(),
{
    if i < bs.len() - 1 {
        lemma_st_blocks_depth(bs.drop_last(), i);
    }
}

/// Writes a statement without nested statements.
fn write_simple_statement(out: &mut Vec<char>, o: &FormatOptions, unit: &[char], st: &Statement, level: usize)
    requires
        unit@ == indent_unit(*o),
        *st is Empty || *st is Assignment || *st is FunctionCall || *st is Return || *st is Break,
    ensures
        final(out)@ == old(out)@ + statement_text(*o, *st, level as nat),
{
    let ghost start = out@;
    match st {
        Statement::Assignment { comp, value } => {
            write_indent(out, unit, level);
            write_cref(out, comp);
            append_chars(out, &[' ', ':', '=', ' ']);
            write_expression(out, value, None, false);
            append_chars(out, &[';', '\n']);
        },
        Statement::FunctionCall { comp, args } => {
            write_indent(out, unit, level);
            write_cref(out, comp);
            out.push('(');
            write_list(out, args);
            append_chars(out, &[')', ';', '\n']);
        },
        Statement::Return { .. } => {
            write_indent(out, unit, level);
            append_chars(out, &['r', 'e', 't', 'u', 'r', 'n', ';', '\n']);
        },
        Statement::Break { .. } => {
            write_indent(out, unit, level);
            append_chars(out, &['b', 'r', 'e', 'a', 'k', ';', '\n']);
        },
        _ => {},
    }
    assert(out@ =~= start + statement_text(*o, *st, level as nat));
}

/// Writes a for or while statement.
fn write_loop_statement(out: &mut Vec<char>, o: &FormatOptions, unit: &[char], st: &Statement, level: usize)
    requires
        unit@ == indent_unit(*o),
        *st is For || *st is While,
        level + st_depth(*st) < usize::MAX,
    ensures
        final(out)@ == old(out)@ + statement_text(*o, *st, level as nat),
    decreases st, 1nat,
{
    let ghost start = out@;
    match st {
        Statement::For { indices, equations } => {
            write_indent(out, unit, level);
            append_chars(out, &['f', 'o', 'r', ' ']);
            write_for_indices(out, indices);
            append_chars(out, &[' ', 'l', 'o', 'o', 'p', '\n']);
            write_statements(out, o, unit, equations, level + 1);
            write_indent(out, unit, level);
            append_chars(out, &['e', 'n', 'd', ' ', 'f', 'o', 'r', ';', '\n']);
        },
        Statement::While(block) => {
            write_indent(out, unit, level);
            append_chars(out, &['w', 'h', 'i', 'l', 'e', ' ']);
            write_expression(out, &block.cond, None, false);
            append_chars(out, &[' ', 'l', 'o', 'o', 'p', '\n']);
            write_statements(out, o, unit, &block.stmts, level + 1);
            write_indent(out, unit, level);
            append_chars(out, &['e', 'n', 'd', ' ', 'w', 'h', 'i', 'l', 'e', ';', '\n']);
        },
        _ => {},
    }
    assert(out@ =~= start + statement_text(*o, *st, level as nat));
}

/// Writes an if or when statement.
fn write_if_when_statement(out: &mut Vec<char>, o: &FormatOptions, unit: &[char], st: &Statement, level: usize)
    requires
        unit@ == indent_unit(*o),
        *st is If || *st is When,
        level + st_depth(*st) < usize::MAX,
    ensures
        final(out)@ == old(out)@ + statement_text(*o, *st, level as nat),
    decreases st, 1nat,
{
    let ghost start = out@;
    match st {
        Statement::When(blocks) => {
            write_st_blocks(out, o, unit, blocks, level, false);
            write_indent(out, unit, level);
            append_chars(out, &['e', 'n', 'd', ' ', 'w', 'h', 'e', 'n', ';', '\n']);
        },
        Statement::If { cond_blocks, else_block } => {
            write_st_blocks(out, o, unit, cond_blocks, level, true);
            match else_block {
                Some(sts) => {
                    write_indent(out, unit, level);
                    append_chars(out, &['e', 'l', 's', 'e', '\n']);
                    write_statements(out, o, unit, sts, level + 1);
                },
                None => {},
            }
            write_indent(out, unit, level);
            append_chars(out, &['e', 'n', 'd', ' ', 'i', 'f', ';', '\n']);
        },
        _ => {},
    }
    assert(out@ =~= start + statement_text(*o, *st, level as nat));
}

/// Writes a statement at nesting level `level`.
pub fn write_statement(out: &mut Vec<char>, o: &FormatOptions, unit: &[char], st: &Statement, level: usize)
    requires
        unit@ == indent_unit(*o),
        level + st_depth(*st) < usize::MAX,
    ensures
        final(out)@ == old(out)@ + statement_text(*o, *st, level as nat),
    decreases st, 2nat,
{
    match st {
        Statement::For { .. } | Statement::While(..) => {
            write_loop_statement(out, o, unit, st, level);
        },
        Statement::If { .. } | Statement::When(..) => {
            write_if_when_statement(out, o, unit, st, level);
        },
        _ => {
            write_simple_statement(out, o, unit, st, level);
        },
    }
}

/// Writes statements one after another.
pub fn write_statements(out: &mut Vec<char>, o: &FormatOptions, unit: &[char], sts: &Vec<Statement>, level: usize)
    requires
        unit@ == indent_unit(*o),
        level + sts_depth(sts@) < usize::MAX,
    ensures
        final(out)@ == old(out)@ + statements_text(*o, sts@, level as nat),
    decreases sts, 1nat,
{
    let ghost start = out@;
    let mut i: usize = 0;
    while i < sts.len()
        invariant
            unit@ == indent_unit(*o),
            level + sts_depth(sts@) < usize::MAX,
            i <= sts@.len(),
            out@ == start + statements_text(*o, sts@.take(i as int), level as nat),
        decreases sts.len() - i,
    {
        proof {
            lemma_sts_depth(sts@, i as int);
            assert(decreases_to!(sts => sts@[i as int]));
        }
        write_statement(out, o, unit, &sts[i], level);
        proof {
            let t = sts@.take(i as int + 1);
            assert(t.drop_last() =~= sts@.take(i as int));
            assert(t.last() == sts@[i as int]);
        }
        i = i + 1;
    }
    proof {
        assert(sts@.take(sts@.len() as int) =~= sts@);
    }
}

/// Writes one guarded block of an if or when statement.
fn write_st_block(out: &mut Vec<char>, o: &FormatOptions, unit: &[char], b: &StatementBlock, i: usize, level: usize, is_if: bool)
    requires
        unit@ == indent_unit(*o),
        level + 1 + sts_depth(b.stmts@) < usize::MAX,
    ensures
        final(out)@ == old(out)@ + st_block_text(*o, *b, i as int, level as nat, is_if),
    decreases b, 1nat,
{
    let ghost start = out@;
    write_indent(out, unit, level);
    write_block_keyword(out, is_if, i);
    out.push(' ');
    write_expression(out, &b.cond, None, false);
    append_chars(out, &[' ', 't', 'h', 'e', 'n', '\n']);
    write_statements(out, o, unit, &b.stmts, level + 1);
    assert(out@ =~= start + st_block_text(*o, *b, i as int, level as nat, is_if));
}

/// Writes the guarded blocks of an if or when statement.
fn write_st_blocks(out: &mut Vec<char>, o: &FormatOptions, unit: &[char], bs: &Vec<StatementBlock>, level: usize, is_if: bool)
    requires
        unit@ == indent_unit(*o),
        level + 1 + st_blocks_depth(bs@) < usize::MAX,
    ensures
        final(out)@ == old(out)@ + st_blocks_text(*o, bs@, level as nat, is_if),
    decreases bs, 2nat,
{
    let ghost start = out@;
    let mut i: usize = 0;
    while i < bs.len()
        invariant
            unit@ == indent_unit(*o),
            level + 1 + st_blocks_depth(bs@) < usize::MAX,
            i <= bs@.len(),
            out@ == start + st_blocks_text(*o, bs@.take(i as int), level as nat, is_if),
        decreases bs.len() - i,
    {
        proof {
            lemma_st_blocks_depth(bs@, i as int);
            assert(decreases_to!(bs => bs@[i as int]));
        }
        write_st_block(out, o, unit, &bs[i], i, level, is_if);
        proof {
            let t = bs@.take(i as int + 1);
            assert(t.drop_last() =~= bs@.take(i as int));
            assert(t.last() == bs@[i as int]);
        }
        i = i + 1;
    }
    proof {
        assert(bs@.take(bs@.len() as int) =~= bs@);
    }
}


/// The variability prefix of a declaration, with its trailing space.
pub open spec fn variability_prefix(v: Variability) -> Seq<char> {
    match v {
        Variability::Constant(_) => "constant "@,
        Variability::Parameter(_) => "parameter "@,
        Variability::Discrete(_) => "discrete "@,
        Variability::Empty => seq![],
    }
}

/// The causality prefix of a declaration, with its trailing space.
pub open spec fn causality_prefix(c: Causality) -> Seq<char> {
    match c {
        Causality::Input(_) => "input "@,
        Causality::Output(_) => "output "@,
        Causality::Empty => seq![],
    }
}

/// The connection prefix of a declaration, with its trailing space.
pub open spec fn connection_prefix(c: Connection) -> Seq<char> {
    match c {
        Connection::Flow(_) => "flow "@,
        Connection::Stream(_) => "stream "@,
        Connection::Empty => seq![],
    }
}

/// All prefixes of a declaration.
pub open spec fn prefixes_text(c: Component) -> Seq<char> {
    variability_prefix(c.variability) + causality_prefix(c.causality) + connection_prefix(c.connection)
}

/// The parts of a dotted name joined by dots.
pub open spec fn dotted_text(ts: Seq<crate::ast::Token>) -> Seq<char>
    decreases ts.len(),
{
    if ts.len() == 0 {
        seq![]
    } else if ts.len() == 1 {
        ts[0].text@
    } else {
        dotted_text(ts.drop_last()) + seq!['.'] + ts.last().text@
    }
}

/// A dotted name.
pub open spec fn name_text(n: Name) -> Seq<char> {
    dotted_text(n.name@)
}

/// The source line of an expression's first token, if it has one.
pub open spec fn expr_line(e: Expression) -> Option<u32>
    decreases e,
{
    match e {
        Expression::Empty => None,
        Expression::Terminal { token, .. } => Some(token.location.start_line),
        Expression::ComponentReference(c) => if c.parts@.len() > 0 {
            Some(c.parts@[0].ident.location.start_line)
        } else {
            None
        },
        Expression::FunctionCall { comp, .. } => if comp.parts@.len() > 0 {
            Some(comp.parts@[0].ident.location.start_line)
        } else {
            None
        },
        Expression::Binary { lhs, .. } => expr_line(*lhs),
        Expression::Unary { rhs, .. } => expr_line(*rhs),
        Expression::Range { start, .. } => expr_line(*start),
        Expression::Array { elements } | Expression::Tuple { elements } => if elements@.len() > 0 {
            expr_line(elements@[0])
        } else {
            None
        },
        Expression::If { branches, .. } => if branches@.len() > 0 {
            expr_line(branches@[0].cond)
        } else {
            None
        },
        Expression::NamedArgument { name, .. } => Some(name.location.start_line),
    }
}

/// Whether a declaration's binding is written: it came from the source (it
/// has a source line), as opposed to a default filled in without one.
pub open spec fn shows_start(c: Component) -> bool {
    match c.start {
        Expression::Empty => false,
        Expression::Terminal { token, .. } => token.location.start_line > 0,
        _ => match expr_line(c.start) {
            Some(l) => l > 0,
            None => false,
        },
    }
}

/// A declaration carries something of its own (modifications, description,
/// annotation or binding) and so is not grouped with its neighbours.
pub open spec fn has_individual_attrs(c: Component) -> bool {
    c.modifications@.len() > 0 || c.description@.len() > 0 || c.annotation@.len() > 0 || shows_start(c)
}

/// Array dimensions `[d1, d2]` of a declaration, if it has any.
pub open spec fn shape_text(s: Seq<Subscript>) -> Seq<char> {
    if s.len() > 0 {
        seq!['['] + subscripts_text(s) + seq![']']
    } else {
        seq![]
    }
}

/// Modifications `name = value` separated by commas.
pub open spec fn mods_list(m: Seq<crate::ast::Modification>) -> Seq<char>
    decreases m.len(),
{
    if m.len() == 0 {
        seq![]
    } else {
        let one = m.last().name@ + seq![' ', '=', ' '] + expr_text(m.last().value, None, false);
        if m.len() == 1 {
            one
        } else {
            mods_list(m.drop_last()) + seq![',', ' '] + one
        }
    }
}

/// Description strings, each quoted, separated by spaces.
pub open spec fn descs_list(d: Seq<crate::ast::Token>) -> Seq<char>
    decreases d.len(),
{
    if d.len() == 0 {
        seq![]
    } else {
        let one = seq!['"'] + d.last().text@ + seq!['"'];
        if d.len() == 1 {
            one
        } else {
            descs_list(d.drop_last()) + seq![' '] + one
        }
    }
}

/// A declaration on a line of its own, without indentation or newline.
pub open spec fn component_text(c: Component) -> Seq<char> {
    component_head(c) + component_tail(c)
}

/// Prefixes, type, name, dimensions and modifications of a declaration.
pub open spec fn component_head(c: Component) -> Seq<char> {
    prefixes_text(c) + name_text(c.type_path) + seq![' '] + c.name@ + shape_text(c.shape@) + (if c.modifications@.len()
        > 0 {
        seq!['('] + mods_list(c.modifications@) + seq![')']
    } else {
        seq![]
    })
}

/// Binding, description, annotation and the closing `;` of a declaration.
pub open spec fn component_tail(c: Component) -> Seq<char> {
    (if shows_start(c) {
        seq![' ', '=', ' '] + expr_text(c.start, None, false)
    } else {
        seq![]
    }) + (if c.description@.len() > 0 {
        seq![' '] + descs_list(c.description@)
    } else {
        seq![]
    }) + (if c.annotation@.len() > 0 {
        " annotation("@ + list_text(c.annotation@) + seq![')']
    } else {
        seq![]
    }) + seq![';']
}

/// Names (with dimensions) of grouped declarations, separated by commas.
pub open spec fn group_names(cs: Seq<Component>) -> Seq<char>
    decreases cs.len(),
{
    if cs.len() == 0 {
        seq![]
    } else {
        let one = cs.last().name@ + shape_text(cs.last().shape@);
        if cs.len() == 1 {
            one
        } else {
            group_names(cs.drop_last()) + seq![',', ' '] + one
        }
    }
}

/// Grouped declarations `Real x, y, z;` sharing the first one's prefixes and type.
pub open spec fn group_text(cs: Seq<Component>) -> Seq<char> {
    prefixes_text(cs[0]) + name_text(cs[0].type_path) + seq![' '] + group_names(cs) + seq![';']
}

/// Writes the prefixes of a declaration.
fn write_prefixes(out: &mut Vec<char>, c: &Component)
    ensures
        final(out)@ == old(out)@ + prefixes_text(*c),
{
    let ghost start = out@;
    match &c.variability {
        Variability::Constant(_) => append_str(out, "constant "),
        Variability::Parameter(_) => append_str(out, "parameter "),
        Variability::Discrete(_) => append_str(out, "discrete "),
        Variability::Empty => {},
    }
    let ghost a = out@;
    match &c.causality {
        Causality::Input(_) => append_str(out, "input "),
        Causality::Output(_) => append_str(out, "output "),
        Causality::Empty => {},
    }
    let ghost b = out@;
    match &c.connection {
        Connection::Flow(_) => append_str(out, "flow "),
        Connection::Stream(_) => append_str(out, "stream "),
        Connection::Empty => {},
    }
    assert(a =~= start + variability_prefix(c.variability));
    assert(b =~= a + causality_prefix(c.causality));
    assert(out@ =~= start + prefixes_text(*c));
}

/// Writes a dotted name.
pub fn write_name(out: &mut Vec<char>, n: &Name)
    ensures
        final(out)@ == old(out)@ + name_text(*n),
{
    let ghost start = out@;
    let mut i: usize = 0;
    while i < n.name.len()
        invariant
            i <= n.name@.len(),
            out@ == start + dotted_text(n.name@.take(i as int)),
        decreases n.name.len() - i,
    {
        if i > 0 {
            out.push('.');
        }
        append_str(out, n.name[i].text.as_str());
        proof {
            let t = n.name@.take(i as int + 1);
            assert(t.drop_last() =~= n.name@.take(i as int));
            assert(t.last() == n.name@[i as int]);
            assert(out@ =~= start + dotted_text(t));
        }
        i = i + 1;
    }
    proof {
        assert(n.name@.take(n.name@.len() as int) =~= n.name@);
    }
}

/// The source line of an expression's first token.
pub fn expression_line(e: &Expression) -> (r: Option<u32>)
    ensures
        r == expr_line(*e),
    decreases e,
{
    match e {
        Expression::Empty => None,
        Expression::Terminal { token, .. } => Some(token.location.start_line),
        Expression::ComponentReference(c) => if c.parts.len() > 0 {
            Some(c.parts[0].ident.location.start_line)
        } else {
            None
        },
        Expression::FunctionCall { comp, .. } => if comp.parts.len() > 0 {
            Some(comp.parts[0].ident.location.start_line)
        } else {
            None
        },
        Expression::Binary { lhs, .. } => expression_line(lhs),
        Expression::Unary { rhs, .. } => expression_line(rhs),
        Expression::Range { start, .. } => expression_line(start),
        Expression::Array { elements } | Expression::Tuple { elements } => if elements.len() > 0 {
            proof {
                assert(decreases_to!(e => elements@[0]));
            }
            expression_line(&elements[0])
        } else {
            None
        },
        Expression::If { branches, .. } => if branches.len() > 0 {
            proof {
                assert(decreases_to!(e => branches@[0].cond));
            }
            expression_line(&branches[0].cond)
        } else {
            None
        },
        Expression::NamedArgument { name, .. } => Some(name.location.start_line),
    }
}

/// Whether a declaration's binding is written.
pub fn component_shows_start(c: &Component) -> (r: bool)
    ensures
        r == shows_start(*c),
{
    match &c.start {
        Expression::Empty => false,
        Expression::Terminal { token, .. } => token.location.start_line > 0,
        _ => match expression_line(&c.start) {
            Some(l) => l > 0,
            None => false,
        },
    }
}

/// Whether a declaration carries something of its own.
pub fn component_has_individual_attrs(c: &Component) -> (r: bool)
    ensures
        r == has_individual_attrs(*c),
{
    c.modifications.len() > 0 || c.description.len() > 0 || c.annotation.len() > 0 || component_shows_start(c)
}

/// Writes array dimensions of a declaration.
fn write_shape(out: &mut Vec<char>, shape: &Vec<Subscript>)
    ensures
        final(out)@ == old(out)@ + shape_text(shape@),
{
    if shape.len() > 0 {
        out.push('[');
        write_subscripts(out, shape);
        out.push(']');
        assert(out@ =~= old(out)@ + shape_text(shape@));
    } else {
        assert(out@ =~= old(out)@ + shape_text(shape@));
    }
}

/// Writes modifications separated by commas.
fn write_mods(out: &mut Vec<char>, m: &Vec<crate::ast::Modification>)
    ensures
        final(out)@ == old(out)@ + mods_list(m@),
{
    let ghost start = out@;
    let mut i: usize = 0;
    while i < m.len()
        invariant
            i <= m@.len(),
            out@ == start + mods_list(m@.take(i as int)),
        decreases m.len() - i,
    {
        if i > 0 {
            out.push(',');
            out.push(' ');
        }
        append_str(out, m[i].name.as_str());
        append_chars(out, &[' ', '=', ' ']);
        write_expression(out, &m[i].value, None, false);
        proof {
            let t = m@.take(i as int + 1);
            assert(t.drop_last() =~= m@.take(i as int));
            assert(t.last() == m@[i as int]);
            assert(out@ =~= start + mods_list(t));
        }
        i = i + 1;
    }
    proof {
        assert(m@.take(m@.len() as int) =~= m@);
    }
}

/// Writes description strings.
fn write_descs(out: &mut Vec<char>, d: &Vec<crate::ast::Token>)
    ensures
        final(out)@ == old(out)@ + descs_list(d@),
{
    let ghost start = out@;
    let mut i: usize = 0;
    while i < d.len()
        invariant
            i <= d@.len(),
            out@ == start + descs_list(d@.take(i as int)),
        decreases d.len() - i,
    {
        if i > 0 {
            out.push(' ');
        }
        out.push('"');
        append_str(out, d[i].text.as_str());
        out.push('"');
        proof {
            let t = d@.take(i as int + 1);
            assert(t.drop_last() =~= d@.take(i as int));
            assert(t.last() == d@[i as int]);
            assert(out@ =~= start + descs_list(t));
        }
        i = i + 1;
    }
    proof {
        assert(d@.take(d@.len() as int) =~= d@);
    }
}

/// Writes the head of a declaration.
fn write_component_head(out: &mut Vec<char>, c: &Component)
    ensures
        final(out)@ == old(out)@ + component_head(*c),
{
    let ghost start = out@;
    write_prefixes(out, c);
    write_name(out, &c.type_path);
    out.push(' ');
    append_str(out, c.name.as_str());
    write_shape(out, &c.shape);
    let ghost a = out@;
    if c.modifications.len() > 0 {
        out.push('(');
        write_mods(out, &c.modifications);
        out.push(')');
    }
    assert(out@ =~= start + component_head(*c));
}

/// Writes the tail of a declaration.
fn write_component_tail(out: &mut Vec<char>, c: &Component)
    ensures
        final(out)@ == old(out)@ + component_tail(*c),
{
    let ghost start = out@;
    if component_shows_start(c) {
        append_chars(out, &[' ', '=', ' ']);
        write_expression(out, &c.start, None, false);
    }
    let ghost d = out@;
    if c.description.len() > 0 {
        out.push(' ');
        write_descs(out, &c.description);
    }
    let ghost f = out@;
    if c.annotation.len() > 0 {
        append_str(out, " annotation(");
        write_list(out, &c.annotation);
        out.push(')');
    }
    let ghost g = out@;
    out.push(';');
    proof {
        assert(d =~= start + (if shows_start(*c) {
            seq![' ', '=', ' '] + expr_text(c.start, None, false)
        } else {
            seq![]
        }));
        assert(f =~= d + (if c.description@.len() > 0 {
            seq![' '] + descs_list(c.description@)
        } else {
            seq![]
        }));
        assert(g =~= f + (if c.annotation@.len() > 0 {
            " annotation("@ + list_text(c.annotation@) + seq![')']
        } else {
            seq![]
        }));
        assert(out@ =~= start + component_tail(*c));
    }
}

/// Writes a declaration on its own.
pub fn write_component(out: &mut Vec<char>, c: &Component)
    ensures
        final(out)@ == old(out)@ + component_text(*c),
{
    let ghost start = out@;
    write_component_head(out, c);
    write_component_tail(out, c);
    assert(out@ =~= start + component_text(*c));
}

/// Writes the declarations `cs[i..j]` as one grouped declaration.
pub fn write_component_group(out: &mut Vec<char>, cs: &Vec<Component>, i: usize, j: usize)
    requires
        i < j <= cs@.len(),
    ensures
        final(out)@ == old(out)@ + group_text(cs@.subrange(i as int, j as int)),
{
    let ghost start = out@;
    let ghost g = cs@.subrange(i as int, j as int);
    write_prefixes(out, &cs[i]);
    write_name(out, &cs[i].type_path);
    out.push(' ');
    let ghost mid = out@;
    let mut k = i;
    while k < j
        invariant
            i <= k <= j <= cs@.len(),
            g == cs@.subrange(i as int, j as int),
            out@ == mid + group_names(cs@.subrange(i as int, k as int)),
        decreases j - k,
    {
        if k > i {
            out.push(',');
            out.push(' ');
        }
        append_str(out, cs[k].name.as_str());
        write_shape(out, &cs[k].shape);
        proof {
            let t = cs@.subrange(i as int, k as int + 1);
            assert(t.drop_last() =~= cs@.subrange(i as int, k as int));
            assert(t.last() == cs@[k as int]);
            assert(out@ =~= mid + group_names(t));
        }
        k = k + 1;
    }
    out.push(';');
    assert(g[0] == cs@[i as int]);
    assert(out@ =~= start + group_text(g));
}


/// A comment to put back, with the source line it stood on.
#[derive(Debug, Clone)]
pub struct CommentInfo {
    pub text: Vec<char>,
    pub line: u32,
}

/// White space that `trim_end` removes.
pub open spec fn is_trim_space(c: char) -> bool {
    c == ' ' || c == '\t' || c == '\n' || c == '\r'
}

/// `s` without trailing white space.
pub open spec fn trim_end_spec(s: Seq<char>) -> Seq<char>
    decreases s.len(),
{
    if s.len() > 0 && is_trim_space(s.last()) {
        trim_end_spec(s.drop_last())
    } else {
        s
    }
}

/// The length of `s` without trailing white space.
pub fn trim_end_len(s: &[char]) -> (r: usize)
    ensures
        r <= s@.len(),
        s@.take(r as int) == trim_end_spec(s@),
{
    let mut n = s.len();
    assert(s@.take(n as int) =~= s@);
    while n > 0 && (s[n - 1] == ' ' || s[n - 1] == '\t' || s[n - 1] == '\n' || s[n - 1] == '\r')
        invariant
            n <= s@.len(),
            trim_end_spec(s@.take(n as int)) == trim_end_spec(s@),
        decreases n,
    {
        proof {
            assert(s@.take(n as int).drop_last() =~= s@.take(n - 1));
        }
        n = n - 1;
    }
    proof {
        assert(s@.take(n as int) =~= trim_end_spec(s@.take(n as int)));
    }
    n
}

/// The output being built with the state of comment insertion.
pub struct FormatVisitor {
    pub options: FormatOptions,
    /// One level of indentation.
    pub indent_str: Vec<char>,
    pub output: Vec<char>,
    pub indent_level: usize,
    /// Comments to put back, in source order.
    pub comments: Vec<CommentInfo>,
    /// The first comment not yet written.
    pub next_comment_idx: usize,
}

/// A comment line: the comment without trailing white space, indented.
pub open spec fn comment_line(o: FormatOptions, level: nat, c: CommentInfo) -> Seq<char> {
    indent_text(o, level) + trim_end_spec(c.text@) + seq!['\n']
}

/// The comment lines of comments `from..to`.
pub open spec fn comment_lines(o: FormatOptions, level: nat, cs: Seq<CommentInfo>, from: int, to: int) -> Seq<char>
    decreases to - from,
{
    if to <= from {
        seq![]
    } else {
        comment_lines(o, level, cs, from, to - 1) + comment_line(o, level, cs[to - 1])
    }
}

impl FormatVisitor {
    pub open spec fn wf(self) -> bool {
        &&& self.indent_str@ == indent_unit(self.options)
        &&& self.next_comment_idx <= self.comments@.len()
    }

    /// A visitor with nothing written, putting back `comments`.
    pub fn with_comments(options: &FormatOptions, comments: Vec<CommentInfo>) -> (r: Self)
        ensures
            r.wf(),
            r.options == *options,
            r.output@ == Seq::<char>::empty(),
            r.indent_level == 0,
            r.comments@ == comments@,
            r.next_comment_idx == 0,
    {
        let opts = FormatOptions {
            indent_size: options.indent_size,
            use_tabs: options.use_tabs,
            max_line_length: options.max_line_length,
            preserve_unformatted: options.preserve_unformatted,
            blank_lines_between_classes: options.blank_lines_between_classes,
        };
        FormatVisitor {
            indent_str: make_indent_unit(options),
            options: opts,
            output: Vec::new(),
            indent_level: 0,
            comments,
            next_comment_idx: 0,
        }
    }

    /// Writes `s` on a line of its own at the current indentation.
    pub fn writeln(&mut self, s: &[char])
        requires
            old(self).wf(),
        ensures
            final(self).output@ == old(self).output@ + indent_text(old(self).options, old(self).indent_level as nat) + s@
                + seq!['\n'],
            final(self).options == old(self).options,
            final(self).indent_str == old(self).indent_str,
            final(self).indent_level == old(self).indent_level,
            final(self).comments == old(self).comments,
            final(self).next_comment_idx == old(self).next_comment_idx,
    {
        let ghost start = self.output@;
        write_indent(&mut self.output, &self.indent_str, self.indent_level);
        append_chars(&mut self.output, s);
        self.output.push('\n');
        assert(self.output@ =~= start + indent_text(self.options, self.indent_level as nat) + s@ + seq!['\n']);
    }

    /// Writes the comments that stood before source line `target_line`.
    pub fn emit_comments_before_line(&mut self, target_line: u32)
        requires
            old(self).wf(),
        ensures
            final(self).wf(),
            final(self).options == old(self).options,
            final(self).indent_str == old(self).indent_str,
            final(self).indent_level == old(self).indent_level,
            final(self).comments == old(self).comments,
            old(self).next_comment_idx <= final(self).next_comment_idx,
            forall|k: int|
                old(self).next_comment_idx <= k < final(self).next_comment_idx ==> #[trigger] old(self).comments@[k].line
                    < target_line,
            final(self).next_comment_idx == old(self).comments@.len() || old(self).comments@[final(self).next_comment_idx as int].line
                >= target_line,
            final(self).output@ == old(self).output@ + comment_lines(
                old(self).options,
                old(self).indent_level as nat,
                old(self).comments@,
                old(self).next_comment_idx as int,
                final(self).next_comment_idx as int,
            ),
            (final(self).output@, final(self).next_comment_idx as nat) == emit_before(
                old(self).options,
                old(self).comments@,
                old(self).indent_level as nat,
                (old(self).output@, old(self).next_comment_idx as nat),
                target_line,
            ),
    {
        let ghost s0 = *self;
        while self.next_comment_idx < self.comments.len() && self.comments[self.next_comment_idx].line < target_line
            invariant
                self.wf(),
                self.options == s0.options,
                self.indent_str == s0.indent_str,
                self.indent_level == s0.indent_level,
                self.comments == s0.comments,
                s0.next_comment_idx <= self.next_comment_idx,
                forall|k: int| s0.next_comment_idx <= k < self.next_comment_idx ==> #[trigger] s0.comments@[k].line < target_line,
                self.output@ == s0.output@ + comment_lines(
                    s0.options,
                    s0.indent_level as nat,
                    s0.comments@,
                    s0.next_comment_idx as int,
                    self.next_comment_idx as int,
                ),
            decreases self.comments@.len() - self.next_comment_idx,
        {
            let idx = self.next_comment_idx;
            let n = trim_end_len(&self.comments[idx].text);
            let text = crate::lexer::slice_chars(&self.comments[idx].text, 0, n);
            proof {
                assert(text@ =~= trim_end_spec(self.comments@[idx as int].text@));
            }
            self.writeln(&text);
            self.next_comment_idx = idx + 1;
        }
        proof {
            lemma_skip_to(s0.comments@, s0.next_comment_idx as nat, self.next_comment_idx as nat, target_line);
        }
    }

    /// Writes every comment not yet written.
    pub fn emit_remaining_comments(&mut self)
        requires
            old(self).wf(),
        ensures
            final(self).wf(),
            final(self).next_comment_idx == old(self).comments@.len(),
            final(self).output@ == old(self).output@ + comment_lines(
                old(self).options,
                old(self).indent_level as nat,
                old(self).comments@,
                old(self).next_comment_idx as int,
                old(self).comments@.len() as int,
            ),
    {
        let ghost s0 = *self;
        while self.next_comment_idx < self.comments.len()
            invariant
                self.wf(),
                self.options == s0.options,
                self.indent_str == s0.indent_str,
                self.indent_level == s0.indent_level,
                self.comments == s0.comments,
                s0.next_comment_idx <= self.next_comment_idx,
                self.output@ == s0.output@ + comment_lines(
                    s0.options,
                    s0.indent_level as nat,
                    s0.comments@,
                    s0.next_comment_idx as int,
                    self.next_comment_idx as int,
                ),
            decreases self.comments@.len() - self.next_comment_idx,
        {
            let idx = self.next_comment_idx;
            let n = trim_end_len(&self.comments[idx].text);
            let text = crate::lexer::slice_chars(&self.comments[idx].text, 0, n);
            proof {
                assert(text@ =~= trim_end_spec(self.comments@[idx as int].text@));
            }
            self.writeln(&text);
            self.next_comment_idx = idx + 1;
        }
    }
}


/// How deeply a class nests: nested classes, equations and statements.
pub open spec fn class_depth(c: ClassDefinition) -> nat
    decreases c, 0nat,
{
    let a = classes_depth(c.classes@);
    let b = eqs_depth(c.equations@);
    let d = eqs_depth(c.initial_equations@);
    let e = algs_depth(c.algorithms@);
    let f = algs_depth(c.initial_algorithms@);
    let m1 = if a > b { a } else { b };
    let m2 = if d > e { d } else { e };
    let m3 = if m1 > m2 { m1 } else { m2 };
    1 + if m3 > f { m3 } else { f }
}

/// The deepest nesting among classes.
pub open spec fn classes_depth(cs: Seq<ClassDefinition>) -> nat
    decreases cs, 0nat,
{
    if cs.len() == 0 {
        0
    } else {
        let a = classes_depth(cs.drop_last());
        let b = class_depth(cs.last());
        if a > b { a } else { b }
    }
}

/// The deepest nesting among algorithm sections.
pub open spec fn algs_depth(a: Seq<Vec<Statement>>) -> nat
    decreases a.len(),
{
    if a.len() == 0 {
        0
    } else {
        let x = algs_depth(a.drop_last());
        let y = sts_depth(a.last()@);
        if x > y { x } else { y }
    }
}

proof fn lemma_classes_depth(cs: Seq<ClassDefinition>, i: int)
    requires
        0 <= i < cs.len(),
    ensures
        class_depth(cs[i]) <= classes_depth(cs),
    decreases cs.len(),
{
    if i < cs.len() - 1 {
        lemma_classes_depth(cs.drop_last(), i);
    }
}

proof fn lemma_algs_depth(a: Seq<Vec<Statement>>, i: int)
    requires
        0 <= i < a.len(),
    ensures
        sts_depth(a[i]@) <= algs_depth(a),
    decreases a.len(),
{
    if i < a.len() - 1 {
        lemma_algs_depth(a.drop_last(), i);
    }
}

/// The source line of an equation's first token, if it has one.
pub open spec fn eq_line(eq: Equation) -> Option<u32> {
    match eq {
        Equation::Empty => None,
        Equation::Simple { lhs, .. } => expr_line(lhs),
        Equation::Connect { lhs, .. } => if lhs.parts@.len() > 0 {
            Some(lhs.parts@[0].ident.location.start_line)
        } else {
            None
        },
        Equation::For { indices, .. } => if indices@.len() > 0 {
            Some(indices@[0].ident.location.start_line)
        } else {
            None
        },
        Equation::When(blocks) => if blocks@.len() > 0 {
            expr_line(blocks@[0].cond)
        } else {
            None
        },
        Equation::If { cond_blocks, .. } => if cond_blocks@.len() > 0 {
            expr_line(cond_blocks@[0].cond)
        } else {
            None
        },
        Equation::FunctionCall { comp, .. } => if comp.parts@.len() > 0 {
            Some(comp.parts@[0].ident.location.start_line)
        } else {
            None
        },
    }
}

/// The source line of an equation's first token.
pub fn get_equation_location(eq: &Equation) -> (r: Option<u32>)
    ensures
        r == eq_line(*eq),
{
    match eq {
        Equation::Empty => None,
        Equation::Simple { lhs, .. } => expression_line(lhs),
        Equation::Connect { lhs, .. } => if lhs.parts.len() > 0 {
            Some(lhs.parts[0].ident.location.start_line)
        } else {
            None
        },
        Equation::For { indices, .. } => if indices.len() > 0 {
            Some(indices[0].ident.location.start_line)
        } else {
            None
        },
        Equation::When(blocks) => if blocks.len() > 0 {
            expression_line(&blocks[0].cond)
        } else {
            None
        },
        Equation::If { cond_blocks, .. } => if cond_blocks.len() > 0 {
            expression_line(&cond_blocks[0].cond)
        } else {
            None
        },
        Equation::FunctionCall { comp, .. } => if comp.parts.len() > 0 {
            Some(comp.parts[0].ident.location.start_line)
        } else {
            None
        },
    }
}

/// The source line of a statement's first token, if it has one.
pub open spec fn st_line(st: Statement) -> Option<u32> {
    match st {
        Statement::Empty => None,
        Statement::Assignment { comp, .. } | Statement::FunctionCall { comp, .. } => if comp.parts@.len() > 0 {
            Some(comp.parts@[0].ident.location.start_line)
        } else {
            None
        },
        Statement::For { indices, .. } => if indices@.len() > 0 {
            Some(indices@[0].ident.location.start_line)
        } else {
            None
        },
        Statement::While(block) => expr_line(block.cond),
        Statement::If { cond_blocks, .. } => if cond_blocks@.len() > 0 {
            expr_line(cond_blocks@[0].cond)
        } else {
            None
        },
        Statement::When(blocks) => if blocks@.len() > 0 {
            expr_line(blocks@[0].cond)
        } else {
            None
        },
        Statement::Return { token } | Statement::Break { token } => Some(token.location.start_line),
    }
}

/// The source line of a statement's first token.
pub fn get_statement_location(st: &Statement) -> (r: Option<u32>)
    ensures
        r == st_line(*st),
{
    match st {
        Statement::Empty => None,
        Statement::Assignment { comp, .. } | Statement::FunctionCall { comp, .. } => if comp.parts.len() > 0 {
            Some(comp.parts[0].ident.location.start_line)
        } else {
            None
        },
        Statement::For { indices, .. } => if indices.len() > 0 {
            Some(indices[0].ident.location.start_line)
        } else {
            None
        },
        Statement::While(block) => expression_line(&block.cond),
        Statement::If { cond_blocks, .. } => if cond_blocks.len() > 0 {
            expression_line(&cond_blocks[0].cond)
        } else {
            None
        },
        Statement::When(blocks) => if blocks.len() > 0 {
            expression_line(&blocks[0].cond)
        } else {
            None
        },
        Statement::Return { token } | Statement::Break { token } => Some(token.location.start_line),
    }
}

/// Two dotted names have the same parts.
pub open spec fn same_name(a: Name, b: Name) -> bool {
    a.name@.len() == b.name@.len() && forall|i: int| 0 <= i < a.name@.len() ==> #[trigger] a.name@[i].text@ == b.name@[i].text@
}

/// Whether two dotted names have the same parts.
pub fn names_equal(a: &Name, b: &Name) -> (r: bool)
    ensures
        r == same_name(*a, *b),
{
    if a.name.len() != b.name.len() {
        return false;
    }
    let mut i: usize = 0;
    while i < a.name.len()
        invariant
            a.name@.len() == b.name@.len(),
            i <= a.name@.len(),
            forall|k: int| 0 <= k < i ==> #[trigger] a.name@[k].text@ == b.name@[k].text@,
        decreases a.name.len() - i,
    {
        if a.name[i].text != b.name[i].text {
            return false;
        }
        i = i + 1;
    }
    true
}

/// Two declarations have the same kind of each prefix.
pub open spec fn same_prefix_kinds(a: Component, b: Component) -> bool {
    &&& (a.variability is Empty <==> b.variability is Empty)
    &&& (a.variability is Constant <==> b.variability is Constant)
    &&& (a.variability is Parameter <==> b.variability is Parameter)
    &&& (a.variability is Discrete <==> b.variability is Discrete)
    &&& (a.causality is Empty <==> b.causality is Empty)
    &&& (a.causality is Input <==> b.causality is Input)
    &&& (a.causality is Output <==> b.causality is Output)
    &&& (a.connection is Empty <==> b.connection is Empty)
    &&& (a.connection is Flow <==> b.connection is Flow)
    &&& (a.connection is Stream <==> b.connection is Stream)
}

fn variability_tag(v: &Variability) -> (r: u8)
    ensures
        r == 0 <==> v is Empty,
        r == 1 <==> v is Constant,
        r == 2 <==> v is Parameter,
        r == 3 <==> v is Discrete,
{
    match v {
        Variability::Empty => 0,
        Variability::Constant(_) => 1,
        Variability::Parameter(_) => 2,
        Variability::Discrete(_) => 3,
    }
}

fn causality_tag(c: &Causality) -> (r: u8)
    ensures
        r == 0 <==> c is Empty,
        r == 1 <==> c is Input,
        r == 2 <==> c is Output,
{
    match c {
        Causality::Empty => 0,
        Causality::Input(_) => 1,
        Causality::Output(_) => 2,
    }
}

fn connection_tag(c: &Connection) -> (r: u8)
    ensures
        r == 0 <==> c is Empty,
        r == 1 <==> c is Flow,
        r == 2 <==> c is Stream,
{
    match c {
        Connection::Empty => 0,
        Connection::Flow(_) => 1,
        Connection::Stream(_) => 2,
    }
}

/// Whether declaration `b` can join a group started by `a`: same source
/// line, type and prefixes, and nothing of its own.
pub open spec fn joins_group(a: Component, b: Component) -> bool {
    &&& b.location.start_line == a.location.start_line
    &&& same_name(b.type_path, a.type_path)
    &&& same_prefix_kinds(b, a)
    &&& !has_individual_attrs(b)
}

/// Whether declaration `b` can join a group started by `a`.
pub fn can_join_group(a: &Component, b: &Component) -> (r: bool)
    ensures
        r == joins_group(*a, *b),
{
    b.location.start_line == a.location.start_line && names_equal(&b.type_path, &a.type_path) && variability_tag(
        &b.variability,
    ) == variability_tag(&a.variability) && causality_tag(&b.causality) == causality_tag(&a.causality)
        && connection_tag(&b.connection) == connection_tag(&a.connection) && !component_has_individual_attrs(b)
}

/// The position of the first comment from `idx` on that stands on or after
/// `line` (or the end).
pub open spec fn skip_to(cms: Seq<CommentInfo>, idx: nat, line: u32) -> nat
    decreases cms.len() - idx,
{
    if idx < cms.len() && cms[idx as int].line < line {
        skip_to(cms, idx + 1, line)
    } else {
        idx
    }
}

/// The comments before source line `line` written at `level`: the output
/// and the position of the next comment.
pub open spec fn emit_before(o: FormatOptions, cms: Seq<CommentInfo>, level: nat, st: (Seq<char>, nat), line: u32) -> (Seq<char>, nat) {
    let j = skip_to(cms, st.1, line);
    (st.0 + comment_lines(o, level, cms, st.1 as int, j as int), j)
}

/// A line `s` written at `level`.
pub open spec fn put_line(o: FormatOptions, level: nat, st: (Seq<char>, nat), s: Seq<char>) -> (Seq<char>, nat) {
    (st.0 + indent_text(o, level) + s + seq!['\n'], st.1)
}

/// Comments `from..to` all stand before `line`, and the next does not.
proof fn lemma_skip_to(cms: Seq<CommentInfo>, from: nat, to: nat, line: u32)
    requires
        from <= to <= cms.len(),
        forall|k: int| from <= k < to ==> #[trigger] cms[k].line < line,
        to == cms.len() || cms[to as int].line >= line,
    ensures
        skip_to(cms, from, line) == to,
    decreases to - from,
{
    if from < to {
        lemma_skip_to(cms, from + 1, to, line);
    }
}

impl FormatVisitor {
    /// The state after a step: only the output and the comment position moved on.
    pub open spec fn frame(self, before: Self) -> bool {
        &&& self.wf()
        &&& self.options == before.options
        &&& self.indent_str == before.indent_str
        &&& self.indent_level == before.indent_level
        &&& self.comments == before.comments
        &&& before.next_comment_idx <= self.next_comment_idx
    }
}

/// Where a run of declarations joined to declaration `i` ends, looking from `j` on.
pub open spec fn join_end(cs: Seq<Component>, i: int, j: int) -> int
    decreases cs.len() - j,
{
    if 0 <= j < cs.len() && joins_group(cs[i], cs[j]) {
        join_end(cs, i, j + 1)
    } else {
        j
    }
}

/// Where the line of declaration `i` ends: after it alone when it has
/// attributes of its own, else after the neighbours joining it.
pub open spec fn group_end(cs: Seq<Component>, i: int) -> int {
    if has_individual_attrs(cs[i]) {
        i + 1
    } else {
        join_end(cs, i, i + 1)
    }
}

/// The declarations from `i` on written at `level`, each line after the
/// comments before it: a run of joined declarations as one group line
/// (`Real x, y, z;`), any other declaration on a line of its own.
pub open spec fn components_out(o: FormatOptions, cms: Seq<CommentInfo>, level: nat, st: (Seq<char>, nat), cs: Seq<Component>, i: int) -> (Seq<char>, nat)
    decreases cs.len() - i,
{
    if i < 0 || i >= cs.len() {
        st
    } else {
        let st1 = emit_before(o, cms, level, st, cs[i].location.start_line);
        let j = group_end(cs, i);
        if j <= i || j > cs.len() {
            st
        } else {
            let text = if j - i > 1 {
                group_text(cs.subrange(i, j))
            } else {
                component_text(cs[i])
            };
            components_out(o, cms, level, put_line(o, level, st1, text), cs, j)
        }
    }
}

/// Writes the declarations of a class (see `components_out`).
fn format_components(v: &mut FormatVisitor, comps: &Vec<Component>)
    requires
        old(v).wf(),
    ensures
        final(v).frame(*old(v)),
        (final(v).output@, final(v).next_comment_idx as nat) == components_out(
            old(v).options,
            old(v).comments@,
            old(v).indent_level as nat,
            (old(v).output@, old(v).next_comment_idx as nat),
            comps@,
            0,
        ),
{
    let ghost s0 = *v;
    let ghost o = s0.options;
    let ghost cms = s0.comments@;
    let ghost level = s0.indent_level as nat;
    let mut i: usize = 0;
    while i < comps.len()
        invariant
            v.frame(s0),
            i <= comps@.len(),
            o == s0.options,
            cms == s0.comments@,
            level == s0.indent_level as nat,
            components_out(o, cms, level, (s0.output@, s0.next_comment_idx as nat), comps@, 0) == components_out(
                o,
                cms,
                level,
                (v.output@, v.next_comment_idx as nat),
                comps@,
                i as int,
            ),
        decreases comps.len() - i,
    {
        let ghost st = (v.output@, v.next_comment_idx as nat);
        let ghost i_old = i;
        let line = comps[i].location.start_line;
        v.emit_comments_before_line(line);
        let ghost st1 = (v.output@, v.next_comment_idx as nat);
        let mut j = i + 1;
        if !component_has_individual_attrs(&comps[i]) {
            while j < comps.len() && can_join_group(&comps[i], &comps[j])
                invariant
                    i < j <= comps@.len(),
                    join_end(comps@, i as int, i + 1) == join_end(comps@, i as int, j as int),
                decreases comps.len() - j,
            {
                j = j + 1;
            }
        }
        assert(j as int == group_end(comps@, i as int));
        let mut text: Vec<char> = Vec::new();
        if j - i > 1 {
            write_component_group(&mut text, comps, i, j);
            v.writeln(&text);
            i = j;
        } else {
            write_component(&mut text, &comps[i]);
            v.writeln(&text);
            i = i + 1;
        }
        proof {
            assert(v.output@ =~= put_line(o, level, st1, text@).0);
            assert(v.next_comment_idx as nat == st1.1);
            assert(st1 == emit_before(o, cms, level, st, comps@[i_old as int].location.start_line));
        }
    }
}

/// The equations from `i` on written at `level`, each after the comments
/// before its line.
pub open spec fn eqs_out(o: FormatOptions, cms: Seq<CommentInfo>, level: nat, st: (Seq<char>, nat), eqs: Seq<Equation>, i: int) -> (Seq<char>, nat)
    decreases eqs.len() - i,
{
    if i < 0 || i >= eqs.len() {
        st
    } else {
        let st1 = match eq_line(eqs[i]) {
            Some(l) => emit_before(o, cms, level, st, l),
            None => st,
        };
        eqs_out(o, cms, level, (st1.0 + equation_text(o, eqs[i], level), st1.1), eqs, i + 1)
    }
}

/// An equation section at `level`: nothing when empty; else the comments
/// before the line above its first equation, the keyword one level out,
/// then its equations.
pub open spec fn eq_section_out(o: FormatOptions, cms: Seq<CommentInfo>, level: nat, st: (Seq<char>, nat), eqs: Seq<Equation>, kw: Seq<char>) -> (Seq<char>, nat) {
    if eqs.len() == 0 {
        st
    } else {
        let st1 = match eq_line(eqs[0]) {
            Some(l) => emit_before(o, cms, level, st, if l > 0 { (l - 1) as u32 } else { 0 }),
            None => st,
        };
        eqs_out(o, cms, level, put_line(o, (level - 1) as nat, st1, kw), eqs, 0)
    }
}

/// The statements from `i` on written at `level`, each after the comments
/// before its line.
pub open spec fn stmts_out(o: FormatOptions, cms: Seq<CommentInfo>, level: nat, st: (Seq<char>, nat), sts: Seq<Statement>, i: int) -> (Seq<char>, nat)
    decreases sts.len() - i,
{
    if i < 0 || i >= sts.len() {
        st
    } else {
        let st1 = match st_line(sts[i]) {
            Some(l) => emit_before(o, cms, level, st, l),
            None => st,
        };
        stmts_out(o, cms, level, (st1.0 + statement_text(o, sts[i], level), st1.1), sts, i + 1)
    }
}

/// Algorithm sections from `a` on at `level`: each its keyword one level
/// out, then its statements.
pub open spec fn algs_out(o: FormatOptions, cms: Seq<CommentInfo>, level: nat, st: (Seq<char>, nat), algos: Seq<Vec<Statement>>, kw: Seq<char>, a: int) -> (Seq<char>, nat)
    decreases algos.len() - a,
{
    if a < 0 || a >= algos.len() {
        st
    } else {
        algs_out(o, cms, level, stmts_out(o, cms, level, put_line(o, (level - 1) as nat, st, kw), algos[a]@, 0), algos, kw, a + 1)
    }
}

/// Writes an equation section (see `eq_section_out`).
fn format_equation_section(v: &mut FormatVisitor, eqs: &Vec<Equation>, keyword: &[char])
    requires
        old(v).wf(),
        old(v).indent_level >= 1,
        old(v).indent_level + eqs_depth(eqs@) < usize::MAX,
    ensures
        final(v).frame(*old(v)),
        (final(v).output@, final(v).next_comment_idx as nat) == eq_section_out(
            old(v).options,
            old(v).comments@,
            old(v).indent_level as nat,
            (old(v).output@, old(v).next_comment_idx as nat),
            eqs@,
            keyword@,
        ),
{
    let ghost s0 = *v;
    let ghost o = s0.options;
    let ghost cms = s0.comments@;
    let ghost level = s0.indent_level as nat;
    if eqs.len() == 0 {
        return;
    }
    match get_equation_location(&eqs[0]) {
        Some(l) => {
            let before = if l > 0 { l - 1 } else { 0 };
            v.emit_comments_before_line(before);
        },
        None => {},
    }
    let ghost st1 = (v.output@, v.next_comment_idx as nat);
    v.indent_level = v.indent_level - 1;
    v.writeln(keyword);
    v.indent_level = v.indent_level + 1;
    proof {
        assert(v.output@ =~= put_line(o, (level - 1) as nat, st1, keyword@).0);
    }
    let ghost st2 = (v.output@, v.next_comment_idx as nat);
    let mut i: usize = 0;
    while i < eqs.len()
        invariant
            v.frame(s0),
            i <= eqs@.len(),
            s0.indent_level + eqs_depth(eqs@) < usize::MAX,
            o == s0.options,
            cms == s0.comments@,
            level == s0.indent_level as nat,
            eqs_out(o, cms, level, st2, eqs@, 0) == eqs_out(o, cms, level, (v.output@, v.next_comment_idx as nat), eqs@, i as int),
        decreases eqs.len() - i,
    {
        let ghost st = (v.output@, v.next_comment_idx as nat);
        let ghost i0 = i as int;
        match get_equation_location(&eqs[i]) {
            Some(l) => v.emit_comments_before_line(l),
            None => {},
        }
        let ghost st1 = (v.output@, v.next_comment_idx as nat);
        proof {
            lemma_eqs_depth(eqs@, i as int);
        }
        let mut text: Vec<char> = Vec::new();
        write_equation(&mut text, &v.options, &v.indent_str, &eqs[i], v.indent_level);
        append_chars(&mut v.output, &text);
        proof {
            assert(text@ =~= equation_text(o, eqs@[i0], level));
            assert(v.output@ =~= st1.0 + equation_text(o, eqs@[i0], level));
        }
        i = i + 1;
    }
}

/// Writes algorithm sections (see `algs_out`).
fn format_algorithm_sections(v: &mut FormatVisitor, algos: &Vec<Vec<Statement>>, keyword: &[char])
    requires
        old(v).wf(),
        old(v).indent_level >= 1,
        old(v).indent_level + algs_depth(algos@) < usize::MAX,
    ensures
        final(v).frame(*old(v)),
        (final(v).output@, final(v).next_comment_idx as nat) == algs_out(
            old(v).options,
            old(v).comments@,
            old(v).indent_level as nat,
            (old(v).output@, old(v).next_comment_idx as nat),
            algos@,
            keyword@,
            0,
        ),
{
    let ghost s0 = *v;
    let ghost o = s0.options;
    let ghost cms = s0.comments@;
    let ghost level = s0.indent_level as nat;
    let mut a: usize = 0;
    while a < algos.len()
        invariant
            v.frame(s0),
            a <= algos@.len(),
            s0.indent_level >= 1,
            s0.indent_level + algs_depth(algos@) < usize::MAX,
            o == s0.options,
            cms == s0.comments@,
            level == s0.indent_level as nat,
            algs_out(o, cms, level, (s0.output@, s0.next_comment_idx as nat), algos@, keyword@, 0) == algs_out(
                o,
                cms,
                level,
                (v.output@, v.next_comment_idx as nat),
                algos@,
                keyword@,
                a as int,
            ),
        decreases algos.len() - a,
    {
        let ghost st = (v.output@, v.next_comment_idx as nat);
        v.indent_level = v.indent_level - 1;
        v.writeln(keyword);
        v.indent_level = v.indent_level + 1;
        proof {
            assert(v.output@ =~= put_line(o, (level - 1) as nat, st, keyword@).0);
            lemma_algs_depth(algos@, a as int);
        }
        let ghost st2 = (v.output@, v.next_comment_idx as nat);
        let stmts = &algos[a];
        let mut i: usize = 0;
        while i < stmts.len()
            invariant
                v.frame(s0),
                i <= stmts@.len(),
                s0.indent_level + sts_depth(stmts@) < usize::MAX,
                o == s0.options,
                cms == s0.comments@,
                level == s0.indent_level as nat,
                stmts_out(o, cms, level, st2, stmts@, 0) == stmts_out(o, cms, level, (v.output@, v.next_comment_idx as nat), stmts@, i as int),
            decreases stmts.len() - i,
        {
            let ghost i0 = i as int;
            match get_statement_location(&stmts[i]) {
                Some(l) => v.emit_comments_before_line(l),
                None => {},
            }
            let ghost st1 = (v.output@, v.next_comment_idx as nat);
            proof {
                lemma_sts_depth(stmts@, i as int);
            }
            let mut text: Vec<char> = Vec::new();
            write_statement(&mut text, &v.options, &v.indent_str, &stmts[i], v.indent_level);
            append_chars(&mut v.output, &text);
            proof {
                assert(text@ =~= statement_text(o, stmts@[i0], level));
                assert(v.output@ =~= st1.0 + statement_text(o, stmts@[i0], level));
            }
            i = i + 1;
        }
        a = a + 1;
    }
}

/// Names joined by `, `.
pub open spec fn token_list_text(ts: Seq<crate::ast::Token>) -> Seq<char>
    decreases ts.len(),
{
    if ts.len() == 0 {
        seq![]
    } else if ts.len() == 1 {
        ts[0].text@
    } else {
        token_list_text(ts.drop_last()) + seq![',', ' '] + ts.last().text@
    }
}

/// The text of an import clause.
pub open spec fn import_text(i: Import) -> Seq<char> {
    "import "@ + match i {
        Import::Qualified { path, .. } => name_text(path),
        Import::Renamed { alias, path, .. } => alias.text@ + " = "@ + name_text(path),
        Import::Unqualified { path, .. } => name_text(path) + ".*"@,
        Import::Selective { path, names, .. } => name_text(path) + ".{"@ + token_list_text(names@) + seq!['}'],
    } + seq![';']
}

/// The source line of an import clause.
pub open spec fn import_line_spec(i: Import) -> u32 {
    match i {
        Import::Qualified { location, .. } => location.start_line,
        Import::Renamed { location, .. } => location.start_line,
        Import::Unqualified { location, .. } => location.start_line,
        Import::Selective { location, .. } => location.start_line,
    }
}

/// Writes an import clause.
pub fn write_import(out: &mut Vec<char>, import: &Import)
    ensures
        final(out)@ == old(out)@ + import_text(*import),
{
    proof {
        reveal_strlit("import ");
        reveal_strlit(" = ");
        reveal_strlit(".*");
        reveal_strlit(".{");
        reveal_strlit(", ");
    }
    let ghost start = out@;
    append_str(out, "import ");
    let ghost mid = out@;
    match import {
        Import::Qualified { path, .. } => {
            write_name(out, path);
        },
        Import::Renamed { alias, path, .. } => {
            append_str(out, alias.text.as_str());
            append_str(out, " = ");
            write_name(out, path);
        },
        Import::Unqualified { path, .. } => {
            write_name(out, path);
            append_str(out, ".*");
        },
        Import::Selective { path, names, .. } => {
            write_name(out, path);
            append_str(out, ".{");
            let ghost m2 = out@;
            let mut i: usize = 0;
            while i < names.len()
                invariant
                    i <= names@.len(),
                    out@ == m2 + token_list_text(names@.take(i as int)),
                decreases names.len() - i,
            {
                if i > 0 {
                    append_str(out, ", ");
                }
                append_str(out, names[i].text.as_str());
                proof {
                    reveal_strlit(", ");
                    let t = names@.take(i as int + 1);
                    assert(t.drop_last() =~= names@.take(i as int));
                    assert(t.last() == names@[i as int]);
                    assert(out@ =~= m2 + token_list_text(t));
                }
                i = i + 1;
            }
            proof {
                assert(names@.take(names@.len() as int) =~= names@);
            }
            out.push('}');
        },
    }
    out.push(';');
    assert(out@ =~= start + import_text(*import));
}

/// The source line of an import clause.
fn import_line(import: &Import) -> (r: u32)
    ensures
        r == import_line_spec(*import),
{
    match import {
        Import::Qualified { location, .. } => location.start_line,
        Import::Renamed { location, .. } => location.start_line,
        Import::Unqualified { location, .. } => location.start_line,
        Import::Selective { location, .. } => location.start_line,
    }
}

/// `extends` clauses from `k` on, each after the comments before it.
pub open spec fn extends_out(o: FormatOptions, cms: Seq<CommentInfo>, level: nat, st: (Seq<char>, nat), es: Seq<crate::ast::Extend>, k: int) -> (Seq<char>, nat)
    decreases es.len() - k,
{
    if k < 0 || k >= es.len() {
        st
    } else {
        let st1 = emit_before(o, cms, level, st, es[k].location.start_line);
        extends_out(o, cms, level, put_line(o, level, st1, "extends "@ + name_text(es[k].comp) + seq![';']), es, k + 1)
    }
}

/// Import clauses from `k` on, each after the comments before it.
pub open spec fn imports_out(o: FormatOptions, cms: Seq<CommentInfo>, level: nat, st: (Seq<char>, nat), is: Seq<Import>, k: int) -> (Seq<char>, nat)
    decreases is.len() - k,
{
    if k < 0 || k >= is.len() {
        st
    } else {
        let st1 = emit_before(o, cms, level, st, import_line_spec(is[k]));
        imports_out(o, cms, level, put_line(o, level, st1, import_text(is[k])), is, k + 1)
    }
}

/// The first line of a class: `[encapsulated ]kind Name`.
pub open spec fn class_header(c: ClassDefinition) -> Seq<char> {
    (if c.encapsulated {
        "encapsulated "@
    } else {
        seq![]
    }) + crate::ast::class_keyword_spec(c.class_type) + seq![' '] + c.name.text@
}

/// A class at `level`: the comments before its name, its header, then one
/// level in its `extends` and import clauses, declarations, nested classes
/// (each but the last followed by the blank lines), equation sections and
/// algorithm sections, and its `end Name;`; then, when `trailing`, the
/// configured number of blank lines.
pub open spec fn class_out(o: FormatOptions, cms: Seq<CommentInfo>, level: nat, st: (Seq<char>, nat), c: ClassDefinition, trailing: bool) -> (Seq<char>, nat)
    decreases c, 0nat,
{
    let inner = level + 1;
    let st1 = put_line(o, level, emit_before(o, cms, level, st, c.name.location.start_line), class_header(c));
    let st2 = extends_out(o, cms, inner, st1, c.extends@, 0);
    let st3 = imports_out(o, cms, inner, st2, c.imports@, 0);
    let st4 = components_out(o, cms, inner, st3, c.components@, 0);
    let st5 = classes_out(o, cms, inner, st4, c.classes@, 0);
    let st6 = eq_section_out(o, cms, inner, st5, c.equations@, "equation"@);
    let st7 = eq_section_out(o, cms, inner, st6, c.initial_equations@, "initial equation"@);
    let st8 = algs_out(o, cms, inner, st7, c.algorithms@, "algorithm"@, 0);
    let st9 = algs_out(o, cms, inner, st8, c.initial_algorithms@, "initial algorithm"@, 0);
    let st10 = put_line(o, level, st9, "end "@ + c.name.text@ + seq![';']);
    if trailing {
        (st10.0 + repeat(seq!['\n'], o.blank_lines_between_classes as nat), st10.1)
    } else {
        st10
    }
}

/// Classes from `k` on at `level`, each but the last followed by the blank lines.
pub open spec fn classes_out(o: FormatOptions, cms: Seq<CommentInfo>, level: nat, st: (Seq<char>, nat), cs: Seq<ClassDefinition>, k: int) -> (Seq<char>, nat)
    decreases cs, cs.len() - k,
{
    if k < 0 || k >= cs.len() {
        st
    } else {
        classes_out(o, cms, level, class_out(o, cms, level, st, cs[k], k + 1 != cs.len()), cs, k + 1)
    }
}

/// Writes a class definition (see `class_out`).
#[verifier::rlimit(50)]
pub fn format_class_with_comments(v: &mut FormatVisitor, class: &ClassDefinition, add_trailing_blanks: bool)
    requires
        old(v).wf(),
        old(v).indent_level + class_depth(*class) < usize::MAX,
    ensures
        final(v).frame(*old(v)),
        (final(v).output@, final(v).next_comment_idx as nat) == class_out(
            old(v).options,
            old(v).comments@,
            old(v).indent_level as nat,
            (old(v).output@, old(v).next_comment_idx as nat),
            *class,
            add_trailing_blanks,
        ),
    decreases class,
{
    proof {
        reveal_strlit("encapsulated ");
        reveal_strlit("extends ");
        reveal_strlit("end ");
        reveal_strlit("equation");
        reveal_strlit("initial equation");
        reveal_strlit("algorithm");
        reveal_strlit("initial algorithm");
    }
    let ghost s0 = *v;
    let ghost o = s0.options;
    let ghost cms = s0.comments@;
    let ghost level = s0.indent_level as nat;
    let ghost inner = level + 1;
    v.emit_comments_before_line(class.name.location.start_line);
    let ghost st0 = (v.output@, v.next_comment_idx as nat);
    let mut header: Vec<char> = Vec::new();
    if class.encapsulated {
        append_str(&mut header, "encapsulated ");
    }
    append_str(&mut header, crate::ast::class_keyword(class.class_type));
    header.push(' ');
    append_str(&mut header, class.name.text.as_str());
    assert(header@ =~= class_header(*class));
    v.writeln(&header);
    assert(v.output@ =~= put_line(o, level, st0, class_header(*class)).0);
    let ghost st1 = (v.output@, v.next_comment_idx as nat);
    v.indent_level = v.indent_level + 1;
    let ghost s1 = *v;
    let mut k: usize = 0;
    while k < class.extends.len()
        invariant
            v.frame(s1),
            o == s0.options,
            cms == s0.comments@,
            s1.options == o,
            s1.comments@ == cms,
            inner == s1.indent_level as nat,
            extends_out(o, cms, inner, st1, class.extends@, 0) == extends_out(o, cms, inner, (v.output@, v.next_comment_idx as nat), class.extends@, k as int),
        decreases class.extends.len() - k,
    {
        let ghost k0 = k as int;
        v.emit_comments_before_line(class.extends[k].location.start_line);
        let ghost st = (v.output@, v.next_comment_idx as nat);
        let mut line: Vec<char> = Vec::new();
        append_str(&mut line, "extends ");
        write_name(&mut line, &class.extends[k].comp);
        line.push(';');
        proof {
            reveal_strlit("extends ");
            assert(line@ =~= "extends "@ + name_text(class.extends@[k0].comp) + seq![';']);
        }
        v.writeln(&line);
        assert(v.output@ =~= put_line(o, inner, st, line@).0);
        k = k + 1;
    }
    let ghost st2 = (v.output@, v.next_comment_idx as nat);
    k = 0;
    while k < class.imports.len()
        invariant
            v.frame(s1),
            o == s0.options,
            cms == s0.comments@,
            s1.options == o,
            s1.comments@ == cms,
            inner == s1.indent_level as nat,
            imports_out(o, cms, inner, st2, class.imports@, 0) == imports_out(o, cms, inner, (v.output@, v.next_comment_idx as nat), class.imports@, k as int),
        decreases class.imports.len() - k,
    {
        let ghost k0 = k as int;
        v.emit_comments_before_line(import_line(&class.imports[k]));
        let ghost st = (v.output@, v.next_comment_idx as nat);
        let mut line: Vec<char> = Vec::new();
        write_import(&mut line, &class.imports[k]);
        v.writeln(&line);
        assert(v.output@ =~= put_line(o, inner, st, import_text(class.imports@[k0])).0);
        k = k + 1;
    }
    let ghost st3 = (v.output@, v.next_comment_idx as nat);
    format_components(v, &class.components);
    let ghost st4 = (v.output@, v.next_comment_idx as nat);
    k = 0;
    while k < class.classes.len()
        invariant
            v.frame(s1),
            o == s0.options,
            cms == s0.comments@,
            s1.options == o,
            s1.comments@ == cms,
            inner == s1.indent_level as nat,
            s1.indent_level == s0.indent_level + 1,
            s0.indent_level + class_depth(*class) < usize::MAX,
            classes_out(o, cms, inner, st4, class.classes@, 0) == classes_out(o, cms, inner, (v.output@, v.next_comment_idx as nat), class.classes@, k as int),
        decreases class.classes.len() - k,
    {
        proof {
            lemma_classes_depth(class.classes@, k as int);
            assert(decreases_to!(class => class.classes@[k as int]));
        }
        let last = k + 1 == class.classes.len();
        format_class_with_comments(v, &class.classes[k], !last);
        k = k + 1;
    }
    let ghost st5 = (v.output@, v.next_comment_idx as nat);
    format_equation_section(v, &class.equations, &['e', 'q', 'u', 'a', 't', 'i', 'o', 'n']);
    format_equation_section(
        v,
        &class.initial_equations,
        &['i', 'n', 'i', 't', 'i', 'a', 'l', ' ', 'e', 'q', 'u', 'a', 't', 'i', 'o', 'n'],
    );
    format_algorithm_sections(v, &class.algorithms, &['a', 'l', 'g', 'o', 'r', 'i', 't', 'h', 'm']);
    format_algorithm_sections(
        v,
        &class.initial_algorithms,
        &['i', 'n', 'i', 't', 'i', 'a', 'l', ' ', 'a', 'l', 'g', 'o', 'r', 'i', 't', 'h', 'm'],
    );
    proof {
        assert(seq!['e', 'q', 'u', 'a', 't', 'i', 'o', 'n'] =~= "equation"@);
        assert(seq!['i', 'n', 'i', 't', 'i', 'a', 'l', ' ', 'e', 'q', 'u', 'a', 't', 'i', 'o', 'n'] =~= "initial equation"@);
        assert(seq!['a', 'l', 'g', 'o', 'r', 'i', 't', 'h', 'm'] =~= "algorithm"@);
        assert(seq!['i', 'n', 'i', 't', 'i', 'a', 'l', ' ', 'a', 'l', 'g', 'o', 'r', 'i', 't', 'h', 'm'] =~= "initial algorithm"@);
    }
    let ghost st9 = (v.output@, v.next_comment_idx as nat);
    v.indent_level = v.indent_level - 1;
    let mut footer: Vec<char> = Vec::new();
    append_str(&mut footer, "end ");
    append_str(&mut footer, class.name.text.as_str());
    footer.push(';');
    assert(footer@ =~= "end "@ + class.name.text@ + seq![';']);
    v.writeln(&footer);
    assert(v.output@ =~= put_line(o, level, st9, footer@).0);
    let ghost st10 = (v.output@, v.next_comment_idx as nat);
    if add_trailing_blanks {
        let mut b: usize = 0;
        while b < v.options.blank_lines_between_classes
            invariant
                v.frame(s0),
                o == s0.options,
                b <= o.blank_lines_between_classes,
                v.output@ == st10.0 + repeat(seq!['\n'], b as nat),
                v.next_comment_idx as nat == st10.1,
            decreases v.options.blank_lines_between_classes - b,
        {
            v.output.push('\n');
            proof {
                assert(repeat(seq!['\n'], (b + 1) as nat) == repeat(seq!['\n'], b as nat) + seq!['\n']);
                assert(v.output@ =~= st10.0 + repeat(seq!['\n'], (b + 1) as nat));
            }
            b = b + 1;
        }
    }
}

/// The text of a parsed file with its comments put back: a `within`
/// clause and a blank line if it has one, its classes at the outermost level
/// (each but the last followed by the blank lines), and the comments that
/// stood after everything.
pub open spec fn ast_text(o: FormatOptions, cms: Seq<CommentInfo>, def: StoredDefinition) -> Seq<char> {
    let st0 = (Seq::<char>::empty(), 0nat);
    let st1 = match def.within {
        Some(w) => {
            let p = put_line(o, 0, st0, "within "@ + name_text(w) + seq![';']);
            (p.0 + seq!['\n'], p.1)
        },
        None => st0,
    };
    let st2 = classes_out(o, cms, 0, st1, def.class_list@, 0);
    st2.0 + comment_lines(o, 0, cms, st2.1 as int, cms.len() as int)
}

/// `c` placed into `s` after every comment at the end of `s` that stands on
/// a line no later than its own: a stable insertion by line.
pub open spec fn insert_by_line(s: Seq<CommentInfo>, c: CommentInfo) -> Seq<CommentInfo>
    decreases s.len(),
{
    if s.len() == 0 {
        seq![c]
    } else if s.last().line <= c.line {
        s.push(c)
    } else {
        insert_by_line(s.drop_last(), c).push(s.last())
    }
}

/// Comments stably sorted by line: ordered by line, those on one line in
/// the order given.
pub open spec fn sorted_by_line(s: Seq<CommentInfo>) -> Seq<CommentInfo>
    decreases s.len(),
{
    if s.len() == 0 {
        seq![]
    } else {
        insert_by_line(sorted_by_line(s.drop_last()), s.last())
    }
}

/// Comments ordered by line.
pub open spec fn lines_nondecreasing(s: Seq<CommentInfo>) -> bool {
    forall|i: int, j: int| 0 <= i <= j < s.len() ==> s[i].line <= s[j].line
}

proof fn lemma_insert_at(s: Seq<CommentInfo>, c: CommentInfo, p: int)
    requires
        0 <= p <= s.len(),
        forall|k: int| p <= k < s.len() ==> s[k].line > c.line,
        p == 0 || s[p - 1].line <= c.line,
    ensures
        insert_by_line(s, c) == s.take(p) + seq![c] + s.skip(p),
    decreases s.len(),
{
    if s.len() == 0 {
        assert(s.take(p) + seq![c] + s.skip(p) =~= seq![c]);
    } else if p == s.len() {
        assert(s.take(p) + seq![c] + s.skip(p) =~= s.push(c));
    } else {
        lemma_insert_at(s.drop_last(), c, p);
        assert(s.take(p) + seq![c] + s.skip(p) =~= (s.drop_last().take(p) + seq![c] + s.drop_last().skip(p)).push(s.last()));
    }
}

proof fn lemma_insert_sorted(s: Seq<CommentInfo>, c: CommentInfo)
    requires
        lines_nondecreasing(s),
    ensures
        lines_nondecreasing(insert_by_line(s, c)),
        insert_by_line(s, c).to_multiset() == s.to_multiset().insert(c),
    decreases s.len(),
{
    broadcast use vstd::seq_lib::group_to_multiset_ensures;
    if s.len() == 0 {
        assert(seq![c] =~= Seq::<CommentInfo>::empty().push(c));
    } else if s.last().line <= c.line {
    } else {
        let t = s.drop_last();
        assert(lines_nondecreasing(t));
        lemma_insert_sorted(t, c);
        let u = insert_by_line(t, c);
        assert forall|i: int, j: int| 0 <= i <= j < u.len() + 1 implies u.push(s.last())[i].line <= u.push(s.last())[j].line by {
            if j == u.len() && i < u.len() {
                let x = u[i];
                assert(u.to_multiset().count(x) > 0);
                assert(t.to_multiset().insert(c).count(x) > 0);
                if x != c {
                    assert(t.to_multiset().count(x) > 0);
                    assert(t.contains(x));
                    let k = choose|k: int| 0 <= k < t.len() && t[k] == x;
                    assert(s[k] == x);
                }
            }
        }
        assert(s =~= t.push(s.last()));
    }
}

/// Lemma: sorting by line gives comments ordered by line, and the same
/// comments as given.
pub proof fn lemma_sorted_by_line(s: Seq<CommentInfo>)
    ensures
        lines_nondecreasing(sorted_by_line(s)),
        sorted_by_line(s).to_multiset() == s.to_multiset(),
    decreases s.len(),
{
    broadcast use vstd::seq_lib::group_to_multiset_ensures;
    if s.len() > 0 {
        lemma_sorted_by_line(s.drop_last());
        lemma_insert_sorted(sorted_by_line(s.drop_last()), s.last());
        assert(s =~= s.drop_last().push(s.last()));
    }
}

/// Comments stably sorted by line (see `sorted_by_line`).
fn sort_comments_by_line(comments: Vec<CommentInfo>) -> (r: Vec<CommentInfo>)
    ensures
        r@ == sorted_by_line(comments@),
{
    let mut out: Vec<CommentInfo> = Vec::new();
    let mut rest = comments;
    let ghost all = rest@;
    let mut taken: usize = 0;
    let n = rest.len();
    proof {
        assert(all.take(0) =~= Seq::<CommentInfo>::empty());
        assert(all.skip(0) =~= all);
    }
    while taken < n
        invariant
            n == all.len(),
            taken <= n,
            rest@ == all.skip(taken as int),
            out@ == sorted_by_line(all.take(taken as int)),
        decreases n - taken,
    {
        let c = rest.remove(0);
        assert(c == all[taken as int]);
        assert(rest@ =~= all.skip(taken as int + 1));
        let mut p = out.len();
        while p > 0 && out[p - 1].line > c.line
            invariant
                p <= out@.len(),
                forall|k: int| p <= k < out@.len() ==> out@[k].line > c.line,
            decreases p,
        {
            p = p - 1;
        }
        proof {
            lemma_insert_at(out@, c, p as int);
            let t = all.take(taken as int + 1);
            assert(t.drop_last() =~= all.take(taken as int));
        }
        out.insert(p, c);
        proof {
            assert(out@ =~= sorted_by_line(all.take(taken as int + 1)));
        }
        taken = taken + 1;
    }
    assert(all.take(n as int) =~= all);
    out
}

/// Formats a parsed file, putting the comments back where they stood (see
/// `ast_text`); the comments are first sorted by line (see `sorted_by_line`).
pub fn format_ast_with_comments(def: &StoredDefinition, comments: Vec<CommentInfo>, options: &FormatOptions) -> (r: String)
    requires
        classes_depth(def.class_list@) < usize::MAX,
    ensures
        r@ == ast_text(*options, sorted_by_line(comments@), *def),
{
    proof {
        reveal_strlit("within ");
    }
    let comments = sort_comments_by_line(comments);
    let ghost cms = comments@;
    let mut v = FormatVisitor::with_comments(options, comments);
    match &def.within {
        Some(w) => {
            let mut line: Vec<char> = Vec::new();
            append_str(&mut line, "within ");
            write_name(&mut line, w);
            line.push(';');
            assert(line@ =~= "within "@ + name_text(*w) + seq![';']);
            v.writeln(&line);
            v.output.push('\n');
        },
        None => {},
    }
    let ghost st1 = (v.output@, v.next_comment_idx as nat);
    let ghost s1 = v;
    assert(st1 == match def.within {
        Some(w) => {
            let p = put_line(*options, 0, (Seq::<char>::empty(), 0nat), "within "@ + name_text(w) + seq![';']);
            (p.0 + seq!['\n'], p.1)
        },
        None => (Seq::<char>::empty(), 0nat),
    });
    let mut i: usize = 0;
    while i < def.class_list.len()
        invariant
            v.wf(),
            v.indent_level == 0,
            v.options == *options,
            v.comments@ == cms,
            classes_depth(def.class_list@) < usize::MAX,
            classes_out(*options, cms, 0, st1, def.class_list@, 0) == classes_out(*options, cms, 0, (v.output@, v.next_comment_idx as nat), def.class_list@, i as int),
        decreases def.class_list.len() - i,
    {
        proof {
            lemma_classes_depth(def.class_list@, i as int);
        }
        let is_last = i + 1 == def.class_list.len();
        format_class_with_comments(&mut v, &def.class_list[i], !is_last);
        i = i + 1;
    }
    v.emit_remaining_comments();
    chars_to_string(&v.output)
}


/// `1 + max(a, b)`, or `None` when it does not fit in a `usize`.
fn one_plus_max(a: usize, b: usize) -> (r: Option<usize>)
    ensures
        r matches Some(x) ==> x == 1 + if a > b { a } else { b },
        r is None ==> 1 + (if a > b { a } else { b }) > usize::MAX,
{
    let m = if a > b { a } else { b };
    m.checked_add(1)
}

/// The nesting depth of an equation, when it fits in a `usize`.
pub fn equation_depth(eq: &Equation) -> (r: Option<usize>)
    ensures
        r matches Some(d) ==> d == eq_depth(*eq),
        r is None ==> eq_depth(*eq) > usize::MAX,
    decreases eq, 2nat,
{
    match eq {
        Equation::For { equations, .. } => match equations_depth(equations) {
            Some(d) => one_plus_max(d, 0),
            None => None,
        },
        Equation::When(blocks) => match eq_blocks_depth_exec(blocks) {
            Some(d) => one_plus_max(d, 0),
            None => None,
        },
        Equation::If { cond_blocks, else_block } => match eq_blocks_depth_exec(cond_blocks) {
            Some(d) => match else_block {
                Some(eqs) => match equations_depth(eqs) {
                    Some(e) => one_plus_max(e, d),
                    None => None,
                },
                None => one_plus_max(d, 0),
            },
            None => None,
        },
        _ => Some(0),
    }
}

/// The deepest nesting among equations, when it fits in a `usize`.
pub fn equations_depth(eqs: &Vec<Equation>) -> (r: Option<usize>)
    ensures
        r matches Some(d) ==> d == eqs_depth(eqs@),
        r is None ==> eqs_depth(eqs@) > usize::MAX,
    decreases eqs, 1nat,
{
    let mut m: usize = 0;
    let mut i: usize = 0;
    while i < eqs.len()
        invariant
            i <= eqs@.len(),
            m == eqs_depth(eqs@.take(i as int)),
        decreases eqs.len() - i,
    {
        proof {
            assert(decreases_to!(eqs => eqs@[i as int]));
            let t = eqs@.take(i as int + 1);
            assert(t.drop_last() =~= eqs@.take(i as int));
            assert(t.last() == eqs@[i as int]);
        }
        match equation_depth(&eqs[i]) {
            Some(d) => {
                if d > m {
                    m = d;
                }
            },
            None => {
                proof {
                    lemma_eqs_depth(eqs@, i as int);
                }
                return None;
            },
        }
        i = i + 1;
    }
    proof {
        assert(eqs@.take(eqs@.len() as int) =~= eqs@);
    }
    Some(m)
}

/// The deepest nesting among guarded equation blocks, when it fits in a `usize`.
fn eq_blocks_depth_exec(bs: &Vec<EquationBlock>) -> (r: Option<usize>)
    ensures
        r matches Some(d) ==> d == eq_blocks_depth(bs@),
        r is None ==> eq_blocks_depth(bs@) > usize::MAX,
    decreases bs, 1nat,
{
    let mut m: usize = 0;
    let mut i: usize = 0;
    while i < bs.len()
        invariant
            i <= bs@.len(),
            m == eq_blocks_depth(bs@.take(i as int)),
        decreases bs.len() - i,
    {
        proof {
            assert(decreases_to!(bs => bs@[i as int]));
            let t = bs@.take(i as int + 1);
            assert(t.drop_last() =~= bs@.take(i as int));
            assert(t.last() == bs@[i as int]);
        }
        match equations_depth(&bs[i].eqs) {
            Some(d) => {
                if d > m {
                    m = d;
                }
            },
            None => {
                proof {
                    lemma_eq_blocks_depth(bs@, i as int);
                }
                return None;
            },
        }
        i = i + 1;
    }
    proof {
        assert(bs@.take(bs@.len() as int) =~= bs@);
    }
    Some(m)
}

/// The nesting depth of a statement, when it fits in a `usize`.
pub fn statement_depth(st: &Statement) -> (r: Option<usize>)
    ensures
        r matches Some(d) ==> d == st_depth(*st),
        r is None ==> st_depth(*st) > usize::MAX,
    decreases st, 2nat,
{
    match st {
        Statement::For { equations, .. } => match statements_depth(equations) {
            Some(d) => one_plus_max(d, 0),
            None => None,
        },
        Statement::While(block) => match statements_depth(&block.stmts) {
            Some(d) => one_plus_max(d, 0),
            None => None,
        },
        Statement::When(blocks) => match st_blocks_depth_exec(blocks) {
            Some(d) => one_plus_max(d, 0),
            None => None,
        },
        Statement::If { cond_blocks, else_block } => match st_blocks_depth_exec(cond_blocks) {
            Some(d) => match else_block {
                Some(sts) => match statements_depth(sts) {
                    Some(e) => one_plus_max(e, d),
                    None => None,
                },
                None => one_plus_max(d, 0),
            },
            None => None,
        },
        _ => Some(0),
    }
}

/// The deepest nesting among statements, when it fits in a `usize`.
pub fn statements_depth(sts: &Vec<Statement>) -> (r: Option<usize>)
    ensures
        r matches Some(d) ==> d == sts_depth(sts@),
        r is None ==> sts_depth(sts@) > usize::MAX,
    decreases sts, 1nat,
{
    let mut m: usize = 0;
    let mut i: usize = 0;
    while i < sts.len()
        invariant
            i <= sts@.len(),
            m == sts_depth(sts@.take(i as int)),
        decreases sts.len() - i,
    {
        proof {
            assert(decreases_to!(sts => sts@[i as int]));
            let t = sts@.take(i as int + 1);
            assert(t.drop_last() =~= sts@.take(i as int));
            assert(t.last() == sts@[i as int]);
        }
        match statement_depth(&sts[i]) {
            Some(d) => {
                if d > m {
                    m = d;
                }
            },
            None => {
                proof {
                    lemma_sts_depth(sts@, i as int);
                }
                return None;
            },
        }
        i = i + 1;
    }
    proof {
        assert(sts@.take(sts@.len() as int) =~= sts@);
    }
    Some(m)
}

fn st_blocks_depth_exec(bs: &Vec<StatementBlock>) -> (r: Option<usize>)
    ensures
        r matches Some(d) ==> d == st_blocks_depth(bs@),
        r is None ==> st_blocks_depth(bs@) > usize::MAX,
    decreases bs, 1nat,
{
    let mut m: usize = 0;
    let mut i: usize = 0;
    while i < bs.len()
        invariant
            i <= bs@.len(),
            m == st_blocks_depth(bs@.take(i as int)),
        decreases bs.len() - i,
    {
        proof {
            assert(decreases_to!(bs => bs@[i as int]));
            let t = bs@.take(i as int + 1);
            assert(t.drop_last() =~= bs@.take(i as int));
            assert(t.last() == bs@[i as int]);
        }
        match statements_depth(&bs[i].stmts) {
            Some(d) => {
                if d > m {
                    m = d;
                }
            },
            None => {
                proof {
                    lemma_st_blocks_depth(bs@, i as int);
                }
                return None;
            },
        }
        i = i + 1;
    }
    proof {
        assert(bs@.take(bs@.len() as int) =~= bs@);
    }
    Some(m)
}

fn algorithms_depth(a: &Vec<Vec<Statement>>) -> (r: Option<usize>)
    ensures
        r matches Some(d) ==> d == algs_depth(a@),
        r is None ==> algs_depth(a@) > usize::MAX,
{
    let mut m: usize = 0;
    let mut i: usize = 0;
    while i < a.len()
        invariant
            i <= a@.len(),
            m == algs_depth(a@.take(i as int)),
        decreases a.len() - i,
    {
        proof {
            let t = a@.take(i as int + 1);
            assert(t.drop_last() =~= a@.take(i as int));
            assert(t.last() == a@[i as int]);
        }
        match statements_depth(&a[i]) {
            Some(d) => {
                if d > m {
                    m = d;
                }
            },
            None => {
                proof {
                    lemma_algs_depth(a@, i as int);
                }
                return None;
            },
        }
        i = i + 1;
    }
    proof {
        assert(a@.take(a@.len() as int) =~= a@);
    }
    Some(m)
}

/// The nesting depth of a class, when it fits in a `usize`.
pub fn class_depth_exec(c: &ClassDefinition) -> (r: Option<usize>)
    ensures
        r matches Some(d) ==> d == class_depth(*c),
        r is None ==> class_depth(*c) > usize::MAX,
    decreases c, 2nat,
{
    let a = match classes_depth_exec(&c.classes) {
        Some(x) => x,
        None => return None,
    };
    let b = match equations_depth(&c.equations) {
        Some(x) => x,
        None => return None,
    };
    let d = match equations_depth(&c.initial_equations) {
        Some(x) => x,
        None => return None,
    };
    let e = match algorithms_depth(&c.algorithms) {
        Some(x) => x,
        None => return None,
    };
    let f = match algorithms_depth(&c.initial_algorithms) {
        Some(x) => x,
        None => return None,
    };
    let m1 = if a > b { a } else { b };
    let m2 = if d > e { d } else { e };
    let m3 = if m1 > m2 { m1 } else { m2 };
    one_plus_max(m3, f)
}

/// The deepest nesting among classes, when it fits in a `usize`.
pub fn classes_depth_exec(cs: &Vec<ClassDefinition>) -> (r: Option<usize>)
    ensures
        r matches Some(d) ==> d == classes_depth(cs@),
        r is None ==> classes_depth(cs@) > usize::MAX,
    decreases cs, 1nat,
{
    let mut m: usize = 0;
    let mut i: usize = 0;
    while i < cs.len()
        invariant
            i <= cs@.len(),
            m == classes_depth(cs@.take(i as int)),
        decreases cs.len() - i,
    {
        proof {
            assert(decreases_to!(cs => cs@[i as int]));
            let t = cs@.take(i as int + 1);
            assert(t.drop_last() =~= cs@.take(i as int));
            assert(t.last() == cs@[i as int]);
        }
        match class_depth_exec(&cs[i]) {
            Some(d) => {
                if d > m {
                    m = d;
                }
            },
            None => {
                proof {
                    lemma_classes_depth(cs@, i as int);
                }
                return None;
            },
        }
        i = i + 1;
    }
    proof {
        assert(cs@.take(cs@.len() as int) =~= cs@);
    }
    Some(m)
}


/// `s` starts with `p`.
pub open spec fn starts_with(s: Seq<char>, p: Seq<char>) -> bool {
    p.len() <= s.len() && s.take(p.len() as int) == p
}

/// `s` ends with `p`.
pub open spec fn ends_with(s: Seq<char>, p: Seq<char>) -> bool {
    p.len() <= s.len() && s.skip(s.len() - p.len()) == p
}

/// `p` occurs in `s`.
pub open spec fn contains_seq(s: Seq<char>, p: Seq<char>) -> bool {
    exists|i: int| 0 <= i && i + p.len() <= s.len() && #[trigger] s.subrange(i, i + p.len()) == p
}

/// Whether `s` starts with `p`.
pub fn starts_with_chars(s: &[char], p: &[char]) -> (r: bool)
    ensures
        r == starts_with(s@, p@),
{
    if p.len() > s.len() {
        return false;
    }
    let mut i: usize = 0;
    while i < p.len()
        invariant
            p@.len() <= s@.len(),
            i <= p@.len(),
            forall|k: int| 0 <= k < i ==> s@[k] == p@[k],
        decreases p.len() - i,
    {
        if s[i] != p[i] {
            assert(s@.take(p@.len() as int)[i as int] != p@[i as int]);
            return false;
        }
        i = i + 1;
    }
    assert(s@.take(p@.len() as int) =~= p@);
    true
}

/// Whether `s` ends with `p`.
pub fn ends_with_chars(s: &[char], p: &[char]) -> (r: bool)
    ensures
        r == ends_with(s@, p@),
{
    if p.len() > s.len() {
        return false;
    }
    let n = s.len();
    let off = n - p.len();
    let mut i: usize = 0;
    while i < p.len()
        invariant
            n == s@.len(),
            p@.len() <= s@.len(),
            off == s@.len() - p@.len(),
            i <= p@.len(),
            forall|k: int| 0 <= k < i ==> s@[off + k] == p@[k],
        decreases p.len() - i,
    {
        if s[off + i] != p[i] {
            assert(s@.skip(off as int)[i as int] != p@[i as int]);
            return false;
        }
        i = i + 1;
    }
    assert(s@.skip(off as int) =~= p@);
    true
}

/// Whether `p` occurs in `s`.
pub fn contains_chars(s: &[char], p: &[char]) -> (r: bool)
    ensures
        r == contains_seq(s@, p@),
{
    if p.len() > s.len() {
        assert forall|i: int| 0 <= i && i + p@.len() <= s@.len() implies #[trigger] s@.subrange(i, i + p@.len()) != p@ by {}
        return false;
    }
    let n = s.len();
    let m = p.len();
    let mut i: usize = 0;
    while i <= n - m
        invariant
            n == s@.len(),
            m == p@.len(),
            p@.len() <= s@.len(),
            i <= s@.len() - p@.len() + 1,
            forall|k: int| 0 <= k < i && k + p@.len() <= s@.len() ==> #[trigger] s@.subrange(k, k + p@.len()) != p@,
        decreases s@.len() - i,
    {
        let mut j: usize = 0;
        let mut same = true;
        while j < m
            invariant
                n == s@.len(),
                m == p@.len(),
                i + p@.len() <= s@.len(),
                j <= p@.len(),
                same == forall|k: int| 0 <= k < j ==> s@[i + k] == p@[k],
            decreases p.len() - j,
        {
            if s[i + j] != p[j] {
                same = false;
            }
            j = j + 1;
        }
        if same {
            assert(s@.subrange(i as int, i + p@.len()) =~= p@);
            return true;
        } else {
            assert(s@.subrange(i as int, i + p@.len()) != p@) by {
                let k = choose|k: int| 0 <= k < p@.len() && s@[i + k] != p@[k];
                assert(s@.subrange(i as int, i + p@.len())[k] == s@[i + k]);
            }
        }
        i = i + 1;
    }
    false
}

/// Lines at which the indentation steps back before the line is written.
pub open spec fn decreases_indent_before(s: Seq<char>) -> bool {
    starts_with(s, seq!['e', 'n', 'd', ' ']) || starts_with(s, seq!['e', 'n', 'd', ';']) || starts_with(s, seq!['e', 'l', 's', 'e']) || starts_with(s, seq!['e', 'l', 's', 'e', 'i', 'f']) || starts_with(s, seq!['e', 'l', 's', 'e', 'w', 'h', 'e', 'n']) || starts_with(s, seq!['p', 'r', 'o', 't', 'e', 'c', 't', 'e', 'd']) || starts_with(s, seq!['p', 'u', 'b', 'l', 'i', 'c']) || starts_with(s, seq!['e', 'q', 'u', 'a', 't', 'i', 'o', 'n']) || starts_with(s, seq!['i', 'n', 'i', 't', 'i', 'a', 'l', ' ', 'e', 'q', 'u', 'a', 't', 'i', 'o', 'n']) || starts_with(s, seq!['a', 'l', 'g', 'o', 'r', 'i', 't', 'h', 'm']) || starts_with(s, seq!['i', 'n', 'i', 't', 'i', 'a', 'l', ' ', 'a', 'l', 'g', 'o', 'r', 'i', 't', 'h', 'm'])
}

/// Whether the indentation steps back before this line.
pub fn should_decrease_indent_before(s: &[char]) -> (r: bool)
    ensures
        r == decreases_indent_before(s@),
{
    starts_with_chars(s, &['e', 'n', 'd', ' ']) || starts_with_chars(s, &['e', 'n', 'd', ';']) || starts_with_chars(s, &['e', 'l', 's', 'e']) || starts_with_chars(s, &['e', 'l', 's', 'e', 'i', 'f']) || starts_with_chars(s, &['e', 'l', 's', 'e', 'w', 'h', 'e', 'n']) || starts_with_chars(s, &['p', 'r', 'o', 't', 'e', 'c', 't', 'e', 'd']) || starts_with_chars(s, &['p', 'u', 'b', 'l', 'i', 'c']) || starts_with_chars(s, &['e', 'q', 'u', 'a', 't', 'i', 'o', 'n']) || starts_with_chars(s, &['i', 'n', 'i', 't', 'i', 'a', 'l', ' ', 'e', 'q', 'u', 'a', 't', 'i', 'o', 'n']) || starts_with_chars(s, &['a', 'l', 'g', 'o', 'r', 'i', 't', 'h', 'm']) || starts_with_chars(s, &['i', 'n', 'i', 't', 'i', 'a', 'l', ' ', 'a', 'l', 'g', 'o', 'r', 'i', 't', 'h', 'm'])
}

/// Lines after which the indentation steps in: class headers, section
/// keywords, and the heads of if, for, while and when blocks.
pub open spec fn increases_indent_after(s: Seq<char>) -> bool {
    opens_class(s) || opens_partial_class(s) || opens_section(s) || opens_control(s) || continues_branch(s)
}

/// A class header that does not also close the class.
pub open spec fn opens_class(s: Seq<char>) -> bool {
    ((starts_with(s, seq!['m', 'o', 'd', 'e', 'l', ' ']) || starts_with(s, seq!['c', 'l', 'a', 's', 's', ' ']) || starts_with(s, seq!['f', 'u', 'n', 'c', 't', 'i', 'o', 'n', ' ']) || starts_with(s, seq!['r', 'e', 'c', 'o', 'r', 'd', ' ']) || starts_with(s, seq!['c', 'o', 'n', 'n', 'e', 'c', 't', 'o', 'r', ' ']) || starts_with(s, seq!['p', 'a', 'c', 'k', 'a', 'g', 'e', ' ']) || starts_with(s, seq!['b', 'l', 'o', 'c', 'k', ' ']) || starts_with(s, seq!['t', 'y', 'p', 'e', ' ']) || starts_with(s, seq!['o', 'p', 'e', 'r', 'a', 't', 'o', 'r', ' '])) && !contains_seq(s, seq!['e', 'n', 'd', ' ']) && !ends_with(s, seq![';']))
}

fn opens_class_exec(s: &[char]) -> (r: bool)
    ensures
        r == opens_class(s@),
{
    let end_sp: &[char] = &['e', 'n', 'd', ' '];
    assert(end_sp@ =~= seq!['e', 'n', 'd', ' ']);
    let semi: &[char] = &[';'];
    assert(semi@ =~= seq![';']);
    (starts_with_chars(s, &['m', 'o', 'd', 'e', 'l', ' ']) || starts_with_chars(s, &['c', 'l', 'a', 's', 's', ' ']) || starts_with_chars(s, &['f', 'u', 'n', 'c', 't', 'i', 'o', 'n', ' ']) || starts_with_chars(s, &['r', 'e', 'c', 'o', 'r', 'd', ' ']) || starts_with_chars(s, &['c', 'o', 'n', 'n', 'e', 'c', 't', 'o', 'r', ' ']) || starts_with_chars(s, &['p', 'a', 'c', 'k', 'a', 'g', 'e', ' ']) || starts_with_chars(s, &['b', 'l', 'o', 'c', 'k', ' ']) || starts_with_chars(s, &['t', 'y', 'p', 'e', ' ']) || starts_with_chars(s, &['o', 'p', 'e', 'r', 'a', 't', 'o', 'r', ' '])) && !contains_chars(s, end_sp) && !ends_with_chars(s, semi)
}

/// A partial class header that does not also close the class.
pub open spec fn opens_partial_class(s: Seq<char>) -> bool {
    (starts_with(s, seq!['p', 'a', 'r', 't', 'i', 'a', 'l', ' ']) && !contains_seq(s, seq!['e', 'n', 'd', ' ']) && !ends_with(s, seq![';']))
}

fn opens_partial_class_exec(s: &[char]) -> (r: bool)
    ensures
        r == opens_partial_class(s@),
{
    let end_sp: &[char] = &['e', 'n', 'd', ' '];
    assert(end_sp@ =~= seq!['e', 'n', 'd', ' ']);
    let semi: &[char] = &[';'];
    assert(semi@ =~= seq![';']);
    let a = starts_with_chars(s, &['p', 'a', 'r', 't', 'i', 'a', 'l', ' ']);
    let b = contains_chars(s, end_sp);
    let c = ends_with_chars(s, semi);
    assert(b == contains_seq(s@, seq!['e', 'n', 'd', ' ']));
    assert(c == ends_with(s@, seq![';']));
    a && !b && !c
}

/// A section keyword on its own or starting the line.
pub open spec fn opens_section(s: Seq<char>) -> bool {
    ((s == seq!['e', 'q', 'u', 'a', 't', 'i', 'o', 'n'] || starts_with(s, seq!['e', 'q', 'u', 'a', 't', 'i', 'o', 'n', ' '])) || (s == seq!['i', 'n', 'i', 't', 'i', 'a', 'l', ' ', 'e', 'q', 'u', 'a', 't', 'i', 'o', 'n'] || starts_with(s, seq!['i', 'n', 'i', 't', 'i', 'a', 'l', ' ', 'e', 'q', 'u', 'a', 't', 'i', 'o', 'n', ' '])) || (s == seq!['a', 'l', 'g', 'o', 'r', 'i', 't', 'h', 'm'] || starts_with(s, seq!['a', 'l', 'g', 'o', 'r', 'i', 't', 'h', 'm', ' '])) || (s == seq!['i', 'n', 'i', 't', 'i', 'a', 'l', ' ', 'a', 'l', 'g', 'o', 'r', 'i', 't', 'h', 'm'] || starts_with(s, seq!['i', 'n', 'i', 't', 'i', 'a', 'l', ' ', 'a', 'l', 'g', 'o', 'r', 'i', 't', 'h', 'm', ' '])) || (s == seq!['p', 'r', 'o', 't', 'e', 'c', 't', 'e', 'd'] || starts_with(s, seq!['p', 'r', 'o', 't', 'e', 'c', 't', 'e', 'd', ' '])) || (s == seq!['p', 'u', 'b', 'l', 'i', 'c'] || starts_with(s, seq!['p', 'u', 'b', 'l', 'i', 'c', ' '])))
}

fn opens_section_exec(s: &[char]) -> (r: bool)
    ensures
        r == opens_section(s@),
{
    ((chars_eq(s, &['e', 'q', 'u', 'a', 't', 'i', 'o', 'n']) || starts_with_chars(s, &['e', 'q', 'u', 'a', 't', 'i', 'o', 'n', ' '])) || (chars_eq(s, &['i', 'n', 'i', 't', 'i', 'a', 'l', ' ', 'e', 'q', 'u', 'a', 't', 'i', 'o', 'n']) || starts_with_chars(s, &['i', 'n', 'i', 't', 'i', 'a', 'l', ' ', 'e', 'q', 'u', 'a', 't', 'i', 'o', 'n', ' '])) || (chars_eq(s, &['a', 'l', 'g', 'o', 'r', 'i', 't', 'h', 'm']) || starts_with_chars(s, &['a', 'l', 'g', 'o', 'r', 'i', 't', 'h', 'm', ' '])) || (chars_eq(s, &['i', 'n', 'i', 't', 'i', 'a', 'l', ' ', 'a', 'l', 'g', 'o', 'r', 'i', 't', 'h', 'm']) || starts_with_chars(s, &['i', 'n', 'i', 't', 'i', 'a', 'l', ' ', 'a', 'l', 'g', 'o', 'r', 'i', 't', 'h', 'm', ' '])) || (chars_eq(s, &['p', 'r', 'o', 't', 'e', 'c', 't', 'e', 'd']) || starts_with_chars(s, &['p', 'r', 'o', 't', 'e', 'c', 't', 'e', 'd', ' '])) || (chars_eq(s, &['p', 'u', 'b', 'l', 'i', 'c']) || starts_with_chars(s, &['p', 'u', 'b', 'l', 'i', 'c', ' '])))
}

/// The head of an if, for, while or when block.
pub open spec fn opens_control(s: Seq<char>) -> bool {
    ((starts_with(s, seq!['i', 'f', ' ']) || starts_with(s, seq!['f', 'o', 'r', ' ']) || starts_with(s, seq!['w', 'h', 'i', 'l', 'e', ' ']) || starts_with(s, seq!['w', 'h', 'e', 'n', ' '])) && (ends_with(s, seq!['t', 'h', 'e', 'n']) || ends_with(s, seq!['l', 'o', 'o', 'p'])))
}

fn opens_control_exec(s: &[char]) -> (r: bool)
    ensures
        r == opens_control(s@),
{
    (starts_with_chars(s, &['i', 'f', ' ']) || starts_with_chars(s, &['f', 'o', 'r', ' ']) || starts_with_chars(s, &['w', 'h', 'i', 'l', 'e', ' ']) || starts_with_chars(s, &['w', 'h', 'e', 'n', ' '])) && (ends_with_chars(s, &['t', 'h', 'e', 'n']) || ends_with_chars(s, &['l', 'o', 'o', 'p']))
}

/// An else branch: `else`, `elseif ...` or `elsewhen ...`.
pub open spec fn continues_branch(s: Seq<char>) -> bool {
    s == seq!['e', 'l', 's', 'e'] || starts_with(s, seq!['e', 'l', 's', 'e', 'i', 'f', ' ']) || starts_with(s, seq!['e', 'l', 's', 'e', 'w', 'h', 'e', 'n', ' '])
}

fn continues_branch_exec(s: &[char]) -> (r: bool)
    ensures
        r == continues_branch(s@),
{
    chars_eq(s, &['e', 'l', 's', 'e']) || starts_with_chars(s, &['e', 'l', 's', 'e', 'i', 'f', ' ']) || starts_with_chars(s, &['e', 'l', 's', 'e', 'w', 'h', 'e', 'n', ' '])
}

/// Whether the indentation steps in after this line.
pub fn should_increase_indent_after(s: &[char]) -> (r: bool)
    ensures
        r == increases_indent_after(s@),
{
    opens_class_exec(s) || opens_partial_class_exec(s) || opens_section_exec(s) || opens_control_exec(s) || continues_branch_exec(s)
}

/// Whether two character slices are equal.
fn chars_eq(a: &[char], b: &[char]) -> (r: bool)
    ensures
        r == (a@ == b@),
{
    crate::lexer::chars_equal(a, b)
}


/// Unicode white space, as `char::is_whitespace` defines it.
pub open spec fn is_white_space(c: char) -> bool {
    ('\u{9}' <= c && c <= '\u{d}') || c == ' ' || c == '\u{85}' || c == '\u{a0}' || c == '\u{1680}' || ('\u{2000}' <= c
        && c <= '\u{200a}') || c == '\u{2028}' || c == '\u{2029}' || c == '\u{202f}' || c == '\u{205f}' || c == '\u{3000}'
}

fn is_white_space_exec(c: char) -> (r: bool)
    ensures
        r == is_white_space(c),
{
    ('\u{9}' <= c && c <= '\u{d}') || c == ' ' || c == '\u{85}' || c == '\u{a0}' || c == '\u{1680}' || ('\u{2000}' <= c
        && c <= '\u{200a}') || c == '\u{2028}' || c == '\u{2029}' || c == '\u{202f}' || c == '\u{205f}' || c == '\u{3000}'
}

/// `s` without trailing white space.
pub open spec fn trim_end_ws(s: Seq<char>) -> Seq<char>
    decreases s.len(),
{
    if s.len() > 0 && is_white_space(s.last()) {
        trim_end_ws(s.drop_last())
    } else {
        s
    }
}

/// `s` without leading white space.
pub open spec fn trim_start_ws(s: Seq<char>) -> Seq<char>
    decreases s.len(),
{
    if s.len() > 0 && is_white_space(s[0]) {
        trim_start_ws(s.drop_first())
    } else {
        s
    }
}

/// `s` without leading or trailing white space.
pub open spec fn trim_ws(s: Seq<char>) -> Seq<char> {
    trim_start_ws(trim_end_ws(s))
}

/// `s` without leading and trailing white space.
pub fn trim_chars(s: &[char]) -> (r: Vec<char>)
    ensures
        r@ == trim_ws(s@),
{
    let mut e = s.len();
    assert(s@.take(e as int) =~= s@);
    while e > 0 && is_white_space_exec(s[e - 1])
        invariant
            e <= s@.len(),
            trim_end_ws(s@.take(e as int)) == trim_end_ws(s@),
        decreases e,
    {
        proof {
            assert(s@.take(e as int).drop_last() =~= s@.take(e - 1));
        }
        e = e - 1;
    }
    let ghost t = s@.take(e as int);
    assert(trim_end_ws(t) == t);
    let mut b: usize = 0;
    assert(t.skip(0) =~= t);
    while b < e && is_white_space_exec(s[b])
        invariant
            b <= e <= s@.len(),
            t == s@.take(e as int),
            trim_start_ws(t.skip(b as int)) == trim_start_ws(t),
        decreases e - b,
    {
        proof {
            assert(t.skip(b as int).drop_first() =~= t.skip(b + 1));
        }
        b = b + 1;
    }
    proof {
        if b < e {
            assert(t.skip(b as int)[0] == s@[b as int]);
        }
        assert(trim_start_ws(t.skip(b as int)) == t.skip(b as int));
        assert(t.skip(b as int) =~= s@.subrange(b as int, e as int));
    }
    crate::lexer::slice_chars(s, b, e)
}

/// Text, indentation level and whether the last line written was blank,
/// after one more source line of the line-by-line formatter.
pub open spec fn fallback_line(o: FormatOptions, out: Seq<char>, level: nat, prev_empty: bool, line: Seq<char>) -> (Seq<char>, nat, bool) {
    let t = trim_ws(line);
    if t.len() == 0 {
        if !prev_empty {
            (out + seq!['\n'], level, true)
        } else {
            (out, level, prev_empty)
        }
    } else {
        let l1: nat = if decreases_indent_before(t) {
            if level > 0 { (level - 1) as nat } else { 0 }
        } else {
            level
        };
        (out + indent_text(o, l1) + t + seq!['\n'], if increases_indent_after(t) { l1 + 1 } else { l1 }, false)
    }
}

/// The line-by-line formatter after reading the characters `s`: text so
/// far, indentation level, whether the last line was blank, and the
/// current unfinished line.
pub open spec fn fallback_fold(o: FormatOptions, s: Seq<char>) -> (Seq<char>, nat, bool, Seq<char>)
    decreases s.len(),
{
    if s.len() == 0 {
        (seq![], 0, false, seq![])
    } else {
        let (out, level, pe, line) = fallback_fold(o, s.drop_last());
        if s.last() == '\n' {
            let (o2, l2, p2) = fallback_line(o, out, level, pe, line);
            (o2, l2, p2, seq![])
        } else {
            (out, level, pe, line.push(s.last()))
        }
    }
}

/// Line-by-line formatting: each line trimmed and re-indented by the
/// keywords that open and close blocks, runs of blank lines kept as one,
/// and no final newline unless the source ended with one.
pub open spec fn fallback_text(o: FormatOptions, s: Seq<char>) -> Seq<char> {
    let (out, level, pe, line) = fallback_fold(o, s);
    let done = if line.len() > 0 { fallback_line(o, out, level, pe, line).0 } else { out };
    if !(s.len() > 0 && s.last() == '\n') && done.len() > 0 && done.last() == '\n' {
        done.drop_last()
    } else {
        done
    }
}

/// Formats one source line of the line-by-line formatter.
fn fallback_step(o: &FormatOptions, unit: &[char], out: &mut Vec<char>, level: &mut usize, prev_empty: &mut bool, line: &[char])
    requires
        unit@ == indent_unit(*o),
        *old(level) < usize::MAX,
    ensures
        (final(out)@, *final(level) as nat, *final(prev_empty)) == fallback_line(*o, old(out)@, *old(level) as nat, *old(prev_empty), line@),
        *final(level) <= *old(level) + 1,
{
    let t = trim_chars(line);
    if t.len() == 0 {
        if !*prev_empty {
            out.push('\n');
            *prev_empty = true;
        }
        return;
    }
    *prev_empty = false;
    if should_decrease_indent_before(&t) {
        if *level > 0 {
            *level = *level - 1;
        }
    }
    let ghost l1 = *level;
    let ghost before = out@;
    write_indent(out, unit, *level);
    append_chars(out, &t);
    out.push('\n');
    assert(out@ =~= before + indent_text(*o, l1 as nat) + t@ + seq!['\n']);
    if should_increase_indent_after(&t) {
        *level = *level + 1;
    }
}

/// Formats text line by line, for text that does not parse.
pub fn format_modelica_fallback(text: &[char], options: &FormatOptions) -> (r: Vec<char>)
    requires
        text@.len() < usize::MAX,
    ensures
        r@ == fallback_text(*options, text@),
{
    let unit = make_indent_unit(options);
    let mut out: Vec<char> = Vec::new();
    let mut level: usize = 0;
    let mut prev_empty = false;
    let mut line: Vec<char> = Vec::new();
    let mut i: usize = 0;
    while i < text.len()
        invariant
            unit@ == indent_unit(*options),
            i <= text@.len(),
            text@.len() < usize::MAX,
            level <= i,
            (out@, level as nat, prev_empty, line@) == fallback_fold(*options, text@.take(i as int)),
        decreases text.len() - i,
    {
        proof {
            let t = text@.take(i as int + 1);
            assert(t.drop_last() =~= text@.take(i as int));
            assert(t.last() == text@[i as int]);
        }
        if text[i] == '\n' {
            fallback_step(options, &unit, &mut out, &mut level, &mut prev_empty, &line);
            line = Vec::new();
            assert(line@ =~= seq![]);
        } else {
            line.push(text[i]);
        }
        i = i + 1;
    }
    proof {
        assert(text@.take(text@.len() as int) =~= text@);
    }
    if line.len() > 0 {
        fallback_step(options, &unit, &mut out, &mut level, &mut prev_empty, &line);
    }
    let ends_nl = text.len() > 0 && text[text.len() - 1] == '\n';
    if !ends_nl && out.len() > 0 && out[out.len() - 1] == '\n' {
        out.pop();
    }
    out
}


/// Some split of `s` into tokens and comments covers all of it but white space.
pub open spec fn lexes(s: Seq<char>) -> bool {
    exists|toks: Seq<crate::lexer::LexToken>, cms: Seq<crate::lexer::LexComment>|
        crate::lexer::lexed_ok(s, toks, cms, s.len() as int)
}

/// Formats Modelica source text. Text that lexes and parses is written back
/// from its syntax tree, with its comments put back before the constructs
/// they preceded; other text is formatted line by line.
pub fn format_modelica(text: &str, options: &FormatOptions) -> (r: String)
    requires
        text@.len() < usize::MAX,
    ensures
        !lexes(text@) ==> r@ == fallback_text(*options, text@),
{
    let chars = crate::text::str_to_chars(text);
    match crate::lexer::lex(&chars) {
        Ok(l) => {
            proof {
                assert(crate::lexer::lexed_ok(chars@, l.tokens@, l.comments@, chars@.len() as int));
            }
            match crate::parser::parse_stored_definition(&l.tokens) {
                Ok(def) => match classes_depth_exec(&def.class_list) {
                    Some(d) if d < usize::MAX => {
                        let mut comments: Vec<CommentInfo> = Vec::new();
                        let mut i: usize = 0;
                        while i < l.comments.len()
                            decreases l.comments.len() - i,
                        {
                            let c = &l.comments[i];
                            comments.push(CommentInfo { text: c.text.clone(), line: crate::parser::to_u32(c.line) });
                            i = i + 1;
                        }
                        format_ast_with_comments(&def, comments, options)
                    },
                    _ => chars_to_string(&format_modelica_fallback(&chars, options)),
                },
                Err(_) => chars_to_string(&format_modelica_fallback(&chars, options)),
            }
        },
        Err(_) => chars_to_string(&format_modelica_fallback(&chars, options)),
    }
}


/// An equation written with the default options at the outermost level.
pub fn format_equation_text(eq: &Equation) -> (r: String)
    ensures
        eq_depth(*eq) < usize::MAX ==> exists|o: FormatOptions|
            o.indent_size == 2 && !o.use_tabs && o.max_line_length == 100 && r@ == equation_text(o, *eq, 0),
{
    let o = FormatOptions::default();
    let unit = make_indent_unit(&o);
    match equation_depth(eq) {
        Some(d) if d < usize::MAX => {
            let mut out: Vec<char> = Vec::new();
            write_equation(&mut out, &o, &unit, eq, 0);
            assert(out@ =~= equation_text(o, *eq, 0));
            chars_to_string(&out)
        },
        _ => String::new(),
    }
}


/// The keyword, in the lexer's keyword table, that opens block `i` of an if
/// or when clause: `if`/`when` for the first block, `elseif`/`elsewhen` after.
pub open spec fn opening_keyword(is_if: bool, i: int) -> crate::lexer::Keyword {
    if is_if {
        if i == 0 { crate::lexer::Keyword::If } else { crate::lexer::Keyword::Elseif }
    } else {
        if i == 0 { crate::lexer::Keyword::When } else { crate::lexer::Keyword::Elsewhen }
    }
}

/// Law: each block of a formatted if or when clause (equation or statement)
/// starts, after its indentation, with the text of the keyword the lexer
/// reads for that block (`elsewhen` for the later blocks of a when clause,
/// `elseif` for those of an if clause), followed by a space.
pub proof fn lemma_block_keywords(o: FormatOptions, eb: EquationBlock, sb: StatementBlock, i: int, level: nat, is_if: bool)
    requires
        0 <= i,
    ensures
        block_keyword(is_if, i) == crate::lexer::keyword_text(opening_keyword(is_if, i)),
        eq_block_text(o, eb, i, level, is_if).subrange(0, (indent_text(o, level).len() + block_keyword(is_if, i).len() + 1) as int)
            == indent_text(o, level) + crate::lexer::keyword_text(opening_keyword(is_if, i)) + seq![' '],
        st_block_text(o, sb, i, level, is_if).subrange(0, (indent_text(o, level).len() + block_keyword(is_if, i).len() + 1) as int)
            == indent_text(o, level) + crate::lexer::keyword_text(opening_keyword(is_if, i)) + seq![' '],
{
    let k = crate::lexer::keyword_text(opening_keyword(is_if, i));
    assert(block_keyword(is_if, i) =~= k);
    let pre = indent_text(o, level) + k + seq![' '];
    assert(eq_block_text(o, eb, i, level, is_if).subrange(0, pre.len() as int) =~= pre);
    assert(st_block_text(o, sb, i, level, is_if).subrange(0, pre.len() as int) =~= pre);
}

} // verus!
