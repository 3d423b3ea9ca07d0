//! Lint rules for Modelica classes: naming conventions, parameters without
//! defaults, empty sections, deeply nested expressions, unit consistency,
//! redundant extends, and the literals that may be magic numbers.
use vstd::prelude::*;
use crate::ast::{ClassDefinition, ClassType, Component, Equation, Expression, TerminalType, Token, Variability};
use crate::diagnostics::expr_location;
use crate::formatter::name_text;
use crate::types::{is_class_instance_spec, is_class_instance_type};

verus! {

/// How serious a lint message is.
#[derive(Debug, Clone, Copy, PartialEq, Eq, Structural)]
pub enum LintLevel {
    Error,
    Warning,
    Note,
    Help,
}

/// A lint message: the rule that raised it, its level and text, where it
/// points (file, line and column as in the source), and a suggestion.
#[derive(Debug)]
pub struct LintMessage {
    pub rule: String,
    pub level: LintLevel,
    pub message: String,
    pub file: String,
    pub line: u32,
    pub column: u32,
    pub suggestion: Option<String>,
}

/// The messages of a lint run.
#[derive(Debug)]
pub struct LintResult {
    pub messages: Vec<LintMessage>,
}

/// A lint message as plain values: rule, level, text, file, line, column, suggestion.
pub type LintView = (Seq<char>, LintLevel, Seq<char>, Seq<char>, u32, u32, Option<Seq<char>>);

/// The plain values of a lint message.
pub open spec fn lint_view(m: LintMessage) -> LintView {
    (
        m.rule@,
        m.level,
        m.message@,
        m.file@,
        m.line,
        m.column,
        match m.suggestion {
            Some(s) => Some(s@),
            None => None,
        },
    )
}

/// The plain values of lint messages.
pub open spec fn lint_views(ms: Seq<LintMessage>) -> Seq<LintView> {
    ms.map_values(|m: LintMessage| lint_view(m))
}

/// Adds a message.
pub(crate) fn emit(result: &mut LintResult, m: LintMessage)
    ensures
        lint_views(final(result).messages@) == lint_views(old(result).messages@).push(lint_view(m)),
{
    let ghost v = lint_view(m);
    result.messages.push(m);
    proof {
        assert(lint_views(result.messages@) =~= lint_views(old(result).messages@).push(v));
    }
}

/// `pre`, `s`, `post` as one string.
pub(crate) fn join3(pre: &str, s: &str, post: &str) -> (r: String)
    ensures
        r@ == pre@ + s@ + post@,
{
    let mut m: Vec<char> = Vec::new();
    crate::printer::append_str(&mut m, pre);
    crate::printer::append_str(&mut m, s);
    crate::printer::append_str(&mut m, post);
    crate::text::chars_to_string(&m)
}

// ---------------------------------------------------------------------------
// Letter case
// ---------------------------------------------------------------------------

/// Whether `c` is uppercase: std's `char::is_uppercase` (Unicode's
/// Uppercase property), a function of `c` alone.
pub uninterp spec fn is_uppercase_char(c: char) -> bool;

/// The uppercase mapping of `c`: what std's `char::to_uppercase` yields, a
/// function of `c` alone (one to three characters).
pub uninterp spec fn uppercase_of(c: char) -> Seq<char>;

/// The lowercase mapping of `c`: what std's `char::to_lowercase` yields, a
/// function of `c` alone.
pub uninterp spec fn lowercase_of(c: char) -> Seq<char>;

/// std's `char::is_uppercase`; its answer is named `is_uppercase_char`.
#[verifier::external_body]
fn uppercase_letter(c: char) -> (r: bool)
    ensures
        r == is_uppercase_char(c),
{
    c.is_uppercase()
}

/// std's `char::to_uppercase`, collected; its characters are named `uppercase_of`.
#[verifier::external_body]
fn to_uppercase_chars(c: char) -> (r: String)
    ensures
        r@ == uppercase_of(c),
{
    c.to_uppercase().collect()
}

/// std's `char::to_lowercase`, collected; its characters are named `lowercase_of`.
#[verifier::external_body]
fn to_lowercase_chars(c: char) -> (r: String)
    ensures
        r@ == lowercase_of(c),
{
    c.to_lowercase().collect()
}

/// `s` with its first character in uppercase.
pub open spec fn capitalized(s: Seq<char>) -> Seq<char> {
    if s.len() == 0 {
        seq![]
    } else {
        uppercase_of(s[0]) + s.skip(1)
    }
}

/// `s` with its first character in lowercase.
pub open spec fn decapitalized(s: Seq<char>) -> Seq<char> {
    if s.len() == 0 {
        seq![]
    } else {
        lowercase_of(s[0]) + s.skip(1)
    }
}

/// `s` with the characters of `t` after it.
fn append_chars(out: &mut Vec<char>, t: &[char], from: usize)
    requires
        from <= t@.len(),
    ensures
        final(out)@ == old(out)@ + t@.skip(from as int),
{
    let ghost o0 = out@;
    let mut i = from;
    while i < t.len()
        invariant
            from <= i <= t@.len(),
            out@ == o0 + t@.subrange(from as int, i as int),
        decreases t.len() - i,
    {
        out.push(t[i]);
        assert(t@.subrange(from as int, i as int + 1) =~= t@.subrange(from as int, i as int).push(t@[i as int]));
        i = i + 1;
    }
    assert(t@.subrange(from as int, t@.len() as int) =~= t@.skip(from as int));
}

/// `s` with its first character in uppercase.
pub fn capitalize_first(s: &str) -> (r: String)
    ensures
        r@ == capitalized(s@),
{
    let c = crate::text::str_to_chars(s);
    if c.len() == 0 {
        return String::new();
    }
    let up = to_uppercase_chars(c[0]);
    let mut out = crate::text::str_to_chars(up.as_str());
    append_chars(&mut out, &c, 1);
    crate::text::chars_to_string(&out)
}

/// `s` with its first character in lowercase.
pub fn lowercase_first(s: &str) -> (r: String)
    ensures
        r@ == decapitalized(s@),
{
    let c = crate::text::str_to_chars(s);
    if c.len() == 0 {
        return String::new();
    }
    let low = to_lowercase_chars(c[0]);
    let mut out = crate::text::str_to_chars(low.as_str());
    append_chars(&mut out, &c, 1);
    crate::text::chars_to_string(&out)
}

/// Whether `s` starts with an uppercase letter.
pub open spec fn starts_upper(s: Seq<char>) -> bool {
    s.len() > 0 && is_uppercase_char(s[0])
}

fn starts_uppercase(s: &str) -> (r: bool)
    ensures
        r == starts_upper(s@),
{
    let c = crate::text::str_to_chars(s);
    c.len() > 0 && uppercase_letter(c[0])
}

/// The name of a class kind as lint messages write it.
pub open spec fn class_type_name(ct: ClassType) -> Seq<char> {
    match ct {
        ClassType::Model => "Model"@,
        ClassType::Class => "Class"@,
        ClassType::Block => "Block"@,
        ClassType::Connector => "Connector"@,
        ClassType::Record => "Record"@,
        ClassType::Type => "Type"@,
        ClassType::Function => "Function"@,
        ClassType::Package => "Package"@,
        ClassType::Operator => "Operator"@,
    }
}

/// The name of a class kind as lint messages write it.
pub fn format_class_type(ct: &ClassType) -> (r: &'static str)
    ensures
        r@ == class_type_name(*ct),
{
    match ct {
        ClassType::Model => "Model",
        ClassType::Class => "Class",
        ClassType::Block => "Block",
        ClassType::Connector => "Connector",
        ClassType::Record => "Record",
        ClassType::Type => "Type",
        ClassType::Function => "Function",
        ClassType::Package => "Package",
        ClassType::Operator => "Operator",
    }
}

// ---------------------------------------------------------------------------
// Naming conventions
// ---------------------------------------------------------------------------

/// Where a component's messages point: its type's first token, or line 1, column 1.
pub open spec fn comp_position(c: Component) -> (u32, u32) {
    if c.type_path.name@.len() > 0 {
        (c.type_path.name@[0].location.start_line, c.type_path.name@[0].location.start_column)
    } else {
        (1, 1)
    }
}

fn component_position(c: &Component) -> (r: (u32, u32))
    ensures
        r == comp_position(*c),
{
    if c.type_path.name.len() > 0 {
        (c.type_path.name[0].location.start_line, c.type_path.name[0].location.start_column)
    } else {
        (1, 1)
    }
}

/// The single-letter names that are common enough to be clear.
pub open spec fn common_single(c: char) -> bool {
    c == 'x' || c == 'y' || c == 'z' || c == 't' || c == 'u' || c == 'v' || c == 'w' || c == 'i' || c == 'j' || c
        == 'k' || c == 'n' || c == 'm' || c == 'p' || c == 'q' || c == 'r' || c == 's'
}

/// A name of a single byte: one ASCII character.
pub open spec fn single_ascii(n: Seq<char>) -> bool {
    n.len() == 1 && (n[0] as u32) < 128
}

/// The naming messages of one component: a variable (not an instance of
/// a class) whose name starts in uppercase, then a single-letter name that
/// is not a common one.
pub open spec fn comp_naming(c: Component, file: Seq<char>) -> Seq<LintView> {
    let n = c.name@;
    let (l, col) = comp_position(c);
    let rule = "naming-convention"@;
    (if !is_class_instance_spec(name_text(c.type_path)) && starts_upper(n) {
        seq![(rule, LintLevel::Note, "Variable '"@ + n + "' should start with a lowercase letter"@, file, l, col, Some("Rename to '"@ + decapitalized(n) + "'"@))]
    } else {
        seq![]
    }) + if single_ascii(n) && !common_single(n[0]) {
        seq![(rule, LintLevel::Help, "Single-letter variable name '"@ + n + "' may be unclear"@, file, l, col, None)]
    } else {
        seq![]
    }
}

/// The naming messages of components, one after another.
pub open spec fn comps_naming(cs: Seq<Component>, file: Seq<char>) -> Seq<LintView>
    decreases cs.len(),
{
    if cs.len() == 0 {
        seq![]
    } else {
        comps_naming(cs.drop_last(), file) + comp_naming(cs.last(), file)
    }
}

/// The naming messages of a class: its name if it does not start in
/// uppercase, then those of its components.
pub open spec fn naming_messages(c: ClassDefinition, file: Seq<char>) -> Seq<LintView> {
    let n = c.name.text@;
    (if !starts_upper(n) {
        seq![(
            "naming-convention"@,
            LintLevel::Note,
            "Class name '"@ + n + "' should start with an uppercase letter (CamelCase)"@,
            file,
            c.name.location.start_line,
            c.name.location.start_column,
            Some("Rename to '"@ + capitalized(n) + "'"@),
        )]
    } else {
        seq![]
    }) + comps_naming(c.components@, file)
}

/// Whether a name is a single uncommon ASCII letter.
fn uncommon_single(n: &str) -> (r: bool)
    ensures
        r == (single_ascii(n@) && !common_single(n@[0])),
{
    let c = crate::text::str_to_chars(n);
    if c.len() != 1 {
        return false;
    }
    let x = c[0];
    if !((x as u32) < 128) {
        return false;
    }
    !(x == 'x' || x == 'y' || x == 'z' || x == 't' || x == 'u' || x == 'v' || x == 'w' || x == 'i' || x == 'j' || x
        == 'k' || x == 'n' || x == 'm' || x == 'p' || x == 'q' || x == 'r' || x == 's')
}

/// Checks naming conventions (see `naming_messages`).
pub fn lint_naming_conventions(class: &ClassDefinition, file_path: &str, result: &mut LintResult)
    ensures
        lint_views(final(result).messages@) == lint_views(old(result).messages@) + naming_messages(*class, file_path@),
{
    proof {
        reveal_strlit("naming-convention");
        reveal_strlit("Class name '");
        reveal_strlit("' should start with an uppercase letter (CamelCase)");
        reveal_strlit("Rename to '");
        reveal_strlit("'");
        reveal_strlit("Variable '");
        reveal_strlit("' should start with a lowercase letter");
        reveal_strlit("Single-letter variable name '");
        reveal_strlit("' may be unclear");
    }
    let ghost v0 = lint_views(result.messages@);
    let ghost file = file_path@;
    let name = &class.name.text;
    if !starts_uppercase(name.as_str()) {
        let cap = capitalize_first(name.as_str());
        emit(
            result,
            LintMessage {
                rule: "naming-convention".to_owned(),
                level: LintLevel::Note,
                message: join3("Class name '", name.as_str(), "' should start with an uppercase letter (CamelCase)"),
                file: file_path.to_owned(),
                line: class.name.location.start_line,
                column: class.name.location.start_column,
                suggestion: Some(join3("Rename to '", cap.as_str(), "'")),
            },
        );
    }
    let ghost v1 = lint_views(result.messages@);
    proof {
        assert(v1 == v0 + (if !starts_upper(name@) {
            seq![(
                "naming-convention"@,
                LintLevel::Note,
                "Class name '"@ + name@ + "' should start with an uppercase letter (CamelCase)"@,
                file,
                class.name.location.start_line,
                class.name.location.start_column,
                Some("Rename to '"@ + capitalized(name@) + "'"@),
            )]
        } else {
            seq![]
        }));
    }
    let ghost cs = class.components@;
    let mut i: usize = 0;
    proof {
        assert(v1 + comps_naming(cs.take(0), file) =~= v1);
    }
    while i < class.components.len()
        invariant
            i <= cs.len(),
            cs == class.components@,
            file == file_path@,
            lint_views(result.messages@) == v1 + comps_naming(cs.take(i as int), file),
        decreases cs.len() - i,
    {
        let c = &class.components[i];
        let (l, col) = component_position(c);
        let ghost before = lint_views(result.messages@);
        let mut tn: Vec<char> = Vec::new();
        crate::formatter::write_name(&mut tn, &c.type_path);
        let tname = crate::text::chars_to_string(&tn);
        proof {
            assert(tname@ =~= name_text(c.type_path));
        }
        if !is_class_instance_type(tname.as_str()) && starts_uppercase(c.name.as_str()) {
            let low = lowercase_first(c.name.as_str());
            emit(
                result,
                LintMessage {
                    rule: "naming-convention".to_owned(),
                    level: LintLevel::Note,
                    message: join3("Variable '", c.name.as_str(), "' should start with a lowercase letter"),
                    file: file_path.to_owned(),
                    line: l,
                    column: col,
                    suggestion: Some(join3("Rename to '", low.as_str(), "'")),
                },
            );
        }
        if uncommon_single(c.name.as_str()) {
            emit(
                result,
                LintMessage {
                    rule: "naming-convention".to_owned(),
                    level: LintLevel::Help,
                    message: join3("Single-letter variable name '", c.name.as_str(), "' may be unclear"),
                    file: file_path.to_owned(),
                    line: l,
                    column: col,
                    suggestion: None,
                },
            );
        }
        proof {
            let t = cs.take(i as int + 1);
            assert(t.drop_last() =~= cs.take(i as int));
            assert(t.last() == cs[i as int]);
            assert(lint_views(result.messages@) =~= before + comp_naming(cs[i as int], file));
        }
        i = i + 1;
    }
    proof {
        assert(cs.take(i as int) =~= cs);
    }
}

/// Checks for missing class documentation. Classes carry no description
/// yet, so there is nothing to report.
pub fn lint_missing_documentation(class: &ClassDefinition, file_path: &str, result: &mut LintResult)
    ensures
        lint_views(final(result).messages@) == lint_views(old(result).messages@),
{
}

// ---------------------------------------------------------------------------
// Parameters, sections, expressions, units, extends
// ---------------------------------------------------------------------------

/// The messages for the parameters among `cs` without a default value.
pub open spec fn param_default_messages(cs: Seq<Component>, file: Seq<char>) -> Seq<LintView>
    decreases cs.len(),
{
    if cs.len() == 0 {
        seq![]
    } else {
        let c = cs.last();
        let (l, col) = comp_position(c);
        param_default_messages(cs.drop_last(), file) + if c.variability is Parameter && c.start is Empty {
            seq![(
                "parameter-no-default"@,
                LintLevel::Help,
                "Parameter '"@ + c.name@ + "' has no default value"@,
                file,
                l,
                col,
                Some("Consider adding a default value for better usability"@),
            )]
        } else {
            seq![]
        }
    }
}

/// Checks for parameters without default values (see `param_default_messages`).
pub fn lint_parameter_defaults(class: &ClassDefinition, file_path: &str, result: &mut LintResult)
    ensures
        lint_views(final(result).messages@) == lint_views(old(result).messages@) + param_default_messages(
            class.components@,
            file_path@,
        ),
{
    let ghost v0 = lint_views(result.messages@);
    let ghost cs = class.components@;
    let mut i: usize = 0;
    proof {
        assert(v0 + param_default_messages(cs.take(0), file_path@) =~= v0);
    }
    while i < class.components.len()
        invariant
            i <= cs.len(),
            cs == class.components@,
            lint_views(result.messages@) == v0 + param_default_messages(cs.take(i as int), file_path@),
        decreases cs.len() - i,
    {
        let c = &class.components[i];
        let ghost before = lint_views(result.messages@);
        if matches!(c.variability, Variability::Parameter(_)) && matches!(c.start, Expression::Empty) {
            let (l, col) = component_position(c);
            emit(
                result,
                LintMessage {
                    rule: "parameter-no-default".to_owned(),
                    level: LintLevel::Help,
                    message: join3("Parameter '", c.name.as_str(), "' has no default value"),
                    file: file_path.to_owned(),
                    line: l,
                    column: col,
                    suggestion: Some("Consider adding a default value for better usability".to_owned()),
                },
            );
        }
        proof {
            let t = cs.take(i as int + 1);
            assert(t.drop_last() =~= cs.take(i as int));
            assert(t.last() == cs[i as int]);
            assert(lint_views(result.messages@) =~= v0 + param_default_messages(t, file_path@));
        }
        i = i + 1;
    }
    proof {
        assert(cs.take(i as int) =~= cs);
    }
}

/// The message for a model or block with components but no equations,
/// algorithms or extends.
pub open spec fn empty_section_messages(c: ClassDefinition, file: Seq<char>) -> Seq<LintView> {
    if (c.class_type == ClassType::Model || c.class_type == ClassType::Block) && c.equations@.len() == 0
        && c.initial_equations@.len() == 0 && c.algorithms@.len() == 0 && c.initial_algorithms@.len() == 0
        && c.extends@.len() == 0 && c.components@.len() > 0 {
        seq![(
            "empty-section"@,
            LintLevel::Note,
            class_type_name(c.class_type) + " '"@ + c.name.text@ + "' has components but no equations or algorithms"@,
            file,
            c.name.location.start_line,
            1u32,
            None,
        )]
    } else {
        seq![]
    }
}

/// Checks for empty sections (see `empty_section_messages`).
pub fn lint_empty_sections(class: &ClassDefinition, file_path: &str, result: &mut LintResult)
    ensures
        lint_views(final(result).messages@) == lint_views(old(result).messages@) + empty_section_messages(
            *class,
            file_path@,
        ),
{
    let ghost v0 = lint_views(result.messages@);
    if (matches!(class.class_type, ClassType::Model) || matches!(class.class_type, ClassType::Block))
        && class.equations.len() == 0 && class.initial_equations.len() == 0 && class.algorithms.len() == 0
        && class.initial_algorithms.len() == 0 && class.extends.len() == 0 && class.components.len() > 0 {
        let mut m: Vec<char> = Vec::new();
        crate::printer::append_str(&mut m, format_class_type(&class.class_type));
        crate::printer::append_str(&mut m, " '");
        crate::printer::append_str(&mut m, class.name.text.as_str());
        crate::printer::append_str(&mut m, "' has components but no equations or algorithms");
        emit(
            result,
            LintMessage {
                rule: "empty-section".to_owned(),
                level: LintLevel::Note,
                message: crate::text::chars_to_string(&m),
                file: file_path.to_owned(),
                line: class.name.location.start_line,
                column: 1,
                suggestion: None,
            },
        );
        proof {
            assert(lint_views(result.messages@) =~= v0 + empty_section_messages(*class, file_path@));
        }
    } else {
        assert(lint_views(result.messages@) =~= v0 + empty_section_messages(*class, file_path@));
    }
}

/// The nesting depth of an expression: 1 for a leaf, one more than its
/// deepest operand otherwise (an empty list of operands counts 0).
pub open spec fn expr_depth(e: Expression) -> nat
    decreases e, 0nat,
{
    match e {
        Expression::Binary { lhs, rhs, .. } => 1 + max_nat(expr_depth(*lhs), expr_depth(*rhs)),
        Expression::Unary { rhs, .. } => 1 + expr_depth(*rhs),
        Expression::FunctionCall { args, .. } => 1 + exprs_depth(args@),
        Expression::Array { elements } => 1 + exprs_depth(elements@),
        Expression::Tuple { elements } => 1 + exprs_depth(elements@),
        Expression::If { branches, else_branch } => 1 + max_nat(branches_depth(branches@), expr_depth(*else_branch)),
        Expression::Range { start, step, end } => 1 + max_nat(
            max_nat(
                expr_depth(*start),
                match step {
                    Some(s) => expr_depth(*s),
                    None => 0,
                },
            ),
            expr_depth(*end),
        ),
        Expression::NamedArgument { value, .. } => 1 + expr_depth(*value),
        _ => 1,
    }
}

/// The larger of two numbers.
pub open spec fn max_nat(a: nat, b: nat) -> nat {
    if a >= b {
        a
    } else {
        b
    }
}

/// The largest depth among expressions, 0 for none.
pub open spec fn exprs_depth(es: Seq<Expression>) -> nat
    decreases es, 0nat,
{
    if es.len() == 0 {
        0
    } else {
        max_nat(exprs_depth(es.drop_last()), expr_depth(es.last()))
    }
}

/// The largest depth among the conditions and values of branches, 0 for none.
pub open spec fn branches_depth(bs: Seq<crate::ast::ExpressionBranch>) -> nat
    decreases bs, 0nat,
{
    if bs.len() == 0 {
        0
    } else {
        max_nat(branches_depth(bs.drop_last()), max_nat(expr_depth(bs.last().cond), expr_depth(bs.last().value)))
    }
}

/// Whether an expression is nested deeper than `k`.
pub fn depth_exceeds(e: &Expression, k: usize) -> (r: bool)
    ensures
        r == (expr_depth(*e) > k),
    decreases e, 1nat,
{
    if k == 0 {
        return true;
    }
    let k1 = k - 1;
    match e {
        Expression::Binary { lhs, rhs, .. } => depth_exceeds(lhs, k1) || depth_exceeds(rhs, k1),
        Expression::Unary { rhs, .. } => depth_exceeds(rhs, k1),
        Expression::FunctionCall { args, .. } => any_exceeds(args, k1),
        Expression::Array { elements } => any_exceeds(elements, k1),
        Expression::Tuple { elements } => any_exceeds(elements, k1),
        Expression::If { branches, else_branch } => branches_exceed(branches, k1) || depth_exceeds(else_branch, k1),
        Expression::Range { start, step, end } => depth_exceeds(start, k1) || (match step {
            Some(s) => depth_exceeds(s, k1),
            None => false,
        }) || depth_exceeds(end, k1),
        Expression::NamedArgument { value, .. } => depth_exceeds(value, k1),
        _ => false,
    }
}

/// Whether some expression is nested deeper than `k`.
fn any_exceeds(es: &Vec<Expression>, k: usize) -> (r: bool)
    ensures
        r == (exprs_depth(es@) > k),
    decreases es, 0nat,
{
    let mut i: usize = 0;
    while i < es.len()
        invariant
            i <= es@.len(),
            exprs_depth(es@.take(i as int)) <= k,
        decreases es.len() - i,
    {
        proof {
            let t = es@.take(i as int + 1);
            assert(t.drop_last() =~= es@.take(i as int));
            assert(t.last() == es@[i as int]);
            assert(decreases_to!(es => es@[i as int]));
        }
        if depth_exceeds(&es[i], k) {
            proof {
                lemma_exprs_depth_prefix(es@, i as int + 1);
            }
            return true;
        }
        i = i + 1;
    }
    assert(es@.take(i as int) =~= es@);
    false
}

proof fn lemma_exprs_depth_prefix(es: Seq<Expression>, n: int)
    requires
        0 <= n <= es.len(),
    ensures
        exprs_depth(es.take(n)) <= exprs_depth(es),
    decreases es.len(),
{
    if n < es.len() {
        assert(es.drop_last().take(n) =~= es.take(n));
        lemma_exprs_depth_prefix(es.drop_last(), n);
    } else {
        assert(es.take(n) =~= es);
    }
}

proof fn lemma_branches_depth_prefix(bs: Seq<crate::ast::ExpressionBranch>, n: int)
    requires
        0 <= n <= bs.len(),
    ensures
        branches_depth(bs.take(n)) <= branches_depth(bs),
    decreases bs.len(),
{
    if n < bs.len() {
        assert(bs.drop_last().take(n) =~= bs.take(n));
        lemma_branches_depth_prefix(bs.drop_last(), n);
    } else {
        assert(bs.take(n) =~= bs);
    }
}

/// Whether some branch is nested deeper than `k`.
fn branches_exceed(bs: &Vec<crate::ast::ExpressionBranch>, k: usize) -> (r: bool)
    ensures
        r == (branches_depth(bs@) > k),
    decreases bs, 0nat,
{
    let mut i: usize = 0;
    while i < bs.len()
        invariant
            i <= bs@.len(),
            branches_depth(bs@.take(i as int)) <= k,
        decreases bs.len() - i,
    {
        proof {
            let t = bs@.take(i as int + 1);
            assert(t.drop_last() =~= bs@.take(i as int));
            assert(t.last() == bs@[i as int]);
            assert(decreases_to!(bs => bs@[i as int]));
        }
        if depth_exceeds(&bs[i].cond, k) || depth_exceeds(&bs[i].value, k) {
            proof {
                lemma_branches_depth_prefix(bs@, i as int + 1);
            }
            return true;
        }
        i = i + 1;
    }
    assert(bs@.take(i as int) =~= bs@);
    false
}

/// The messages for the simple equations among `eqs` with a side nested
/// deeper than 5, at the left side's first token.
pub open spec fn complex_messages(eqs: Seq<Equation>, file: Seq<char>) -> Seq<LintView>
    decreases eqs.len(),
{
    if eqs.len() == 0 {
        seq![]
    } else {
        complex_messages(eqs.drop_last(), file) + match eqs.last() {
            Equation::Simple { lhs, rhs } => if expr_depth(lhs) > 5 || expr_depth(rhs) > 5 {
                match expr_location(lhs) {
                    Some((l, c)) => seq![(
                        "complex-expression"@,
                        LintLevel::Note,
                        "Expression is deeply nested - consider breaking into intermediate variables"@,
                        file,
                        l,
                        c,
                        Some("Extract sub-expressions into named variables for clarity"@),
                    )],
                    None => seq![],
                }
            } else {
                seq![]
            },
            _ => seq![],
        }
    }
}

/// Checks for deeply nested expressions (see `complex_messages`).
pub fn lint_complex_expressions(class: &ClassDefinition, file_path: &str, result: &mut LintResult)
    ensures
        lint_views(final(result).messages@) == lint_views(old(result).messages@) + complex_messages(
            class.equations@,
            file_path@,
        ),
{
    let ghost v0 = lint_views(result.messages@);
    let ghost eqs = class.equations@;
    let mut i: usize = 0;
    proof {
        assert(v0 + complex_messages(eqs.take(0), file_path@) =~= v0);
    }
    while i < class.equations.len()
        invariant
            i <= eqs.len(),
            eqs == class.equations@,
            lint_views(result.messages@) == v0 + complex_messages(eqs.take(i as int), file_path@),
        decreases eqs.len() - i,
    {
        proof {
            let t = eqs.take(i as int + 1);
            assert(t.drop_last() =~= eqs.take(i as int));
            assert(t.last() == eqs[i as int]);
        }
        match &class.equations[i] {
            Equation::Simple { lhs, rhs } => {
                if depth_exceeds(lhs, 5) || depth_exceeds(rhs, 5) {
                    match crate::diagnostics::expression_location(lhs) {
                        Some((l, c)) => {
                            emit(
                                result,
                                LintMessage {
                                    rule: "complex-expression".to_owned(),
                                    level: LintLevel::Note,
                                    message: "Expression is deeply nested - consider breaking into intermediate variables".to_owned(),
                                    file: file_path.to_owned(),
                                    line: l,
                                    column: c,
                                    suggestion: Some("Extract sub-expressions into named variables for clarity".to_owned()),
                                },
                            );
                        },
                        None => {},
                    }
                }
            },
            _ => {},
        }
        proof {
            assert(lint_views(result.messages@) =~= v0 + complex_messages(eqs.take(i as int + 1), file_path@));
        }
        i = i + 1;
    }
    proof {
        assert(eqs.take(i as int) =~= eqs);
    }
}

/// Checks unit consistency. Components carry no unit modifier yet, so no
/// variable counts as having units and nothing is reported.
pub fn lint_unit_consistency(class: &ClassDefinition, file_path: &str, result: &mut LintResult)
    ensures
        lint_views(final(result).messages@) == lint_views(old(result).messages@),
{
}

/// The messages for `extends` clauses: one for each that repeats an earlier
/// base, then one for each that names the class itself.
pub open spec fn extends_messages(c: ClassDefinition, file: Seq<char>) -> Seq<LintView> {
    duplicate_extends(c, file, c.extends@.len() as int) + self_extends(c, file, c.extends@.len() as int)
}

/// Whether the `i`-th base of `c` repeats an earlier one.
pub open spec fn repeats_earlier(c: ClassDefinition, i: int) -> bool {
    exists|j: int| 0 <= j < i && #[trigger] name_text(c.extends@[j].comp) == name_text(c.extends@[i].comp)
}

/// The messages for the repeated bases among the first `n`.
pub open spec fn duplicate_extends(c: ClassDefinition, file: Seq<char>, n: int) -> Seq<LintView>
    decreases n,
{
    if n <= 0 {
        seq![]
    } else {
        duplicate_extends(c, file, n - 1) + if repeats_earlier(c, n - 1) {
            seq![(
                "redundant-extends"@,
                LintLevel::Warning,
                "Duplicate extends clause for '"@ + name_text(c.extends@[n - 1].comp) + "'"@,
                file,
                c.name.location.start_line,
                1u32,
                None,
            )]
        } else {
            seq![]
        }
    }
}

/// The messages for the bases among the first `n` that name the class itself.
pub open spec fn self_extends(c: ClassDefinition, file: Seq<char>, n: int) -> Seq<LintView>
    decreases n,
{
    if n <= 0 {
        seq![]
    } else {
        self_extends(c, file, n - 1) + if name_text(c.extends@[n - 1].comp) == c.name.text@ {
            seq![(
                "redundant-extends"@,
                LintLevel::Error,
                "Class '"@ + c.name.text@ + "' extends itself"@,
                file,
                c.name.location.start_line,
                1u32,
                None,
            )]
        } else {
            seq![]
        }
    }
}

/// Checks for duplicate and self-referencing `extends` (see `extends_messages`).
pub fn lint_redundant_extends(class: &ClassDefinition, file_path: &str, result: &mut LintResult)
    ensures
        lint_views(final(result).messages@) == lint_views(old(result).messages@) + extends_messages(
            *class,
            file_path@,
        ),
{
    let ghost v0 = lint_views(result.messages@);
    let ghost file = file_path@;
    let mut seen: Vec<Vec<char>> = Vec::new();
    let mut i: usize = 0;
    proof {
        assert(v0 + duplicate_extends(*class, file, 0) =~= v0);
    }
    while i < class.extends.len()
        invariant
            i <= class.extends@.len(),
            file == file_path@,
            seen@.len() == i,
            forall|j: int| 0 <= j < i ==> (#[trigger] seen@[j])@ == name_text(class.extends@[j].comp),
            lint_views(result.messages@) == v0 + duplicate_extends(*class, file, i as int),
        decreases class.extends.len() - i,
    {
        let mut nm: Vec<char> = Vec::new();
        crate::formatter::write_name(&mut nm, &class.extends[i].comp);
        proof {
            assert(nm@ =~= name_text(class.extends@[i as int].comp));
        }
        let found = crate::names::position(&seen, &nm);
        proof {
            if found is Some {
                let j = found.unwrap() as int;
                assert(name_text(class.extends@[j].comp) == name_text(class.extends@[i as int].comp));
                assert(repeats_earlier(*class, i as int));
            } else {
                assert forall|j: int| 0 <= j < i implies #[trigger] name_text(class.extends@[j].comp) != name_text(
                    class.extends@[i as int].comp,
                ) by {
                    assert(seen@[j]@ != nm@);
                }
            }
        }
        if found.is_some() {
            let ns = crate::text::chars_to_string(&nm);
            emit(
                result,
                LintMessage {
                    rule: "redundant-extends".to_owned(),
                    level: LintLevel::Warning,
                    message: join3("Duplicate extends clause for '", ns.as_str(), "'"),
                    file: file_path.to_owned(),
                    line: class.name.location.start_line,
                    column: 1,
                    suggestion: None,
                },
            );
        }
        let ghost s0 = seen@;
        seen.push(nm);
        proof {
            assert forall|j: int| 0 <= j < i + 1 implies (#[trigger] seen@[j])@ == name_text(class.extends@[j].comp) by {
                if j < i {
                    assert(seen@[j] == s0[j]);
                }
            }
            assert(lint_views(result.messages@) =~= v0 + duplicate_extends(*class, file, i as int + 1));
        }
        i = i + 1;
    }
    let ghost v1 = lint_views(result.messages@);
    let cname = crate::text::str_to_chars(class.name.text.as_str());
    let mut k: usize = 0;
    proof {
        assert(v1 + self_extends(*class, file, 0) =~= v1);
    }
    while k < class.extends.len()
        invariant
            k <= class.extends@.len(),
            file == file_path@,
            cname@ == class.name.text@,
            lint_views(result.messages@) == v1 + self_extends(*class, file, k as int),
        decreases class.extends.len() - k,
    {
        let mut nm: Vec<char> = Vec::new();
        crate::formatter::write_name(&mut nm, &class.extends[k].comp);
        proof {
            assert(nm@ =~= name_text(class.extends@[k as int].comp));
        }
        if crate::lexer::chars_equal(&nm, &cname) {
            emit(
                result,
                LintMessage {
                    rule: "redundant-extends".to_owned(),
                    level: LintLevel::Error,
                    message: join3("Class '", class.name.text.as_str(), "' extends itself"),
                    file: file_path.to_owned(),
                    line: class.name.location.start_line,
                    column: 1,
                    suggestion: None,
                },
            );
        }
        proof {
            assert(lint_views(result.messages@) =~= v1 + self_extends(*class, file, k as int + 1));
        }
        k = k + 1;
    }
    proof {
        assert(v0 + duplicate_extends(*class, file, class.extends@.len() as int) + self_extends(
            *class,
            file,
            class.extends@.len() as int,
        ) =~= v0 + extends_messages(*class, file));
    }
}

// ---------------------------------------------------------------------------
// Magic numbers
// ---------------------------------------------------------------------------

/// The literals common enough not to need a name.
pub open spec fn acceptable_number(t: Seq<char>) -> bool {
    t == "0"@ || t == "1"@ || t == "2"@ || t == "-1"@ || t == "0.0"@ || t == "1.0"@ || t == "2.0"@ || t == "-1.0"@
        || t == "0.5"@ || t == "10"@ || t == "100"@ || t == "3.14159"@ || t == "3.141592653589793"@ || t
        == "2.718281828"@
}

fn is_acceptable_number(t: &str) -> (r: bool)
    ensures
        r == acceptable_number(t@),
{
    crate::types::text_is(t, "0") || crate::types::text_is(t, "1") || crate::types::text_is(t, "2")
        || crate::types::text_is(t, "-1") || crate::types::text_is(t, "0.0") || crate::types::text_is(t, "1.0")
        || crate::types::text_is(t, "2.0") || crate::types::text_is(t, "-1.0") || crate::types::text_is(t, "0.5")
        || crate::types::text_is(t, "10") || crate::types::text_is(t, "100") || crate::types::text_is(t, "3.14159")
        || crate::types::text_is(t, "3.141592653589793") || crate::types::text_is(t, "2.718281828")
}

/// The real literals of an expression, in order, that are not among the
/// acceptable ones; only operands of operators and arguments of calls are
/// searched.
pub open spec fn expr_candidates(e: Expression) -> Seq<Token>
    decreases e, 0nat,
{
    match e {
        Expression::Terminal { terminal_type, token } => if terminal_type == TerminalType::UnsignedReal
            && !acceptable_number(token.text@) {
            seq![token]
        } else {
            seq![]
        },
        Expression::Binary { lhs, rhs, .. } => expr_candidates(*lhs) + expr_candidates(*rhs),
        Expression::Unary { rhs, .. } => expr_candidates(*rhs),
        Expression::FunctionCall { args, .. } => exprs_candidates(args@),
        _ => seq![],
    }
}

/// The candidates of expressions, one after another.
pub open spec fn exprs_candidates(es: Seq<Expression>) -> Seq<Token>
    decreases es, 0nat,
{
    if es.len() == 0 {
        seq![]
    } else {
        exprs_candidates(es.drop_last()) + expr_candidates(es.last())
    }
}

/// The candidates of an equation: of both sides of a simple equation, and
/// of the equations of a `for`.
pub open spec fn eq_candidates(eq: Equation) -> Seq<Token>
    decreases eq, 0nat,
{
    match eq {
        Equation::Simple { lhs, rhs } => expr_candidates(lhs) + expr_candidates(rhs),
        Equation::For { equations, .. } => eqs_candidates(equations@),
        _ => seq![],
    }
}

/// The candidates of equations, one after another.
pub open spec fn eqs_candidates(eqs: Seq<Equation>) -> Seq<Token>
    decreases eqs, 0nat,
{
    if eqs.len() == 0 {
        seq![]
    } else {
        eqs_candidates(eqs.drop_last()) + eq_candidates(eqs.last())
    }
}

fn collect_expr_candidates(e: &Expression, out: &mut Vec<Token>)
    ensures
        final(out)@ == old(out)@ + expr_candidates(*e),
    decreases e, 1nat,
{
    let ghost o0 = out@;
    match e {
        Expression::Terminal { terminal_type, token } => {
            if matches!(terminal_type, TerminalType::UnsignedReal) && !is_acceptable_number(token.text.as_str()) {
                out.push(crate::structural::copy_token(token));
            }
        },
        Expression::Binary { lhs, rhs, .. } => {
            collect_expr_candidates(lhs, out);
            collect_expr_candidates(rhs, out);
        },
        Expression::Unary { rhs, .. } => collect_expr_candidates(rhs, out),
        Expression::FunctionCall { args, .. } => collect_exprs_candidates(args, out),
        _ => {},
    }
    assert(out@ =~= o0 + expr_candidates(*e));
}

fn collect_exprs_candidates(es: &Vec<Expression>, out: &mut Vec<Token>)
    ensures
        final(out)@ == old(out)@ + exprs_candidates(es@),
    decreases es, 0nat,
{
    let ghost o0 = out@;
    let mut i: usize = 0;
    while i < es.len()
        invariant
            i <= es@.len(),
            out@ == o0 + exprs_candidates(es@.take(i as int)),
        decreases es.len() - i,
    {
        proof {
            let t = es@.take(i as int + 1);
            assert(t.drop_last() =~= es@.take(i as int));
            assert(t.last() == es@[i as int]);
            assert(decreases_to!(es => es@[i as int]));
        }
        collect_expr_candidates(&es[i], out);
        i = i + 1;
    }
    assert(es@.take(i as int) =~= es@);
}

fn collect_eq_candidates(eq: &Equation, out: &mut Vec<Token>)
    ensures
        final(out)@ == old(out)@ + eq_candidates(*eq),
    decreases eq, 1nat,
{
    let ghost o0 = out@;
    match eq {
        Equation::Simple { lhs, rhs } => {
            collect_expr_candidates(lhs, out);
            collect_expr_candidates(rhs, out);
        },
        Equation::For { equations, .. } => collect_eqs_candidates(equations, out),
        _ => {},
    }
    assert(out@ =~= o0 + eq_candidates(*eq));
}

fn collect_eqs_candidates(eqs: &Vec<Equation>, out: &mut Vec<Token>)
    ensures
        final(out)@ == old(out)@ + eqs_candidates(eqs@),
    decreases eqs, 0nat,
{
    let ghost o0 = out@;
    let mut i: usize = 0;
    while i < eqs.len()
        invariant
            i <= eqs@.len(),
            out@ == o0 + eqs_candidates(eqs@.take(i as int)),
        decreases eqs.len() - i,
    {
        proof {
            let t = eqs@.take(i as int + 1);
            assert(t.drop_last() =~= eqs@.take(i as int));
            assert(t.last() == eqs@[i as int]);
            assert(decreases_to!(eqs => eqs@[i as int]));
        }
        collect_eq_candidates(&eqs[i], out);
        i = i + 1;
    }
    assert(eqs@.take(i as int) =~= eqs@);
}

/// The real literals of a class's equations that may be magic numbers (see
/// `eqs_candidates`), copied; whether one is depends on its value as a
/// floating-point number, which the caller judges.
pub fn magic_number_candidates(class: &ClassDefinition) -> (r: Vec<Token>)
    ensures
        r@ == eqs_candidates(class.equations@),
{
    let mut out: Vec<Token> = Vec::new();
    collect_eqs_candidates(&class.equations, &mut out);
    assert(out@ =~= eqs_candidates(class.equations@));
    out
}

/// The message for a magic number at `token`.
pub fn magic_number_message(token: &Token, file_path: &str) -> (r: LintMessage)
    ensures
        lint_view(r) == (
            "magic-number"@,
            LintLevel::Help,
            "Consider using a named constant instead of '"@ + token.text@ + "'"@,
            file_path@,
            token.location.start_line,
            token.location.start_column,
            Some("Define as a parameter: parameter Real myConstant = ..."@),
        ),
{
    LintMessage {
        rule: "magic-number".to_owned(),
        level: LintLevel::Help,
        message: join3("Consider using a named constant instead of '", token.text.as_str(), "'"),
        file: file_path.to_owned(),
        line: token.location.start_line,
        column: token.location.start_column,
        suggestion: Some("Define as a parameter: parameter Real myConstant = ...".to_owned()),
    }
}

} // verus!
