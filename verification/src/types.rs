//! Type inference for expressions, as the editor diagnostics use it to
//! find equations whose sides cannot agree.
use vstd::prelude::*;
use crate::ast::{Expression, OpBinary, TerminalType};

verus! {

/// The inferred type of an expression.
#[derive(Debug, PartialEq)]
pub enum InferredType {
    Real,
    Integer,
    Boolean,
    String,
    /// Element type and, where known, size.
    Array(Box<InferredType>, Option<usize>),
    Unknown,
}

/// A declared symbol, as the diagnostics know it.
#[derive(Debug, Clone)]
pub struct DefinedSymbol {
    pub line: u32,
    pub col: u32,
    pub name_len: u32,
    pub is_parameter: bool,
    pub is_class: bool,
    pub has_default: bool,
    /// The base type (`Real`, `Integer`, `Boolean`, `String`, or a class).
    pub declared_type: String,
    /// Array dimensions (empty for a scalar).
    pub shape: Vec<usize>,
}

/// The element type under all array levels.
pub open spec fn base_type_spec(t: InferredType) -> InferredType
    decreases t,
{
    match t {
        InferredType::Array(inner, _) => base_type_spec(*inner),
        other => other,
    }
}

/// Whether the base type is `Real` or `Integer`.
pub open spec fn is_numeric_spec(t: InferredType) -> bool {
    base_type_spec(t) == InferredType::Real || base_type_spec(t) == InferredType::Integer
}

/// Whether a value of type `a` may stand for one of type `b`: an unknown
/// type agrees with anything; `Real` and `Integer` agree with each other;
/// arrays agree when their element types do, whatever their sizes; a
/// scalar never agrees with an array.
pub open spec fn compatible(a: InferredType, b: InferredType) -> bool
    decreases a,
{
    match (a, b) {
        (InferredType::Unknown, _) => true,
        (_, InferredType::Unknown) => true,
        (InferredType::Real, InferredType::Real) => true,
        (InferredType::Integer, InferredType::Integer) => true,
        (InferredType::Boolean, InferredType::Boolean) => true,
        (InferredType::String, InferredType::String) => true,
        (InferredType::Real, InferredType::Integer) => true,
        (InferredType::Integer, InferredType::Real) => true,
        (InferredType::Array(x, _), InferredType::Array(y, _)) => compatible(*x, *y),
        _ => false,
    }
}

/// The text of a type: `Real[3]`, `Integer[:]` for an array of unknown size.
pub open spec fn type_text(t: InferredType) -> Seq<char>
    decreases t,
{
    match t {
        InferredType::Real => "Real"@,
        InferredType::Integer => "Integer"@,
        InferredType::Boolean => "Boolean"@,
        InferredType::String => "String"@,
        InferredType::Array(inner, size) => type_text(*inner) + seq!['['] + match size {
            Some(s) => crate::code_lens::decimal(s as nat),
            None => seq![':'],
        } + seq![']'],
        InferredType::Unknown => "Unknown"@,
    }
}

impl InferredType {
    /// The element type under all array levels.
    pub fn base_type(&self) -> (r: &InferredType)
        ensures
            *r == base_type_spec(*self),
        decreases self,
    {
        match self {
            InferredType::Array(inner, _) => inner.base_type(),
            other => other,
        }
    }

    /// Whether the base type is `Real` or `Integer`.
    pub fn is_numeric(&self) -> (r: bool)
        ensures
            r == is_numeric_spec(*self),
    {
        match self.base_type() {
            InferredType::Real | InferredType::Integer => true,
            _ => false,
        }
    }

    /// Whether a value of this type may stand for one of `other` (see `compatible`).
    pub fn is_compatible_with(&self, other: &InferredType) -> (r: bool)
        ensures
            r == compatible(*self, *other),
        decreases self,
    {
        match (self, other) {
            (InferredType::Unknown, _) | (_, InferredType::Unknown) => true,
            (InferredType::Real, InferredType::Real) => true,
            (InferredType::Integer, InferredType::Integer) => true,
            (InferredType::Boolean, InferredType::Boolean) => true,
            (InferredType::String, InferredType::String) => true,
            (InferredType::Real, InferredType::Integer) | (InferredType::Integer, InferredType::Real) => true,
            (InferredType::Array(t1, _), InferredType::Array(t2, _)) => t1.is_compatible_with(t2),
            _ => false,
        }
    }

    /// The text of the type (see `type_text`).
    pub fn to_text(&self) -> (r: String)
        ensures
            r@ == type_text(*self),
    {
        let mut out: Vec<char> = Vec::new();
        write_type(&mut out, self);
        assert(out@ =~= type_text(*self));
        crate::text::chars_to_string(&out)
    }
}

fn write_type(out: &mut Vec<char>, t: &InferredType)
    ensures
        final(out)@ == old(out)@ + type_text(*t),
    decreases t,
{
    proof {
        reveal_strlit("Real");
        reveal_strlit("Integer");
        reveal_strlit("Boolean");
        reveal_strlit("String");
        reveal_strlit("Unknown");
    }
    match t {
        InferredType::Real => crate::printer::append_str(out, "Real"),
        InferredType::Integer => crate::printer::append_str(out, "Integer"),
        InferredType::Boolean => crate::printer::append_str(out, "Boolean"),
        InferredType::String => crate::printer::append_str(out, "String"),
        InferredType::Array(inner, size) => {
            write_type(out, inner);
            out.push('[');
            match size {
                Some(s) => crate::code_lens::write_decimal(out, *s),
                None => out.push(':'),
            }
            out.push(']');
        },
        InferredType::Unknown => crate::printer::append_str(out, "Unknown"),
    }
    assert(final(out)@ =~= old(out)@ + type_text(*t));
}

/// The type a declared type name stands for: the four predefined types;
/// anything else (a class) is unknown.
pub open spec fn type_from_name_spec(name: Seq<char>) -> InferredType {
    if name == "Real"@ {
        InferredType::Real
    } else if name == "Integer"@ {
        InferredType::Integer
    } else if name == "Boolean"@ {
        InferredType::Boolean
    } else if name == "String"@ {
        InferredType::String
    } else {
        InferredType::Unknown
    }
}

/// Whether a string's characters are those of a literal.
pub(crate) fn text_is(s: &str, lit: &str) -> (r: bool)
    ensures
        r == (s@ == lit@),
{
    let a = crate::text::str_to_chars(s);
    let b = crate::text::str_to_chars(lit);
    crate::lexer::chars_equal(&a, &b)
}

/// The type a declared type name stands for (see `type_from_name_spec`).
pub fn type_from_name(name: &str) -> (r: InferredType)
    ensures
        r == type_from_name_spec(name@),
{
    if text_is(name, "Real") {
        InferredType::Real
    } else if text_is(name, "Integer") {
        InferredType::Integer
    } else if text_is(name, "Boolean") {
        InferredType::Boolean
    } else if text_is(name, "String") {
        InferredType::String
    } else {
        InferredType::Unknown
    }
}

/// Whether a type name is that of a class instance: none of `Real`,
/// `Integer`, `Boolean`, `String`, `StateSelect`, `ExternalObject`.
pub open spec fn is_class_instance_spec(name: Seq<char>) -> bool {
    !(name == "Real"@ || name == "Integer"@ || name == "Boolean"@ || name == "String"@ || name == "StateSelect"@
        || name == "ExternalObject"@)
}

/// Whether a type name is that of a class instance (see `is_class_instance_spec`).
pub fn is_class_instance_type(name: &str) -> (r: bool)
    ensures
        r == is_class_instance_spec(name@),
{
    !(text_is(name, "Real") || text_is(name, "Integer") || text_is(name, "Boolean") || text_is(name, "String")
        || text_is(name, "StateSelect") || text_is(name, "ExternalObject"))
}

/// What type inference reads of the declared symbols: each name with its
/// declared type and its dimensions.
pub type ScopeView = Seq<(Seq<char>, (Seq<char>, Seq<usize>))>;

/// The declared symbols as plain values.
pub open spec fn scope_view(defined: Seq<(String, DefinedSymbol)>) -> ScopeView {
    defined.map_values(|e: (String, DefinedSymbol)| (e.0@, (e.1.declared_type@, e.1.shape@)))
}

/// The declared type and dimensions of a name: its first entry.
pub open spec fn lookup(scope: ScopeView, name: Seq<char>) -> Option<(Seq<char>, Seq<usize>)>
    decreases scope.len(),
{
    if scope.len() == 0 {
        None
    } else if scope[0].0 == name {
        Some(scope[0].1)
    } else {
        lookup(scope.drop_first(), name)
    }
}

/// `base` as an array of the dimensions `shape`, the first outermost.
pub open spec fn array_of(base: InferredType, shape: Seq<usize>) -> InferredType
    decreases shape.len(),
{
    if shape.len() == 0 {
        base
    } else {
        InferredType::Array(Box::new(array_of(base, shape.drop_first())), Some(shape[0]))
    }
}

/// Functions returning `Real`.
pub open spec fn real_function(n: Seq<char>) -> bool {
    n == "sin"@ || n == "cos"@ || n == "tan"@ || n == "asin"@ || n == "acos"@ || n == "atan"@ || n == "atan2"@
        || n == "sinh"@ || n == "cosh"@ || n == "tanh"@ || n == "exp"@ || n == "log"@ || n == "log10"@ || n
        == "sqrt"@ || n == "abs"@ || n == "sign"@ || n == "floor"@ || n == "ceil"@ || n == "mod"@ || n == "rem"@
        || n == "max"@ || n == "min"@ || n == "sum"@ || n == "product"@
}

/// Functions returning `Boolean`.
pub open spec fn boolean_function(n: Seq<char>) -> bool {
    n == "initial"@ || n == "terminal"@ || n == "edge"@ || n == "change"@ || n == "sample"@
}

/// Arithmetic: `Real` if either side's base type is, `Integer` if both are,
/// else unknown.
pub open spec fn promoted(a: InferredType, b: InferredType) -> InferredType {
    if base_type_spec(a) == InferredType::Real || base_type_spec(b) == InferredType::Real {
        InferredType::Real
    } else if base_type_spec(a) == InferredType::Integer && base_type_spec(b) == InferredType::Integer {
        InferredType::Integer
    } else {
        InferredType::Unknown
    }
}

/// The type of an expression, given the declared symbols:
/// a reference has its declared type (by its first part), arrays built from
/// its dimensions, `time` is `Real`, anything undeclared unknown; literals
/// have their own type; calls of the usual mathematical functions are
/// `Real`, event functions `Boolean`, `size` and `ndims` `Integer`, and
/// `der(x)` has the type of `x`; comparisons and logical operators give
/// `Boolean`, `+ - * / ^` promote (see `promoted`); a negation has its
/// operand's type; an array literal is an array of its first element's type
/// and of its length; an if-expression has its first branch's type; a range
/// is an array of `Integer` of unknown size.
pub open spec fn infer_type(e: Expression, defined: ScopeView) -> InferredType
    decreases e,
{
    match e {
        Expression::ComponentReference(c) => if c.parts@.len() > 0 {
            let name = c.parts@[0].ident.text@;
            match lookup(defined, name) {
                Some(sym) => array_of(type_from_name_spec(sym.0), sym.1),
                None => if name == "time"@ {
                    InferredType::Real
                } else {
                    InferredType::Unknown
                },
            }
        } else {
            InferredType::Unknown
        },
        Expression::Terminal { terminal_type, .. } => match terminal_type {
            TerminalType::UnsignedInteger => InferredType::Integer,
            TerminalType::UnsignedReal => InferredType::Real,
            TerminalType::String => InferredType::String,
            TerminalType::Bool => InferredType::Boolean,
            _ => InferredType::Unknown,
        },
        Expression::FunctionCall { comp, args } => if comp.parts@.len() > 0 {
            let f = comp.parts@[0].ident.text@;
            if real_function(f) {
                InferredType::Real
            } else if f == "der"@ {
                if args@.len() > 0 {
                    infer_type(args@[0], defined)
                } else {
                    InferredType::Real
                }
            } else if boolean_function(f) {
                InferredType::Boolean
            } else if f == "size"@ || f == "ndims"@ {
                InferredType::Integer
            } else {
                InferredType::Unknown
            }
        } else {
            InferredType::Unknown
        },
        Expression::Binary { op, lhs, rhs } => match op {
            OpBinary::Lt | OpBinary::Le | OpBinary::Gt | OpBinary::Ge | OpBinary::Eq | OpBinary::Neq | OpBinary::And
            | OpBinary::Or => InferredType::Boolean,
            OpBinary::Add | OpBinary::Sub | OpBinary::Mul | OpBinary::Div | OpBinary::Exp => promoted(
                infer_type(*lhs, defined),
                infer_type(*rhs, defined),
            ),
            _ => InferredType::Unknown,
        },
        Expression::Unary { rhs, .. } => infer_type(*rhs, defined),
        Expression::Array { elements } => if elements@.len() > 0 {
            InferredType::Array(Box::new(infer_type(elements@[0], defined)), Some(elements@.len() as usize))
        } else {
            InferredType::Unknown
        },
        Expression::If { branches, else_branch } => if branches@.len() > 0 {
            infer_type(branches@[0].value, defined)
        } else {
            infer_type(*else_branch, defined)
        },
        Expression::Range { .. } => InferredType::Array(Box::new(InferredType::Integer), None),
        _ => InferredType::Unknown,
    }
}

/// The declared symbol of a name, if any.
fn find_symbol<'a>(defined: &'a Vec<(String, DefinedSymbol)>, name: &String) -> (r: Option<&'a DefinedSymbol>)
    ensures
        match r {
            Some(s) => lookup(scope_view(defined@), name@) == Some((s.declared_type@, s.shape@)),
            None => lookup(scope_view(defined@), name@) is None,
        },
{
    let ghost sv = scope_view(defined@);
    let mut i: usize = 0;
    assert(sv.skip(0) =~= sv);
    while i < defined.len()
        invariant
            i <= defined@.len(),
            sv == scope_view(defined@),
            lookup(sv, name@) == lookup(sv.skip(i as int), name@),
        decreases defined.len() - i,
    {
        proof {
            assert(sv.skip(i as int).drop_first() =~= sv.skip(i as int + 1));
            assert(sv.skip(i as int)[0] == sv[i as int]);
        }
        if defined[i].0 == *name {
            return Some(&defined[i].1);
        }
        i = i + 1;
    }
    None
}

/// Whether a name is declared.
pub fn has_symbol(defined: &Vec<(String, DefinedSymbol)>, name: &String) -> (r: bool)
    ensures
        r == (lookup(scope_view(defined@), name@) is Some),
{
    find_symbol(defined, name).is_some()
}

/// `base` as an array of the dimensions `shape` (see `array_of`).
fn make_array(base: InferredType, shape: &Vec<usize>) -> (r: InferredType)
    ensures
        r == array_of(base, shape@),
{
    let ghost b0 = base;
    let mut result = base;
    let mut k = shape.len();
    assert(shape@.skip(k as int) =~= Seq::<usize>::empty());
    while k > 0
        invariant
            k <= shape@.len(),
            result == array_of(b0, shape@.skip(k as int)),
        decreases k,
    {
        k = k - 1;
        proof {
            assert(shape@.skip(k as int).drop_first() =~= shape@.skip(k as int + 1));
        }
        result = InferredType::Array(Box::new(result), Some(shape[k]));
    }
    assert(shape@.skip(0) =~= shape@);
    result
}

/// Infers the type of an expression (see `infer_type`).
pub fn infer_expression_type(expr: &Expression, defined: &Vec<(String, DefinedSymbol)>) -> (r: InferredType)
    ensures
        r == infer_type(*expr, scope_view(defined@)),
    decreases expr,
{
    proof {
        reveal_strlit("time");
        reveal_strlit("der");
        reveal_strlit("size");
        reveal_strlit("ndims");
    }
    match expr {
        Expression::ComponentReference(c) => {
            if c.parts.len() > 0 {
                let name = &c.parts[0].ident.text;
                match find_symbol(defined, name) {
                    Some(sym) => make_array(type_from_name(sym.declared_type.as_str()), &sym.shape),
                    None => if text_is(name.as_str(), "time") {
                        InferredType::Real
                    } else {
                        InferredType::Unknown
                    },
                }
            } else {
                InferredType::Unknown
            }
        },
        Expression::Terminal { terminal_type, .. } => match terminal_type {
            TerminalType::UnsignedInteger => InferredType::Integer,
            TerminalType::UnsignedReal => InferredType::Real,
            TerminalType::String => InferredType::String,
            TerminalType::Bool => InferredType::Boolean,
            _ => InferredType::Unknown,
        },
        Expression::FunctionCall { comp, args } => {
            if comp.parts.len() > 0 {
                let f = comp.parts[0].ident.text.as_str();
                if is_real_function(f) {
                    InferredType::Real
                } else if text_is(f, "der") {
                    if args.len() > 0 {
                        infer_expression_type(&args[0], defined)
                    } else {
                        InferredType::Real
                    }
                } else if is_boolean_function(f) {
                    InferredType::Boolean
                } else if text_is(f, "size") || text_is(f, "ndims") {
                    InferredType::Integer
                } else {
                    InferredType::Unknown
                }
            } else {
                InferredType::Unknown
            }
        },
        Expression::Binary { op, lhs, rhs } => {
            let lt = infer_expression_type(lhs, defined);
            let rt = infer_expression_type(rhs, defined);
            match op {
                OpBinary::Lt | OpBinary::Le | OpBinary::Gt | OpBinary::Ge | OpBinary::Eq | OpBinary::Neq
                | OpBinary::And | OpBinary::Or => InferredType::Boolean,
                OpBinary::Add | OpBinary::Sub | OpBinary::Mul | OpBinary::Div | OpBinary::Exp => {
                    let lb = lt.base_type();
                    let rb = rt.base_type();
                    if matches!(lb, InferredType::Real) || matches!(rb, InferredType::Real) {
                        InferredType::Real
                    } else if matches!(lb, InferredType::Integer) && matches!(rb, InferredType::Integer) {
                        InferredType::Integer
                    } else {
                        InferredType::Unknown
                    }
                },
                _ => InferredType::Unknown,
            }
        },
        Expression::Unary { rhs, .. } => infer_expression_type(rhs, defined),
        Expression::Array { elements } => {
            if elements.len() > 0 {
                let t = infer_expression_type(&elements[0], defined);
                InferredType::Array(Box::new(t), Some(elements.len()))
            } else {
                InferredType::Unknown
            }
        },
        Expression::If { branches, else_branch } => {
            if branches.len() > 0 {
                proof {
                    assert(decreases_to!(expr => branches@[0].value));
                }
                infer_expression_type(&branches[0].value, defined)
            } else {
                infer_expression_type(else_branch, defined)
            }
        },
        Expression::Range { .. } => InferredType::Array(Box::new(InferredType::Integer), None),
        _ => InferredType::Unknown,
    }
}

/// Whether a function returns `Real` (see `real_function`).
fn is_real_function(f: &str) -> (r: bool)
    ensures
        r == real_function(f@),
{
    text_is(f, "sin") || text_is(f, "cos") || text_is(f, "tan") || text_is(f, "asin") || text_is(f, "acos") || text_is(
        f,
        "atan",
    ) || text_is(f, "atan2") || text_is(f, "sinh") || text_is(f, "cosh") || text_is(f, "tanh") || text_is(f, "exp")
        || text_is(f, "log") || text_is(f, "log10") || text_is(f, "sqrt") || text_is(f, "abs") || text_is(f, "sign")
        || text_is(f, "floor") || text_is(f, "ceil") || text_is(f, "mod") || text_is(f, "rem") || text_is(f, "max")
        || text_is(f, "min") || text_is(f, "sum") || text_is(f, "product")
}

/// Whether a function returns `Boolean` (see `boolean_function`).
fn is_boolean_function(f: &str) -> (r: bool)
    ensures
        r == boolean_function(f@),
{
    text_is(f, "initial") || text_is(f, "terminal") || text_is(f, "edge") || text_is(f, "change") || text_is(f, "sample")
}

/// A problem with the types of an equation's sides: its message, and
/// whether it is an error (else a warning).
pub struct TypeIssue {
    pub message: String,
    pub is_error: bool,
}

/// The problems of an equation whose sides have types `a` and `b`: a
/// warning where the types do not agree (see `compatible`), then an error
/// where a `Boolean` side meets a numeric one.
pub open spec fn equation_type_issues(a: InferredType, b: InferredType) -> Seq<(Seq<char>, bool)> {
    let w = if !compatible(a, b) {
        seq![("Type mismatch in equation: "@ + type_text(a) + " is not compatible with "@ + type_text(b), false)]
    } else {
        seq![]
    };
    let e = if (base_type_spec(a) == InferredType::Boolean && is_numeric_spec(b)) || (is_numeric_spec(a) && base_type_spec(b)
        == InferredType::Boolean) {
        seq![("Cannot mix Boolean and numeric types in equation"@, true)]
    } else {
        seq![]
    };
    w + e
}

/// Checks the types of the two sides of an equation (see `equation_type_issues`).
pub fn check_equation_types(lhs: &Expression, rhs: &Expression, defined: &Vec<(String, DefinedSymbol)>) -> (r: Vec<TypeIssue>)
    ensures
        r@.map_values(|i: TypeIssue| (i.message@, i.is_error)) == equation_type_issues(
            infer_type(*lhs, scope_view(defined@)),
            infer_type(*rhs, scope_view(defined@)),
        ),
{
    proof {
        reveal_strlit("Type mismatch in equation: ");
        reveal_strlit(" is not compatible with ");
        reveal_strlit("Cannot mix Boolean and numeric types in equation");
    }
    let a = infer_expression_type(lhs, defined);
    let b = infer_expression_type(rhs, defined);
    let mut issues: Vec<TypeIssue> = Vec::new();
    if !a.is_compatible_with(&b) {
        let mut m: Vec<char> = Vec::new();
        crate::printer::append_str(&mut m, "Type mismatch in equation: ");
        write_type(&mut m, &a);
        crate::printer::append_str(&mut m, " is not compatible with ");
        write_type(&mut m, &b);
        issues.push(TypeIssue { message: crate::text::chars_to_string(&m), is_error: false });
    }
    let ab = a.base_type();
    let bb = b.base_type();
    if (matches!(ab, InferredType::Boolean) && b.is_numeric()) || (a.is_numeric() && matches!(bb, InferredType::Boolean)) {
        issues.push(TypeIssue { message: "Cannot mix Boolean and numeric types in equation".to_owned(), is_error: true });
    }
    assert(issues@.map_values(|i: TypeIssue| (i.message@, i.is_error)) =~= equation_type_issues(a, b));
    issues
}

} // verus!
