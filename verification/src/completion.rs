//! Completion: the keywords of Modelica, and the names a document offers
//! at a position or after a component's name and a dot.
use vstd::prelude::*;
use crate::ast::{ClassDefinition, ClassType, Component, StoredDefinition, Variability};
use crate::formatter::{name_text, write_name};
use crate::hover::{description_parts, description_texts, dim_parts, dim_texts, joined, write_joined};
use crate::diagnostics::{literal_dimensions, literal_dims};
use crate::lint::{class_type_name, format_class_type};
use crate::scope::{dot_split, find_comp, find_named, get_class, get_comp, split_dots};

verus! {

/// What kind of thing a completion stands for.
#[derive(Debug, Clone, Copy, PartialEq, Eq, Structural)]
pub enum CompletionKind {
    Keyword,
    TypeParameter,
    Variable,
    Value,
    Constant,
    Field,
    Property,
    Function,
    Struct,
    Interface,
    Module,
    Class,
}

/// A completion: the text offered, its kind, a detail line, documentation,
/// the text to insert where it differs from the label, and whether that text
/// is a snippet.
#[derive(Debug)]
pub struct CompletionEntry {
    pub label: String,
    pub kind: CompletionKind,
    pub detail: Option<String>,
    pub documentation: Option<String>,
    pub insert_text: Option<String>,
    pub snippet: bool,
}

/// A completion as plain values.
pub type EntryView = (Seq<char>, CompletionKind, Option<Seq<char>>, Option<Seq<char>>, Option<Seq<char>>, bool);

/// The characters of an optional string.
pub open spec fn opt_chars(o: Option<String>) -> Option<Seq<char>> {
    match o {
        Some(s) => Some(s@),
        None => None,
    }
}

/// A completion as plain values.
pub open spec fn entry_view(e: CompletionEntry) -> EntryView {
    (e.label@, e.kind, opt_chars(e.detail), opt_chars(e.documentation), opt_chars(e.insert_text), e.snippet)
}

/// Completions as plain values.
pub open spec fn entry_views(es: Seq<CompletionEntry>) -> Seq<EntryView> {
    es.map_values(|e: CompletionEntry| entry_view(e))
}

/// A completion with a label, a kind and a detail line only.
pub open spec fn plain_entry(label: Seq<char>, kind: CompletionKind, detail: Seq<char>) -> EntryView {
    (label, kind, Some(detail), None, None, false)
}

/// The keyword completions, in order.
pub open spec fn keyword_entries() -> Seq<EntryView> {
    seq![
        plain_entry("model"@, CompletionKind::Keyword, "model declaration"@),
        plain_entry("class"@, CompletionKind::Keyword, "class declaration"@),
        plain_entry("connector"@, CompletionKind::Keyword, "connector declaration"@),
        plain_entry("package"@, CompletionKind::Keyword, "package declaration"@),
        plain_entry("function"@, CompletionKind::Keyword, "function declaration"@),
        plain_entry("record"@, CompletionKind::Keyword, "record declaration"@),
        plain_entry("block"@, CompletionKind::Keyword, "block declaration"@),
        plain_entry("type"@, CompletionKind::Keyword, "type declaration"@),
        plain_entry("parameter"@, CompletionKind::Keyword, "parameter variable"@),
        plain_entry("constant"@, CompletionKind::Keyword, "constant variable"@),
        plain_entry("input"@, CompletionKind::Keyword, "input connector"@),
        plain_entry("output"@, CompletionKind::Keyword, "output connector"@),
        plain_entry("flow"@, CompletionKind::Keyword, "flow variable"@),
        plain_entry("stream"@, CompletionKind::Keyword, "stream variable"@),
        plain_entry("discrete"@, CompletionKind::Keyword, "discrete variable"@),
        plain_entry("Real"@, CompletionKind::TypeParameter, "Real number type"@),
        plain_entry("Integer"@, CompletionKind::TypeParameter, "Integer type"@),
        plain_entry("Boolean"@, CompletionKind::TypeParameter, "Boolean type"@),
        plain_entry("String"@, CompletionKind::TypeParameter, "String type"@),
        plain_entry("extends"@, CompletionKind::Keyword, "inheritance"@),
        plain_entry("import"@, CompletionKind::Keyword, "import statement"@),
        plain_entry("within"@, CompletionKind::Keyword, "within statement"@),
        plain_entry("equation"@, CompletionKind::Keyword, "equation section"@),
        plain_entry("algorithm"@, CompletionKind::Keyword, "algorithm section"@),
        plain_entry("initial equation"@, CompletionKind::Keyword, "initial equation section"@),
        plain_entry("initial algorithm"@, CompletionKind::Keyword, "initial algorithm section"@),
        plain_entry("protected"@, CompletionKind::Keyword, "protected section"@),
        plain_entry("public"@, CompletionKind::Keyword, "public section"@),
        plain_entry("final"@, CompletionKind::Keyword, "final modifier"@),
        plain_entry("partial"@, CompletionKind::Keyword, "partial class"@),
        plain_entry("replaceable"@, CompletionKind::Keyword, "replaceable element"@),
        plain_entry("redeclare"@, CompletionKind::Keyword, "redeclare element"@),
        plain_entry("inner"@, CompletionKind::Keyword, "inner element"@),
        plain_entry("outer"@, CompletionKind::Keyword, "outer element"@),
        plain_entry("encapsulated"@, CompletionKind::Keyword, "encapsulated class"@),
        plain_entry("annotation"@, CompletionKind::Keyword, "annotation"@),
        plain_entry("if"@, CompletionKind::Keyword, "if statement"@),
        plain_entry("then"@, CompletionKind::Keyword, "then clause"@),
        plain_entry("else"@, CompletionKind::Keyword, "else clause"@),
        plain_entry("elseif"@, CompletionKind::Keyword, "elseif clause"@),
        plain_entry("for"@, CompletionKind::Keyword, "for loop"@),
        plain_entry("loop"@, CompletionKind::Keyword, "loop keyword"@),
        plain_entry("while"@, CompletionKind::Keyword, "while loop"@),
        plain_entry("when"@, CompletionKind::Keyword, "when statement"@),
        plain_entry("end"@, CompletionKind::Keyword, "end keyword"@),
        plain_entry("time"@, CompletionKind::Variable, "simulation time"@),
        plain_entry("true"@, CompletionKind::Value, "boolean true"@),
        plain_entry("false"@, CompletionKind::Value, "boolean false"@)
    ]
}

/// Adds a completion.
fn push_entry(
    out: &mut Vec<CompletionEntry>,
    label: String,
    kind: CompletionKind,
    detail: Option<String>,
    documentation: Option<String>,
    insert_text: Option<String>,
    snippet: bool,
)
    ensures
        entry_views(final(out)@) == entry_views(old(out)@).push(
            (label@, kind, opt_chars(detail), opt_chars(documentation), opt_chars(insert_text), snippet),
        ),
{
    let e = CompletionEntry { label, kind, detail, documentation, insert_text, snippet };
    let ghost v = entry_view(e);
    out.push(e);
    assert(entry_views(final(out)@) =~= entry_views(old(out)@).push(v));
}

/// Adds a completion with a label, a kind and a detail line only.
fn push_plain(out: &mut Vec<CompletionEntry>, label: &str, kind: CompletionKind, detail: &str)
    ensures
        entry_views(final(out)@) == entry_views(old(out)@).push(plain_entry(label@, kind, detail@)),
{
    push_entry(out, label.to_owned(), kind, Some(detail.to_owned()), None, None, false);
}

/// The keyword completions (see `keyword_entries`).
pub fn keyword_completions() -> (r: Vec<CompletionEntry>)
    ensures
        entry_views(r@) == keyword_entries(),
{
    let mut out: Vec<CompletionEntry> = Vec::new();
    push_plain(&mut out, "model", CompletionKind::Keyword, "model declaration");
    push_plain(&mut out, "class", CompletionKind::Keyword, "class declaration");
    push_plain(&mut out, "connector", CompletionKind::Keyword, "connector declaration");
    push_plain(&mut out, "package", CompletionKind::Keyword, "package declaration");
    push_plain(&mut out, "function", CompletionKind::Keyword, "function declaration");
    push_plain(&mut out, "record", CompletionKind::Keyword, "record declaration");
    push_plain(&mut out, "block", CompletionKind::Keyword, "block declaration");
    push_plain(&mut out, "type", CompletionKind::Keyword, "type declaration");
    push_plain(&mut out, "parameter", CompletionKind::Keyword, "parameter variable");
    push_plain(&mut out, "constant", CompletionKind::Keyword, "constant variable");
    push_plain(&mut out, "input", CompletionKind::Keyword, "input connector");
    push_plain(&mut out, "output", CompletionKind::Keyword, "output connector");
    push_plain(&mut out, "flow", CompletionKind::Keyword, "flow variable");
    push_plain(&mut out, "stream", CompletionKind::Keyword, "stream variable");
    push_plain(&mut out, "discrete", CompletionKind::Keyword, "discrete variable");
    push_plain(&mut out, "Real", CompletionKind::TypeParameter, "Real number type");
    push_plain(&mut out, "Integer", CompletionKind::TypeParameter, "Integer type");
    push_plain(&mut out, "Boolean", CompletionKind::TypeParameter, "Boolean type");
    push_plain(&mut out, "String", CompletionKind::TypeParameter, "String type");
    push_plain(&mut out, "extends", CompletionKind::Keyword, "inheritance");
    push_plain(&mut out, "import", CompletionKind::Keyword, "import statement");
    push_plain(&mut out, "within", CompletionKind::Keyword, "within statement");
    push_plain(&mut out, "equation", CompletionKind::Keyword, "equation section");
    push_plain(&mut out, "algorithm", CompletionKind::Keyword, "algorithm section");
    push_plain(&mut out, "initial equation", CompletionKind::Keyword, "initial equation section");
    push_plain(&mut out, "initial algorithm", CompletionKind::Keyword, "initial algorithm section");
    push_plain(&mut out, "protected", CompletionKind::Keyword, "protected section");
    push_plain(&mut out, "public", CompletionKind::Keyword, "public section");
    push_plain(&mut out, "final", CompletionKind::Keyword, "final modifier");
    push_plain(&mut out, "partial", CompletionKind::Keyword, "partial class");
    push_plain(&mut out, "replaceable", CompletionKind::Keyword, "replaceable element");
    push_plain(&mut out, "redeclare", CompletionKind::Keyword, "redeclare element");
    push_plain(&mut out, "inner", CompletionKind::Keyword, "inner element");
    push_plain(&mut out, "outer", CompletionKind::Keyword, "outer element");
    push_plain(&mut out, "encapsulated", CompletionKind::Keyword, "encapsulated class");
    push_plain(&mut out, "annotation", CompletionKind::Keyword, "annotation");
    push_plain(&mut out, "if", CompletionKind::Keyword, "if statement");
    push_plain(&mut out, "then", CompletionKind::Keyword, "then clause");
    push_plain(&mut out, "else", CompletionKind::Keyword, "else clause");
    push_plain(&mut out, "elseif", CompletionKind::Keyword, "elseif clause");
    push_plain(&mut out, "for", CompletionKind::Keyword, "for loop");
    push_plain(&mut out, "loop", CompletionKind::Keyword, "loop keyword");
    push_plain(&mut out, "while", CompletionKind::Keyword, "while loop");
    push_plain(&mut out, "when", CompletionKind::Keyword, "when statement");
    push_plain(&mut out, "end", CompletionKind::Keyword, "end keyword");
    push_plain(&mut out, "time", CompletionKind::Variable, "simulation time");
    push_plain(&mut out, "true", CompletionKind::Value, "boolean true");
    push_plain(&mut out, "false", CompletionKind::Value, "boolean false");
    assert(entry_views(out@) =~= keyword_entries());
    out
}

// ---------------------------------------------------------------------------
// Completions in scope
// ---------------------------------------------------------------------------

/// The kind of a component's completion.
pub open spec fn comp_kind(c: Component) -> CompletionKind {
    match c.variability {
        Variability::Parameter(_) => CompletionKind::Constant,
        Variability::Constant(_) => CompletionKind::Constant,
        _ => CompletionKind::Variable,
    }
}

/// A component's detail line: its type, then its literal dimensions.
pub open spec fn comp_detail(c: Component) -> Seq<char> {
    let dims = literal_dims(c.shape@);
    name_text(c.type_path) + if dims.len() > 0 {
        "["@ + joined(dim_parts(dims), ", "@) + "]"@
    } else {
        seq![]
    }
}

/// A component's documentation: its description, where it has one.
pub open spec fn comp_doc(c: Component) -> Option<Seq<char>> {
    if c.description@.len() == 0 {
        None
    } else {
        Some(joined(description_parts(c.description@), " "@))
    }
}

/// The completion of a component in scope.
pub open spec fn comp_entry(c: Component) -> EntryView {
    (c.name@, comp_kind(c), Some(comp_detail(c)), comp_doc(c), None, false)
}

/// The kind of a class's completion.
pub open spec fn class_kind(t: ClassType) -> CompletionKind {
    match t {
        ClassType::Function => CompletionKind::Function,
        ClassType::Record => CompletionKind::Struct,
        ClassType::Type => CompletionKind::TypeParameter,
        ClassType::Connector => CompletionKind::Interface,
        ClassType::Package => CompletionKind::Module,
        _ => CompletionKind::Class,
    }
}

/// The completion of a nested class: a function is inserted as a call.
pub open spec fn nested_entry(n: ClassDefinition) -> EntryView {
    let f = n.class_type == ClassType::Function;
    (
        n.name.text@,
        class_kind(n.class_type),
        Some(class_type_name(n.class_type)),
        None,
        if f {
            Some(n.name.text@ + "($0)"@)
        } else {
            None
        },
        f,
    )
}

/// The completion of a top-level class.
pub open spec fn top_entry(c: ClassDefinition) -> EntryView {
    (c.name.text@, class_kind(c.class_type), Some(class_type_name(c.class_type)), None, None, false)
}

/// What a top-level class offers at a line (from 0): where the line is not
/// before the class's name, its components, then its nested classes.
pub open spec fn class_scope(c: ClassDefinition, line: u32) -> Seq<EntryView> {
    if line + 1 >= c.name.location.start_line {
        c.components@.map_values(|x: Component| comp_entry(x)) + c.classes@.map_values(|n: ClassDefinition| nested_entry(n))
    } else {
        seq![]
    }
}

/// What the top-level classes offer at a line, one after another.
pub open spec fn scopes(cs: Seq<ClassDefinition>, line: u32) -> Seq<EntryView>
    decreases cs.len(),
{
    if cs.len() == 0 {
        seq![]
    } else {
        scopes(cs.drop_last(), line) + class_scope(cs.last(), line)
    }
}

/// The completions a document offers at a line: what each top-level class
/// offers there, then every top-level class.
pub open spec fn scoped_entries(d: StoredDefinition, line: u32) -> Seq<EntryView> {
    scopes(d.class_list@, line) + d.class_list@.map_values(|c: ClassDefinition| top_entry(c))
}

/// A component's detail line, computed.
fn comp_detail_text(c: &Component) -> (r: String)
    ensures
        r@ == comp_detail(*c),
{
    let mut out: Vec<char> = Vec::new();
    write_name(&mut out, &c.type_path);
    let ghost o1 = out@;
    let dims = literal_dimensions(&c.shape);
    if dims.len() > 0 {
        let parts = dim_texts(&dims);
        crate::printer::append_str(&mut out, "[");
        write_joined(&mut out, &parts, ", ");
        crate::printer::append_str(&mut out, "]");
    }
    assert(out@ =~= comp_detail(*c));
    crate::text::chars_to_string(&out)
}

/// A component's documentation, computed.
fn comp_doc_text(c: &Component) -> (r: Option<String>)
    ensures
        opt_chars(r) == comp_doc(*c),
{
    if c.description.len() == 0 {
        return None;
    }
    let parts = description_texts(&c.description);
    let mut out: Vec<char> = Vec::new();
    write_joined(&mut out, &parts, " ");
    assert(out@ =~= joined(description_parts(c.description@), " "@));
    Some(crate::text::chars_to_string(&out))
}

/// Adds the completion of a component in scope.
fn push_comp(out: &mut Vec<CompletionEntry>, c: &Component)
    ensures
        entry_views(final(out)@) == entry_views(old(out)@).push(comp_entry(*c)),
{
    let kind = match c.variability {
        Variability::Parameter(_) => CompletionKind::Constant,
        Variability::Constant(_) => CompletionKind::Constant,
        _ => CompletionKind::Variable,
    };
    let detail = comp_detail_text(c);
    let doc = comp_doc_text(c);
    push_entry(out, c.name.clone(), kind, Some(detail), doc, None, false);
}

/// The kind of a class's completion, computed.
fn class_kind_of(t: ClassType) -> (r: CompletionKind)
    ensures
        r == class_kind(t),
{
    match t {
        ClassType::Function => CompletionKind::Function,
        ClassType::Record => CompletionKind::Struct,
        ClassType::Type => CompletionKind::TypeParameter,
        ClassType::Connector => CompletionKind::Interface,
        ClassType::Package => CompletionKind::Module,
        _ => CompletionKind::Class,
    }
}

/// Adds the completion of a nested class.
fn push_nested(out: &mut Vec<CompletionEntry>, n: &ClassDefinition)
    ensures
        entry_views(final(out)@) == entry_views(old(out)@).push(nested_entry(*n)),
{
    let f = n.class_type == ClassType::Function;
    let insert = if f {
        let mut v: Vec<char> = Vec::new();
        crate::printer::append_str(&mut v, n.name.text.as_str());
        crate::printer::append_str(&mut v, "($0)");
        Some(crate::text::chars_to_string(&v))
    } else {
        None
    };
    push_entry(
        out,
        n.name.text.clone(),
        class_kind_of(n.class_type),
        Some(format_class_type(&n.class_type).to_owned()),
        None,
        insert,
        f,
    );
}

/// The completions a document offers at a line counted from 0 (see
/// `scoped_entries`).
pub fn scoped_completions(ast: &StoredDefinition, line: u32) -> (r: Vec<CompletionEntry>)
    requires
        line < u32::MAX,
    ensures
        entry_views(r@) == scoped_entries(*ast, line),
{
    let cs = &ast.class_list;
    let mut out: Vec<CompletionEntry> = Vec::new();
    let mut i: usize = 0;
    proof {
        assert(entry_views(out@) =~= scopes(cs@.take(0), line));
    }
    while i < cs.len()
        invariant
            i <= cs@.len(),
            line < u32::MAX,
            entry_views(out@) == scopes(cs@.take(i as int), line),
        decreases cs.len() - i,
    {
        let class = &cs[i];
        let ghost o0 = entry_views(out@);
        if line + 1 >= class.name.location.start_line {
            let comps = &class.components;
            let mut j: usize = 0;
            while j < comps.len()
                invariant
                    j <= comps@.len(),
                    entry_views(out@) == o0 + comps@.take(j as int).map_values(|x: Component| comp_entry(x)),
                decreases comps.len() - j,
            {
                push_comp(&mut out, &comps[j]);
                proof {
                    assert(comps@.take(j as int + 1).map_values(|x: Component| comp_entry(x)) =~= comps@.take(j as int).map_values(
                        |x: Component| comp_entry(x),
                    ).push(comp_entry(comps@[j as int])));
                }
                j = j + 1;
            }
            assert(comps@.take(j as int) =~= comps@);
            let ghost o1 = entry_views(out@);
            let ns = &class.classes;
            let mut k: usize = 0;
            while k < ns.len()
                invariant
                    k <= ns@.len(),
                    entry_views(out@) == o1 + ns@.take(k as int).map_values(|n: ClassDefinition| nested_entry(n)),
                decreases ns.len() - k,
            {
                push_nested(&mut out, &ns[k]);
                proof {
                    assert(ns@.take(k as int + 1).map_values(|n: ClassDefinition| nested_entry(n)) =~= ns@.take(k as int).map_values(
                        |n: ClassDefinition| nested_entry(n),
                    ).push(nested_entry(ns@[k as int])));
                }
                k = k + 1;
            }
            assert(ns@.take(k as int) =~= ns@);
        }
        proof {
            let t = cs@.take(i as int + 1);
            assert(t.drop_last() =~= cs@.take(i as int));
            assert(t.last() == cs@[i as int]);
            assert(entry_views(out@) =~= scopes(t, line));
        }
        i = i + 1;
    }
    assert(cs@.take(i as int) =~= cs@);
    let ghost o2 = entry_views(out@);
    let mut i: usize = 0;
    while i < cs.len()
        invariant
            i <= cs@.len(),
            entry_views(out@) == o2 + cs@.take(i as int).map_values(|c: ClassDefinition| top_entry(c)),
        decreases cs.len() - i,
    {
        let c = &cs[i];
        push_entry(
            &mut out,
            c.name.text.clone(),
            class_kind_of(c.class_type),
            Some(format_class_type(&c.class_type).to_owned()),
            None,
            None,
            false,
        );
        proof {
            assert(cs@.take(i as int + 1).map_values(|c: ClassDefinition| top_entry(c)) =~= cs@.take(i as int).map_values(
                |c: ClassDefinition| top_entry(c),
            ).push(top_entry(cs@[i as int])));
        }
        i = i + 1;
    }
    assert(cs@.take(i as int) =~= cs@);
    assert(entry_views(out@) =~= scoped_entries(*ast, line));
    out
}

// ---------------------------------------------------------------------------
// Completions after a dot
// ---------------------------------------------------------------------------

/// The completion of a member of a component's class: a parameter or
/// constant is a constant, anything else a field.
pub open spec fn member_entry(m: Component) -> EntryView {
    plain_entry(
        m.name@,
        match m.variability {
            Variability::Parameter(_) => CompletionKind::Constant,
            Variability::Constant(_) => CompletionKind::Constant,
            _ => CompletionKind::Field,
        },
        m.name@ + ": "@ + name_text(m.type_path),
    )
}

/// The completion of a member of a nested component's class: always a field.
pub open spec fn field_entry(m: Component) -> EntryView {
    plain_entry(m.name@, CompletionKind::Field, m.name@ + ": "@ + name_text(m.type_path))
}

/// The completion of a class nested in a component's class.
pub open spec fn member_class_entry(n: ClassDefinition) -> EntryView {
    plain_entry(
        n.name.text@,
        if n.class_type == ClassType::Function {
            CompletionKind::Function
        } else {
            CompletionKind::Class
        },
        class_type_name(n.class_type),
    )
}

/// The attributes of a built-in type.
pub open spec fn type_attributes(t: Seq<char>) -> Seq<EntryView> {
    if t == "Real"@ {
        seq![plain_entry("start"@, CompletionKind::Property, "Initial value"@), plain_entry("fixed"@, CompletionKind::Property, "Whether start is fixed"@), plain_entry("min"@, CompletionKind::Property, "Minimum value"@), plain_entry("max"@, CompletionKind::Property, "Maximum value"@), plain_entry("unit"@, CompletionKind::Property, "Physical unit"@), plain_entry("displayUnit"@, CompletionKind::Property, "Display unit"@), plain_entry("nominal"@, CompletionKind::Property, "Nominal value"@), plain_entry("stateSelect"@, CompletionKind::Property, "State selection hint"@)]
    } else if t == "Integer"@ {
        seq![plain_entry("start"@, CompletionKind::Property, "Initial value"@), plain_entry("fixed"@, CompletionKind::Property, "Whether start is fixed"@), plain_entry("min"@, CompletionKind::Property, "Minimum value"@), plain_entry("max"@, CompletionKind::Property, "Maximum value"@)]
    } else if t == "Boolean"@ {
        seq![plain_entry("start"@, CompletionKind::Property, "Initial value"@), plain_entry("fixed"@, CompletionKind::Property, "Whether start is fixed"@)]
    } else {
        seq![]
    }
}

/// The members of the class named `t` among the top-level classes: its
/// components, then its nested classes.
pub open spec fn class_members(d: StoredDefinition, t: Seq<char>) -> Seq<EntryView> {
    match find_named(d.class_list@, t) {
        Some(tc) => tc.components@.map_values(|m: Component| member_entry(m)) + tc.classes@.map_values(
            |n: ClassDefinition| member_class_entry(n),
        ),
        None => seq![],
    }
}

/// What the nested classes of `c` offer after `n.`: for each that declares
/// a component `n` whose type is a class nested in `c`, that class's components.
pub open spec fn nested_members(c: ClassDefinition, ns: Seq<ClassDefinition>, n: Seq<char>) -> Seq<EntryView>
    decreases ns.len(),
{
    if ns.len() == 0 {
        seq![]
    } else {
        nested_members(c, ns.drop_last(), n) + match find_comp(ns.last().components@, n) {
            Some(comp) => match find_named(c.classes@, name_text(comp.type_path)) {
                Some(tc) => tc.components@.map_values(|m: Component| field_entry(m)),
                None => seq![],
            },
            None => seq![],
        }
    }
}

/// What a top-level class offers after `n.`: where it declares a component
/// `n`, the members of its type and the attributes of a built-in type; then
/// what its nested classes offer.
pub open spec fn class_member_entries(d: StoredDefinition, c: ClassDefinition, n: Seq<char>) -> Seq<EntryView> {
    (match find_comp(c.components@, n) {
        Some(comp) => class_members(d, name_text(comp.type_path)) + type_attributes(name_text(comp.type_path)),
        None => seq![],
    }) + nested_members(c, c.classes@, n)
}

/// What the top-level classes offer after `n.`, one after another.
pub open spec fn members_in(d: StoredDefinition, cs: Seq<ClassDefinition>, n: Seq<char>) -> Seq<EntryView>
    decreases cs.len(),
{
    if cs.len() == 0 {
        seq![]
    } else {
        members_in(d, cs.drop_last(), n) + class_member_entries(d, cs.last(), n)
    }
}

/// The completions after a prefix such as `motor.`: none without a dot;
/// else what the document offers for the component named before the first dot.
pub open spec fn member_entries(d: StoredDefinition, prefix: Seq<char>) -> Seq<EntryView> {
    let parts = dot_split(prefix);
    if parts.len() < 2 {
        seq![]
    } else {
        members_in(d, d.class_list@, parts[0])
    }
}

/// Adds the attributes of a built-in type.
fn push_type_attributes(out: &mut Vec<CompletionEntry>, t: &String)
    ensures
        entry_views(final(out)@) == entry_views(old(out)@) + type_attributes(t@),
{
    let ghost o0 = entry_views(out@);
    proof {
        reveal_strlit("Real");
        reveal_strlit("Integer");
        reveal_strlit("Boolean");
    }
    let real_name = "Real".to_owned();
    let integer_name = "Integer".to_owned();
    let boolean_name = "Boolean".to_owned();
    if *t == real_name {
        push_plain(out, "start", CompletionKind::Property, "Initial value");
        push_plain(out, "fixed", CompletionKind::Property, "Whether start is fixed");
        push_plain(out, "min", CompletionKind::Property, "Minimum value");
        push_plain(out, "max", CompletionKind::Property, "Maximum value");
        push_plain(out, "unit", CompletionKind::Property, "Physical unit");
        push_plain(out, "displayUnit", CompletionKind::Property, "Display unit");
        push_plain(out, "nominal", CompletionKind::Property, "Nominal value");
        push_plain(out, "stateSelect", CompletionKind::Property, "State selection hint");
    } else if *t == integer_name {
        push_plain(out, "start", CompletionKind::Property, "Initial value");
        push_plain(out, "fixed", CompletionKind::Property, "Whether start is fixed");
        push_plain(out, "min", CompletionKind::Property, "Minimum value");
        push_plain(out, "max", CompletionKind::Property, "Maximum value");
    } else if *t == boolean_name {
        push_plain(out, "start", CompletionKind::Property, "Initial value");
        push_plain(out, "fixed", CompletionKind::Property, "Whether start is fixed");
    }
    assert(entry_views(out@) =~= o0 + type_attributes(t@));
}

/// Adds `name: type` completions for components, each as `member_entry`
/// (`fields` false) or `field_entry` (`fields` true).
fn push_members(out: &mut Vec<CompletionEntry>, cs: &Vec<Component>, fields: bool)
    ensures
        entry_views(final(out)@) == entry_views(old(out)@) + (if fields {
            cs@.map_values(|m: Component| field_entry(m))
        } else {
            cs@.map_values(|m: Component| member_entry(m))
        }),
{
    let ghost o0 = entry_views(out@);
    let ghost f = if fields {
        |m: Component| field_entry(m)
    } else {
        |m: Component| member_entry(m)
    };
    let mut i: usize = 0;
    while i < cs.len()
        invariant
            i <= cs@.len(),
            f == (if fields {
                |m: Component| field_entry(m)
            } else {
                |m: Component| member_entry(m)
            }),
            entry_views(out@) == o0 + cs@.take(i as int).map_values(f),
        decreases cs.len() - i,
    {
        let m = &cs[i];
        let kind = if fields {
            CompletionKind::Field
        } else {
            match m.variability {
                Variability::Parameter(_) => CompletionKind::Constant,
                Variability::Constant(_) => CompletionKind::Constant,
                _ => CompletionKind::Field,
            }
        };
        let mut d: Vec<char> = Vec::new();
        crate::printer::append_str(&mut d, m.name.as_str());
        crate::printer::append_str(&mut d, ": ");
        write_name(&mut d, &m.type_path);
        push_entry(out, m.name.clone(), kind, Some(crate::text::chars_to_string(&d)), None, None, false);
        proof {
            assert(cs@.take(i as int + 1).map_values(f) =~= cs@.take(i as int).map_values(f).push(f(cs@[i as int])));
        }
        i = i + 1;
    }
    assert(cs@.take(i as int) =~= cs@);
}

/// Adds the members of the class named `t` among the top-level classes.
fn push_class_members(out: &mut Vec<CompletionEntry>, d: &StoredDefinition, t: &String)
    ensures
        entry_views(final(out)@) == entry_views(old(out)@) + class_members(*d, t@),
{
    let ghost o0 = entry_views(out@);
    match get_class(&d.class_list, t) {
        Some(tc) => {
            push_members(out, &tc.components, false);
            let ghost o1 = entry_views(out@);
            let ns = &tc.classes;
            let mut k: usize = 0;
            while k < ns.len()
                invariant
                    k <= ns@.len(),
                    entry_views(out@) == o1 + ns@.take(k as int).map_values(|n: ClassDefinition| member_class_entry(n)),
                decreases ns.len() - k,
            {
                let n = &ns[k];
                let kind = if n.class_type == ClassType::Function {
                    CompletionKind::Function
                } else {
                    CompletionKind::Class
                };
                push_plain(out, n.name.text.as_str(), kind, format_class_type(&n.class_type));
                proof {
                    assert(ns@.take(k as int + 1).map_values(|n: ClassDefinition| member_class_entry(n)) =~= ns@.take(
                        k as int,
                    ).map_values(|n: ClassDefinition| member_class_entry(n)).push(member_class_entry(ns@[k as int])));
                }
                k = k + 1;
            }
            assert(ns@.take(k as int) =~= ns@);
        },
        None => {},
    }
    assert(entry_views(out@) =~= o0 + class_members(*d, t@));
}

/// Adds what the nested classes of `c` offer after `n.` (see `nested_members`).
fn push_nested_members(out: &mut Vec<CompletionEntry>, c: &ClassDefinition, n: &String)
    ensures
        entry_views(final(out)@) == entry_views(old(out)@) + nested_members(*c, c.classes@, n@),
{
    let ghost o0 = entry_views(out@);
    let ns = &c.classes;
    let mut i: usize = 0;
    proof {
        assert(o0 + nested_members(*c, ns@.take(0), n@) =~= o0);
    }
    while i < ns.len()
        invariant
            i <= ns@.len(),
            ns == &c.classes,
            entry_views(out@) == o0 + nested_members(*c, ns@.take(i as int), n@),
        decreases ns.len() - i,
    {
        let ghost o1 = entry_views(out@);
        match get_comp(&ns[i].components, n) {
            Some(comp) => {
                let mut tv: Vec<char> = Vec::new();
                write_name(&mut tv, &comp.type_path);
                let t = crate::text::chars_to_string(&tv);
                match get_class(&c.classes, &t) {
                    Some(tc) => push_members(out, &tc.components, true),
                    None => {},
                }
            },
            None => {},
        }
        proof {
            let t = ns@.take(i as int + 1);
            assert(t.drop_last() =~= ns@.take(i as int));
            assert(t.last() == ns@[i as int]);
            assert(entry_views(out@) =~= o0 + nested_members(*c, t, n@));
        }
        i = i + 1;
    }
    assert(ns@.take(i as int) =~= ns@);
}

/// The completions after a prefix such as `motor.` (see `member_entries`).
pub fn member_completions(ast: &StoredDefinition, prefix: &str) -> (r: Vec<CompletionEntry>)
    ensures
        entry_views(r@) == member_entries(*ast, prefix@),
{
    let mut out: Vec<CompletionEntry> = Vec::new();
    let parts = split_dots(prefix);
    if parts.len() < 2 {
        assert(entry_views(out@) =~= member_entries(*ast, prefix@));
        return out;
    }
    let n = crate::text::chars_to_string(&parts[0]);
    let cs = &ast.class_list;
    let mut i: usize = 0;
    proof {
        assert(entry_views(out@) =~= members_in(*ast, cs@.take(0), n@));
    }
    while i < cs.len()
        invariant
            i <= cs@.len(),
            cs == &ast.class_list,
            entry_views(out@) == members_in(*ast, cs@.take(i as int), n@),
        decreases cs.len() - i,
    {
        let class = &cs[i];
        let ghost o0 = entry_views(out@);
        match get_comp(&class.components, &n) {
            Some(comp) => {
                let mut tv: Vec<char> = Vec::new();
                write_name(&mut tv, &comp.type_path);
                let t = crate::text::chars_to_string(&tv);
                push_class_members(&mut out, ast, &t);
                push_type_attributes(&mut out, &t);
            },
            None => {},
        }
        push_nested_members(&mut out, class, &n);
        proof {
            let t = cs@.take(i as int + 1);
            assert(t.drop_last() =~= cs@.take(i as int));
            assert(t.last() == cs@[i as int]);
            assert(entry_views(out@) =~= members_in(*ast, t, n@));
        }
        i = i + 1;
    }
    assert(cs@.take(i as int) =~= cs@);
    out
}

} // verus!
