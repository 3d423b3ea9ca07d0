//! The outline of a document: a symbol for each class, holding its
//! components grouped by kind, its nested classes, and the numbers of its
//! equations and algorithm sections.
use vstd::prelude::*;
use crate::ast::{Causality, ClassDefinition, ClassType, Component, Variability};
use crate::code_lens::{decimal, text_lines, write_decimal};
use crate::formatter::{contains_seq, name_text, starts_with, trim_ws, write_name};
use crate::printer::{subscripts_text, write_subscripts};

verus! {

/// What a symbol stands for, as editors show it.
#[derive(Debug, Clone, Copy, PartialEq, Eq, Structural)]
pub enum OutlineKind {
    Class,
    Interface,
    Struct,
    TypeParameter,
    Namespace,
    Function,
    Constant,
    Property,
    Variable,
}

/// A range of a document: start and end line and column, counted from 0.
#[derive(Debug, Clone, Copy, PartialEq, Eq, Structural)]
pub struct OutlineRange {
    pub start_line: u32,
    pub start_col: u32,
    pub end_line: u32,
    pub end_col: u32,
}

/// A symbol of the outline.
#[derive(Debug)]
pub struct OutlineSymbol {
    pub name: String,
    pub detail: Option<String>,
    pub kind: OutlineKind,
    /// What the symbol covers.
    pub range: OutlineRange,
    /// What to highlight when it is chosen.
    pub selection_range: OutlineRange,
    /// The symbols inside it, if any.
    pub children: Option<Vec<OutlineSymbol>>,
}

/// The characters of an optional string.
pub open spec fn opt_text(o: Option<String>) -> Option<Seq<char>> {
    match o {
        Some(s) => Some(s@),
        None => None,
    }
}

/// `x - 1`, or 0 for 0.
pub open spec fn less_one(x: u32) -> u32 {
    if x == 0 {
        0
    } else {
        (x - 1) as u32
    }
}

/// The number of bytes of a character in UTF-8.
pub open spec fn char_utf8_len(c: char) -> nat {
    if (c as u32) < 0x80 {
        1
    } else if (c as u32) < 0x800 {
        2
    } else if (c as u32) < 0x10000 {
        3
    } else {
        4
    }
}

/// The number of bytes of a text in UTF-8 (what `str::len` gives).
pub open spec fn utf8_len(s: Seq<char>) -> nat
    decreases s.len(),
{
    if s.len() == 0 {
        0
    } else {
        utf8_len(s.drop_last()) + char_utf8_len(s.last())
    }
}

/// The number of bytes of a text in UTF-8.
pub fn utf8_length(s: &[char]) -> (r: u128)
    ensures
        r == utf8_len(s@),
{
    let mut n: u128 = 0;
    let mut i: usize = 0;
    while i < s.len()
        invariant
            i <= s@.len(),
            n == utf8_len(s@.take(i as int)),
            n <= 4 * i,
        decreases s.len() - i,
    {
        proof {
            assert(s@.take(i as int + 1).drop_last() =~= s@.take(i as int));
        }
        let c = s[i] as u32;
        if c < 0x80 {
            n = n + 1;
        } else if c < 0x800 {
            n = n + 2;
        } else if c < 0x10000 {
            n = n + 3;
        } else {
            n = n + 4;
        }
        i = i + 1;
    }
    assert(s@.take(s@.len() as int) =~= s@);
    n
}

/// The symbol kind of a class.
pub open spec fn class_kind(t: ClassType) -> OutlineKind {
    match t {
        ClassType::Connector => OutlineKind::Interface,
        ClassType::Record => OutlineKind::Struct,
        ClassType::Type => OutlineKind::TypeParameter,
        ClassType::Package => OutlineKind::Namespace,
        ClassType::Function => OutlineKind::Function,
        _ => OutlineKind::Class,
    }
}

/// The name of a class kind as the outline's detail shows it.
pub open spec fn class_type_text(t: ClassType) -> Seq<char> {
    match t {
        ClassType::Model => "Model"@,
        ClassType::Class => "Class"@,
        ClassType::Block => "Block"@,
        ClassType::Connector => "Connector"@,
        ClassType::Record => "Record"@,
        ClassType::Type => "Type"@,
        ClassType::Package => "Package"@,
        ClassType::Function => "Function"@,
        ClassType::Operator => "Operator"@,
    }
}

/// A line ending a class `name`: it holds `end name;`, or, trimmed, starts
/// with `end name`.
pub open spec fn ends_class(line: Seq<char>, name: Seq<char>) -> bool {
    contains_seq(line, "end "@ + name + seq![';']) || starts_with(trim_ws(line), "end "@ + name)
}

/// The first line from `i` on that ends class `name`.
pub open spec fn first_end(lines: Seq<Seq<char>>, i: int, name: Seq<char>) -> Option<int>
    decreases lines.len() - i,
{
    if i < 0 || i >= lines.len() {
        None
    } else if ends_class(lines[i], name) {
        Some(i)
    } else {
        first_end(lines, i + 1, name)
    }
}

/// The range of a class `name`: from its name to the end of the line that
/// ends it, or, where none does, to the start of its name's line.
pub open spec fn class_range(name: Seq<char>, c: ClassDefinition, text: Seq<char>) -> OutlineRange {
    let sl = less_one(c.name.location.start_line);
    let sc = less_one(c.name.location.start_column);
    let lines = text_lines(text);
    match first_end(lines, sl as int, name) {
        Some(i) => OutlineRange { start_line: sl, start_col: sc, end_line: i as u32, end_col: utf8_len(lines[i]) as u32 },
        None => OutlineRange { start_line: sl, start_col: sc, end_line: sl, end_col: 0 },
    }
}

/// The range of a class's name.
pub open spec fn class_selection(name: Seq<char>, c: ClassDefinition) -> OutlineRange {
    let sl = less_one(c.name.location.start_line);
    let sc = less_one(c.name.location.start_column);
    OutlineRange { start_line: sl, start_col: sc, end_line: sl, end_col: (sc + (utf8_len(name) as u32)) as u32 }
}

/// The group of a component: parameters and constants 0, inputs 1,
/// outputs 2, other variables 3.
pub open spec fn group_of(c: Component) -> nat {
    if c.variability is Parameter || c.variability is Constant {
        0
    } else if c.causality is Input {
        1
    } else if c.causality is Output {
        2
    } else {
        3
    }
}

/// The name of a group.
pub open spec fn group_name(g: nat) -> Seq<char> {
    if g == 0 {
        "Parameters"@
    } else if g == 1 {
        "Inputs"@
    } else if g == 2 {
        "Outputs"@
    } else {
        "Variables"@
    }
}

/// The symbol kind of a component.
pub open spec fn component_kind(c: Component) -> OutlineKind {
    let g = group_of(c);
    if g == 0 {
        OutlineKind::Constant
    } else if g == 3 {
        OutlineKind::Variable
    } else {
        OutlineKind::Property
    }
}

/// The components of a group, in order.
pub open spec fn members(cs: Seq<Component>, g: nat) -> Seq<Component>
    decreases cs.len(),
{
    if cs.len() == 0 {
        seq![]
    } else if group_of(cs.last()) == g {
        members(cs.drop_last(), g).push(cs.last())
    } else {
        members(cs.drop_last(), g)
    }
}

/// The detail of a component: its type, then its dimensions in brackets.
pub open spec fn component_detail(c: Component) -> Seq<char> {
    name_text(c.type_path) + if c.shape@.len() > 0 {
        seq!['['] + subscripts_text(c.shape@) + seq![']']
    } else {
        seq![]
    }
}

/// The line of a component: that of its type's first part, or the class's.
pub open spec fn component_line(c: Component, class_line: u32) -> u32 {
    if c.type_path.name@.len() > 0 {
        less_one(c.type_path.name@[0].location.start_line)
    } else {
        class_line
    }
}

/// The column of a component: that of its type's first part, or 0.
pub open spec fn component_col(c: Component) -> u32 {
    if c.type_path.name@.len() > 0 {
        less_one(c.type_path.name@[0].location.start_column)
    } else {
        0
    }
}

/// `s` is the outline symbol of component `c` of a class on line `class_line`.
pub open spec fn component_symbol_ok(s: OutlineSymbol, c: Component, class_line: u32) -> bool {
    let l = component_line(c, class_line);
    let col = component_col(c);
    let nb = utf8_len(c.name@) as u32;
    &&& s.name@ == c.name@
    &&& opt_text(s.detail) == Some(component_detail(c))
    &&& s.kind == component_kind(c)
    &&& s.range == OutlineRange { start_line: l, start_col: col, end_line: l, end_col: (col + nb + 20) as u32 }
    &&& s.selection_range == OutlineRange { start_line: l, start_col: col, end_line: l, end_col: (col + nb) as u32 }
    &&& s.children is None
}

/// `s` is the symbol of group `g` of class `c`: `Parameters`, ... with
/// `n items` and the symbols of its members.
pub open spec fn group_symbol_ok(s: OutlineSymbol, c: ClassDefinition, g: nat, r: OutlineRange, sel: OutlineRange) -> bool {
    let ms = members(c.components@, g);
    &&& s.name@ == group_name(g)
    &&& opt_text(s.detail) == Some(decimal(ms.len()) + " items"@)
    &&& s.kind == OutlineKind::Namespace
    &&& s.range == r
    &&& s.selection_range == sel
    &&& match s.children {
        Some(v) => v@.len() == ms.len() && forall|k: int| 0 <= k < ms.len() ==> component_symbol_ok(
            #[trigger] v@[k],
            ms[k],
            less_one(c.name.location.start_line),
        ),
        None => false,
    }
}

/// The groups of a class that have members, in order.
pub open spec fn present_groups(c: ClassDefinition) -> Seq<nat> {
    let g0 = if members(c.components@, 0).len() > 0 { seq![0nat] } else { seq![] };
    let g1 = if members(c.components@, 1).len() > 0 { seq![1nat] } else { seq![] };
    let g2 = if members(c.components@, 2).len() > 0 { seq![2nat] } else { seq![] };
    let g3 = if members(c.components@, 3).len() > 0 { seq![3nat] } else { seq![] };
    g0 + g1 + g2 + g3
}

/// The summary entries of a class: `Equations` with `n equations`, and
/// `Algorithms` with `n algorithm sections`, each where there are any.
pub open spec fn summaries(c: ClassDefinition) -> Seq<(Seq<char>, Seq<char>)> {
    let ne = c.equations@.len() + c.initial_equations@.len();
    let na = c.algorithms@.len() + c.initial_algorithms@.len();
    (if ne > 0 {
        seq![("Equations"@, decimal(ne) + " equations"@)]
    } else {
        seq![]
    }) + if na > 0 {
        seq![("Algorithms"@, decimal(na) + " algorithm sections"@)]
    } else {
        seq![]
    }
}

/// `s` is the outline symbol of class `c` named `name` in `text`: the
/// class's kind and type name, its range, and as children the groups of its
/// components, the symbols of its nested classes, and its summaries (none
/// at all where all of these are empty).
pub open spec fn class_symbol_ok(s: OutlineSymbol, name: Seq<char>, c: ClassDefinition, text: Seq<char>) -> bool
    decreases c, 0nat,
{
    let r = class_range(name, c, text);
    let sel = class_selection(name, c);
    let gs = present_groups(c);
    let ng = gs.len();
    let nc = c.classes@.len();
    let sm = summaries(c);
    &&& s.name@ == name
    &&& opt_text(s.detail) == Some(class_type_text(c.class_type))
    &&& s.kind == class_kind(c.class_type)
    &&& s.range == r
    &&& s.selection_range == sel
    &&& match s.children {
        None => ng + nc + sm.len() == 0,
        Some(v) => {
            &&& v@.len() == ng + nc + sm.len()
            &&& v@.len() > 0
            &&& forall|j: int| 0 <= j < ng ==> group_symbol_ok(#[trigger] v@[j], c, gs[j], r, sel)
            &&& classes_symbols_ok(v@.subrange(ng as int, (ng + nc) as int), c.classes@, text)
            &&& forall|j: int| 0 <= j < sm.len() ==> {
                let x = #[trigger] v@[ng + nc + j];
                &&& x.name@ == sm[j].0
                &&& opt_text(x.detail) == Some(sm[j].1)
                &&& x.kind == OutlineKind::Namespace
                &&& x.range == r
                &&& x.selection_range == sel
                &&& x.children is None
            }
        },
    }
}

/// `vs` are the outline symbols of the classes `cs`, each named by its name.
pub open spec fn classes_symbols_ok(vs: Seq<OutlineSymbol>, cs: Seq<ClassDefinition>, text: Seq<char>) -> bool
    decreases cs, 0nat,
{
    vs.len() == cs.len() && (cs.len() == 0 || (classes_symbols_ok(vs.drop_last(), cs.drop_last(), text) && class_symbol_ok(
        vs.last(),
        cs.last().name.text@,
        cs.last(),
        text,
    )))
}

/// The columns and counts of a class and of the classes nested in it fit
/// (in `u32` and `usize`).
pub open spec fn outline_fits(name: Seq<char>, c: ClassDefinition) -> bool
    decreases c, 0nat,
{
    &&& less_one(c.name.location.start_column) + utf8_len(name) <= u32::MAX
    &&& c.equations@.len() + c.initial_equations@.len() <= usize::MAX
    &&& c.algorithms@.len() + c.initial_algorithms@.len() <= usize::MAX
    &&& forall|k: int| 0 <= k < c.components@.len() ==> component_col(#[trigger] c.components@[k]) + utf8_len(
        c.components@[k].name@,
    ) + 20 <= u32::MAX
    &&& all_outline_fits(c.classes@)
}

/// Each class of a list fits (see `outline_fits`).
pub open spec fn all_outline_fits(cs: Seq<ClassDefinition>) -> bool
    decreases cs, 0nat,
{
    cs.len() == 0 || (all_outline_fits(cs.drop_last()) && outline_fits(cs.last().name.text@, cs.last()))
}

/// The lines of a text (see `text_lines`).
pub fn lines_of(text: &[char]) -> (r: Vec<Vec<char>>)
    ensures
        crate::names::views(r@) == text_lines(text@),
{
    let mut done: Vec<Vec<char>> = Vec::new();
    let mut cur: Vec<char> = Vec::new();
    let mut i: usize = 0;
    while i < text.len()
        invariant
            i <= text@.len(),
            crate::names::views(done@) == crate::code_lens::split_lines(text@.take(i as int)).0,
            cur@ == crate::code_lens::split_lines(text@.take(i as int)).1,
        decreases text.len() - i,
    {
        let ghost t = text@.take(i as int + 1);
        proof {
            assert(t.drop_last() =~= text@.take(i as int));
            assert(t.last() == text@[i as int]);
        }
        if text[i] == '\n' {
            let mut line = cur;
            if line.len() > 0 && line[line.len() - 1] == '\r' {
                line.pop();
            }
            let ghost d0 = done@;
            let ghost lv = line@;
            done.push(line);
            proof {
                assert(done@ =~= d0.push(line));
                assert(crate::names::views(done@) =~= crate::names::views(d0).push(lv));
            }
            cur = Vec::new();
            assert(cur@ =~= crate::code_lens::split_lines(t).1);
        } else {
            cur.push(text[i]);
        }
        i = i + 1;
    }
    assert(text@.take(text@.len() as int) =~= text@);
    if cur.len() > 0 {
        let ghost d0 = done@;
        let ghost cv = cur@;
        done.push(cur);
        assert(done@ =~= d0.push(cur));
        assert(crate::names::views(done@) =~= crate::names::views(d0).push(cv));
    }
    done
}

/// Whether a line ends class `name` (see `ends_class`).
fn ends_class_exec(line: &[char], name: &[char]) -> (r: bool)
    ensures
        r == ends_class(line@, name@),
{
    proof {
        reveal_strlit("end ");
    }
    let mut prefix: Vec<char> = Vec::new();
    crate::printer::append_str(&mut prefix, "end ");
    crate::printer::append_chars(&mut prefix, name);
    let mut pat: Vec<char> = Vec::new();
    crate::printer::append_chars(&mut pat, &prefix);
    pat.push(';');
    assert(pat@ =~= "end "@ + name@ + seq![';']);
    if crate::formatter::contains_chars(line, &pat) {
        return true;
    }
    let t = crate::formatter::trim_chars(line);
    crate::formatter::starts_with_chars(&t, &prefix)
}

/// The first line from `from` on that ends class `name` (see `first_end`).
fn find_end(lines: &Vec<Vec<char>>, from: usize, name: &[char]) -> (r: Option<usize>)
    ensures
        match r {
            Some(i) => first_end(crate::names::views(lines@), from as int, name@) == Some(i as int) && i < lines@.len(),
            None => first_end(crate::names::views(lines@), from as int, name@) is None,
        },
{
    let ghost ls = crate::names::views(lines@);
    let mut i = from;
    while i < lines.len()
        invariant
            from <= i,
            ls == crate::names::views(lines@),
            first_end(ls, from as int, name@) == first_end(ls, i as int, name@),
        decreases lines.len() - i,
    {
        assert(ls[i as int] == lines@[i as int]@);
        if ends_class_exec(&lines[i], name) {
            return Some(i);
        }
        i = i + 1;
    }
    None
}

/// `x - 1`, or 0 for 0.
fn less_one_exec(x: u32) -> (r: u32)
    ensures
        r == less_one(x),
{
    if x == 0 {
        0
    } else {
        x - 1
    }
}

/// The name of a class kind.
fn class_type_name(t: ClassType) -> (r: &'static str)
    ensures
        r@ == class_type_text(t),
{
    match t {
        ClassType::Model => "Model",
        ClassType::Class => "Class",
        ClassType::Block => "Block",
        ClassType::Connector => "Connector",
        ClassType::Record => "Record",
        ClassType::Type => "Type",
        ClassType::Package => "Package",
        ClassType::Function => "Function",
        ClassType::Operator => "Operator",
    }
}

/// The symbol kind of a class.
fn class_kind_exec(t: ClassType) -> (r: OutlineKind)
    ensures
        r == class_kind(t),
{
    match t {
        ClassType::Connector => OutlineKind::Interface,
        ClassType::Record => OutlineKind::Struct,
        ClassType::Type => OutlineKind::TypeParameter,
        ClassType::Package => OutlineKind::Namespace,
        ClassType::Function => OutlineKind::Function,
        _ => OutlineKind::Class,
    }
}

/// The group of a component (see `group_of`).
fn group_exec(c: &Component) -> (r: usize)
    ensures
        r == group_of(*c),
{
    match (&c.variability, &c.causality) {
        (Variability::Parameter(_), _) => 0,
        (Variability::Constant(_), _) => 0,
        (_, Causality::Input(_)) => 1,
        (_, Causality::Output(_)) => 2,
        _ => 3,
    }
}

/// The outline symbol of a component.
fn component_symbol(c: &Component, class_line: u32) -> (r: OutlineSymbol)
    requires
        component_col(*c) + utf8_len(c.name@) + 20 <= u32::MAX,
    ensures
        component_symbol_ok(r, *c, class_line),
{
    let (line, col) = if c.type_path.name.len() > 0 {
        (less_one_exec(c.type_path.name[0].location.start_line), less_one_exec(c.type_path.name[0].location.start_column))
    } else {
        (class_line, 0)
    };
    let name_chars = crate::text::str_to_chars(c.name.as_str());
    let nb = #[verifier::truncate] (utf8_length(&name_chars) as u32);
    let mut detail: Vec<char> = Vec::new();
    write_name(&mut detail, &c.type_path);
    if c.shape.len() > 0 {
        detail.push('[');
        write_subscripts(&mut detail, &c.shape);
        detail.push(']');
    }
    assert(detail@ =~= component_detail(*c));
    OutlineSymbol {
        name: c.name.clone(),
        detail: Some(crate::text::chars_to_string(&detail)),
        kind: match group_exec(c) {
            0 => OutlineKind::Constant,
            3 => OutlineKind::Variable,
            _ => OutlineKind::Property,
        },
        range: OutlineRange { start_line: line, start_col: col, end_line: line, end_col: col + nb + 20 },
        selection_range: OutlineRange { start_line: line, start_col: col, end_line: line, end_col: col + nb },
        children: None,
    }
}

/// The symbol of group `g` of a class, if the group has members.
fn group_symbol(class: &ClassDefinition, g: usize, r: OutlineRange, sel: OutlineRange) -> (s: Option<OutlineSymbol>)
    requires
        g < 4,
        forall|k: int| 0 <= k < class.components@.len() ==> component_col(#[trigger] class.components@[k]) + utf8_len(
            class.components@[k].name@,
        ) + 20 <= u32::MAX,
    ensures
        match s {
            Some(x) => members(class.components@, g as nat).len() > 0 && group_symbol_ok(x, *class, g as nat, r, sel),
            None => members(class.components@, g as nat).len() == 0,
        },
{
    proof {
        reveal_strlit(" items");
        reveal_strlit("Parameters");
        reveal_strlit("Inputs");
        reveal_strlit("Outputs");
        reveal_strlit("Variables");
    }
    let cl = less_one_exec(class.name.location.start_line);
    let mut syms: Vec<OutlineSymbol> = Vec::new();
    let ghost cs = class.components@;
    let mut k: usize = 0;
    while k < class.components.len()
        invariant
            k <= cs.len(),
            cs == class.components@,
            g < 4,
            cl == less_one(class.name.location.start_line),
            forall|q: int| 0 <= q < cs.len() ==> component_col(#[trigger] cs[q]) + utf8_len(cs[q].name@) + 20 <= u32::MAX,
            syms@.len() == members(cs.take(k as int), g as nat).len(),
            forall|q: int| 0 <= q < syms@.len() ==> component_symbol_ok(#[trigger] syms@[q], members(cs.take(k as int), g as nat)[q], cl),
        decreases cs.len() - k,
    {
        let ghost t = cs.take(k as int + 1);
        proof {
            assert(t.drop_last() =~= cs.take(k as int));
            assert(t.last() == cs[k as int]);
        }
        if group_exec(&class.components[k]) == g {
            let x = component_symbol(&class.components[k], cl);
            let ghost before = syms@;
            syms.push(x);
            proof {
                assert forall|q: int| 0 <= q < syms@.len() implies component_symbol_ok(#[trigger] syms@[q], members(t, g as nat)[q], cl) by {
                    if q < before.len() {
                        assert(syms@[q] == before[q]);
                    }
                }
            }
        }
        k = k + 1;
    }
    proof {
        assert(cs.take(cs.len() as int) =~= cs);
    }
    if syms.len() == 0 {
        return None;
    }
    let n = syms.len();
    let mut detail: Vec<char> = Vec::new();
    write_decimal(&mut detail, n);
    crate::printer::append_str(&mut detail, " items");
    let name = if g == 0 {
        "Parameters"
    } else if g == 1 {
        "Inputs"
    } else if g == 2 {
        "Outputs"
    } else {
        "Variables"
    };
    Some(OutlineSymbol {
        name: name.to_owned(),
        detail: Some(crate::text::chars_to_string(&detail)),
        kind: OutlineKind::Namespace,
        range: r,
        selection_range: sel,
        children: Some(syms),
    })
}

proof fn lemma_all_fits_prefix(cs: Seq<ClassDefinition>, k: int)
    requires
        0 <= k <= cs.len(),
        all_outline_fits(cs),
    ensures
        all_outline_fits(cs.take(k)),
        k < cs.len() ==> outline_fits(cs[k].name.text@, cs[k]),
    decreases cs.len() - k,
{
    if k < cs.len() {
        if k + 1 < cs.len() {
            lemma_all_fits_prefix(cs, k + 1);
        } else {
            assert(cs.take(k + 1) =~= cs);
        }
        assert(cs.take(k + 1).drop_last() =~= cs.take(k));
        assert(cs.take(k + 1).last() == cs[k]);
    } else {
        assert(cs.take(k) =~= cs);
    }
}

/// Builds the outline symbol of a class (see `class_symbol_ok`).
pub fn build_class_symbol(name: &str, class: &ClassDefinition, text: &str) -> (r: Option<OutlineSymbol>)
    requires
        outline_fits(name@, *class),
    ensures
        r matches Some(s) && class_symbol_ok(s, name@, *class, text@),
    decreases class, 1nat,
{
    proof {
        reveal_strlit("Equations");
        reveal_strlit(" equations");
        reveal_strlit("Algorithms");
        reveal_strlit(" algorithm sections");
    }
    let name_c = crate::text::str_to_chars(name);
    let text_c = crate::text::str_to_chars(text);
    let lines = lines_of(&text_c);
    let sl = less_one_exec(class.name.location.start_line);
    let sc = less_one_exec(class.name.location.start_column);
    let (end_line, end_col) = match find_end(&lines, sl as usize, &name_c) {
        Some(i) => {
            let n = utf8_length(&lines[i]);
            proof {
                assert(crate::names::views(lines@)[i as int] == lines@[i as int]@);
            }
            (#[verifier::truncate] (i as u32), #[verifier::truncate] (n as u32))
        },
        None => (sl, 0),
    };
    let range = OutlineRange { start_line: sl, start_col: sc, end_line, end_col };
    let nb = #[verifier::truncate] (utf8_length(&name_c) as u32);
    let selection = OutlineRange { start_line: sl, start_col: sc, end_line: sl, end_col: sc + nb };
    assert(range == class_range(name@, *class, text@));
    assert(selection == class_selection(name@, *class));
    let ghost gs = present_groups(*class);
    let mut children: Vec<OutlineSymbol> = Vec::new();
    let ghost mut present: Seq<nat> = seq![];
    let mut g: usize = 0;
    while g < 4
        invariant
            g <= 4,
            forall|k: int| 0 <= k < class.components@.len() ==> component_col(#[trigger] class.components@[k]) + utf8_len(
                class.components@[k].name@,
            ) + 20 <= u32::MAX,
            children@.len() == present.len(),
            present == present_groups_below(*class, g as nat),
            forall|j: int| 0 <= j < children@.len() ==> group_symbol_ok(#[trigger] children@[j], *class, present[j], range, selection),
        decreases 4 - g,
    {
        match group_symbol(class, g, range, selection) {
            Some(x) => {
                let ghost before = children@;
                children.push(x);
                proof {
                    present = present.push(g as nat);
                    assert forall|j: int| 0 <= j < children@.len() implies group_symbol_ok(#[trigger] children@[j], *class, present[j], range, selection) by {
                        if j < before.len() {
                            assert(children@[j] == before[j]);
                        }
                    }
                }
            },
            None => {},
        }
        g = g + 1;
    }
    proof {
        reveal_with_fuel(present_groups_below, 5);
        assert(present =~= gs);
    }
    let ng = children.len();
    let ghost nc = class.classes@.len();
    let mut j: usize = 0;
    while j < class.classes.len()
        invariant
            j <= class.classes@.len(),
            ng == gs.len(),
            ng <= children@.len(),
            children@.len() == ng + j,
            all_outline_fits(class.classes@),
            forall|q: int| 0 <= q < ng ==> group_symbol_ok(#[trigger] children@[q], *class, gs[q], range, selection),
            classes_symbols_ok(children@.subrange(ng as int, ng + j), class.classes@.take(j as int), text@),
        decreases class.classes.len() - j,
    {
        proof {
            assert(decreases_to!(class => class.classes@[j as int]));
            lemma_all_fits_prefix(class.classes@, j as int);
        }
        let nested = &class.classes[j];
        let sym = build_class_symbol(nested.name.text.as_str(), nested, text);
        let ghost before = children@;
        match sym {
            Some(x) => {
                children.push(x);
                proof {
                    let t = class.classes@.take(j as int + 1);
                    assert(t.drop_last() =~= class.classes@.take(j as int));
                    assert(t.last() == class.classes@[j as int]);
                    let sub = children@.subrange(ng as int, ng + j + 1);
                    assert(sub.drop_last() =~= before.subrange(ng as int, ng + j));
                    assert(sub.last() == x);
                    assert forall|q: int| 0 <= q < ng implies group_symbol_ok(#[trigger] children@[q], *class, gs[q], range, selection) by {
                        assert(children@[q] == before[q]);
                    }
                }
            },
            None => {
                proof {
                    assert(false);
                }
            },
        }
        j = j + 1;
    }
    proof {
        assert(class.classes@.take(class.classes@.len() as int) =~= class.classes@);
    }
    let ghost base = children@;
    let ne = class.equations.len() + class.initial_equations.len();
    if ne > 0 {
        let mut d: Vec<char> = Vec::new();
        write_decimal(&mut d, ne);
        crate::printer::append_str(&mut d, " equations");
        children.push(OutlineSymbol {
            name: "Equations".to_owned(),
            detail: Some(crate::text::chars_to_string(&d)),
            kind: OutlineKind::Namespace,
            range,
            selection_range: selection,
            children: None,
        });
    }
    let na = class.algorithms.len() + class.initial_algorithms.len();
    if na > 0 {
        let mut d: Vec<char> = Vec::new();
        write_decimal(&mut d, na);
        crate::printer::append_str(&mut d, " algorithm sections");
        children.push(OutlineSymbol {
            name: "Algorithms".to_owned(),
            detail: Some(crate::text::chars_to_string(&d)),
            kind: OutlineKind::Namespace,
            range,
            selection_range: selection,
            children: None,
        });
    }
    proof {
        let sm = summaries(*class);
        assert(children@.len() == base.len() + sm.len());
        assert forall|q: int| 0 <= q < base.len() implies children@[q] == base[q] by {}
        assert(children@.subrange(ng as int, ng + nc) =~= base.subrange(ng as int, ng + nc));
    }
    let kind = class_kind_exec(class.class_type);
    let detail = class_type_name(class.class_type).to_owned();
    let kids = if children.len() == 0 {
        None
    } else {
        Some(children)
    };
    Some(OutlineSymbol { name: name.to_owned(), detail: Some(detail), kind, range, selection_range: selection, children: kids })
}

/// The groups below `g` that have members, in order.
pub open spec fn present_groups_below(c: ClassDefinition, g: nat) -> Seq<nat>
    decreases g,
{
    if g == 0 {
        seq![]
    } else {
        let rest = present_groups_below(c, (g - 1) as nat);
        if members(c.components@, (g - 1) as nat).len() > 0 {
            rest.push((g - 1) as nat)
        } else {
            rest
        }
    }
}

} // verus!
