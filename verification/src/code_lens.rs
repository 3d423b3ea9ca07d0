//! Code lenses: the short notes an editor shows above each class (its
//! numbers of components and equations, what it extends, how often it is
//! referenced, a function's numbers of inputs and outputs).
use vstd::prelude::*;
use crate::ast::{Causality, ClassDefinition, ClassType, Component, Extend, StoredDefinition};
use crate::formatter::{contains_seq, name_text, write_name};

verus! {

// ---------------------------------------------------------------------------
// Numbers as text
// ---------------------------------------------------------------------------

/// The decimal digit of `d` (below ten).
pub open spec fn digit_char(d: nat) -> char {
    if d == 0 {
        '0'
    } else if d == 1 {
        '1'
    } else if d == 2 {
        '2'
    } else if d == 3 {
        '3'
    } else if d == 4 {
        '4'
    } else if d == 5 {
        '5'
    } else if d == 6 {
        '6'
    } else if d == 7 {
        '7'
    } else if d == 8 {
        '8'
    } else {
        '9'
    }
}

/// `n` in decimal, without leading zeros.
pub open spec fn decimal(n: nat) -> Seq<char>
    decreases n,
{
    if n < 10 {
        seq![digit_char(n)]
    } else {
        decimal(n / 10).push(digit_char(n % 10))
    }
}

fn digit_exec(d: usize) -> (r: char)
    requires
        d < 10,
    ensures
        r == digit_char(d as nat),
{
    if d == 0 {
        '0'
    } else if d == 1 {
        '1'
    } else if d == 2 {
        '2'
    } else if d == 3 {
        '3'
    } else if d == 4 {
        '4'
    } else if d == 5 {
        '5'
    } else if d == 6 {
        '6'
    } else if d == 7 {
        '7'
    } else if d == 8 {
        '8'
    } else {
        '9'
    }
}

/// Appends `n` in decimal.
pub fn write_decimal(out: &mut Vec<char>, n: usize)
    ensures
        final(out)@ == old(out)@ + decimal(n as nat),
    decreases n,
{
    if n < 10 {
        out.push(digit_exec(n));
        assert(final(out)@ =~= old(out)@ + decimal(n as nat));
    } else {
        write_decimal(out, n / 10);
        out.push(digit_exec(n % 10));
        assert(final(out)@ =~= old(out)@ + decimal(n as nat));
    }
}

/// `n word`, with an `s` unless `n` is one: `1 component`, `2 components`.
pub open spec fn counted(n: nat, word: Seq<char>) -> Seq<char> {
    decimal(n) + seq![' '] + word + if n == 1 {
        seq![]
    } else {
        seq!['s']
    }
}

/// Appends `n word` with its plural `s`.
fn write_counted(out: &mut Vec<char>, n: usize, word: &str)
    ensures
        final(out)@ == old(out)@ + counted(n as nat, word@),
{
    write_decimal(out, n);
    out.push(' ');
    crate::printer::append_str(out, word);
    if n != 1 {
        out.push('s');
    }
    assert(final(out)@ =~= old(out)@ + counted(n as nat, word@));
}

// ---------------------------------------------------------------------------
// References in the syntax tree
// ---------------------------------------------------------------------------

/// How many components have the type `name`.
pub open spec fn component_refs(name: Seq<char>, cs: Seq<Component>) -> nat
    decreases cs.len(),
{
    if cs.len() == 0 {
        0
    } else {
        component_refs(name, cs.drop_last()) + if name_text(cs.last().type_path) == name {
            1nat
        } else {
            0nat
        }
    }
}

/// How many `extends` clauses name `name`.
pub open spec fn extends_refs(name: Seq<char>, es: Seq<Extend>) -> nat
    decreases es.len(),
{
    if es.len() == 0 {
        0
    } else {
        extends_refs(name, es.drop_last()) + if name_text(es.last().comp) == name {
            1nat
        } else {
            0nat
        }
    }
}

/// References to `name` in a class and the classes nested in it: the
/// components of that type and the `extends` clauses naming it.
pub open spec fn class_refs(name: Seq<char>, c: ClassDefinition) -> nat
    decreases c, 0nat,
{
    component_refs(name, c.components@) + extends_refs(name, c.extends@) + classes_refs(name, c.classes@)
}

/// References to `name` in a list of classes.
pub open spec fn classes_refs(name: Seq<char>, cs: Seq<ClassDefinition>) -> nat
    decreases cs, 0nat,
{
    if cs.len() == 0 {
        0
    } else {
        classes_refs(name, cs.drop_last()) + class_refs(name, cs.last())
    }
}

/// Whether two strings are equal as character sequences.
fn same_text(a: &[char], b: &[char]) -> (r: bool)
    ensures
        r == (a@ == b@),
{
    crate::lexer::chars_equal(a, b)
}

/// The text of a dotted name.
fn name_chars(n: &crate::ast::Name) -> (r: Vec<char>)
    ensures
        r@ == name_text(*n),
{
    let mut out: Vec<char> = Vec::new();
    write_name(&mut out, n);
    assert(out@ =~= name_text(*n));
    out
}

/// Counts the references to `name` in a class and the classes nested in it.
pub fn count_references_in_class(name: &[char], class: &ClassDefinition) -> (r: usize)
    requires
        class_refs(name@, *class) <= usize::MAX,
    ensures
        r == class_refs(name@, *class),
    decreases class, 1nat,
{
    let mut count: usize = 0;
    let mut i: usize = 0;
    while i < class.components.len()
        invariant
            i <= class.components@.len(),
            count == component_refs(name@, class.components@.take(i as int)),
            class_refs(name@, *class) <= usize::MAX,
        decreases class.components.len() - i,
    {
        proof {
            let t = class.components@.take(i as int + 1);
            assert(t.drop_last() =~= class.components@.take(i as int));
            lemma_component_refs_prefix(name@, class.components@, i as int + 1);
        }
        if same_text(&name_chars(&class.components[i].type_path), name) {
            count = count + 1;
        }
        i = i + 1;
    }
    proof {
        assert(class.components@.take(class.components@.len() as int) =~= class.components@);
    }
    let mut k: usize = 0;
    while k < class.extends.len()
        invariant
            k <= class.extends@.len(),
            count == component_refs(name@, class.components@) + extends_refs(name@, class.extends@.take(k as int)),
            class_refs(name@, *class) <= usize::MAX,
        decreases class.extends.len() - k,
    {
        proof {
            let t = class.extends@.take(k as int + 1);
            assert(t.drop_last() =~= class.extends@.take(k as int));
            lemma_extends_refs_prefix(name@, class.extends@, k as int + 1);
        }
        if same_text(&name_chars(&class.extends[k].comp), name) {
            count = count + 1;
        }
        k = k + 1;
    }
    proof {
        assert(class.extends@.take(class.extends@.len() as int) =~= class.extends@);
    }
    let mut j: usize = 0;
    while j < class.classes.len()
        invariant
            j <= class.classes@.len(),
            count == component_refs(name@, class.components@) + extends_refs(name@, class.extends@) + classes_refs(
                name@,
                class.classes@.take(j as int),
            ),
            class_refs(name@, *class) <= usize::MAX,
        decreases class.classes.len() - j,
    {
        proof {
            assert(decreases_to!(class => class.classes@[j as int]));
            let t = class.classes@.take(j as int + 1);
            assert(t.drop_last() =~= class.classes@.take(j as int));
            assert(t.last() == class.classes@[j as int]);
            lemma_classes_refs_prefix(name@, class.classes@, j as int + 1);
        }
        let c = count_references_in_class(name, &class.classes[j]);
        count = count + c;
        j = j + 1;
    }
    proof {
        assert(class.classes@.take(class.classes@.len() as int) =~= class.classes@);
    }
    count
}

proof fn lemma_component_refs_prefix(name: Seq<char>, cs: Seq<Component>, k: int)
    requires
        0 <= k <= cs.len(),
    ensures
        component_refs(name, cs.take(k)) <= component_refs(name, cs),
    decreases cs.len() - k,
{
    if k < cs.len() {
        lemma_component_refs_prefix(name, cs, k + 1);
        assert(cs.take(k + 1).drop_last() =~= cs.take(k));
    } else {
        assert(cs.take(k) =~= cs);
    }
}

proof fn lemma_extends_refs_prefix(name: Seq<char>, es: Seq<Extend>, k: int)
    requires
        0 <= k <= es.len(),
    ensures
        extends_refs(name, es.take(k)) <= extends_refs(name, es),
    decreases es.len() - k,
{
    if k < es.len() {
        lemma_extends_refs_prefix(name, es, k + 1);
        assert(es.take(k + 1).drop_last() =~= es.take(k));
    } else {
        assert(es.take(k) =~= es);
    }
}

proof fn lemma_classes_refs_prefix(name: Seq<char>, cs: Seq<ClassDefinition>, k: int)
    requires
        0 <= k <= cs.len(),
    ensures
        classes_refs(name, cs.take(k)) <= classes_refs(name, cs),
    decreases cs.len() - k,
{
    if k < cs.len() {
        lemma_classes_refs_prefix(name, cs, k + 1);
        assert(cs.take(k + 1).drop_last() =~= cs.take(k));
    } else {
        assert(cs.take(k) =~= cs);
    }
}

// ---------------------------------------------------------------------------
// References in the text
// ---------------------------------------------------------------------------

/// What `char::is_alphanumeric` says of `c` (Unicode letters and numbers).
pub uninterp spec fn is_alphanumeric_char(c: char) -> bool;

/// Whether `c` is a letter or a number: std's `char::is_alphanumeric`,
/// whose answer, a function of `c` alone, is given the name
/// `is_alphanumeric_char` (Unicode's Alphabetic and Numeric properties).
#[verifier::external_body]
pub(crate) fn alphanumeric(c: char) -> (r: bool)
    ensures
        r == is_alphanumeric_char(c),
{
    c.is_alphanumeric()
}

/// A line without the `\r` of a `\r\n` ending.
pub open spec fn strip_cr(l: Seq<char>) -> Seq<char> {
    if l.len() > 0 && l.last() == '\r' {
        l.drop_last()
    } else {
        l
    }
}

/// The lines ended by `\n` so far, and the unfinished line.
pub open spec fn split_lines(t: Seq<char>) -> (Seq<Seq<char>>, Seq<char>)
    decreases t.len(),
{
    if t.len() == 0 {
        (seq![], seq![])
    } else {
        let (done, cur) = split_lines(t.drop_last());
        if t.last() == '\n' {
            (done.push(strip_cr(cur)), seq![])
        } else {
            (done, cur.push(t.last()))
        }
    }
}

/// The lines of a text as `str::lines` gives them: split at `\n`, a
/// `\r` before it dropped, and no empty line after a final `\n`.
pub open spec fn text_lines(t: Seq<char>) -> Seq<Seq<char>> {
    let (done, cur) = split_lines(t);
    if cur.len() > 0 {
        done.push(cur)
    } else {
        done
    }
}

/// The class keywords a line defining `name` would show.
pub open spec fn definition_keywords() -> Seq<Seq<char>> {
    seq!["model"@, "class"@, "function"@, "record"@, "connector"@, "block"@, "type"@, "package"@]
}

/// A line defining `name`: it holds `kw name` for a class keyword `kw`.
pub open spec fn defines_name(line: Seq<char>, name: Seq<char>) -> bool {
    exists|k: int| 0 <= k < definition_keywords().len() && contains_seq(line, #[trigger] definition_keywords()[k] + seq![' '] + name)
}

/// `name` stands at position `p` of `line` as a whole word: not preceded or
/// followed by a letter or number. (For an empty `name`, only positions
/// before the end count, or position 0 of an empty line.)
pub open spec fn word_at(line: Seq<char>, name: Seq<char>, p: int) -> bool {
    &&& 0 <= p
    &&& p + name.len() <= line.len()
    &&& (p < line.len() || p == 0)
    &&& line.subrange(p, p + name.len()) == name
    &&& (p == 0 || !is_alphanumeric_char(line[p - 1]))
    &&& (p + name.len() >= line.len() || !is_alphanumeric_char(line[p + name.len()]))
}

/// How many positions below `k` hold `name` as a whole word.
pub open spec fn words_below(line: Seq<char>, name: Seq<char>, k: int) -> nat
    decreases k,
{
    if k <= 0 {
        0
    } else {
        words_below(line, name, k - 1) + if word_at(line, name, k - 1) {
            1nat
        } else {
            0nat
        }
    }
}

/// References to `name` on a line: none on a line defining it, else its
/// whole-word occurrences.
pub open spec fn line_refs(line: Seq<char>, name: Seq<char>) -> nat {
    if defines_name(line, name) {
        0
    } else {
        words_below(line, name, line.len() + 1int)
    }
}

/// References to `name` on the lines.
pub open spec fn lines_refs(lines: Seq<Seq<char>>, name: Seq<char>) -> nat
    decreases lines.len(),
{
    if lines.len() == 0 {
        0
    } else {
        lines_refs(lines.drop_last(), name) + line_refs(lines.last(), name)
    }
}

/// References to `name` in a document: in its syntax tree, and on its
/// lines (see `line_refs`).
pub open spec fn reference_count(name: Seq<char>, text: Seq<char>, ast: StoredDefinition) -> nat {
    classes_refs(name, ast.class_list@) + lines_refs(text_lines(text), name)
}

/// Whether `line` defines `name` (see `defines_name`).
fn defines(line: &[char], name: &[char]) -> (r: bool)
    ensures
        r == defines_name(line@, name@),
{
    let kws: [&str; 8] = ["model", "class", "function", "record", "connector", "block", "type", "package"];
    proof {
        reveal_strlit("model");
        reveal_strlit("class");
        reveal_strlit("function");
        reveal_strlit("record");
        reveal_strlit("connector");
        reveal_strlit("block");
        reveal_strlit("type");
        reveal_strlit("package");
        assert(kws@.map_values(|k: &str| k@) =~= definition_keywords());
    }
    let mut k: usize = 0;
    while k < 8
        invariant
            k <= 8,
            kws@.map_values(|x: &str| x@) == definition_keywords(),
            forall|q: int| 0 <= q < k ==> !contains_seq(line@, #[trigger] definition_keywords()[q] + seq![' '] + name@),
        decreases 8 - k,
    {
        let mut pat: Vec<char> = Vec::new();
        crate::printer::append_str(&mut pat, kws[k]);
        pat.push(' ');
        crate::printer::append_chars(&mut pat, name);
        proof {
            assert(kws@.map_values(|x: &str| x@)[k as int] == kws@[k as int]@);
            assert(pat@ =~= definition_keywords()[k as int] + seq![' '] + name@);
        }
        if crate::formatter::contains_chars(line, &pat) {
            return true;
        }
        k = k + 1;
    }
    false
}

/// Whether `name` stands at position `p` of `line` as a whole word.
fn word_at_exec(line: &[char], name: &[char], p: usize) -> (r: bool)
    requires
        p <= line@.len(),
    ensures
        r == word_at(line@, name@, p as int),
{
    if name.len() > line.len() - p {
        return false;
    }
    if !(p < line.len() || p == 0) {
        return false;
    }
    let piece = crate::lexer::slice_chars(line, p, p + name.len());
    if !same_text(&piece, name) {
        return false;
    }
    let before_ok = p == 0 || !alphanumeric(line[p - 1]);
    let after_ok = p + name.len() >= line.len() || !alphanumeric(line[p + name.len()]);
    before_ok && after_ok
}

/// References to `name` on one line (see `line_refs`).
fn count_line(line: &[char], name: &[char]) -> (r: usize)
    ensures
        r == line_refs(line@, name@),
{
    if defines(line, name) {
        return 0;
    }
    let mut count: usize = 0;
    let mut p: usize = 0;
    while p <= line.len()
        invariant
            p <= line@.len() + 1,
            !defines_name(line@, name@),
            count == words_below(line@, name@, p as int),
            count <= p,
        decreases line.len() + 1 - p,
    {
        if word_at_exec(line, name, p) {
            count = count + 1;
        }
        assert(count == words_below(line@, name@, p as int + 1));
        if p == line.len() {
            assert(!defines_name(line@, name@));
            assert(line_refs(line@, name@) == words_below(line@, name@, line@.len() + 1int));
            return count;
        }
        p = p + 1;
    }
    count
}

/// References to `name` on the lines of `text`.
fn count_text(text: &[char], name: &[char]) -> (r: usize)
    requires
        lines_refs(text_lines(text@), name@) <= usize::MAX,
    ensures
        r == lines_refs(text_lines(text@), name@),
{
    let mut total: usize = 0;
    let mut cur: Vec<char> = Vec::new();
    let mut i: usize = 0;
    while i < text.len()
        invariant
            i <= text@.len(),
            lines_refs(text_lines(text@), name@) <= usize::MAX,
            total == lines_refs(split_lines(text@.take(i as int)).0, name@),
            cur@ == split_lines(text@.take(i as int)).1,
            lines_refs(split_lines(text@.take(i as int)).0, name@) <= lines_refs(text_lines(text@), name@),
        decreases text.len() - i,
    {
        let ghost t = text@.take(i as int + 1);
        proof {
            assert(t.drop_last() =~= text@.take(i as int));
            assert(t.last() == text@[i as int]);
            lemma_split_lines_grow(text@, i as int + 1, name@);
        }
        if text[i] == '\n' {
            let mut line = cur;
            if line.len() > 0 && line[line.len() - 1] == '\r' {
                line.pop();
            }
            proof {
                assert(line@ == strip_cr(split_lines(text@.take(i as int)).1));
                let done0 = split_lines(text@.take(i as int)).0;
                assert(split_lines(t).0 == done0.push(line@));
                assert(split_lines(t).0.drop_last() =~= done0);
            }
            let c = count_line(&line, name);
            total = total + c;
            cur = Vec::new();
            assert(cur@ =~= split_lines(t).1);
        } else {
            cur.push(text[i]);
        }
        i = i + 1;
    }
    proof {
        assert(text@.take(text@.len() as int) =~= text@);
    }
    if cur.len() > 0 {
        let c = count_line(&cur, name);
        proof {
            let done = split_lines(text@).0;
            assert(text_lines(text@) == done.push(cur@));
            assert(done.push(cur@).drop_last() =~= done);
        }
        total = total + c;
    }
    total
}

/// The lines finished after `k` characters contribute at most what all
/// the lines do.
proof fn lemma_split_lines_grow(t: Seq<char>, k: int, name: Seq<char>)
    requires
        0 <= k <= t.len(),
    ensures
        lines_refs(split_lines(t.take(k)).0, name) <= lines_refs(text_lines(t), name),
    decreases t.len() - k,
{
    if k == t.len() {
        assert(t.take(k) =~= t);
        let (done, cur) = split_lines(t);
        if cur.len() > 0 {
            assert(done.push(cur).drop_last() =~= done);
        }
    } else {
        lemma_split_lines_grow(t, k + 1, name);
        let t1 = t.take(k + 1);
        assert(t1.drop_last() =~= t.take(k));
        let (done, cur) = split_lines(t.take(k));
        if t1.last() == '\n' {
            assert(done.push(strip_cr(cur)).drop_last() =~= done);
        }
    }
}

/// Counts the references to `name` in a document (see `reference_count`).
pub fn count_references(name: &str, text: &str, ast: &StoredDefinition) -> (r: usize)
    requires
        reference_count(name@, text@, *ast) <= usize::MAX,
    ensures
        r == reference_count(name@, text@, *ast),
{
    let name_c = crate::text::str_to_chars(name);
    let text_c = crate::text::str_to_chars(text);
    let mut count: usize = 0;
    let mut i: usize = 0;
    while i < ast.class_list.len()
        invariant
            i <= ast.class_list@.len(),
            name_c@ == name@,
            reference_count(name@, text@, *ast) <= usize::MAX,
            count == classes_refs(name@, ast.class_list@.take(i as int)),
        decreases ast.class_list.len() - i,
    {
        proof {
            let t = ast.class_list@.take(i as int + 1);
            assert(t.drop_last() =~= ast.class_list@.take(i as int));
            assert(t.last() == ast.class_list@[i as int]);
            lemma_classes_refs_prefix(name@, ast.class_list@, i as int + 1);
        }
        let c = count_references_in_class(&name_c, &ast.class_list[i]);
        count = count + c;
        i = i + 1;
    }
    proof {
        assert(ast.class_list@.take(ast.class_list@.len() as int) =~= ast.class_list@);
    }
    let t = count_text(&text_c, &name_c);
    count + t
}

// ---------------------------------------------------------------------------
// Lenses
// ---------------------------------------------------------------------------

/// A note shown at the start of a class's line: its text, and the editor
/// command it runs (empty for none).
pub struct ClassLens {
    /// The line, counted from 0.
    pub line: u32,
    /// The text shown.
    pub title: String,
    /// The command run on a click, or empty.
    pub command: String,
}

/// A lens as plain values.
pub open spec fn lens_view(l: ClassLens) -> (u32, Seq<char>, Seq<char>) {
    (l.line, l.title@, l.command@)
}

/// Lenses as plain values.
pub open spec fn lens_views(ls: Seq<ClassLens>) -> Seq<(u32, Seq<char>, Seq<char>)> {
    ls.map_values(|l: ClassLens| lens_view(l))
}

/// The line of a class's name, counted from 0.
pub open spec fn class_line(c: ClassDefinition) -> u32 {
    if c.name.location.start_line == 0 {
        0
    } else {
        (c.name.location.start_line - 1) as u32
    }
}

/// The names extended, joined by `, `.
pub open spec fn extends_list(es: Seq<Extend>) -> Seq<char>
    decreases es.len(),
{
    if es.len() == 0 {
        seq![]
    } else if es.len() == 1 {
        name_text(es[0].comp)
    } else {
        extends_list(es.drop_last()) + seq![',', ' '] + name_text(es.last().comp)
    }
}

/// How many components are inputs (`input`) or outputs (`!input`).
pub open spec fn causality_count(cs: Seq<Component>, input: bool) -> nat
    decreases cs.len(),
{
    if cs.len() == 0 {
        0
    } else {
        causality_count(cs.drop_last(), input) + if (input && cs.last().causality is Input) || (!input
            && cs.last().causality is Output) {
            1nat
        } else {
            0nat
        }
    }
}

/// For a model, block or class with components or equations:
/// `c components, e equations`.
pub open spec fn size_lens(c: ClassDefinition) -> Seq<(u32, Seq<char>, Seq<char>)> {
    let comps = c.components@.len();
    let eqs = c.equations@.len() + c.initial_equations@.len();
    if (c.class_type == ClassType::Model || c.class_type == ClassType::Block || c.class_type == ClassType::Class) && (comps
        > 0 || eqs > 0) {
        seq![(class_line(c), counted(comps, "component"@) + seq![',', ' '] + counted(eqs, "equation"@), Seq::<char>::empty())]
    } else {
        seq![]
    }
}

/// For a class that extends others: `extends A, B`.
pub open spec fn extends_lens(c: ClassDefinition) -> Seq<(u32, Seq<char>, Seq<char>)> {
    if c.extends@.len() > 0 {
        seq![(class_line(c), "extends "@ + extends_list(c.extends@), Seq::<char>::empty())]
    } else {
        seq![]
    }
}

/// For a referenced class: `n references`, running the editor's search.
pub open spec fn references_lens(c: ClassDefinition, text: Seq<char>, ast: StoredDefinition) -> Seq<(u32, Seq<char>, Seq<char>)> {
    let refs = reference_count(c.name.text@, text, ast);
    if refs > 0 {
        seq![(class_line(c), counted(refs, "reference"@), "editor.action.findReferences"@)]
    } else {
        seq![]
    }
}

/// For a function: `i inputs, o outputs`.
pub open spec fn function_lens(c: ClassDefinition) -> Seq<(u32, Seq<char>, Seq<char>)> {
    if c.class_type == ClassType::Function {
        seq![(
            class_line(c),
            counted(causality_count(c.components@, true), "input"@) + seq![',', ' '] + counted(
                causality_count(c.components@, false),
                "output"@,
            ),
            Seq::<char>::empty(),
        )]
    } else {
        seq![]
    }
}

/// The lenses of a class itself, in this order: its size, what it extends,
/// its references, and a function's inputs and outputs.
pub open spec fn own_lenses(c: ClassDefinition, text: Seq<char>, ast: StoredDefinition) -> Seq<(u32, Seq<char>, Seq<char>)> {
    size_lens(c) + extends_lens(c) + references_lens(c, text, ast) + function_lens(c)
}

/// The lenses of a class and, after them, of the classes nested in it.
pub open spec fn class_lenses(c: ClassDefinition, text: Seq<char>, ast: StoredDefinition) -> Seq<(u32, Seq<char>, Seq<char>)>
    decreases c, 0nat,
{
    own_lenses(c, text, ast) + classes_lenses(c.classes@, text, ast)
}

/// The lenses of a list of classes.
pub open spec fn classes_lenses(cs: Seq<ClassDefinition>, text: Seq<char>, ast: StoredDefinition) -> Seq<(u32, Seq<char>, Seq<char>)>
    decreases cs, 0nat,
{
    if cs.len() == 0 {
        seq![]
    } else {
        classes_lenses(cs.drop_last(), text, ast) + class_lenses(cs.last(), text, ast)
    }
}

/// The counts of a class and of the classes nested in it fit in a `usize`.
pub open spec fn lens_counts_fit(c: ClassDefinition, text: Seq<char>, ast: StoredDefinition) -> bool
    decreases c, 0nat,
{
    &&& c.equations@.len() + c.initial_equations@.len() <= usize::MAX
    &&& reference_count(c.name.text@, text, ast) <= usize::MAX
    &&& all_lens_counts_fit(c.classes@, text, ast)
}

/// The counts of each class of a list fit in a `usize`.
pub open spec fn all_lens_counts_fit(cs: Seq<ClassDefinition>, text: Seq<char>, ast: StoredDefinition) -> bool
    decreases cs, 0nat,
{
    cs.len() == 0 || (all_lens_counts_fit(cs.drop_last(), text, ast) && lens_counts_fit(cs.last(), text, ast))
}

proof fn lemma_all_fit_prefix(cs: Seq<ClassDefinition>, text: Seq<char>, ast: StoredDefinition, k: int)
    requires
        0 <= k <= cs.len(),
        all_lens_counts_fit(cs, text, ast),
    ensures
        all_lens_counts_fit(cs.take(k), text, ast),
        k < cs.len() ==> lens_counts_fit(cs[k], text, ast),
    decreases cs.len() - k,
{
    if k < cs.len() {
        if k + 1 < cs.len() {
            lemma_all_fit_prefix(cs, text, ast, k + 1);
        } else {
            assert(cs.take(k + 1) =~= cs);
        }
        assert(cs.take(k + 1).drop_last() =~= cs.take(k));
        assert(cs.take(k + 1).last() == cs[k]);
    } else {
        assert(cs.take(k) =~= cs);
    }
}

/// A string from characters.
fn string_of(v: &Vec<char>) -> (r: String)
    ensures
        r@ == v@,
{
    crate::text::chars_to_string(v)
}

/// Appends the lenses of a class itself (see `own_lenses`).
fn push_own_lenses(class: &ClassDefinition, text: &str, ast: &StoredDefinition, lenses: &mut Vec<ClassLens>)
    requires
        class.equations@.len() + class.initial_equations@.len() <= usize::MAX,
        reference_count(class.name.text@, text@, *ast) <= usize::MAX,
    ensures
        lens_views(final(lenses)@) == lens_views(old(lenses)@) + own_lenses(*class, text@, *ast),
{
    let ghost start = lens_views(lenses@);
    let line = if class.name.location.start_line == 0 {
        0
    } else {
        class.name.location.start_line - 1
    };
    proof {
        reveal_strlit("component");
        reveal_strlit("equation");
        reveal_strlit("extends ");
        reveal_strlit("reference");
        reveal_strlit("editor.action.findReferences");
        reveal_strlit("input");
        reveal_strlit("output");
    }
    let comps = class.components.len();
    let eqs = class.equations.len() + class.initial_equations.len();
    let mut added: Vec<ClassLens> = Vec::new();
    if (class.class_type == ClassType::Model || class.class_type == ClassType::Block || class.class_type
        == ClassType::Class) && (comps > 0 || eqs > 0) {
        let mut t: Vec<char> = Vec::new();
        write_counted(&mut t, comps, "component");
        let ghost t1 = t@;
        t.push(',');
        t.push(' ');
        let ghost t2 = t@;
        write_counted(&mut t, eqs, "equation");
        assert(t2 =~= t1 + seq![',', ' ']);
        assert(t@ =~= counted(comps as nat, "component"@) + seq![',', ' '] + counted(eqs as nat, "equation"@));
        let title = string_of(&t);
        let command = String::new();
        let ghost before = added@;
        let lens = ClassLens { line, title, command };
        added.push(lens);
        assert(lens_view(lens) == (class_line(*class), counted(comps as nat, "component"@) + seq![',', ' '] + counted(eqs as nat, "equation"@), Seq::<char>::empty()));
        assert(lens_views(added@) =~= lens_views(before).push(lens_view(lens)));
    }
    assert(line == class_line(*class));
    assert(lens_views(added@) =~= size_lens(*class));
    if class.extends.len() > 0 {
        let mut t: Vec<char> = Vec::new();
        crate::printer::append_str(&mut t, "extends ");
        let ghost t0 = t@;
        let mut k: usize = 0;
        while k < class.extends.len()
            invariant
                k <= class.extends@.len(),
                t@ == t0 + extends_list(class.extends@.take(k as int)),
            decreases class.extends.len() - k,
        {
            if k > 0 {
                t.push(',');
                t.push(' ');
            }
            write_name(&mut t, &class.extends[k].comp);
            proof {
                let tk = class.extends@.take(k as int + 1);
                assert(tk.drop_last() =~= class.extends@.take(k as int));
                assert(tk.last() == class.extends@[k as int]);
                assert(t@ =~= t0 + extends_list(tk));
            }
            k = k + 1;
        }
        proof {
            assert(class.extends@.take(class.extends@.len() as int) =~= class.extends@);
        }
        added.push(ClassLens { line, title: string_of(&t), command: String::new() });
    }
    assert(lens_views(added@) =~= size_lens(*class) + extends_lens(*class));
    let refs = count_references(class.name.text.as_str(), text, ast);
    if refs > 0 {
        let mut t: Vec<char> = Vec::new();
        write_counted(&mut t, refs, "reference");
        added.push(ClassLens { line, title: string_of(&t), command: "editor.action.findReferences".to_owned() });
    }
    assert(lens_views(added@) =~= size_lens(*class) + extends_lens(*class) + references_lens(*class, text@, *ast));
    if class.class_type == ClassType::Function {
        let mut inputs: usize = 0;
        let mut outputs: usize = 0;
        let mut k: usize = 0;
        while k < class.components.len()
            invariant
                k <= class.components@.len(),
                inputs == causality_count(class.components@.take(k as int), true),
                outputs == causality_count(class.components@.take(k as int), false),
                inputs <= k,
                outputs <= k,
            decreases class.components.len() - k,
        {
            proof {
                let tk = class.components@.take(k as int + 1);
                assert(tk.drop_last() =~= class.components@.take(k as int));
                assert(tk.last() == class.components@[k as int]);
            }
            match class.components[k].causality {
                Causality::Input(_) => {
                    inputs = inputs + 1;
                },
                Causality::Output(_) => {
                    outputs = outputs + 1;
                },
                _ => {},
            }
            k = k + 1;
        }
        proof {
            assert(class.components@.take(class.components@.len() as int) =~= class.components@);
        }
        let mut t: Vec<char> = Vec::new();
        write_counted(&mut t, inputs, "input");
        let ghost t1 = t@;
        t.push(',');
        t.push(' ');
        let ghost t2 = t@;
        write_counted(&mut t, outputs, "output");
        assert(t2 =~= t1 + seq![',', ' ']);
        assert(t@ =~= counted(inputs as nat, "input"@) + seq![',', ' '] + counted(outputs as nat, "output"@));
        added.push(ClassLens { line, title: string_of(&t), command: String::new() });
    }
    proof {
        assert(lens_views(added@) =~= own_lenses(*class, text@, *ast));
    }
    let mut q: usize = 0;
    while q < added.len()
        invariant
            q <= added@.len(),
            lens_views(lenses@) == start + lens_views(added@.take(q as int)),
        decreases added.len() - q,
    {
        let l = ClassLens { line: added[q].line, title: added[q].title.clone(), command: added[q].command.clone() };
        let ghost before = lenses@;
        lenses.push(l);
        proof {
            assert(lenses@ =~= before.push(l));
            assert(lens_views(added@.take(q as int + 1)) =~= lens_views(added@.take(q as int)).push(lens_view(added@[q as int])));
            assert(lens_views(lenses@) =~= lens_views(before).push(lens_view(l)));
        }
        q = q + 1;
    }
    proof {
        assert(added@.take(added@.len() as int) =~= added@);
    }
}

/// Collects the lenses of a class and of the classes nested in it (see
/// `class_lenses`).
pub fn collect_class_lenses(class: &ClassDefinition, text: &str, ast: &StoredDefinition, lenses: &mut Vec<ClassLens>)
    requires
        lens_counts_fit(*class, text@, *ast),
    ensures
        lens_views(final(lenses)@) == lens_views(old(lenses)@) + class_lenses(*class, text@, *ast),
    decreases class, 1nat,
{
    let ghost start = lens_views(lenses@);
    push_own_lenses(class, text, ast, lenses);
    let ghost mid = lens_views(lenses@);
    let mut j: usize = 0;
    while j < class.classes.len()
        invariant
            j <= class.classes@.len(),
            all_lens_counts_fit(class.classes@, text@, *ast),
            lens_views(lenses@) == mid + classes_lenses(class.classes@.take(j as int), text@, *ast),
        decreases class.classes.len() - j,
    {
        proof {
            assert(decreases_to!(class => class.classes@[j as int]));
            let t = class.classes@.take(j as int + 1);
            assert(t.drop_last() =~= class.classes@.take(j as int));
            assert(t.last() == class.classes@[j as int]);
            lemma_all_fit_prefix(class.classes@, text@, *ast, j as int);
        }
        collect_class_lenses(&class.classes[j], text, ast, lenses);
        proof {
            assert(lens_views(lenses@) =~= mid + classes_lenses(class.classes@.take(j as int + 1), text@, *ast));
        }
        j = j + 1;
    }
    proof {
        assert(class.classes@.take(class.classes@.len() as int) =~= class.classes@);
        assert(lens_views(lenses@) =~= start + class_lenses(*class, text@, *ast));
    }
}

} // verus!
