//! Scope resolution in one document: which class holds a position, and what
//! a name there stands for (a component, declared or inherited, or a class).
use vstd::prelude::*;
use crate::ast::{ClassDefinition, Component, Location, StoredDefinition};
use crate::formatter::{name_text, write_name};
use crate::names::views;

verus! {

// ---------------------------------------------------------------------------
// The model
// ---------------------------------------------------------------------------

/// Whether a position (line and column, from 1) lies within a location.
pub open spec fn in_location(loc: Location, line: u32, col: u32) -> bool {
    &&& loc.start_line <= line <= loc.end_line
    &&& !(line == loc.start_line && col < loc.start_column)
    &&& !(line == loc.end_line && col > loc.end_column)
}

/// The classes a position is looked up in, in order: each top-level class,
/// followed by the classes directly nested in it.
pub open spec fn candidates(cs: Seq<ClassDefinition>) -> Seq<ClassDefinition>
    decreases cs.len(),
{
    if cs.len() == 0 {
        seq![]
    } else {
        candidates(cs.drop_last()) + seq![cs.last()] + cs.last().classes@
    }
}

/// Of the candidates that hold the position, the first of those that start
/// on the latest line (after line 0), with the line it starts on.
pub open spec fn innermost(cands: Seq<ClassDefinition>, line: u32, col: u32) -> (Option<ClassDefinition>, u32)
    decreases cands.len(),
{
    if cands.len() == 0 {
        (None, 0)
    } else {
        let (b, s) = innermost(cands.drop_last(), line, col);
        let c = cands.last();
        if in_location(c.location, line, col) && c.location.start_line > s {
            (Some(c), c.location.start_line)
        } else {
            (b, s)
        }
    }
}

/// The class holding a position in a document (see `innermost`).
pub open spec fn class_at_spec(d: StoredDefinition, line: u32, col: u32) -> Option<ClassDefinition> {
    innermost(candidates(d.class_list@), line, col).0
}

/// The first class named `n`.
pub open spec fn find_named(cs: Seq<ClassDefinition>, n: Seq<char>) -> Option<ClassDefinition>
    decreases cs.len(),
{
    if cs.len() == 0 {
        None
    } else {
        match find_named(cs.drop_last(), n) {
            Some(c) => Some(c),
            None => if cs.last().name.text@ == n {
                Some(cs.last())
            } else {
                None
            },
        }
    }
}

/// The first component named `n`.
pub open spec fn find_comp(cs: Seq<Component>, n: Seq<char>) -> Option<Component>
    decreases cs.len(),
{
    if cs.len() == 0 {
        None
    } else {
        match find_comp(cs.drop_last(), n) {
            Some(c) => Some(c),
            None => if cs.last().name@ == n {
                Some(cs.last())
            } else {
                None
            },
        }
    }
}

/// The class named `n` directly nested in the first top-level class that
/// has one.
pub open spec fn nested_named(cs: Seq<ClassDefinition>, n: Seq<char>) -> Option<ClassDefinition>
    decreases cs.len(),
{
    if cs.len() == 0 {
        None
    } else {
        match nested_named(cs.drop_last(), n) {
            Some(c) => Some(c),
            None => find_named(cs.last().classes@, n),
        }
    }
}

/// The pieces of a text between its dots, as `split('.')` gives them.
pub open spec fn dot_split(s: Seq<char>) -> Seq<Seq<char>>
    decreases s.len(),
{
    if s.len() == 0 {
        seq![seq![]]
    } else {
        let rest = dot_split(s.drop_last());
        if s.last() == '.' {
            rest.push(seq![])
        } else {
            rest.update(rest.len() - 1, rest.last().push(s.last()))
        }
    }
}

/// The class reached from `c` by following nested classes named by `parts`.
pub open spec fn path_lookup(c: ClassDefinition, parts: Seq<Seq<char>>) -> Option<ClassDefinition>
    decreases parts.len(),
{
    if parts.len() == 0 {
        Some(c)
    } else {
        match find_named(c.classes@, parts[0]) {
            Some(n) => path_lookup(n, parts.drop_first()),
            None => None,
        }
    }
}

/// The class a name denotes in a document: a simple name is a top-level
/// class, else a class nested in a top-level class; a dotted name is a path
/// from a top-level class through nested classes.
pub open spec fn local_class(d: StoredDefinition, n: Seq<char>) -> Option<ClassDefinition> {
    let parts = dot_split(n);
    if parts.len() == 1 {
        match find_named(d.class_list@, n) {
            Some(c) => Some(c),
            None => nested_named(d.class_list@, n),
        }
    } else {
        match find_named(d.class_list@, parts[0]) {
            Some(c) => path_lookup(c, parts.drop_first()),
            None => None,
        }
    }
}

/// A component found through `extends`: the component, the class declaring
/// it, and the name of the base class as written in the `extends` clause.
pub type Inherited = (Component, ClassDefinition, Seq<char>);

/// The component named `n` that `c` inherits, searching its `extends` clauses
/// in order, each base class's own components before its bases; at most
/// `fuel` levels deep.
pub open spec fn inherited(d: StoredDefinition, c: ClassDefinition, n: Seq<char>, fuel: nat) -> Option<Inherited>
    decreases fuel, c.extends@.len() + 1,
{
    if fuel == 0 {
        None
    } else {
        inherited_via(d, c, c.extends@.len() as int, n, fuel)
    }
}

/// `inherited`, over the first `k` `extends` clauses of `c`.
pub open spec fn inherited_via(d: StoredDefinition, c: ClassDefinition, k: int, n: Seq<char>, fuel: nat) -> Option<Inherited>
    decreases fuel, if k < 0 { 0 } else { k },
{
    if k <= 0 || fuel == 0 || k > c.extends@.len() {
        None
    } else {
        match inherited_via(d, c, k - 1, n, fuel) {
            Some(r) => Some(r),
            None => {
                let base_name = name_text(c.extends@[k - 1].comp);
                match local_class(d, base_name) {
                    Some(b) => match find_comp(b.components@, n) {
                        Some(comp) => Some((comp, b, base_name)),
                        None => inherited(d, b, n, (fuel - 1) as nat),
                    },
                    None => None,
                }
            },
        }
    }
}

/// How many classes a document holds, nested ones included.
pub open spec fn class_count(cs: Seq<ClassDefinition>) -> nat
    decreases cs,
{
    if cs.len() == 0 {
        0
    } else {
        class_count(cs.drop_last()) + 1 + class_count(cs.last().classes@)
    }
}

/// How deep `resolve` follows `extends`: the number of classes in the
/// document, at most `u64::MAX`.
pub open spec fn search_depth(d: StoredDefinition) -> nat {
    if class_count(d.class_list@) <= u64::MAX {
        class_count(d.class_list@)
    } else {
        u64::MAX as nat
    }
}

/// What a name resolves to, as plain values.
pub enum Resolution {
    Comp(Component, ClassDefinition, Option<Seq<char>>),
    Class(ClassDefinition),
}

/// What a name resolves to at a position: in the class holding it, a
/// component it declares, else one it inherits, else a class nested in it;
/// else a top-level class of that name.
pub open spec fn resolve_spec(d: StoredDefinition, n: Seq<char>, line: u32, col: u32) -> Option<Resolution> {
    let top = match find_named(d.class_list@, n) {
        Some(c) => Some(Resolution::Class(c)),
        None => None,
    };
    match class_at_spec(d, line, col) {
        Some(c) => match find_comp(c.components@, n) {
            Some(comp) => Some(Resolution::Comp(comp, c, None)),
            None => match inherited(d, c, n, search_depth(d)) {
                Some((comp, b, bn)) => Some(Resolution::Comp(comp, b, Some(bn))),
                None => match find_named(c.classes@, n) {
                    Some(nc) => Some(Resolution::Class(nc)),
                    None => top,
                },
            },
        },
        None => top,
    }
}

/// A resolved symbol as plain values.
pub open spec fn resolution(r: ResolvedSymbol) -> Resolution {
    match r {
        ResolvedSymbol::Component { component, defined_in, inherited_via } => Resolution::Comp(
            *component,
            *defined_in,
            match inherited_via {
                Some(s) => Some(s@),
                None => None,
            },
        ),
        ResolvedSymbol::Class(c) => Resolution::Class(*c),
    }
}

/// Resolved symbols as plain values.
pub open spec fn resolutions(rs: Seq<ResolvedSymbol>) -> Seq<Resolution> {
    rs.map_values(|r: ResolvedSymbol| resolution(r))
}

/// Whether some component is named `n`.
pub open spec fn has_comp(cs: Seq<Component>, n: Seq<char>) -> bool {
    exists|i: int| 0 <= i < cs.len() && #[trigger] cs[i].name@ == n
}

/// The components of `b` not overridden in `c`, each as inherited through `bn`.
pub open spec fn not_overridden(c: ClassDefinition, b: ClassDefinition, bn: Seq<char>, k: int) -> Seq<Resolution>
    decreases k,
{
    if k <= 0 || k > b.components@.len() {
        seq![]
    } else {
        not_overridden(c, b, bn, k - 1) + if has_comp(c.components@, b.components@[k - 1].name@) {
            seq![]
        } else {
            seq![Resolution::Comp(b.components@[k - 1], b, Some(bn))]
        }
    }
}

/// What the first `k` `extends` clauses of `c` make visible: for each whose
/// base is a top-level class, its components that `c` does not override.
pub open spec fn visible_inherited(d: StoredDefinition, c: ClassDefinition, k: int) -> Seq<Resolution>
    decreases k,
{
    if k <= 0 || k > c.extends@.len() {
        seq![]
    } else {
        let bn = name_text(c.extends@[k - 1].comp);
        visible_inherited(d, c, k - 1) + match find_named(d.class_list@, bn) {
            Some(b) => not_overridden(c, b, bn, b.components@.len() as int),
            None => seq![],
        }
    }
}

/// The components declared in `c`, in order.
pub open spec fn declared(c: ClassDefinition) -> Seq<Resolution> {
    c.components@.map_values(|x: Component| Resolution::Comp(x, c, None))
}

/// The components visible at a position: those the class holding it
/// declares, then those it inherits (see `visible_inherited`).
pub open spec fn visible_spec(d: StoredDefinition, line: u32, col: u32) -> Seq<Resolution> {
    match class_at_spec(d, line, col) {
        Some(c) => declared(c) + visible_inherited(d, c, c.extends@.len() as int),
        None => seq![],
    }
}

/// The class a dotted name denotes as a path from a top-level class; none
/// for a name without a dot.
pub open spec fn qualified_spec(d: StoredDefinition, q: Seq<char>) -> Option<Resolution> {
    let parts = dot_split(q);
    if parts.len() >= 2 {
        match find_named(d.class_list@, parts[0]) {
            Some(o) => match path_lookup(o, parts.drop_first()) {
                Some(c) => Some(Resolution::Class(c)),
                None => None,
            },
            None => None,
        }
    } else {
        None
    }
}

// ---------------------------------------------------------------------------
// The resolver
// ---------------------------------------------------------------------------

/// What a name resolves to.
pub enum ResolvedSymbol<'a> {
    /// A component, with the class that declares it and, where it is
    /// inherited, the name of the base class it comes through.
    Component { component: &'a Component, defined_in: &'a ClassDefinition, inherited_via: Option<String> },
    /// A class.
    Class(&'a ClassDefinition),
}

/// Resolves names in one document.
pub struct ScopeResolver<'a> {
    ast: &'a StoredDefinition,
}

/// Whether a position (from 1) lies within a location.
fn position_in_location(loc: &Location, line: u32, col: u32) -> (r: bool)
    ensures
        r == in_location(*loc, line, col),
{
    if line < loc.start_line || line > loc.end_line {
        return false;
    }
    if line == loc.start_line && col < loc.start_column {
        return false;
    }
    if line == loc.end_line && col > loc.end_column {
        return false;
    }
    true
}

/// The first class of `cs` named `n`.
pub(crate) fn get_class<'b>(cs: &'b Vec<ClassDefinition>, n: &String) -> (r: Option<&'b ClassDefinition>)
    ensures
        match r {
            Some(c) => find_named(cs@, n@) == Some(*c),
            None => find_named(cs@, n@) is None,
        },
{
    let mut i: usize = 0;
    while i < cs.len()
        invariant
            i <= cs@.len(),
            find_named(cs@.take(i as int), n@) is None,
        decreases cs.len() - i,
    {
        proof {
            let t = cs@.take(i as int + 1);
            assert(t.drop_last() =~= cs@.take(i as int));
        }
        if cs[i].name.text == *n {
            proof {
                lemma_find_named_prefix(cs@, n@, i as int + 1);
            }
            return Some(&cs[i]);
        }
        i = i + 1;
    }
    assert(cs@.take(i as int) =~= cs@);
    None
}

proof fn lemma_find_named_prefix(cs: Seq<ClassDefinition>, n: Seq<char>, k: int)
    requires
        0 <= k <= cs.len(),
        find_named(cs.take(k), n) is Some,
    ensures
        find_named(cs, n) == find_named(cs.take(k), n),
    decreases cs.len(),
{
    if k < cs.len() {
        assert(cs.drop_last().take(k) =~= cs.take(k));
        lemma_find_named_prefix(cs.drop_last(), n, k);
    } else {
        assert(cs.take(k) =~= cs);
    }
}

/// The first component of `cs` named `n`.
pub(crate) fn get_comp<'b>(cs: &'b Vec<Component>, n: &String) -> (r: Option<&'b Component>)
    ensures
        match r {
            Some(c) => find_comp(cs@, n@) == Some(*c),
            None => find_comp(cs@, n@) is None,
        },
{
    let mut i: usize = 0;
    while i < cs.len()
        invariant
            i <= cs@.len(),
            find_comp(cs@.take(i as int), n@) is None,
        decreases cs.len() - i,
    {
        proof {
            let t = cs@.take(i as int + 1);
            assert(t.drop_last() =~= cs@.take(i as int));
        }
        if cs[i].name == *n {
            proof {
                lemma_find_comp_prefix(cs@, n@, i as int + 1);
            }
            return Some(&cs[i]);
        }
        i = i + 1;
    }
    assert(cs@.take(i as int) =~= cs@);
    None
}

proof fn lemma_find_comp_prefix(cs: Seq<Component>, n: Seq<char>, k: int)
    requires
        0 <= k <= cs.len(),
        find_comp(cs.take(k), n) is Some,
    ensures
        find_comp(cs, n) == find_comp(cs.take(k), n),
    decreases cs.len(),
{
    if k < cs.len() {
        assert(cs.drop_last().take(k) =~= cs.take(k));
        lemma_find_comp_prefix(cs.drop_last(), n, k);
    } else {
        assert(cs.take(k) =~= cs);
    }
}

/// The pieces of a text between its dots (see `dot_split`).
pub(crate) fn split_dots(s: &str) -> (r: Vec<Vec<char>>)
    ensures
        views(r@) == dot_split(s@),
{
    let cs = crate::text::str_to_chars(s);
    let mut done: Vec<Vec<char>> = Vec::new();
    let mut cur: Vec<char> = Vec::new();
    let mut i: usize = 0;
    proof {
        assert(cs@.take(0) =~= Seq::<char>::empty());
        assert(views(done@).push(cur@) =~= dot_split(cs@.take(0)));
    }
    while i < cs.len()
        invariant
            i <= cs@.len(),
            views(done@).push(cur@) == dot_split(cs@.take(i as int)),
        decreases cs.len() - i,
    {
        let ghost before = dot_split(cs@.take(i as int));
        proof {
            assert(cs@.take(i as int + 1).drop_last() =~= cs@.take(i as int));
            assert(cs@.take(i as int + 1).last() == cs@[i as int]);
        }
        if cs[i] == '.' {
            let piece = cur;
            done.push(piece);
            cur = Vec::new();
            proof {
                assert(views(done@).push(cur@) =~= before.push(seq![]));
            }
        } else {
            cur.push(cs[i]);
            proof {
                assert(views(done@).push(cur@) =~= before.update(before.len() - 1, before.last().push(cs@[i as int])));
            }
        }
        i = i + 1;
    }
    assert(cs@.take(i as int) =~= cs@);
    done.push(cur);
    proof {
        assert(views(done@) =~= dot_split(cs@));
    }
    done
}

/// The class named `n` directly nested in the first top-level class that has one.
pub(crate) fn get_nested<'b>(cs: &'b Vec<ClassDefinition>, n: &String) -> (r: Option<&'b ClassDefinition>)
    ensures
        match r {
            Some(c) => nested_named(cs@, n@) == Some(*c),
            None => nested_named(cs@, n@) is None,
        },
{
    let mut i: usize = 0;
    while i < cs.len()
        invariant
            i <= cs@.len(),
            nested_named(cs@.take(i as int), n@) is None,
        decreases cs.len() - i,
    {
        proof {
            let t = cs@.take(i as int + 1);
            assert(t.drop_last() =~= cs@.take(i as int));
        }
        match get_class(&cs[i].classes, n) {
            Some(c) => {
                proof {
                    lemma_nested_named_prefix(cs@, n@, i as int + 1);
                }
                return Some(c);
            },
            None => {},
        }
        i = i + 1;
    }
    assert(cs@.take(i as int) =~= cs@);
    None
}

proof fn lemma_nested_named_prefix(cs: Seq<ClassDefinition>, n: Seq<char>, k: int)
    requires
        0 <= k <= cs.len(),
        nested_named(cs.take(k), n) is Some,
    ensures
        nested_named(cs, n) == nested_named(cs.take(k), n),
    decreases cs.len(),
{
    if k < cs.len() {
        assert(cs.drop_last().take(k) =~= cs.take(k));
        lemma_nested_named_prefix(cs.drop_last(), n, k);
    } else {
        assert(cs.take(k) =~= cs);
    }
}

/// Follows nested classes from `c` by the pieces of `parts` from `start` on.
fn walk_path<'b>(c: &'b ClassDefinition, parts: &Vec<Vec<char>>, start: usize) -> (r: Option<&'b ClassDefinition>)
    requires
        start <= parts@.len(),
    ensures
        match r {
            Some(x) => path_lookup(*c, views(parts@).subrange(start as int, parts@.len() as int)) == Some(*x),
            None => path_lookup(*c, views(parts@).subrange(start as int, parts@.len() as int)) is None,
        },
{
    let ghost p = views(parts@);
    let mut cur: &'b ClassDefinition = c;
    let mut k: usize = start;
    while k < parts.len()
        invariant
            start <= k <= parts@.len(),
            p == views(parts@),
            path_lookup(*c, p.subrange(start as int, p.len() as int)) == path_lookup(*cur, p.subrange(k as int, p.len() as int)),
        decreases parts.len() - k,
    {
        let piece = crate::text::chars_to_string(&parts[k]);
        let ghost rest = p.subrange(k as int, p.len() as int);
        proof {
            assert(rest[0] == p[k as int]);
            assert(rest.drop_first() =~= p.subrange(k as int + 1, p.len() as int));
        }
        match get_class(&cur.classes, &piece) {
            Some(nc) => {
                cur = nc;
            },
            None => {
                return None;
            },
        }
        k = k + 1;
    }
    assert(p.subrange(k as int, p.len() as int) =~= Seq::<Seq<char>>::empty());
    Some(cur)
}

/// The class a name denotes in a document (see `local_class`).
fn find_class_locally<'b>(ast: &'b StoredDefinition, name: &String) -> (r: Option<&'b ClassDefinition>)
    ensures
        match r {
            Some(c) => local_class(*ast, name@) == Some(*c),
            None => local_class(*ast, name@) is None,
        },
{
    let parts = split_dots(name.as_str());
    proof {
        lemma_dot_split_len(name@);
    }
    if parts.len() == 1 {
        match get_class(&ast.class_list, name) {
            Some(c) => return Some(c),
            None => {},
        }
        return get_nested(&ast.class_list, name);
    }
    let first = crate::text::chars_to_string(&parts[0]);
    match get_class(&ast.class_list, &first) {
        Some(c) => {
            proof {
                assert(views(parts@).subrange(1, parts@.len() as int) =~= dot_split(name@).drop_first());
            }
            walk_path(c, &parts, 1)
        },
        None => None,
    }
}

proof fn lemma_dot_split_len(s: Seq<char>)
    ensures
        dot_split(s).len() >= 1,
    decreases s.len(),
{
    if s.len() > 0 {
        lemma_dot_split_len(s.drop_last());
    }
}

/// How many classes `cs` holds, nested ones included, at most `u64::MAX`.
fn count_classes(cs: &Vec<ClassDefinition>) -> (r: u64)
    ensures
        r == (if class_count(cs@) <= u64::MAX { class_count(cs@) } else { u64::MAX as nat }),
    decreases cs,
{
    let mut total: u64 = 0;
    let mut i: usize = 0;
    while i < cs.len()
        invariant
            i <= cs@.len(),
            total == (if class_count(cs@.take(i as int)) <= u64::MAX { class_count(cs@.take(i as int)) } else { u64::MAX as nat }),
        decreases cs.len() - i,
    {
        proof {
            let t = cs@.take(i as int + 1);
            assert(t.drop_last() =~= cs@.take(i as int));
            assert(t.last() == cs@[i as int]);
            assert(decreases_to!(cs => cs@[i as int]));
            assert(decreases_to!(cs@[i as int] => cs@[i as int].classes));
        }
        let inner = count_classes(&cs[i].classes);
        total = total.saturating_add(1);
        total = total.saturating_add(inner);
        i = i + 1;
    }
    assert(cs@.take(i as int) =~= cs@);
    total
}

proof fn lemma_inherited_via_prefix(d: StoredDefinition, c: ClassDefinition, k: int, j: int, n: Seq<char>, fuel: nat)
    requires
        0 <= k <= j <= c.extends@.len(),
        fuel > 0,
        inherited_via(d, c, k, n, fuel) is Some,
    ensures
        inherited_via(d, c, j, n, fuel) == inherited_via(d, c, k, n, fuel),
    decreases j - k,
{
    if j > k {
        lemma_inherited_via_prefix(d, c, k, j - 1, n, fuel);
    }
}

/// The component named `name` that `c` inherits (see `inherited`).
fn find_inherited<'b>(ast: &'b StoredDefinition, c: &'b ClassDefinition, name: &String, fuel: u64) -> (r: Option<(&'b Component, &'b ClassDefinition, String)>)
    ensures
        match r {
            Some((comp, b, bn)) => inherited(*ast, *c, name@, fuel as nat) == Some((*comp, *b, bn@)),
            None => inherited(*ast, *c, name@, fuel as nat) is None,
        },
    decreases fuel,
{
    if fuel == 0 {
        return None;
    }
    let mut i: usize = 0;
    while i < c.extends.len()
        invariant
            i <= c.extends@.len(),
            fuel > 0,
            inherited_via(*ast, *c, i as int, name@, fuel as nat) is None,
        decreases c.extends.len() - i,
    {
        let mut bn: Vec<char> = Vec::new();
        write_name(&mut bn, &c.extends[i].comp);
        let base_name = crate::text::chars_to_string(&bn);
        match find_class_locally(ast, &base_name) {
            Some(b) => {
                match get_comp(&b.components, name) {
                    Some(comp) => {
                        proof {
                            lemma_inherited_via_prefix(*ast, *c, i as int + 1, c.extends@.len() as int, name@, fuel as nat);
                        }
                        return Some((comp, b, base_name));
                    },
                    None => {
                        let deeper = find_inherited(ast, b, name, fuel - 1);
                        if deeper.is_some() {
                            proof {
                                lemma_inherited_via_prefix(*ast, *c, i as int + 1, c.extends@.len() as int, name@, fuel as nat);
                            }
                            return deeper;
                        }
                    },
                }
            },
            None => {},
        }
        i = i + 1;
    }
    None
}

impl<'a> ScopeResolver<'a> {
    /// The document it resolves in.
    pub closed spec fn doc(&self) -> StoredDefinition {
        *self.ast
    }

    /// A resolver for one document.
    pub fn new(ast: &'a StoredDefinition) -> (r: Self)
        ensures
            r.doc() == *ast,
    {
        ScopeResolver { ast }
    }

    /// The `within` prefix of the document, if it has one.
    pub fn within_prefix(&self) -> (r: Option<String>)
        ensures
            match r {
                Some(s) => self.doc().within matches Some(w) && s@ == name_text(w),
                None => self.doc().within is None,
            },
    {
        match &self.ast.within {
            Some(w) => {
                let mut v: Vec<char> = Vec::new();
                write_name(&mut v, w);
                Some(crate::text::chars_to_string(&v))
            },
            None => None,
        }
    }

    /// The class holding a position (line and column from 1): of the
    /// top-level classes and the classes directly nested in them, the first
    /// of those that hold it and start on the latest line.
    pub fn class_at(&self, line: u32, col: u32) -> (r: Option<&'a ClassDefinition>)
        ensures
            match r {
                Some(c) => class_at_spec(self.doc(), line, col) == Some(*c),
                None => class_at_spec(self.doc(), line, col) is None,
            },
    {
        let cs = &self.ast.class_list;
        let mut best: Option<&'a ClassDefinition> = None;
        let mut best_start: u32 = 0;
        let ghost mut seen: Seq<ClassDefinition> = seq![];
        let mut i: usize = 0;
        while i < cs.len()
            invariant
                i <= cs@.len(),
                cs == &self.ast.class_list,
                seen == candidates(cs@.take(i as int)),
                innermost(seen, line, col).1 == best_start,
                match best {
                    Some(b) => innermost(seen, line, col).0 == Some(*b),
                    None => innermost(seen, line, col).0 is None,
                },
            decreases cs.len() - i,
        {
            let class = &cs[i];
            proof {
                assert(seen.push(*class).drop_last() =~= seen);
                seen = seen.push(*class);
            }
            if position_in_location(&class.location, line, col) && class.location.start_line > best_start {
                best_start = class.location.start_line;
                best = Some(class);
            }
            let ns = &class.classes;
            let ghost base = seen;
            let mut j: usize = 0;
            while j < ns.len()
                invariant
                    j <= ns@.len(),
                    seen == base + ns@.take(j as int),
                    innermost(seen, line, col).1 == best_start,
                    match best {
                        Some(b) => innermost(seen, line, col).0 == Some(*b),
                        None => innermost(seen, line, col).0 is None,
                    },
                decreases ns.len() - j,
            {
                let nested = &ns[j];
                proof {
                    assert(seen.push(*nested).drop_last() =~= seen);
                    assert(base + ns@.take(j as int + 1) =~= seen.push(*nested));
                    seen = seen.push(*nested);
                }
                if position_in_location(&nested.location, line, col) && nested.location.start_line > best_start {
                    best_start = nested.location.start_line;
                    best = Some(nested);
                }
                j = j + 1;
            }
            proof {
                let t = cs@.take(i as int + 1);
                assert(t.drop_last() =~= cs@.take(i as int));
                assert(t.last() == cs@[i as int]);
                assert(ns@.take(j as int) =~= ns@);
                assert(seen =~= candidates(t));
            }
            i = i + 1;
        }
        proof {
            assert(cs@.take(i as int) =~= cs@);
        }
        best
    }

    /// `class_at` for a position counted from 0.
    pub fn class_at_0indexed(&self, line: u32, col: u32) -> (r: Option<&'a ClassDefinition>)
        requires
            line < u32::MAX,
            col < u32::MAX,
        ensures
            match r {
                Some(c) => class_at_spec(self.doc(), (line + 1) as u32, (col + 1) as u32) == Some(*c),
                None => class_at_spec(self.doc(), (line + 1) as u32, (col + 1) as u32) is None,
            },
    {
        self.class_at(line + 1, col + 1)
    }

    /// What a name stands for at a position (line and column from 1); see
    /// `resolve_spec`.
    pub fn resolve(&self, name: &str, line: u32, col: u32) -> (r: Option<ResolvedSymbol<'a>>)
        ensures
            match r {
                Some(x) => resolve_spec(self.doc(), name@, line, col) == Some(resolution(x)),
                None => resolve_spec(self.doc(), name@, line, col) is None,
            },
    {
        let n = name.to_owned();
        match self.class_at(line, col) {
            Some(class) => {
                match get_comp(&class.components, &n) {
                    Some(component) => {
                        return Some(ResolvedSymbol::Component { component, defined_in: class, inherited_via: None });
                    },
                    None => {},
                }
                let fuel = count_classes(&self.ast.class_list);
                match find_inherited(self.ast, class, &n, fuel) {
                    Some((component, base, base_name)) => {
                        return Some(
                            ResolvedSymbol::Component { component, defined_in: base, inherited_via: Some(base_name) },
                        );
                    },
                    None => {},
                }
                match get_class(&class.classes, &n) {
                    Some(nested) => {
                        return Some(ResolvedSymbol::Class(nested));
                    },
                    None => {},
                }
            },
            None => {},
        }
        match get_class(&self.ast.class_list, &n) {
            Some(c) => Some(ResolvedSymbol::Class(c)),
            None => None,
        }
    }

    /// `resolve` for a position counted from 0.
    pub fn resolve_0indexed(&self, name: &str, line: u32, col: u32) -> (r: Option<ResolvedSymbol<'a>>)
        requires
            line < u32::MAX,
            col < u32::MAX,
        ensures
            match r {
                Some(x) => resolve_spec(self.doc(), name@, (line + 1) as u32, (col + 1) as u32) == Some(resolution(x)),
                None => resolve_spec(self.doc(), name@, (line + 1) as u32, (col + 1) as u32) is None,
            },
    {
        self.resolve(name, line + 1, col + 1)
    }

    /// The components visible at a position (see `visible_spec`).
    pub fn visible_components(&self, line: u32, col: u32) -> (r: Vec<ResolvedSymbol<'a>>)
        ensures
            resolutions(r@) == visible_spec(self.doc(), line, col),
    {
        let mut result: Vec<ResolvedSymbol<'a>> = Vec::new();
        match self.class_at(line, col) {
            Some(class) => {
                let cs = &class.components;
                let mut i: usize = 0;
                while i < cs.len()
                    invariant
                        i <= cs@.len(),
                        cs == &class.components,
                        result@.len() == i,
                        resolutions(result@) == declared(*class).take(i as int),
                    decreases cs.len() - i,
                {
                    let ghost before = resolutions(result@);
                    result.push(ResolvedSymbol::Component { component: &cs[i], defined_in: class, inherited_via: None });
                    proof {
                        assert(resolution(result@[i as int]) == Resolution::Comp(cs@[i as int], *class, None));
                        assert(resolutions(result@) =~= before.push(resolution(result@[i as int])));
                        assert(declared(*class)[i as int] == Resolution::Comp(cs@[i as int], *class, None));
                        assert(resolutions(result@) =~= declared(*class).take(i as int + 1));
                    }
                    i = i + 1;
                }
                proof {
                    assert(declared(*class).take(i as int) =~= declared(*class));
                }
                let ghost r1 = resolutions(result@);
                let es = &class.extends;
                let mut k: usize = 0;
                while k < es.len()
                    invariant
                        k <= es@.len(),
                        es == &class.extends,
                        resolutions(result@) == r1 + visible_inherited(self.doc(), *class, k as int),
                    decreases es.len() - k,
                {
                    let mut bv: Vec<char> = Vec::new();
                    write_name(&mut bv, &es[k].comp);
                    let base_name = crate::text::chars_to_string(&bv);
                    let ghost r2 = resolutions(result@);
                    match get_class(&self.ast.class_list, &base_name) {
                        Some(base) => {
                            let bcs = &base.components;
                            let mut j: usize = 0;
                            while j < bcs.len()
                                invariant
                                    j <= bcs@.len(),
                                    bcs == &base.components,
                                    resolutions(result@) == r2 + not_overridden(*class, *base, base_name@, j as int),
                                decreases bcs.len() - j,
                            {
                                let overridden = get_comp(&class.components, &bcs[j].name);
                                proof {
                                    match overridden {
                                        Some(x) => {
                                            lemma_find_comp_has(class.components@, bcs@[j as int].name@);
                                        },
                                        None => {
                                            lemma_find_comp_none(class.components@, bcs@[j as int].name@);
                                        },
                                    }
                                }
                                let ghost before = resolutions(result@);
                                if overridden.is_none() {
                                    result.push(
                                        ResolvedSymbol::Component {
                                            component: &bcs[j],
                                            defined_in: base,
                                            inherited_via: Some(base_name.clone()),
                                        },
                                    );
                                }
                                proof {
                                    if overridden.is_none() {
                                        let x = result@[result@.len() - 1];
                                        assert(resolution(x) == Resolution::Comp(bcs@[j as int], *base, Some(base_name@)));
                                        assert(resolutions(result@) =~= before.push(resolution(x)));
                                    } else {
                                        assert(resolutions(result@) =~= before);
                                    }
                                    assert(resolutions(result@) =~= r2 + not_overridden(*class, *base, base_name@, j as int + 1));
                                }
                                j = j + 1;
                            }
                        },
                        None => {},
                    }
                    proof {
                        assert(resolutions(result@) =~= r1 + visible_inherited(self.doc(), *class, k as int + 1));
                    }
                    k = k + 1;
                }
            },
            None => {},
        }
        proof {
            assert(resolutions(result@) =~= visible_spec(self.doc(), line, col));
        }
        result
    }

    /// The class a dotted name denotes as a path from a top-level class
    /// through nested classes (see `qualified_spec`).
    pub fn resolve_qualified(&self, qualified_name: &str, line: u32, col: u32) -> (r: Option<ResolvedSymbol<'a>>)
        ensures
            match r {
                Some(x) => qualified_spec(self.doc(), qualified_name@) == Some(resolution(x)),
                None => qualified_spec(self.doc(), qualified_name@) is None,
            },
    {
        let parts = split_dots(qualified_name);
        if parts.len() >= 2 {
            let first = crate::text::chars_to_string(&parts[0]);
            match get_class(&self.ast.class_list, &first) {
                Some(outer) => {
                    proof {
                        assert(views(parts@).subrange(1, parts@.len() as int) =~= dot_split(qualified_name@).drop_first());
                    }
                    match walk_path(outer, &parts, 1) {
                        Some(c) => {
                            return Some(ResolvedSymbol::Class(c));
                        },
                        None => {
                            return None;
                        },
                    }
                },
                None => {},
            }
        }
        None
    }
}

proof fn lemma_find_comp_has(cs: Seq<Component>, n: Seq<char>)
    requires
        find_comp(cs, n) is Some,
    ensures
        has_comp(cs, n),
    decreases cs.len(),
{
    if cs.len() > 0 {
        if find_comp(cs.drop_last(), n) is Some {
            lemma_find_comp_has(cs.drop_last(), n);
            let i = choose|i: int| 0 <= i < cs.drop_last().len() && #[trigger] cs.drop_last()[i].name@ == n;
            assert(cs[i].name@ == n);
        } else {
            assert(cs[cs.len() - 1].name@ == n);
        }
    }
}

proof fn lemma_find_comp_none(cs: Seq<Component>, n: Seq<char>)
    requires
        find_comp(cs, n) is None,
    ensures
        !has_comp(cs, n),
    decreases cs.len(),
{
    if cs.len() > 0 {
        lemma_find_comp_none(cs.drop_last(), n);
        assert forall|i: int| 0 <= i < cs.len() implies #[trigger] cs[i].name@ != n by {
            if i < cs.len() - 1 {
                assert(cs.drop_last()[i] == cs[i]);
            }
        }
    }
}

} // verus!
