//! Renaming a symbol: the edits that replace each of its occurrences in a
//! document, found in the syntax tree and, for the names a tree does not
//! place (`end Name`, a component's own name), in the text.
use vstd::prelude::*;
use crate::ast::{
    ClassDefinition, Component, ComponentRefPart, ComponentReference, Equation, EquationBlock, Expression,
    ExpressionBranch, ForIndex, Statement, StatementBlock, StoredDefinition, Subscript, Token,
};
use crate::code_lens::{alphanumeric, is_alphanumeric_char, text_lines};
use crate::names::views;

verus! {

/// A position in a document: line and character, counted from 0.
#[derive(Debug, Clone, Copy, PartialEq, Eq, Structural)]
pub struct Position {
    pub line: u32,
    pub character: u32,
}

/// A range of a document.
#[derive(Debug, Clone, Copy, PartialEq, Eq, Structural)]
pub struct Range {
    pub start: Position,
    pub end: Position,
}

/// An edit: the range replaced and its new text.
#[derive(Debug)]
pub struct TextEdit {
    pub range: Range,
    pub new_text: String,
}

/// An edit as plain values.
pub open spec fn edit_view(e: TextEdit) -> (Range, Seq<char>) {
    (e.range, e.new_text@)
}

/// Edits as plain values.
pub open spec fn edit_views(es: Seq<TextEdit>) -> Seq<(Range, Seq<char>)> {
    es.map_values(|e: TextEdit| edit_view(e))
}

/// The edit replacing `len` characters at `p` by `new`.
pub open spec fn edit_at(p: (u32, u32), len: nat, new: Seq<char>) -> (Range, Seq<char>) {
    (
        Range {
            start: Position { line: p.0, character: p.1 },
            end: Position { line: p.0, character: (p.1 + len) as u32 },
        },
        new,
    )
}

/// The edits replacing `len` characters at each of the positions by `new`.
pub open spec fn edits_at(ps: Seq<(u32, u32)>, len: nat, new: Seq<char>) -> Seq<(Range, Seq<char>)> {
    ps.map_values(|p: (u32, u32)| edit_at(p, len, new))
}

/// Whether every edit at the positions ends within the range of `u32`.
pub open spec fn ends_fit(ps: Seq<(u32, u32)>, len: nat) -> bool {
    forall|k: int| 0 <= k < ps.len() ==> (#[trigger] ps[k]).1 + len <= u32::MAX
}

/// Adds the edit replacing `len` characters at `p` by `new`.
fn push_edit(edits: &mut Vec<TextEdit>, p: (u32, u32), len: usize, new_name: &str)
    requires
        p.1 + len <= u32::MAX,
    ensures
        edit_views(final(edits)@) == edit_views(old(edits)@).push(edit_at(p, len as nat, new_name@)),
{
    let e = TextEdit {
        range: Range {
            start: Position { line: p.0, character: p.1 },
            end: Position { line: p.0, character: p.1 + len as u32 },
        },
        new_text: new_name.to_owned(),
    };
    edits.push(e);
    proof {
        assert(edit_views(final(edits)@) =~= edit_views(old(edits)@).push(edit_at(p, len as nat, new_name@)));
    }
}

// ---------------------------------------------------------------------------
// Occurrences in the text
// ---------------------------------------------------------------------------

/// `p` occurs in `s` at `i`.
pub open spec fn occurs_at(s: Seq<char>, p: Seq<char>, i: int) -> bool {
    0 <= i && i + p.len() <= s.len() && s.subrange(i, i + p.len()) == p
}

/// The first position at or after `k` where `p` occurs in `s`.
pub open spec fn first_from(s: Seq<char>, p: Seq<char>, k: int) -> Option<int>
    decreases s.len() + 1 - k,
{
    if k < 0 || k + p.len() > s.len() {
        None
    } else if occurs_at(s, p, k) {
        Some(k)
    } else {
        first_from(s, p, k + 1)
    }
}

/// `end ` and a name.
pub open spec fn end_pattern(name: Seq<char>) -> Seq<char> {
    seq!['e', 'n', 'd', ' '] + name
}

/// The position of the name in the first `end name` of a line, if what
/// follows it is not a letter or a number.
pub open spec fn end_hit(line: Seq<char>, name: Seq<char>) -> Option<int> {
    match first_from(line, end_pattern(name), 0) {
        Some(pos) => {
            let after = pos + 4 + name.len();
            if after >= line.len() || !is_alphanumeric_char(line[after]) {
                Some(pos + 4)
            } else {
                None
            }
        },
        None => None,
    }
}

/// The positions of the names of the `end name` lines among the first `n`.
pub open spec fn end_hits(lines: Seq<Seq<char>>, name: Seq<char>, n: int) -> Seq<(u32, u32)>
    decreases n,
{
    if n <= 0 {
        seq![]
    } else {
        end_hits(lines, name, n - 1) + match end_hit(lines[n - 1], name) {
            Some(p) => seq![((n - 1) as u32, p as u32)],
            None => seq![],
        }
    }
}

/// The positions of `end name` in a text (see `end_hit`).
pub open spec fn text_end_hits(text: Seq<char>, name: Seq<char>) -> Seq<(u32, u32)> {
    end_hits(text_lines(text), name, text_lines(text).len() as int)
}

/// Whether `name` occurs at `p` of `line` as a whole identifier: neither
/// side touches a letter, a number or `_`.
pub open spec fn ident_at(line: Seq<char>, name: Seq<char>, p: int) -> bool {
    &&& occurs_at(line, name, p)
    &&& (p == 0 || (!is_alphanumeric_char(line[p - 1]) && line[p - 1] != '_'))
    &&& (p + name.len() >= line.len() || (!is_alphanumeric_char(line[p + name.len()]) && line[p + name.len()]
        != '_'))
}

/// The positions below `k` of a line where `name` stands as a whole identifier, ascending.
pub open spec fn ident_hits_below(line: Seq<char>, name: Seq<char>, k: int) -> Seq<int>
    decreases k,
{
    if k <= 0 {
        seq![]
    } else {
        ident_hits_below(line, name, k - 1) + if ident_at(line, name, k - 1) {
            seq![k - 1]
        } else {
            seq![]
        }
    }
}

/// `x - 1`, or 0 for 0.
pub open spec fn before(x: u32) -> u32 {
    if x == 0 {
        0
    } else {
        (x - 1) as u32
    }
}

/// The positions of `name` as a whole identifier on line `line_num`
/// (counted from 1) of a text, if it has that line.
pub open spec fn line_ident_hits(text: Seq<char>, line_num: u32, name: Seq<char>) -> Seq<(u32, u32)> {
    let lines = text_lines(text);
    let l = before(line_num);
    if l < lines.len() {
        ident_hits_below(lines[l as int], name, lines[l as int].len() as int).map_values(|p: int| (l, p as u32))
    } else {
        seq![]
    }
}

/// Whether `s` starts at `i` with `p` (checked without the bound on `p`).
fn occurs_at_exec(s: &[char], p: &[char], i: usize) -> (r: bool)
    ensures
        r == occurs_at(s@, p@, i as int),
{
    if i > s.len() || p.len() > s.len() - i {
        return false;
    }
    let n = s.len();
    let mut j: usize = 0;
    while j < p.len()
        invariant
            n == s@.len(),
            i + p@.len() <= n,
            j <= p@.len(),
            forall|k: int| 0 <= k < j ==> s@[i + k] == p@[k],
        decreases p.len() - j,
    {
        if s[i + j] != p[j] {
            assert(s@.subrange(i as int, i + p@.len())[j as int] != p@[j as int]);
            return false;
        }
        j = j + 1;
    }
    assert(s@.subrange(i as int, i + p@.len()) =~= p@);
    true
}

/// What `first_from` finds: the first occurrence at or after `k`.
pub proof fn lemma_first_from(s: Seq<char>, p: Seq<char>, k: int)
    requires
        0 <= k,
    ensures
        match first_from(s, p, k) {
            Some(i) => k <= i && occurs_at(s, p, i) && forall|j: int| k <= j < i ==> !occurs_at(s, p, j),
            None => forall|j: int| k <= j ==> !occurs_at(s, p, j),
        },
    decreases s.len() + 1 - k,
{
    if k + p.len() > s.len() {
    } else if occurs_at(s, p, k) {
    } else {
        lemma_first_from(s, p, k + 1);
    }
}

/// The first position where `p` occurs in `s` (see `first_from`).
fn find_first(s: &[char], p: &[char]) -> (r: Option<usize>)
    ensures
        match r {
            Some(i) => first_from(s@, p@, 0) == Some(i as int),
            None => first_from(s@, p@, 0) is None,
        },
{
    if p.len() > s.len() {
        return None;
    }
    let last = s.len() - p.len();
    let mut k: usize = 0;
    loop
        invariant
            last == s@.len() - p@.len(),
            k <= last,
            first_from(s@, p@, 0) == first_from(s@, p@, k as int),
        decreases last - k,
    {
        if occurs_at_exec(s, p, k) {
            return Some(k);
        }
        if k == last {
            assert(first_from(s@, p@, k as int + 1) is None);
            return None;
        }
        k = k + 1;
    }
}

/// The lines of a text, and what they say of its size.
fn text_lines_of(text: &str) -> (r: Vec<Vec<char>>)
    requires
        text@.len() <= u32::MAX,
    ensures
        views(r@) == text_lines(text@),
        r@.len() <= u32::MAX,
        forall|k: int| 0 <= k < r@.len() ==> #[trigger] r@[k]@.len() <= u32::MAX,
{
    let chars = crate::text::str_to_chars(text);
    let lines = crate::outline::lines_of(&chars);
    proof {
        lemma_lines_short(text@);
        assert forall|k: int| 0 <= k < lines@.len() implies #[trigger] lines@[k]@.len() <= u32::MAX by {
            assert(views(lines@)[k] == lines@[k]@);
        }
    }
    lines
}

/// Adds the positions of the names of the `end name` lines (see `end_hits`).
fn end_positions(lines: &Vec<Vec<char>>, name: &[char], out: &mut Vec<(u32, u32)>)
    requires
        lines@.len() <= u32::MAX,
        forall|k: int| 0 <= k < lines@.len() ==> #[trigger] lines@[k]@.len() <= u32::MAX,
    ensures
        final(out)@ == old(out)@ + end_hits(views(lines@), name@, lines@.len() as int),
        forall|k: int| 0 <= k < end_hits(views(lines@), name@, lines@.len() as int).len() ==> (#[trigger] end_hits(
            views(lines@),
            name@,
            lines@.len() as int,
        )[k]).1 + name@.len() <= u32::MAX,
{
    let mut pat: Vec<char> = vec!['e', 'n', 'd', ' '];
    let mut j: usize = 0;
    while j < name.len()
        invariant
            j <= name@.len(),
            pat@ == seq!['e', 'n', 'd', ' '] + name@.take(j as int),
        decreases name.len() - j,
    {
        pat.push(name[j]);
        assert(name@.take(j as int + 1) =~= name@.take(j as int).push(name@[j as int]));
        j = j + 1;
    }
    assert(name@.take(name@.len() as int) =~= name@);
    let ghost lv = views(lines@);
    let ghost o0 = out@;
    let mut i: usize = 0;
    proof {
        assert(o0 + end_hits(lv, name@, 0) =~= o0);
    }
    while i < lines.len()
        invariant
            i <= lines@.len(),
            lv == views(lines@),
            lines@.len() <= u32::MAX,
            forall|k: int| 0 <= k < lines@.len() ==> #[trigger] lines@[k]@.len() <= u32::MAX,
            pat@ == end_pattern(name@),
            out@ == o0 + end_hits(lv, name@, i as int),
            forall|k: int| 0 <= k < end_hits(lv, name@, i as int).len() ==> (#[trigger] end_hits(lv, name@, i as int)[k]).1
                + name@.len() <= u32::MAX,
        decreases lines.len() - i,
    {
        let line = &lines[i];
        proof {
            assert(lv[i as int] == line@);
        }
        let found = find_first(line, &pat);
        proof {
            lemma_first_from(line@, pat@, 0);
        }
        let ghost h0 = end_hits(lv, name@, i as int);
        match found {
            Some(pos) => {
                let after = pos + 4 + name.len();
                if after >= line.len() || !alphanumeric(line[after]) {
                    out.push((i as u32, (pos + 4) as u32));
                    proof {
                        assert(end_hit(lv[i as int], name@) == Some(pos + 4));
                        assert(end_hits(lv, name@, i as int + 1) =~= h0.push((i as u32, (pos + 4) as u32)));
                    }
                } else {
                    proof {
                        assert(end_hits(lv, name@, i as int + 1) =~= h0);
                    }
                }
            },
            None => {
                proof {
                    assert(end_hits(lv, name@, i as int + 1) =~= h0);
                }
            },
        }
        proof {
            assert(out@ =~= o0 + end_hits(lv, name@, i as int + 1));
        }
        i = i + 1;
    }
}

/// Adds the edits replacing `len` characters at each position by `new`.
fn push_edits(edits: &mut Vec<TextEdit>, ps: &Vec<(u32, u32)>, len: usize, new_name: &str)
    requires
        ends_fit(ps@, len as nat),
    ensures
        edit_views(final(edits)@) == edit_views(old(edits)@) + edits_at(ps@, len as nat, new_name@),
{
    let ghost e0 = edit_views(edits@);
    let mut i: usize = 0;
    proof {
        assert(e0 + edits_at(ps@.take(0), len as nat, new_name@) =~= e0);
    }
    while i < ps.len()
        invariant
            i <= ps@.len(),
            ends_fit(ps@, len as nat),
            edit_views(edits@) == e0 + edits_at(ps@.take(i as int), len as nat, new_name@),
        decreases ps.len() - i,
    {
        proof {
            assert(ps@[i as int].1 + len <= u32::MAX);
        }
        push_edit(edits, ps[i], len, new_name);
        proof {
            assert(edits_at(ps@.take(i as int + 1), len as nat, new_name@) =~= edits_at(ps@.take(i as int), len as nat, new_name@).push(
                edit_at(ps@[i as int], len as nat, new_name@),
            ));
        }
        i = i + 1;
    }
    proof {
        assert(ps@.take(i as int) =~= ps@);
    }
}

/// The edits renaming `end old_name` in the text (see `text_end_hits`).
pub fn find_end_class_name(text: &str, old_name: &str, new_name: &str, edits: &mut Vec<TextEdit>)
    requires
        text@.len() <= u32::MAX,
    ensures
        edit_views(final(edits)@) == edit_views(old(edits)@) + edits_at(
            text_end_hits(text@, old_name@),
            old_name@.len(),
            new_name@,
        ),
{
    let lines = text_lines_of(text);
    let name = crate::text::str_to_chars(old_name);
    let mut ps: Vec<(u32, u32)> = Vec::new();
    end_positions(&lines, &name, &mut ps);
    proof {
        assert(ps@ =~= text_end_hits(text@, old_name@));
    }
    push_edits(edits, &ps, name.len(), new_name);
}

/// The lines of a text are no more than its characters, and each is no longer than it.
pub proof fn lemma_lines_short(t: Seq<char>)
    ensures
        text_lines(t).len() <= t.len(),
        forall|k: int| 0 <= k < text_lines(t).len() ==> #[trigger] text_lines(t)[k].len() <= t.len(),
{
    lemma_split_lines_short(t);
}

proof fn lemma_split_lines_short(t: Seq<char>)
    ensures
        crate::code_lens::split_lines(t).0.len() + crate::code_lens::split_lines(t).1.len() <= t.len(),
        crate::code_lens::split_lines(t).1.len() <= t.len(),
        forall|k: int| 0 <= k < crate::code_lens::split_lines(t).0.len() ==> #[trigger] crate::code_lens::split_lines(
            t,
        ).0[k].len() <= t.len(),
        crate::code_lens::split_lines(t).1.len() + crate::code_lens::split_lines(t).0.len() <= t.len(),
    decreases t.len(),
{
    if t.len() > 0 {
        lemma_split_lines_short(t.drop_last());
    }
}

/// Whether `name` stands at `p` of `line` as a whole identifier (see `ident_at`).
fn ident_at_exec(line: &[char], name: &[char], p: usize) -> (r: bool)
    ensures
        r == ident_at(line@, name@, p as int),
{
    if !occurs_at_exec(line, name, p) {
        return false;
    }
    let before_ok = p == 0 || (!alphanumeric(line[p - 1]) && line[p - 1] != '_');
    let after = p + name.len();
    let after_ok = after >= line.len() || (!alphanumeric(line[after]) && line[after] != '_');
    before_ok && after_ok
}

/// Adds the positions of `name` as a whole identifier on line `line_num`
/// (counted from 1) of the lines (see `line_ident_hits`).
fn ident_positions(lines: &Vec<Vec<char>>, Ghost(text): Ghost<Seq<char>>, line_num: u32, name: &[char], out: &mut Vec<(u32, u32)>)
    requires
        views(lines@) == text_lines(text),
        forall|k: int| 0 <= k < lines@.len() ==> #[trigger] lines@[k]@.len() <= u32::MAX,
        name@.len() > 0 || before(line_num) >= lines@.len(),
    ensures
        final(out)@ == old(out)@ + line_ident_hits(text, line_num, name@),
        ends_fit(line_ident_hits(text, line_num, name@), name@.len()),
{
    let ghost lv = views(lines@);
    let ghost o0 = out@;
    let l: u32 = if line_num == 0 { 0 } else { line_num - 1 };
    if (l as usize) < lines.len() {
        let line = &lines[l as usize];
        let ghost lw = line@;
        proof {
            assert(lv[l as int] == lw);
        }
        let mut p: usize = 0;
        proof {
            assert(o0 + ident_hits_below(lw, name@, 0).map_values(|q: int| (l, q as u32)) =~= o0);
        }
        while p < line.len()
            invariant
                p <= lw.len(),
                lw == line@,
                lw.len() <= u32::MAX,
                name@.len() > 0,
                out@ == o0 + ident_hits_below(lw, name@, p as int).map_values(|q: int| (l, q as u32)),
                forall|k: int| 0 <= k < ident_hits_below(lw, name@, p as int).len() ==> #[trigger] ident_hits_below(
                    lw,
                    name@,
                    p as int,
                )[k] + name@.len() <= lw.len(),
            decreases line.len() - p,
        {
            let ghost h0 = ident_hits_below(lw, name@, p as int);
            if ident_at_exec(line, name, p) {
                out.push((l, p as u32));
                proof {
                    assert(ident_hits_below(lw, name@, p as int + 1) =~= h0.push(p as int));
                    assert(ident_hits_below(lw, name@, p as int + 1).map_values(|q: int| (l, q as u32)) =~= h0.map_values(
                        |q: int| (l, q as u32),
                    ).push((l, p as u32)));
                }
            } else {
                proof {
                    assert(ident_hits_below(lw, name@, p as int + 1) =~= h0);
                }
            }
            p = p + 1;
        }
        proof {
            let hs = ident_hits_below(lw, name@, lw.len() as int);
            let mapped = hs.map_values(|q: int| (l, q as u32));
            assert forall|k: int| 0 <= k < mapped.len() implies (#[trigger] mapped[k]).1 + name@.len() <= u32::MAX by {
                assert(hs[k] + name@.len() <= lw.len());
                assert(hs[k] >= 0) by {
                    lemma_ident_hits_nonneg(lw, name@, lw.len() as int, k);
                }
            }
        }
    } else {
        proof {
            assert(o0 + Seq::<(u32, u32)>::empty() =~= o0);
        }
    }
}

proof fn lemma_ident_hits_nonneg(line: Seq<char>, name: Seq<char>, k: int, i: int)
    requires
        0 <= i < ident_hits_below(line, name, k).len(),
    ensures
        0 <= ident_hits_below(line, name, k)[i] < k,
    decreases k,
{
    if k > 0 {
        let prev = ident_hits_below(line, name, k - 1);
        if i < prev.len() {
            lemma_ident_hits_nonneg(line, name, k - 1, i);
        }
    }
}

/// The edits renaming `old_name` where it stands as a whole identifier on
/// line `line_num` (counted from 1) of the text (see `line_ident_hits`).
pub fn find_identifier_on_line(text: &str, line_num: u32, old_name: &str, new_name: &str, edits: &mut Vec<TextEdit>)
    requires
        text@.len() <= u32::MAX,
        old_name@.len() > 0 || before(line_num) >= text_lines(text@).len(),
    ensures
        edit_views(final(edits)@) == edit_views(old(edits)@) + edits_at(
            line_ident_hits(text@, line_num, old_name@),
            old_name@.len(),
            new_name@,
        ),
{
    let lines = text_lines_of(text);
    let name = crate::text::str_to_chars(old_name);
    let mut ps: Vec<(u32, u32)> = Vec::new();
    ident_positions(&lines, Ghost(text@), line_num, &name, &mut ps);
    proof {
        assert(ps@ =~= line_ident_hits(text@, line_num, old_name@));
    }
    push_edits(edits, &ps, name.len(), new_name);
}

// ---------------------------------------------------------------------------
// Occurrences in the syntax tree
// ---------------------------------------------------------------------------

/// Where an edit at a token starts: its line and column, counted from 0.
pub open spec fn at(t: Token) -> (u32, u32) {
    (before(t.location.start_line), before(t.location.start_column))
}

/// The token, if it is named `n`.
pub open spec fn hit(t: Token, n: Seq<char>) -> Seq<(u32, u32)> {
    if t.text@ == n {
        seq![at(t)]
    } else {
        seq![]
    }
}

/// The tokens named `n` among the parts of references of an expression, in order.
pub open spec fn expr_hits(e: Expression, n: Seq<char>) -> Seq<(u32, u32)>
    decreases e, 0nat,
{
    match e {
        Expression::ComponentReference(c) => cref_hits(c, n),
        Expression::FunctionCall { comp, args } => cref_hits(comp, n) + exprs_hits(args@, n),
        Expression::Unary { rhs, .. } => expr_hits(*rhs, n),
        Expression::Binary { lhs, rhs, .. } => expr_hits(*lhs, n) + expr_hits(*rhs, n),
        Expression::Array { elements } => exprs_hits(elements@, n),
        Expression::Tuple { elements } => exprs_hits(elements@, n),
        Expression::If { branches, else_branch } => branches_hits(branches@, n) + expr_hits(*else_branch, n),
        Expression::Range { start, step, end } => expr_hits(*start, n) + (match step {
            Some(s) => expr_hits(*s, n),
            None => seq![],
        }) + expr_hits(*end, n),
        Expression::NamedArgument { value, .. } => expr_hits(*value, n),
        _ => seq![],
    }
}

/// The hits of a reference: each part's name, then its subscripts.
pub open spec fn cref_hits(c: ComponentReference, n: Seq<char>) -> Seq<(u32, u32)>
    decreases c, 1nat,
{
    parts_hits(c.parts@, n)
}

/// The hits of reference parts.
pub open spec fn parts_hits(ps: Seq<ComponentRefPart>, n: Seq<char>) -> Seq<(u32, u32)>
    decreases ps, 0nat,
{
    if ps.len() == 0 {
        seq![]
    } else {
        parts_hits(ps.drop_last(), n) + hit(ps.last().ident, n) + match ps.last().subs {
            Some(ss) => subs_hits(ss@, n),
            None => seq![],
        }
    }
}

/// The hits of expression subscripts.
pub open spec fn subs_hits(ss: Seq<Subscript>, n: Seq<char>) -> Seq<(u32, u32)>
    decreases ss, 0nat,
{
    if ss.len() == 0 {
        seq![]
    } else {
        subs_hits(ss.drop_last(), n) + match ss.last() {
            Subscript::Expression(e) => expr_hits(e, n),
            _ => seq![],
        }
    }
}

/// The hits of expressions, one after another.
pub open spec fn exprs_hits(es: Seq<Expression>, n: Seq<char>) -> Seq<(u32, u32)>
    decreases es, 0nat,
{
    if es.len() == 0 {
        seq![]
    } else {
        exprs_hits(es.drop_last(), n) + expr_hits(es.last(), n)
    }
}

/// The hits of the branches of an if-expression.
pub open spec fn branches_hits(bs: Seq<ExpressionBranch>, n: Seq<char>) -> Seq<(u32, u32)>
    decreases bs, 0nat,
{
    if bs.len() == 0 {
        seq![]
    } else {
        branches_hits(bs.drop_last(), n) + expr_hits(bs.last().cond, n) + expr_hits(bs.last().value, n)
    }
}

/// The hits of an equation's references.
pub open spec fn eq_hits(eq: Equation, n: Seq<char>) -> Seq<(u32, u32)>
    decreases eq, 0nat,
{
    match eq {
        Equation::Simple { lhs, rhs } => expr_hits(lhs, n) + expr_hits(rhs, n),
        Equation::Connect { lhs, rhs } => cref_hits(lhs, n) + cref_hits(rhs, n),
        Equation::For { indices, equations } => indices_hits(indices@, n) + eqs_hits(equations@, n),
        Equation::When(blocks) => eq_blocks_hits(blocks@, n),
        Equation::If { cond_blocks, else_block } => eq_blocks_hits(cond_blocks@, n) + match else_block {
            Some(x) => eqs_hits(x@, n),
            None => seq![],
        },
        Equation::FunctionCall { comp, args } => cref_hits(comp, n) + exprs_hits(args@, n),
        _ => seq![],
    }
}

/// The hits of equations.
pub open spec fn eqs_hits(eqs: Seq<Equation>, n: Seq<char>) -> Seq<(u32, u32)>
    decreases eqs, 0nat,
{
    if eqs.len() == 0 {
        seq![]
    } else {
        eqs_hits(eqs.drop_last(), n) + eq_hits(eqs.last(), n)
    }
}

/// The hits of guarded blocks: condition, then equations.
pub open spec fn eq_blocks_hits(bs: Seq<EquationBlock>, n: Seq<char>) -> Seq<(u32, u32)>
    decreases bs, 0nat,
{
    if bs.len() == 0 {
        seq![]
    } else {
        eq_blocks_hits(bs.drop_last(), n) + expr_hits(bs.last().cond, n) + eqs_hits(bs.last().eqs@, n)
    }
}

/// The hits of the ranges of `for` indices.
pub open spec fn indices_hits(xs: Seq<ForIndex>, n: Seq<char>) -> Seq<(u32, u32)>
    decreases xs, 0nat,
{
    if xs.len() == 0 {
        seq![]
    } else {
        indices_hits(xs.drop_last(), n) + expr_hits(xs.last().range, n)
    }
}

/// The hits of a statement's references.
pub open spec fn st_hits(st: Statement, n: Seq<char>) -> Seq<(u32, u32)>
    decreases st, 0nat,
{
    match st {
        Statement::Assignment { comp, value } => cref_hits(comp, n) + expr_hits(value, n),
        Statement::For { indices, equations } => indices_hits(indices@, n) + sts_hits(equations@, n),
        Statement::While(block) => expr_hits(block.cond, n) + sts_hits(block.stmts@, n),
        Statement::If { cond_blocks, else_block } => st_blocks_hits(cond_blocks@, n) + match else_block {
            Some(x) => sts_hits(x@, n),
            None => seq![],
        },
        Statement::When(blocks) => st_blocks_hits(blocks@, n),
        Statement::FunctionCall { comp, args } => cref_hits(comp, n) + exprs_hits(args@, n),
        _ => seq![],
    }
}

/// The hits of statements.
pub open spec fn sts_hits(sts: Seq<Statement>, n: Seq<char>) -> Seq<(u32, u32)>
    decreases sts, 0nat,
{
    if sts.len() == 0 {
        seq![]
    } else {
        sts_hits(sts.drop_last(), n) + st_hits(sts.last(), n)
    }
}

/// The hits of guarded statement blocks.
pub open spec fn st_blocks_hits(bs: Seq<StatementBlock>, n: Seq<char>) -> Seq<(u32, u32)>
    decreases bs, 0nat,
{
    if bs.len() == 0 {
        seq![]
    } else {
        st_blocks_hits(bs.drop_last(), n) + expr_hits(bs.last().cond, n) + sts_hits(bs.last().stmts@, n)
    }
}

/// The hits of algorithm sections.
pub open spec fn algs_hits(a: Seq<Vec<Statement>>, n: Seq<char>) -> Seq<(u32, u32)>
    decreases a.len(),
{
    if a.len() == 0 {
        seq![]
    } else {
        algs_hits(a.drop_last(), n) + sts_hits(a.last()@, n)
    }
}

/// The hits of tokens.
pub open spec fn tokens_hits(ts: Seq<Token>, n: Seq<char>) -> Seq<(u32, u32)>
    decreases ts.len(),
{
    if ts.len() == 0 {
        seq![]
    } else {
        tokens_hits(ts.drop_last(), n) + hit(ts.last(), n)
    }
}

/// The hits of a component: its own name, found in the text on the line of
/// its type's first token, then its type's tokens, then its binding.
pub open spec fn comp_hits(c: Component, n: Seq<char>, text: Seq<char>) -> Seq<(u32, u32)> {
    (if c.name@ == n && c.type_path.name@.len() > 0 {
        line_ident_hits(text, c.type_path.name@[0].location.start_line, n)
    } else {
        seq![]
    }) + tokens_hits(c.type_path.name@, n) + expr_hits(c.start, n)
}

/// The hits of components.
pub open spec fn comps_hits(cs: Seq<Component>, n: Seq<char>, text: Seq<char>) -> Seq<(u32, u32)>
    decreases cs.len(),
{
    if cs.len() == 0 {
        seq![]
    } else {
        comps_hits(cs.drop_last(), n, text) + comp_hits(cs.last(), n, text)
    }
}

/// The hits of a class: its name and every `end n` of the text where it is
/// named `n`; then its components, equations, initial equations, algorithms,
/// initial algorithms, and nested classes.
pub open spec fn class_hits(c: ClassDefinition, n: Seq<char>, text: Seq<char>) -> Seq<(u32, u32)>
    decreases c, 1nat,
{
    (if c.name.text@ == n {
        seq![at(c.name)] + text_end_hits(text, n)
    } else {
        seq![]
    }) + comps_hits(c.components@, n, text) + eqs_hits(c.equations@, n) + eqs_hits(c.initial_equations@, n)
        + algs_hits(c.algorithms@, n) + algs_hits(c.initial_algorithms@, n) + nested_hits(c.classes@, n, text)
}

/// The hits of nested classes: the name of each named `n`, then its own hits.
pub open spec fn nested_hits(cs: Seq<ClassDefinition>, n: Seq<char>, text: Seq<char>) -> Seq<(u32, u32)>
    decreases cs, 0nat,
{
    if cs.len() == 0 {
        seq![]
    } else {
        nested_hits(cs.drop_last(), n, text) + hit(cs.last().name, n) + class_hits(cs.last(), n, text)
    }
}

/// The hits of the top-level classes of a document.
pub open spec fn top_hits(cs: Seq<ClassDefinition>, n: Seq<char>, text: Seq<char>) -> Seq<(u32, u32)>
    decreases cs.len(),
{
    if cs.len() == 0 {
        seq![]
    } else {
        top_hits(cs.drop_last(), n, text) + class_hits(cs.last(), n, text)
    }
}

/// Where an edit at a token starts.
pub(crate) fn at_exec(t: &Token) -> (r: (u32, u32))
    ensures
        r == at(*t),
{
    let l = if t.location.start_line == 0 { 0 } else { t.location.start_line - 1 };
    let c = if t.location.start_column == 0 { 0 } else { t.location.start_column - 1 };
    (l, c)
}

pub(crate) fn collect_hit(t: &Token, n: &String, out: &mut Vec<(u32, u32)>)
    ensures
        final(out)@ == old(out)@ + hit(*t, n@),
{
    if t.text == *n {
        out.push(at_exec(t));
    }
    assert(final(out)@ =~= old(out)@ + hit(*t, n@));
}

pub(crate) fn collect_expr_hits(e: &Expression, n: &String, out: &mut Vec<(u32, u32)>)
    ensures
        final(out)@ == old(out)@ + expr_hits(*e, n@),
    decreases e, 2nat,
{
    let ghost o0 = out@;
    match e {
        Expression::ComponentReference(c) => collect_cref_hits(c, n, out),
        Expression::FunctionCall { comp, args } => {
            collect_cref_hits(comp, n, out);
            collect_exprs_hits(args, n, out);
        },
        Expression::Unary { rhs, .. } => collect_expr_hits(rhs, n, out),
        Expression::Binary { lhs, rhs, .. } => {
            collect_expr_hits(lhs, n, out);
            collect_expr_hits(rhs, n, out);
        },
        Expression::Array { elements } => collect_exprs_hits(elements, n, out),
        Expression::Tuple { elements } => collect_exprs_hits(elements, n, out),
        Expression::If { branches, else_branch } => {
            collect_branches_hits(branches, n, out);
            collect_expr_hits(else_branch, n, out);
        },
        Expression::Range { start, step, end } => {
            collect_expr_hits(start, n, out);
            match step {
                Some(x) => collect_expr_hits(x, n, out),
                None => {},
            }
            collect_expr_hits(end, n, out);
        },
        Expression::NamedArgument { value, .. } => collect_expr_hits(value, n, out),
        _ => {},
    }
    assert(out@ =~= o0 + expr_hits(*e, n@));
}

pub(crate) fn collect_cref_hits(c: &ComponentReference, n: &String, out: &mut Vec<(u32, u32)>)
    ensures
        final(out)@ == old(out)@ + cref_hits(*c, n@),
    decreases c, 1nat,
{
    proof {
        assert(decreases_to!(c => c.parts));
    }
    collect_parts_hits(&c.parts, n, out);
}

fn collect_parts_hits(xs: &Vec<ComponentRefPart>, n: &String, out: &mut Vec<(u32, u32)>)
    ensures
        final(out)@ == old(out)@ + parts_hits(xs@, n@),
    decreases xs, 0nat,
{
    let ghost o0 = out@;
    let mut i: usize = 0;
    while i < xs.len()
        invariant
            i <= xs@.len(),
            out@ == o0 + parts_hits(xs@.take(i as int), n@),
        decreases xs.len() - i,
    {
        proof {
            let t = xs@.take(i as int + 1);
            assert(t.drop_last() =~= xs@.take(i as int));
            assert(t.last() == xs@[i as int]);
            assert(decreases_to!(xs => xs@[i as int]));
        }
        collect_hit(&xs[i].ident, n, out);
        match &xs[i].subs {
            Some(ss) => {
                proof {
                    assert(decreases_to!(xs@[i as int] => xs@[i as int].subs));
                }
                collect_subs_hits(ss, n, out);
            },
            None => {},
        }
        proof {
            assert(out@ =~= o0 + parts_hits(xs@.take(i as int + 1), n@));
        }
        i = i + 1;
    }
    assert(xs@.take(i as int) =~= xs@);
}

fn collect_subs_hits(xs: &Vec<Subscript>, n: &String, out: &mut Vec<(u32, u32)>)
    ensures
        final(out)@ == old(out)@ + subs_hits(xs@, n@),
    decreases xs, 0nat,
{
    let ghost o0 = out@;
    let mut i: usize = 0;
    while i < xs.len()
        invariant
            i <= xs@.len(),
            out@ == o0 + subs_hits(xs@.take(i as int), n@),
        decreases xs.len() - i,
    {
        proof {
            let t = xs@.take(i as int + 1);
            assert(t.drop_last() =~= xs@.take(i as int));
            assert(t.last() == xs@[i as int]);
            assert(decreases_to!(xs => xs@[i as int]));
        }
        match &xs[i] {
            Subscript::Expression(e) => collect_expr_hits(e, n, out),
            _ => {},
        }
        proof {
            assert(out@ =~= o0 + subs_hits(xs@.take(i as int + 1), n@));
        }
        i = i + 1;
    }
    assert(xs@.take(i as int) =~= xs@);
}

pub(crate) fn collect_exprs_hits(xs: &Vec<Expression>, n: &String, out: &mut Vec<(u32, u32)>)
    ensures
        final(out)@ == old(out)@ + exprs_hits(xs@, n@),
    decreases xs, 0nat,
{
    let ghost o0 = out@;
    let mut i: usize = 0;
    while i < xs.len()
        invariant
            i <= xs@.len(),
            out@ == o0 + exprs_hits(xs@.take(i as int), n@),
        decreases xs.len() - i,
    {
        proof {
            let t = xs@.take(i as int + 1);
            assert(t.drop_last() =~= xs@.take(i as int));
            assert(t.last() == xs@[i as int]);
            assert(decreases_to!(xs => xs@[i as int]));
        }
        collect_expr_hits(&xs[i], n, out);
        proof {
            assert(out@ =~= o0 + exprs_hits(xs@.take(i as int + 1), n@));
        }
        i = i + 1;
    }
    assert(xs@.take(i as int) =~= xs@);
}

fn collect_branches_hits(xs: &Vec<ExpressionBranch>, n: &String, out: &mut Vec<(u32, u32)>)
    ensures
        final(out)@ == old(out)@ + branches_hits(xs@, n@),
    decreases xs, 0nat,
{
    let ghost o0 = out@;
    let mut i: usize = 0;
    while i < xs.len()
        invariant
            i <= xs@.len(),
            out@ == o0 + branches_hits(xs@.take(i as int), n@),
        decreases xs.len() - i,
    {
        proof {
            let t = xs@.take(i as int + 1);
            assert(t.drop_last() =~= xs@.take(i as int));
            assert(t.last() == xs@[i as int]);
            assert(decreases_to!(xs => xs@[i as int]));
        }
        collect_expr_hits(&xs[i].cond, n, out);
        collect_expr_hits(&xs[i].value, n, out);
        proof {
            assert(out@ =~= o0 + branches_hits(xs@.take(i as int + 1), n@));
        }
        i = i + 1;
    }
    assert(xs@.take(i as int) =~= xs@);
}

fn collect_eq_hits(eq: &Equation, n: &String, out: &mut Vec<(u32, u32)>)
    ensures
        final(out)@ == old(out)@ + eq_hits(*eq, n@),
    decreases eq, 1nat,
{
    let ghost o0 = out@;
    match eq {
        Equation::Simple { lhs, rhs } => {
            collect_expr_hits(lhs, n, out);
            collect_expr_hits(rhs, n, out);
        },
        Equation::Connect { lhs, rhs } => {
            collect_cref_hits(lhs, n, out);
            collect_cref_hits(rhs, n, out);
        },
        Equation::For { indices, equations } => {
            collect_indices_hits(indices, n, out);
            collect_eqs_hits(equations, n, out);
        },
        Equation::When(blocks) => collect_eq_blocks_hits(blocks, n, out),
        Equation::If { cond_blocks, else_block } => {
            collect_eq_blocks_hits(cond_blocks, n, out);
            match else_block {
                Some(x) => collect_eqs_hits(x, n, out),
                None => {},
            }
        },
        Equation::FunctionCall { comp, args } => {
            collect_cref_hits(comp, n, out);
            collect_exprs_hits(args, n, out);
        },
        _ => {},
    }
    assert(out@ =~= o0 + eq_hits(*eq, n@));
}

fn collect_eqs_hits(xs: &Vec<Equation>, n: &String, out: &mut Vec<(u32, u32)>)
    ensures
        final(out)@ == old(out)@ + eqs_hits(xs@, n@),
    decreases xs, 0nat,
{
    let ghost o0 = out@;
    let mut i: usize = 0;
    while i < xs.len()
        invariant
            i <= xs@.len(),
            out@ == o0 + eqs_hits(xs@.take(i as int), n@),
        decreases xs.len() - i,
    {
        proof {
            let t = xs@.take(i as int + 1);
            assert(t.drop_last() =~= xs@.take(i as int));
            assert(t.last() == xs@[i as int]);
            assert(decreases_to!(xs => xs@[i as int]));
        }
        collect_eq_hits(&xs[i], n, out);
        proof {
            assert(out@ =~= o0 + eqs_hits(xs@.take(i as int + 1), n@));
        }
        i = i + 1;
    }
    assert(xs@.take(i as int) =~= xs@);
}

fn collect_eq_blocks_hits(xs: &Vec<EquationBlock>, n: &String, out: &mut Vec<(u32, u32)>)
    ensures
        final(out)@ == old(out)@ + eq_blocks_hits(xs@, n@),
    decreases xs, 0nat,
{
    let ghost o0 = out@;
    let mut i: usize = 0;
    while i < xs.len()
        invariant
            i <= xs@.len(),
            out@ == o0 + eq_blocks_hits(xs@.take(i as int), n@),
        decreases xs.len() - i,
    {
        proof {
            let t = xs@.take(i as int + 1);
            assert(t.drop_last() =~= xs@.take(i as int));
            assert(t.last() == xs@[i as int]);
            assert(decreases_to!(xs => xs@[i as int]));
            assert(decreases_to!(xs@[i as int] => xs@[i as int].eqs));
        }
        collect_expr_hits(&xs[i].cond, n, out);
        collect_eqs_hits(&xs[i].eqs, n, out);
        proof {
            assert(out@ =~= o0 + eq_blocks_hits(xs@.take(i as int + 1), n@));
        }
        i = i + 1;
    }
    assert(xs@.take(i as int) =~= xs@);
}

fn collect_indices_hits(xs: &Vec<ForIndex>, n: &String, out: &mut Vec<(u32, u32)>)
    ensures
        final(out)@ == old(out)@ + indices_hits(xs@, n@),
    decreases xs, 0nat,
{
    let ghost o0 = out@;
    let mut i: usize = 0;
    while i < xs.len()
        invariant
            i <= xs@.len(),
            out@ == o0 + indices_hits(xs@.take(i as int), n@),
        decreases xs.len() - i,
    {
        proof {
            let t = xs@.take(i as int + 1);
            assert(t.drop_last() =~= xs@.take(i as int));
            assert(t.last() == xs@[i as int]);
            assert(decreases_to!(xs => xs@[i as int]));
        }
        collect_expr_hits(&xs[i].range, n, out);
        proof {
            assert(out@ =~= o0 + indices_hits(xs@.take(i as int + 1), n@));
        }
        i = i + 1;
    }
    assert(xs@.take(i as int) =~= xs@);
}

fn collect_st_hits(st: &Statement, n: &String, out: &mut Vec<(u32, u32)>)
    ensures
        final(out)@ == old(out)@ + st_hits(*st, n@),
    decreases st, 1nat,
{
    let ghost o0 = out@;
    match st {
        Statement::Assignment { comp, value } => {
            collect_cref_hits(comp, n, out);
            collect_expr_hits(value, n, out);
        },
        Statement::For { indices, equations } => {
            collect_indices_hits(indices, n, out);
            collect_sts_hits(equations, n, out);
        },
        Statement::While(block) => {
            collect_expr_hits(&block.cond, n, out);
            collect_sts_hits(&block.stmts, n, out);
        },
        Statement::If { cond_blocks, else_block } => {
            collect_st_blocks_hits(cond_blocks, n, out);
            match else_block {
                Some(x) => collect_sts_hits(x, n, out),
                None => {},
            }
        },
        Statement::When(blocks) => collect_st_blocks_hits(blocks, n, out),
        Statement::FunctionCall { comp, args } => {
            collect_cref_hits(comp, n, out);
            collect_exprs_hits(args, n, out);
        },
        _ => {},
    }
    assert(out@ =~= o0 + st_hits(*st, n@));
}

fn collect_sts_hits(xs: &Vec<Statement>, n: &String, out: &mut Vec<(u32, u32)>)
    ensures
        final(out)@ == old(out)@ + sts_hits(xs@, n@),
    decreases xs, 0nat,
{
    let ghost o0 = out@;
    let mut i: usize = 0;
    while i < xs.len()
        invariant
            i <= xs@.len(),
            out@ == o0 + sts_hits(xs@.take(i as int), n@),
        decreases xs.len() - i,
    {
        proof {
            let t = xs@.take(i as int + 1);
            assert(t.drop_last() =~= xs@.take(i as int));
            assert(t.last() == xs@[i as int]);
            assert(decreases_to!(xs => xs@[i as int]));
        }
        collect_st_hits(&xs[i], n, out);
        proof {
            assert(out@ =~= o0 + sts_hits(xs@.take(i as int + 1), n@));
        }
        i = i + 1;
    }
    assert(xs@.take(i as int) =~= xs@);
}

fn collect_st_blocks_hits(xs: &Vec<StatementBlock>, n: &String, out: &mut Vec<(u32, u32)>)
    ensures
        final(out)@ == old(out)@ + st_blocks_hits(xs@, n@),
    decreases xs, 0nat,
{
    let ghost o0 = out@;
    let mut i: usize = 0;
    while i < xs.len()
        invariant
            i <= xs@.len(),
            out@ == o0 + st_blocks_hits(xs@.take(i as int), n@),
        decreases xs.len() - i,
    {
        proof {
            let t = xs@.take(i as int + 1);
            assert(t.drop_last() =~= xs@.take(i as int));
            assert(t.last() == xs@[i as int]);
            assert(decreases_to!(xs => xs@[i as int]));
            assert(decreases_to!(xs@[i as int] => xs@[i as int].stmts));
        }
        collect_expr_hits(&xs[i].cond, n, out);
        collect_sts_hits(&xs[i].stmts, n, out);
        proof {
            assert(out@ =~= o0 + st_blocks_hits(xs@.take(i as int + 1), n@));
        }
        i = i + 1;
    }
    assert(xs@.take(i as int) =~= xs@);
}

/// Adds the hits of a component (see `comp_hits`).
fn collect_comp_hits(
    c: &Component,
    n: &String,
    nc: &Vec<char>,
    lines: &Vec<Vec<char>>,
    Ghost(text): Ghost<Seq<char>>,
    out: &mut Vec<(u32, u32)>,
)
    requires
        nc@ == n@,
        n@.len() > 0,
        views(lines@) == text_lines(text),
        forall|k: int| 0 <= k < lines@.len() ==> #[trigger] lines@[k]@.len() <= u32::MAX,
    ensures
        final(out)@ == old(out)@ + comp_hits(*c, n@, text),
{
    let ghost o0 = out@;
    if c.name == *n && c.type_path.name.len() > 0 {
        ident_positions(lines, Ghost(text), c.type_path.name[0].location.start_line, nc, out);
    }
    let ghost o1 = out@;
    let ts = &c.type_path.name;
    let mut i: usize = 0;
    proof {
        assert(o1 + tokens_hits(ts@.take(0), n@) =~= o1);
    }
    while i < ts.len()
        invariant
            i <= ts@.len(),
            out@ == o1 + tokens_hits(ts@.take(i as int), n@),
        decreases ts.len() - i,
    {
        collect_hit(&ts[i], n, out);
        proof {
            let t = ts@.take(i as int + 1);
            assert(t.drop_last() =~= ts@.take(i as int));
            assert(t.last() == ts@[i as int]);
            assert(out@ =~= o1 + tokens_hits(t, n@));
        }
        i = i + 1;
    }
    assert(ts@.take(i as int) =~= ts@);
    collect_expr_hits(&c.start, n, out);
    assert(out@ =~= o0 + comp_hits(*c, n@, text));
}

/// Adds the hits of algorithm sections.
fn collect_algs_hits(a: &Vec<Vec<Statement>>, n: &String, out: &mut Vec<(u32, u32)>)
    ensures
        final(out)@ == old(out)@ + algs_hits(a@, n@),
{
    let ghost o0 = out@;
    let mut i: usize = 0;
    proof {
        assert(o0 + algs_hits(a@.take(0), n@) =~= o0);
    }
    while i < a.len()
        invariant
            i <= a@.len(),
            out@ == o0 + algs_hits(a@.take(i as int), n@),
        decreases a.len() - i,
    {
        collect_sts_hits(&a[i], n, out);
        proof {
            let t = a@.take(i as int + 1);
            assert(t.drop_last() =~= a@.take(i as int));
            assert(t.last() == a@[i as int]);
            assert(out@ =~= o0 + algs_hits(t, n@));
        }
        i = i + 1;
    }
    assert(a@.take(i as int) =~= a@);
}

/// Adds the hits of a class (see `class_hits`).
#[verifier::spinoff_prover]
fn collect_class_hits(
    c: &ClassDefinition,
    n: &String,
    nc: &Vec<char>,
    lines: &Vec<Vec<char>>,
    Ghost(text): Ghost<Seq<char>>,
    out: &mut Vec<(u32, u32)>,
)
    requires
        nc@ == n@,
        n@.len() > 0,
        views(lines@) == text_lines(text),
        lines@.len() <= u32::MAX,
        forall|k: int| 0 <= k < lines@.len() ==> #[trigger] lines@[k]@.len() <= u32::MAX,
    ensures
        final(out)@ == old(out)@ + class_hits(*c, n@, text),
    decreases c, 1nat,
{
    let ghost o0 = out@;
    if c.name.text == *n {
        out.push(at_exec(&c.name));
        end_positions(lines, nc, out);
    }
    let ghost o1 = out@;
    let cs = &c.components;
    let mut i: usize = 0;
    proof {
        assert(o1 + comps_hits(cs@.take(0), n@, text) =~= o1);
    }
    while i < cs.len()
        invariant
            i <= cs@.len(),
            nc@ == n@,
            n@.len() > 0,
            views(lines@) == text_lines(text),
            forall|k: int| 0 <= k < lines@.len() ==> #[trigger] lines@[k]@.len() <= u32::MAX,
            out@ == o1 + comps_hits(cs@.take(i as int), n@, text),
        decreases cs.len() - i,
    {
        collect_comp_hits(&cs[i], n, nc, lines, Ghost(text), out);
        proof {
            let t = cs@.take(i as int + 1);
            assert(t.drop_last() =~= cs@.take(i as int));
            assert(t.last() == cs@[i as int]);
            assert(out@ =~= o1 + comps_hits(t, n@, text));
        }
        i = i + 1;
    }
    assert(cs@.take(i as int) =~= cs@);
    collect_eqs_hits(&c.equations, n, out);
    collect_eqs_hits(&c.initial_equations, n, out);
    collect_algs_hits(&c.algorithms, n, out);
    collect_algs_hits(&c.initial_algorithms, n, out);
    proof {
        assert(decreases_to!(c => c.classes));
    }
    collect_nested_hits(&c.classes, n, nc, lines, Ghost(text), out);
    proof {
        if c.name.text@ == n@ {
            assert(text_end_hits(text, n@) == end_hits(views(lines@), n@, lines@.len() as int));
        }
        assert(out@ =~= o0 + class_hits(*c, n@, text));
    }
}

/// Adds the hits of nested classes (see `nested_hits`).
fn collect_nested_hits(
    cs: &Vec<ClassDefinition>,
    n: &String,
    nc: &Vec<char>,
    lines: &Vec<Vec<char>>,
    Ghost(text): Ghost<Seq<char>>,
    out: &mut Vec<(u32, u32)>,
)
    requires
        nc@ == n@,
        n@.len() > 0,
        views(lines@) == text_lines(text),
        lines@.len() <= u32::MAX,
        forall|k: int| 0 <= k < lines@.len() ==> #[trigger] lines@[k]@.len() <= u32::MAX,
    ensures
        final(out)@ == old(out)@ + nested_hits(cs@, n@, text),
    decreases cs, 0nat,
{
    let ghost o0 = out@;
    let mut i: usize = 0;
    proof {
        assert(o0 + nested_hits(cs@.take(0), n@, text) =~= o0);
    }
    while i < cs.len()
        invariant
            i <= cs@.len(),
            nc@ == n@,
            n@.len() > 0,
            views(lines@) == text_lines(text),
            lines@.len() <= u32::MAX,
            forall|k: int| 0 <= k < lines@.len() ==> #[trigger] lines@[k]@.len() <= u32::MAX,
            out@ == o0 + nested_hits(cs@.take(i as int), n@, text),
        decreases cs.len() - i,
    {
        proof {
            assert(decreases_to!(cs => cs@[i as int]));
        }
        collect_hit(&cs[i].name, n, out);
        collect_class_hits(&cs[i], n, nc, lines, Ghost(text), out);
        proof {
            let t = cs@.take(i as int + 1);
            assert(t.drop_last() =~= cs@.take(i as int));
            assert(t.last() == cs@[i as int]);
            assert(out@ =~= o0 + nested_hits(t, n@, text));
        }
        i = i + 1;
    }
    assert(cs@.take(i as int) =~= cs@);
}

/// The hits of the top-level classes of a document (see `top_hits`).
fn collect_top_hits(def: &StoredDefinition, n: &String, text: &str) -> (r: Vec<(u32, u32)>)
    requires
        n@.len() > 0,
        text@.len() <= u32::MAX,
    ensures
        r@ == top_hits(def.class_list@, n@, text@),
{
    let lines = text_lines_of(text);
    let nc = crate::text::str_to_chars(n.as_str());
    let cs = &def.class_list;
    let mut out: Vec<(u32, u32)> = Vec::new();
    let mut i: usize = 0;
    proof {
        assert(out@ =~= top_hits(cs@.take(0), n@, text@));
    }
    while i < cs.len()
        invariant
            i <= cs@.len(),
            nc@ == n@,
            n@.len() > 0,
            views(lines@) == text_lines(text@),
            lines@.len() <= u32::MAX,
            forall|k: int| 0 <= k < lines@.len() ==> #[trigger] lines@[k]@.len() <= u32::MAX,
            out@ == top_hits(cs@.take(i as int), n@, text@),
        decreases cs.len() - i,
    {
        let ghost o1 = out@;
        collect_class_hits(&cs[i], n, &nc, &lines, Ghost(text@), &mut out);
        proof {
            let t = cs@.take(i as int + 1);
            assert(t.drop_last() =~= cs@.take(i as int));
            assert(t.last() == cs@[i as int]);
            assert(out@ =~= top_hits(t, n@, text@));
        }
        i = i + 1;
    }
    assert(cs@.take(i as int) =~= cs@);
    out
}

// ---------------------------------------------------------------------------
// Renaming
// ---------------------------------------------------------------------------

/// Some component of `cs` is named `n`.
pub open spec fn comps_named(cs: Seq<Component>, n: Seq<char>) -> bool {
    exists|i: int| 0 <= i < cs.len() && #[trigger] cs[i].name@ == n
}

/// Some class of `cs` is named `n`.
pub open spec fn classes_named(cs: Seq<ClassDefinition>, n: Seq<char>) -> bool {
    exists|i: int| 0 <= i < cs.len() && #[trigger] cs[i].name.text@ == n
}

/// Whether a class declares `n`: as its own name, a component's, a nested
/// class's, or within a nested class.
pub open spec fn symbol_in_class(c: ClassDefinition, n: Seq<char>) -> bool
    decreases c, 1nat,
{
    c.name.text@ == n || comps_named(c.components@, n) || classes_named(c.classes@, n) || any_symbol_in(c.classes@, n)
}

/// Whether some class of `cs` declares `n`.
pub open spec fn any_symbol_in(cs: Seq<ClassDefinition>, n: Seq<char>) -> bool
    decreases cs, 0nat,
{
    cs.len() > 0 && (any_symbol_in(cs.drop_last(), n) || symbol_in_class(cs.last(), n))
}

/// Whether a document declares `n`, so that it can be renamed.
pub open spec fn renameable(def: StoredDefinition, n: Seq<char>) -> bool {
    any_symbol_in(def.class_list@, n)
}

/// Whether a class declares `name` (see `symbol_in_class`).
fn is_symbol_in_class(c: &ClassDefinition, name: &String) -> (r: bool)
    ensures
        r == symbol_in_class(*c, name@),
    decreases c, 1nat,
{
    if c.name.text == *name {
        return true;
    }
    let mut i: usize = 0;
    while i < c.components.len()
        invariant
            i <= c.components@.len(),
            forall|k: int| 0 <= k < i ==> c.components@[k].name@ != name@,
        decreases c.components.len() - i,
    {
        if c.components[i].name == *name {
            assert(c.components@[i as int].name@ == name@);
            return true;
        }
        i = i + 1;
    }
    let mut j: usize = 0;
    while j < c.classes.len()
        invariant
            j <= c.classes@.len(),
            forall|k: int| 0 <= k < j ==> c.classes@[k].name.text@ != name@,
        decreases c.classes.len() - j,
    {
        if c.classes[j].name.text == *name {
            assert(c.classes@[j as int].name.text@ == name@);
            return true;
        }
        j = j + 1;
    }
    proof {
        assert(decreases_to!(c => c.classes));
    }
    any_symbol(&c.classes, name)
}

/// Whether some class declares `name` (see `any_symbol_in`).
fn any_symbol(cs: &Vec<ClassDefinition>, name: &String) -> (r: bool)
    ensures
        r == any_symbol_in(cs@, name@),
    decreases cs, 0nat,
{
    let mut i: usize = 0;
    while i < cs.len()
        invariant
            i <= cs@.len(),
            !any_symbol_in(cs@.take(i as int), name@),
        decreases cs.len() - i,
    {
        proof {
            assert(decreases_to!(cs => cs@[i as int]));
            let t = cs@.take(i as int + 1);
            assert(t.drop_last() =~= cs@.take(i as int));
            assert(t.last() == cs@[i as int]);
        }
        if is_symbol_in_class(&cs[i], name) {
            proof {
                lemma_any_symbol_prefix(cs@, name@, i as int + 1);
            }
            return true;
        }
        i = i + 1;
    }
    assert(cs@.take(i as int) =~= cs@);
    false
}

proof fn lemma_any_symbol_prefix(cs: Seq<ClassDefinition>, n: Seq<char>, k: int)
    requires
        0 <= k <= cs.len(),
        any_symbol_in(cs.take(k), n),
    ensures
        any_symbol_in(cs, n),
    decreases cs.len(),
{
    if k < cs.len() {
        assert(cs.drop_last().take(k) =~= cs.take(k));
        lemma_any_symbol_prefix(cs.drop_last(), n, k);
    } else {
        assert(cs.take(k) =~= cs);
    }
}

/// Whether a document declares `name` (see `renameable`).
pub fn is_renameable_symbol(def: &StoredDefinition, name: &String) -> (r: bool)
    ensures
        r == renameable(*def, name@),
{
    any_symbol(&def.class_list, name)
}

/// `a` comes after `b` in a document.
pub open spec fn later(a: (u32, u32), b: (u32, u32)) -> bool {
    a.0 > b.0 || (a.0 == b.0 && a.1 > b.1)
}

/// Positions from last to first, none twice.
pub open spec fn strictly_descending(s: Seq<(u32, u32)>) -> bool {
    forall|i: int, j: int| 0 <= i < j < s.len() ==> later(#[trigger] s[i], #[trigger] s[j])
}

fn is_later(a: (u32, u32), b: (u32, u32)) -> (r: bool)
    ensures
        r == later(a, b),
{
    a.0 > b.0 || (a.0 == b.0 && a.1 > b.1)
}

/// Inserts `x` in its place, unless it is there.
fn insert_descending(v: &mut Vec<(u32, u32)>, x: (u32, u32))
    requires
        strictly_descending(old(v)@),
    ensures
        strictly_descending(final(v)@),
        final(v)@.to_set() == old(v)@.to_set().insert(x),
{
    let mut i: usize = 0;
    while i < v.len() && is_later(v[i], x)
        invariant
            i <= v@.len(),
            forall|k: int| 0 <= k < i ==> later(#[trigger] v@[k], x),
        decreases v.len() - i,
    {
        i = i + 1;
    }
    let ghost s0 = v@;
    if i < v.len() && v[i].0 == x.0 && v[i].1 == x.1 {
        proof {
            assert(s0.to_set().insert(x) =~= s0.to_set());
        }
        return;
    }
    v.insert(i, x);
    proof {
        let s1 = v@;
        assert(s1 == s0.insert(i as int, x));
        assert forall|a: int, b: int| 0 <= a < b < s1.len() implies later(#[trigger] s1[a], #[trigger] s1[b]) by {
            if b < i {
                assert(s1[a] == s0[a] && s1[b] == s0[b]);
            } else if b == i {
                assert(s1[a] == s0[a]);
            } else if a == i {
                assert(s1[b] == s0[b - 1]);
                assert(later(x, s0[i as int]));
                if b - 1 > i {
                    assert(later(s0[i as int], s0[b - 1]));
                }
            } else if a < i {
                assert(s1[a] == s0[a] && s1[b] == s0[b - 1]);
            } else {
                assert(s1[a] == s0[a - 1] && s1[b] == s0[b - 1]);
            }
        }
        assert forall|y: (u32, u32)| s1.to_set().contains(y) <==> s0.to_set().insert(x).contains(y) by {
            if s1.to_set().contains(y) {
                let k = choose|k: int| 0 <= k < s1.len() && s1[k] == y;
                if k < i {
                    assert(s0[k] == y);
                } else if k > i {
                    assert(s0[k - 1] == y);
                }
            }
            if s0.to_set().contains(y) {
                let k = choose|k: int| 0 <= k < s0.len() && s0[k] == y;
                if k < i {
                    assert(s1[k] == y);
                } else {
                    assert(s1[k + 1] == y);
                }
            }
            if y == x {
                assert(s1[i as int] == x);
            }
        }
        assert(s1.to_set() =~= s0.to_set().insert(x));
    }
}

/// The distinct positions, from last to first.
fn descending_unique(ps: &Vec<(u32, u32)>) -> (r: Vec<(u32, u32)>)
    ensures
        strictly_descending(r@),
        r@.to_set() == ps@.to_set(),
{
    let mut out: Vec<(u32, u32)> = Vec::new();
    let mut i: usize = 0;
    proof {
        assert(out@.to_set() =~= ps@.take(0).to_set());
    }
    while i < ps.len()
        invariant
            i <= ps@.len(),
            strictly_descending(out@),
            out@.to_set() == ps@.take(i as int).to_set(),
        decreases ps.len() - i,
    {
        insert_descending(&mut out, ps[i]);
        proof {
            let t = ps@.take(i as int + 1);
            let t0 = ps@.take(i as int);
            assert(t =~= t0.push(ps@[i as int]));
            assert forall|y: (u32, u32)| t.to_set().contains(y) <==> t0.to_set().insert(ps@[i as int]).contains(y) by {
                if t.to_set().contains(y) {
                    let k = choose|k: int| 0 <= k < t.len() && t[k] == y;
                    if k < i {
                        assert(t0[k] == y);
                    }
                }
                if t0.to_set().contains(y) {
                    let k = choose|k: int| 0 <= k < t0.len() && t0[k] == y;
                    assert(t[k] == y);
                }
                if y == ps@[i as int] {
                    assert(t[i as int] == y);
                }
            }
            assert(t.to_set() =~= t0.to_set().insert(ps@[i as int]));
        }
        i = i + 1;
    }
    assert(ps@.take(i as int) =~= ps@);
    out
}

/// Where edits start.
pub open spec fn edit_starts(es: Seq<TextEdit>) -> Seq<(u32, u32)> {
    es.map_values(|e: TextEdit| (e.range.start.line, e.range.start.character))
}

/// The edits renaming `old_name` to `new_name` in a document: none where
/// the document does not declare it or it occurs nowhere; else one at each
/// distinct occurrence (see `top_hits`), from the last to the first.
pub fn rename_edits(def: &StoredDefinition, text: &str, old_name: &String, new_name: &str) -> (r: Option<Vec<TextEdit>>)
    requires
        text@.len() <= u32::MAX,
        old_name@.len() > 0 || !renameable(*def, old_name@),
        ends_fit(top_hits(def.class_list@, old_name@, text@), old_name@.len()),
    ensures
        match r {
            None => !renameable(*def, old_name@) || top_hits(def.class_list@, old_name@, text@).len() == 0,
            Some(es) => {
                &&& renameable(*def, old_name@)
                &&& top_hits(def.class_list@, old_name@, text@).len() > 0
                &&& strictly_descending(edit_starts(es@))
                &&& edit_starts(es@).to_set() == top_hits(def.class_list@, old_name@, text@).to_set()
                &&& edit_views(es@) == edits_at(edit_starts(es@), old_name@.len(), new_name@)
            },
        },
{
    if !is_renameable_symbol(def, old_name) {
        return None;
    }
    let hits = collect_top_hits(def, old_name, text);
    if hits.len() == 0 {
        return None;
    }
    let starts = descending_unique(&hits);
    proof {
        assert forall|k: int| 0 <= k < starts@.len() implies (#[trigger] starts@[k]).1 + old_name@.len() <= u32::MAX by {
            assert(starts@.to_set().contains(starts@[k]));
            assert(hits@.to_set().contains(starts@[k]));
            let j = choose|j: int| 0 <= j < hits@.len() && hits@[j] == starts@[k];
            assert(hits@[j].1 + old_name@.len() <= u32::MAX);
        }
        assert(hits@.to_set().contains(hits@[0]));
    }
    let mut edits: Vec<TextEdit> = Vec::new();
    let n = crate::text::str_to_chars(old_name.as_str()).len();
    push_edits(&mut edits, &starts, n, new_name);
    proof {
        assert(edit_views(edits@) =~= edits_at(starts@, old_name@.len(), new_name@));
        assert forall|k: int| 0 <= k < starts@.len() implies #[trigger] edit_starts(edits@)[k] == starts@[k] by {
            assert(edit_views(edits@)[k] == edits_at(starts@, old_name@.len(), new_name@)[k]);
        }
        assert(edit_starts(edits@) =~= starts@);
    }
    Some(edits)
}


// ---------------------------------------------------------------------------
// Laws
// ---------------------------------------------------------------------------

proof fn lemma_eqs_hits_has(s: Seq<Equation>, n: Seq<char>, i: int, k: int)
    requires
        0 <= i < s.len(),
        0 <= k < eq_hits(s[i], n).len(),
    ensures
        eqs_hits(s, n).contains(eq_hits(s[i], n)[k]),
    decreases s.len(),
{
    let whole = eqs_hits(s, n);
    let front = eqs_hits(s.drop_last(), n);
    if i == s.len() - 1 {
        assert(whole[front.len() + k] == eq_hits(s[i], n)[k]);
    } else {
        assert(s.drop_last()[i] == s[i]);
        lemma_eqs_hits_has(s.drop_last(), n, i, k);
        let j = choose|j: int| 0 <= j < front.len() && front[j] == eq_hits(s[i], n)[k];
        assert(whole[j] == front[j]);
    }
}

proof fn lemma_sts_hits_has(s: Seq<Statement>, n: Seq<char>, i: int, k: int)
    requires
        0 <= i < s.len(),
        0 <= k < st_hits(s[i], n).len(),
    ensures
        sts_hits(s, n).contains(st_hits(s[i], n)[k]),
    decreases s.len(),
{
    let whole = sts_hits(s, n);
    let front = sts_hits(s.drop_last(), n);
    if i == s.len() - 1 {
        assert(whole[front.len() + k] == st_hits(s[i], n)[k]);
    } else {
        assert(s.drop_last()[i] == s[i]);
        lemma_sts_hits_has(s.drop_last(), n, i, k);
        let j = choose|j: int| 0 <= j < front.len() && front[j] == st_hits(s[i], n)[k];
        assert(whole[j] == front[j]);
    }
}

proof fn lemma_algs_hits_has(s: Seq<Vec<Statement>>, n: Seq<char>, i: int, k: int)
    requires
        0 <= i < s.len(),
        0 <= k < sts_hits(s[i]@, n).len(),
    ensures
        algs_hits(s, n).contains(sts_hits(s[i]@, n)[k]),
    decreases s.len(),
{
    let whole = algs_hits(s, n);
    let front = algs_hits(s.drop_last(), n);
    if i == s.len() - 1 {
        assert(whole[front.len() + k] == sts_hits(s[i]@, n)[k]);
    } else {
        assert(s.drop_last()[i] == s[i]);
        lemma_algs_hits_has(s.drop_last(), n, i, k);
        let j = choose|j: int| 0 <= j < front.len() && front[j] == sts_hits(s[i]@, n)[k];
        assert(whole[j] == front[j]);
    }
}

proof fn lemma_comps_hits_has(s: Seq<Component>, n: Seq<char>, text: Seq<char>, i: int, k: int)
    requires
        0 <= i < s.len(),
        0 <= k < comp_hits(s[i], n, text).len(),
    ensures
        comps_hits(s, n, text).contains(comp_hits(s[i], n, text)[k]),
    decreases s.len(),
{
    let whole = comps_hits(s, n, text);
    let front = comps_hits(s.drop_last(), n, text);
    if i == s.len() - 1 {
        assert(whole[front.len() + k] == comp_hits(s[i], n, text)[k]);
    } else {
        assert(s.drop_last()[i] == s[i]);
        lemma_comps_hits_has(s.drop_last(), n, text, i, k);
        let j = choose|j: int| 0 <= j < front.len() && front[j] == comp_hits(s[i], n, text)[k];
        assert(whole[j] == front[j]);
    }
}

proof fn lemma_nested_hits_has(s: Seq<ClassDefinition>, n: Seq<char>, text: Seq<char>, i: int, k: int)
    requires
        0 <= i < s.len(),
        0 <= k < class_hits(s[i], n, text).len(),
    ensures
        nested_hits(s, n, text).contains(class_hits(s[i], n, text)[k]),
    decreases s.len(),
{
    let whole = nested_hits(s, n, text);
    let front = nested_hits(s.drop_last(), n, text);
    if i == s.len() - 1 {
        let mid = hit(s.last().name, n);
        assert(whole == front + mid + class_hits(s.last(), n, text));
        assert(whole[front.len() + mid.len() + k] == class_hits(s[i], n, text)[k]);
    } else {
        assert(s.drop_last()[i] == s[i]);
        lemma_nested_hits_has(s.drop_last(), n, text, i, k);
        let j = choose|j: int| 0 <= j < front.len() && front[j] == class_hits(s[i], n, text)[k];
        assert(whole[j] == front[j]);
    }
}

proof fn lemma_top_hits_has(s: Seq<ClassDefinition>, n: Seq<char>, text: Seq<char>, i: int, k: int)
    requires
        0 <= i < s.len(),
        0 <= k < class_hits(s[i], n, text).len(),
    ensures
        top_hits(s, n, text).contains(class_hits(s[i], n, text)[k]),
    decreases s.len(),
{
    let whole = top_hits(s, n, text);
    let front = top_hits(s.drop_last(), n, text);
    if i == s.len() - 1 {
        assert(whole[front.len() + k] == class_hits(s[i], n, text)[k]);
    } else {
        assert(s.drop_last()[i] == s[i]);
        lemma_top_hits_has(s.drop_last(), n, text, i, k);
        let j = choose|j: int| 0 <= j < front.len() && front[j] == class_hits(s[i], n, text)[k];
        assert(whole[j] == front[j]);
    }
}

/// Law: the places a rename edits in a class cover every section of it:
/// each occurrence found in an equation or an initial equation, in a
/// statement of an algorithm or initial algorithm section, in a component,
/// or in a nested class is among the class's places.
pub proof fn lemma_class_hits_cover_sections(c: ClassDefinition, n: Seq<char>, text: Seq<char>)
    ensures
        forall|i: int, k: int| 0 <= i < c.equations@.len() && 0 <= k < eq_hits(c.equations@[i], n).len()
            ==> class_hits(c, n, text).contains(#[trigger] eq_hits(c.equations@[i], n)[k]),
        forall|i: int, k: int| 0 <= i < c.initial_equations@.len() && 0 <= k < eq_hits(c.initial_equations@[i], n).len()
            ==> class_hits(c, n, text).contains(#[trigger] eq_hits(c.initial_equations@[i], n)[k]),
        forall|a: int, i: int, k: int| 0 <= a < c.algorithms@.len() && 0 <= i < c.algorithms@[a]@.len() && 0 <= k < st_hits(
            c.algorithms@[a]@[i],
            n,
        ).len() ==> class_hits(c, n, text).contains(#[trigger] st_hits(c.algorithms@[a]@[i], n)[k]),
        forall|a: int, i: int, k: int| 0 <= a < c.initial_algorithms@.len() && 0 <= i < c.initial_algorithms@[a]@.len() && 0 <= k
            < st_hits(c.initial_algorithms@[a]@[i], n).len() ==> class_hits(c, n, text).contains(
            #[trigger] st_hits(c.initial_algorithms@[a]@[i], n)[k],
        ),
        forall|i: int, k: int| 0 <= i < c.components@.len() && 0 <= k < comp_hits(c.components@[i], n, text).len()
            ==> class_hits(c, n, text).contains(#[trigger] comp_hits(c.components@[i], n, text)[k]),
        forall|i: int, k: int| 0 <= i < c.classes@.len() && 0 <= k < class_hits(c.classes@[i], n, text).len()
            ==> class_hits(c, n, text).contains(#[trigger] class_hits(c.classes@[i], n, text)[k]),
{
    let whole = class_hits(c, n, text);
    let head = if c.name.text@ == n {
        seq![at(c.name)] + text_end_hits(text, n)
    } else {
        seq![]
    };
    let s1 = head + comps_hits(c.components@, n, text);
    let s2 = s1 + eqs_hits(c.equations@, n);
    let s3 = s2 + eqs_hits(c.initial_equations@, n);
    let s4 = s3 + algs_hits(c.algorithms@, n);
    let s5 = s4 + algs_hits(c.initial_algorithms@, n);
    assert(whole == s5 + nested_hits(c.classes@, n, text));
    assert forall|i: int, k: int| 0 <= i < c.components@.len() && 0 <= k < comp_hits(c.components@[i], n, text).len()
        implies whole.contains(#[trigger] comp_hits(c.components@[i], n, text)[k]) by {
        lemma_comps_hits_has(c.components@, n, text, i, k);
        let part = comps_hits(c.components@, n, text);
        let j = choose|j: int| 0 <= j < part.len() && part[j] == comp_hits(c.components@[i], n, text)[k];
        assert(whole[head.len() + j] == part[j]);
    }
    assert forall|i: int, k: int| 0 <= i < c.equations@.len() && 0 <= k < eq_hits(c.equations@[i], n).len()
        implies whole.contains(#[trigger] eq_hits(c.equations@[i], n)[k]) by {
        lemma_eqs_hits_has(c.equations@, n, i, k);
        let part = eqs_hits(c.equations@, n);
        let j = choose|j: int| 0 <= j < part.len() && part[j] == eq_hits(c.equations@[i], n)[k];
        assert(whole[s1.len() + j] == part[j]);
    }
    assert forall|i: int, k: int| 0 <= i < c.initial_equations@.len() && 0 <= k < eq_hits(c.initial_equations@[i], n).len()
        implies whole.contains(#[trigger] eq_hits(c.initial_equations@[i], n)[k]) by {
        lemma_eqs_hits_has(c.initial_equations@, n, i, k);
        let part = eqs_hits(c.initial_equations@, n);
        let j = choose|j: int| 0 <= j < part.len() && part[j] == eq_hits(c.initial_equations@[i], n)[k];
        assert(whole[s2.len() + j] == part[j]);
    }
    assert forall|a: int, i: int, k: int| 0 <= a < c.algorithms@.len() && 0 <= i < c.algorithms@[a]@.len() && 0 <= k < st_hits(
        c.algorithms@[a]@[i],
        n,
    ).len() implies whole.contains(#[trigger] st_hits(c.algorithms@[a]@[i], n)[k]) by {
        lemma_sts_hits_has(c.algorithms@[a]@, n, i, k);
        let inner = sts_hits(c.algorithms@[a]@, n);
        let j0 = choose|j: int| 0 <= j < inner.len() && inner[j] == st_hits(c.algorithms@[a]@[i], n)[k];
        lemma_algs_hits_has(c.algorithms@, n, a, j0);
        let part = algs_hits(c.algorithms@, n);
        let j = choose|j: int| 0 <= j < part.len() && part[j] == inner[j0];
        assert(whole[s3.len() + j] == part[j]);
    }
    assert forall|a: int, i: int, k: int| 0 <= a < c.initial_algorithms@.len() && 0 <= i < c.initial_algorithms@[a]@.len() && 0
        <= k < st_hits(c.initial_algorithms@[a]@[i], n).len() implies whole.contains(
        #[trigger] st_hits(c.initial_algorithms@[a]@[i], n)[k],
    ) by {
        lemma_sts_hits_has(c.initial_algorithms@[a]@, n, i, k);
        let inner = sts_hits(c.initial_algorithms@[a]@, n);
        let j0 = choose|j: int| 0 <= j < inner.len() && inner[j] == st_hits(c.initial_algorithms@[a]@[i], n)[k];
        lemma_algs_hits_has(c.initial_algorithms@, n, a, j0);
        let part = algs_hits(c.initial_algorithms@, n);
        let j = choose|j: int| 0 <= j < part.len() && part[j] == inner[j0];
        assert(whole[s4.len() + j] == part[j]);
    }
    assert forall|i: int, k: int| 0 <= i < c.classes@.len() && 0 <= k < class_hits(c.classes@[i], n, text).len()
        implies whole.contains(#[trigger] class_hits(c.classes@[i], n, text)[k]) by {
        lemma_nested_hits_has(c.classes@, n, text, i, k);
        let part = nested_hits(c.classes@, n, text);
        let j = choose|j: int| 0 <= j < part.len() && part[j] == class_hits(c.classes@[i], n, text)[k];
        assert(whole[s5.len() + j] == part[j]);
    }
}

/// Law: every place found in any class of a document is edited by
/// `rename_edits` (whose contract gives the set of edit starts as that of
/// `top_hits`).
pub proof fn lemma_top_hits_cover_classes(cs: Seq<ClassDefinition>, n: Seq<char>, text: Seq<char>)
    ensures
        forall|i: int, k: int| 0 <= i < cs.len() && 0 <= k < class_hits(cs[i], n, text).len() ==> top_hits(cs, n, text).contains(
            #[trigger] class_hits(cs[i], n, text)[k],
        ),
{
    assert forall|i: int, k: int| 0 <= i < cs.len() && 0 <= k < class_hits(cs[i], n, text).len() implies top_hits(cs, n, text).contains(
        #[trigger] class_hits(cs[i], n, text)[k],
    ) by {
        lemma_top_hits_has(cs, n, text, i, k);
    }
}

} // verus!
