//! Lists of names: lookup, lexicographic order and sorted sets.
use vstd::prelude::*;

verus! {

/// The character views of a list of names.
pub open spec fn views(v: Seq<Vec<char>>) -> Seq<Seq<char>> {
    v.map_values(|x: Vec<char>| x@)
}

/// Lexicographic order of character sequences (a proper prefix comes first).
pub open spec fn lex_lt(a: Seq<char>, b: Seq<char>) -> bool
    decreases a.len(),
{
    if a.len() == 0 {
        b.len() > 0
    } else if b.len() == 0 {
        false
    } else if a[0] < b[0] {
        true
    } else if a[0] == b[0] {
        lex_lt(a.drop_first(), b.drop_first())
    } else {
        false
    }
}

/// No name is before itself.
pub proof fn lemma_lex_irreflexive(a: Seq<char>)
    ensures
        !lex_lt(a, a),
    decreases a.len(),
{
    if a.len() > 0 {
        lemma_lex_irreflexive(a.drop_first());
    }
}

/// The order is transitive.
pub proof fn lemma_lex_transitive(a: Seq<char>, b: Seq<char>, c: Seq<char>)
    requires
        lex_lt(a, b),
        lex_lt(b, c),
    ensures
        lex_lt(a, c),
    decreases a.len(),
{
    if a.len() > 0 && b.len() > 0 && c.len() > 0 && a[0] == b[0] && b[0] == c[0] {
        lemma_lex_transitive(a.drop_first(), b.drop_first(), c.drop_first());
    }
}

/// Of two different names, one is before the other.
pub proof fn lemma_lex_total(a: Seq<char>, b: Seq<char>)
    requires
        a != b,
    ensures
        lex_lt(a, b) || lex_lt(b, a),
    decreases a.len(),
{
    if a.len() > 0 && b.len() > 0 && a[0] == b[0] {
        if a.drop_first() == b.drop_first() {
            assert(a =~= seq![a[0]] + a.drop_first());
            assert(b =~= seq![b[0]] + b.drop_first());
        }
        lemma_lex_total(a.drop_first(), b.drop_first());
    }
    if a.len() == 0 && b.len() == 0 {
        assert(a =~= b);
    }
}

proof fn lemma_lex_skip(a: Seq<char>, b: Seq<char>, i: int)
    requires
        0 <= i <= a.len(),
        i <= b.len(),
        forall|k: int| 0 <= k < i ==> a[k] == b[k],
    ensures
        lex_lt(a, b) == lex_lt(a.skip(i), b.skip(i)),
    decreases i,
{
    if i > 0 {
        lemma_lex_skip(a.drop_first(), b.drop_first(), i - 1);
        assert(a.drop_first().skip(i - 1) =~= a.skip(i));
        assert(b.drop_first().skip(i - 1) =~= b.skip(i));
    } else {
        assert(a.skip(0) =~= a);
        assert(b.skip(0) =~= b);
    }
}

/// Whether `a` comes before `b`.
pub fn lex_less(a: &[char], b: &[char]) -> (r: bool)
    ensures
        r == lex_lt(a@, b@),
{
    let mut i: usize = 0;
    while i < a.len() && i < b.len() && a[i] == b[i]
        invariant
            i <= a@.len(),
            i <= b@.len(),
            forall|k: int| 0 <= k < i ==> a@[k] == b@[k],
        decreases a@.len() - i,
    {
        i = i + 1;
    }
    proof {
        lemma_lex_skip(a@, b@, i as int);
    }
    if i == a.len() {
        i < b.len()
    } else if i == b.len() {
        false
    } else {
        a[i] < b[i]
    }
}

/// The position of the first name in `list` equal to `name`.
pub fn position(list: &Vec<Vec<char>>, name: &[char]) -> (r: Option<usize>)
    ensures
        match r {
            Some(i) => i < list@.len() && list@[i as int]@ == name@ && forall|j: int| 0 <= j < i ==> #[trigger] list@[j]@ != name@,
            None => forall|j: int| 0 <= j < list@.len() ==> #[trigger] list@[j]@ != name@,
        },
{
    let mut i: usize = 0;
    while i < list.len()
        invariant
            i <= list@.len(),
            forall|j: int| 0 <= j < i ==> #[trigger] list@[j]@ != name@,
        decreases list.len() - i,
    {
        if crate::lexer::chars_equal(&list[i], name) {
            return Some(i);
        }
        i = i + 1;
    }
    None
}

/// Names in strictly increasing order.
pub open spec fn strictly_sorted(s: Seq<Seq<char>>) -> bool {
    forall|i: int, j: int| 0 <= i < j < s.len() ==> lex_lt(#[trigger] s[i], #[trigger] s[j])
}

/// Inserts `name` into a sorted list unless it is already there.
pub fn insert_sorted(list: &mut Vec<Vec<char>>, name: Vec<char>)
    requires
        strictly_sorted(views(old(list)@)),
    ensures
        strictly_sorted(views(final(list)@)),
        forall|x: Seq<char>| views(final(list)@).contains(x) <==> (views(old(list)@).contains(x) || x == name@),
{
    let ghost old_v = views(list@);
    let mut p: usize = 0;
    while p < list.len() && lex_less(&list[p], &name)
        invariant
            p <= list@.len(),
            list@ == old(list)@,
            forall|k: int| 0 <= k < p ==> lex_lt(#[trigger] list@[k]@, name@),
        decreases list@.len() - p,
    {
        p = p + 1;
    }
    if p < list.len() && crate::lexer::chars_equal(&list[p], &name) {
        proof {
            assert forall|x: Seq<char>| views(list@).contains(x) <==> (views(old(list)@).contains(x) || x == name@) by {
                if x == name@ {
                    assert(views(list@)[p as int] == x);
                }
            }
        }
        return;
    }
    proof {
        if p < list@.len() {
            lemma_lex_total(list@[p as int]@, name@);
        }
    }
    let ghost name_v = name@;
    list.insert(p, name);
    proof {
        let nv = views(list@);
        assert(nv =~= old_v.subrange(0, p as int).push(name_v) + old_v.subrange(p as int, old_v.len() as int));
        assert forall|i: int, j: int| 0 <= i < j < nv.len() implies lex_lt(#[trigger] nv[i], #[trigger] nv[j]) by {
            if j < p {
                assert(nv[i] == old_v[i] && nv[j] == old_v[j]);
            } else if j == p {
                assert(nv[i] == old_v[i]);
            } else if i == p {
                assert(nv[j] == old_v[j - 1]);
                if j - 1 > p {
                    lemma_lex_transitive(name_v, old_v[p as int], old_v[j - 1]);
                }
            } else if i < p {
                assert(nv[i] == old_v[i]);
                assert(nv[j] == old_v[j - 1]);
            } else {
                assert(nv[i] == old_v[i - 1]);
                assert(nv[j] == old_v[j - 1]);
            }
        }
        assert forall|x: Seq<char>| nv.contains(x) <==> (old_v.contains(x) || x == name_v) by {
            if old_v.contains(x) {
                let k = choose|k: int| 0 <= k < old_v.len() && old_v[k] == x;
                if k < p {
                    assert(nv[k] == x);
                } else {
                    assert(nv[k + 1] == x);
                }
            }
            if x == name_v {
                assert(nv[p as int] == x);
            }
            if nv.contains(x) {
                let k = choose|k: int| 0 <= k < nv.len() && nv[k] == x;
                if k < p {
                    assert(old_v[k] == x);
                } else if k > p {
                    assert(old_v[k - 1] == x);
                }
            }
        }
    }
}

/// The character views of a list of strings.
pub open spec fn string_views(v: Seq<String>) -> Seq<Seq<char>> {
    v.map_values(|x: String| x@)
}

/// Where `name` first stands in a list of strings, if it does.
pub fn string_position(list: &Vec<String>, name: &String) -> (r: Option<usize>)
    ensures
        match r {
            Some(i) => i < list@.len() && list@[i as int]@ == name@,
            None => !string_views(list@).contains(name@),
        },
{
    let mut i: usize = 0;
    while i < list.len()
        invariant
            i <= list@.len(),
            forall|j: int| 0 <= j < i ==> #[trigger] list@[j]@ != name@,
        decreases list.len() - i,
    {
        if list[i] == *name {
            return Some(i);
        }
        i = i + 1;
    }
    proof {
        if string_views(list@).contains(name@) {
            let k = choose|k: int| 0 <= k < list@.len() && string_views(list@)[k] == name@;
            assert(list@[k]@ == name@);
        }
    }
    None
}

/// Appends `name` to a list of distinct strings unless it is already there.
pub fn push_unique_string(list: &mut Vec<String>, name: String)
    requires
        string_views(old(list)@).no_duplicates(),
    ensures
        string_views(final(list)@).no_duplicates(),
        string_views(final(list)@).to_set() == string_views(old(list)@).to_set().insert(name@),
        string_views(old(list)@).contains(name@) ==> final(list)@ == old(list)@,
        !string_views(old(list)@).contains(name@) ==> string_views(final(list)@) == string_views(old(list)@).push(name@),
{
    let ghost before = string_views(list@);
    match string_position(list, &name) {
        Some(i) => {
            proof {
                assert(before[i as int] == name@);
                assert(before.contains(name@));
                assert(before.to_set() =~= before.to_set().insert(name@));
            }
        },
        None => {
            let ghost nv = name@;
            list.push(name);
            proof {
                let after = string_views(list@);
                assert(after =~= before.push(nv));
                assert(after.to_set() =~= before.to_set().insert(nv)) by {
                    assert forall|x: Seq<char>| after.contains(x) <==> (before.contains(x) || x == nv) by {
                        if before.contains(x) {
                            let k = choose|k: int| 0 <= k < before.len() && before[k] == x;
                            assert(after[k] == x);
                        }
                        if x == nv {
                            assert(after[before.len() as int] == x);
                        }
                        if after.contains(x) {
                            let k = choose|k: int| 0 <= k < after.len() && after[k] == x;
                            if k < before.len() {
                                assert(before[k] == x);
                            }
                        }
                    }
                }
                assert forall|a: int, b: int| 0 <= a < b < after.len() implies after[a] != after[b] by {
                    if b == before.len() {
                        assert(before[a] == after[a]);
                        assert(before.contains(after[a]));
                    } else {
                        assert(before[a] == after[a] && before[b] == after[b]);
                    }
                }
            }
        },
    }
}

/// Strings with the characters of each name.
pub fn to_strings(v: &Vec<Vec<char>>) -> (r: Vec<String>)
    ensures
        string_views(r@) == views(v@),
{
    let mut r: Vec<String> = Vec::new();
    let mut i: usize = 0;
    while i < v.len()
        invariant
            i <= v@.len(),
            string_views(r@) == views(v@.take(i as int)),
        decreases v.len() - i,
    {
        let s = crate::text::chars_to_string(&v[i]);
        let ghost before = r@;
        r.push(s);
        proof {
            assert(r@ =~= before.push(s));
            assert(views(v@.take(i as int + 1)) =~= views(v@.take(i as int)).push(v@[i as int]@));
            assert(string_views(r@) =~= string_views(before).push(s@));
        }
        i = i + 1;
    }
    proof {
        assert(v@.take(v@.len() as int) =~= v@);
    }
    r
}

/// The elements of a sequence after a push.
pub proof fn lemma_push_to_set(s: Seq<Seq<char>>, x: Seq<char>)
    ensures
        s.push(x).to_set() == s.to_set().insert(x),
{
    s.lemma_push_to_set_commute(x);
}

} // verus!
