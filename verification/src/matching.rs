//! Maximum bipartite matching between equations and variables
//! (the Hopcroft-Karp algorithm).
use vstd::prelude::*;

verus! {

/// Marker for "not matched" in the pairing arrays.
pub const NIL: usize = usize::MAX;

/// Number of entries of a pairing array that are matched (not `NIL`).
pub open spec fn count_matched(s: Seq<usize>) -> nat
    decreases s.len(),
{
    if s.len() == 0 {
        0
    } else {
        count_matched(s.drop_last()) + if s.last() != NIL { 1nat } else { 0nat }
    }
}

/// Hopcroft-Karp state: a bipartite graph of equations (left) and variables
/// (right), with the current matching and the BFS layer labels.
pub struct HopcroftKarp {
    /// Number of equations (left side).
    pub n_equations: usize,
    /// Number of variables (right side).
    pub n_variables: usize,
    /// `adj[eq]` lists the variables equation `eq` may be matched to.
    pub adj: Vec<Vec<usize>>,
    /// `pair_eq[eq]` is the variable matched to `eq`, or `NIL`.
    pub pair_eq: Vec<usize>,
    /// `pair_var[var]` is the equation matched to `var`, or `NIL`.
    pub pair_var: Vec<usize>,
    /// Layer labels of the last breadth-first search (`dist[n_equations]` stands for "free variable").
    pub dist: Vec<usize>,
}

/// The adjacency lists are well formed for the given sizes.
pub open spec fn adjacency_ok(adj: Seq<Vec<usize>>, n_equations: nat, n_variables: nat) -> bool {
    &&& adj.len() == n_equations
    &&& forall|e: int, k: int|
        0 <= e < adj.len() && 0 <= k < adj[e]@.len() ==> #[trigger] adj[e]@[k] < n_variables
}

/// `m` assigns to each equation a variable it is adjacent to, or `NIL`,
/// and no variable is assigned twice.
pub open spec fn is_matching(adj: Seq<Vec<usize>>, n_variables: nat, m: Seq<usize>) -> bool {
    &&& m.len() == adj.len()
    &&& forall|e: int|
        0 <= e < m.len() && #[trigger] m[e] != NIL ==> m[e] < n_variables && adj[e]@.contains(m[e])
    &&& forall|e1: int, e2: int|
        0 <= e1 < m.len() && 0 <= e2 < m.len() && e1 != e2 && #[trigger] m[e1] != NIL ==> m[e1]
            != #[trigger] m[e2]
}

impl HopcroftKarp {
    pub open spec fn n(self) -> int {
        self.n_equations as int
    }

    /// Every matched equation points to an adjacent variable that points back.
    pub open spec fn eq_side_ok(self) -> bool {
        forall|e: int|
            0 <= e < self.n() && #[trigger] self.pair_eq@[e] != NIL ==> {
                &&& self.pair_eq@[e] < self.n_variables
                &&& self.adj@[e]@.contains(self.pair_eq@[e])
                &&& self.pair_var@[self.pair_eq@[e] as int] == e
            }
    }

    /// Every variable other than `hole` that points to an equation is pointed back to.
    pub open spec fn var_side_ok_except(self, hole: usize) -> bool {
        forall|v: int|
            0 <= v < self.n_variables ==> {
                &&& (#[trigger] self.pair_var@[v] == NIL || self.pair_var@[v] < self.n_equations)
                &&& (v != hole && self.pair_var@[v] != NIL) ==> self.pair_eq@[self.pair_var@[v] as int]
                    == v
            }
    }

    /// Every finite layer label is at most the number of equations.
    pub open spec fn dist_ok(self) -> bool {
        &&& self.dist@.len() == self.n() + 1
        &&& forall|i: int| 0 <= i <= self.n() ==> #[trigger] self.dist@[i] == NIL || self.dist@[i] <= self.n()
    }

    pub open spec fn sizes_ok(self) -> bool {
        &&& self.n_equations + 2 < NIL
        &&& adjacency_ok(self.adj@, self.n_equations as nat, self.n_variables as nat)
        &&& self.pair_eq@.len() == self.n_equations
        &&& self.pair_var@.len() == self.n_variables
    }

    /// The state is well formed and the pairing arrays describe a consistent matching.
    pub open spec fn wf(self) -> bool {
        &&& self.sizes_ok()
        &&& self.eq_side_ok()
        &&& self.var_side_ok_except(NIL)
        &&& self.dist_ok()
    }

    /// Creates a solver for `n_equations` equations and `n_variables` variables,
    /// with `adj[eq]` listing the variables equation `eq` may be matched to.
    /// The matching starts empty.
    pub fn new(n_equations: usize, n_variables: usize, adj: Vec<Vec<usize>>) -> (r: Self)
        requires
            n_equations + 2 < NIL,
            adjacency_ok(adj@, n_equations as nat, n_variables as nat),
        ensures
            r.wf(),
            r.n_equations == n_equations,
            r.n_variables == n_variables,
            r.adj@ == adj@,
            forall|e: int| 0 <= e < n_equations ==> r.pair_eq@[e] == NIL,
            forall|v: int| 0 <= v < n_variables ==> r.pair_var@[v] == NIL,
    {
        let mut pair_eq: Vec<usize> = Vec::new();
        let mut i: usize = 0;
        while i < n_equations
            invariant
                i <= n_equations,
                pair_eq@.len() == i,
                forall|e: int| 0 <= e < i ==> pair_eq@[e] == NIL,
            decreases n_equations - i,
        {
            pair_eq.push(NIL);
            i = i + 1;
        }
        let mut pair_var: Vec<usize> = Vec::new();
        let mut j: usize = 0;
        while j < n_variables
            invariant
                j <= n_variables,
                pair_var@.len() == j,
                forall|v: int| 0 <= v < j ==> pair_var@[v] == NIL,
            decreases n_variables - j,
        {
            pair_var.push(NIL);
            j = j + 1;
        }
        let mut dist: Vec<usize> = Vec::new();
        let mut k: usize = 0;
        while k < n_equations + 1
            invariant
                n_equations + 2 < NIL,
                k <= n_equations + 1,
                dist@.len() == k,
                forall|d: int| 0 <= d < k ==> dist@[d] == 0,
            decreases n_equations + 1 - k,
        {
            dist.push(0);
            k = k + 1;
        }
        HopcroftKarp { n_equations, n_variables, adj, pair_eq, pair_var, dist }
    }

    /// For each equation, the variable it is matched to.
    pub fn get_equation_matching(&self) -> (r: Vec<Option<usize>>)
        ensures
            r@.len() == self.pair_eq@.len(),
            forall|e: int|
                0 <= e < r@.len() ==> #[trigger] r@[e] == (if self.pair_eq@[e] == NIL {
                    None
                } else {
                    Some(self.pair_eq@[e])
                }),
    {
        let mut r: Vec<Option<usize>> = Vec::new();
        let mut i: usize = 0;
        while i < self.pair_eq.len()
            invariant
                i <= self.pair_eq@.len(),
                r@.len() == i,
                forall|e: int|
                    0 <= e < i ==> #[trigger] r@[e] == (if self.pair_eq@[e] == NIL {
                        None
                    } else {
                        Some(self.pair_eq@[e])
                    }),
            decreases self.pair_eq@.len() - i,
        {
            let v = self.pair_eq[i];
            if v == NIL {
                r.push(None);
            } else {
                r.push(Some(v));
            }
            i = i + 1;
        }
        r
    }
}


/// A sequence of distinct values below `n` that misses some value below `n`
/// is shorter than `n`; without the missing value it is at most `n` long.
pub proof fn lemma_distinct_below_len(q: Seq<usize>, n: nat, missing: Option<usize>)
    requires
        q.no_duplicates(),
        forall|i: int| 0 <= i < q.len() ==> #[trigger] q[i] < n,
        missing matches Some(m) ==> m < n && !q.contains(m),
    ensures
        q.len() <= n,
        missing is Some ==> q.len() < n,
{
    let qi = q.map_values(|v: usize| v as int);
    assert forall|i: int, j: int| 0 <= i < qi.len() && 0 <= j < qi.len() && i != j implies qi[i] != qi[j] by {
        assert(q[i] != q[j]);
    }
    assert(qi.no_duplicates());
    qi.unique_seq_to_set();
    vstd::set_lib::lemma_int_range(0, n as int);
    let full = vstd::set_lib::set_int_range(0, n as int);
    let target = match missing {
        Some(m) => full.remove(m as int),
        None => full,
    };
    assert forall|x: int| qi.to_set().contains(x) implies target.contains(x) by {
        let i = choose|i: int| 0 <= i < qi.len() && qi[i] == x;
        assert(q[i] < n);
        if let Some(m) = missing {
            if x == m as int {
                assert(q[i] == m);
                assert(q.contains(m));
            }
        }
    }
    vstd::set_lib::lemma_len_subset(qi.to_set(), target);
}

impl HopcroftKarp {
    /// Index in `dist` of the node reached through variable `v`: the equation
    /// matched to it, or the free-variable slot `n_equations`.
    pub open spec fn next_index(self, v: usize) -> int {
        let nx = self.pair_var@[v as int];
        if nx == NIL {
            self.n()
        } else {
            nx as int
        }
    }

    /// Edge `k` of equation `e` climbs exactly one layer.
    pub open spec fn level_step(self, e: int, k: int) -> bool {
        self.dist@[self.next_index(self.adj@[e]@[k])] == self.dist@[e] + 1
    }

    /// Equation `e` has a path, climbing one layer per edge, to a free variable.
    pub open spec fn reaches_free(self, e: int) -> bool
        decreases self.n() + 1 - self.dist@[e],
    {
        if 0 <= e < self.n() && self.dist@[e] <= self.n() {
            exists|k: int|
                0 <= k < self.adj@[e]@.len() && #[trigger] self.level_step(e, k) && (
                self.pair_var@[self.adj@[e]@[k] as int] == NIL || self.reaches_free(
                    self.pair_var@[self.adj@[e]@[k] as int] as int,
                ))
        } else {
            false
        }
    }

    /// Node `x` (an equation, or the free-variable slot) was labelled from a
    /// node one layer below.
    pub open spec fn has_parent(self, x: int) -> bool {
        exists|p: int, k: int|
            0 <= p < self.n() && 0 <= k < self.adj@[p]@.len() && self.dist@[p] != NIL
                && self.next_index(self.adj@[p]@[k]) == x && #[trigger] self.level_step(p, k)
    }

    /// Every labelled equation only leads, through its variables, to matched
    /// variables whose equations are labelled too.
    pub open spec fn layers_closed(self) -> bool {
        forall|e: int, k: int|
            0 <= e < self.n() && self.dist@[e] != NIL && 0 <= k < self.adj@[e]@.len() ==> {
                &&& #[trigger] self.pair_var@[self.adj@[e]@[k] as int] != NIL
                &&& self.dist@[self.pair_var@[self.adj@[e]@[k] as int] as int] != NIL
            }
    }

    pub open spec fn var_range_ok(self) -> bool {
        forall|v: int|
            0 <= v < self.n_variables ==> #[trigger] self.pair_var@[v] == NIL || self.pair_var@[v]
                < self.n_equations
    }

    /// Setting the labels of non-reaching equations to `NIL` keeps every other
    /// equation's reachability.
    pub proof fn lemma_kill_preserves(s1: Self, s2: Self, x: int)
        requires
            s1.sizes_ok(),
            s1.var_range_ok(),
            s1.n_equations == s2.n_equations,
            s1.n_variables == s2.n_variables,
            s1.adj@ == s2.adj@,
            s1.pair_var@ == s2.pair_var@,
            s1.dist@.len() == s1.n() + 1,
            s2.dist@.len() == s1.n() + 1,
            s2.dist@[s1.n()] == s1.dist@[s1.n()],
            forall|y: int|
                0 <= y < s1.n() && #[trigger] s2.dist@[y] != s1.dist@[y] ==> s2.dist@[y] == NIL
                    && !s1.reaches_free(y),
            0 <= x < s1.n(),
            s2.dist@[x] == s1.dist@[x],
        ensures
            s2.reaches_free(x) == s1.reaches_free(x),
        decreases s1.n() + 1 - s1.dist@[x],
    {
        if s1.dist@[x] <= s1.n() {
            let deg = s1.adj@[x]@.len();
            if s1.reaches_free(x) {
                let k = choose|k: int|
                    0 <= k < deg && #[trigger] s1.level_step(x, k) && (s1.pair_var@[s1.adj@[x]@[k] as int]
                        == NIL || s1.reaches_free(s1.pair_var@[s1.adj@[x]@[k] as int] as int));
                let v = s1.adj@[x]@[k];
                assert(v < s1.n_variables);
                let nx = s1.pair_var@[v as int];
                if nx != NIL {
                    assert(s2.dist@[nx as int] == s1.dist@[nx as int]);
                    Self::lemma_kill_preserves(s1, s2, nx as int);
                }
                assert(s2.level_step(x, k));
            }
            if s2.reaches_free(x) {
                let k = choose|k: int|
                    0 <= k < deg && #[trigger] s2.level_step(x, k) && (s2.pair_var@[s2.adj@[x]@[k] as int]
                        == NIL || s2.reaches_free(s2.pair_var@[s2.adj@[x]@[k] as int] as int));
                let v = s1.adj@[x]@[k];
                assert(v < s1.n_variables);
                let nx = s1.pair_var@[v as int];
                if nx != NIL {
                    assert(s2.dist@[nx as int] == s2.dist@[x] + 1);
                    assert(s2.dist@[nx as int] == s1.dist@[nx as int]);
                    Self::lemma_kill_preserves(s1, s2, nx as int);
                }
                assert(s1.level_step(x, k));
            }
        }
    }
}

impl HopcroftKarp {
    /// The pairing arrays and the graph of `self` are those of `other`.
    pub open spec fn same_graph_and_pairs(self, other: Self) -> bool {
        &&& self.n_equations == other.n_equations
        &&& self.n_variables == other.n_variables
        &&& self.adj@ == other.adj@
        &&& self.pair_eq@ == other.pair_eq@
        &&& self.pair_var@ == other.pair_var@
    }

    /// Breadth-first search labelling equations by their distance, along
    /// alternating paths, from the unmatched equations. Returns whether a free
    /// variable was reached.
    pub fn bfs(&mut self) -> (r: bool)
        requires
            old(self).wf(),
        ensures
            final(self).wf(),
            final(self).same_graph_and_pairs(*old(self)),
            forall|e: int| 0 <= e < final(self).n() ==> (#[trigger] final(self).pair_eq@[e] == NIL) == (final(self).dist@[e] == 0),
            forall|x: int|
                0 <= x <= final(self).n() && #[trigger] final(self).dist@[x] != NIL && final(self).dist@[x] != 0
                    ==> final(self).has_parent(x),
            r == (final(self).dist@[final(self).n()] != NIL),
            final(self).dist@[final(self).n()] != 0,
            !r ==> final(self).layers_closed(),
    {
        let n = self.n_equations;
        let ghost s0 = *self;
        let mut queue: Vec<usize> = Vec::new();
        let mut e0: usize = 0;
        while e0 < n
            invariant
                self.same_graph_and_pairs(s0),
                s0.wf(),
                n == s0.n_equations,
                e0 <= n,
                self.dist@.len() == n + 1,
                queue@.no_duplicates(),
                forall|j: int| 0 <= j < queue@.len() ==> #[trigger] queue@[j] < e0,
                forall|x: int| 0 <= x < e0 ==> ((#[trigger] self.dist@[x] != NIL) == queue@.contains(x as usize)),
                forall|x: int| 0 <= x < e0 ==> (#[trigger] self.pair_eq@[x] == NIL) == (self.dist@[x] == 0),
                forall|x: int| 0 <= x < e0 ==> #[trigger] self.dist@[x] == NIL || self.dist@[x] == 0,
                forall|j: int| 0 <= j < queue@.len() ==> self.dist@[#[trigger] queue@[j] as int] == 0,
            decreases n - e0,
        {
            let ghost old_q = queue@;
            if self.pair_eq[e0] == NIL {
                self.dist.set(e0, 0);
                queue.push(e0);
            } else {
                self.dist.set(e0, NIL);
            }
            proof {
                assert forall|x: int| 0 <= x < e0 + 1 implies ((#[trigger] self.dist@[x] != NIL) == queue@.contains(x as usize)) by {
                    if x == e0 as int {
                        if self.dist@[x] != NIL {
                            assert(queue@[queue@.len() - 1] == e0);
                        }
                    } else {
                        if old_q.contains(x as usize) {
                            let j = choose|j: int| 0 <= j < old_q.len() && old_q[j] == x as usize;
                            assert(queue@[j] == x as usize);
                        }
                        if queue@.contains(x as usize) {
                            let j = choose|j: int| 0 <= j < queue@.len() && queue@[j] == x as usize;
                            if j < old_q.len() {
                                assert(old_q[j] == x as usize);
                            }
                        }
                    }
                }
            }
            e0 = e0 + 1;
        }
        self.dist.set(n, NIL);
        proof {
            lemma_distinct_below_len(queue@, n as nat, None);
        }
        let mut head: usize = 0;
        while head < queue.len()
            invariant
                self.same_graph_and_pairs(s0),
                s0.wf(),
                n == s0.n_equations,
                self.dist@.len() == n + 1,
                head <= queue@.len(),
                queue@.len() <= n,
                queue@.no_duplicates(),
                forall|j: int| 0 <= j < queue@.len() ==> #[trigger] queue@[j] < n,
                forall|x: int| 0 <= x < n ==> ((#[trigger] self.dist@[x] != NIL) == queue@.contains(x as usize)),
                forall|j: int| 0 <= j < queue@.len() ==> self.dist@[#[trigger] queue@[j] as int] <= j,
                self.dist@[n as int] == NIL || self.dist@[n as int] <= queue@.len(),
                self.dist@[n as int] != 0,
                forall|x: int| 0 <= x < n ==> (#[trigger] self.pair_eq@[x] == NIL) == (self.dist@[x] == 0),
                forall|x: int|
                    0 <= x <= n && #[trigger] self.dist@[x] != NIL && self.dist@[x] != 0 ==> self.has_parent(x),
                self.dist@[n as int] == NIL ==> forall|j: int, k: int|
                    0 <= j < head && 0 <= k < self.adj@[queue@[j] as int]@.len() ==> {
                        &&& #[trigger] self.pair_var@[self.adj@[queue@[j] as int]@[k] as int] != NIL
                        &&& self.dist@[self.pair_var@[self.adj@[queue@[j] as int]@[k] as int] as int] != NIL
                    },
            decreases n - head,
        {
            let e = queue[head];
            let ghost h = head as int;
            head = head + 1;
            if self.dist[e] < self.dist[n] {
                let deg = self.adj[e].len();
                let mut k: usize = 0;
                while k < deg
                    invariant
                        self.same_graph_and_pairs(s0),
                        s0.wf(),
                        n == s0.n_equations,
                        self.dist@.len() == n + 1,
                        head == h + 1,
                        head <= queue@.len(),
                        queue@.len() <= n,
                        queue@[h] == e,
                        e < n,
                        deg == self.adj@[e as int]@.len(),
                        k <= deg,
                        self.dist@[e as int] <= h,
                        self.dist@[e as int] < self.dist@[n as int] || self.dist@[n as int] != NIL,
                        queue@.no_duplicates(),
                        forall|j: int| 0 <= j < queue@.len() ==> #[trigger] queue@[j] < n,
                        forall|x: int| 0 <= x < n ==> ((#[trigger] self.dist@[x] != NIL) == queue@.contains(x as usize)),
                        forall|j: int| 0 <= j < queue@.len() ==> self.dist@[#[trigger] queue@[j] as int] <= j,
                        self.dist@[n as int] == NIL || self.dist@[n as int] <= queue@.len(),
                        self.dist@[n as int] != 0,
                        forall|x: int| 0 <= x < n ==> (#[trigger] self.pair_eq@[x] == NIL) == (self.dist@[x] == 0),
                        forall|x: int|
                            0 <= x <= n && #[trigger] self.dist@[x] != NIL && self.dist@[x] != 0 ==> self.has_parent(x),
                        self.dist@[n as int] == NIL ==> forall|j: int, kk: int|
                            0 <= j < h && 0 <= kk < self.adj@[queue@[j] as int]@.len() ==> {
                                &&& #[trigger] self.pair_var@[self.adj@[queue@[j] as int]@[kk] as int] != NIL
                                &&& self.dist@[self.pair_var@[self.adj@[queue@[j] as int]@[kk] as int] as int] != NIL
                            },
                        self.dist@[n as int] == NIL ==> forall|kk: int|
                            0 <= kk < k ==> {
                                &&& #[trigger] self.pair_var@[self.adj@[e as int]@[kk] as int] != NIL
                                &&& self.dist@[self.pair_var@[self.adj@[e as int]@[kk] as int] as int] != NIL
                            },
                    decreases deg - k,
                {
                    let var = self.adj[e][k];
                    assert(var < self.n_variables);
                    let next_eq = self.pair_var[var];
                    let next_idx = if next_eq == NIL { n } else { next_eq };
                    if self.dist[next_idx] == NIL {
                        let ghost before = *self;
                        let ghost before_q = queue@;
                        let d = self.dist[e] + 1;
                        self.dist.set(next_idx, d);
                        assert(self.level_step(e as int, k as int));
                        assert(self.has_parent(next_idx as int));
                        if next_eq != NIL {
                            proof {
                                lemma_distinct_below_len(queue@, n as nat, Some(next_eq));
                            }
                            queue.push(next_eq);
                            assert(queue@[queue@.len() - 1] == next_eq);
                        }
                        assert forall|x: int| 0 <= x < n implies ((#[trigger] self.dist@[x] != NIL) == queue@.contains(x as usize)) by {
                            if x != next_idx as int {
                                assert(before.dist@[x] == self.dist@[x]);
                                if before.dist@[x] != NIL {
                                    let j = choose|j: int| 0 <= j < before_q.len() && before_q[j] == x as usize;
                                    assert(queue@[j] == x as usize);
                                }
                            }
                        }
                        assert forall|x: int|
                            0 <= x <= n && #[trigger] self.dist@[x] != NIL && self.dist@[x] != 0
                                implies self.has_parent(x) by {
                            if x != next_idx as int {
                                assert(before.has_parent(x));
                                let (p, kp) = choose|p: int, kp: int|
                                    0 <= p < before.n() && 0 <= kp < before.adj@[p]@.len()
                                        && before.dist@[p] != NIL && before.next_index(before.adj@[p]@[kp]) == x
                                        && #[trigger] before.level_step(p, kp);
                                assert(p != next_idx as int);
                                assert(self.level_step(p, kp));
                            }
                        }
                    }
                    k = k + 1;
                }
            }
        }
        assert(self.dist_ok());
        let r = self.dist[n] != NIL;
        proof {
            if !r {
                assert forall|e: int, k: int|
                    0 <= e < self.n() && self.dist@[e] != NIL && 0 <= k < self.adj@[e]@.len() implies {
                        &&& #[trigger] self.pair_var@[self.adj@[e]@[k] as int] != NIL
                        &&& self.dist@[self.pair_var@[self.adj@[e]@[k] as int] as int] != NIL
                    } by {
                    assert(queue@.contains(e as usize));
                    let j = choose|j: int| 0 <= j < queue@.len() && queue@[j] == e as usize;
                }
            }
        }
        r
    }
}

impl HopcroftKarp {
    /// After a search that reached a free variable, some unmatched equation
    /// reaches a free variable in the layered graph.
    pub proof fn lemma_free_equation_reaches(s: Self)
        requires
            s.wf(),
            forall|e: int| 0 <= e < s.n() ==> (#[trigger] s.pair_eq@[e] == NIL) == (s.dist@[e] == 0),
            forall|x: int|
                0 <= x <= s.n() && #[trigger] s.dist@[x] != NIL && s.dist@[x] != 0 ==> s.has_parent(x),
            s.dist@[s.n()] != NIL,
            s.dist@[s.n()] != 0,
        ensures
            exists|e: int| 0 <= e < s.n() && s.pair_eq@[e] == NIL && #[trigger] s.reaches_free(e),
    {
        assert(s.has_parent(s.n()));
        let (p, k) = choose|p: int, k: int|
            0 <= p < s.n() && 0 <= k < s.adj@[p]@.len() && s.dist@[p] != NIL && s.next_index(s.adj@[p]@[k])
                == s.n() && #[trigger] s.level_step(p, k);
        assert(s.adj@[p]@[k] < s.n_variables);
        assert(s.pair_var@[s.adj@[p]@[k] as int] == NIL);
        assert(s.reaches_free(p));
        Self::lemma_parent_chain(s, p);
    }

    proof fn lemma_parent_chain(s: Self, x: int)
        requires
            s.wf(),
            forall|e: int| 0 <= e < s.n() ==> (#[trigger] s.pair_eq@[e] == NIL) == (s.dist@[e] == 0),
            forall|y: int|
                0 <= y <= s.n() && #[trigger] s.dist@[y] != NIL && s.dist@[y] != 0 ==> s.has_parent(y),
            0 <= x < s.n(),
            s.dist@[x] != NIL,
            s.reaches_free(x),
        ensures
            exists|e: int| 0 <= e < s.n() && s.pair_eq@[e] == NIL && #[trigger] s.reaches_free(e),
        decreases s.dist@[x],
    {
        if s.dist@[x] == 0 {
            assert(s.pair_eq@[x] == NIL);
        } else {
            assert(s.has_parent(x));
            let (p, k) = choose|p: int, k: int|
                0 <= p < s.n() && 0 <= k < s.adj@[p]@.len() && s.dist@[p] != NIL && s.next_index(
                    s.adj@[p]@[k],
                ) == x && #[trigger] s.level_step(p, k);
            assert(s.adj@[p]@[k] < s.n_variables);
            assert(s.pair_var@[s.adj@[p]@[k] as int] == x as usize);
            assert(s.reaches_free(p));
            Self::lemma_parent_chain(s, p);
        }
    }

    /// Depth-first search for an augmenting path from `eq` in the layered
    /// graph; on success the path is flipped into the matching.
    pub fn dfs(&mut self, eq: usize) -> (r: bool)
        requires
            old(self).wf(),
            eq == NIL || (eq < old(self).n_equations && old(self).dist@[eq as int] <= old(self).n()),
        ensures
            final(self).sizes_ok(),
            final(self).dist_ok(),
            final(self).n_equations == old(self).n_equations,
            final(self).n_variables == old(self).n_variables,
            final(self).adj@ == old(self).adj@,
            final(self).dist@[old(self).n()] == old(self).dist@[old(self).n()],
            forall|x: int|
                0 <= x < old(self).n() && #[trigger] final(self).dist@[x] != old(self).dist@[x] ==> {
                    &&& final(self).dist@[x] == NIL
                    &&& old(self).dist@[x] <= old(self).n()
                    &&& (x == eq as int || old(self).dist@[x] > old(self).dist@[eq as int])
                },
            eq == NIL ==> r && *final(self) == *old(self),
            !r ==> {
                &&& eq != NIL
                &&& final(self).pair_eq@ == old(self).pair_eq@
                &&& final(self).pair_var@ == old(self).pair_var@
                &&& final(self).dist@[eq as int] == NIL
                &&& !old(self).reaches_free(eq as int)
                &&& forall|x: int|
                    0 <= x < old(self).n() && #[trigger] final(self).dist@[x] != old(self).dist@[x]
                        ==> !old(self).reaches_free(x)
            },
            (r && eq != NIL) ==> {
                &&& final(self).eq_side_ok()
                &&& final(self).var_side_ok_except(old(self).pair_eq@[eq as int])
                &&& final(self).pair_eq@[eq as int] != NIL
                &&& final(self).pair_eq@[eq as int] != old(self).pair_eq@[eq as int]
                &&& forall|x: int|
                    0 <= x < old(self).n() && x != eq ==> (#[trigger] final(self).pair_eq@[x] != NIL)
                        == (old(self).pair_eq@[x] != NIL)
                &&& forall|x: int|
                    0 <= x < old(self).n() && #[trigger] final(self).pair_eq@[x] != old(self).pair_eq@[x]
                        ==> old(self).dist@[x] <= old(self).n() && old(self).dist@[x] >= old(self).dist@[eq as int]
                &&& forall|v: int|
                    0 <= v < old(self).n_variables && #[trigger] final(self).pair_var@[v] != old(self).pair_var@[v] ==> {
                        &&& final(self).pair_var@[v] < old(self).n_equations
                        &&& old(self).dist@[final(self).pair_var@[v] as int] <= old(self).n()
                        &&& old(self).dist@[final(self).pair_var@[v] as int] >= old(self).dist@[eq as int]
                        &&& (old(self).pair_var@[v] == NIL || old(self).dist@[old(self).pair_var@[v] as int]
                            > old(self).dist@[eq as int])
                    }
            },
        decreases (if eq == NIL { 0 } else { self.n() + 1 - self.dist@[eq as int] }),
    {
        if eq == NIL {
            return true;
        }
        let ghost s0 = *self;
        let n = self.n_equations;
        let deg = self.adj[eq].len();
        let mut i: usize = 0;
        while i < deg
            invariant
                s0 == *old(self),
                s0.wf(),
                eq < n,
                n == s0.n_equations,
                s0.dist@[eq as int] <= n,
                deg == s0.adj@[eq as int]@.len(),
                i <= deg,
                self.same_graph_and_pairs(s0),
                self.dist@.len() == n + 1,
                self.dist_ok(),
                self.dist@[eq as int] == s0.dist@[eq as int],
                self.dist@[n as int] == s0.dist@[n as int],
                forall|x: int|
                    0 <= x < n && #[trigger] self.dist@[x] != s0.dist@[x] ==> {
                        &&& self.dist@[x] == NIL
                        &&& s0.dist@[x] <= n
                        &&& s0.dist@[x] > s0.dist@[eq as int]
                        &&& !s0.reaches_free(x)
                    },
                forall|kk: int|
                    0 <= kk < i ==> !(#[trigger] s0.level_step(eq as int, kk) && (s0.pair_var@[s0.adj@[eq as int]@[kk] as int]
                        == NIL || s0.reaches_free(s0.pair_var@[s0.adj@[eq as int]@[kk] as int] as int))),
            decreases deg - i,
        {
            let var = self.adj[eq][i];
            assert(var < self.n_variables);
            let next_eq = self.pair_var[var];
            let next_idx = if next_eq == NIL { n } else { next_eq };
            let ghost s_mid = *self;
            if self.dist[next_idx] == self.dist[eq] + 1 {
                proof {
                    assert(self.wf());
                }
                if self.dfs(next_eq) {
                    let ghost s_child = *self;
                    self.pair_var.set(var, eq);
                    self.pair_eq.set(eq, var);
                    proof {
                        assert(s0.adj@[eq as int]@[i as int] == var);
                        assert(s0.adj@[eq as int]@.contains(var));
                        // level step from eq through var holds in s0
                        assert(s_mid.dist@[next_idx as int] == s0.dist@[next_idx as int]);
                        assert forall|x: int| 0 <= x < n && #[trigger] self.dist@[x] != s0.dist@[x] implies {
                            &&& self.dist@[x] == NIL
                            &&& s0.dist@[x] <= n
                            &&& (x == eq as int || s0.dist@[x] > s0.dist@[eq as int])
                        } by {
                            if s_mid.dist@[x] != s0.dist@[x] {
                            } else {
                                assert(s_child.dist@[x] != s_mid.dist@[x]);
                            }
                        }
                    }
                    return true;
                } else {
                    proof {
                        let s_now = *self;
                        assert forall|y: int| 0 <= y < n && #[trigger] s_mid.dist@[y] != s0.dist@[y] implies s_mid.dist@[y] == NIL && !s0.reaches_free(y) by {}
                        assert forall|x: int| 0 <= x < n && #[trigger] self.dist@[x] != s0.dist@[x] implies {
                            &&& self.dist@[x] == NIL
                            &&& s0.dist@[x] <= n
                            &&& s0.dist@[x] > s0.dist@[eq as int]
                            &&& !s0.reaches_free(x)
                        } by {
                            if s_mid.dist@[x] != s0.dist@[x] {
                                assert(s_now.dist@[x] == s_mid.dist@[x]);
                            } else {
                                assert(s_now.dist@[x] != s_mid.dist@[x]);
                                Self::lemma_kill_preserves(s0, s_mid, x);
                            }
                        }
                        assert(next_eq != NIL);
                        assert(s_mid.dist@[next_eq as int] == s0.dist@[next_eq as int]);
                        Self::lemma_kill_preserves(s0, s_mid, next_eq as int);
                        assert(!(s0.level_step(eq as int, i as int) && (s0.pair_var@[s0.adj@[eq as int]@[i as int] as int]
                            == NIL || s0.reaches_free(s0.pair_var@[s0.adj@[eq as int]@[i as int] as int] as int))));
                    }
                }
            } else {
                proof {
                    if next_eq != NIL && s_mid.dist@[next_eq as int] != s0.dist@[next_eq as int] {
                        assert(!s0.reaches_free(next_eq as int));
                    }
                    assert(!(s0.level_step(eq as int, i as int) && (s0.pair_var@[s0.adj@[eq as int]@[i as int] as int]
                        == NIL || s0.reaches_free(s0.pair_var@[s0.adj@[eq as int]@[i as int] as int] as int))));
                }
            }
            i = i + 1;
        }
        self.dist.set(eq, NIL);
        proof {
            if s0.reaches_free(eq as int) {
                let k = choose|k: int|
                    0 <= k < s0.adj@[eq as int]@.len() && #[trigger] s0.level_step(eq as int, k) && (
                    s0.pair_var@[s0.adj@[eq as int]@[k] as int] == NIL || s0.reaches_free(
                        s0.pair_var@[s0.adj@[eq as int]@[k] as int] as int,
                    ));
                assert(false);
            }
        }
        false
    }
}

/// The count of matched entries never exceeds the length.
pub proof fn lemma_count_matched_le(s: Seq<usize>)
    ensures
        count_matched(s) <= s.len(),
    decreases s.len(),
{
    if s.len() > 0 {
        lemma_count_matched_le(s.drop_last());
    }
}

/// A sequence with an unmatched entry has fewer matched entries than its length.
pub proof fn lemma_count_matched_lt(s: Seq<usize>, e: int)
    requires
        0 <= e < s.len(),
        s[e] == NIL,
    ensures
        count_matched(s) < s.len(),
    decreases s.len(),
{
    if e == s.len() - 1 {
        lemma_count_matched_le(s.drop_last());
    } else {
        assert(s.drop_last()[e] == NIL);
        lemma_count_matched_lt(s.drop_last(), e);
    }
}

/// Sequences with the same matched positions have the same count; turning
/// exactly one unmatched position into a matched one adds one.
pub proof fn lemma_count_matched_step(s1: Seq<usize>, s2: Seq<usize>, e: int)
    requires
        s1.len() == s2.len(),
        forall|x: int| 0 <= x < s1.len() && x != e ==> (#[trigger] s1[x] != NIL) == (s2[x] != NIL),
    ensures
        (0 <= e < s1.len() && s1[e] == NIL && s2[e] != NIL) ==> count_matched(s2) == count_matched(s1) + 1,
        !(0 <= e < s1.len()) || (s1[e] != NIL) == (s2[e] != NIL) ==> count_matched(s2) == count_matched(s1),
    decreases s1.len(),
{
    if s1.len() > 0 {
        let l = s1.len() - 1;
        assert forall|x: int| 0 <= x < l && x != e implies (#[trigger] s1.drop_last()[x] != NIL) == (
        s2.drop_last()[x] != NIL) by {
            assert(s1.drop_last()[x] == s1[x]);
            assert(s2.drop_last()[x] == s2[x]);
        }
        lemma_count_matched_step(s1.drop_last(), s2.drop_last(), e);
    }
}

impl HopcroftKarp {
    /// Certificate that no augmenting path exists: the labelled equations
    /// cover all unmatched ones and only reach matched variables whose
    /// equations are labelled.
    pub open spec fn no_augmenting_path(self) -> bool {
        &&& forall|e: int| 0 <= e < self.n() && #[trigger] self.pair_eq@[e] == NIL ==> self.dist@[e] != NIL
        &&& self.layers_closed()
    }

    /// Runs the algorithm to completion and returns the size of the matching.
    pub fn max_matching(&mut self) -> (r: usize)
        requires
            old(self).wf(),
        ensures
            final(self).wf(),
            final(self).n_equations == old(self).n_equations,
            final(self).n_variables == old(self).n_variables,
            final(self).adj@ == old(self).adj@,
            r + count_matched(old(self).pair_eq@) == count_matched(final(self).pair_eq@),
            final(self).no_augmenting_path(),
    {
        let n = self.n_equations;
        let ghost s_in = *self;
        let mut matching: usize = 0;
        loop
            invariant
                self.wf(),
                n == s_in.n_equations,
                self.n_equations == s_in.n_equations,
                self.n_variables == s_in.n_variables,
                self.adj@ == s_in.adj@,
                matching + count_matched(s_in.pair_eq@) == count_matched(self.pair_eq@),
            ensures
                self.wf(),
                self.n_equations == s_in.n_equations,
                self.n_variables == s_in.n_variables,
                self.adj@ == s_in.adj@,
                matching + count_matched(s_in.pair_eq@) == count_matched(self.pair_eq@),
                self.no_augmenting_path(),
            decreases n - count_matched(self.pair_eq@),
        {
            proof {
                lemma_count_matched_le(self.pair_eq@);
            }
            if !self.bfs() {
                break;
            }
            proof {
                Self::lemma_free_equation_reaches(*self);
            }
            let ghost e0 = choose|e: int| 0 <= e < self.n() && self.pair_eq@[e] == NIL && #[trigger] self.reaches_free(e);
            let ghost start_matching = matching;
            proof {
                lemma_count_matched_lt(self.pair_eq@, e0);
            }
            let ghost start_pairs = self.pair_eq@;
            let mut eq: usize = 0;
            while eq < n
                invariant
                    self.sizes_ok(),
                    self.eq_side_ok(),
                    self.var_side_ok_except(NIL),
                    self.dist_ok(),
                    n == s_in.n_equations,
                    self.n_equations == s_in.n_equations,
                    self.n_variables == s_in.n_variables,
                    self.adj@ == s_in.adj@,
                    eq <= n,
                    0 <= e0 < n,
                    start_matching + count_matched(s_in.pair_eq@) < n,
                    matching + count_matched(s_in.pair_eq@) == count_matched(self.pair_eq@),
                    matching >= start_matching,
                    forall|x: int| eq <= x < n && #[trigger] self.pair_eq@[x] == NIL ==> self.dist@[x] == 0,
                    matching == start_matching ==> {
                        &&& self.pair_eq@ == start_pairs
                        &&& start_pairs[e0] == NIL
                        &&& (eq <= e0 ==> self.reaches_free(e0))
                    },
                    eq > e0 ==> matching > start_matching,
                decreases n - eq,
            {
                let ghost pre = *self;
                proof {
                    lemma_count_matched_le(self.pair_eq@);
                }
                if self.pair_eq[eq] == NIL && self.dfs(eq) {
                    proof {
                        lemma_count_matched_step(pre.pair_eq@, self.pair_eq@, eq as int);
                    }
                    matching = matching + 1;
                } else {
                    proof {
                        if pre.pair_eq@[eq as int] == NIL {
                            // the search failed: only unreachable equations were relabelled
                            if matching == start_matching && eq < e0 {
                                assert(self.dist@[e0] == pre.dist@[e0]);
                                Self::lemma_kill_preserves(pre, *self, e0);
                            }
                        } else {
                            if matching == start_matching && eq < e0 {
                                assert(*self == pre);
                            }
                        }
                    }
                }
                proof {
                    assert forall|x: int| eq + 1 <= x < n && #[trigger] self.pair_eq@[x] == NIL implies self.dist@[x] == 0 by {
                        assert(pre.pair_eq@[x] == NIL);
                        assert(pre.dist@[x] == 0);
                    }
                }
                eq = eq + 1;
            }
            proof {
                lemma_count_matched_le(self.pair_eq@);
                assert(matching > start_matching);
            }
        }
        matching
    }
}

/// Indices below `n` satisfying `p`.
pub open spec fn index_set(n: int, p: spec_fn(int) -> bool) -> Set<int> {
    Set::new(|i: int| 0 <= i < n && p(i))
}

proof fn lemma_index_set_finite(n: int, p: spec_fn(int) -> bool)
    requires
        0 <= n,
    ensures
        index_set(n, p).finite(),
        index_set(n, p).len() <= n,
{
    vstd::set_lib::lemma_int_range(0, n);
    assert(index_set(n, p).subset_of(vstd::set_lib::set_int_range(0, n)));
    vstd::set_lib::lemma_len_subset(index_set(n, p), vstd::set_lib::set_int_range(0, n));
}

proof fn lemma_count_matched_is_set_len(s: Seq<usize>)
    ensures
        count_matched(s) == index_set(s.len() as int, |i: int| s[i] != NIL).len(),
        index_set(s.len() as int, |i: int| s[i] != NIL).finite(),
    decreases s.len(),
{
    let p = |i: int| s[i] != NIL;
    lemma_index_set_finite(s.len() as int, p);
    if s.len() > 0 {
        let d = s.drop_last();
        let l = d.len() as int;
        lemma_count_matched_is_set_len(d);
        let pd = |i: int| d[i] != NIL;
        assert(index_set(l, pd) =~= index_set(l, p));
        if s[l] != NIL {
            assert(index_set(l + 1, p) =~= index_set(l, p).insert(l));
        } else {
            assert(index_set(l + 1, p) =~= index_set(l, p));
        }
    } else {
        assert(index_set(0, p) =~= Set::empty());
    }
}

impl HopcroftKarp {
    /// Law: the pairing of a well-formed state is a matching of its graph.
    pub proof fn lemma_pairing_is_matching(s: Self)
        requires
            s.wf(),
        ensures
            is_matching(s.adj@, s.n_variables as nat, s.pair_eq@),
    {
        assert forall|e1: int, e2: int|
            0 <= e1 < s.pair_eq@.len() && 0 <= e2 < s.pair_eq@.len() && e1 != e2 && #[trigger] s.pair_eq@[e1]
                != NIL implies s.pair_eq@[e1] != #[trigger] s.pair_eq@[e2] by {
            if s.pair_eq@[e2] == s.pair_eq@[e1] {
                assert(s.pair_var@[s.pair_eq@[e1] as int] == e1);
                assert(s.pair_var@[s.pair_eq@[e2] as int] == e2);
            }
        }
    }

    /// Law: once no augmenting path remains, the matching is maximum: no
    /// matching of the same graph matches more equations.
    pub proof fn lemma_matching_is_maximum(s: Self, other: Seq<usize>)
        requires
            s.wf(),
            s.no_augmenting_path(),
            is_matching(s.adj@, s.n_variables as nat, other),
        ensures
            count_matched(other) <= count_matched(s.pair_eq@),
    {
        let n = s.n();
        let m = s.pair_eq@;
        let in_r = |e: int| s.dist@[e] != NIL;
        let a_r = index_set(n, |e: int| other[e] != NIL && s.dist@[e] != NIL);
        let a_out = index_set(n, |e: int| other[e] != NIL && s.dist@[e] == NIL);
        let b_r = index_set(n, |e: int| m[e] != NIL && s.dist@[e] != NIL);
        let b_out = index_set(n, |e: int| m[e] != NIL && s.dist@[e] == NIL);
        let outside = index_set(n, |e: int| s.dist@[e] == NIL);
        lemma_index_set_finite(n, |e: int| other[e] != NIL && s.dist@[e] != NIL);
        lemma_index_set_finite(n, |e: int| other[e] != NIL && s.dist@[e] == NIL);
        lemma_index_set_finite(n, |e: int| m[e] != NIL && s.dist@[e] != NIL);
        lemma_index_set_finite(n, |e: int| m[e] != NIL && s.dist@[e] == NIL);
        lemma_index_set_finite(n, |e: int| s.dist@[e] == NIL);
        lemma_count_matched_is_set_len(other);
        lemma_count_matched_is_set_len(m);
        // split both counts by membership in the labelled set
        assert(index_set(n, |i: int| other[i] != NIL) =~= a_r + a_out);
        assert(index_set(n, |i: int| m[i] != NIL) =~= b_r + b_out);
        vstd::set_lib::lemma_set_disjoint_lens(a_r, a_out);
        vstd::set_lib::lemma_set_disjoint_lens(b_r, b_out);
        // every unlabelled equation is matched
        assert(b_out =~= outside);
        assert(a_out.subset_of(outside));
        vstd::set_lib::lemma_len_subset(a_out, outside);
        // labelled equations matched by `other` inject into labelled matched equations
        let f = |e: int| s.pair_var@[other[e] as int] as int;
        assert forall|e: int| a_r.contains(e) implies b_r.contains(#[trigger] f(e)) by {
            let v = other[e];
            assert(s.adj@[e]@.contains(v));
            let k = choose|k: int| 0 <= k < s.adj@[e]@.len() && s.adj@[e]@[k] == v;
            assert(s.pair_var@[s.adj@[e]@[k] as int] != NIL);
            let x = s.pair_var@[v as int];
            assert(s.pair_eq@[x as int] == v);
        }
        assert(vstd::relations::injective_on(f, a_r)) by {
            assert forall|e1: int, e2: int| a_r.contains(e1) && a_r.contains(e2) && #[trigger] f(e1) == #[trigger] f(e2)
                implies e1 == e2 by {
                let v1 = other[e1];
                let v2 = other[e2];
                assert(s.adj@[e1]@.contains(v1));
                assert(s.adj@[e2]@.contains(v2));
                let k1 = choose|k: int| 0 <= k < s.adj@[e1]@.len() && s.adj@[e1]@[k] == v1;
                let k2 = choose|k: int| 0 <= k < s.adj@[e2]@.len() && s.adj@[e2]@[k] == v2;
                assert(s.pair_var@[s.adj@[e1]@[k1] as int] != NIL);
                assert(s.pair_var@[s.adj@[e2]@[k2] as int] != NIL);
                assert(s.pair_eq@[s.pair_var@[v1 as int] as int] == v1);
                assert(s.pair_eq@[s.pair_var@[v2 as int] as int] == v2);
                if e1 != e2 {
                    assert(other[e1] != other[e2]);
                }
            }
        }
        vstd::set_lib::lemma_map_size(a_r, a_r.map(f), f);
        assert(a_r.map(f).subset_of(b_r));
        vstd::set_lib::lemma_len_subset(a_r.map(f), b_r);
    }
}
} // verus!
