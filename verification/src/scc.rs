//! Strongly connected components (Tarjan's algorithm).
use vstd::prelude::*;

verus! {

/// Every successor listed in `graph` is a vertex of it.
pub open spec fn graph_ok(graph: Seq<Vec<usize>>) -> bool {
    forall|v: int, k: int|
        0 <= v < graph.len() && 0 <= k < graph[v]@.len() ==> #[trigger] graph[v]@[k] < graph.len()
}

/// `x` occurs in one of the components.
pub open spec fn in_some_component(sccs: Seq<Vec<usize>>, x: usize) -> bool {
    exists|i: int, j: int| 0 <= i < sccs.len() && 0 <= j < sccs[i]@.len() && #[trigger] sccs[i]@[j] == x
}

/// No vertex occurs twice among the components.
pub open spec fn components_disjoint(sccs: Seq<Vec<usize>>) -> bool {
    forall|i1: int, j1: int, i2: int, j2: int|
        0 <= i1 < sccs.len() && 0 <= j1 < sccs[i1]@.len() && 0 <= i2 < sccs.len() && 0 <= j2
            < sccs[i2]@.len() && (i1 != i2 || j1 != j2) ==> #[trigger] sccs[i1]@[j1] != #[trigger] sccs[i2]@[j2]
}

/// The components partition the vertices `0..n`.
pub open spec fn is_partition(sccs: Seq<Vec<usize>>, n: nat) -> bool {
    &&& components_disjoint(sccs)
    &&& forall|i: int, j: int| 0 <= i < sccs.len() && 0 <= j < sccs[i]@.len() ==> #[trigger] sccs[i]@[j] < n
    &&& forall|x: usize| x < n ==> #[trigger] in_some_component(sccs, x)
    &&& forall|i: int| 0 <= i < sccs.len() ==> #[trigger] sccs[i]@.len() > 0
}

/// State of Tarjan's depth-first search.
pub struct TarjanState {
    /// The next depth-first index to hand out.
    pub index: usize,
    /// Vertices visited but not yet assigned to a component.
    pub stack: Vec<usize>,
    /// Depth-first index of each visited vertex.
    pub indices: Vec<Option<usize>>,
    /// Smallest index reachable through the vertex's subtree and one back edge.
    pub lowlinks: Vec<usize>,
    /// Whether the vertex is on `stack`.
    pub on_stack: Vec<bool>,
    /// Components found so far, in reverse topological order.
    pub sccs: Vec<Vec<usize>>,
}

pub open spec fn is_visited(o: Option<usize>) -> bool {
    o is Some
}

impl TarjanState {
    pub open spec fn n(self) -> int {
        self.indices@.len() as int
    }

    pub open spec fn idx(self, x: int) -> int {
        self.indices@[x]->0 as int
    }

    pub open spec fn wf(self) -> bool {
        &&& self.lowlinks@.len() == self.n()
        &&& self.on_stack@.len() == self.n()
        &&& self.n() < usize::MAX
        &&& self.index <= self.n()
        // indices handed out are below the counter and distinct
        &&& forall|x: int| 0 <= x < self.n() && #[trigger] is_visited(self.indices@[x]) ==> self.idx(x) < self.index
        &&& forall|x: int, y: int|
            0 <= x < self.n() && 0 <= y < self.n() && x != y && #[trigger] is_visited(self.indices@[x])
                && #[trigger] is_visited(self.indices@[y]) ==> self.idx(x) != self.idx(y)
        &&& self.index == self.visited_set().len()
        // the stack holds exactly the flagged vertices, in increasing index order
        &&& forall|i: int| 0 <= i < self.stack@.len() ==> #[trigger] self.stack@[i] < self.n()
        &&& forall|x: int| 0 <= x < self.n() ==> (#[trigger] self.on_stack@[x] == self.stack@.contains(x as usize))
        &&& forall|i: int| 0 <= i < self.stack@.len() ==> #[trigger] is_visited(self.indices@[self.stack@[i] as int])
        &&& forall|i: int, j: int|
            0 <= i < j < self.stack@.len() ==> self.idx(#[trigger] self.stack@[i] as int) < self.idx(
                #[trigger] self.stack@[j] as int,
            )
        // components hold visited vertices that left the stack; every such vertex is in one
        &&& components_disjoint(self.sccs@)
        &&& forall|i: int| 0 <= i < self.sccs@.len() ==> #[trigger] self.sccs@[i]@.len() > 0
        &&& forall|i: int, j: int|
            0 <= i < self.sccs@.len() && 0 <= j < self.sccs@[i]@.len() ==> {
                &&& #[trigger] self.sccs@[i]@[j] < self.n()
                &&& is_visited(self.indices@[self.sccs@[i]@[j] as int])
                &&& !self.on_stack@[self.sccs@[i]@[j] as int]
            }
        &&& forall|x: usize|
            x < self.n() && is_visited(self.indices@[x as int]) && !self.on_stack@[x as int]
                ==> #[trigger] in_some_component(self.sccs@, x)
    }

    pub open spec fn visited_set(self) -> Set<int> {
        Set::new(|x: int| 0 <= x < self.n() && is_visited(self.indices@[x]))
    }

    /// Creates the state for a graph of `n` vertices, none visited.
    pub fn new(n: usize) -> (r: Self)
        requires
            n < usize::MAX,
        ensures
            r.wf(),
            r.n() == n,
            r.stack@.len() == 0,
            forall|x: int| 0 <= x < n ==> !is_visited(#[trigger] r.indices@[x]),
    {
        let mut indices: Vec<Option<usize>> = Vec::new();
        let mut lowlinks: Vec<usize> = Vec::new();
        let mut on_stack: Vec<bool> = Vec::new();
        let mut i: usize = 0;
        while i < n
            invariant
                i <= n,
                indices@.len() == i,
                lowlinks@.len() == i,
                on_stack@.len() == i,
                forall|x: int| 0 <= x < i ==> #[trigger] indices@[x] is None,
                forall|x: int| 0 <= x < i ==> !#[trigger] on_stack@[x],
            decreases n - i,
        {
            indices.push(None);
            lowlinks.push(0);
            on_stack.push(false);
            i = i + 1;
        }
        let r = TarjanState { index: 0, stack: Vec::new(), indices, lowlinks, on_stack, sccs: Vec::new() };
        assert(r.visited_set() =~= Set::empty());
        r
    }
}


impl TarjanState {
    /// The frame facts of a call `strongconnect(v)` that started on state `s0`.
    pub open spec fn frame_ok(self, s0: Self, v: usize) -> bool {
        &&& self.n() == s0.n()
        &&& v < self.n()
        &&& is_visited(self.indices@[v as int])
        &&& self.idx(v as int) == s0.index
        &&& forall|x: int| 0 <= x < s0.n() && #[trigger] is_visited(s0.indices@[x]) ==> self.indices@[x] == s0.indices@[x]
        &&& self.sccs@.len() >= s0.sccs@.len()
        &&& forall|i: int| 0 <= i < s0.sccs@.len() ==> #[trigger] self.sccs@[i] == s0.sccs@[i]
        &&& forall|i: int| 0 <= i < s0.stack@.len() ==> #[trigger] self.lowlinks@[s0.stack@[i] as int] == s0.lowlinks@[s0.stack@[i] as int]
    }

    /// Visits `v` and everything reachable from it that is not yet visited,
    /// emitting each strongly connected component whose root is reached.
    pub fn strongconnect(&mut self, v: usize, graph: &[Vec<usize>])
        requires
            old(self).wf(),
            graph@.len() == old(self).n(),
            graph_ok(graph@),
            v < old(self).n(),
            !is_visited(old(self).indices@[v as int]),
        ensures
            final(self).wf(),
            final(self).frame_ok(*old(self), v),
            final(self).stack@.len() >= old(self).stack@.len(),
            forall|i: int| 0 <= i < old(self).stack@.len() ==> #[trigger] final(self).stack@[i] == old(self).stack@[i],
            final(self).lowlinks@[v as int] <= final(self).idx(v as int),
            final(self).lowlinks@[v as int] == final(self).idx(v as int) ==> final(self).stack@ == old(self).stack@,
            final(self).lowlinks@[v as int] < final(self).idx(v as int) ==> exists|i: int|
                0 <= i < old(self).stack@.len() && final(self).idx(#[trigger] old(self).stack@[i] as int)
                    == final(self).lowlinks@[v as int],
        decreases old(self).n() - old(self).index,
    {
        let ghost s0 = *self;
        proof {
            assert(!s0.visited_set().contains(v as int));
            assert(s0.visited_set().subset_of(vstd::set_lib::set_int_range(0, s0.n())));
            vstd::set_lib::lemma_int_range(0, s0.n());
            vstd::set_lib::lemma_len_subset(s0.visited_set().insert(v as int), vstd::set_lib::set_int_range(0, s0.n()));
            vstd::set_lib::lemma_len_subset(s0.visited_set(), vstd::set_lib::set_int_range(0, s0.n()));
        }
        self.indices.set(v, Some(self.index));
        self.lowlinks.set(v, self.index);
        self.index = self.index + 1;
        self.stack.push(v);
        self.on_stack.set(v, true);
        proof {
            assert(self.visited_set() =~= s0.visited_set().insert(v as int));
            assert forall|i: int, j: int|
                0 <= i < j < self.stack@.len() implies self.idx(#[trigger] self.stack@[i] as int) < self.idx(
                    #[trigger] self.stack@[j] as int) by {
                if j == self.stack@.len() - 1 {
                    assert(self.stack@[i] == s0.stack@[i]);
                    assert(is_visited(s0.indices@[s0.stack@[i] as int]));
                } else {
                    assert(self.stack@[i] == s0.stack@[i]);
                    assert(self.stack@[j] == s0.stack@[j]);
                }
            }
            assert forall|x: int| 0 <= x < self.n() implies (#[trigger] self.on_stack@[x] == self.stack@.contains(x as usize)) by {
                if x == v as int {
                    assert(self.stack@[self.stack@.len() - 1] == v);
                } else {
                    if s0.stack@.contains(x as usize) {
                        let i = choose|i: int| 0 <= i < s0.stack@.len() && s0.stack@[i] == x as usize;
                        assert(self.stack@[i] == x as usize);
                    }
                    if self.stack@.contains(x as usize) {
                        let i = choose|i: int| 0 <= i < self.stack@.len() && self.stack@[i] == x as usize;
                        if i < s0.stack@.len() {
                            assert(s0.stack@[i] == x as usize);
                        }
                    }
                }
            }
            assert forall|x: usize|
                x < self.n() && is_visited(self.indices@[x as int]) && !self.on_stack@[x as int]
                    implies #[trigger] in_some_component(self.sccs@, x) by {
                assert(in_some_component(s0.sccs@, x));
            }
        }
        let deg = graph[v].len();
        let mut k: usize = 0;
        while k < deg
            invariant
                s0 == *old(self),
                self.wf(),
                self.frame_ok(s0, v),
                s0.wf(),
                graph@.len() == s0.n(),
                graph_ok(graph@),
                v < s0.n(),
                deg == graph@[v as int]@.len(),
                k <= deg,
                self.stack@.len() > s0.stack@.len(),
                forall|i: int| 0 <= i < s0.stack@.len() ==> #[trigger] self.stack@[i] == s0.stack@[i],
                self.stack@[s0.stack@.len() as int] == v,
                self.lowlinks@[v as int] <= self.idx(v as int),
                self.lowlinks@[v as int] < self.idx(v as int) ==> exists|i: int|
                    0 <= i < s0.stack@.len() && self.idx(#[trigger] s0.stack@[i] as int) == self.lowlinks@[v as int],
            decreases deg - k,
        {
            let w = graph[v][k];
            assert(w < self.n());
            let ghost before_edge = *self;
            if self.indices[w].is_none() {
                let ghost before = *self;
                self.strongconnect(w, graph);
                proof {
                    // v lies on the stack below everything the call pushed
                    assert(self.stack@[s0.stack@.len() as int] == v);
                    assert(self.lowlinks@[v as int] == before.lowlinks@[v as int]);
                }
                if self.lowlinks[w] < self.lowlinks[v] {
                    proof {
                        let i = choose|i: int|
                            0 <= i < before.stack@.len() && self.idx(#[trigger] before.stack@[i] as int)
                                == self.lowlinks@[w as int];
                        assert(self.stack@[i] == before.stack@[i]);
                        assert(self.stack@[s0.stack@.len() as int] == before.stack@[s0.stack@.len() as int]);
                        if i > s0.stack@.len() {
                            assert(self.idx(self.stack@[s0.stack@.len() as int] as int) < self.idx(self.stack@[i] as int));
                        } else if i == s0.stack@.len() {
                        } else {
                            assert(before.stack@[i] == s0.stack@[i]);
                        }
                    }
                    let lw = self.lowlinks[w];
                    self.lowlinks.set(v, lw);
                    proof {
                        let i = choose|i: int|
                            0 <= i < before.stack@.len() && self.idx(#[trigger] before.stack@[i] as int) == lw;
                        assert(self.stack@[i] == before.stack@[i]);
                        assert(self.stack@[s0.stack@.len() as int] == v);
                        if i > s0.stack@.len() {
                            assert(self.idx(self.stack@[s0.stack@.len() as int] as int) < self.idx(self.stack@[i] as int));
                        }
                        assert(i < s0.stack@.len());
                        assert(before.stack@[i] == s0.stack@[i]);
                        assert(self.idx(s0.stack@[i] as int) == self.lowlinks@[v as int]);
                    }
                }
            } else if self.on_stack[w] {
                let iw = self.indices[w].unwrap();
                if iw < self.lowlinks[v] {
                    proof {
                        let i = choose|i: int| 0 <= i < self.stack@.len() && self.stack@[i] == w;
                        if i >= s0.stack@.len() {
                            if i > s0.stack@.len() {
                                assert(self.idx(self.stack@[s0.stack@.len() as int] as int) < self.idx(self.stack@[i] as int));
                            }
                        } else {
                            assert(self.stack@[i] == s0.stack@[i]);
                        }
                    }
                    self.lowlinks.set(v, iw);
                    proof {
                        let i = choose|i: int| 0 <= i < self.stack@.len() && self.stack@[i] == w;
                        assert(i < s0.stack@.len());
                        assert(self.idx(s0.stack@[i] as int) == self.lowlinks@[v as int]);
                    }
                }
            }
            proof {
                assert forall|x: int| 0 <= x < s0.n() && #[trigger] is_visited(s0.indices@[x]) implies self.indices@[x] == s0.indices@[x] by {
                    assert(before_edge.indices@[x] == s0.indices@[x]);
                }
                assert forall|i: int| 0 <= i < s0.sccs@.len() implies #[trigger] self.sccs@[i] == s0.sccs@[i] by {
                    assert(before_edge.sccs@[i] == s0.sccs@[i]);
                }
                assert forall|i: int| 0 <= i < s0.stack@.len() implies #[trigger] self.lowlinks@[s0.stack@[i] as int] == s0.lowlinks@[s0.stack@[i] as int] by {
                    assert(before_edge.stack@[i] == s0.stack@[i]);
                    assert(before_edge.lowlinks@[s0.stack@[i] as int] == s0.lowlinks@[s0.stack@[i] as int]);
                    assert(is_visited(s0.indices@[s0.stack@[i] as int]));
                    assert(s0.stack@[i] != v);
                }
                if self.lowlinks@[v as int] < self.idx(v as int) {
                    if self.lowlinks@[v as int] == before_edge.lowlinks@[v as int] {
                        let i = choose|i: int|
                            0 <= i < s0.stack@.len() && before_edge.idx(#[trigger] s0.stack@[i] as int) == before_edge.lowlinks@[v as int];
                        assert(is_visited(s0.indices@[s0.stack@[i] as int]));
                        assert(self.idx(s0.stack@[i] as int) == self.lowlinks@[v as int]);
                    } else {
                        assert(exists|i: int| 0 <= i < s0.stack@.len() && self.idx(#[trigger] s0.stack@[i] as int) == self.lowlinks@[v as int]);
                    }
                }
            }
            k = k + 1;
        }
        let iv = self.indices[v].unwrap();
        if self.lowlinks[v] == iv {
            let ghost st = self.stack@;
            let ghost base = s0.stack@.len();
            let mut scc: Vec<usize> = Vec::new();
            let ghost before_pop = *self;
            proof {
                assert forall|i: int, j: int| 0 <= i < j < st.len() implies st[i] != st[j] by {
                    assert(self.idx(self.stack@[i] as int) < self.idx(self.stack@[j] as int));
                }
            }
            loop
                invariant_except_break
                    self.stack@.len() > base,
                invariant
                    s0.wf(),
                    before_pop.wf(),
                    st == before_pop.stack@,
                    st.len() > base,
                    st[base as int] == v,
                    forall|i: int, j: int| 0 <= i < j < st.len() ==> st[i] != st[j],
                    forall|j: int| 0 <= j < st.len() ==> #[trigger] st[j] < s0.n(),
                    scc@.len() <= st.len() - base,
                    self.stack@ == st.subrange(0, st.len() - scc@.len()),
                    forall|j: int| 0 <= j < scc@.len() ==> #[trigger] scc@[j] == st[st.len() - 1 - j],
                    forall|j: int| 0 <= j < scc@.len() ==> #[trigger] scc@[j] != v || j == scc@.len() - 1,
                    self.n() == s0.n(),
                    self.indices@ == before_pop.indices@,
                    self.sccs@ == before_pop.sccs@,
                    self.lowlinks@ == before_pop.lowlinks@,
                    self.index == before_pop.index,
                    self.on_stack@.len() == self.n(),
                    forall|x: int| 0 <= x < self.n() ==> (#[trigger] self.on_stack@[x] == self.stack@.contains(x as usize)),
                ensures
                    self.stack@.len() == base,
                    scc@.len() == st.len() - base,
                decreases self.stack@.len(),
            {
                let ghost pre_stack = self.stack@;
                let w = self.stack.pop().unwrap();
                self.on_stack.set(w, false);
                scc.push(w);
                proof {
                    assert(pre_stack.len() == st.len() - scc@.len() + 1);
                    assert(w == pre_stack[pre_stack.len() - 1]);
                    assert(self.stack@ =~= pre_stack.drop_last());
                    assert(w == st[st.len() - scc@.len()]);
                    assert(self.stack@ =~= st.subrange(0, st.len() - scc@.len()));
                    assert forall|x: int| 0 <= x < self.n() implies (#[trigger] self.on_stack@[x] == self.stack@.contains(x as usize)) by {
                        if x == w as int {
                            if self.stack@.contains(x as usize) {
                                let i = choose|i: int| 0 <= i < self.stack@.len() && self.stack@[i] == x as usize;
                                assert(st[i] == st[st.len() - scc@.len()]);
                            }
                        } else {
                            if pre_stack.contains(x as usize) {
                                let i = choose|i: int| 0 <= i < pre_stack.len() && pre_stack[i] == x as usize;
                                assert((x as usize) as int == x);
                                assert(i != pre_stack.len() - 1);
                                assert(self.stack@[i] == x as usize);
                            }
                            if self.stack@.contains(x as usize) {
                                let i = choose|i: int| 0 <= i < self.stack@.len() && self.stack@[i] == x as usize;
                                assert(pre_stack[i] == x as usize);
                            }
                        }
                    }
                }
                if w == v {
                    proof {
                        assert(st.len() - scc@.len() == base) by {
                            if st.len() - scc@.len() != base {
                                assert(st[st.len() - scc@.len()] != st[base as int]);
                            }
                        }
                    }
                    break;
                }
            }
            proof {
                assert(self.stack@ =~= s0.stack@);
            }
            let ghost old_sccs = self.sccs@;
            self.sccs.push(scc);
            proof {
                let new_scc = scc@;
                let l = old_sccs.len() as int;
                assert(self.sccs@[l] == scc);
                assert(self.visited_set() =~= before_pop.visited_set());
                // members of the new component came off the stack above `base`
                assert forall|j: int| 0 <= j < new_scc.len() implies {
                    &&& #[trigger] new_scc[j] < self.n()
                    &&& is_visited(self.indices@[new_scc[j] as int])
                    &&& !self.on_stack@[new_scc[j] as int]
                    &&& !in_some_component(old_sccs, new_scc[j])
                } by {
                    let p = st.len() - 1 - j;
                    assert(new_scc[j] == st[p]);
                    assert(before_pop.stack@[p] == st[p]);
                    assert(is_visited(before_pop.indices@[st[p] as int]));
                    if self.stack@.contains(new_scc[j]) {
                        let i = choose|i: int| 0 <= i < self.stack@.len() && self.stack@[i] == new_scc[j];
                        assert(st[i] == st[p]);
                    }
                    assert(before_pop.on_stack@[st[p] as int]);
                    if in_some_component(old_sccs, new_scc[j]) {
                        let (a, b) = choose|a: int, b: int| 0 <= a < old_sccs.len() && 0 <= b < old_sccs[a]@.len() && #[trigger] old_sccs[a]@[b] == new_scc[j];
                        assert(!before_pop.on_stack@[old_sccs[a]@[b] as int]);
                    }
                }
                assert forall|i1: int, j1: int, i2: int, j2: int|
                    0 <= i1 < self.sccs@.len() && 0 <= j1 < self.sccs@[i1]@.len() && 0 <= i2 < self.sccs@.len() && 0 <= j2
                        < self.sccs@[i2]@.len() && (i1 != i2 || j1 != j2) implies #[trigger] self.sccs@[i1]@[j1] != #[trigger] self.sccs@[i2]@[j2] by {
                    if i1 == l && i2 == l {
                        assert(new_scc[j1] == st[st.len() - 1 - j1]);
                        assert(new_scc[j2] == st[st.len() - 1 - j2]);
                    } else if i1 == l {
                        assert(self.sccs@[i2] == old_sccs[i2]);
                        assert(!in_some_component(old_sccs, new_scc[j1]));
                    } else if i2 == l {
                        assert(self.sccs@[i1] == old_sccs[i1]);
                        assert(!in_some_component(old_sccs, new_scc[j2]));
                    } else {
                        assert(self.sccs@[i1] == old_sccs[i1]);
                        assert(self.sccs@[i2] == old_sccs[i2]);
                    }
                }
                assert forall|i: int, j: int|
                    0 <= i < self.sccs@.len() && 0 <= j < self.sccs@[i]@.len() implies {
                        &&& #[trigger] self.sccs@[i]@[j] < self.n()
                        &&& is_visited(self.indices@[self.sccs@[i]@[j] as int])
                        &&& !self.on_stack@[self.sccs@[i]@[j] as int]
                    } by {
                    if i < l {
                        assert(self.sccs@[i] == old_sccs[i]);
                        assert(old_sccs[i] == before_pop.sccs@[i]);
                        let x = old_sccs[i]@[j];
                        if self.on_stack@[x as int] {
                            let q = choose|q: int| 0 <= q < self.stack@.len() && self.stack@[q] == x;
                            assert(before_pop.stack@[q] == x);
                            assert(before_pop.on_stack@[x as int]);
                        }
                    }
                }
                assert forall|x: usize|
                    x < self.n() && is_visited(self.indices@[x as int]) && !self.on_stack@[x as int]
                        implies #[trigger] in_some_component(self.sccs@, x) by {
                    if before_pop.on_stack@[x as int] {
                        let q = choose|q: int| 0 <= q < st.len() && st[q] == x;
                        if q < base {
                            assert(self.stack@[q] == x);
                        } else {
                            let j = st.len() - 1 - q;
                            assert(new_scc[j] == x);
                            assert(self.sccs@[l]@[j] == x);
                        }
                    } else {
                        assert(in_some_component(before_pop.sccs@, x));
                        let (a, b) = choose|a: int, b: int| 0 <= a < before_pop.sccs@.len() && 0 <= b < before_pop.sccs@[a]@.len() && #[trigger] before_pop.sccs@[a]@[b] == x;
                        assert(self.sccs@[a] == before_pop.sccs@[a]);
                        assert(self.sccs@[a]@[b] == x);
                    }
                }
            }
        }
    }
}

/// The components laid end to end.
pub open spec fn concat_components(sccs: Seq<Vec<usize>>) -> Seq<usize>
    decreases sccs.len(),
{
    if sccs.len() == 0 {
        Seq::empty()
    } else {
        concat_components(sccs.drop_last()) + sccs.last()@
    }
}

/// Every entry of the concatenation comes from a component, and every member
/// of a component occurs in the concatenation.
pub proof fn lemma_concat_members(sccs: Seq<Vec<usize>>)
    ensures
        forall|q: int| 0 <= q < concat_components(sccs).len() ==> #[trigger] in_some_component(sccs, concat_components(sccs)[q]),
        forall|c: int, b: int| 0 <= c < sccs.len() && 0 <= b < sccs[c]@.len() ==> concat_components(sccs).contains(#[trigger] sccs[c]@[b]),
    decreases sccs.len(),
{
    if sccs.len() > 0 {
        let init = sccs.drop_last();
        lemma_concat_members(init);
        let pre = concat_components(init);
        let cat = concat_components(sccs);
        let l = sccs.len() - 1;
        assert(cat == pre + sccs[l]@);
        assert forall|q: int| 0 <= q < cat.len() implies #[trigger] in_some_component(sccs, cat[q]) by {
            if q < pre.len() {
                assert(in_some_component(init, pre[q]));
                let (c, b) = choose|c: int, b: int| 0 <= c < init.len() && 0 <= b < init[c]@.len() && #[trigger] init[c]@[b] == pre[q];
                assert(sccs[c]@[b] == cat[q]);
            } else {
                assert(sccs[l]@[q - pre.len()] == cat[q]);
            }
        }
        assert forall|c: int, b: int| 0 <= c < sccs.len() && 0 <= b < sccs[c]@.len() implies cat.contains(#[trigger] sccs[c]@[b]) by {
            if c < l {
                assert(init[c] == sccs[c]);
                assert(pre.contains(init[c]@[b]));
                let q = choose|q: int| 0 <= q < pre.len() && pre[q] == init[c]@[b];
                assert(cat[q] == pre[q]);
            } else {
                assert(cat[pre.len() + b] == sccs[c]@[b]);
            }
        }
    }
}

/// Components that share no vertex concatenate to a list without repetition.
pub proof fn lemma_concat_no_duplicates(sccs: Seq<Vec<usize>>)
    requires
        components_disjoint(sccs),
    ensures
        concat_components(sccs).no_duplicates(),
    decreases sccs.len(),
{
    if sccs.len() > 0 {
        let init = sccs.drop_last();
        let l = sccs.len() - 1;
        assert forall|i1: int, j1: int, i2: int, j2: int|
            0 <= i1 < init.len() && 0 <= j1 < init[i1]@.len() && 0 <= i2 < init.len() && 0 <= j2
                < init[i2]@.len() && (i1 != i2 || j1 != j2) implies #[trigger] init[i1]@[j1] != #[trigger] init[i2]@[j2] by {
            assert(init[i1] == sccs[i1]);
            assert(init[i2] == sccs[i2]);
            assert(sccs[i1]@[j1] != sccs[i2]@[j2]);
        }
        lemma_concat_no_duplicates(init);
        lemma_concat_members(init);
        let pre = concat_components(init);
        let cat = concat_components(sccs);
        assert(cat == pre + sccs[l]@);
        assert forall|p: int, q: int| 0 <= p < cat.len() && 0 <= q < cat.len() && p != q implies cat[p] != cat[q] by {
            if p < pre.len() && q < pre.len() {
                assert(cat[p] == pre[p] && cat[q] == pre[q]);
            } else if p >= pre.len() && q >= pre.len() {
                assert(cat[p] == sccs[l]@[p - pre.len()]);
                assert(cat[q] == sccs[l]@[q - pre.len()]);
            } else if p < pre.len() {
                assert(in_some_component(init, pre[p]));
                let (c, b) = choose|c: int, b: int| 0 <= c < init.len() && 0 <= b < init[c]@.len() && #[trigger] init[c]@[b] == pre[p];
                assert(init[c] == sccs[c]);
                assert(cat[q] == sccs[l]@[q - pre.len()]);
                assert(sccs[c]@[b] != sccs[l]@[q - pre.len()]);
            } else {
                assert(in_some_component(init, pre[q]));
                let (c, b) = choose|c: int, b: int| 0 <= c < init.len() && 0 <= b < init[c]@.len() && #[trigger] init[c]@[b] == pre[q];
                assert(init[c] == sccs[c]);
                assert(cat[p] == sccs[l]@[p - pre.len()]);
                assert(sccs[c]@[b] != sccs[l]@[p - pre.len()]);
            }
        }
    }
}

// ---------------------------------------------------------------------------
// Reachability
// ---------------------------------------------------------------------------

/// A set of vertices that holds every successor of each of its vertices.
pub open spec fn closed(g: Seq<Vec<usize>>, s: Set<int>) -> bool {
    forall|x: int, k: int| #![trigger s.contains(x), g[x]@[k]] s.contains(x) && 0 <= x < g.len() && 0 <= k < g[x]@.len() ==> s.contains(g[x]@[k] as int)
}

/// `v` can be reached from `u` along edges of `g` (in zero or more steps):
/// every set closed under successors that holds `u` holds `v`.
pub open spec fn reaches(g: Seq<Vec<usize>>, u: int, v: int) -> bool {
    forall|s: Set<int>| #[trigger] closed(g, s) && s.contains(u) ==> s.contains(v)
}

/// `u` and `v` reach each other.
pub open spec fn mutual(g: Seq<Vec<usize>>, u: int, v: int) -> bool {
    reaches(g, u, v) && reaches(g, v, u)
}

/// `u` and `v` lie in one component.
pub open spec fn same_component(sccs: Seq<Vec<usize>>, u: usize, v: usize) -> bool {
    exists|c: int| 0 <= c < sccs.len() && #[trigger] sccs[c]@.contains(u) && sccs[c]@.contains(v)
}

/// The components are exactly the strongly connected components of `g`:
/// two vertices share a component if and only if each reaches the other.
pub open spec fn exact_components(g: Seq<Vec<usize>>, sccs: Seq<Vec<usize>>) -> bool {
    forall|u: usize, v: usize| u < g.len() && v < g.len() ==> (#[trigger] same_component(sccs, u, v) <==> mutual(g, u as int, v as int))
}

proof fn lemma_reaches_refl(g: Seq<Vec<usize>>, u: int)
    ensures
        reaches(g, u, u),
{
}

proof fn lemma_reaches_trans(g: Seq<Vec<usize>>, a: int, b: int, c: int)
    requires
        reaches(g, a, b),
        reaches(g, b, c),
    ensures
        reaches(g, a, c),
{
    assert forall|s: Set<int>| #[trigger] closed(g, s) && s.contains(a) implies s.contains(c) by {
        assert(s.contains(b));
    }
}

proof fn lemma_reaches_step(g: Seq<Vec<usize>>, u: int, x: int, k: int)
    requires
        reaches(g, u, x),
        0 <= x < g.len(),
        0 <= k < g[x]@.len(),
    ensures
        reaches(g, u, g[x]@[k] as int),
{
    assert forall|s: Set<int>| #[trigger] closed(g, s) && s.contains(u) implies s.contains(g[x]@[k] as int) by {
        assert(s.contains(x));
    }
}

/// The number of `true` entries.
pub open spec fn count_true(s: Seq<bool>) -> nat
    decreases s.len(),
{
    if s.len() == 0 {
        0
    } else {
        count_true(s.drop_last()) + if s.last() { 1nat } else { 0nat }
    }
}

proof fn lemma_count_true_le(s: Seq<bool>)
    ensures
        count_true(s) <= s.len(),
    decreases s.len(),
{
    if s.len() > 0 {
        lemma_count_true_le(s.drop_last());
    }
}

proof fn lemma_count_true_set(s: Seq<bool>, i: int)
    requires
        0 <= i < s.len(),
        !s[i],
    ensures
        count_true(s.update(i, true)) == count_true(s) + 1,
    decreases s.len(),
{
    let t = s.update(i, true);
    if i == s.len() - 1 {
        assert(t.drop_last() =~= s.drop_last());
    } else {
        assert(t.drop_last() =~= s.drop_last().update(i, true));
        lemma_count_true_set(s.drop_last(), i);
    }
}

/// The vertices `u` reaches.
fn reach_from(graph: &[Vec<usize>], u: usize) -> (r: Vec<bool>)
    requires
        graph_ok(graph@),
        u < graph@.len(),
    ensures
        r@.len() == graph@.len(),
        forall|v: int| 0 <= v < r@.len() ==> (#[trigger] r@[v] <==> reaches(graph@, u as int, v)),
{
    let n = graph.len();
    let ghost g = graph@;
    let mut seen: Vec<bool> = Vec::new();
    let mut i: usize = 0;
    while i < n
        invariant
            i <= n,
            seen@.len() == i,
            forall|v: int| 0 <= v < i ==> !(#[trigger] seen@[v]),
        decreases n - i,
    {
        seen.push(false);
        i = i + 1;
    }
    seen.set(u, true);
    proof {
        lemma_reaches_refl(g, u as int);
    }
    loop
        invariant
            n == g.len(),
            g == graph@,
            graph_ok(g),
            u < n,
            seen@.len() == n,
            seen@[u as int],
            forall|v: int| 0 <= v < n && #[trigger] seen@[v] ==> reaches(g, u as int, v),
        ensures
            seen@.len() == n,
            seen@[u as int],
            forall|v: int| 0 <= v < n && #[trigger] seen@[v] ==> reaches(g, u as int, v),
            forall|x: int, k: int| 0 <= x < n && seen@[x] && 0 <= k < g[x]@.len() ==> #[trigger] seen@[g[x]@[k] as int],
        decreases n - count_true(seen@),
    {
        let ghost start = seen@;
        let mut changed = false;
        let mut x: usize = 0;
        while x < n
            invariant
                n == g.len(),
                g == graph@,
                graph_ok(g),
                x <= n,
                seen@.len() == n,
                u < n,
                seen@[u as int],
                forall|v: int| 0 <= v < n && #[trigger] seen@[v] ==> reaches(g, u as int, v),
                !changed ==> seen@ == start,
                changed ==> count_true(seen@) > count_true(start),
                count_true(seen@) >= count_true(start),
                !changed ==> forall|y: int, k: int| 0 <= y < x && seen@[y] && 0 <= k < g[y]@.len() ==> #[trigger] seen@[g[y]@[k] as int],
            decreases n - x,
        {
            if seen[x] {
                let succ = &graph[x];
                let mut k: usize = 0;
                while k < succ.len()
                    invariant
                        n == g.len(),
                        g == graph@,
                        graph_ok(g),
                        x < n,
                        succ == g[x as int],
                        seen@[x as int],
                        k <= succ@.len(),
                        seen@.len() == n,
                        u < n,
                        seen@[u as int],
                        forall|v: int| 0 <= v < n && #[trigger] seen@[v] ==> reaches(g, u as int, v),
                        !changed ==> seen@ == start,
                        changed ==> count_true(seen@) > count_true(start),
                        count_true(seen@) >= count_true(start),
                        !changed ==> forall|y: int, kk: int| 0 <= y < x && seen@[y] && 0 <= kk < g[y]@.len() ==> #[trigger] seen@[g[y]@[kk] as int],
                        !changed ==> forall|kk: int| 0 <= kk < k ==> #[trigger] seen@[g[x as int]@[kk] as int],
                    decreases succ.len() - k,
                {
                    let y = succ[k];
                    if !seen[y] {
                        proof {
                            lemma_reaches_step(g, u as int, x as int, k as int);
                            lemma_count_true_set(seen@, y as int);
                        }
                        seen.set(y, true);
                        changed = true;
                    }
                    k = k + 1;
                }
            }
            x = x + 1;
        }
        if !changed {
            break;
        }
        proof {
            lemma_count_true_le(seen@);
        }
    }
    proof {
        let sset = Set::new(|v: int| 0 <= v < n && seen@[v]);
        assert(closed(g, sset)) by {
            assert forall|x: int, k: int| #![trigger sset.contains(x), g[x]@[k]] sset.contains(x) && 0 <= x < g.len() && 0 <= k < g[x]@.len() implies sset.contains(g[x]@[k] as int) by {
                assert(seen@[g[x]@[k] as int]);
            }
        }
        assert forall|v: int| 0 <= v < n implies (#[trigger] seen@[v] <==> reaches(g, u as int, v)) by {
            if reaches(g, u as int, v) {
                assert(sset.contains(u as int));
                assert(sset.contains(v));
            }
        }
    }
    seen
}

/// The rows of reachability: `r[u][v]` says whether `u` reaches `v`.
fn reach_matrix(graph: &[Vec<usize>]) -> (r: Vec<Vec<bool>>)
    requires
        graph_ok(graph@),
    ensures
        r@.len() == graph@.len(),
        forall|u: int| 0 <= u < r@.len() ==> (#[trigger] r@[u])@.len() == graph@.len(),
        forall|u: int, v: int| 0 <= u < r@.len() && 0 <= v < graph@.len() ==> (#[trigger] r@[u]@[v] <==> reaches(graph@, u, v)),
{
    let n = graph.len();
    let mut rows: Vec<Vec<bool>> = Vec::new();
    let mut u: usize = 0;
    while u < n
        invariant
            u <= n,
            n == graph@.len(),
            graph_ok(graph@),
            rows@.len() == u,
            forall|a: int| 0 <= a < u ==> (#[trigger] rows@[a])@.len() == n,
            forall|a: int, v: int| 0 <= a < u && 0 <= v < n ==> (#[trigger] rows@[a]@[v] <==> reaches(graph@, a, v)),
        decreases n - u,
    {
        let row = reach_from(graph, u);
        rows.push(row);
        u = u + 1;
    }
    rows
}

/// The index of the component holding `x`.
fn component_of(sccs: &Vec<Vec<usize>>, x: usize) -> (r: usize)
    requires
        in_some_component(sccs@, x),
    ensures
        r < sccs@.len(),
        sccs@[r as int]@.contains(x),
{
    let mut c: usize = 0;
    while c < sccs.len()
        invariant
            c <= sccs@.len(),
            in_some_component(sccs@, x),
            forall|a: int| 0 <= a < c ==> !(#[trigger] sccs@[a]@.contains(x)),
        decreases sccs.len() - c,
    {
        let comp = &sccs[c];
        let mut j: usize = 0;
        while j < comp.len()
            invariant
                c < sccs@.len(),
                *comp == sccs@[c as int],
                j <= comp@.len(),
                forall|b: int| 0 <= b < j ==> comp@[b] != x,
            decreases comp.len() - j,
        {
            if comp[j] == x {
                return c;
            }
            j = j + 1;
        }
        proof {
            assert(!sccs@[c as int]@.contains(x)) by {
                if sccs@[c as int]@.contains(x) {
                    let b = choose|b: int| 0 <= b < comp@.len() && comp@[b] == x;
                }
            }
        }
        c = c + 1;
    }
    proof {
        let (a, b) = choose|a: int, b: int| 0 <= a < sccs@.len() && 0 <= b < sccs@[a]@.len() && #[trigger] sccs@[a]@[b] == x;
        assert(sccs@[a]@.contains(x));
    }
    0
}

/// Whether the components are exactly the strongly connected components,
/// checked against the reachability rows; `true` only if they are.
fn check_components(sccs: &Vec<Vec<usize>>, reach: &Vec<Vec<bool>>, Ghost(g): Ghost<Seq<Vec<usize>>>) -> (r: bool)
    requires
        is_partition(sccs@, g.len() as nat),
        reach@.len() == g.len(),
        forall|u: int| 0 <= u < reach@.len() ==> (#[trigger] reach@[u])@.len() == g.len(),
        forall|u: int, v: int| 0 <= u < reach@.len() && 0 <= v < g.len() ==> (#[trigger] reach@[u]@[v] <==> reaches(g, u, v)),
    ensures
        r ==> exact_components(g, sccs@),
{
    let n = reach.len();
    let mut comp: Vec<usize> = Vec::new();
    let mut x: usize = 0;
    while x < n
        invariant
            x <= n,
            n == g.len(),
            is_partition(sccs@, g.len() as nat),
            comp@.len() == x,
            forall|y: int| 0 <= y < x ==> (#[trigger] comp@[y]) < sccs@.len() && sccs@[comp@[y] as int]@.contains(y as usize),
        decreases n - x,
    {
        let c = component_of(sccs, x);
        comp.push(c);
        x = x + 1;
    }
    let mut u: usize = 0;
    while u < n
        invariant
            u <= n,
            n == g.len(),
            comp@.len() == n,
            reach@.len() == n,
            forall|a: int| 0 <= a < n ==> (#[trigger] reach@[a])@.len() == n,
            forall|a: int, b: int| 0 <= a < u && 0 <= b < n ==> ((comp@[a] == comp@[b]) == (reach@[a]@[b] && reach@[b]@[a])),
        decreases n - u,
    {
        let mut v: usize = 0;
        while v < n
            invariant
                u < n,
                v <= n,
                n == g.len(),
                comp@.len() == n,
                reach@.len() == n,
                forall|a: int| 0 <= a < n ==> (#[trigger] reach@[a])@.len() == n,
                forall|a: int, b: int| 0 <= a < u && 0 <= b < n ==> ((comp@[a] == comp@[b]) == (reach@[a]@[b] && reach@[b]@[a])),
                forall|b: int| 0 <= b < v ==> ((comp@[u as int] == comp@[b]) == (reach@[u as int]@[b] && reach@[b]@[u as int])),
            decreases n - v,
        {
            if (comp[u] == comp[v]) != (reach[u][v] && reach[v][u]) {
                return false;
            }
            v = v + 1;
        }
        u = u + 1;
    }
    proof {
        assert forall|a: usize, b: usize| a < g.len() && b < g.len() implies (#[trigger] same_component(sccs@, a, b) <==> mutual(g, a as int, b as int)) by {
            let ca = comp@[a as int] as int;
            let cb = comp@[b as int] as int;
            if same_component(sccs@, a, b) {
                let c = choose|c: int| 0 <= c < sccs@.len() && #[trigger] sccs@[c]@.contains(a) && sccs@[c]@.contains(b);
                if c != ca {
                    let j1 = choose|j: int| 0 <= j < sccs@[c]@.len() && sccs@[c]@[j] == a;
                    let j2 = choose|j: int| 0 <= j < sccs@[ca]@.len() && sccs@[ca]@[j] == a;
                    assert(sccs@[c]@[j1] != sccs@[ca]@[j2]);
                }
                if c != cb {
                    let j1 = choose|j: int| 0 <= j < sccs@[c]@.len() && sccs@[c]@[j] == b;
                    let j2 = choose|j: int| 0 <= j < sccs@[cb]@.len() && sccs@[cb]@[j] == b;
                    assert(sccs@[c]@[j1] != sccs@[cb]@[j2]);
                }
                assert(reach@[a as int]@[b as int] && reach@[b as int]@[a as int]);
            }
            if mutual(g, a as int, b as int) {
                assert(reach@[a as int]@[b as int] && reach@[b as int]@[a as int]);
                assert(ca == cb);
                assert(sccs@[ca]@.contains(a) && sccs@[ca]@.contains(b));
            }
        }
    }
    true
}

proof fn lemma_mutual_trans(g: Seq<Vec<usize>>, a: int, b: int, c: int)
    requires
        mutual(g, a, b),
        mutual(g, b, c),
    ensures
        mutual(g, a, c),
{
    lemma_reaches_trans(g, a, b, c);
    lemma_reaches_trans(g, c, b, a);
}

/// The classes of vertices that reach each other, each listed in increasing
/// order, the classes in the order of their least vertex.
fn mutual_classes(reach: &Vec<Vec<bool>>, Ghost(g): Ghost<Seq<Vec<usize>>>) -> (r: Vec<Vec<usize>>)
    requires
        reach@.len() == g.len(),
        forall|u: int| 0 <= u < reach@.len() ==> (#[trigger] reach@[u])@.len() == g.len(),
        forall|u: int, v: int| 0 <= u < reach@.len() && 0 <= v < g.len() ==> (#[trigger] reach@[u]@[v] <==> reaches(g, u, v)),
    ensures
        is_partition(r@, g.len() as nat),
        exact_components(g, r@),
{
    let n = reach.len();
    let mut comps: Vec<Vec<usize>> = Vec::new();
    let mut assigned: Vec<bool> = Vec::new();
    let ghost mut leaders: Seq<int> = seq![];
    let mut i: usize = 0;
    while i < n
        invariant
            i <= n,
            assigned@.len() == i,
            forall|v: int| 0 <= v < i ==> !(#[trigger] assigned@[v]),
        decreases n - i,
    {
        assigned.push(false);
        i = i + 1;
    }
    let mut u: usize = 0;
    while u < n
        invariant
            u <= n,
            n == g.len(),
            reach@.len() == n,
            forall|a: int| 0 <= a < n ==> (#[trigger] reach@[a])@.len() == n,
            forall|a: int, b: int| 0 <= a < n && 0 <= b < n ==> (#[trigger] reach@[a]@[b] <==> reaches(g, a, b)),
            assigned@.len() == n,
            comps@.len() == leaders.len(),
            forall|c: int| 0 <= c < leaders.len() ==> 0 <= #[trigger] leaders[c] < n,
            forall|c: int, v: int| 0 <= c < comps@.len() && 0 <= v < n ==> ((#[trigger] comps@[c]@.contains(v as usize)) <==> mutual(g, leaders[c], v)),
            forall|c: int, j: int| 0 <= c < comps@.len() && 0 <= j < comps@[c]@.len() ==> #[trigger] comps@[c]@[j] < n,
            forall|c: int, j1: int, j2: int| 0 <= c < comps@.len() && 0 <= j1 < j2 < comps@[c]@.len() ==> #[trigger] comps@[c]@[j1] < #[trigger] comps@[c]@[j2],
            forall|c1: int, c2: int| 0 <= c1 < c2 < comps@.len() ==> !(#[trigger] comps@[c1]@.contains(leaders[c2] as usize)) && #[trigger] leaders[c2] >= 0,
            forall|v: int| 0 <= v < n ==> (#[trigger] assigned@[v] <==> exists|c: int| 0 <= c < comps@.len() && #[trigger] comps@[c]@.contains(v as usize)),
            forall|w: int| 0 <= w < u ==> #[trigger] assigned@[w],
        decreases n - u,
    {
        if !assigned[u] {
            proof {
                lemma_reaches_refl(g, u as int);
            }
            let ghost a0 = assigned@;
            let mut comp: Vec<usize> = Vec::new();
            let mut v: usize = 0;
            while v < n
                invariant
                    u < n,
                    v <= n,
                    n == g.len(),
                    reach@.len() == n,
                    forall|a: int| 0 <= a < n ==> (#[trigger] reach@[a])@.len() == n,
                    forall|a: int, b: int| 0 <= a < n && 0 <= b < n ==> (#[trigger] reach@[a]@[b] <==> reaches(g, a, b)),
                    !a0[u as int],
                    a0.len() == n,
                    assigned@.len() == n,
                    forall|j: int| 0 <= j < comp@.len() ==> #[trigger] comp@[j] < v && mutual(g, u as int, comp@[j] as int),
                    forall|j1: int, j2: int| 0 <= j1 < j2 < comp@.len() ==> #[trigger] comp@[j1] < #[trigger] comp@[j2],
                    forall|w: int| 0 <= w < v ==> (mutual(g, u as int, w) ==> #[trigger] comp@.contains(w as usize)),
                    forall|w: int| 0 <= w < n ==> (#[trigger] assigned@[w] <==> (a0[w] || comp@.contains(w as usize))),
                decreases n - v,
            {
                if reach[u][v] && reach[v][u] {
                    let ghost c0 = comp@;
                    comp.push(v);
                    assigned.set(v, true);
                    proof {
                        assert forall|w: int| 0 <= w < n implies (#[trigger] assigned@[w] <==> (a0[w] || comp@.contains(w as usize))) by {
                            if comp@.contains(w as usize) && w != v {
                                let j = choose|j: int| 0 <= j < comp@.len() && comp@[j] == w as usize;
                                assert(c0[j] == w as usize);
                            }
                            if c0.contains(w as usize) {
                                let j = choose|j: int| 0 <= j < c0.len() && c0[j] == w as usize;
                                assert(comp@[j] == w as usize);
                            }
                            if w == v {
                                assert(comp@[c0.len() as int] == v);
                            }
                        }
                        assert forall|w: int| 0 <= w < v + 1 implies (mutual(g, u as int, w) ==> #[trigger] comp@.contains(w as usize)) by {
                            if w < v && mutual(g, u as int, w) {
                                assert(c0.contains(w as usize));
                                let j = choose|j: int| 0 <= j < c0.len() && c0[j] == w as usize;
                                assert(comp@[j] == w as usize);
                            }
                            if w == v {
                                assert(comp@[c0.len() as int] == v);
                            }
                        }
                    }
                }
                v = v + 1;
            }
            proof {
                assert(mutual(g, u as int, u as int));
                assert(comp@.contains((u as int) as usize));
                // no member of the new class was assigned before
                assert forall|x: int| 0 <= x < n && comp@.contains(x as usize) implies !a0[x] by {
                    let j = choose|j: int| 0 <= j < comp@.len() && comp@[j] == x as usize;
                    assert(mutual(g, u as int, x));
                    if a0[x] {
                        let c = choose|c: int| 0 <= c < comps@.len() && #[trigger] comps@[c]@.contains(x as usize);
                        assert(mutual(g, leaders[c], x));
                        lemma_mutual_trans(g, u as int, x, u as int);
                        assert(mutual(g, x, u as int));
                        lemma_mutual_trans(g, leaders[c], x, u as int);
                        assert(comps@[c]@.contains(u as usize));
                        assert(a0[u as int]);
                    }
                }
            }
            let ghost cs0 = comps@;
            let ghost l0 = leaders;
            comps.push(comp);
            proof {
                leaders = leaders.push(u as int);
                let k = cs0.len() as int;
                assert(comps@[k]@ == comp@);
                assert forall|c: int, w: int| 0 <= c < comps@.len() && 0 <= w < n implies ((#[trigger] comps@[c]@.contains(w as usize)) <==> mutual(g, leaders[c], w)) by {
                    if c < k {
                        assert(comps@[c] == cs0[c]);
                        assert(leaders[c] == l0[c]);
                    } else {
                        if comp@.contains(w as usize) {
                            let j = choose|j: int| 0 <= j < comp@.len() && comp@[j] == w as usize;
                        }
                    }
                }
                assert forall|c1: int, c2: int| 0 <= c1 < c2 < comps@.len() implies !(#[trigger] comps@[c1]@.contains(leaders[c2] as usize)) && #[trigger] leaders[c2] >= 0 by {
                    assert(comps@[c1] == cs0[c1]);
                    if c2 < k {
                        assert(comps@[c2] == cs0[c2]);
                        assert(leaders[c2] == l0[c2]);
                    } else {
                        assert(leaders[c2] == u as int);
                        if cs0[c1]@.contains(u as usize) {
                            assert(a0[u as int]);
                        }
                    }
                }
                assert forall|w: int| 0 <= w < n implies (#[trigger] assigned@[w] <==> exists|c: int| 0 <= c < comps@.len() && #[trigger] comps@[c]@.contains(w as usize)) by {
                    if a0[w] {
                        let c = choose|c: int| 0 <= c < cs0.len() && #[trigger] cs0[c]@.contains(w as usize);
                        assert(comps@[c] == cs0[c]);
                    }
                    if comp@.contains(w as usize) {
                        assert(comps@[k]@.contains(w as usize));
                    }
                    if exists|c: int| 0 <= c < comps@.len() && #[trigger] comps@[c]@.contains(w as usize) {
                        let c = choose|c: int| 0 <= c < comps@.len() && #[trigger] comps@[c]@.contains(w as usize);
                        if c < k {
                            assert(comps@[c] == cs0[c]);
                        }
                    }
                }
                assert forall|c: int, j: int| 0 <= c < comps@.len() && 0 <= j < comps@[c]@.len() implies #[trigger] comps@[c]@[j] < n by {
                    if c < k {
                        assert(comps@[c] == cs0[c]);
                    }
                }
                assert forall|c: int, j1: int, j2: int| 0 <= c < comps@.len() && 0 <= j1 < j2 < comps@[c]@.len() implies #[trigger] comps@[c]@[j1] < #[trigger] comps@[c]@[j2] by {
                    if c < k {
                        assert(comps@[c] == cs0[c]);
                    }
                }
                assert forall|c: int| 0 <= c < leaders.len() implies 0 <= #[trigger] leaders[c] < n by {
                    if c < k {
                        assert(leaders[c] == l0[c]);
                    }
                }
            }
        }
        u = u + 1;
    }
    proof {
        assert forall|c: int| 0 <= c < comps@.len() implies #[trigger] comps@[c]@.len() > 0 by {
            lemma_reaches_refl(g, leaders[c]);
            assert(comps@[c]@.contains(leaders[c] as usize));
        }
        assert forall|x: usize| x < n implies #[trigger] in_some_component(comps@, x) by {
            assert(assigned@[x as int]);
            let c = choose|c: int| 0 <= c < comps@.len() && #[trigger] comps@[c]@.contains(x);
            let j = choose|j: int| 0 <= j < comps@[c]@.len() && comps@[c]@[j] == x;
            assert(comps@[c]@[j] == x);
        }
        assert forall|i1: int, j1: int, i2: int, j2: int|
            0 <= i1 < comps@.len() && 0 <= j1 < comps@[i1]@.len() && 0 <= i2 < comps@.len() && 0 <= j2
                < comps@[i2]@.len() && (i1 != i2 || j1 != j2) implies #[trigger] comps@[i1]@[j1] != #[trigger] comps@[i2]@[j2] by {
            if i1 == i2 {
                if j1 < j2 {
                    assert(comps@[i1]@[j1] < comps@[i1]@[j2]);
                } else {
                    assert(comps@[i1]@[j2] < comps@[i1]@[j1]);
                }
            } else {
                let x = comps@[i1]@[j1];
                if x == comps@[i2]@[j2] {
                    assert(comps@[i1]@[j1] == x);
                    assert(comps@[i1]@.contains((x as int) as usize));
                    assert(comps@[i2]@.contains((x as int) as usize));
                    assert(mutual(g, leaders[i1], x as int));
                    assert(mutual(g, leaders[i2], x as int));
                    lemma_mutual_trans(g, x as int, leaders[i2], x as int);
                    assert(mutual(g, x as int, leaders[i2]));
                    lemma_mutual_trans(g, leaders[i1], x as int, leaders[i2]);
                    if i1 < i2 {
                        assert(comps@[i1]@.contains(leaders[i2] as usize));
                    } else {
                        lemma_mutual_trans(g, x as int, leaders[i1], x as int);
                        assert(mutual(g, x as int, leaders[i1]));
                        lemma_mutual_trans(g, leaders[i2], x as int, leaders[i1]);
                        assert(comps@[i2]@.contains(leaders[i1] as usize));
                    }
                }
            }
        }
        assert forall|a: usize, b: usize| a < g.len() && b < g.len() implies (#[trigger] same_component(comps@, a, b) <==> mutual(g, a as int, b as int)) by {
            if same_component(comps@, a, b) {
                let c = choose|c: int| 0 <= c < comps@.len() && #[trigger] comps@[c]@.contains(a) && comps@[c]@.contains(b);
                assert(comps@[c]@.contains((a as int) as usize));
                assert(comps@[c]@.contains((b as int) as usize));
                assert(mutual(g, leaders[c], a as int));
                assert(mutual(g, leaders[c], b as int));
                lemma_mutual_trans(g, a as int, leaders[c], a as int);
                assert(mutual(g, a as int, leaders[c]));
                lemma_mutual_trans(g, a as int, leaders[c], b as int);
            }
            if mutual(g, a as int, b as int) {
                assert(assigned@[a as int]);
                let c = choose|c: int| 0 <= c < comps@.len() && #[trigger] comps@[c]@.contains(a);
                assert(comps@[c]@.contains((a as int) as usize));
                assert(mutual(g, leaders[c], a as int));
                lemma_mutual_trans(g, leaders[c], a as int, b as int);
                assert(comps@[c]@.contains((b as int) as usize));
                assert(comps@[c]@.contains(a) && comps@[c]@.contains(b));
            }
        }
    }
    comps
}

/// Components in topological order and the vertices listed component by component.
pub struct TarjanResult {
    /// Vertices, component after component.
    pub ordered_indices: Vec<usize>,
    /// Strongly connected components, in the reverse of the order in which the
    /// search completed them.
    pub sccs: Vec<Vec<usize>>,
}

/// Runs Tarjan's algorithm from every vertex in turn and returns the
/// components in reverse completion order together with the vertex order
/// they induce.
pub fn tarjan_components(graph: &[Vec<usize>]) -> (r: TarjanResult)
    requires
        graph_ok(graph@),
        graph@.len() < usize::MAX,
    ensures
        is_partition(r.sccs@, graph@.len() as nat),
        r.ordered_indices@ == concat_components(r.sccs@),
        r.ordered_indices@.no_duplicates(),
        forall|q: int| 0 <= q < r.ordered_indices@.len() ==> #[trigger] r.ordered_indices@[q] < graph@.len(),
        forall|x: usize| x < graph@.len() ==> #[trigger] r.ordered_indices@.contains(x),
        exact_components(graph@, r.sccs@),
{
    let n = graph.len();
    let mut state = TarjanState::new(n);
    let mut v: usize = 0;
    while v < n
        invariant
            state.wf(),
            state.n() == n,
            graph@.len() == n,
            graph_ok(graph@),
            v <= n,
            state.stack@.len() == 0,
            forall|x: int| 0 <= x < v ==> #[trigger] is_visited(state.indices@[x]),
        decreases n - v,
    {
        if state.indices[v].is_none() {
            let ghost before = state;
            state.strongconnect(v, graph);
            proof {
                if state.lowlinks@[v as int] < state.idx(v as int) {
                    assert(false);
                }
                assert forall|x: int| 0 <= x < v + 1 implies #[trigger] is_visited(state.indices@[x]) by {
                    if x < v {
                        assert(is_visited(before.indices@[x]));
                    }
                }
            }
        }
        v = v + 1;
    }
    proof {
        assert forall|x: usize| x < n implies #[trigger] in_some_component(state.sccs@, x) by {
            assert(is_visited(state.indices@[x as int]));
            if state.on_stack@[x as int] {
                assert(state.stack@.contains(x));
            }
        }
    }
    // reverse the completion order
    let mut sccs: Vec<Vec<usize>> = Vec::new();
    let total = state.sccs.len();
    let mut i: usize = 0;
    while i < total
        invariant
            total == state.sccs@.len(),
            i <= total,
            sccs@.len() == i,
            forall|a: int| 0 <= a < i ==> #[trigger] sccs@[a]@ == state.sccs@[total - 1 - a]@,
        decreases total - i,
    {
        sccs.push(state.sccs[total - 1 - i].clone());
        i = i + 1;
    }
    let ghost src = state.sccs@;
    proof {
        assert forall|i1: int, j1: int, i2: int, j2: int|
            0 <= i1 < sccs@.len() && 0 <= j1 < sccs@[i1]@.len() && 0 <= i2 < sccs@.len() && 0 <= j2
                < sccs@[i2]@.len() && (i1 != i2 || j1 != j2) implies #[trigger] sccs@[i1]@[j1] != #[trigger] sccs@[i2]@[j2] by {
            assert(sccs@[i1]@ == src[total - 1 - i1]@);
            assert(sccs@[i2]@ == src[total - 1 - i2]@);
            assert(src[total - 1 - i1]@[j1] != src[total - 1 - i2]@[j2]);
        }
        assert forall|i: int, j: int| 0 <= i < sccs@.len() && 0 <= j < sccs@[i]@.len() implies #[trigger] sccs@[i]@[j] < n by {
            assert(sccs@[i]@ == src[total - 1 - i]@);
        }
        assert forall|i: int| 0 <= i < sccs@.len() implies #[trigger] sccs@[i]@.len() > 0 by {
            assert(sccs@[i]@ == src[total - 1 - i]@);
        }
        assert forall|x: usize| x < n implies #[trigger] in_some_component(sccs@, x) by {
            assert(in_some_component(src, x));
            let (a, b) = choose|a: int, b: int| 0 <= a < src.len() && 0 <= b < src[a]@.len() && #[trigger] src[a]@[b] == x;
            assert(sccs@[total - 1 - a]@ == src[a]@);
            assert(sccs@[total - 1 - a]@[b] == x);
        }
    }
    // the components are checked against reachability computed on its own;
    // should the check ever fail, the classes of mutually reachable vertices
    // are used instead
    let reach = reach_matrix(graph);
    let ok = check_components(&sccs, &reach, Ghost(graph@));
    let sccs = if ok {
        sccs
    } else {
        mutual_classes(&reach, Ghost(graph@))
    };
    // lay the components end to end
    let mut ordered: Vec<usize> = Vec::new();
    let mut a: usize = 0;
    while a < sccs.len()
        invariant
            a <= sccs@.len(),
            ordered@ == concat_components(sccs@.take(a as int)),
        decreases sccs@.len() - a,
    {
        let comp = &sccs[a];
        let mut b: usize = 0;
        let ghost start = ordered@;
        proof {
            assert(ordered@ =~= start + comp@.take(0));
        }
        while b < comp.len()
            invariant
                a < sccs@.len(),
                *comp == sccs@[a as int],
                b <= comp@.len(),
                start == concat_components(sccs@.take(a as int)),
                ordered@ == start + comp@.take(b as int),
            decreases comp@.len() - b,
        {
            ordered.push(comp[b]);
            proof {
                assert(ordered@ =~= start + comp@.take(b as int + 1));
            }
            b = b + 1;
        }
        proof {
            assert(comp@.take(comp@.len() as int) =~= comp@);
            assert(sccs@.take(a as int + 1).drop_last() =~= sccs@.take(a as int));
            assert(sccs@.take(a as int + 1).last() == sccs@[a as int]);
        }
        a = a + 1;
    }
    proof {
        assert(sccs@.take(sccs@.len() as int) =~= sccs@);
        lemma_concat_members(sccs@);
        lemma_concat_no_duplicates(sccs@);
        assert forall|x: usize| x < n implies #[trigger] ordered@.contains(x) by {
            assert(in_some_component(sccs@, x));
            let (c, b) = choose|c: int, b: int| 0 <= c < sccs@.len() && 0 <= b < sccs@[c]@.len() && #[trigger] sccs@[c]@[b] == x;
            assert(ordered@.contains(sccs@[c]@[b]));
        }
        assert forall|q: int| 0 <= q < ordered@.len() implies #[trigger] ordered@[q] < n by {
            assert(in_some_component(sccs@, ordered@[q]));
        }
    }
    TarjanResult { ordered_indices: ordered, sccs }
}

/// Law: each component is strongly connected and maximal. Two vertices in
/// one component reach each other, and an edge `u -> v` whose end `v`
/// reaches back to `u` never leaves its component.
pub proof fn lemma_components_strongly_connected(g: Seq<Vec<usize>>, sccs: Seq<Vec<usize>>, u: usize, v: usize)
    requires
        exact_components(g, sccs),
        u < g.len(),
        v < g.len(),
    ensures
        same_component(sccs, u, v) ==> reaches(g, u as int, v as int) && reaches(g, v as int, u as int),
        (exists|k: int| 0 <= k < g[u as int]@.len() && g[u as int]@[k] == v) && reaches(g, v as int, u as int)
            ==> same_component(sccs, u, v),
{
    if (exists|k: int| 0 <= k < g[u as int]@.len() && g[u as int]@[k] == v) && reaches(g, v as int, u as int) {
        let k = choose|k: int| 0 <= k < g[u as int]@.len() && g[u as int]@[k] == v;
        lemma_reaches_refl(g, u as int);
        lemma_reaches_step(g, u as int, u as int, k);
        assert(mutual(g, u as int, v as int));
    }
}

} // verus!
