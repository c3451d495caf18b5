//! Undirected graphs and their searches.

use vstd::prelude::*;

pub mod bfs;
pub mod cc;
pub mod dfs;

verus! {

/// Data structure for an undirected graph.
pub struct Graph {
    /// number of vertices
    pub v: usize,
    /// number of edges
    pub e: usize,
    /// adjacency lists
    pub adj: Vec<Vec<usize>>,
}

impl Graph {
    /// One adjacency list per vertex, every listed neighbour a vertex.
    pub open spec fn wf(self) -> bool {
        &&& self.adj@.len() == self.v
        &&& forall|i: int, k: int|
            0 <= i < self.adj@.len() && 0 <= k < self.adj@[i]@.len() ==> #[trigger] self.adj@[i]@[k]
                < self.v
    }

    /// Constructs a new graph with `v` vertices and no edges.
    pub fn new(v: usize) -> (r: Graph)
        ensures
            r.wf(),
            r.v == v,
            r.e == 0,
            forall|i: int| 0 <= i < v ==> #[trigger] r.adj@[i]@.len() == 0,
    {
        let mut adj: Vec<Vec<usize>> = Vec::new();
        let mut i: usize = 0;
        while i < v
            invariant
                i <= v,
                adj@.len() == i,
                forall|t: int| 0 <= t < i ==> #[trigger] adj@[t]@.len() == 0,
            decreases v - i,
        {
            adj.push(Vec::new());
            i = i + 1;
        }
        Graph { v, e: 0, adj }
    }

    /// Add edge v-w to the graph.
    pub fn add_edge(&mut self, v: usize, w: usize)
        requires
            old(self).wf(),
            v < old(self).v,
            w < old(self).v,
            old(self).e < usize::MAX,
        ensures
            final(self).wf(),
            final(self).v == old(self).v,
            final(self).e == old(self).e + 1,
            final(self).adj@.len() == old(self).adj@.len(),
            forall|i: int|
                0 <= i < old(self).adj@.len() && i != v && i != w ==> #[trigger] final(self).adj@[i] == old(self).adj@[i],
            v != w ==> final(self).adj@[v as int]@ == old(self).adj@[v as int]@.push(w) && final(self).adj@[w as int]@ == old(self).adj@[w as int]@.push(v),
            v == w ==> final(self).adj@[v as int]@ == old(self).adj@[v as int]@.push(w).push(v),
    {
        let list_v = &mut self.adj[v];
        list_v.push(w);
        let list_w = &mut self.adj[w];
        list_w.push(v);
        self.e = self.e + 1;
        proof {
            assert forall|i: int, k: int|
                0 <= i < self.adj@.len() && 0 <= k < self.adj@[i]@.len() implies #[trigger] self.adj@[i]@[k]
                < self.v by {
                if i != v && i != w {
                    assert(self.adj@[i] == old(self).adj@[i]);
                }
            }
        }
    }
}

/// The number of vertices not yet marked.
pub open spec fn unmarked_count(s: Seq<bool>) -> nat
    decreases s.len(),
{
    if s.len() == 0 {
        0
    } else {
        unmarked_count(s.drop_last()) + if s.last() {
            0nat
        } else {
            1nat
        }
    }
}

/// Marking one unmarked vertex lowers the unmarked count by one.
pub proof fn lemma_unmarked_count_mark(s: Seq<bool>, i: int)
    requires
        0 <= i < s.len(),
        !s[i],
    ensures
        unmarked_count(s.update(i, true)) == unmarked_count(s) - 1,
    decreases s.len(),
{
    let t = s.update(i, true);
    if i == s.len() - 1 {
        assert(t.drop_last() =~= s.drop_last());
        assert(t.last());
    } else {
        lemma_unmarked_count_mark(s.drop_last(), i);
        assert(t.drop_last() =~= s.drop_last().update(i, true));
        assert(t.last() == s.last());
    }
}

/// Marks only grow, so the unmarked count only falls.
pub proof fn lemma_unmarked_count_monotone(s1: Seq<bool>, s2: Seq<bool>)
    requires
        s1.len() == s2.len(),
        forall|i: int| 0 <= i < s1.len() && s1[i] ==> #[trigger] s2[i],
    ensures
        unmarked_count(s2) <= unmarked_count(s1),
    decreases s1.len(),
{
    if s1.len() > 0 {
        assert(forall|i: int|
            0 <= i < s1.drop_last().len() && s1.drop_last()[i] ==> #[trigger] s2.drop_last()[i]);
        lemma_unmarked_count_monotone(s1.drop_last(), s2.drop_last());
        assert(s1[s1.len() - 1] ==> s2[s1.len() - 1]);
    }
}

} // verus!
