//! Depth-first search to find paths in an undirected graph.

use vstd::prelude::*;

use crate::graphs::{
    lemma_unmarked_count_mark, lemma_unmarked_count_monotone, unmarked_count, Graph,
};

verus! {

/// The result of a depth-first search from a source vertex: which vertices
/// were reached, and through which edge each was first reached.
pub struct DepthFirstSearch {
    pub marked: Vec<bool>,
    pub edge_to: Vec<usize>,
    pub s: usize,
    /// How many tree edges lie between the source and each marked vertex:
    /// following `edge_to` from any marked vertex strictly descends, so it
    /// reaches the source.
    pub depth: Ghost<Seq<nat>>,
}

impl DepthFirstSearch {
    /// Parent links of marked vertices point at marked vertices of smaller
    /// depth, so every marked vertex has a finite parent chain to the source.
    pub open spec fn wf(self) -> bool {
        &&& self.marked@.len() == self.edge_to@.len()
        &&& self.depth@.len() == self.marked@.len()
        &&& self.s < self.marked@.len()
        &&& self.marked@[self.s as int]
        &&& forall|w: int|
            0 <= w < self.marked@.len() && #[trigger] self.marked@[w] && w != self.s ==> {
                &&& self.edge_to@[w] < self.marked@.len()
                &&& self.marked@[self.edge_to@[w] as int]
                &&& self.depth@[self.edge_to@[w] as int] < self.depth@[w]
            }
    }

    spec fn links_ok(self, gv: int) -> bool {
        &&& self.marked@.len() == gv
        &&& self.edge_to@.len() == gv
        &&& self.depth@.len() == gv
        &&& self.s < gv
        &&& forall|w: int|
            0 <= w < gv && #[trigger] self.marked@[w] && w != self.s ==> {
                &&& self.edge_to@[w] < gv
                &&& self.marked@[self.edge_to@[w] as int]
                &&& self.depth@[self.edge_to@[w] as int] < self.depth@[w]
            }
    }

    /// Depth-first search to find paths from `s` to nodes connected to `s`.
    pub fn new(g: &Graph, s: usize) -> (d: DepthFirstSearch)
        requires
            g.wf(),
            s < g.v,
        ensures
            d.wf(),
            d.s == s,
            d.marked@.len() == g.v,
    {
        let mut marked: Vec<bool> = Vec::new();
        let mut edge_to: Vec<usize> = Vec::new();
        let mut i: usize = 0;
        while i < g.v
            invariant
                i <= g.v,
                marked@.len() == i,
                edge_to@.len() == i,
                forall|t: int| 0 <= t < i ==> !(#[trigger] marked@[t]),
            decreases g.v - i,
        {
            marked.push(false);
            edge_to.push(0);
            i = i + 1;
        }
        let mut d = DepthFirstSearch {
            marked,
            edge_to,
            s,
            depth: Ghost(Seq::new(g.v as nat, |t: int| 0nat)),
        };
        d.dfs(g, s);
        d
    }

    #[verifier::loop_isolation(false)]
    fn dfs(&mut self, g: &Graph, x: usize)
        requires
            g.wf(),
            old(self).links_ok(g.v as int),
            x < g.v,
            !old(self).marked@[x as int],
            x == old(self).s || (old(self).edge_to@[x as int] < g.v && old(self).marked@[old(self).edge_to@[x as int] as int] && old(self).depth@[old(self).edge_to@[x as int] as int]
                < old(self).depth@[x as int]),
        ensures
            final(self).links_ok(g.v as int),
            final(self).s == old(self).s,
            final(self).marked@[x as int],
            forall|t: int|
                0 <= t < g.v && old(self).marked@[t] ==> #[trigger] final(self).marked@[t],
            unmarked_count(final(self).marked@) < unmarked_count(old(self).marked@),
        decreases unmarked_count(old(self).marked@),
    {
        proof {
            lemma_unmarked_count_mark(self.marked@, x as int);
        }
        self.marked[x] = true;
        let ghost entry = *self;
        let deg = g.adj[x].len();
        let mut k: usize = 0;
        while k < deg
            invariant
                g.wf(),
                x < g.v,
                deg == g.adj@[x as int]@.len(),
                k <= deg,
                self.links_ok(g.v as int),
                self.s == entry.s,
                self.marked@[x as int],
                forall|t: int|
                    0 <= t < g.v && entry.marked@[t] ==> #[trigger] self.marked@[t],
                unmarked_count(self.marked@) <= unmarked_count(entry.marked@),
            decreases deg - k,
        {
            let w = g.adj[x][k];
            if !self.marked[w] {
                self.edge_to[w] = x;
                proof {
                    self.depth@ = self.depth@.update(w as int, self.depth@[x as int] + 1);
                }
                let ghost before = *self;
                self.dfs(g, w);
                proof {
                    lemma_unmarked_count_monotone(entry.marked@, before.marked@);
                }
            }
            k = k + 1;
        }
        proof {
            lemma_unmarked_count_monotone(entry.marked@, self.marked@);
        }
    }

    /// Return the path from `s` to `v` found by depth-first search.
    pub fn path_to(&self, v: usize) -> (r: Vec<usize>)
        requires
            self.wf(),
            v < self.marked@.len(),
            self.marked@[v as int],
        ensures
            r@.len() >= 1,
            r@[0] == self.s,
            r@[r@.len() - 1] == v,
            forall|k: int|
                0 <= k < r@.len() - 1 ==> #[trigger] r@[k] == self.edge_to@[r@[k + 1] as int],
    {
        let mut path: Vec<usize> = Vec::new();
        let mut x = v;
        path.push(x);
        while x != self.s
            invariant
                self.wf(),
                x < self.marked@.len(),
                self.marked@[x as int],
                path@.len() >= 1,
                path@[0] == v,
                path@[path@.len() - 1] == x,
                forall|k: int|
                    0 <= k < path@.len() - 1 ==> #[trigger] path@[k + 1] == self.edge_to@[path@[k] as int],
            decreases self.depth@[x as int],
        {
            x = self.edge_to[x];
            path.push(x);
        }
        let n = path.len();
        let mut out: Vec<usize> = Vec::new();
        let mut k = n;
        while k > 0
            invariant
                k <= n,
                n == path@.len(),
                out@.len() == n - k,
                forall|t: int| 0 <= t < out@.len() ==> #[trigger] out@[t] == path@[n - 1 - t],
            decreases k,
        {
            k = k - 1;
            out.push(path[k]);
        }
        proof {
            assert(out@[0] == path@[n - 1]);
            assert(out@[out@.len() - 1] == path@[0]);
            assert forall|t: int|
                0 <= t < out@.len() - 1 implies #[trigger] out@[t] == self.edge_to@[out@[t
                + 1] as int] by {
                assert(out@[t] == path@[n - 1 - t]);
                assert(out@[t + 1] == path@[n - 2 - t]);
                assert(path@[(n - 2 - t) + 1] == self.edge_to@[path@[n - 2 - t] as int]);
            }
        }
        out
    }
}

} // verus!
