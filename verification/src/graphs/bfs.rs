//! Breadth-first search to find paths in an undirected graph.

use vstd::prelude::*;

use crate::graphs::{lemma_unmarked_count_mark, unmarked_count, Graph};

verus! {

/// The result of a breadth-first search from a source vertex: which vertices
/// were reached, and through which edge each was first reached.
pub struct BreadthFirstSearch {
    pub marked: Vec<bool>,
    pub edge_to: Vec<usize>,
    pub s: usize,
    /// How many tree edges lie between the source and each marked vertex:
    /// following `edge_to` from any marked vertex strictly descends, so it
    /// reaches the source.
    pub depth: Ghost<Seq<nat>>,
}

impl BreadthFirstSearch {
    /// Parent links of marked vertices point at marked vertices of smaller
    /// depth, so every marked vertex has a finite parent chain to the source.
    pub open spec fn wf(self) -> bool {
        &&& self.marked@.len() == self.edge_to@.len()
        &&& self.depth@.len() == self.marked@.len()
        &&& self.s < self.marked@.len()
        &&& self.marked@[self.s as int]
        &&& forall|w: int|
            0 <= w < self.marked@.len() && #[trigger] self.marked@[w] && w != self.s ==> {
                &&& self.edge_to@[w] < self.marked@.len()
                &&& self.marked@[self.edge_to@[w] as int]
                &&& self.depth@[self.edge_to@[w] as int] < self.depth@[w]
            }
    }

    /// Breadth-first search to find paths from `s` to nodes connected to `s`.
    pub fn new(g: &Graph, s: usize) -> (d: BreadthFirstSearch)
        requires
            g.wf(),
            s < g.v,
        ensures
            d.wf(),
            d.s == s,
            d.marked@.len() == g.v,
    {
        let mut marked: Vec<bool> = Vec::new();
        let mut edge_to: Vec<usize> = Vec::new();
        let mut i: usize = 0;
        while i < g.v
            invariant
                i <= g.v,
                marked@.len() == i,
                edge_to@.len() == i,
                forall|t: int| 0 <= t < i ==> !(#[trigger] marked@[t]),
            decreases g.v - i,
        {
            marked.push(false);
            edge_to.push(0);
            i = i + 1;
        }
        let mut d = BreadthFirstSearch {
            marked,
            edge_to,
            s,
            depth: Ghost(Seq::new(g.v as nat, |t: int| 0nat)),
        };
        d.bfs(g, s);
        d
    }

    fn bfs(&mut self, g: &Graph, s: usize)
        requires
            g.wf(),
            s == old(self).s,
            s < g.v,
            old(self).marked@.len() == g.v,
            old(self).edge_to@.len() == g.v,
            old(self).depth@.len() == g.v,
            forall|t: int| 0 <= t < g.v ==> !(#[trigger] old(self).marked@[t]),
        ensures
            final(self).wf(),
            final(self).s == s,
            final(self).marked@.len() == g.v,
    {
        let ghost gv = g.v as int;
        let mut queue: Vec<usize> = Vec::new();
        self.marked[s] = true;
        queue.push(s);
        while queue.len() != 0
            invariant
                g.wf(),
                self.s == s,
                self.marked@.len() == gv,
                self.edge_to@.len() == gv,
                self.depth@.len() == gv,
                gv == g.v as int,
                s < g.v,
                self.marked@[s as int],
                forall|q: int|
                    0 <= q < queue@.len() ==> #[trigger] queue@[q] < gv
                        && self.marked@[queue@[q] as int],
                forall|w: int|
                    0 <= w < gv && #[trigger] self.marked@[w] && w != s as int ==> {
                        &&& self.edge_to@[w] < gv
                        &&& self.marked@[self.edge_to@[w] as int]
                        &&& self.depth@[self.edge_to@[w] as int] < self.depth@[w]
                    },
            decreases unmarked_count(self.marked@) + queue@.len(),
        {
            let x = queue.remove(0);
            let ghost measure0 = unmarked_count(self.marked@) + queue@.len();
            let deg = g.adj[x].len();
            let mut k: usize = 0;
            while k < deg
                invariant
                    g.wf(),
                    self.s == s,
                    self.marked@.len() == gv,
                    self.edge_to@.len() == gv,
                    self.depth@.len() == gv,
                    gv == g.v as int,
                    s < g.v,
                    x < g.v,
                    self.marked@[s as int],
                    self.marked@[x as int],
                    deg == g.adj@[x as int]@.len(),
                    k <= deg,
                    unmarked_count(self.marked@) + queue@.len() == measure0,
                    forall|q: int|
                        0 <= q < queue@.len() ==> #[trigger] queue@[q] < gv
                            && self.marked@[queue@[q] as int],
                    forall|w: int|
                        0 <= w < gv && #[trigger] self.marked@[w] && w != s as int ==> {
                            &&& self.edge_to@[w] < gv
                            &&& self.marked@[self.edge_to@[w] as int]
                            &&& self.depth@[self.edge_to@[w] as int] < self.depth@[w]
                        },
                decreases deg - k,
            {
                let w = g.adj[x][k];
                if !self.marked[w] {
                    self.edge_to[w] = x;
                    proof {
                        lemma_unmarked_count_mark(self.marked@, w as int);
                        self.depth@ = self.depth@.update(w as int, self.depth@[x as int] + 1);
                    }
                    self.marked[w] = true;
                    queue.push(w);
                }
                k = k + 1;
            }
        }
    }

    /// Return the path from `s` to `v` found by breadth-first search.
    pub fn path_to(&self, v: usize) -> (r: Vec<usize>)
        requires
            self.wf(),
            v < self.marked@.len(),
            self.marked@[v as int],
        ensures
            r@.len() >= 1,
            r@[0] == self.s,
            r@[r@.len() - 1] == v,
            forall|k: int|
                0 <= k < r@.len() - 1 ==> #[trigger] r@[k] == self.edge_to@[r@[k + 1] as int],
    {
        let mut path: Vec<usize> = Vec::new();
        let mut x = v;
        path.push(x);
        while x != self.s
            invariant
                self.wf(),
                x < self.marked@.len(),
                self.marked@[x as int],
                path@.len() >= 1,
                path@[0] == v,
                path@[path@.len() - 1] == x,
                forall|k: int|
                    0 <= k < path@.len() - 1 ==> #[trigger] path@[k + 1] == self.edge_to@[path@[k] as int],
            decreases self.depth@[x as int],
        {
            x = self.edge_to[x];
            path.push(x);
        }
        let n = path.len();
        let mut out: Vec<usize> = Vec::new();
        let mut k = n;
        while k > 0
            invariant
                k <= n,
                n == path@.len(),
                out@.len() == n - k,
                forall|t: int| 0 <= t < out@.len() ==> #[trigger] out@[t] == path@[n - 1 - t],
            decreases k,
        {
            k = k - 1;
            out.push(path[k]);
        }
        proof {
            assert(out@[0] == path@[n - 1]);
            assert(out@[out@.len() - 1] == path@[0]);
            assert forall|t: int|
                0 <= t < out@.len() - 1 implies #[trigger] out@[t] == self.edge_to@[out@[t
                + 1] as int] by {
                assert(out@[t] == path@[n - 1 - t]);
                assert(out@[t + 1] == path@[n - 2 - t]);
                assert(path@[(n - 2 - t) + 1] == self.edge_to@[path@[n - 2 - t] as int]);
            }
        }
        out
    }
}

} // verus!
