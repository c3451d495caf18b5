//! Depth-first search to find connected components in a graph.

use vstd::prelude::*;

use crate::graphs::{
    lemma_unmarked_count_mark, lemma_unmarked_count_monotone, unmarked_count, Graph,
};

verus! {

/// The connected components of a graph: a component index per vertex.
pub struct ConnectedComponents {
    pub id: Vec<usize>,
    pub count: usize,
}

impl ConnectedComponents {
    /// Find connected components with depth-first search.
    #[verifier::loop_isolation(false)]
    pub fn find(g: &Graph) -> (r: ConnectedComponents)
        requires
            g.wf(),
        ensures
            r.id@.len() == g.v,
            r.count <= g.v,
            forall|i: int| 0 <= i < g.v ==> #[trigger] r.id@[i] < r.count,
    {
        let mut id: Vec<usize> = Vec::new();
        let mut marked: Vec<bool> = Vec::new();
        let mut i: usize = 0;
        while i < g.v
            invariant
                i <= g.v,
                id@.len() == i,
                marked@.len() == i,
                forall|t: int| 0 <= t < i ==> !(#[trigger] marked@[t]),
            decreases g.v - i,
        {
            id.push(0);
            marked.push(false);
            i = i + 1;
        }
        let mut cc = ConnectedComponents { id, count: 0 };
        let mut v: usize = 0;
        while v < g.v
            invariant
                g.wf(),
                v <= g.v,
                cc.id@.len() == g.v,
                marked@.len() == g.v,
                cc.count <= v,
                forall|t: int| 0 <= t < v ==> #[trigger] marked@[t],
                forall|t: int|
                    0 <= t < g.v && #[trigger] marked@[t] ==> cc.id@[t] < cc.count,
            decreases g.v - v,
        {
            if !marked[v] {
                let ghost pre_marked = marked@;
                let ghost pre_cc = cc;
                cc.dfs(g, &mut marked, v);
                cc.count = cc.count + 1;
                proof {
                    assert forall|t: int|
                        0 <= t < g.v && #[trigger] marked@[t] implies cc.id@[t] < cc.count by {
                        if pre_marked[t] {
                            assert(cc.id@[t] == pre_cc.id@[t]);
                        } else {
                            assert(cc.id@[t] == pre_cc.count);
                        }
                    }
                }
            }
            v = v + 1;
        }
        proof {
            assert forall|i: int| 0 <= i < g.v implies #[trigger] cc.id@[i] < cc.count by {
                assert(marked@[i]);
            }
        }
        cc
    }

    #[verifier::loop_isolation(false)]
    fn dfs(&mut self, g: &Graph, marked: &mut Vec<bool>, x: usize)
        requires
            g.wf(),
            old(self).id@.len() == g.v,
            old(marked)@.len() == g.v,
            x < g.v,
            !old(marked)@[x as int],
            old(self).count < usize::MAX,
        ensures
            final(self).id@.len() == g.v,
            final(self).count == old(self).count,
            final(marked)@.len() == g.v,
            final(marked)@[x as int],
            forall|t: int| 0 <= t < g.v && old(marked)@[t] ==> #[trigger] final(marked)@[t],
            forall|t: int|
                0 <= t < g.v && !(#[trigger] old(marked)@[t]) && final(marked)@[t] ==> final(self).id@[t] == old(self).count,
            forall|t: int|
                0 <= t < g.v && #[trigger] old(marked)@[t] ==> final(self).id@[t] == old(self).id@[t],
            unmarked_count(final(marked)@) < unmarked_count(old(marked)@),
        decreases unmarked_count(old(marked)@),
    {
        proof {
            lemma_unmarked_count_mark(marked@, x as int);
        }
        marked[x] = true;
        self.id[x] = self.count;
        let ghost entry_marked = marked@;
        let deg = g.adj[x].len();
        let mut k: usize = 0;
        while k < deg
            invariant
                g.wf(),
                x < g.v,
                deg == g.adj@[x as int]@.len(),
                k <= deg,
                self.id@.len() == g.v,
                self.count == old(self).count,
                self.count < usize::MAX,
                marked@.len() == g.v,
                marked@[x as int],
                forall|t: int| 0 <= t < g.v && entry_marked[t] ==> #[trigger] marked@[t],
                forall|t: int|
                    0 <= t < g.v && !(#[trigger] old(marked)@[t]) && marked@[t] ==> self.id@[t]
                        == old(self).count,
                forall|t: int|
                    0 <= t < g.v && #[trigger] old(marked)@[t] ==> self.id@[t] == old(self).id@[t],
                forall|t: int| 0 <= t < g.v && old(marked)@[t] ==> #[trigger] marked@[t],
                unmarked_count(marked@) <= unmarked_count(entry_marked),
            decreases deg - k,
        {
            let w = g.adj[x][k];
            if !marked[w] {
                let ghost before_marked = marked@;
                let ghost before_self = *self;
                self.dfs(g, marked, w);
                proof {
                    lemma_unmarked_count_monotone(entry_marked, before_marked);
                    assert forall|t: int|
                        0 <= t < g.v && #[trigger] old(marked)@[t] implies self.id@[t] == old(
                        self,
                    ).id@[t] by {
                        assert(before_marked[t]);
                        assert(self.id@[t] == before_self.id@[t]);
                    }
                    assert forall|t: int|
                        0 <= t < g.v && !(#[trigger] old(marked)@[t]) && marked@[t] implies
                        self.id@[t] == old(self).count by {
                        if before_marked[t] {
                            assert(self.id@[t] == before_self.id@[t]);
                        } else {
                            assert(self.id@[t] == before_self.count);
                        }
                    }
                }
            }
            k = k + 1;
        }
        proof {
            lemma_unmarked_count_monotone(entry_marked, marked@);
        }
    }

    /// Check if node `v` and node `w` in the graph are connected.
    pub fn connected(&self, v: usize, w: usize) -> (r: bool)
        requires
            v < self.id@.len(),
            w < self.id@.len(),
        ensures
            r == (self.id@[v as int] == self.id@[w as int]),
    {
        self.id[v] == self.id[w]
    }
}

} // verus!
