//! An undirected simple graph held as a node count and an edge list.
//!
//! Nodes are the identifiers `0 .. n`; an edge is an unordered pair of
//! distinct nodes, stored once in insertion order.

use vstd::prelude::*;

verus! {

/// Whether the unordered pair `{x, y}` equals the unordered pair `{a, b}`.
pub open spec fn same_pair(x: int, y: int, a: int, b: int) -> bool {
    (x == a && y == b) || (x == b && y == a)
}

/// Whether the edge `e` is incident to the node `x`.
pub open spec fn touches(e: (usize, usize), x: int) -> bool {
    e.0 == x || e.1 == x
}

/// Whether some entry of the edge list `es` joins `x` and `y`.
pub open spec fn seq_has_pair(es: Seq<(usize, usize)>, x: int, y: int) -> bool {
    exists|k: int|
        0 <= k < es.len() && same_pair((#[trigger] es[k]).0 as int, es[k].1 as int, x, y)
}

/// The number of edges of `s` incident to `x`.
pub open spec fn seq_degree(s: Seq<(usize, usize)>, x: int) -> nat
    decreases s.len(),
{
    if s.len() == 0 {
        0
    } else {
        seq_degree(s.drop_last(), x) + (if touches(s.last(), x) {
            1nat
        } else {
            0nat
        })
    }
}

proof fn lemma_seq_degree_remove(s: Seq<(usize, usize)>, i: int, x: int)
    requires
        0 <= i < s.len(),
    ensures
        seq_degree(s.remove(i), x) + (if touches(s[i], x) {
            1nat
        } else {
            0nat
        }) == seq_degree(s, x),
    decreases s.len(),
{
    if i == s.len() - 1 {
        assert(s.remove(i) =~= s.drop_last());
    } else {
        assert(s.remove(i).drop_last() =~= s.drop_last().remove(i));
        assert(s.remove(i).last() == s.last());
        lemma_seq_degree_remove(s.drop_last(), i, x);
    }
}

/// An undirected simple graph on the nodes `0 .. n`.
pub struct Graph {
    pub n: usize,
    pub edges: Vec<(usize, usize)>,
}

impl Graph {
    /// Every edge joins two distinct nodes below `n`, and no unordered pair
    /// of nodes occurs twice in the edge list.
    pub open spec fn wf(self) -> bool {
        &&& forall|k: int| 0 <= k < self.edges@.len() ==> {
            &&& (#[trigger] self.edges@[k]).0 < self.n
            &&& self.edges@[k].1 < self.n
            &&& self.edges@[k].0 != self.edges@[k].1
        }
        &&& forall|k: int, l: int|
            0 <= k < l < self.edges@.len() ==> !same_pair(
                (#[trigger] self.edges@[k]).0 as int,
                self.edges@[k].1 as int,
                (#[trigger] self.edges@[l]).0 as int,
                self.edges@[l].1 as int,
            )
    }

    /// Whether some edge of the graph joins `x` and `y`.
    pub open spec fn spec_has_edge(self, x: int, y: int) -> bool {
        seq_has_pair(self.edges@, x, y)
    }

    /// The number of edges incident to `x`.
    pub open spec fn spec_degree(self, x: int) -> nat {
        seq_degree(self.edges@, x)
    }

    /// A graph with no nodes and no edges.
    pub fn new_undirected() -> (g: Graph)
        ensures
            g.n == 0,
            g.edges@.len() == 0,
            g.wf(),
    {
        Graph { n: 0, edges: Vec::new() }
    }

    /// Adds a fresh node and returns its identifier.
    pub fn add_node(&mut self) -> (id: usize)
        requires
            old(self).n < usize::MAX,
        ensures
            id == old(self).n,
            final(self).n == old(self).n + 1,
            final(self).edges@ == old(self).edges@,
            old(self).wf() ==> final(self).wf(),
    {
        let id = self.n;
        self.n = self.n + 1;
        id
    }

    /// The number of nodes.
    pub fn node_count(&self) -> (c: usize)
        ensures
            c == self.n,
    {
        self.n
    }

    /// The number of edges.
    pub fn edge_count(&self) -> (c: usize)
        ensures
            c == self.edges@.len(),
    {
        self.edges.len()
    }

    /// Whether the graph holds an edge between `x` and `y`, in either
    /// orientation.
    pub fn contains_edge(&self, x: usize, y: usize) -> (r: bool)
        ensures
            r == self.spec_has_edge(x as int, y as int),
    {
        let mut k: usize = 0;
        while k < self.edges.len()
            invariant
                k <= self.edges@.len(),
                forall|l: int|
                    0 <= l < k ==> !same_pair(
                        (#[trigger] self.edges@[l]).0 as int,
                        self.edges@[l].1 as int,
                        x as int,
                        y as int,
                    ),
            decreases self.edges@.len() - k,
        {
            let (a, b) = self.edges[k];
            if (a == x && b == y) || (a == y && b == x) {
                assert(same_pair(
                    self.edges@[k as int].0 as int,
                    self.edges@[k as int].1 as int,
                    x as int,
                    y as int,
                ));
                return true;
            }
            k = k + 1;
        }
        false
    }

    /// Adds the edge `{x, y}`. The caller must know that both endpoints are
    /// nodes, that they differ, and that the edge is not already present.
    pub fn add_edge(&mut self, x: usize, y: usize)
        requires
            old(self).wf(),
            x < old(self).n,
            y < old(self).n,
            x != y,
            !old(self).spec_has_edge(x as int, y as int),
        ensures
            final(self).wf(),
            final(self).n == old(self).n,
            final(self).edges@ == old(self).edges@.push((x, y)),
            forall|p: int, q: int|
                #[trigger] final(self).spec_has_edge(p, q) == (old(self).spec_has_edge(p, q)
                    || same_pair(p, q, x as int, y as int)),
            forall|z: int|
                #![trigger final(self).spec_degree(z)]
                #![trigger old(self).spec_degree(z)]
                final(self).spec_degree(z) == old(self).spec_degree(z) + (if z == x || z == y {
                    1nat
                } else {
                    0nat
                }),
    {
        let ghost olds = self.edges@;
        self.edges.push((x, y));
        proof {
            let news = self.edges@;
            assert(news.len() == olds.len() + 1);
            assert(forall|k: int| 0 <= k < olds.len() ==> news[k] == olds[k]);
            assert(news[olds.len() as int] == (x, y));
            assert forall|p: int, q: int|
                #[trigger] self.spec_has_edge(p, q) == (old(self).spec_has_edge(p, q)
                    || same_pair(p, q, x as int, y as int)) by {
                if self.spec_has_edge(p, q) {
                    let k = choose|k: int|
                        0 <= k < news.len() && same_pair(
                            (#[trigger] news[k]).0 as int,
                            news[k].1 as int,
                            p,
                            q,
                        );
                    if k < olds.len() {
                        assert(old(self).spec_has_edge(p, q));
                    } else {
                        assert(same_pair(p, q, x as int, y as int));
                    }
                }
                if old(self).spec_has_edge(p, q) {
                    let k = choose|k: int|
                        0 <= k < olds.len() && same_pair(
                            (#[trigger] olds[k]).0 as int,
                            olds[k].1 as int,
                            p,
                            q,
                        );
                    assert(news[k] == olds[k]);
                    assert(self.spec_has_edge(p, q));
                }
                if same_pair(p, q, x as int, y as int) {
                    assert(same_pair(
                        news[olds.len() as int].0 as int,
                        news[olds.len() as int].1 as int,
                        p,
                        q,
                    ));
                    assert(self.spec_has_edge(p, q));
                }
            }
            assert forall|z: int|
                self.spec_degree(z) == old(self).spec_degree(z) + (if z == x || z == y {
                    1nat
                } else {
                    0nat
                }) by {
                assert(news.drop_last() =~= olds);
                assert(news.last() == (x, y));
            }
        }
    }

    /// Removes the edge `{x, y}`, which must be present.
    pub fn remove_edge_between(&mut self, x: usize, y: usize)
        requires
            old(self).wf(),
            old(self).spec_has_edge(x as int, y as int),
        ensures
            final(self).wf(),
            final(self).n == old(self).n,
            final(self).edges@.len() == old(self).edges@.len() - 1,
            forall|p: int, q: int|
                #[trigger] final(self).spec_has_edge(p, q) == (old(self).spec_has_edge(p, q)
                    && !same_pair(p, q, x as int, y as int)),
            forall|z: int|
                #![trigger final(self).spec_degree(z)]
                #![trigger old(self).spec_degree(z)]
                final(self).spec_degree(z) + (if z == x || z == y {
                    1nat
                } else {
                    0nat
                }) == old(self).spec_degree(z),
    {
        let ghost olds = self.edges@;
        let mut k: usize = 0;
        while k < self.edges.len()
            invariant
                self == old(self),
                k <= self.edges@.len(),
                forall|l: int|
                    0 <= l < k ==> !same_pair(
                        (#[trigger] self.edges@[l]).0 as int,
                        self.edges@[l].1 as int,
                        x as int,
                        y as int,
                    ),
            ensures
                self == old(self),
                k <= self.edges@.len(),
                forall|l: int|
                    0 <= l < k ==> !same_pair(
                        (#[trigger] self.edges@[l]).0 as int,
                        self.edges@[l].1 as int,
                        x as int,
                        y as int,
                    ),
                k == self.edges@.len() || same_pair(
                    self.edges@[k as int].0 as int,
                    self.edges@[k as int].1 as int,
                    x as int,
                    y as int,
                ),
            decreases self.edges@.len() - k,
        {
            let (a, b) = self.edges[k];
            if (a == x && b == y) || (a == y && b == x) {
                break;
            }
            k = k + 1;
        }
        proof {
            if k >= olds.len() {
                assert(!old(self).spec_has_edge(x as int, y as int));
                assert(false);
            }
        }
        let ghost kk = k as int;
        self.edges.remove(k);
        proof {
            let news = self.edges@;
            assert(news =~= olds.subrange(0, kk) + olds.subrange(kk + 1, olds.len() as int));
            assert(forall|i: int| 0 <= i < kk ==> news[i] == olds[i]);
            assert(forall|i: int| kk <= i < news.len() ==> news[i] == olds[i + 1]);
            // The removed position was the only occurrence of the pair, so no
            // remaining edge matches it.
            assert forall|i: int| 0 <= i < news.len() implies !same_pair(
                (#[trigger] news[i]).0 as int,
                news[i].1 as int,
                x as int,
                y as int,
            ) by {
                let j = if i < kk {
                    i
                } else {
                    i + 1
                };
                assert(news[i] == olds[j]);
                if same_pair(olds[j].0 as int, olds[j].1 as int, x as int, y as int) {
                    // Two distinct positions would hold the same pair.
                    assert(same_pair(olds[kk].0 as int, olds[kk].1 as int, x as int, y as int));
                    if j < kk {
                        assert(!same_pair(
                            olds[j].0 as int,
                            olds[j].1 as int,
                            olds[kk].0 as int,
                            olds[kk].1 as int,
                        ));
                    } else {
                        assert(!same_pair(
                            olds[kk].0 as int,
                            olds[kk].1 as int,
                            olds[j].0 as int,
                            olds[j].1 as int,
                        ));
                    }
                }
            }
            assert forall|p: int, q: int|
                #[trigger] self.spec_has_edge(p, q) == (old(self).spec_has_edge(p, q)
                    && !same_pair(p, q, x as int, y as int)) by {
                if self.spec_has_edge(p, q) {
                    let i = choose|i: int|
                        0 <= i < news.len() && same_pair(
                            (#[trigger] news[i]).0 as int,
                            news[i].1 as int,
                            p,
                            q,
                        );
                    let j = if i < kk {
                        i
                    } else {
                        i + 1
                    };
                    assert(news[i] == olds[j]);
                    assert(old(self).spec_has_edge(p, q));
                    assert(!same_pair(p, q, x as int, y as int));
                }
                if old(self).spec_has_edge(p, q) && !same_pair(p, q, x as int, y as int) {
                    let j = choose|j: int|
                        0 <= j < olds.len() && same_pair(
                            (#[trigger] olds[j]).0 as int,
                            olds[j].1 as int,
                            p,
                            q,
                        );
                    assert(j != kk);
                    let i = if j < kk {
                        j
                    } else {
                        j - 1
                    };
                    assert(news[i] == olds[j]);
                    assert(self.spec_has_edge(p, q));
                }
            }
            assert forall|z: int|
                self.spec_degree(z) + (if z == x || z == y {
                    1nat
                } else {
                    0nat
                }) == old(self).spec_degree(z) by {
                lemma_seq_degree_remove(olds, kk, z);
                assert(news == olds.remove(kk));
                assert(touches(olds[kk], z) == (z == x || z == y));
            }
        }
    }

    /// The number of edges incident to `x`.
    pub fn degree(&self, x: usize) -> (d: usize)
        ensures
            d == self.spec_degree(x as int),
    {
        let mut d: usize = 0;
        let mut k: usize = 0;
        while k < self.edges.len()
            invariant
                k <= self.edges@.len(),
                d == seq_degree(self.edges@.take(k as int), x as int),
                d <= k,
            decreases self.edges@.len() - k,
        {
            let (a, b) = self.edges[k];
            proof {
                let s = self.edges@;
                assert(s.take(k + 1).drop_last() =~= s.take(k as int));
                assert(s.take(k + 1).last() == s[k as int]);
            }
            if a == x || b == x {
                d = d + 1;
            }
            k = k + 1;
        }
        proof {
            assert(self.edges@.take(self.edges@.len() as int) =~= self.edges@);
        }
        d
    }

    /// A fresh graph with the same nodes and the same edge list.
    pub fn duplicate(&self) -> (g: Graph)
        ensures
            g.n == self.n,
            g.edges@ == self.edges@,
    {
        let mut edges: Vec<(usize, usize)> = Vec::new();
        let mut k: usize = 0;
        while k < self.edges.len()
            invariant
                k <= self.edges@.len(),
                edges@ == self.edges@.take(k as int),
            decreases self.edges@.len() - k,
        {
            let e = self.edges[k];
            edges.push(e);
            proof {
                assert(self.edges@.take(k + 1) =~= self.edges@.take(k as int).push(
                    self.edges@[k as int],
                ));
            }
            k = k + 1;
        }
        proof {
            assert(self.edges@.take(self.edges@.len() as int) =~= self.edges@);
        }
        Graph { n: self.n, edges }
    }
}

} // verus!
