//! Triadic-rewire null model: randomized double-edge swaps on an owned copy
//! of the input graph, each swap kept only when the global triangle count
//! stays exactly what it was.

use vstd::prelude::*;
use crate::graph::{Graph, same_pair};
use crate::rng::{fresh_rng, gen_below};
use crate::triangles::{count_triangles, spec_triangle_count, lemma_triangle_count_ext};

verus! {

/// Adjacency looks through the names of a pair: asking for `{p, q}` is
/// asking for `{x, y}` whenever the two unordered pairs are equal.
proof fn lemma_has_edge_same_pair(g: Graph, p: int, q: int, x: int, y: int)
    requires
        same_pair(p, q, x, y),
    ensures
        g.spec_has_edge(p, q) == g.spec_has_edge(x, y),
{
    if g.spec_has_edge(p, q) {
        let k = choose|k: int|
            0 <= k < g.edges@.len() && same_pair(
                (#[trigger] g.edges@[k]).0 as int,
                g.edges@[k].1 as int,
                p,
                q,
            );
        assert(same_pair(g.edges@[k].0 as int, g.edges@[k].1 as int, x, y));
        assert(g.spec_has_edge(x, y));
    }
    if g.spec_has_edge(x, y) {
        let k = choose|k: int|
            0 <= k < g.edges@.len() && same_pair(
                (#[trigger] g.edges@[k]).0 as int,
                g.edges@[k].1 as int,
                x,
                y,
            );
        assert(same_pair(g.edges@[k].0 as int, g.edges@[k].1 as int, p, q));
        assert(g.spec_has_edge(p, q));
    }
}

/// The double-edge swap of the edges at positions `e1` and `e2` is eligible:
/// the four endpoints are pairwise distinct across the swap boundary, and
/// neither candidate replacement edge exists yet.
pub open spec fn swap_eligible(g: Graph, e1: int, e2: int) -> bool {
    let a = g.edges@[e1].0 as int;
    let b = g.edges@[e1].1 as int;
    let c = g.edges@[e2].0 as int;
    let d = g.edges@[e2].1 as int;
    &&& a != c
    &&& b != d
    &&& a != d
    &&& b != c
    &&& !g.spec_has_edge(a, c)
    &&& !g.spec_has_edge(b, d)
}

/// What a trial owes on an eligible pair: `gs` is the swapped graph — the
/// adjacency of `g0` with `{a, b}`, `{c, d}` traded for `{a, c}`, `{b, d}` —
/// and when its triangle count is `t0` the trial must deliver exactly that
/// adjacency in `g1`; otherwise the trial must leave `g0`'s adjacency.
pub open spec fn eligible_outcome(
    g0: Graph,
    gs: Graph,
    g1: Graph,
    e1: int,
    e2: int,
    t0: nat,
) -> bool {
    let a = g0.edges@[e1].0 as int;
    let b = g0.edges@[e1].1 as int;
    let c = g0.edges@[e2].0 as int;
    let d = g0.edges@[e2].1 as int;
    &&& gs.n == g0.n
    &&& (forall|p: int, q: int| #[trigger]
        gs.spec_has_edge(p, q) == ((g0.spec_has_edge(p, q) && !same_pair(p, q, a, b)
            && !same_pair(p, q, c, d)) || same_pair(p, q, a, c) || same_pair(p, q, b, d)))
    &&& (if spec_triangle_count(gs) == t0 {
        forall|p: int, q: int| #[trigger] g1.spec_has_edge(p, q) == gs.spec_has_edge(p, q)
    } else {
        forall|p: int, q: int| #[trigger] g1.spec_has_edge(p, q) == g0.spec_has_edge(p, q)
    })
}

/// One swap trial on the edges `{a, b}` and `{c, d}` at positions `e1` and
/// `e2` of a graph whose triangle count is `t0`. An ineligible pair leaves
/// the edge list untouched; an eligible pair is swapped to `{a, c}`, `{b, d}`
/// exactly when that keeps the triangle count at `t0`, and leaves the
/// adjacency unchanged otherwise (`eligible_outcome` — the triangle count of
/// a graph depends only on its node count and adjacency, so the outcome is
/// decided by the arguments). Node count, edge count, triangle count and
/// every node's degree are kept either way.
pub fn swap_trial(graph: &mut Graph, e1: usize, e2: usize, t0: usize)
    requires
        old(graph).wf(),
        old(graph).n * old(graph).n * old(graph).n <= usize::MAX,
        e1 < old(graph).edges@.len(),
        e2 < old(graph).edges@.len(),
        e1 != e2,
        t0 == spec_triangle_count(*old(graph)),
    ensures
        final(graph).wf(),
        final(graph).n == old(graph).n,
        final(graph).edges@.len() == old(graph).edges@.len(),
        spec_triangle_count(*final(graph)) == t0,
        forall|z: int|
            #![trigger final(graph).spec_degree(z)]
            final(graph).spec_degree(z) == old(graph).spec_degree(z),
        !swap_eligible(*old(graph), e1 as int, e2 as int) ==> final(graph).edges@ == old(
            graph,
        ).edges@,
        swap_eligible(*old(graph), e1 as int, e2 as int) ==> (exists|gs: Graph|
            eligible_outcome(*old(graph), gs, *final(graph), e1 as int, e2 as int, t0 as nat)),
{
    let (a, b) = graph.edges[e1];
    let (c, d) = graph.edges[e2];
    proof {
        assert((a, b) == graph.edges@[e1 as int]);
        assert((c, d) == graph.edges@[e2 as int]);
        assert(a < graph.n && b < graph.n && a != b);
        assert(c < graph.n && d < graph.n && c != d);
        if e1 < e2 {
            assert(!same_pair(a as int, b as int, c as int, d as int));
        } else {
            assert(!same_pair(c as int, d as int, a as int, b as int));
        }
        assert(graph.spec_has_edge(a as int, b as int));
        assert(graph.spec_has_edge(c as int, d as int));
    }

    // The swap is attempted only when it would create neither a self-loop nor
    // a repeated edge.
    if a != c && b != d && a != d && b != c && !graph.contains_edge(a, c) && !graph.contains_edge(
        b,
        d,
    ) {
        let ghost gsnap = *graph;
        proof {
            assert(swap_eligible(*old(graph), e1 as int, e2 as int));
        }
        graph.remove_edge_between(a, b);
        graph.remove_edge_between(c, d);
        graph.add_edge(a, c);
        graph.add_edge(b, d);
        let ghost gswapped = *graph;
        proof {
            // The swapped graph: the snapshot's adjacency with `{a, b}`,
            // `{c, d}` traded for `{a, c}`, `{b, d}`, and the same degrees.
            assert forall|p: int, q: int| #[trigger]
                gswapped.spec_has_edge(p, q) == ((gsnap.spec_has_edge(p, q) && !same_pair(
                    p,
                    q,
                    a as int,
                    b as int,
                ) && !same_pair(p, q, c as int, d as int)) || same_pair(p, q, a as int, c as int)
                    || same_pair(p, q, b as int, d as int)) by {}
            assert forall|z: int| #[trigger]
                gswapped.spec_degree(z) == gsnap.spec_degree(z) by {}
        }

        let t_new = count_triangles(graph);
        if t_new == t0 {
            // Accept: the swapped graph's triangle count is `t0`, and it is
            // what the trial delivers.
            proof {
                assert(spec_triangle_count(gswapped) == t0);
                assert(eligible_outcome(
                    *old(graph),
                    gswapped,
                    *graph,
                    e1 as int,
                    e2 as int,
                    t0 as nat,
                ));
            }
        } else {
            // Reject: revert exactly.
            graph.remove_edge_between(a, c);
            graph.remove_edge_between(b, d);
            graph.add_edge(a, b);
            graph.add_edge(c, d);
            proof {
                assert forall|p: int, q: int| #[trigger]
                    graph.spec_has_edge(p, q) == gsnap.spec_has_edge(p, q) by {
                    if same_pair(p, q, a as int, b as int) {
                        lemma_has_edge_same_pair(*graph, p, q, a as int, b as int);
                        lemma_has_edge_same_pair(gsnap, p, q, a as int, b as int);
                    }
                    if same_pair(p, q, c as int, d as int) {
                        lemma_has_edge_same_pair(*graph, p, q, c as int, d as int);
                        lemma_has_edge_same_pair(gsnap, p, q, c as int, d as int);
                    }
                    if same_pair(p, q, a as int, c as int) {
                        lemma_has_edge_same_pair(*graph, p, q, a as int, c as int);
                        lemma_has_edge_same_pair(gsnap, p, q, a as int, c as int);
                    }
                    if same_pair(p, q, b as int, d as int) {
                        lemma_has_edge_same_pair(*graph, p, q, b as int, d as int);
                        lemma_has_edge_same_pair(gsnap, p, q, b as int, d as int);
                    }
                }
                lemma_triangle_count_ext(*graph, gsnap);
                assert forall|z: int| #[trigger]
                    graph.spec_degree(z) == gsnap.spec_degree(z) by {}
                assert(spec_triangle_count(gswapped) == t_new);
                assert(eligible_outcome(
                    *old(graph),
                    gswapped,
                    *graph,
                    e1 as int,
                    e2 as int,
                    t0 as nat,
                ));
            }
        }
    }
}

/// Samples a triadic-rewire null model: an owned copy of the input graph
/// perturbed by `10 * |E|` double-edge swap trials, each swap kept only when
/// the recomputed triangle count equals the input's, and reverted exactly
/// otherwise. The output keeps the input's node count, edge count and
/// triangle count; graphs with fewer than three nodes or fewer than three
/// edges come back unchanged.
pub fn sample_triadic_rewire(graph: &Graph) -> (result: Graph)
    requires
        graph.wf(),
        graph.n * graph.n * graph.n <= usize::MAX,
        10 * graph.edges@.len() <= usize::MAX,
    ensures
        result.wf(),
        result.n == graph.n,
        result.edges@.len() == graph.edges@.len(),
        spec_triangle_count(result) == spec_triangle_count(*graph),
        forall|z: int| #![trigger result.spec_degree(z)] result.spec_degree(z) == graph.spec_degree(
            z,
        ),
        graph.n < 3 || graph.edges@.len() < 3 ==> result.edges@ == graph.edges@,
{
    let mut new_graph = graph.duplicate();
    proof {
        assert forall|p: int, q: int| #[trigger]
            new_graph.spec_has_edge(p, q) == graph.spec_has_edge(p, q) by {}
        lemma_triangle_count_ext(new_graph, *graph);
        assert(new_graph.wf());
    }
    let n = new_graph.node_count();
    let m = new_graph.edge_count();

    if n < 3 || m < 3 {
        // Too small to rewire meaningfully.
        return new_graph;
    }

    // The count every accepted swap must reproduce.
    let t0 = count_triangles(&new_graph);

    let mut rng = fresh_rng();
    let num_swaps = m * 10;

    let mut trial: usize = 0;
    while trial < num_swaps
        invariant
            new_graph.wf(),
            new_graph.n == graph.n,
            new_graph.edges@.len() == m,
            m == graph.edges@.len(),
            3 <= new_graph.n,
            3 <= m,
            new_graph.n * new_graph.n * new_graph.n <= usize::MAX,
            t0 == spec_triangle_count(new_graph),
            t0 == spec_triangle_count(*graph),
            forall|z: int|
                #![trigger new_graph.spec_degree(z)]
                new_graph.spec_degree(z) == graph.spec_degree(z),
            trial <= num_swaps,
        decreases num_swaps - trial,
    {
        // Two distinct edges, uniformly at random.
        let e1 = gen_below(&mut rng, m);
        let mut e2 = gen_below(&mut rng, m - 1);
        if e2 >= e1 {
            e2 = e2 + 1;
        }
        swap_trial(&mut new_graph, e1, e2, t0);
        trial = trial + 1;
    }
    new_graph
}

} // verus!
