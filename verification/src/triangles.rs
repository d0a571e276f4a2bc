//! Triangle counting: for each node, the pairs of its neighbors that are
//! themselves adjacent, summed over all nodes and divided by three (each
//! triangle is seen once per vertex).

use vstd::prelude::*;
use crate::graph::Graph;

verus! {

/// 1 when `i` and `j` are both neighbors of `v` and adjacent to each other,
/// so that `{v, i, j}` spans a triangle.
pub open spec fn closed_at(g: Graph, v: int, i: int, j: int) -> nat {
    if g.spec_has_edge(v, i) && g.spec_has_edge(v, j) && g.spec_has_edge(i, j) {
        1nat
    } else {
        0nat
    }
}

/// Triangles through `v` with first leg `i`, summed over second legs in
/// `i + 1 .. j`.
pub open spec fn wedges_upto_j(g: Graph, v: int, i: int, j: int) -> nat
    decreases j - i,
{
    if j <= i + 1 {
        0
    } else {
        wedges_upto_j(g, v, i, j - 1) + closed_at(g, v, i, j - 1)
    }
}

/// Triangles through `v`, summed over first legs below `i` and second legs up
/// to the node count.
pub open spec fn wedges_upto_i(g: Graph, v: int, i: int) -> nat
    decreases i,
{
    if i <= 0 {
        0
    } else {
        wedges_upto_i(g, v, i - 1) + wedges_upto_j(g, v, i - 1, g.n as int)
    }
}

/// Closed wedges centred at the nodes below `v`.
pub open spec fn wedges_upto_v(g: Graph, v: int) -> nat
    decreases v,
{
    if v <= 0 {
        0
    } else {
        wedges_upto_v(g, v - 1) + wedges_upto_i(g, v - 1, g.n as int)
    }
}

/// Closed wedges centred anywhere: each triangle contributes once per vertex.
pub open spec fn closed_wedge_total(g: Graph) -> nat {
    wedges_upto_v(g, g.n as int)
}

/// The triangle count of the graph: the closed-wedge total divided by three.
pub open spec fn spec_triangle_count(g: Graph) -> nat {
    closed_wedge_total(g) / 3
}

proof fn lemma_wedges_j_bound(g: Graph, v: int, i: int, j: int)
    requires
        i < j,
    ensures
        wedges_upto_j(g, v, i, j) <= j - i - 1,
    decreases j - i,
{
    if j > i + 1 {
        lemma_wedges_j_bound(g, v, i, j - 1);
    }
}

proof fn lemma_wedges_i_bound(g: Graph, v: int, i: int)
    requires
        0 <= i,
        i <= g.n,
    ensures
        wedges_upto_i(g, v, i) <= i * (g.n as int),
    decreases i,
{
    if i > 0 {
        lemma_wedges_i_bound(g, v, i - 1);
        if i - 1 < g.n {
            lemma_wedges_j_bound(g, v, i - 1, g.n as int);
        }
        assert((i - 1) * (g.n as int) + g.n as int == i * (g.n as int)) by (nonlinear_arith);
    }
}

proof fn lemma_wedges_v_bound(g: Graph, v: int)
    requires
        0 <= v,
        v <= g.n,
    ensures
        wedges_upto_v(g, v) <= v * (g.n as int) * (g.n as int),
    decreases v,
{
    if v > 0 {
        lemma_wedges_v_bound(g, v - 1);
        lemma_wedges_i_bound(g, v - 1, g.n as int);
        assert((v - 1) * (g.n as int) * (g.n as int) + (g.n as int) * (g.n as int) == v * (
        g.n as int) * (g.n as int)) by (nonlinear_arith);
    }
}

proof fn lemma_wedges_j_ext(g1: Graph, g2: Graph, v: int, i: int, j: int)
    requires
        g1.n == g2.n,
        forall|p: int, q: int| #[trigger] g1.spec_has_edge(p, q) == g2.spec_has_edge(p, q),
    ensures
        wedges_upto_j(g1, v, i, j) == wedges_upto_j(g2, v, i, j),
    decreases j - i,
{
    if j > i + 1 {
        lemma_wedges_j_ext(g1, g2, v, i, j - 1);
    }
}

proof fn lemma_wedges_i_ext(g1: Graph, g2: Graph, v: int, i: int)
    requires
        g1.n == g2.n,
        forall|p: int, q: int| #[trigger] g1.spec_has_edge(p, q) == g2.spec_has_edge(p, q),
    ensures
        wedges_upto_i(g1, v, i) == wedges_upto_i(g2, v, i),
    decreases i,
{
    if i > 0 {
        lemma_wedges_i_ext(g1, g2, v, i - 1);
        lemma_wedges_j_ext(g1, g2, v, i - 1, g1.n as int);
    }
}

proof fn lemma_wedges_v_ext(g1: Graph, g2: Graph, v: int)
    requires
        g1.n == g2.n,
        forall|p: int, q: int| #[trigger] g1.spec_has_edge(p, q) == g2.spec_has_edge(p, q),
    ensures
        wedges_upto_v(g1, v) == wedges_upto_v(g2, v),
    decreases v,
{
    if v > 0 {
        lemma_wedges_v_ext(g1, g2, v - 1);
        lemma_wedges_i_ext(g1, g2, v - 1, g1.n as int);
    }
}

/// Two graphs on the same nodes with the same adjacency have the same
/// triangle count.
pub proof fn lemma_triangle_count_ext(g1: Graph, g2: Graph)
    requires
        g1.n == g2.n,
        forall|p: int, q: int| #[trigger] g1.spec_has_edge(p, q) == g2.spec_has_edge(p, q),
    ensures
        spec_triangle_count(g1) == spec_triangle_count(g2),
{
    lemma_wedges_v_ext(g1, g2, g1.n as int);
}

/// Counts the triangles of an undirected simple graph by closing wedges at
/// every node and dividing the total by three.
pub fn count_triangles(graph: &Graph) -> (t: usize)
    requires
        graph.wf(),
        graph.n * graph.n * graph.n <= usize::MAX,
    ensures
        t == spec_triangle_count(*graph),
{
    let n = graph.n;
    let mut total: usize = 0;
    let mut v: usize = 0;
    while v < n
        invariant
            graph.wf(),
            graph.n == n,
            n * n * n <= usize::MAX,
            v <= n,
            total == wedges_upto_v(*graph, v as int),
        decreases n - v,
    {
        let mut i: usize = 0;
        while i < n
            invariant
                graph.wf(),
                graph.n == n,
                n * n * n <= usize::MAX,
                v < n,
                i <= n,
                total == wedges_upto_v(*graph, v as int) + wedges_upto_i(*graph, v as int, i as int),
            decreases n - i,
        {
            let mut j = i + 1;
            while j < n
                invariant
                    graph.wf(),
                    graph.n == n,
                    n * n * n <= usize::MAX,
                    v < n,
                    i < n,
                    i + 1 <= j <= n,
                    total == wedges_upto_v(*graph, v as int) + wedges_upto_i(
                        *graph,
                        v as int,
                        i as int,
                    ) + wedges_upto_j(*graph, v as int, i as int, j as int),
                decreases n - j,
            {
                if graph.contains_edge(v, i) && graph.contains_edge(v, j) && graph.contains_edge(
                    i,
                    j,
                ) {
                    proof {
                        lemma_wedges_v_bound(*graph, v as int);
                        lemma_wedges_i_bound(*graph, v as int, i as int);
                        lemma_wedges_j_bound(*graph, v as int, i as int, j as int);
                        assert(v * n * n + i * n + (j - i - 1) + 1 <= n * n * n) by (
                        nonlinear_arith)
                            requires
                                0 <= v < n,
                                0 <= i < n,
                                i < j <= n,
                        ;
                    }
                    total = total + 1;
                }
                proof {
                    assert(wedges_upto_j(*graph, v as int, i as int, j + 1) == wedges_upto_j(
                        *graph,
                        v as int,
                        i as int,
                        j as int,
                    ) + closed_at(*graph, v as int, i as int, j as int));
                }
                j = j + 1;
            }
            proof {
                assert(wedges_upto_i(*graph, v as int, i + 1) == wedges_upto_i(
                    *graph,
                    v as int,
                    i as int,
                ) + wedges_upto_j(*graph, v as int, i as int, n as int));
            }
            i = i + 1;
        }
        proof {
            assert(wedges_upto_v(*graph, v + 1) == wedges_upto_v(*graph, v as int) + wedges_upto_i(
                *graph,
                v as int,
                n as int,
            ));
        }
        v = v + 1;
    }
    total / 3
}

} // verus!
