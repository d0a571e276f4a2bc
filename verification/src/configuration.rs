//! Configuration model: a random graph that approximates a requested degree
//! sequence by pairing shuffled stubs, dropping self-loops and repeats.

use vstd::prelude::*;
use crate::graph::{Graph, same_pair, seq_degree, seq_has_pair, touches};
use crate::rng::{fresh_rng, gen_below};
use rayon::iter::{IntoParallelIterator, ParallelIterator};

verus! {

broadcast use vstd::seq_lib::group_to_multiset_ensures, vstd::multiset::group_multiset_axioms;

/// The number of occurrences of `x` in `s`.
pub open spec fn occ(s: Seq<usize>, x: usize) -> nat {
    s.to_multiset().count(x)
}

/// The sum of a degree sequence.
pub open spec fn seq_sum(s: Seq<usize>) -> nat
    decreases s.len(),
{
    if s.len() == 0 {
        0
    } else {
        seq_sum(s.drop_last()) + s.last() as nat
    }
}

/// The sum of the realized degrees of the nodes below `v`.
pub open spec fn total_degree_upto(g: Graph, v: int) -> nat
    decreases v,
{
    if v <= 0 {
        0
    } else {
        total_degree_upto(g, v - 1) + g.spec_degree(v - 1)
    }
}

/// The sum of the realized degrees of all nodes.
pub open spec fn total_degree(g: Graph) -> nat {
    total_degree_upto(g, g.n as int)
}

/// What sampling guarantees: a simple graph with one node per requested
/// degree, no realized degree above the requested one, and a realized total
/// degree no larger than the requested total.
pub open spec fn respects_degrees(g: Graph, ds: Seq<usize>) -> bool {
    &&& g.wf()
    &&& g.n == ds.len()
    &&& forall|x: int| 0 <= x < g.n ==> g.spec_degree(x) <= ds[x]
    &&& total_degree(g) <= seq_sum(ds)
}

/// The canonical stub list of the first `k` requested degrees: the node `j`
/// written `ds[j]` times, nodes in order.
pub open spec fn stub_seq(ds: Seq<usize>, k: int) -> Seq<usize>
    decreases k,
{
    if k <= 0 {
        Seq::empty()
    } else {
        stub_seq(ds, k - 1) + Seq::new(ds[k - 1] as nat, |i: int| (k - 1) as usize)
    }
}

/// The edge list that pairing the first `k` consecutive stub pairs yields:
/// the stubs at positions `2j` and `2j + 1` become an edge unless they are
/// equal (a self-loop) or the pair is already joined (a repeated edge).
pub open spec fn paired_edges(s: Seq<usize>, k: int) -> Seq<(usize, usize)>
    decreases k,
{
    if k <= 0 {
        Seq::empty()
    } else {
        let es = paired_edges(s, k - 1);
        let u = s[2 * (k - 1)];
        let w = s[2 * (k - 1) + 1];
        if u != w && !seq_has_pair(es, u as int, w as int) {
            es.push((u, w))
        } else {
            es
        }
    }
}

proof fn lemma_occ_take_le(s: Seq<usize>, m: int, x: usize)
    requires
        0 <= m <= s.len(),
    ensures
        occ(s.take(m), x) <= occ(s, x),
    decreases s.len() - m,
{
    if m < s.len() {
        assert(s.take(m + 1) =~= s.take(m).push(s[m]));
        lemma_occ_take_le(s, m + 1, x);
    } else {
        assert(s.take(m) =~= s);
    }
}

proof fn lemma_total_degree_le(g: Graph, ds: Seq<usize>, v: int)
    requires
        g.n == ds.len(),
        0 <= v <= g.n,
        forall|x: int| 0 <= x < g.n ==> g.spec_degree(x) <= ds[x],
    ensures
        total_degree_upto(g, v) <= seq_sum(ds.take(v)),
    decreases v,
{
    if v > 0 {
        lemma_total_degree_le(g, ds, v - 1);
        assert(ds.take(v).drop_last() =~= ds.take(v - 1));
        assert(ds.take(v).last() == ds[v - 1]);
    }
}

/// The pair of stubs at positions `2j` and `2j + 1`.
pub open spec fn stub_pair(s: Seq<usize>, j: int) -> (usize, usize) {
    (s[2 * j], s[2 * j + 1])
}

/// A stub order is collision-free over its first `k` pairs: no pair is a
/// self-loop, and no two pairs name the same unordered pair of nodes.
pub open spec fn collision_free(s: Seq<usize>, k: int) -> bool {
    &&& (forall|j: int| 0 <= j < k ==> (#[trigger] stub_pair(s, j)).0 != stub_pair(s, j).1)
    &&& (forall|j: int, l: int|
        0 <= j < l < k ==> !same_pair(
            (#[trigger] stub_pair(s, j)).0 as int,
            stub_pair(s, j).1 as int,
            (#[trigger] stub_pair(s, l)).0 as int,
            stub_pair(s, l).1 as int,
        ))
}

proof fn lemma_occ_append_const(a: Seq<usize>, m: nat, c: usize, x: usize)
    ensures
        occ(a + Seq::new(m, |i: int| c), x) == occ(a, x) + (if c == x {
            m
        } else {
            0
        }),
    decreases m,
{
    if m == 0 {
        assert(a + Seq::new(0nat, |i: int| c) =~= a);
    } else {
        lemma_occ_append_const(a, (m - 1) as nat, c, x);
        let shorter = a + Seq::new((m - 1) as nat, |i: int| c);
        assert(a + Seq::new(m, |i: int| c) =~= shorter.push(c));
        assert(shorter.push(c).to_multiset() =~= shorter.to_multiset().insert(c));
    }
}

proof fn lemma_stub_seq_occ(ds: Seq<usize>, k: int, x: usize)
    requires
        0 <= k <= ds.len(),
        ds.len() <= usize::MAX,
    ensures
        occ(stub_seq(ds, k), x) == if (x as int) < k {
            ds[x as int] as nat
        } else {
            0
        },
    decreases k,
{
    if k > 0 {
        lemma_stub_seq_occ(ds, k - 1, x);
        lemma_occ_append_const(stub_seq(ds, k - 1), ds[k - 1] as nat, (k - 1) as usize, x);
    }
}

proof fn lemma_collision_free_upto(s: Seq<usize>, k: int, x: usize)
    requires
        0 <= k,
        2 * k <= s.len(),
        collision_free(s, k),
    ensures
        seq_degree(paired_edges(s, k), x as int) == occ(s.take(2 * k), x),
        forall|i: int|
            0 <= i < paired_edges(s, k).len() ==> exists|j: int|
                0 <= j < k && (#[trigger] stub_pair(s, j)) == (#[trigger] paired_edges(s, k)[i]),
    decreases k,
{
    if k > 0 {
        lemma_collision_free_upto(s, k - 1, x);
        let es = paired_edges(s, k - 1);
        let u = s[2 * (k - 1)];
        let w = s[2 * (k - 1) + 1];
        assert(stub_pair(s, k - 1) == (u, w));
        assert(u != w);
        let t0 = s.take(2 * (k - 1));
        let t1 = t0.push(u);
        let t2 = t1.push(w);
        assert(s.take(2 * k) =~= t2);
        assert(t1.to_multiset() =~= t0.to_multiset().insert(u));
        assert(t2.to_multiset() =~= t1.to_multiset().insert(w));
        assert(occ(t2, x) == occ(t0, x) + (if u == x {
            1nat
        } else {
            0nat
        }) + (if w == x {
            1nat
        } else {
            0nat
        }));
        // The new pair repeats no earlier edge: every earlier edge is an
        // earlier stub pair, and the stub pairs are pairwise distinct.
        assert(!seq_has_pair(es, u as int, w as int)) by {
            if seq_has_pair(es, u as int, w as int) {
                let i = choose|i: int|
                    0 <= i < es.len() && same_pair(
                        (#[trigger] es[i]).0 as int,
                        es[i].1 as int,
                        u as int,
                        w as int,
                    );
                let j = choose|j: int| 0 <= j < k - 1 && (#[trigger] stub_pair(s, j)) == es[i];
                assert(!same_pair(
                    stub_pair(s, j).0 as int,
                    stub_pair(s, j).1 as int,
                    stub_pair(s, k - 1).0 as int,
                    stub_pair(s, k - 1).1 as int,
                ));
                assert(false);
            }
        }
        assert(paired_edges(s, k) == es.push((u, w)));
        assert(es.push((u, w)).drop_last() =~= es);
        assert(seq_degree(paired_edges(s, k), x as int) == seq_degree(es, x as int) + (if touches(
            (u, w),
            x as int,
        ) {
            1nat
        } else {
            0nat
        }));
        assert forall|i: int| 0 <= i < paired_edges(s, k).len() implies exists|j: int|
            0 <= j < k && (#[trigger] stub_pair(s, j)) == (#[trigger] paired_edges(s, k)[i]) by {
            if i < es.len() {
                let j = choose|j: int| 0 <= j < k - 1 && (#[trigger] stub_pair(s, j)) == es[i];
                assert(paired_edges(s, k)[i] == es[i]);
                assert(stub_pair(s, j) == paired_edges(s, k)[i]);
            } else {
                assert(paired_edges(s, k)[i] == (u, w));
                assert(stub_pair(s, k - 1) == paired_edges(s, k)[i]);
            }
        }
    }
}

/// On a collision-free stub order every pair is kept, so pairing spends every
/// stub: each node's realized degree is exactly its number of stubs. Since
/// `sample_configuration_model` returns the pairing of a reordering of the
/// canonical stub list, a shuffle that happens to be collision-free realizes
/// every requested degree exactly.
pub proof fn lemma_collision_free_degrees_exact(ds: Seq<usize>, s: Seq<usize>, x: usize)
    requires
        s.to_multiset() == stub_seq(ds, ds.len() as int).to_multiset(),
        ds.len() <= usize::MAX,
        s.len() % 2 == 0,
        collision_free(s, (s.len() / 2) as int),
        (x as int) < ds.len(),
    ensures
        seq_degree(paired_edges(s, (s.len() / 2) as int), x as int) == ds[x as int],
{
    let half = (s.len() / 2) as int;
    lemma_collision_free_upto(s, half, x);
    assert(s.take(2 * half) =~= s);
    lemma_stub_seq_occ(ds, ds.len() as int, x);
}

/// A node gains an edge only by spending a stub: after `k` rounds of pairing,
/// no degree exceeds the number of stubs of that node seen so far.
proof fn lemma_paired_degree(s: Seq<usize>, k: int, x: usize)
    requires
        0 <= k,
        2 * k <= s.len(),
    ensures
        seq_degree(paired_edges(s, k), x as int) <= occ(s.take(2 * k), x),
    decreases k,
{
    if k > 0 {
        lemma_paired_degree(s, k - 1, x);
        let es = paired_edges(s, k - 1);
        let u = s[2 * (k - 1)];
        let w = s[2 * (k - 1) + 1];
        let t0 = s.take(2 * (k - 1));
        let t1 = t0.push(u);
        let t2 = t1.push(w);
        assert(s.take(2 * k) =~= t2);
        assert(t1.to_multiset() =~= t0.to_multiset().insert(u));
        assert(t2.to_multiset() =~= t1.to_multiset().insert(w));
        assert(occ(t2, x) == occ(t0, x) + (if u == x {
            1nat
        } else {
            0nat
        }) + (if w == x {
            1nat
        } else {
            0nat
        }));
        if u != w && !seq_has_pair(es, u as int, w as int) {
            assert(paired_edges(s, k) == es.push((u, w)));
            assert(es.push((u, w)).drop_last() =~= es);
            assert(seq_degree(paired_edges(s, k), x as int) == seq_degree(es, x as int) + (if touches(
                (u, w),
                x as int,
            ) {
                1nat
            } else {
                0nat
            }));
        }
    }
}

/// Pairs consecutive stubs into edges on `n` nodes: the stubs at positions
/// `2k` and `2k + 1` become an edge unless they are equal or the edge already
/// exists; a trailing unpaired stub is dropped. The edge list of the result
/// is exactly `paired_edges` of the stub list.
pub fn pair_stubs(stubs: &Vec<usize>, n: usize) -> (result: Graph)
    requires
        forall|l: int| 0 <= l < stubs@.len() ==> stubs@[l] < n,
    ensures
        result.wf(),
        result.n == n,
        result.edges@ == paired_edges(stubs@, (stubs@.len() / 2) as int),
{
    let mut graph = Graph::new_undirected();
    let mut made: usize = 0;
    while made < n
        invariant
            graph.n == made,
            made <= n,
            graph.edges@.len() == 0,
        decreases n - made,
    {
        let _id: usize = graph.add_node();
        made = made + 1;
    }
    let ghost s = stubs@;
    let half = stubs.len() / 2;
    let mut k: usize = 0;
    while k < half
        invariant
            graph.wf(),
            graph.n == n,
            s == stubs@,
            s.len() <= usize::MAX,
            half == s.len() / 2,
            k <= half,
            forall|l: int| 0 <= l < s.len() ==> s[l] < n,
            graph.edges@ == paired_edges(s, k as int),
        decreases half - k,
    {
        let u = stubs[2 * k];
        let w = stubs[2 * k + 1];
        if u != w && !graph.contains_edge(u, w) {
            graph.add_edge(u, w);
        }
        proof {
            assert(graph.edges@ == paired_edges(s, k + 1));
        }
        k = k + 1;
    }
    graph
}

/// Samples one configuration-model graph: one stub per unit of requested
/// degree, a uniform shuffle of the stub list, and consecutive stubs paired
/// into edges, with self-loops and repeated edges silently dropped. An odd
/// stub count leaves the last stub unpaired.
///
/// Only the stub order is random: the result is exactly `paired_edges` of
/// some reordering of the canonical stub list.
pub fn sample_configuration_model(degrees: &Vec<usize>) -> (result: Graph)
    ensures
        respects_degrees(result, degrees@),
        exists|s: Seq<usize>|
            #![trigger s.to_multiset()]
            {
                &&& s.to_multiset() == stub_seq(degrees@, degrees@.len() as int).to_multiset()
                &&& result.edges@ == paired_edges(s, (s.len() / 2) as int)
            },
{
    let nn = degrees.len();

    // One stub per unit of requested degree.
    let mut stubs: Vec<usize> = Vec::new();
    let mut node: usize = 0;
    while node < nn
        invariant
            nn == degrees@.len(),
            node <= nn,
            stubs@ == stub_seq(degrees@, node as int),
            forall|x: usize| x < node ==> occ(stubs@, x) == degrees@[x as int],
            forall|x: usize| node <= x ==> occ(stubs@, x) == 0,
            forall|l: int| 0 <= l < stubs@.len() ==> stubs@[l] < node,
        decreases nn - node,
    {
        let d = degrees[node];
        let mut c: usize = 0;
        proof {
            assert(stubs@ =~= stub_seq(degrees@, node as int) + Seq::new(
                0nat,
                |i: int| node as usize,
            ));
        }
        while c < d
            invariant
                nn == degrees@.len(),
                node < nn,
                d == degrees@[node as int],
                c <= d,
                stubs@ == stub_seq(degrees@, node as int) + Seq::new(
                    c as nat,
                    |i: int| node as usize,
                ),
                forall|x: usize| x < node ==> occ(stubs@, x) == degrees@[x as int],
                occ(stubs@, node) == c,
                forall|x: usize| node < x ==> occ(stubs@, x) == 0,
                forall|l: int| 0 <= l < stubs@.len() ==> stubs@[l] <= node,
            decreases d - c,
        {
            let ghost pre = stubs@;
            stubs.push(node);
            proof {
                assert(stubs@ =~= stub_seq(degrees@, node as int) + Seq::new(
                    (c + 1) as nat,
                    |i: int| node as usize,
                ));
                assert(stubs@.to_multiset() =~= pre.to_multiset().insert(node));
                assert forall|x: usize| #[trigger] occ(stubs@, x) == occ(pre, x) + (if x == node {
                    1nat
                } else {
                    0nat
                }) by {
                    assert(stubs@.to_multiset().count(x) == pre.to_multiset().insert(node).count(
                        x,
                    ));
                }
            }
            c = c + 1;
        }
        proof {
            assert(stubs@ =~= stub_seq(degrees@, node + 1));
        }
        node = node + 1;
    }

    // Uniform shuffle of the stub list (Fisher-Yates).
    let ghost built = stubs@;
    let mut rng = fresh_rng();
    if stubs.len() > 1 {
        let mut i: usize = stubs.len() - 1;
        while i >= 1
            invariant
                stubs@.len() == built.len(),
                stubs@.len() <= usize::MAX,
                i < stubs@.len(),
                stubs@.to_multiset() == built.to_multiset(),
                forall|l: int| 0 <= l < stubs@.len() ==> stubs@[l] < nn,
            decreases i,
        {
            let j = gen_below(&mut rng, i + 1);
            let ghost pre = stubs@;
            let vi = stubs[i];
            let vj = stubs[j];
            stubs[i] = vj;
            stubs[j] = vi;
            proof {
                assert(stubs@ == pre.update(i as int, vj).update(j as int, vi));
                if i == j {
                    assert(stubs@ =~= pre);
                } else {
                    let m0 = pre.to_multiset();
                    assert(pre.contains(vi) && pre.contains(vj));
                    assert(m0.count(vi) > 0 && m0.count(vj) > 0);
                    assert(pre.update(i as int, vj).to_multiset() == m0.insert(vj).remove(vi));
                    assert(pre.update(i as int, vj)[j as int] == vj);
                    assert(stubs@.to_multiset() == m0.insert(vj).remove(vi).insert(vi).remove(vj));
                    assert forall|x: usize| #[trigger]
                        stubs@.to_multiset().count(x) == m0.count(x) by {
                        assert(m0.insert(vj).count(x) == m0.count(x) + (if x == vj {
                            1nat
                        } else {
                            0nat
                        }));
                    }
                    assert(stubs@.to_multiset() =~= m0);
                }
            }
            i = i - 1;
        }
    }

    // Pair consecutive stubs; kept pairs become the edges.
    proof {
        assert(stubs@.to_multiset() == built.to_multiset());
        assert(forall|l: int| 0 <= l < stubs@.len() ==> stubs@[l] < nn);
    }
    let graph = pair_stubs(&stubs, nn);
    proof {
        let s = stubs@;
        let half = (s.len() / 2) as int;
        assert forall|x: int| 0 <= x < graph.n implies graph.spec_degree(x) <= degrees@[x] by {
            let xu = x as usize;
            lemma_paired_degree(s, half, xu);
            lemma_occ_take_le(s, 2 * half, xu);
            assert(occ(s, xu) == occ(built, xu));
            assert(occ(built, xu) == degrees@[x]);
        }
        lemma_total_degree_le(graph, degrees@, graph.n as int);
        assert(degrees@.take(graph.n as int) =~= degrees@);
        // The shuffled stub list witnesses the exact characterization.
        assert(s.to_multiset() == stub_seq(degrees@, degrees@.len() as int).to_multiset());
        assert(graph.edges@ == paired_edges(s, (s.len() / 2) as int));
    }
    graph
}

/// Generates a batch of independent configuration-model samples across a
/// worker pool, one per replicate request.
///
/// Relies on rayon's `into_par_iter`, `map` and `collect`: collecting a
/// mapped parallel range yields one entry per index, in index order, each the
/// closure's value for it — here a fresh sample from the verified sampler.
#[verifier::external_body]
pub fn generate_configuration_models(degrees: &Vec<usize>, n_samples: usize) -> (result: Vec<
    Graph,
>)
    ensures
        result@.len() == n_samples,
        forall|k: int| 0 <= k < result@.len() ==> respects_degrees(#[trigger] result@[k], degrees@),
{
    (0..n_samples).into_par_iter().map(|_| sample_configuration_model(degrees)).collect()
}

} // verus!
