//! The model of contraction: which half-edges a super-vertex receives when
//! vertices are merged by a labeling.
use vstd::prelude::*;
use crate::adjacency::{lemma_occurrences_concat, occurrences};
use crate::graph::GraphRep;

verus! {

/// Of the half-edges `hs` leaving vertex `u`, those whose ends carry
/// different labels, each pointed at the label of its far end.
pub open spec fn kept<K>(hs: Seq<(usize, K, usize)>, labels: Seq<usize>, u: int) -> Seq<(usize, K, usize)>
    decreases hs.len(),
{
    if hs.len() == 0 {
        Seq::empty()
    } else {
        let h = hs.last();
        kept(hs.drop_last(), labels, u) + if labels[h.0 as int] != labels[u] {
            seq![(labels[h.0 as int], h.1, h.2)]
        } else {
            Seq::empty()
        }
    }
}

/// The half-edges that super-vertex `s` receives from the vertices of `g`
/// below `k`, in vertex order and, within a vertex, in its own order.
pub open spec fn merged<K: Copy>(g: GraphRep<K>, labels: Seq<usize>, s: int, k: int) -> Seq<(usize, K, usize)>
    decreases k,
{
    if k <= 0 {
        Seq::empty()
    } else {
        merged(g, labels, s, k - 1) + if labels[k - 1] as int == s {
            kept(g.neighbors(k - 1), labels, k - 1)
        } else {
            Seq::empty()
        }
    }
}

/// What super-vertex `s` has received once the first `j` half-edges of
/// vertex `u` have been seen.
pub open spec fn progress<K: Copy>(g: GraphRep<K>, labels: Seq<usize>, s: int, u: int, j: int) -> Seq<
    (usize, K, usize),
> {
    merged(g, labels, s, u) + if labels[u] as int == s {
        kept(g.neighbors(u).take(j), labels, u)
    } else {
        Seq::empty()
    }
}

/// One more than the largest label, or zero for no labels.
pub open spec fn label_count(labels: Seq<usize>) -> nat
    decreases labels.len(),
{
    if labels.len() == 0 {
        0
    } else {
        let r = label_count(labels.drop_last());
        let m = labels.last() as nat + 1;
        if r < m {
            m
        } else {
            r
        }
    }
}

/// `h` is the contraction of `g` by `labels`: one vertex per label up to the
/// largest, and at each the half-edges of its vertices whose far end has
/// another label, relabeled, in the order in which `g` holds them.
pub open spec fn is_contraction_of<K: Copy>(h: GraphRep<K>, g: GraphRep<K>, labels: Seq<usize>) -> bool {
    &&& h.wf()
    &&& h.vertex_total() == label_count(labels)
    &&& forall|s: int|
        0 <= s < h.vertex_total() ==> #[trigger] h.neighbors(s) == merged(g, labels, s, g.vertex_total())
}

/// The number of half-edges that the super-vertices below `t` receive from
/// the vertices below `k`.
pub open spec fn merged_total<K: Copy>(g: GraphRep<K>, labels: Seq<usize>, t: int, k: int) -> int
    decreases t,
{
    if t <= 0 {
        0
    } else {
        merged_total(g, labels, t - 1, k) + merged(g, labels, t - 1, k).len()
    }
}

/// The number of half-edges of the vertices below `k` that survive.
pub open spec fn kept_total<K: Copy>(g: GraphRep<K>, labels: Seq<usize>, k: int) -> int
    decreases k,
{
    if k <= 0 {
        0
    } else {
        kept_total(g, labels, k - 1) + kept(g.neighbors(k - 1), labels, k - 1).len()
    }
}

pub proof fn lemma_label_count(labels: Seq<usize>)
    ensures
        forall|i: int| 0 <= i < labels.len() ==> #[trigger] labels[i] < label_count(labels),
        labels.len() == 0 <==> label_count(labels) == 0,
        label_count(labels) > 0 ==> exists|i: int|
            0 <= i < labels.len() && #[trigger] labels[i] as int == label_count(labels) - 1,
    decreases labels.len(),
{
    if labels.len() > 0 {
        let s = labels.drop_last();
        lemma_label_count(s);
        assert forall|i: int| 0 <= i < labels.len() implies #[trigger] labels[i] < label_count(labels) by {
            if i < s.len() {
                assert(labels[i] == s[i]);
            }
        }
        if label_count(labels) != label_count(s) {
            assert(labels[labels.len() - 1] as int == label_count(labels) - 1);
        } else {
            let i = choose|i: int| 0 <= i < s.len() && #[trigger] s[i] as int == label_count(s) - 1;
            assert(labels[i] == s[i]);
        }
    }
}

pub proof fn lemma_kept_len<K>(hs: Seq<(usize, K, usize)>, labels: Seq<usize>, u: int)
    ensures
        kept(hs, labels, u).len() <= hs.len(),
    decreases hs.len(),
{
    if hs.len() > 0 {
        lemma_kept_len(hs.drop_last(), labels, u);
    }
}

pub proof fn lemma_kept_prefix_len<K>(hs: Seq<(usize, K, usize)>, labels: Seq<usize>, u: int, j: int)
    requires
        0 <= j <= hs.len(),
    ensures
        kept(hs.take(j), labels, u).len() <= kept(hs, labels, u).len(),
    decreases hs.len(),
{
    if j < hs.len() {
        assert(hs.take(j) == hs.drop_last().take(j));
        lemma_kept_prefix_len(hs.drop_last(), labels, u, j);
    } else {
        assert(hs.take(j) == hs);
    }
}

/// Every surviving half-edge points at a label.
pub proof fn lemma_kept_targets<K>(hs: Seq<(usize, K, usize)>, labels: Seq<usize>, u: int, t: int)
    requires
        forall|i: int| 0 <= i < hs.len() ==> (#[trigger] hs[i]).0 < labels.len(),
        forall|i: int| 0 <= i < labels.len() ==> #[trigger] labels[i] < t,
    ensures
        forall|i: int| 0 <= i < kept(hs, labels, u).len() ==> (#[trigger] kept(hs, labels, u)[i]).0 < t,
    decreases hs.len(),
{
    if hs.len() > 0 {
        let p = hs.drop_last();
        assert forall|i: int| 0 <= i < p.len() implies (#[trigger] p[i]).0 < labels.len() by {
            assert(p[i] == hs[i]);
        }
        lemma_kept_targets(p, labels, u, t);
        assert(hs.last() == hs[hs.len() - 1]);
        let r = kept(hs, labels, u);
        assert forall|i: int| 0 <= i < r.len() implies (#[trigger] r[i]).0 < t by {
            if i < kept(p, labels, u).len() {
                assert(r[i] == kept(p, labels, u)[i]);
            }
        }
    }
}

/// The half-edges that a super-vertex receives never outnumber those of the
/// vertices they come from.
pub proof fn lemma_merged_len<K: Copy>(g: GraphRep<K>, labels: Seq<usize>, s: int, k: int)
    requires
        g.wf(),
        0 <= k <= g.vertex_total(),
    ensures
        merged(g, labels, s, k).len() <= g.offsets()[k],
    decreases k,
{
    if k > 0 {
        lemma_merged_len(g, labels, s, k - 1);
        lemma_kept_len(g.neighbors(k - 1), labels, k - 1);
        assert(g.offsets()[k - 1] <= g.offsets()[k]);
    }
}

pub proof fn lemma_merged_monotone<K: Copy>(g: GraphRep<K>, labels: Seq<usize>, s: int, k: int, k2: int)
    requires
        0 <= k <= k2,
    ensures
        merged(g, labels, s, k).len() <= merged(g, labels, s, k2).len(),
    decreases k2,
{
    if k < k2 {
        lemma_merged_monotone(g, labels, s, k, k2 - 1);
    }
}

/// What has been received part way through vertex `u` is at most what is
/// received by the end of the graph.
pub proof fn lemma_progress_len<K: Copy>(g: GraphRep<K>, labels: Seq<usize>, s: int, u: int, j: int)
    requires
        g.wf(),
        0 <= u < g.vertex_total(),
        0 <= j <= g.neighbors(u).len(),
    ensures
        progress(g, labels, s, u, j).len() <= merged(g, labels, s, g.vertex_total()).len(),
{
    lemma_kept_prefix_len(g.neighbors(u), labels, u, j);
    lemma_merged_monotone(g, labels, s, u + 1, g.vertex_total());
}

proof fn lemma_merged_total_step<K: Copy>(g: GraphRep<K>, labels: Seq<usize>, t: int, k: int)
    requires
        t >= 0,
        k > 0,
    ensures
        merged_total(g, labels, t, k) == merged_total(g, labels, t, k - 1) + if (labels[k - 1] as int) < t {
            kept(g.neighbors(k - 1), labels, k - 1).len() as int
        } else {
            0
        },
    decreases t,
{
    if t > 0 {
        lemma_merged_total_step(g, labels, t - 1, k);
    }
}

proof fn lemma_merged_total_empty<K: Copy>(g: GraphRep<K>, labels: Seq<usize>, t: int)
    ensures
        merged_total(g, labels, t, 0) == 0,
    decreases t,
{
    if t > 0 {
        lemma_merged_total_empty(g, labels, t - 1);
    }
}

/// Each surviving half-edge goes to exactly one super-vertex.
pub proof fn lemma_merged_total<K: Copy>(g: GraphRep<K>, labels: Seq<usize>, t: int, k: int)
    requires
        0 <= k <= labels.len(),
        t >= 0,
        forall|i: int| 0 <= i < labels.len() ==> #[trigger] labels[i] < t,
    ensures
        merged_total(g, labels, t, k) == kept_total(g, labels, k),
    decreases k,
{
    if k > 0 {
        lemma_merged_total(g, labels, t, k - 1);
        lemma_merged_total_step(g, labels, t, k);
    } else {
        lemma_merged_total_empty(g, labels, t);
    }
}

pub proof fn lemma_kept_total<K: Copy>(g: GraphRep<K>, labels: Seq<usize>, k: int)
    requires
        g.wf(),
        0 <= k <= g.vertex_total(),
    ensures
        0 <= kept_total(g, labels, k) <= g.offsets()[k],
    decreases k,
{
    if k > 0 {
        lemma_kept_total(g, labels, k - 1);
        lemma_kept_len(g.neighbors(k - 1), labels, k - 1);
        assert(g.offsets()[k - 1] <= g.offsets()[k]);
    }
}

pub proof fn lemma_merged_total_monotone<K: Copy>(g: GraphRep<K>, labels: Seq<usize>, t: int, t2: int, k: int)
    requires
        0 <= t <= t2,
    ensures
        merged_total(g, labels, t, k) <= merged_total(g, labels, t2, k),
    decreases t2,
{
    if t < t2 {
        lemma_merged_total_monotone(g, labels, t, t2 - 1, k);
    }
}

/// Every half-edge a super-vertex receives points at a label.
pub proof fn lemma_merged_targets<K: Copy>(g: GraphRep<K>, labels: Seq<usize>, s: int, k: int, t: int)
    requires
        g.wf(),
        labels.len() == g.vertex_total(),
        0 <= k <= g.vertex_total(),
        forall|i: int| 0 <= i < labels.len() ==> #[trigger] labels[i] < t,
    ensures
        forall|i: int|
            0 <= i < merged(g, labels, s, k).len() ==> (#[trigger] merged(g, labels, s, k)[i]).0 < t,
    decreases k,
{
    if k > 0 {
        lemma_merged_targets(g, labels, s, k - 1, t);
        let hs = g.neighbors(k - 1);
        assert forall|i: int| 0 <= i < hs.len() implies (#[trigger] hs[i]).0 < labels.len() by {
            assert(g.neighbors(k - 1)[i] == hs[i]);
        }
        lemma_kept_targets(hs, labels, k - 1, t);
        let p = merged(g, labels, s, k - 1);
        let r = merged(g, labels, s, k);
        assert forall|i: int| 0 <= i < r.len() implies (#[trigger] r[i]).0 < t by {
            if i < p.len() {
                assert(r[i] == p[i]);
            } else {
                assert(r[i] == kept(hs, labels, k - 1)[i - p.len()]);
            }
        }
    }
}

/// The half-edge `hs[i]`, whose ends carry different labels, survives.
pub proof fn lemma_kept_contains<K>(hs: Seq<(usize, K, usize)>, labels: Seq<usize>, u: int, i: int)
    requires
        0 <= i < hs.len(),
        labels[hs[i].0 as int] != labels[u],
    ensures
        kept(hs, labels, u).contains((labels[hs[i].0 as int], hs[i].1, hs[i].2)),
    decreases hs.len(),
{
    let p = hs.drop_last();
    let target = (labels[hs[i].0 as int], hs[i].1, hs[i].2);
    if i < p.len() {
        assert(p[i] == hs[i]);
        lemma_kept_contains(p, labels, u, i);
        let j = choose|j: int| 0 <= j < kept(p, labels, u).len() && kept(p, labels, u)[j] == target;
        assert(kept(hs, labels, u)[j] == target);
    } else {
        assert(hs.last() == hs[i]);
        assert(kept(hs, labels, u)[kept(p, labels, u).len() as int] == target);
    }
}

/// Every surviving half-edge comes from a half-edge of `hs` whose ends carry
/// different labels.
pub proof fn lemma_kept_source<K>(hs: Seq<(usize, K, usize)>, labels: Seq<usize>, u: int, idx: int)
    requires
        0 <= idx < kept(hs, labels, u).len(),
    ensures
        exists|i: int|
            0 <= i < hs.len() && labels[(#[trigger] hs[i]).0 as int] != labels[u] && kept(hs, labels, u)[idx]
                == (labels[hs[i].0 as int], hs[i].1, hs[i].2),
    decreases hs.len(),
{
    let p = hs.drop_last();
    if idx < kept(p, labels, u).len() {
        lemma_kept_source(p, labels, u, idx);
        let i = choose|i: int|
            0 <= i < p.len() && labels[(#[trigger] p[i]).0 as int] != labels[u] && kept(p, labels, u)[idx]
                == (labels[p[i].0 as int], p[i].1, p[i].2);
        assert(hs[i] == p[i]);
    } else {
        let i = hs.len() - 1;
        assert(hs.last() == hs[i]);
    }
}

/// A half-edge of vertex `u` whose ends carry different labels reaches the
/// super-vertex of `u` once vertex `u` has been seen.
pub proof fn lemma_merged_contains<K: Copy>(g: GraphRep<K>, labels: Seq<usize>, u: int, i: int, k: int)
    requires
        0 <= u < k,
        0 <= i < g.neighbors(u).len(),
        labels[g.neighbors(u)[i].0 as int] != labels[u],
    ensures
        merged(g, labels, labels[u] as int, k).contains(
            (labels[g.neighbors(u)[i].0 as int], g.neighbors(u)[i].1, g.neighbors(u)[i].2),
        ),
    decreases k,
{
    let hs = g.neighbors(u);
    let target = (labels[hs[i].0 as int], hs[i].1, hs[i].2);
    let s = labels[u] as int;
    let p = merged(g, labels, s, k - 1);
    if k - 1 == u {
        lemma_kept_contains(hs, labels, u, i);
        let j = choose|j: int| 0 <= j < kept(hs, labels, u).len() && kept(hs, labels, u)[j] == target;
        assert(merged(g, labels, s, k)[p.len() + j] == target);
    } else {
        lemma_merged_contains(g, labels, u, i, k - 1);
        let j = choose|j: int| 0 <= j < p.len() && p[j] == target;
        assert(merged(g, labels, s, k)[j] == target);
    }
}

/// Every half-edge that super-vertex `s` receives comes from a half-edge of
/// a vertex labeled `s` whose far end carries another label.
pub proof fn lemma_merged_source<K: Copy>(g: GraphRep<K>, labels: Seq<usize>, s: int, k: int, idx: int)
    requires
        0 <= idx < merged(g, labels, s, k).len(),
    ensures
        exists|u: int, i: int|
            0 <= u < k && 0 <= i < g.neighbors(u).len() && labels[u] as int == s && labels[(
            #[trigger] g.neighbors(u)[i]).0 as int] != s && merged(g, labels, s, k)[idx] == (
                labels[g.neighbors(u)[i].0 as int],
                g.neighbors(u)[i].1,
                g.neighbors(u)[i].2,
            ),
    decreases k,
{
    let p = merged(g, labels, s, k - 1);
    if idx < p.len() {
        lemma_merged_source(g, labels, s, k - 1, idx);
        let (u, i) = choose|u: int, i: int|
            0 <= u < k - 1 && 0 <= i < g.neighbors(u).len() && labels[u] as int == s && labels[(
            #[trigger] g.neighbors(u)[i]).0 as int] != s && p[idx] == (
                labels[g.neighbors(u)[i].0 as int],
                g.neighbors(u)[i].1,
                g.neighbors(u)[i].2,
            );
        assert(merged(g, labels, s, k)[idx] == p[idx]);
    } else {
        let u = k - 1;
        let hs = g.neighbors(u);
        assert(labels[u] as int == s);
        lemma_kept_source(hs, labels, u, idx - p.len());
        let i = choose|i: int|
            0 <= i < hs.len() && labels[(#[trigger] hs[i]).0 as int] != labels[u] && kept(hs, labels, u)[idx
                - p.len()] == (labels[hs[i].0 as int], hs[i].1, hs[i].2);
        assert(merged(g, labels, s, k)[idx] == kept(hs, labels, u)[idx - p.len()]);
    }
}

/// Half-edge `e` at super-vertex `s` is a half-edge of a vertex labeled `s`
/// whose far end carries another label, pointed at that label.
pub open spec fn comes_from_crossing<K: Copy>(g: GraphRep<K>, labels: Seq<usize>, s: int, e: (usize, K, usize)) -> bool {
    exists|u: int, i: int|
        0 <= u < g.vertex_total() && 0 <= i < g.neighbors(u).len() && labels[u] as int == s && labels[(
        #[trigger] g.neighbors(u)[i]).0 as int] != s && e == (
            labels[g.neighbors(u)[i].0 as int],
            g.neighbors(u)[i].1,
            g.neighbors(u)[i].2,
        )
}

/// Contraction keeps exactly the half-edges whose ends fall into different
/// super-vertices: each of them turns up at its own super-vertex, pointed at
/// the other one, with weight and id unchanged, and nothing else turns up.
/// Merging a set of vertices into one super-vertex thus removes just the
/// half-edges with both ends in the set.
pub proof fn lemma_contraction_keeps_crossing<K: Copy>(h: GraphRep<K>, g: GraphRep<K>, labels: Seq<usize>)
    requires
        g.wf(),
        labels.len() == g.vertex_total(),
        is_contraction_of(h, g, labels),
    ensures
        forall|u: int, i: int|
            0 <= u < g.vertex_total() && 0 <= i < g.neighbors(u).len() && labels[(
            #[trigger] g.neighbors(u)[i]).0 as int] != labels[u] ==> h.neighbors(labels[u] as int).contains(
                (labels[g.neighbors(u)[i].0 as int], g.neighbors(u)[i].1, g.neighbors(u)[i].2),
            ),
        forall|s: int, idx: int|
            0 <= s < h.vertex_total() && 0 <= idx < h.neighbors(s).len() ==> comes_from_crossing(
                g,
                labels,
                s,
                #[trigger] h.neighbors(s)[idx],
            ),
{
    lemma_label_count(labels);
    let n = g.vertex_total();
    assert forall|u: int, i: int|
        0 <= u < n && 0 <= i < g.neighbors(u).len() && labels[(#[trigger] g.neighbors(u)[i]).0 as int]
            != labels[u] implies h.neighbors(labels[u] as int).contains(
        (labels[g.neighbors(u)[i].0 as int], g.neighbors(u)[i].1, g.neighbors(u)[i].2),
    ) by {
        assert(labels[u] < h.vertex_total());
        lemma_merged_contains(g, labels, u, i, n);
    }
    assert forall|s: int, idx: int| 0 <= s < h.vertex_total() && 0 <= idx < h.neighbors(s).len() implies comes_from_crossing(
        g,
        labels,
        s,
        #[trigger] h.neighbors(s)[idx],
    ) by {
        assert(h.neighbors(s) == merged(g, labels, s, n));
        lemma_merged_source(g, labels, s, n, idx);
    }
}

/// Contracting a symmetric graph gives a symmetric graph.
pub proof fn lemma_contraction_symmetric<K: Copy>(h: GraphRep<K>, g: GraphRep<K>, labels: Seq<usize>)
    requires
        g.wf(),
        g.symmetric(),
        labels.len() == g.vertex_total(),
        is_contraction_of(h, g, labels),
    ensures
        h.symmetric(),
{
    lemma_contraction_keeps_crossing(h, g, labels);
    lemma_label_count(labels);
    assert forall|s: int, idx: int| 0 <= s < h.vertex_total() && 0 <= idx < h.neighbors(s).len() implies {
        let e = #[trigger] h.neighbors(s)[idx];
        &&& e.0 < h.vertex_total()
        &&& h.neighbors(e.0 as int).contains((s as usize, e.1, e.2))
    } by {
        let (u, i) = choose|u: int, i: int|
            0 <= u < g.vertex_total() && 0 <= i < g.neighbors(u).len() && labels[u] as int == s && labels[(
            #[trigger] g.neighbors(u)[i]).0 as int] != s && h.neighbors(s)[idx] == (
                labels[g.neighbors(u)[i].0 as int],
                g.neighbors(u)[i].1,
                g.neighbors(u)[i].2,
            );
        let f = g.neighbors(u)[i];
        let y = f.0 as int;
        g.lemma_vertex_total_fits();
        assert(g.neighbors(y).contains((u as usize, f.1, f.2)));
        let i2 = choose|i2: int| 0 <= i2 < g.neighbors(y).len() && g.neighbors(y)[i2] == (u as usize, f.1, f.2);
        assert(g.neighbors(y)[i2].0 as int == u);
    }
}

/// No vertex of `g` has a half-edge to itself.
pub open spec fn loop_free<K: Copy>(g: GraphRep<K>) -> bool {
    forall|x: int, i: int|
        0 <= x < g.vertex_total() && 0 <= i < g.neighbors(x).len() ==> (#[trigger] g.neighbors(x)[i]).0 as int != x
}

/// `labels` sends each vertex to itself.
pub open spec fn is_identity(labels: Seq<usize>) -> bool {
    forall|i: int| 0 <= i < labels.len() ==> #[trigger] labels[i] as int == i
}

proof fn lemma_identity_kept<K>(hs: Seq<(usize, K, usize)>, labels: Seq<usize>, u: int)
    requires
        is_identity(labels),
        0 <= u < labels.len(),
        forall|i: int| 0 <= i < hs.len() ==> (#[trigger] hs[i]).0 as int != u && hs[i].0 < labels.len(),
    ensures
        kept(hs, labels, u) == hs,
    decreases hs.len(),
{
    if hs.len() > 0 {
        let p = hs.drop_last();
        assert forall|i: int| 0 <= i < p.len() implies (#[trigger] p[i]).0 as int != u && p[i].0 < labels.len() by {
            assert(p[i] == hs[i]);
        }
        lemma_identity_kept(p, labels, u);
        let h = hs.last();
        assert(h == hs[hs.len() - 1]);
        assert(labels[h.0 as int] as int == h.0 as int);
        assert(labels[u] as int == u);
        assert(kept(hs, labels, u) =~= hs);
    }
}

proof fn lemma_identity_merged<K: Copy>(g: GraphRep<K>, labels: Seq<usize>, s: int, k: int)
    requires
        g.wf(),
        loop_free(g),
        labels.len() == g.vertex_total(),
        is_identity(labels),
        0 <= s < g.vertex_total(),
        0 <= k <= g.vertex_total(),
    ensures
        merged(g, labels, s, k) == if k > s {
            g.neighbors(s)
        } else {
            Seq::empty()
        },
    decreases k,
{
    if k > 0 {
        lemma_identity_merged(g, labels, s, k - 1);
        assert(labels[k - 1] as int == k - 1);
        if k - 1 == s {
            let hs = g.neighbors(s);
            assert forall|i: int| 0 <= i < hs.len() implies (#[trigger] hs[i]).0 as int != s && hs[i].0
                < labels.len() by {
                assert(g.neighbors(s)[i] == hs[i]);
            }
            lemma_identity_kept(hs, labels, s);
            assert(merged(g, labels, s, k) =~= hs);
        } else {
            assert(merged(g, labels, s, k) =~= merged(g, labels, s, k - 1));
        }
    }
}

/// Contracting by the identity labeling leaves the offsets and the
/// half-edges as they were, on a graph in which no vertex has a half-edge to
/// itself (such a half-edge lies inside one super-vertex and is dropped).
pub proof fn lemma_identity_contraction<K: Copy>(h: GraphRep<K>, g: GraphRep<K>, labels: Seq<usize>)
    requires
        g.wf(),
        loop_free(g),
        labels.len() == g.vertex_total(),
        is_identity(labels),
        is_contraction_of(h, g, labels),
    ensures
        h.offsets() == g.offsets(),
        h.half_edges() == g.half_edges(),
{
    let n = g.vertex_total();
    lemma_label_count(labels);
    if n > 0 {
        assert(labels[n - 1] as int == n - 1);
        let i = choose|i: int| 0 <= i < labels.len() && #[trigger] labels[i] as int == label_count(labels) - 1;
        assert(labels[i] as int == i);
    }
    assert(h.vertex_total() == n);
    assert forall|x: int| 0 <= x < n implies #[trigger] h.neighbors(x) == g.neighbors(x) by {
        lemma_identity_merged(g, labels, x, n);
    }
    h.lemma_same_neighbors(g);
}

/// `f(u, 0) + ... + f(u, m - 1)`.
pub open spec fn row_sum(f: spec_fn(int, int) -> int, u: int, m: int) -> int
    decreases m,
{
    if m <= 0 {
        0
    } else {
        row_sum(f, u, m - 1) + f(u, m - 1)
    }
}

/// `f(0, c) + ... + f(k - 1, c)`.
pub open spec fn column_sum(f: spec_fn(int, int) -> int, c: int, k: int) -> int
    decreases k,
{
    if k <= 0 {
        0
    } else {
        column_sum(f, c, k - 1) + f(k - 1, c)
    }
}

/// The sum of `f(u, y)` over `u < k` and `y < m`, row by row.
pub open spec fn grid_sum(f: spec_fn(int, int) -> int, k: int, m: int) -> int
    decreases k,
{
    if k <= 0 {
        0
    } else {
        grid_sum(f, k - 1, m) + row_sum(f, k - 1, m)
    }
}

proof fn lemma_row_sum_ext(f: spec_fn(int, int) -> int, g: spec_fn(int, int) -> int, u: int, v: int, m: int)
    requires
        forall|y: int| 0 <= y < m ==> #[trigger] f(u, y) == g(v, y),
    ensures
        row_sum(f, u, m) == row_sum(g, v, m),
    decreases m,
{
    if m > 0 {
        lemma_row_sum_ext(f, g, u, v, m - 1);
    }
}

proof fn lemma_grid_sum_ext(f: spec_fn(int, int) -> int, g: spec_fn(int, int) -> int, k: int, m: int)
    requires
        forall|u: int, y: int| 0 <= u < k && 0 <= y < m ==> #[trigger] f(u, y) == g(u, y),
    ensures
        grid_sum(f, k, m) == grid_sum(g, k, m),
    decreases k,
{
    if k > 0 {
        lemma_grid_sum_ext(f, g, k - 1, m);
        lemma_row_sum_ext(f, g, k - 1, k - 1, m);
    }
}

proof fn lemma_grid_sum_last_column(f: spec_fn(int, int) -> int, k: int, m: int)
    requires
        m > 0,
    ensures
        grid_sum(f, k, m) == grid_sum(f, k, m - 1) + column_sum(f, m - 1, k),
    decreases k,
{
    if k > 0 {
        lemma_grid_sum_last_column(f, k - 1, m);
    }
}

proof fn lemma_grid_sum_no_columns(f: spec_fn(int, int) -> int, k: int)
    ensures
        grid_sum(f, k, 0) == 0,
    decreases k,
{
    if k > 0 {
        lemma_grid_sum_no_columns(f, k - 1);
    }
}

/// `f` with its two arguments swapped.
pub open spec fn transposed(f: spec_fn(int, int) -> int) -> spec_fn(int, int) -> int {
    |a: int, b: int| f(b, a)
}

/// A grid may be summed by rows or by columns.
proof fn lemma_grid_sum_transpose(f: spec_fn(int, int) -> int, k: int, m: int)
    requires
        0 <= m,
    ensures
        grid_sum(f, k, m) == grid_sum(transposed(f), m, k),
    decreases m,
{
    if m > 0 {
        lemma_grid_sum_transpose(f, k, m - 1);
        lemma_grid_sum_last_column(f, k, m);
        lemma_column_row(f, m - 1, k);
    } else {
        lemma_grid_sum_no_columns(f, k);
    }
}

proof fn lemma_column_row(f: spec_fn(int, int) -> int, c: int, k: int)
    ensures
        column_sum(f, c, k) == row_sum(transposed(f), c, k),
    decreases k,
{
    if k > 0 {
        lemma_column_row(f, c, k - 1);
    }
}

/// `occurrences(hs, (y, w, id))` for each vertex `y` labeled `t`, and zero
/// for the others.
pub open spec fn toward_label<K>(hs: Seq<(usize, K, usize)>, labels: Seq<usize>, t: usize, w: K, id: usize) -> spec_fn(
    int,
    int,
) -> int {
    |a: int, y: int|
        if labels[y] == t {
            occurrences(hs, (y as usize, w, id)) as int
        } else {
            0
        }
}

proof fn lemma_toward_label_step<K>(hs: Seq<(usize, K, usize)>, labels: Seq<usize>, t: usize, w: K, id: usize, m: int)
    requires
        hs.len() > 0,
        0 <= m <= labels.len(),
        labels.len() <= usize::MAX,
    ensures
        row_sum(toward_label(hs, labels, t, w, id), 0, m) == row_sum(toward_label(hs.drop_last(), labels, t, w, id), 0, m)
            + if (hs.last().0 as int) < m && labels[hs.last().0 as int] == t && hs.last().1 == w && hs.last().2
            == id {
            1int
        } else {
            0
        },
    decreases m,
{
    if m > 0 {
        lemma_toward_label_step(hs, labels, t, w, id, m - 1);
    }
}

/// The half-edges of `hs` that survive toward label `t` are those toward
/// vertices labeled `t`.
proof fn lemma_kept_toward<K>(hs: Seq<(usize, K, usize)>, labels: Seq<usize>, u: int, t: usize, w: K, id: usize)
    requires
        labels[u] != t,
        labels.len() <= usize::MAX,
        forall|i: int| 0 <= i < hs.len() ==> (#[trigger] hs[i]).0 < labels.len(),
    ensures
        occurrences(kept(hs, labels, u), (t, w, id)) == row_sum(
            toward_label(hs, labels, t, w, id),
            0,
            labels.len() as int,
        ),
    decreases hs.len(),
{
    let n = labels.len() as int;
    if hs.len() > 0 {
        let p = hs.drop_last();
        let h = hs.last();
        assert forall|i: int| 0 <= i < p.len() implies (#[trigger] p[i]).0 < labels.len() by {
            assert(p[i] == hs[i]);
        }
        assert(h == hs[hs.len() - 1]);
        lemma_kept_toward(p, labels, u, t, w, id);
        lemma_toward_label_step(hs, labels, t, w, id, n);
        let extra = if labels[h.0 as int] != labels[u] {
            seq![(labels[h.0 as int], h.1, h.2)]
        } else {
            Seq::empty()
        };
        lemma_occurrences_concat(kept(p, labels, u), extra, (t, w, id));
        if extra.len() == 1 {
            assert(extra.drop_last().len() == 0);
            assert(occurrences(extra.drop_last(), (t, w, id)) == 0);
            assert(extra.last() == (labels[h.0 as int], h.1, h.2));
        } else {
            assert(occurrences(extra, (t, w, id)) == 0);
        }
    } else {
        lemma_row_sum_zero(toward_label(hs, labels, t, w, id), 0, n);
    }
}

proof fn lemma_row_sum_zero(f: spec_fn(int, int) -> int, u: int, m: int)
    requires
        forall|y: int| 0 <= y < m ==> #[trigger] f(u, y) == 0,
    ensures
        row_sum(f, u, m) == 0,
    decreases m,
{
    if m > 0 {
        lemma_row_sum_zero(f, u, m - 1);
    }
}

/// The number of half-edges between vertex `u` labeled `s` and vertex `y`
/// labeled `t` that are `(y, w, id)` at `u`.
pub open spec fn crossing_grid<K: Copy>(g: GraphRep<K>, labels: Seq<usize>, s: usize, t: usize, w: K, id: usize) -> spec_fn(
    int,
    int,
) -> int {
    |u: int, y: int|
        if labels[u] == s && labels[y] == t {
            occurrences(g.neighbors(u), (y as usize, w, id)) as int
        } else {
            0
        }
}

proof fn lemma_merged_occurrences<K: Copy>(g: GraphRep<K>, labels: Seq<usize>, s: usize, t: usize, w: K, id: usize, k: int)
    requires
        g.wf(),
        labels.len() == g.vertex_total(),
        s != t,
        0 <= k <= g.vertex_total(),
    ensures
        occurrences(merged(g, labels, s as int, k), (t, w, id)) == grid_sum(
            crossing_grid(g, labels, s, t, w, id),
            k,
            labels.len() as int,
        ),
    decreases k,
{
    let n = labels.len() as int;
    let f = crossing_grid(g, labels, s, t, w, id);
    g.lemma_vertex_total_fits();
    if k > 0 {
        let u = k - 1;
        lemma_merged_occurrences(g, labels, s, t, w, id, k - 1);
        let hs = g.neighbors(u);
        let extra = if labels[u] as int == s as int {
            kept(hs, labels, u)
        } else {
            Seq::empty()
        };
        lemma_occurrences_concat(merged(g, labels, s as int, k - 1), extra, (t, w, id));
        if labels[u] == s {
            assert forall|i: int| 0 <= i < hs.len() implies (#[trigger] hs[i]).0 < labels.len() by {
                assert(g.neighbors(u)[i] == hs[i]);
            }
            lemma_kept_toward(hs, labels, u, t, w, id);
            lemma_row_sum_ext(toward_label(hs, labels, t, w, id), f, 0, u, n);
        } else {
            assert(occurrences(extra, (t, w, id)) == 0);
            lemma_row_sum_zero(f, u, n);
        }
    } else {
        assert(occurrences(merged(g, labels, s as int, 0), (t, w, id)) == 0);
    }
}

/// Contracting a graph whose half-edges come in pairs gives one whose
/// half-edges come in pairs.
pub proof fn lemma_contraction_paired<K: Copy>(h: GraphRep<K>, g: GraphRep<K>, labels: Seq<usize>)
    requires
        g.wf(),
        g.paired(),
        labels.len() == g.vertex_total(),
        is_contraction_of(h, g, labels),
    ensures
        h.paired(),
{
    let n = g.vertex_total();
    g.lemma_vertex_total_fits();
    assert forall|s: usize, t: usize, w: K, id: usize|
        s < h.vertex_total() && t < h.vertex_total() implies #[trigger] occurrences(
            h.neighbors(s as int),
            (t, w, id),
        ) == occurrences(h.neighbors(t as int), (s, w, id)) by {
        if s != t {
            let f = crossing_grid(g, labels, s, t, w, id);
            let f2 = crossing_grid(g, labels, t, s, w, id);
            assert(h.neighbors(s as int) == merged(g, labels, s as int, n));
            assert(h.neighbors(t as int) == merged(g, labels, t as int, n));
            lemma_merged_occurrences(g, labels, s, t, w, id, n);
            lemma_merged_occurrences(g, labels, t, s, w, id, n);
            lemma_grid_sum_transpose(f, n, n);
            let ft = transposed(f);
            assert forall|a: int, b: int| 0 <= a < n && 0 <= b < n implies #[trigger] ft(a, b) == f2(a, b) by {
                assert(occurrences(g.neighbors(b), (a as usize, w, id)) == occurrences(
                    g.neighbors(a),
                    (b as usize, w, id),
                )) by {
                    assert(g.paired());
                    assert(occurrences(g.neighbors((b as usize) as int), (a as usize, w, id)) == occurrences(
                        g.neighbors((a as usize) as int),
                        (b as usize, w, id),
                    ));
                }
            }
            lemma_grid_sum_ext(ft, f2, n, n);
        }
    }
}

} // verus!
