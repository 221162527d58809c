//! The graph store: a compressed-sparse-row graph that can be rebuilt from
//! an edge list and contracted onto super-vertices.
use vstd::prelude::*;
use vstd::slice::slice_subrange;
use crate::adjacency::{
    lemma_adjacency_paired, occurrences, lemma_listed_total, listed_total, loops_at, upper_half, adjacency, csr_shape, is_layout_of, lemma_adjacency_symmetric, lemma_vertex_count, scatter,
    vertex_count, with_positions,
};
use crate::contraction::{
    comes_from_crossing, lemma_contraction_keeps_crossing, lemma_contraction_paired, loop_free,
    is_contraction_of, label_count, lemma_contraction_symmetric, lemma_kept_total, lemma_label_count,
    lemma_merged_len, lemma_merged_targets, lemma_merged_total, lemma_merged_total_monotone,
    lemma_progress_len, merged, merged_total, progress,
};

verus! {

/// Edge `t` with position `i`, its lower endpoint first.
pub open spec fn canonical<K>(t: (usize, usize, K), i: int) -> (usize, usize, K, usize) {
    if t.0 < t.1 {
        (t.0, t.1, t.2, i as usize)
    } else {
        (t.1, t.0, t.2, i as usize)
    }
}

/// An undirected weighted graph in compressed-sparse-row form: vertex `x`
/// owns the half-edges `e[v[x]..v[x + 1]]`, each `(neighbor, weight, id)`,
/// where `id` indexes the edge table `id` recorded when the graph was built.
pub struct GraphRep<K> {
    v: Vec<usize>,
    e: Vec<(usize, K, usize)>,
    pub id: Vec<(usize, usize, K)>,
}

impl<K: Copy> GraphRep<K> {
    /// The offset table.
    pub closed spec fn offsets(&self) -> Seq<usize> {
        self.v@
    }

    /// The half-edge table.
    pub closed spec fn half_edges(&self) -> Seq<(usize, K, usize)> {
        self.e@
    }

    /// The edge table recorded at construction.
    pub closed spec fn edge_table(&self) -> Seq<(usize, usize, K)> {
        self.id@
    }

    /// The offsets form a layout over the half-edges, and every half-edge
    /// points at a vertex of the graph.
    pub open spec fn wf(&self) -> bool {
        &&& csr_shape(self.offsets(), self.half_edges())
        &&& forall|x: int, i: int|
            0 <= x < self.vertex_total() && 0 <= i < self.neighbors(x).len() ==> (#[trigger] self.neighbors(
                x,
            )[i]).0 < self.vertex_total()
    }

    pub open spec fn vertex_total(&self) -> int {
        self.offsets().len() - 1
    }

    /// The half-edges of vertex `x`.
    pub open spec fn neighbors(&self, x: int) -> Seq<(usize, K, usize)> {
        self.half_edges().subrange(self.offsets()[x] as int, self.offsets()[x + 1] as int)
    }

    /// The graph is the counting-sort layout of `edges`.
    pub open spec fn represents(&self, edges: Seq<(usize, usize, K, usize)>) -> bool {
        is_layout_of(self.offsets(), self.half_edges(), edges)
    }

    /// Every half-edge `(y, w, id)` of a vertex `x` leads to a vertex `y` that
    /// holds the reverse half-edge `(x, w, id)`.
    pub open spec fn symmetric(&self) -> bool {
        forall|x: int, i: int|
            0 <= x < self.vertex_total() && 0 <= i < self.neighbors(x).len() ==> {
                let h = #[trigger] self.neighbors(x)[i];
                &&& h.0 < self.vertex_total()
                &&& self.neighbors(h.0 as int).contains((x as usize, h.1, h.2))
            }
    }

    /// Half-edges come in pairs: `(y, w, id)` occurs at `x` exactly as often
    /// as `(x, w, id)` occurs at `y`.
    pub open spec fn paired(&self) -> bool {
        forall|x: usize, y: usize, w: K, id: usize|
            x < self.vertex_total() && y < self.vertex_total() ==> #[trigger] occurrences(
                self.neighbors(x as int),
                (y, w, id),
            ) == occurrences(self.neighbors(y as int), (x, w, id))
    }

    /// The current edges, each once and lower endpoint first, from the
    /// vertices below `k`.
    pub open spec fn listed_edges(&self, k: int) -> Seq<(usize, usize, K, usize)>
        decreases k,
    {
        if k <= 0 {
            Seq::empty()
        } else {
            self.listed_edges(k - 1) + upper_half(self.neighbors(k - 1), k - 1)
        }
    }

    /// Builds the graph of `edges`, edge `i` getting id `i`; the list
    /// itself is kept as the edge table.
    pub fn from_list(edges: Vec<(usize, usize, K)>) -> (r: Self)
        requires
            edges@.len() <= usize::MAX / 2,
            forall|k: int|
                0 <= k < edges@.len() ==> (#[trigger] edges@[k]).0 < usize::MAX - 1 && edges@[k].1
                    < usize::MAX - 1,
        ensures
            r.edge_table() == edges@,
            r.wf(),
            r.half_edges().len() == 2 * edges@.len(),
            r.vertex_total() == vertex_count(with_positions(edges@)),
            r.represents(with_positions(edges@)),
            r.symmetric(),
            r.paired(),
    {
        let m = edges.len();
        let mut tagged: Vec<(usize, usize, K, usize)> = Vec::new();
        let mut k: usize = 0;
        while k < m
            invariant
                m == edges@.len(),
                k <= m,
                tagged@ == with_positions(edges@).take(k as int),
            decreases m - k,
        {
            let t = edges[k];
            tagged.push((t.0, t.1, t.2, k));
            k = k + 1;
            proof {
                assert(tagged@ =~= with_positions(edges@).take(k as int));
            }
        }
        proof {
            assert(tagged@ =~= with_positions(edges@));
        }
        let (v, e) = Self::layout_of(tagged.as_slice());
        let r = GraphRep { v, e, id: edges };
        proof {
            r.lemma_represents_symmetric(tagged@);
        }
        r
    }

    /// Replaces the offsets and half-edges by the layout of `edges`, which
    /// carry their own ids; the edge table is kept.
    pub fn update_v_e(&mut self, edges: &[(usize, usize, K, usize)])
        requires
            edges@.len() <= usize::MAX / 2,
            forall|k: int|
                0 <= k < edges@.len() ==> (#[trigger] edges@[k]).0 < usize::MAX - 1 && edges@[k].1
                    < usize::MAX - 1,
        ensures
            final(self).edge_table() == old(self).edge_table(),
            final(self).wf(),
            final(self).represents(edges@),
            final(self).symmetric(),
            final(self).paired(),
    {
        let (v, e) = Self::layout_of(edges);
        self.v = v;
        self.e = e;
        proof {
            self.lemma_represents_symmetric(edges@);
        }
    }

    /// The offsets and half-edges of the graph of `edges`.
    fn layout_of(edges: &[(usize, usize, K, usize)]) -> (res: (Vec<usize>, Vec<(usize, K, usize)>))
        requires
            edges@.len() <= usize::MAX / 2,
            forall|k: int|
                0 <= k < edges@.len() ==> (#[trigger] edges@[k]).0 < usize::MAX - 1 && edges@[k].1
                    < usize::MAX - 1,
        ensures
            is_layout_of(res.0@, res.1@, edges@),
    {
        let n = vertex_bound(edges);
        proof {
            lemma_vertex_count(edges@);
            if n > 0 {
                let k = choose|k: int|
                    0 <= k < edges@.len() && (#[trigger] edges@[k].0 as int == n - 1
                        || edges@[k].1 as int == n - 1);
            }
        }
        scatter(edges, n)
    }

    /// After a build from `edges`, every id below the edge count names a
    /// recorded edge, and that edge is the one at that position of `edges`.
    pub proof fn lemma_built_edge_ids(&self, edges: Seq<(usize, usize, K)>)
        requires
            self.edge_table() == edges,
            self.represents(with_positions(edges)),
        ensures
            forall|i: int|
                0 <= i < self.half_edges().len() / 2 ==> i < self.edge_table().len() && #[trigger] self.edge_table()[i]
                    == edges[i],
    {
    }

    /// A graph built from `edges` lists each of them exactly once: as many
    /// listed edges as half-edge pairs.
    pub proof fn lemma_listed_count(&self, edges: Seq<(usize, usize, K, usize)>)
        requires
            self.represents(edges),
        ensures
            self.listed_edges(self.vertex_total()).len() == edges.len(),
            self.listed_edges(self.vertex_total()).len() == self.half_edges().len() / 2,
    {
        lemma_vertex_count(edges);
        lemma_listed_total(edges, self.vertex_total());
        self.lemma_listed_prefix(edges, self.vertex_total());
    }

    proof fn lemma_listed_prefix(&self, edges: Seq<(usize, usize, K, usize)>, k: int)
        requires
            self.represents(edges),
            0 <= k <= self.vertex_total(),
        ensures
            self.listed_edges(k).len() == listed_total(edges, k),
        decreases k,
    {
        if k > 0 {
            self.lemma_listed_prefix(edges, k - 1);
            assert(self.neighbors(k - 1) == adjacency(edges, k - 1));
        }
    }

    /// Two graphs with the same half-edges at every vertex have the same
    /// offsets and half-edge tables.
    pub proof fn lemma_same_neighbors(&self, other: Self)
        requires
            self.wf(),
            other.wf(),
            self.vertex_total() == other.vertex_total(),
            forall|x: int| 0 <= x < self.vertex_total() ==> #[trigger] self.neighbors(x) == other.neighbors(x),
        ensures
            self.offsets() == other.offsets(),
            self.half_edges() == other.half_edges(),
    {
        let n = self.vertex_total();
        self.lemma_same_prefix(other, n);
        assert(self.offsets() =~= other.offsets());
        assert(self.offsets().last() == self.offsets()[n]);
        assert(self.half_edges() =~= self.half_edges().subrange(0, self.offsets()[n] as int));
        assert(other.half_edges() =~= other.half_edges().subrange(0, other.offsets()[n] as int));
    }

    proof fn lemma_same_prefix(&self, other: Self, x: int)
        requires
            self.wf(),
            other.wf(),
            self.vertex_total() == other.vertex_total(),
            forall|y: int| 0 <= y < self.vertex_total() ==> #[trigger] self.neighbors(y) == other.neighbors(y),
            0 <= x <= self.vertex_total(),
        ensures
            forall|y: int| 0 <= y <= x ==> #[trigger] self.offsets()[y] == other.offsets()[y],
            self.half_edges().subrange(0, self.offsets()[x] as int) == other.half_edges().subrange(
                0,
                other.offsets()[x] as int,
            ),
        decreases x,
    {
        let n = self.vertex_total();
        assert(self.offsets().last() == self.offsets()[n]);
        assert(other.offsets().last() == other.offsets()[n]);
        if x > 0 {
            self.lemma_same_prefix(other, x - 1);
            assert(self.offsets()[x - 1] <= self.offsets()[x] <= self.offsets()[n]);
            assert(other.offsets()[x - 1] <= other.offsets()[x] <= other.offsets()[n]);
            assert(self.neighbors(x - 1).len() == self.offsets()[x] - self.offsets()[x - 1]);
            assert(self.half_edges().subrange(0, self.offsets()[x] as int) =~= self.half_edges().subrange(
                0,
                self.offsets()[x - 1] as int,
            ) + self.neighbors(x - 1));
            assert(other.half_edges().subrange(0, other.offsets()[x] as int) =~= other.half_edges().subrange(
                0,
                other.offsets()[x - 1] as int,
            ) + other.neighbors(x - 1));
        } else {
            assert(self.half_edges().subrange(0, 0) =~= other.half_edges().subrange(0, 0));
        }
    }

    /// Vertex numbers fit in `usize`.
    pub proof fn lemma_vertex_total_fits(&self)
        ensures
            self.vertex_total() < usize::MAX,
    {
        assert(self.v.len() == self.v@.len());
    }

    /// A graph that is the layout of an edge list is symmetric, and its
    /// half-edges come in pairs.
    pub proof fn lemma_represents_symmetric(&self, edges: Seq<(usize, usize, K, usize)>)
        requires
            self.represents(edges),
        ensures
            self.wf(),
            self.symmetric(),
            self.paired(),
    {
        assert forall|x: usize, y: usize, w: K, id: usize|
            x < self.vertex_total() && y < self.vertex_total() implies #[trigger] occurrences(
                self.neighbors(x as int),
                (y, w, id),
            ) == occurrences(self.neighbors(y as int), (x, w, id)) by {
            assert(self.neighbors(x as int) == adjacency(edges, x as int));
            assert(self.neighbors(y as int) == adjacency(edges, y as int));
            lemma_adjacency_paired(edges, x, y, w, id);
        }
        lemma_vertex_count(edges);
        let n = self.vertex_total();
        assert forall|x: int, i: int|
            0 <= x < n && 0 <= i < self.neighbors(x).len() implies {
                let h = #[trigger] self.neighbors(x)[i];
                &&& h.0 < n
                &&& self.neighbors(h.0 as int).contains((x as usize, h.1, h.2))
            } by {
            assert(self.neighbors(x) == adjacency(edges, x));
            lemma_adjacency_symmetric(edges, n, x, i);
            let y = self.neighbors(x)[i].0 as int;
            assert(self.neighbors(y) == adjacency(edges, y));
        }
    }

    /// Every recorded edge, lower endpoint first, with its id, in id order;
    /// the current layout is not consulted.
    pub fn all_edges(&self) -> (r: Vec<(usize, usize, K, usize)>)
        ensures
            r@ == Seq::new(self.edge_table().len(), |i: int| canonical(self.edge_table()[i], i)),
    {
        let mut result: Vec<(usize, usize, K, usize)> = Vec::new();
        let mut eid: usize = 0;
        while eid < self.id.len()
            invariant
                eid <= self.id@.len(),
                result@.len() == eid,
                forall|j: int| 0 <= j < eid ==> #[trigger] result@[j] == canonical(self.id@[j], j),
            decreases self.id@.len() - eid,
        {
            let t = self.id[eid];
            if t.0 < t.1 {
                result.push((t.0, t.1, t.2, eid));
            } else {
                result.push((t.1, t.0, t.2, eid));
            }
            eid = eid + 1;
        }
        proof {
            assert(result@ =~= Seq::new(self.edge_table().len(), |i: int| canonical(self.edge_table()[i], i)));
        }
        result
    }

    /// Every current edge once, as `(u, y, weight, id)` with `u < y`: the
    /// half-edges of each vertex `u` in turn that lead to a higher vertex.
    pub fn current_edges(&self) -> (r: Vec<(usize, usize, K, usize)>)
        requires
            self.wf(),
        ensures
            r@ == self.listed_edges(self.vertex_total()),
            forall|edges: Seq<(usize, usize, K, usize)>|
                #[trigger] self.represents(edges) ==> r@.len() == self.half_edges().len() / 2,
    {
        let mut out: Vec<(usize, usize, K, usize)> = Vec::new();
        let n = self.num_vertices();
        let mut u: usize = 0;
        while u < n
            invariant
                self.wf(),
                n == self.vertex_total(),
                u <= n,
                out@ == self.listed_edges(u as int),
            decreases n - u,
        {
            let hs = self.edges_from(u);
            let mut i: usize = 0;
            let mut odd_loops = false;
            while i < hs.len()
                invariant
                    i <= hs@.len(),
                    odd_loops == (loops_at(hs@.take(i as int), u as int) % 2 == 1),
                    out@ == self.listed_edges(u as int) + upper_half(hs@.take(i as int), u as int),
                decreases hs@.len() - i,
            {
                let h = hs[i];
                if u < h.0 || (h.0 == u && odd_loops) {
                    out.push((u, h.0, h.1, h.2));
                }
                if h.0 == u {
                    odd_loops = !odd_loops;
                }
                i = i + 1;
                proof {
                    assert(hs@.take(i as int).drop_last() == hs@.take(i - 1));
                    assert(hs@.take(i as int).last() == h);
                    assert(out@ =~= self.listed_edges(u as int) + upper_half(hs@.take(i as int), u as int));
                }
            }
            proof {
                assert(hs@.take(i as int) == hs@);
            }
            u = u + 1;
        }
        proof {
            assert forall|edges: Seq<(usize, usize, K, usize)>| #[trigger] self.represents(edges) implies out@.len()
                == self.half_edges().len() / 2 by {
                self.lemma_listed_count(edges);
            }
        }
        out
    }

    /// Merges the vertices into super-vertices: vertex `x` goes to
    /// `cc_ids[x]`, there are as many super-vertices as one more than the
    /// largest label, a half-edge between two super-vertices survives with
    /// its far end relabeled and its weight and id kept, and a half-edge
    /// inside one super-vertex is dropped. Parallel edges are all kept.
    pub fn contract_vertices(&mut self, cc_ids: &[usize])
        requires
            old(self).wf(),
            cc_ids@.len() == old(self).vertex_total(),
            forall|i: int| 0 <= i < cc_ids@.len() ==> #[trigger] cc_ids@[i] < usize::MAX - 1,
        ensures
            final(self).edge_table() == old(self).edge_table(),
            is_contraction_of(*final(self), *old(self), cc_ids@),
            old(self).symmetric() ==> final(self).symmetric(),
            old(self).paired() ==> final(self).paired(),
            loop_free(*final(self)),
    {
        let ghost g = *self;
        let ghost labels = cc_ids@;
        let n = self.num_vertices();
        let nn = label_bound(cc_ids);
        proof {
            lemma_label_count(labels);
            lemma_kept_total(g, labels, n as int);
            lemma_merged_total(g, labels, nn as int, n as int);
            assert(self.v@.last() == self.v@[n as int]);
        }
        // first pass: how many half-edges each super-vertex receives
        let mut cnt: Vec<usize> = Vec::new();
        let mut s: usize = 0;
        while s < nn
            invariant
                s <= nn,
                cnt@.len() == s,
                forall|t: int| 0 <= t < s ==> cnt@[t] == 0,
            decreases nn - s,
        {
            cnt.push(0);
            s = s + 1;
        }
        proof {
            assert forall|t: int| 0 <= t < nn implies #[trigger] cnt@[t] == merged(g, labels, t, 0).len() by {}
        }
        let mut u: usize = 0;
        while u < n
            invariant
                *self == g,
                g.wf(),
                labels == cc_ids@,
                n == g.vertex_total(),
                labels.len() == n,
                nn == label_count(labels),
                forall|i: int| 0 <= i < labels.len() ==> #[trigger] labels[i] < nn,
                u <= n,
                cnt@.len() == nn,
                forall|t: int| 0 <= t < nn ==> #[trigger] cnt@[t] == merged(g, labels, t, u as int).len(),
            decreases n - u,
        {
            let start = self.v[u];
            let end = self.v[u + 1];
            let lu = cc_ids[u];
            let mut i: usize = start;
            proof {
                assert(g.offsets()[u as int] <= g.offsets()[u + 1]);
                assert(g.neighbors(u as int).take(0) == Seq::<(usize, K, usize)>::empty());
                assert forall|t: int| 0 <= t < nn implies #[trigger] cnt@[t] == progress(g, labels, t, u as int, 0).len() by {}
            }
            while i < end
                invariant
                    *self == g,
                    g.wf(),
                    labels == cc_ids@,
                    n == g.vertex_total(),
                    labels.len() == n,
                    forall|j: int| 0 <= j < labels.len() ==> #[trigger] labels[j] < nn,
                    u < n,
                    lu == labels[u as int],
                    start == g.offsets()[u as int],
                    end == g.offsets()[u + 1],
                    start <= i <= end,
                    end <= g.half_edges().len(),
                    cnt@.len() == nn,
                    forall|t: int| 0 <= t < nn ==> #[trigger] cnt@[t] == progress(g, labels, t, u as int, i - start).len(),
                decreases end - i,
            {
                let h = self.e[i];
                let ghost j = i - start;
                let ghost hs = g.neighbors(u as int);
                proof {
                    assert(hs[j] == h);
                    assert(h.0 < n);
                    assert(hs.take(j + 1).drop_last() == hs.take(j));
                    assert(hs.take(j + 1).last() == h);
                    lemma_progress_len(g, labels, lu as int, u as int, j + 1);
                    lemma_merged_len(g, labels, lu as int, n as int);
                }
                let lh = cc_ids[h.0];
                if lu != lh {
                    let c = cnt[lu];
                    cnt.set(lu, c + 1);
                }
                i = i + 1;
            }
            proof {
                assert(g.neighbors(u as int).take(i - start) == g.neighbors(u as int));
            }
            u = u + 1;
        }
        // prefix sums into the new offsets, and a write cursor per super-vertex
        let mut nv: Vec<usize> = Vec::new();
        let mut cursor: Vec<usize> = Vec::new();
        nv.push(0);
        let mut sum: usize = 0;
        s = 0;
        while s < nn
            invariant
                g.wf(),
                n == g.vertex_total(),
                labels.len() == n,
                s <= nn,
                merged_total(g, labels, nn as int, n as int) <= g.half_edges().len(),
                cnt@.len() == nn,
                forall|t: int| 0 <= t < nn ==> #[trigger] cnt@[t] == merged(g, labels, t, n as int).len(),
                nv@.len() == s + 1,
                cursor@.len() == s,
                nv@[0] == 0,
                sum == nv@[s as int],
                sum == merged_total(g, labels, s as int, n as int),
                forall|t: int| 0 <= t < s ==> #[trigger] nv@[t + 1] == nv@[t] + cnt@[t],
                forall|t: int| 0 <= t < s ==> #[trigger] cursor@[t] == nv@[t],
                forall|a: int, b: int| 0 <= a <= b <= s ==> nv@[a] <= nv@[b],
            decreases nn - s,
        {
            proof {
                lemma_merged_total_monotone(g, labels, s + 1, nn as int, n as int);
            }
            cursor.push(sum);
            sum = sum + cnt[s];
            nv.push(sum);
            s = s + 1;
        }
        // second pass: scatter the survivors
        let mut ne: Vec<(usize, K, usize)> = Vec::new();
        if sum > 0 {
            let w = self.e[0].1;
            ne = vec![(0, w, 0); sum];
        }
        proof {
            assert forall|t: int| 0 <= t < nn implies #[trigger] cursor@[t] == nv@[t] + merged(g, labels, t, 0).len()
                && ne@.subrange(nv@[t] as int, cursor@[t] as int) == merged(g, labels, t, 0) && nv@[t] <= cursor@[t] <= nv@[t + 1] by {
                assert(ne@.subrange(nv@[t] as int, cursor@[t] as int) =~= Seq::empty());
                assert(nv@[t] <= nv@[t + 1]);
            }
        }
        u = 0;
        while u < n
            invariant
                *self == g,
                g.wf(),
                labels == cc_ids@,
                n == g.vertex_total(),
                labels.len() == n,
                forall|i: int| 0 <= i < labels.len() ==> #[trigger] labels[i] < nn,
                u <= n,
                ne@.len() == sum,
                nv@.len() == nn + 1,
                nv@[nn as int] == sum,
                cursor@.len() == nn,
                forall|a: int, b: int| 0 <= a <= b <= nn ==> nv@[a] <= nv@[b],
                forall|t: int| 0 <= t < nn ==> #[trigger] nv@[t + 1] == nv@[t] + merged(g, labels, t, n as int).len(),
                forall|t: int| 0 <= t < nn ==> nv@[t] <= #[trigger] cursor@[t] <= nv@[t + 1],
                forall|t: int| 0 <= t < nn ==> #[trigger] cursor@[t] == nv@[t] + merged(g, labels, t, u as int).len(),
                forall|t: int|
                    0 <= t < nn ==> #[trigger] ne@.subrange(nv@[t] as int, cursor@[t] as int) == merged(g, labels, t, u as int),
            decreases n - u,
        {
            let start = self.v[u];
            let end = self.v[u + 1];
            let lu = cc_ids[u];
            let mut i: usize = start;
            proof {
                assert(g.offsets()[u as int] <= g.offsets()[u + 1]);
                assert(g.neighbors(u as int).take(0) == Seq::<(usize, K, usize)>::empty());
                assert forall|t: int| 0 <= t < nn implies #[trigger] ne@.subrange(nv@[t] as int, cursor@[t] as int)
                    == progress(g, labels, t, u as int, 0) by {
                    assert(progress(g, labels, t, u as int, 0) =~= merged(g, labels, t, u as int));
                }
            }
            while i < end
                invariant
                    *self == g,
                    g.wf(),
                    labels == cc_ids@,
                    n == g.vertex_total(),
                    labels.len() == n,
                    forall|j: int| 0 <= j < labels.len() ==> #[trigger] labels[j] < nn,
                    u < n,
                    lu == labels[u as int],
                    start == g.offsets()[u as int],
                    end == g.offsets()[u + 1],
                    start <= i <= end,
                    end <= g.half_edges().len(),
                    ne@.len() == sum,
                    nv@.len() == nn + 1,
                    nv@[nn as int] == sum,
                    cursor@.len() == nn,
                    forall|a: int, b: int| 0 <= a <= b <= nn ==> nv@[a] <= nv@[b],
                    forall|t: int| 0 <= t < nn ==> #[trigger] nv@[t + 1] == nv@[t] + merged(g, labels, t, n as int).len(),
                    forall|t: int| 0 <= t < nn ==> nv@[t] <= #[trigger] cursor@[t] <= nv@[t + 1],
                    forall|t: int|
                        0 <= t < nn ==> #[trigger] cursor@[t] == nv@[t] + progress(g, labels, t, u as int, i - start).len(),
                    forall|t: int|
                        0 <= t < nn ==> #[trigger] ne@.subrange(nv@[t] as int, cursor@[t] as int) == progress(
                            g,
                            labels,
                            t,
                            u as int,
                            i - start,
                        ),
                decreases end - i,
            {
                let h = self.e[i];
                let ghost j = i - start;
                let ghost hs = g.neighbors(u as int);
                proof {
                    assert(hs[j] == h);
                    assert(h.0 < n);
                    assert(hs.take(j + 1).drop_last() == hs.take(j));
                    assert(hs.take(j + 1).last() == h);
                    lemma_progress_len(g, labels, lu as int, u as int, j + 1);
                }
                let lh = cc_ids[h.0];
                let ghost ne0 = ne@;
                let ghost c0 = cursor@;
                if lu != lh {
                    let pos = cursor[lu];
                    proof {
                        assert(nv@[lu + 1] <= nv@[nn as int]);
                    }
                    ne.set(pos, (lh, h.1, h.2));
                    cursor.set(lu, pos + 1);
                }
                i = i + 1;
                proof {
                    assert forall|t: int| 0 <= t < nn implies #[trigger] ne@.subrange(nv@[t] as int, cursor@[t] as int)
                        == progress(g, labels, t, u as int, i - start) && cursor@[t] == nv@[t] + progress(
                        g,
                        labels,
                        t,
                        u as int,
                        i - start,
                    ).len() by {
                        if lu != lh && t == lu {
                            assert(ne@.subrange(nv@[t] as int, cursor@[t] as int) =~= ne0.subrange(
                                nv@[t] as int,
                                c0[t] as int,
                            ).push((lh, h.1, h.2)));
                        } else if lu != lh && t < lu {
                            assert(nv@[t + 1] <= nv@[lu as int]);
                            assert(ne@.subrange(nv@[t] as int, cursor@[t] as int) =~= ne0.subrange(
                                nv@[t] as int,
                                c0[t] as int,
                            ));
                        } else if lu != lh {
                            assert(nv@[lu + 1] <= nv@[t]);
                            assert(ne@.subrange(nv@[t] as int, cursor@[t] as int) =~= ne0.subrange(
                                nv@[t] as int,
                                c0[t] as int,
                            ));
                        }
                    }
                }
            }
            proof {
                assert(g.neighbors(u as int).take(i - start) == g.neighbors(u as int));
            }
            u = u + 1;
        }
        self.v = nv;
        self.e = ne;
        proof {
            let r = *self;
            assert(r.offsets() == nv@);
            assert(nv@.last() == nv@[nn as int]);
            assert forall|t: int| 0 <= t < nn implies #[trigger] r.neighbors(t) == merged(g, labels, t, n as int) by {
                assert(cursor@[t] == nv@[t + 1]);
            }
            assert forall|x: int, k: int|
                0 <= x < r.vertex_total() && 0 <= k < r.neighbors(x).len() implies (#[trigger] r.neighbors(
                    x,
                )[k]).0 < r.vertex_total() by {
                lemma_merged_targets(g, labels, x, n as int, nn as int);
            }
            if g.symmetric() {
                lemma_contraction_symmetric(r, g, labels);
            }
            if g.paired() {
                lemma_contraction_paired(r, g, labels);
            }
            lemma_contraction_keeps_crossing(r, g, labels);
            assert forall|x: int, k: int| 0 <= x < r.vertex_total() && 0 <= k < r.neighbors(x).len() implies (
            #[trigger] r.neighbors(x)[k]).0 as int != x by {
                assert(comes_from_crossing(g, labels, x, r.neighbors(x)[k]));
            }
        }
    }

    /// The half-edges of `vertex`.
    pub fn edges_from(&self, vertex: usize) -> (r: &[(usize, K, usize)])
        requires
            self.wf(),
            vertex < self.vertex_total(),
        ensures
            r@ == self.neighbors(vertex as int),
    {
        let n_offsets = self.v.len();
        proof {
            assert(vertex + 1 < n_offsets);
        }
        let edges_start = self.v[vertex];
        let edges_end = self.v[vertex + 1];
        slice_subrange(self.e.as_slice(), edges_start, edges_end)
    }

    /// The edge recorded at construction under `edge_id`, if there is one.
    pub fn original_edge(&self, edge_id: usize) -> (r: Option<&(usize, usize, K)>)
        ensures
            r.is_some() <==> edge_id < self.edge_table().len(),
            r.is_some() ==> *r.unwrap() == self.edge_table()[edge_id as int],
    {
        if edge_id < self.id.len() {
            Some(&self.id[edge_id])
        } else {
            None
        }
    }

    pub fn num_vertices(&self) -> (r: usize)
        requires
            self.wf(),
        ensures
            r == self.vertex_total(),
    {
        self.v.len() - 1
    }

    pub fn num_edges(&self) -> (r: usize)
        ensures
            r == self.half_edges().len() / 2,
    {
        self.e.len() / 2
    }

    /// The length of the offset table.
    pub fn v_len(&self) -> (r: usize)
        ensures
            r == self.offsets().len(),
    {
        self.v.len()
    }

    /// The length of the half-edge table.
    pub fn e_len(&self) -> (r: usize)
        ensures
            r == self.half_edges().len(),
    {
        self.e.len()
    }
}

/// One more than the largest label, or zero for none.
fn label_bound(labels: &[usize]) -> (n: usize)
    requires
        forall|i: int| 0 <= i < labels@.len() ==> #[trigger] labels@[i] < usize::MAX,
    ensures
        n == label_count(labels@),
{
    let mut n: usize = 0;
    let mut k: usize = 0;
    while k < labels.len()
        invariant
            k <= labels@.len(),
            forall|i: int| 0 <= i < labels@.len() ==> #[trigger] labels@[i] < usize::MAX,
            n == label_count(labels@.take(k as int)),
        decreases labels@.len() - k,
    {
        proof {
            assert(labels@.take(k + 1).drop_last() == labels@.take(k as int));
            assert(labels@.take(k + 1).last() == labels@[k as int]);
        }
        let m = labels[k] + 1;
        if n < m {
            n = m;
        }
        k = k + 1;
    }
    proof {
        assert(labels@.take(k as int) == labels@);
    }
    n
}

/// One more than the largest endpoint in `edges`, or zero for none.
fn vertex_bound<K: Copy>(edges: &[(usize, usize, K, usize)]) -> (n: usize)
    requires
        forall|k: int| 0 <= k < edges@.len() ==> (#[trigger] edges@[k]).0 < usize::MAX && edges@[k].1 < usize::MAX,
    ensures
        n == vertex_count(edges@),
{
    let mut n: usize = 0;
    let mut k: usize = 0;
    while k < edges.len()
        invariant
            k <= edges@.len(),
            forall|j: int| 0 <= j < edges@.len() ==> (#[trigger] edges@[j]).0 < usize::MAX && edges@[j].1 < usize::MAX,
            n == vertex_count(edges@.take(k as int)),
        decreases edges@.len() - k,
    {
        proof {
            assert(edges@.take(k + 1).drop_last() == edges@.take(k as int));
            assert(edges@.take(k + 1).last() == edges@[k as int]);
        }
        let a = edges[k].0 + 1;
        let b = edges[k].1 + 1;
        let mx = if a < b { b } else { a };
        if n < mx {
            n = mx;
        }
        k = k + 1;
    }
    proof {
        assert(edges@.take(k as int) == edges@);
    }
    n
}

} // verus!
