//! The mathematical model of a compressed-sparse-row layout built from an
//! edge list, and the counting sort that builds it.
use vstd::prelude::*;

verus! {

/// The half-edges that one undirected edge `(a, b, w, id)` contributes to
/// vertex `x`: first the one leaving `a`, then the one leaving `b`.
pub open spec fn contribution<K>(t: (usize, usize, K, usize), x: int) -> Seq<(usize, K, usize)> {
    leaving_first(t, x) + leaving_second(t, x)
}

/// The half-edge `a -> b` of edge `t`, if `a` is `x`.
pub open spec fn leaving_first<K>(t: (usize, usize, K, usize), x: int) -> Seq<(usize, K, usize)> {
    if t.0 as int == x {
        seq![(t.1, t.2, t.3)]
    } else {
        Seq::empty()
    }
}

/// The half-edge `b -> a` of edge `t`, if `b` is `x`.
pub open spec fn leaving_second<K>(t: (usize, usize, K, usize), x: int) -> Seq<(usize, K, usize)> {
    if t.1 as int == x {
        seq![(t.0, t.2, t.3)]
    } else {
        Seq::empty()
    }
}

/// The half-edges of vertex `x`, in the order in which the edges that
/// contribute them appear in `edges`.
pub open spec fn adjacency<K>(edges: Seq<(usize, usize, K, usize)>, x: int) -> Seq<(usize, K, usize)>
    decreases edges.len(),
{
    if edges.len() == 0 {
        Seq::empty()
    } else {
        adjacency(edges.drop_last(), x) + contribution(edges.last(), x)
    }
}

/// One more than the largest endpoint in `edges`, or zero for no edges.
pub open spec fn vertex_count<K>(edges: Seq<(usize, usize, K, usize)>) -> nat
    decreases edges.len(),
{
    if edges.len() == 0 {
        0
    } else {
        let r = vertex_count(edges.drop_last());
        let t = edges.last();
        let a = t.0 as nat + 1;
        let b = t.1 as nat + 1;
        let m = if a < b { b } else { a };
        if r < m { m } else { r }
    }
}

/// The edge list with each edge tagged by its position.
pub open spec fn with_positions<K>(edges: Seq<(usize, usize, K)>) -> Seq<(usize, usize, K, usize)> {
    Seq::new(edges.len(), |i: int| (edges[i].0, edges[i].1, edges[i].2, i as usize))
}

/// Every endpoint in `edges` is below `n`.
pub open spec fn endpoints_below<K>(edges: Seq<(usize, usize, K, usize)>, n: int) -> bool {
    forall|k: int| 0 <= k < edges.len() ==> (#[trigger] edges[k]).0 < n && edges[k].1 < n
}

/// The number of half-edges of the vertices below `x`.
pub open spec fn degree_total<K>(edges: Seq<(usize, usize, K, usize)>, x: int) -> int
    decreases x,
{
    if x <= 0 {
        0
    } else {
        degree_total(edges, x - 1) + adjacency(edges, x - 1).len()
    }
}

/// Offsets `v` and half-edges `e` form a compressed-sparse-row layout of
/// `n` vertices: `v` starts at zero, never decreases and ends at `e`'s length.
pub open spec fn csr_shape<T>(v: Seq<usize>, e: Seq<T>) -> bool {
    &&& v.len() >= 1
    &&& v[0] == 0
    &&& forall|i: int, j: int| 0 <= i <= j < v.len() ==> v[i] <= v[j]
    &&& v.last() == e.len()
}

/// Offsets `v` and half-edges `e` are the counting-sort layout of `edges`:
/// one more vertex than the largest endpoint, two half-edges per edge, and at
/// each vertex the half-edges in the order of the edges they come from.
pub open spec fn is_layout_of<K>(
    v: Seq<usize>,
    e: Seq<(usize, K, usize)>,
    edges: Seq<(usize, usize, K, usize)>,
) -> bool {
    &&& csr_shape(v, e)
    &&& v.len() - 1 == vertex_count(edges)
    &&& e.len() == 2 * edges.len()
    &&& forall|x: int|
        0 <= x < v.len() - 1 ==> #[trigger] e.subrange(v[x] as int, v[x + 1] as int) == adjacency(edges, x)
}

pub proof fn lemma_vertex_count<K>(edges: Seq<(usize, usize, K, usize)>)
    ensures
        endpoints_below(edges, vertex_count(edges) as int),
        edges.len() == 0 <==> vertex_count(edges) == 0,
        vertex_count(edges) > 0 ==> exists|k: int|
            0 <= k < edges.len() && (#[trigger] edges[k].0 as int == vertex_count(edges) - 1
                || edges[k].1 as int == vertex_count(edges) - 1),
    decreases edges.len(),
{
    if edges.len() > 0 {
        let s = edges.drop_last();
        lemma_vertex_count(s);
        assert forall|k: int| 0 <= k < edges.len() implies (#[trigger] edges[k]).0 < vertex_count(edges)
            && edges[k].1 < vertex_count(edges) by {
            if k < s.len() {
                assert(edges[k] == s[k]);
            }
        }
        if vertex_count(edges) != vertex_count(s) {
            let k = edges.len() - 1;
            assert(edges[k].0 as int == vertex_count(edges) - 1 || edges[k].1 as int == vertex_count(edges) - 1);
        } else {
            let k = choose|k: int|
                0 <= k < s.len() && (#[trigger] s[k].0 as int == vertex_count(s) - 1
                    || s[k].1 as int == vertex_count(s) - 1);
            assert(edges[k] == s[k]);
        }
    }
}

pub proof fn lemma_adjacency_len_bound<K>(edges: Seq<(usize, usize, K, usize)>, x: int)
    ensures
        adjacency(edges, x).len() <= 2 * edges.len(),
    decreases edges.len(),
{
    if edges.len() > 0 {
        lemma_adjacency_len_bound(edges.drop_last(), x);
    }
}

/// The half-edges of a prefix of the edge list are never more than those of
/// the whole list.
pub proof fn lemma_adjacency_prefix_len<K>(edges: Seq<(usize, usize, K, usize)>, k: int, x: int)
    requires
        0 <= k <= edges.len(),
    ensures
        adjacency(edges.take(k), x).len() <= adjacency(edges, x).len(),
    decreases edges.len(),
{
    if k < edges.len() {
        let s = edges.drop_last();
        assert(edges.take(k) == s.take(k));
        lemma_adjacency_prefix_len(s, k, x);
    } else {
        assert(edges.take(k) == edges);
    }
}

proof fn lemma_degree_total_step<K>(edges: Seq<(usize, usize, K, usize)>, x: int)
    requires
        edges.len() > 0,
        x >= 0,
    ensures
        degree_total(edges, x) == degree_total(edges.drop_last(), x)
            + (if (edges.last().0 as int) < x { 1int } else { 0 })
            + (if (edges.last().1 as int) < x { 1int } else { 0 }),
    decreases x,
{
    if x > 0 {
        lemma_degree_total_step(edges, x - 1);
    }
}

/// Each edge gives its two endpoints one half-edge each.
pub proof fn lemma_degree_total<K>(edges: Seq<(usize, usize, K, usize)>, n: int)
    requires
        n >= 0,
        endpoints_below(edges, n),
    ensures
        degree_total(edges, n) == 2 * edges.len(),
    decreases edges.len(),
{
    if edges.len() > 0 {
        let s = edges.drop_last();
        assert(endpoints_below(s, n)) by {
            assert forall|k: int| 0 <= k < s.len() implies (#[trigger] s[k]).0 < n && s[k].1 < n by {
                assert(s[k] == edges[k]);
            }
        }
        lemma_degree_total(s, n);
        lemma_degree_total_step(edges, n);
        assert(edges.last() == edges[edges.len() - 1]);
    } else {
        lemma_degree_total_empty(edges, n);
    }
}

proof fn lemma_degree_total_empty<K>(edges: Seq<(usize, usize, K, usize)>, x: int)
    requires
        edges.len() == 0,
    ensures
        degree_total(edges, x) == 0,
    decreases x,
{
    if x > 0 {
        lemma_degree_total_empty(edges, x - 1);
    }
}

pub proof fn lemma_degree_total_monotone<K>(edges: Seq<(usize, usize, K, usize)>, x: int, y: int)
    requires
        0 <= x <= y,
    ensures
        degree_total(edges, x) <= degree_total(edges, y),
    decreases y,
{
    if x < y {
        lemma_degree_total_monotone(edges, x, y - 1);
    }
}

/// Every half-edge `(y, w, id)` at `x` is matched by a half-edge `(x, w, id)`
/// at `y`, and `y` is an endpoint of the list.
pub proof fn lemma_adjacency_symmetric<K>(edges: Seq<(usize, usize, K, usize)>, n: int, x: int, i: int)
    requires
        endpoints_below(edges, n),
        0 <= i < adjacency(edges, x).len(),
    ensures
        0 <= x < n,
        adjacency(edges, x)[i].0 < n,
        adjacency(edges, adjacency(edges, x)[i].0 as int).contains(
            (x as usize, adjacency(edges, x)[i].1, adjacency(edges, x)[i].2),
        ),
    decreases edges.len(),
{
    let s = edges.drop_last();
    let t = edges.last();
    let h = adjacency(edges, x)[i];
    let y = h.0 as int;
    assert(endpoints_below(s, n)) by {
        assert forall|k: int| 0 <= k < s.len() implies (#[trigger] s[k]).0 < n && s[k].1 < n by {
            assert(s[k] == edges[k]);
        }
    }
    assert(t == edges[edges.len() - 1]);
    let target = (x as usize, h.1, h.2);
    if i < adjacency(s, x).len() {
        lemma_adjacency_symmetric(s, n, x, i);
        assert(h == adjacency(s, x)[i]);
        let j = choose|j: int| 0 <= j < adjacency(s, y).len() && adjacency(s, y)[j] == target;
        assert(adjacency(edges, y)[j] == target);
    } else if i < adjacency(s, x).len() + leaving_first(t, x).len() {
        assert(t.0 as int == x);
        assert(h == (t.1, t.2, t.3));
        let j = adjacency(s, y).len() + leaving_first(t, y).len() as int;
        assert(adjacency(edges, y)[j] == target);
    } else {
        assert(t.1 as int == x);
        assert(h == (t.0, t.2, t.3));
        let j = adjacency(s, y).len() as int;
        assert(adjacency(edges, y)[j] == target);
    }
}

/// How many of the half-edges `hs` lead back to `u`.
pub open spec fn loops_at<K>(hs: Seq<(usize, K, usize)>, u: int) -> nat
    decreases hs.len(),
{
    if hs.len() == 0 {
        0
    } else {
        loops_at(hs.drop_last(), u) + if hs.last().0 as int == u {
            1nat
        } else {
            0
        }
    }
}

/// Half-edge `h` of vertex `u`, coming after the half-edges `before`, is the
/// one that stands for its edge: it leads to a higher vertex, or it is the
/// second of the two half-edges of a loop.
pub open spec fn lists_edge<K>(h: (usize, K, usize), u: int, before: Seq<(usize, K, usize)>) -> bool {
    u < h.0 || (h.0 as int == u && loops_at(before, u) % 2 == 1)
}

/// The half-edges of `hs`, which leave vertex `u`, that stand for their
/// edge, written as edges `(u, neighbor, weight, id)`: those to a higher
/// vertex, and every second one of those back to `u`.
pub open spec fn upper_half<K>(hs: Seq<(usize, K, usize)>, u: int) -> Seq<(usize, usize, K, usize)>
    decreases hs.len(),
{
    if hs.len() == 0 {
        Seq::empty()
    } else {
        let h = hs.last();
        upper_half(hs.drop_last(), u) + if lists_edge(h, u, hs.drop_last()) {
            seq![(u as usize, h.0, h.1, h.2)]
        } else {
            Seq::empty()
        }
    }
}

/// The number of edges listed by the vertices below `x`.
pub open spec fn listed_total<K>(edges: Seq<(usize, usize, K, usize)>, x: int) -> int
    decreases x,
{
    if x <= 0 {
        0
    } else {
        listed_total(edges, x - 1) + upper_half(adjacency(edges, x - 1), x - 1).len()
    }
}

/// Adding an edge lists it once, at its lower endpoint, and adds two loop
/// half-edges there if it is a loop.
proof fn lemma_upper_half_step<K>(edges: Seq<(usize, usize, K, usize)>, u: int)
    requires
        edges.len() > 0,
        loops_at(adjacency(edges.drop_last(), u), u) % 2 == 0,
    ensures
        upper_half(adjacency(edges, u), u).len() == upper_half(adjacency(edges.drop_last(), u), u).len()
            + if (if edges.last().0 < edges.last().1 { edges.last().0 } else { edges.last().1 }) as int == u {
            1int
        } else {
            0
        },
        loops_at(adjacency(edges, u), u) % 2 == 0,
{
    let a = adjacency(edges.drop_last(), u);
    let t = edges.last();
    let x1 = (t.1, t.2, t.3);
    let x2 = (t.0, t.2, t.3);
    if t.0 as int == u && t.1 as int == u {
        let b = a.push(x1);
        let c = b.push(x2);
        assert(adjacency(edges, u) =~= c);
        assert(c.drop_last() =~= b && c.last() == x2);
        assert(b.drop_last() =~= a && b.last() == x1);
        assert(loops_at(b, u) == loops_at(a, u) + 1);
        assert(loops_at(c, u) == loops_at(a, u) + 2);
        assert(!lists_edge(x1, u, a));
        assert(lists_edge(x2, u, b));
        assert(upper_half(b, u) == upper_half(a, u));
        assert(upper_half(c, u).len() == upper_half(a, u).len() + 1);
    } else if t.0 as int == u {
        let b = a.push(x1);
        assert(adjacency(edges, u) =~= b);
        assert(b.drop_last() =~= a && b.last() == x1);
        assert(loops_at(b, u) == loops_at(a, u));
    } else if t.1 as int == u {
        let b = a.push(x2);
        assert(adjacency(edges, u) =~= b);
        assert(b.drop_last() =~= a && b.last() == x2);
        assert(loops_at(b, u) == loops_at(a, u));
    } else {
        assert(adjacency(edges, u) =~= a);
    }
}

/// The half-edges of `u` that lead back to `u` come in pairs.
pub proof fn lemma_loops_even<K>(edges: Seq<(usize, usize, K, usize)>, u: int)
    ensures
        loops_at(adjacency(edges, u), u) % 2 == 0,
    decreases edges.len(),
{
    if edges.len() > 0 {
        lemma_loops_even(edges.drop_last(), u);
        lemma_upper_half_step(edges, u);
    }
}

proof fn lemma_listed_total_step<K>(edges: Seq<(usize, usize, K, usize)>, x: int)
    requires
        edges.len() > 0,
        x >= 0,
    ensures
        listed_total(edges, x) == listed_total(edges.drop_last(), x) + if ((if edges.last().0
            < edges.last().1 { edges.last().0 } else { edges.last().1 }) as int) < x {
            1int
        } else {
            0
        },
    decreases x,
{
    if x > 0 {
        lemma_listed_total_step(edges, x - 1);
        lemma_loops_even(edges.drop_last(), x - 1);
        lemma_upper_half_step(edges, x - 1);
    }
}

proof fn lemma_listed_total_empty<K>(edges: Seq<(usize, usize, K, usize)>, x: int)
    requires
        edges.len() == 0,
    ensures
        listed_total(edges, x) == 0,
    decreases x,
{
    if x > 0 {
        lemma_listed_total_empty(edges, x - 1);
    }
}

/// Each edge is listed exactly once over all vertices.
pub proof fn lemma_listed_total<K>(edges: Seq<(usize, usize, K, usize)>, n: int)
    requires
        n >= 0,
        endpoints_below(edges, n),
    ensures
        listed_total(edges, n) == edges.len(),
    decreases edges.len(),
{
    if edges.len() > 0 {
        let s = edges.drop_last();
        assert(endpoints_below(s, n)) by {
            assert forall|k: int| 0 <= k < s.len() implies (#[trigger] s[k]).0 < n && s[k].1 < n by {
                assert(s[k] == edges[k]);
            }
        }
        lemma_listed_total(s, n);
        lemma_listed_total_step(edges, n);
        assert(edges.last() == edges[edges.len() - 1]);
    } else {
        lemma_listed_total_empty(edges, n);
    }
}

/// How many times `x` occurs in `s`.
pub open spec fn occurrences<T>(s: Seq<T>, x: T) -> nat
    decreases s.len(),
{
    if s.len() == 0 {
        0
    } else {
        occurrences(s.drop_last(), x) + if s.last() == x {
            1nat
        } else {
            0
        }
    }
}

pub proof fn lemma_occurrences_concat<T>(a: Seq<T>, b: Seq<T>, x: T)
    ensures
        occurrences(a + b, x) == occurrences(a, x) + occurrences(b, x),
    decreases b.len(),
{
    if b.len() == 0 {
        assert(a + b =~= a);
    } else {
        lemma_occurrences_concat(a, b.drop_last(), x);
        assert((a + b).drop_last() =~= a + b.drop_last());
        assert((a + b).last() == b.last());
    }
}

proof fn lemma_occurrences_short<T>(s: Seq<T>, x: T)
    requires
        s.len() <= 1,
    ensures
        occurrences(s, x) == if s.len() == 1 && s[0] == x {
            1nat
        } else {
            0
        },
{
    if s.len() == 1 {
        assert(s.drop_last().len() == 0);
        assert(occurrences(s.drop_last(), x) == 0);
        assert(s.last() == s[0]);
    } else {
        assert(occurrences(s, x) == 0);
    }
}

/// A half-edge `(y, w, id)` occurs at `x` as often as `(x, w, id)` occurs
/// at `y`.
pub proof fn lemma_adjacency_paired<K>(edges: Seq<(usize, usize, K, usize)>, x: usize, y: usize, w: K, id: usize)
    ensures
        occurrences(adjacency(edges, x as int), (y, w, id)) == occurrences(
            adjacency(edges, y as int),
            (x, w, id),
        ),
    decreases edges.len(),
{
    if edges.len() > 0 {
        let s = edges.drop_last();
        let t = edges.last();
        lemma_adjacency_paired(s, x, y, w, id);
        lemma_occurrences_concat(adjacency(s, x as int), contribution(t, x as int), (y, w, id));
        lemma_occurrences_concat(adjacency(s, y as int), contribution(t, y as int), (x, w, id));
        lemma_occurrences_concat(leaving_first(t, x as int), leaving_second(t, x as int), (y, w, id));
        lemma_occurrences_concat(leaving_first(t, y as int), leaving_second(t, y as int), (x, w, id));
        lemma_occurrences_short(leaving_first(t, x as int), (y, w, id));
        lemma_occurrences_short(leaving_second(t, x as int), (y, w, id));
        lemma_occurrences_short(leaving_first(t, y as int), (x, w, id));
        lemma_occurrences_short(leaving_second(t, y as int), (x, w, id));
    }
}

/// Builds the offsets and half-edges of `n` vertices from `edges` by
/// counting sort: degrees, prefix sums, then one scatter pass in input order.
#[verifier::rlimit(40)]
pub fn scatter<K: Copy>(edges: &[(usize, usize, K, usize)], n: usize) -> (res: (
    Vec<usize>,
    Vec<(usize, K, usize)>,
))
    requires
        n < usize::MAX,
        edges@.len() <= usize::MAX / 2,
        endpoints_below(edges@, n as int),
    ensures
        csr_shape(res.0@, res.1@),
        res.0@.len() == n + 1,
        res.1@.len() == 2 * edges@.len(),
        forall|x: int|
            0 <= x < n ==> #[trigger] res.1@.subrange(res.0@[x] as int, res.0@[x + 1] as int)
                == adjacency(edges@, x),
{
    let m = edges.len();
    // degrees
    let mut deg: Vec<usize> = Vec::new();
    let mut x: usize = 0;
    while x < n
        invariant
            x <= n,
            deg@.len() == x,
            forall|y: int| 0 <= y < x ==> deg@[y] == 0,
        decreases n - x,
    {
        deg.push(0);
        x = x + 1;
    }
    let mut k: usize = 0;
    while k < m
        invariant
            m == edges@.len(),
            m <= usize::MAX / 2,
            endpoints_below(edges@, n as int),
            k <= m,
            deg@.len() == n,
            forall|y: int| 0 <= y < n ==> #[trigger] deg@[y] == adjacency(edges@.take(k as int), y).len(),
        decreases m - k,
    {
        let a = edges[k].0;
        let b = edges[k].1;
        proof {
            assert(edges@.take(k + 1).drop_last() == edges@.take(k as int));
            lemma_adjacency_len_bound(edges@.take(k as int), a as int);
            lemma_adjacency_len_bound(edges@.take(k as int), b as int);
        }
        let da = deg[a];
        deg.set(a, da + 1);
        let db = deg[b];
        deg.set(b, db + 1);
        k = k + 1;
        proof {
            assert forall|y: int| 0 <= y < n implies #[trigger] deg@[y] == adjacency(
                edges@.take(k as int),
                y,
            ).len() by {
                assert(edges@.take(k as int).last() == edges@[k - 1]);
            }
        }
    }
    proof {
        assert(edges@.take(m as int) == edges@);
        lemma_degree_total(edges@, n as int);
    }
    // prefix sums, and a write cursor for each vertex
    let mut v: Vec<usize> = Vec::new();
    let mut cursor: Vec<usize> = Vec::new();
    v.push(0);
    let mut sum: usize = 0;
    x = 0;
    while x < n
        invariant
            x <= n,
            endpoints_below(edges@, n as int),
            m == edges@.len(),
            degree_total(edges@, n as int) == 2 * m,
            m <= usize::MAX / 2,
            deg@.len() == n,
            forall|y: int| 0 <= y < n ==> #[trigger] deg@[y] == adjacency(edges@, y).len(),
            v@.len() == x + 1,
            cursor@.len() == x,
            v@[0] == 0,
            sum == v@[x as int],
            sum == degree_total(edges@, x as int),
            forall|y: int| 0 <= y < x ==> #[trigger] v@[y + 1] == v@[y] + deg@[y],
            forall|y: int| 0 <= y < x ==> #[trigger] cursor@[y] == v@[y],
            forall|i: int, j: int| 0 <= i <= j <= x ==> v@[i] <= v@[j],
        decreases n - x,
    {
        proof {
            lemma_degree_total_monotone(edges@, x + 1, n as int);
        }
        cursor.push(sum);
        sum = sum + deg[x];
        v.push(sum);
        x = x + 1;
    }
    // the half-edge table, filled in below
    let mut e: Vec<(usize, K, usize)> = Vec::new();
    k = 0;
    while k < m
        invariant
            m == edges@.len(),
            k <= m,
            e@.len() == 2 * k,
        decreases m - k,
    {
        let w = edges[k].2;
        e.push((0, w, 0));
        e.push((0, w, 0));
        k = k + 1;
    }
    proof {
        assert(v@.last() == v@[n as int]);
        assert forall|y: int| 0 <= y < n implies #[trigger] cursor@[y] == v@[y] + adjacency(
            edges@.take(0),
            y,
        ).len() && e@.subrange(v@[y] as int, cursor@[y] as int) == adjacency(edges@.take(0), y) by {
            assert(edges@.take(0).len() == 0);
            assert(e@.subrange(v@[y] as int, cursor@[y] as int) =~= Seq::empty());
        }
    }
    k = 0;
    while k < m
        invariant
            m == edges@.len(),
            endpoints_below(edges@, n as int),
            k <= m,
            e@.len() == 2 * m,
            v@.len() == n + 1,
            v@[n as int] == 2 * m,
            cursor@.len() == n,
            forall|i: int, j: int| 0 <= i <= j <= n ==> v@[i] <= v@[j],
            forall|y: int| 0 <= y < n ==> v@[y] <= #[trigger] cursor@[y] <= v@[y + 1],
            forall|y: int| 0 <= y < n ==> #[trigger] v@[y + 1] == v@[y] + adjacency(edges@, y).len(),
            forall|y: int|
                0 <= y < n ==> #[trigger] cursor@[y] == v@[y] + adjacency(edges@.take(k as int), y).len(),
            forall|y: int|
                0 <= y < n ==> #[trigger] e@.subrange(v@[y] as int, cursor@[y] as int) == adjacency(
                    edges@.take(k as int),
                    y,
                ),
        decreases m - k,
    {
        let a = edges[k].0;
        let b = edges[k].1;
        let w = edges[k].2;
        let id = edges[k].3;
        let ghost t = edges@[k as int];
        let ghost pre = edges@.take(k as int);
        let ghost post = edges@.take(k + 1);
        proof {
            assert(post.drop_last() == pre);
            assert(post.last() == t);
            lemma_adjacency_prefix_len(edges@, k + 1, a as int);
            lemma_adjacency_prefix_len(edges@, k + 1, b as int);
            assert(adjacency(post, a as int) == adjacency(pre, a as int) + contribution(t, a as int));
            assert(adjacency(post, b as int) == adjacency(pre, b as int) + contribution(t, b as int));
            assert(edges@.take(k + 1) == post);
            assert(v@[a as int + 1] <= v@[n as int]);
            assert(v@[b as int + 1] <= v@[n as int]);
        }
        let ghost e0 = e@;
        let ghost c0 = cursor@;
        let pa = cursor[a];
        e.set(pa, (b, w, id));
        cursor.set(a, pa + 1);
        proof {
            assert forall|y: int| 0 <= y < n implies #[trigger] e@.subrange(
                v@[y] as int,
                cursor@[y] as int,
            ) == adjacency(pre, y) + leaving_first(t, y) && cursor@[y] == v@[y] + adjacency(pre, y).len()
                + leaving_first(t, y).len() by {
                if y == a {
                    assert(e@.subrange(v@[y] as int, cursor@[y] as int) =~= e0.subrange(
                        v@[y] as int,
                        c0[y] as int,
                    ).push((b, w, id)));
                } else if y < a {
                    assert(v@[y + 1] <= v@[a as int]);
                    assert(e@.subrange(v@[y] as int, cursor@[y] as int) =~= e0.subrange(
                        v@[y] as int,
                        c0[y] as int,
                    ));
                } else {
                    assert(v@[a + 1] <= v@[y]);
                    assert(e@.subrange(v@[y] as int, cursor@[y] as int) =~= e0.subrange(
                        v@[y] as int,
                        c0[y] as int,
                    ));
                }
            }
        }
        let ghost e1 = e@;
        let ghost c1 = cursor@;
        let pb = cursor[b];
        e.set(pb, (a, w, id));
        cursor.set(b, pb + 1);
        k = k + 1;
        proof {
            assert forall|y: int| 0 <= y < n implies #[trigger] e@.subrange(
                v@[y] as int,
                cursor@[y] as int,
            ) == adjacency(post, y) && cursor@[y] == v@[y] + adjacency(post, y).len() by {
                assert(adjacency(post, y) == adjacency(pre, y) + leaving_first(t, y) + leaving_second(t, y));
                if y == b {
                    assert(e@.subrange(v@[y] as int, cursor@[y] as int) =~= e1.subrange(
                        v@[y] as int,
                        c1[y] as int,
                    ).push((a, w, id)));
                } else if y < b {
                    assert(v@[y + 1] <= v@[b as int]);
                    assert(e@.subrange(v@[y] as int, cursor@[y] as int) =~= e1.subrange(
                        v@[y] as int,
                        c1[y] as int,
                    ));
                } else {
                    assert(v@[b + 1] <= v@[y]);
                    assert(e@.subrange(v@[y] as int, cursor@[y] as int) =~= e1.subrange(
                        v@[y] as int,
                        c1[y] as int,
                    ));
                }
            }
        }
    }
    proof {
        assert(edges@.take(m as int) == edges@);
        assert(v@.last() == v@[n as int]);
        assert forall|y: int| 0 <= y < n implies #[trigger] e@.subrange(v@[y] as int, v@[y + 1] as int)
            == adjacency(edges@, y) by {
            assert(cursor@[y] == v@[y + 1]);
        }
    }
    (v, e)
}

} // verus!
