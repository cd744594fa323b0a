//! Clustering of chunk hashes with a disjoint-set forest.
//!
//! Every hash is a vertex whose parent is another vertex or itself; a vertex
//! that is its own parent leads a cluster, and every vertex belongs to the
//! cluster of the leader its parents lead to. Clusters are merged along
//! edges between nearby hashes, Kruskal style.

use vstd::prelude::*;
use std::collections::HashMap;
use vstd::std_specs::iter::IteratorSpec;
use crate::index::store::lemma_take_succ_contains;

verus! {

broadcast use vstd::std_specs::hash::group_hash_axioms;

/// The largest hash distance an edge search looks across.
pub const MAX_WEIGHT_EDGE: u32 = 256;

/// A vertex of the forest: its parent and its rank.
pub struct Vertex {
    parent: u32,
    rank: u32,
}

impl Vertex {
    /// The parent of the vertex.
    pub closed spec fn spec_parent(&self) -> u32 {
        self.parent
    }

    /// The rank of the vertex.
    pub closed spec fn spec_rank(&self) -> u32 {
        self.rank
    }

    /// A vertex that leads its own cluster of rank one.
    pub fn new(key: u32) -> (r: Vertex)
        ensures
            r.spec_parent() == key,
            r.spec_rank() == 1,
    {
        Vertex { parent: key, rank: 1 }
    }
}

/// An edge between two hashes, weighted by their distance.
pub struct Edge {
    weight: u32,
    hash_chunk_1: u32,
    hash_chunk_2: u32,
}

impl Edge {
    /// The weight and the two ends of the edge.
    pub closed spec fn parts(&self) -> (u32, u32, u32) {
        (self.weight, self.hash_chunk_1, self.hash_chunk_2)
    }
}

/// The vertex reached from `x` by following `n` parents.
pub open spec fn follow(p: Map<u32, u32>, x: u32, n: nat) -> u32
    decreases n,
{
    if n == 0 {
        x
    } else {
        follow(p, p[x], (n - 1) as nat)
    }
}

/// `r` leads the cluster of `x`: it is its own parent and following the
/// parents from `x` reaches it.
pub open spec fn leads(p: Map<u32, u32>, x: u32, r: u32) -> bool {
    &&& p[r] == r
    &&& exists|n: nat| follow(p, x, n) == r
}

/// The leader of the cluster of `x`.
pub open spec fn leader(p: Map<u32, u32>, x: u32) -> u32 {
    choose|r: u32| leads(p, x, r)
}

/// Every parent of a vertex is a vertex.
pub open spec fn closed(p: Map<u32, u32>) -> bool {
    forall|x: u32| p.contains_key(x) ==> p.contains_key(#[trigger] p[x])
}

/// The distance between two hashes.
pub open spec fn dist(a: u32, b: u32) -> u32 {
    if a >= b {
        (a - b) as u32
    } else {
        (b - a) as u32
    }
}

/// The edge search from `h1` over the candidates `o..=hi`: while the
/// current end `h2` is a vertex closer to `h1` than the running minimum
/// `min`, the minimum takes its distance and the end moves to the
/// candidate; otherwise nothing changes.
pub open spec fn scan_edge(vertices: Set<u32>, h1: u32, o: int, hi: int, min: u32, h2: u32) -> (u32, u32)
    decreases hi + 1 - o,
{
    if o > hi {
        (min, h2)
    } else if vertices.contains(h2) && dist(h2, h1) < min {
        scan_edge(vertices, h1, o + 1, hi, dist(h2, h1), o as u32)
    } else {
        scan_edge(vertices, h1, o + 1, hi, min, h2)
    }
}

/// The first candidate of the edge search from `h1`.
pub open spec fn scan_lo(h1: u32) -> int {
    h1 - if h1 < MAX_WEIGHT_EDGE { h1 } else { MAX_WEIGHT_EDGE }
}

/// The last candidate of the edge search from `h1`.
pub open spec fn scan_hi(h1: u32) -> int {
    h1 + if u32::MAX - h1 < MAX_WEIGHT_EDGE { u32::MAX - h1 } else { MAX_WEIGHT_EDGE as int }
}

/// The weight and second end of the edge that the search from `h1` gives,
/// starting from the end `0` at the largest weight.
pub open spec fn edge_for(vertices: Set<u32>, h1: u32) -> (u32, u32) {
    scan_edge(vertices, h1, scan_lo(h1), scan_hi(h1), u32::MAX, 0)
}

/// The hashes of `pairs`.
pub open spec fn pair_keys(pairs: Seq<(u32, Vec<u8>)>) -> Set<u32> {
    pairs.map_values(|e: (u32, Vec<u8>)| e.0).to_set()
}

/// The vertices that the edge searches from the hashes of `pairs` join, in
/// order: each hash with the end its search over `vertices` finds.
pub open spec fn search_edges(vertices: Set<u32>, pairs: Seq<(u32, Vec<u8>)>) -> Seq<(u32, u32)> {
    pairs.map_values(|e: (u32, Vec<u8>)| (e.0, edge_for(vertices, e.0).1))
}

/// `a` and `b` share a leader in `p`, or one of the first `bound` of
/// `edges` joins them.
pub open spec fn one_step(p: Map<u32, u32>, edges: Seq<(u32, u32)>, bound: int, a: u32, b: u32) -> bool {
    ||| leader(p, a) == leader(p, b)
    ||| exists|j: int| 0 <= j < bound && (#[trigger] edges[j] == (a, b) || edges[j] == (b, a))
}

/// Each vertex of `w` is one step from the next.
pub open spec fn is_walk(p: Map<u32, u32>, edges: Seq<(u32, u32)>, bound: int, w: Seq<u32>) -> bool {
    forall|k: int| 0 <= k < w.len() - 1 ==> #[trigger] one_step(p, edges, bound, w[k], w[k + 1])
}

/// A walk of steps leads from `a` to `b`: the leaders of `p` and the first
/// `bound` of `edges` connect them.
pub open spec fn connected(p: Map<u32, u32>, edges: Seq<(u32, u32)>, bound: int, a: u32, b: u32) -> bool {
    exists|w: Seq<u32>| #[trigger] is_walk(p, edges, bound, w) && w.len() > 0 && w[0] == a && w.last() == b
}

/// One step is a walk.
proof fn lemma_step_connected(p: Map<u32, u32>, edges: Seq<(u32, u32)>, bound: int, a: u32, b: u32)
    requires
        one_step(p, edges, bound, a, b),
    ensures
        connected(p, edges, bound, a, b),
{
    let w = seq![a, b];
    assert(w[0] == a && w[1] == b);
    assert(is_walk(p, edges, bound, w));
}

/// A walk over fewer edges is a walk over more.
proof fn lemma_connected_more(p: Map<u32, u32>, edges: Seq<(u32, u32)>, bound: int, more: int, a: u32, b: u32)
    requires
        connected(p, edges, bound, a, b),
        bound <= more,
    ensures
        connected(p, edges, more, a, b),
{
    let w = choose|w: Seq<u32>| #[trigger] is_walk(p, edges, bound, w) && w.len() > 0 && w[0] == a && w.last() == b;
    assert forall|k: int| 0 <= k < w.len() - 1 implies #[trigger] one_step(p, edges, more, w[k], w[k + 1]) by {
        assert(one_step(p, edges, bound, w[k], w[k + 1]));
        if leader(p, w[k]) != leader(p, w[k + 1]) {
            let j = choose|j: int| 0 <= j < bound && (#[trigger] edges[j] == (w[k], w[k + 1]) || edges[j] == (
                w[k + 1],
                w[k],
            ));
            assert(edges[j] == (w[k], w[k + 1]) || edges[j] == (w[k + 1], w[k]));
        }
    }
    assert(is_walk(p, edges, more, w));
}

/// Walks run backwards.
proof fn lemma_connected_symm(p: Map<u32, u32>, edges: Seq<(u32, u32)>, bound: int, a: u32, b: u32)
    requires
        connected(p, edges, bound, a, b),
    ensures
        connected(p, edges, bound, b, a),
{
    let w = choose|w: Seq<u32>| #[trigger] is_walk(p, edges, bound, w) && w.len() > 0 && w[0] == a && w.last() == b;
    let v = w.reverse();
    assert forall|k: int| 0 <= k < v.len() - 1 implies #[trigger] one_step(p, edges, bound, v[k], v[k + 1]) by {
        let m = w.len() - 2 - k;
        assert(one_step(p, edges, bound, w[m], w[m + 1]));
        assert(v[k] == w[m + 1]);
        assert(v[k + 1] == w[m]);
        if leader(p, w[m]) != leader(p, w[m + 1]) {
            let j = choose|j: int| 0 <= j < bound && (#[trigger] edges[j] == (w[m], w[m + 1]) || edges[j] == (
                w[m + 1],
                w[m],
            ));
            assert(edges[j] == (v[k], v[k + 1]) || edges[j] == (v[k + 1], v[k]));
        }
    }
    assert(is_walk(p, edges, bound, v));
    assert(v[0] == b);
    assert(v.last() == a);
}

/// Walks join end to end.
proof fn lemma_connected_trans(p: Map<u32, u32>, edges: Seq<(u32, u32)>, bound: int, a: u32, b: u32, c: u32)
    requires
        connected(p, edges, bound, a, b),
        connected(p, edges, bound, b, c),
    ensures
        connected(p, edges, bound, a, c),
{
    let w1 = choose|w: Seq<u32>| #[trigger] is_walk(p, edges, bound, w) && w.len() > 0 && w[0] == a && w.last() == b;
    let w2 = choose|w: Seq<u32>| #[trigger] is_walk(p, edges, bound, w) && w.len() > 0 && w[0] == b && w.last() == c;
    let w = w1 + w2.skip(1);
    let n1 = w1.len() as int;
    assert forall|k: int| 0 <= k < w.len() - 1 implies #[trigger] one_step(p, edges, bound, w[k], w[k + 1]) by {
        if k < n1 - 1 {
            assert(w[k] == w1[k] && w[k + 1] == w1[k + 1]);
            assert(one_step(p, edges, bound, w1[k], w1[k + 1]));
        } else {
            let m = k - n1 + 1;
            assert(w[k] == w2[m]);
            assert(w[k + 1] == w2[m + 1]);
            assert(one_step(p, edges, bound, w2[m], w2[m + 1]));
        }
    }
    assert(is_walk(p, edges, bound, w));
    if w2.len() == 1 {
        assert(w.last() == w1.last());
    } else {
        assert(w.last() == w2.last());
    }
}

/// Merging the clusters of `h1` and `h2`, which edge `i` joins, keeps every
/// pair of vertices that share a leader connected, now over one more edge.
proof fn lemma_union_connects(
    p0: Map<u32, u32>,
    es: Seq<(u32, u32)>,
    i: int,
    pa: Map<u32, u32>,
    pn: Map<u32, u32>,
    dom: Set<u32>,
    h1: u32,
    h2: u32,
    low: u32,
    top: u32,
)
    requires
        0 <= i < es.len(),
        es[i] == (h1, h2),
        dom.contains(h1),
        dom.contains(h2),
        (low == leader(pa, h1) && top == leader(pa, h2)) || (low == leader(pa, h2) && top == leader(pa, h1)),
        forall|x: u32, y: u32|
            #![trigger leader(pa, x), leader(pa, y)]
            dom.contains(x) && dom.contains(y) && leader(pa, x) == leader(pa, y) ==> connected(p0, es, i, x, y),
        forall|x: u32| #[trigger] dom.contains(x) ==> leader(pn, x) == if leader(pa, x) == low {
            top
        } else {
            leader(pa, x)
        },
    ensures
        forall|x: u32, y: u32|
            #![trigger leader(pn, x), leader(pn, y)]
            dom.contains(x) && dom.contains(y) && leader(pn, x) == leader(pn, y) ==> connected(p0, es, i + 1, x, y),
{
    assert forall|x: u32, y: u32|
        #![trigger leader(pn, x), leader(pn, y)]
        dom.contains(x) && dom.contains(y) && leader(pn, x) == leader(pn, y) implies connected(p0, es, i + 1, x, y) by {
        let lx = leader(pa, x);
        let ly = leader(pa, y);
        if lx == ly {
            lemma_connected_more(p0, es, i, i + 1, x, y);
        } else {
            assert(one_step(p0, es, i + 1, h1, h2)) by {
                assert(es[i] == (h1, h2));
            }
            lemma_step_connected(p0, es, i + 1, h1, h2);
            let s1 = leader(pa, h1);
            let s2 = leader(pa, h2);
            if lx == s1 {
                assert(ly == s2);
                assert(leader(pa, x) == leader(pa, h1));
                assert(leader(pa, h2) == leader(pa, y));
                lemma_connected_more(p0, es, i, i + 1, x, h1);
                lemma_connected_more(p0, es, i, i + 1, h2, y);
                lemma_connected_trans(p0, es, i + 1, x, h1, h2);
                lemma_connected_trans(p0, es, i + 1, x, h2, y);
            } else {
                assert(lx == s2 && ly == s1);
                assert(leader(pa, x) == leader(pa, h2));
                assert(leader(pa, h1) == leader(pa, y));
                lemma_connected_more(p0, es, i, i + 1, x, h2);
                lemma_connected_more(p0, es, i, i + 1, h1, y);
                lemma_connected_symm(p0, es, i + 1, h1, h2);
                lemma_connected_trans(p0, es, i + 1, x, h2, h1);
                lemma_connected_trans(p0, es, i + 1, x, h1, y);
            }
        }
    }
}

/// Following `a` then `b` parents is following `a + b` parents.
proof fn lemma_follow_add(p: Map<u32, u32>, x: u32, a: nat, b: nat)
    ensures
        follow(p, x, a + b) == follow(p, follow(p, x, a), b),
    decreases a,
{
    if a > 0 {
        lemma_follow_add(p, p[x], (a - 1) as nat, b);
    }
}

/// A vertex that is its own parent stays put.
proof fn lemma_follow_root(p: Map<u32, u32>, r: u32, n: nat)
    requires
        p[r] == r,
    ensures
        follow(p, r, n) == r,
    decreases n,
{
    if n > 0 {
        lemma_follow_root(p, r, (n - 1) as nat);
    }
}

/// Following parents from a vertex of a closed forest stays among its
/// vertices.
proof fn lemma_follow_in_dom(p: Map<u32, u32>, x: u32, n: nat)
    requires
        closed(p),
        p.contains_key(x),
    ensures
        p.contains_key(follow(p, x, n)),
    decreases n,
{
    if n > 0 {
        lemma_follow_in_dom(p, p[x], (n - 1) as nat);
    }
}

/// A cluster has one leader.
pub proof fn lemma_leads_unique(p: Map<u32, u32>, x: u32, r1: u32, r2: u32)
    requires
        leads(p, x, r1),
        leads(p, x, r2),
    ensures
        r1 == r2,
{
    let n1 = choose|n: nat| follow(p, x, n) == r1;
    let n2 = choose|n: nat| follow(p, x, n) == r2;
    if n1 <= n2 {
        lemma_follow_add(p, x, n1, (n2 - n1) as nat);
        lemma_follow_root(p, r1, (n2 - n1) as nat);
    } else {
        lemma_follow_add(p, x, n2, (n1 - n2) as nat);
        lemma_follow_root(p, r2, (n1 - n2) as nat);
    }
}

/// Moving `h` directly under its leader `r` keeps every vertex's leader.
pub proof fn lemma_compress_keeps_leaders(p: Map<u32, u32>, h: u32, r: u32, x: u32, s: u32)
    requires
        closed(p),
        p.contains_key(h),
        p.contains_key(x),
        leads(p, h, r),
        leads(p, x, s),
    ensures
        leads(p.insert(h, r), x, s),
{
    let n = choose|n: nat| follow(p, x, n) == s;
    lemma_compress_path(p, h, r, x, s, n);
}

/// The induction behind [`lemma_compress_keeps_leaders`], along a path of
/// `n` parents from `x` to its leader `s`.
proof fn lemma_compress_path(p: Map<u32, u32>, h: u32, r: u32, x: u32, s: u32, n: nat)
    requires
        closed(p),
        p.contains_key(h),
        p.contains_key(x),
        leads(p, h, r),
        p[s] == s,
        follow(p, x, n) == s,
    ensures
        leads(p.insert(h, r), x, s),
    decreases n,
{
    let p2 = p.insert(h, r);
    if s == h {
        lemma_follow_root(p, h, 0);
        assert(leads(p, h, h));
        lemma_leads_unique(p, h, r, h);
        assert(p2 =~= p);
    }
    if x == h {
        assert(leads(p, h, s));
        lemma_leads_unique(p, h, r, s);
        assert(p2[x] == r);
        assert(follow(p2, r, 0) == r);
        assert(follow(p2, x, 1) == follow(p2, p2[x], 0));
        assert(follow(p2, x, 1) == r);
        assert(p2[s] == s);
    } else if n == 0 {
        assert(follow(p2, x, 0) == s);
        assert(p2[s] == s);
    } else {
        lemma_compress_path(p, h, r, p[x], s, (n - 1) as nat);
        let m = choose|m: nat| follow(p2, p[x], m) == s;
        assert(follow(p2, x, m + 1) == s);
    }
}

/// Compressing a path after the leaders are kept keeps them again.
proof fn lemma_compress_leaders(p0: Map<u32, u32>, p1: Map<u32, u32>, h: u32, root: u32)
    requires
        closed(p1),
        p1.contains_key(h),
        p1.dom() == p0.dom(),
        leads(p1, h, root),
        forall|x: u32| #[trigger] p1.contains_key(x) ==> leads(p1, x, leader(p1, x)),
        forall|x: u32| #[trigger] p0.contains_key(x) ==> leader(p1, x) == leader(p0, x),
    ensures
        forall|x: u32| #[trigger] p0.contains_key(x) ==> leader(p1.insert(h, root), x) == leader(p0, x),
{
    let p2 = p1.insert(h, root);
    assert forall|x: u32| #[trigger] p0.contains_key(x) implies leader(p2, x) == leader(p0, x) by {
        assert(p1.contains_key(x));
        lemma_compress_keeps_leaders(p1, h, root, x, leader(p1, x));
        lemma_leads_unique(p2, x, leader(p2, x), leader(p1, x));
    }
}

/// Putting the root `low` under the root `top` moves the cluster of `low`
/// into the cluster of `top` and changes no other vertex's leader.
pub proof fn lemma_union_leaders(p: Map<u32, u32>, low: u32, top: u32, x: u32, s: u32)
    requires
        closed(p),
        p.contains_key(low),
        p.contains_key(top),
        p.contains_key(x),
        low != top,
        p[low] == low,
        p[top] == top,
        leads(p, x, s),
    ensures
        leads(p.insert(low, top), x, if s == low { top } else { s }),
{
    let n = choose|n: nat| follow(p, x, n) == s;
    lemma_union_path(p, low, top, x, s, n);
}

/// The induction behind [`lemma_union_leaders`], along a path of `n`
/// parents from `x` to its leader `s`.
proof fn lemma_union_path(p: Map<u32, u32>, low: u32, top: u32, x: u32, s: u32, n: nat)
    requires
        closed(p),
        p.contains_key(low),
        p.contains_key(top),
        p.contains_key(x),
        low != top,
        p[low] == low,
        p[top] == top,
        p[s] == s,
        follow(p, x, n) == s,
    ensures
        leads(p.insert(low, top), x, if s == low { top } else { s }),
    decreases n,
{
    let p2 = p.insert(low, top);
    if x == low {
        lemma_follow_root(p, low, n);
        assert(p2[low] == top);
        assert(follow(p2, top, 0) == top);
        assert(follow(p2, x, 1) == follow(p2, p2[x], 0));
    } else if n == 0 {
        assert(follow(p2, x, 0) == s);
    } else {
        assert(p.contains_key(p[x]));
        lemma_union_path(p, low, top, p[x], s, (n - 1) as nat);
        let t = if s == low { top } else { s };
        let m = choose|m: nat| follow(p2, p[x], m) == t;
        assert(follow(p2, x, m + 1) == t);
    }
}

/// The hashes of one more pair.
proof fn lemma_pair_keys_push(pairs: Seq<(u32, Vec<u8>)>, i: int)
    requires
        0 <= i < pairs.len(),
    ensures
        pair_keys(pairs.take(i + 1)) == pair_keys(pairs.take(i)).insert(pairs[i].0),
{
    let t = pairs.take(i + 1).map_values(|e: (u32, Vec<u8>)| e.0);
    let t0 = pairs.take(i).map_values(|e: (u32, Vec<u8>)| e.0);
    assert(t =~= t0.push(pairs[i].0));
    assert forall|k: u32| t.to_set().contains(k) <==> t0.to_set().contains(k) || k == pairs[i].0 by {
        if t.to_set().contains(k) {
            let j = choose|j: int| 0 <= j < t.len() && t[j] == k;
            if j < t0.len() {
                assert(t0[j] == k);
            }
        }
        if t0.to_set().contains(k) {
            let j = choose|j: int| 0 <= j < t0.len() && t0[j] == k;
            assert(t[j] == k);
        }
        if k == pairs[i].0 {
            assert(t[t0.len() as int] == k);
        }
    }
    assert(t.to_set() =~= t0.to_set().insert(pairs[i].0));
}

/// A leader is a root and leads its own cluster.
proof fn lemma_leader_is_root(p: Map<u32, u32>, x: u32)
    requires
        leads(p, x, leader(p, x)),
    ensures
        p[leader(p, x)] == leader(p, x),
        leader(p, leader(p, x)) == leader(p, x),
{
    let r = leader(p, x);
    assert(follow(p, r, 0) == r);
    assert(leads(p, r, r));
    lemma_leads_unique(p, r, leader(p, r), r);
}

/// A root stays a root and its own leader when the leaders are kept and
/// every vertex keeps its parent or moves under its leader.
proof fn old_root_stays(pa: Map<u32, u32>, pb: Map<u32, u32>, s: u32)
    requires
        pa.contains_key(s),
        pa[s] == s,
        leader(pa, s) == s,
        pb.dom() == pa.dom(),
        forall|x: u32| #[trigger] pa.contains_key(x) ==> leader(pb, x) == leader(pa, x),
        forall|x: u32| #[trigger] pb.contains_key(x) ==> pb[x] == pa[x] || pb[x] == leader(pa, x),
    ensures
        pb[s] == s,
        leader(pb, s) == s,
{
    assert(pb.contains_key(s));
    assert(pa.contains_key(s));
}

/// The sum of the distances in `row`, wrapping as unchecked `u32`
/// addition does.
pub open spec fn row_sum(row: Seq<u32>) -> u32
    decreases row.len(),
{
    if row.len() == 0 {
        0
    } else {
        row_sum(row.drop_last()).wrapping_add(row.last())
    }
}

/// The member of a cluster chosen to lead it: the first member whose
/// distances to all members sum least, if that sum is below `u32::MAX`,
/// and `0` otherwise. `dist[i][j]` is the distance between the data of the
/// members `cluster[i]` and `cluster[j]`.
pub open spec fn cluster_leader(cluster: Seq<u32>, dist: Seq<Seq<u32>>) -> u32 {
    if exists|k: int| 0 <= k < cluster.len() && #[trigger] row_sum(dist[k]) < u32::MAX {
        let k = choose|k: int|
            0 <= k < cluster.len() && row_sum(dist[k]) < u32::MAX && (forall|j: int|
                0 <= j < cluster.len() ==> row_sum(dist[k]) <= #[trigger] row_sum(dist[j])) && (forall|j: int|
                0 <= j < k ==> row_sum(dist[k]) < #[trigger] row_sum(dist[j]));
        cluster[k]
    } else {
        0
    }
}

/// The total of the distances in `row`, as a mathematical sum.
pub open spec fn row_total(row: Seq<u32>) -> int {
    row.fold_left(0int, |a: int, x: u32| a + x)
}

/// A row's wrapping sum is its total modulo 2^32: the sum that unchecked
/// `u32` additions give.
pub proof fn lemma_row_sum_is_total(row: Seq<u32>)
    ensures
        row_total(row) >= 0,
        row_sum(row) as int == row_total(row) % 0x1_0000_0000,
    decreases row.len(),
{
    if row.len() > 0 {
        let d = row.drop_last();
        lemma_row_sum_is_total(d);
        let m: int = 0x1_0000_0000;
        let t = row_total(d);
        let x = row.last() as int;
        let w = row_sum(d) as int;
        assert(row_total(row) == t + x);
        vstd::arithmetic::div_mod::lemma_add_mod_noop(t, x, m);
        vstd::arithmetic::div_mod::lemma_small_mod(x as nat, m as nat);
        vstd::arithmetic::div_mod::lemma_mod_mod(t, m, 1);
        if w + x >= m {
            vstd::arithmetic::div_mod::lemma_small_mod((w + x - m) as nat, m as nat);
            vstd::arithmetic::div_mod::lemma_mod_add_multiples_vanish(w + x - m, m);
        } else {
            vstd::arithmetic::div_mod::lemma_small_mod((w + x) as nat, m as nat);
        }
    }
}

/// The chosen leader of a cluster is the first member whose distances to all
/// members sum least: no member's sum is smaller, every earlier member's sum
/// is larger, and the sum is below `u32::MAX`. When every sum is `u32::MAX`,
/// the leader is `0`.
pub proof fn lemma_cluster_leader_least_total(cluster: Seq<u32>, rows: Seq<Seq<u32>>)
    ensures
        (exists|k: int| 0 <= k < cluster.len() && #[trigger] row_sum(rows[k]) < u32::MAX) ==> exists|k: int|
            0 <= k < cluster.len() && cluster_leader(cluster, rows) == cluster[k] && #[trigger] row_sum(rows[k])
                < u32::MAX && (forall|j: int| 0 <= j < cluster.len() ==> row_sum(rows[k]) <= #[trigger] row_sum(rows[j]))
                && (forall|j: int| 0 <= j < k ==> row_sum(rows[k]) < #[trigger] row_sum(rows[j])),
        !(exists|k: int| 0 <= k < cluster.len() && #[trigger] row_sum(rows[k]) < u32::MAX) ==> cluster_leader(
            cluster,
            rows,
        ) == 0,
{
    if exists|k: int| 0 <= k < cluster.len() && #[trigger] row_sum(rows[k]) < u32::MAX {
        let k0 = choose|k: int| 0 <= k < cluster.len() && #[trigger] row_sum(rows[k]) < u32::MAX;
        let b = lemma_first_least_row(cluster.len() as int, rows, k0);
        let k = choose|k: int|
            0 <= k < cluster.len() && row_sum(rows[k]) < u32::MAX && (forall|j: int|
                0 <= j < cluster.len() ==> row_sum(rows[k]) <= #[trigger] row_sum(rows[j])) && (forall|j: int|
                0 <= j < k ==> row_sum(rows[k]) < #[trigger] row_sum(rows[j]));
        assert(cluster_leader(cluster, rows) == cluster[k]);
        assert(row_sum(rows[k]) < u32::MAX);
    }
}

/// Among the first `n` rows, one of which (`k0`) sums below `u32::MAX`,
/// there is a first row of least sum.
proof fn lemma_first_least_row(n: int, rows: Seq<Seq<u32>>, k0: int) -> (b: int)
    requires
        0 <= k0 < n,
        row_sum(rows[k0]) < u32::MAX,
    ensures
        0 <= b < n,
        row_sum(rows[b]) < u32::MAX,
        forall|j: int| 0 <= j < n ==> row_sum(rows[b]) <= #[trigger] row_sum(rows[j]),
        forall|j: int| 0 <= j < b ==> row_sum(rows[b]) < #[trigger] row_sum(rows[j]),
    decreases n,
{
    if n == k0 + 1 {
        if k0 == 0 {
            0
        } else {
            let c = lemma_first_least_row_any(k0, rows);
            if row_sum(rows[c]) <= row_sum(rows[k0]) {
                c
            } else {
                k0
            }
        }
    } else {
        let b = lemma_first_least_row(n - 1, rows, k0);
        if row_sum(rows[n - 1]) < row_sum(rows[b]) {
            n - 1
        } else {
            b
        }
    }
}

/// Among the first `n > 0` rows there is a first row of least sum.
proof fn lemma_first_least_row_any(n: int, rows: Seq<Seq<u32>>) -> (b: int)
    requires
        0 < n,
    ensures
        0 <= b < n,
        forall|j: int| 0 <= j < n ==> row_sum(rows[b]) <= #[trigger] row_sum(rows[j]),
        forall|j: int| 0 <= j < b ==> row_sum(rows[b]) < #[trigger] row_sum(rows[j]),
    decreases n,
{
    if n == 1 {
        0
    } else {
        let b = lemma_first_least_row_any(n - 1, rows);
        if row_sum(rows[n - 1]) < row_sum(rows[b]) {
            n - 1
        } else {
            b
        }
    }
}

/// Chooses the leader of `cluster` from the distances between the data of
/// its members: the first member whose distances to all members sum least,
/// or `0` when every sum is `u32::MAX`. `dist[i][j]` is the distance between
/// `cluster[i]` and `cluster[j]`; sums wrap as unchecked `u32` addition does.
pub fn find_parent_hash_in_cluster(cluster: &[u32], dist: &Vec<Vec<u32>>) -> (r: u32)
    requires
        dist@.len() == cluster@.len(),
        forall|i: int| 0 <= i < dist@.len() ==> (#[trigger] dist@[i])@.len() == cluster@.len(),
    ensures
        r == cluster_leader(cluster@, dist@.map_values(|row: Vec<u32>| row@)),
        (exists|k: int| 0 <= k < cluster@.len() && #[trigger] row_sum(dist@[k]@) < u32::MAX) ==> exists|k: int|
            0 <= k < cluster@.len() && r == cluster@[k] && #[trigger] row_sum(dist@[k]@) < u32::MAX && (forall|j: int|
                0 <= j < cluster@.len() ==> row_sum(dist@[k]@) <= #[trigger] row_sum(dist@[j]@)) && (forall|j: int|
                0 <= j < k ==> row_sum(dist@[k]@) < #[trigger] row_sum(dist@[j]@)),
        !(exists|k: int| 0 <= k < cluster@.len() && #[trigger] row_sum(dist@[k]@) < u32::MAX) ==> r == 0,
{
    let ghost rows = dist@.map_values(|row: Vec<u32>| row@);
    let mut leader_hash: u32 = 0;
    let mut min_sum_dist: u32 = u32::MAX;
    let ghost mut best: int = -1;
    let n = cluster.len();
    let mut i: usize = 0;
    while i < n
        invariant
            n == cluster@.len(),
            i <= n,
            dist@.len() == n,
            rows == dist@.map_values(|row: Vec<u32>| row@),
            forall|k: int| 0 <= k < n ==> (#[trigger] dist@[k])@.len() == n,
            best == -1 ==> min_sum_dist == u32::MAX && leader_hash == 0 && forall|j: int|
                0 <= j < i ==> #[trigger] row_sum(rows[j]) == u32::MAX,
            best != -1 ==> {
                &&& 0 <= best < i
                &&& leader_hash == cluster@[best]
                &&& min_sum_dist == row_sum(rows[best])
                &&& min_sum_dist < u32::MAX
                &&& forall|j: int| 0 <= j < i ==> min_sum_dist <= #[trigger] row_sum(rows[j])
                &&& forall|j: int| 0 <= j < best ==> min_sum_dist < #[trigger] row_sum(rows[j])
            },
        decreases n - i,
    {
        let row = &dist[i];
        let mut sum_dist_for_chunk: u32 = 0;
        let mut j: usize = 0;
        proof {
            assert(row@.take(0) =~= Seq::<u32>::empty());
        }
        while j < n
            invariant
                n == row@.len(),
                j <= n,
                sum_dist_for_chunk == row_sum(row@.take(j as int)),
            decreases n - j,
        {
            proof {
                assert(row@.take(j + 1).drop_last() =~= row@.take(j as int));
            }
            sum_dist_for_chunk = sum_dist_for_chunk.wrapping_add(row[j]);
            j += 1;
        }
        proof {
            assert(row@.take(n as int) =~= row@);
            assert(rows[i as int] == row@);
        }
        if sum_dist_for_chunk < min_sum_dist {
            leader_hash = cluster[i];
            min_sum_dist = sum_dist_for_chunk;
            proof {
                best = i as int;
            }
        }
        i += 1;
    }
    proof {
        let spec_r = cluster_leader(cluster@, rows);
        if best == -1 {
            assert(!exists|k: int| 0 <= k < cluster@.len() && #[trigger] row_sum(rows[k]) < u32::MAX);
        } else {
            assert(row_sum(rows[best]) < u32::MAX);
            let k = choose|k: int|
                0 <= k < cluster@.len() && row_sum(rows[k]) < u32::MAX && (forall|j: int|
                    0 <= j < cluster@.len() ==> row_sum(rows[k]) <= #[trigger] row_sum(rows[j])) && (forall|j: int|
                    0 <= j < k ==> row_sum(rows[k]) < #[trigger] row_sum(rows[j]));
            if k < best {
                assert(row_sum(rows[best]) < row_sum(rows[k]));
            } else if k > best {
                assert(row_sum(rows[k]) < row_sum(rows[best]));
            }
        }
    }
    proof {
        lemma_cluster_leader_least_total(cluster@, rows);
        assert forall|k: int| 0 <= k < cluster@.len() implies #[trigger] rows[k] == dist@[k]@ by {}
        if exists|k: int| 0 <= k < cluster@.len() && #[trigger] row_sum(dist@[k]@) < u32::MAX {
            let k0 = choose|k: int| 0 <= k < cluster@.len() && #[trigger] row_sum(dist@[k]@) < u32::MAX;
            assert(rows[k0] == dist@[k0]@);
            assert(row_sum(rows[k0]) < u32::MAX);
            let k = choose|k: int|
                0 <= k < cluster@.len() && cluster_leader(cluster@, rows) == cluster@[k] && #[trigger] row_sum(rows[k])
                    < u32::MAX && (forall|j: int| 0 <= j < cluster@.len() ==> row_sum(rows[k]) <= #[trigger] row_sum(rows[j]))
                    && (forall|j: int| 0 <= j < k ==> row_sum(rows[k]) < #[trigger] row_sum(rows[j]));
            assert(rows[k] == dist@[k]@);
            assert forall|j: int| 0 <= j < cluster@.len() implies row_sum(dist@[k]@) <= #[trigger] row_sum(dist@[j]@) by {
                assert(rows[j] == dist@[j]@);
            }
            assert forall|j: int| 0 <= j < k implies row_sum(dist@[k]@) < #[trigger] row_sum(dist@[j]@) by {
                assert(rows[j] == dist@[j]@);
            }
        } else {
            assert forall|k: int| 0 <= k < cluster@.len() implies !(#[trigger] row_sum(rows[k]) < u32::MAX) by {
                assert(rows[k] == dist@[k]@);
            }
        }
    }
    leader_hash
}

/// The distances of a cluster, row by row.
pub open spec fn rows_of(dist: Vec<Vec<u32>>) -> Seq<Seq<u32>> {
    dist@.map_values(|row: Vec<u32>| row@)
}

/// The leader chosen for the cluster `c`: its former leader, its members
/// and the distances between their data.
pub open spec fn chosen_leader(c: (u32, Vec<u32>, Vec<Vec<u32>>)) -> u32 {
    cluster_leader(c.1@, rows_of(c.2))
}

/// The parents after every vertex of `members` is put under `l`.
pub open spec fn put_under(p: Map<u32, u32>, members: Seq<u32>, l: u32) -> Map<u32, u32> {
    Map::new(|x: u32| p.contains_key(x), |x: u32| if members.contains(x) { l } else { p[x] })
}

/// The parents and ranks after the clusters `cs` get their chosen leaders,
/// in order: each chosen leader takes the rank of the cluster's former
/// leader, and every member is put directly under it.
pub open spec fn releaded(p: Map<u32, u32>, r: Map<u32, u32>, cs: Seq<(u32, Vec<u32>, Vec<Vec<u32>>)>) -> (
    Map<u32, u32>,
    Map<u32, u32>,
)
    decreases cs.len(),
{
    if cs.len() == 0 {
        (p, r)
    } else {
        let before = releaded(p, r, cs.drop_last());
        let c = cs.last();
        let l = chosen_leader(c);
        (put_under(before.0, c.1@, l), before.1.insert(l, before.1[c.0]))
    }
}

/// The cluster `cs[i]` can be given its leader over the vertices `dom`
/// with parents `p`: its former leader and members are vertices, its
/// distances form a square over its members, and its chosen leader is a
/// vertex that is a member or a leader that no cluster moves.
pub open spec fn releadable(p: Map<u32, u32>, cs: Seq<(u32, Vec<u32>, Vec<Vec<u32>>)>, i: int) -> bool {
    let c = cs[i];
    let l = chosen_leader(c);
    &&& p.contains_key(c.0)
    &&& forall|k: int| 0 <= k < c.1@.len() ==> p.contains_key(#[trigger] c.1@[k])
    &&& c.2@.len() == c.1@.len()
    &&& forall|k: int| 0 <= k < c.2@.len() ==> (#[trigger] c.2@[k])@.len() == c.1@.len()
    &&& p.contains_key(l)
    &&& (c.1@.contains(l) || (p[l] == l && forall|j: int| 0 <= j < cs.len() ==> !(#[trigger] cs[j]).1@.contains(l)))
}

/// A disjoint-set forest over chunk hashes.
pub struct Graph {
    vertices: HashMap<u32, Vertex>,
    levels: Ghost<Map<u32, nat>>,
    bound: Ghost<nat>,
}

impl Graph {
    /// The parent of every vertex.
    pub closed spec fn parents(&self) -> Map<u32, u32> {
        self.vertices@.map_values(|v: Vertex| v.parent)
    }

    /// The rank of every vertex.
    pub closed spec fn ranks(&self) -> Map<u32, u32> {
        self.vertices@.map_values(|v: Vertex| v.rank)
    }

    /// Every parent is a vertex, and following parents climbs strictly in
    /// a bounded level, so that it ends at a vertex that is its own parent.
    pub closed spec fn wf(&self) -> bool {
        forall|x: u32| #![trigger self.vertices@[x]] self.vertices@.contains_key(x) ==> {
            &&& self.vertices@.contains_key(self.vertices@[x].parent)
            &&& self.levels@.contains_key(x)
            &&& self.levels@[x] < self.bound@
            &&& self.vertices@[x].parent != x ==> self.levels@[x] < self.levels@[self.vertices@[x].parent]
        }
    }

    /// How far the levels of `x` leave to climb.
    pub closed spec fn height(&self, x: u32) -> int {
        self.bound@ - self.levels@[x]
    }

    /// Every vertex of a well-formed forest has a leader, itself a vertex.
    pub proof fn lemma_has_leader(&self, x: u32)
        requires
            self.wf(),
            self.parents().contains_key(x),
        ensures
            leads(self.parents(), x, leader(self.parents(), x)),
            self.parents().contains_key(leader(self.parents(), x)),
            closed(self.parents()),
    {
        self.lemma_leader_above(x);
    }

    /// The leader of a vertex that is not its own parent lies above it.
    proof fn lemma_leader_above(&self, x: u32)
        requires
            self.wf(),
            self.parents().contains_key(x),
        ensures
            leads(self.parents(), x, leader(self.parents(), x)),
            self.parents().contains_key(leader(self.parents(), x)),
            closed(self.parents()),
            self.parents()[x] != x ==> self.levels@[x] < self.levels@[leader(self.parents(), x)],
        decreases self.height(x),
    {
        let p = self.parents();
        assert(closed(p)) by {
            assert forall|y: u32| p.contains_key(y) implies p.contains_key(#[trigger] p[y]) by {
                assert(self.vertices@.contains_key(y));
            }
        }
        assert(self.vertices@.contains_key(x));
        if p[x] == x {
            assert(follow(p, x, 0) == x);
            assert(leads(p, x, x));
            lemma_leads_unique(p, x, leader(p, x), x);
        } else {
            assert(self.vertices@[x].parent == p[x]);
            let px = self.vertices@[p[x]];
            assert(self.levels@[p[x]] < self.bound@);
            assert(self.levels@[x] < self.levels@[p[x]]);
            self.lemma_leader_above(p[x]);
            let r = leader(p, p[x]);
            assert(self.vertices@.contains_key(p[x]));
            if p[p[x]] == p[x] {
                assert(follow(p, p[x], 0) == p[x]);
                lemma_leads_unique(p, p[x], r, p[x]);
            }
            let n = choose|n: nat| follow(p, p[x], n) == r;
            assert(follow(p, x, n + 1) == r);
            assert(leads(p, x, r));
            lemma_leads_unique(p, x, leader(p, x), r);
        }
        let r = leader(p, x);
        let n = choose|n: nat| follow(p, x, n) == r;
        lemma_follow_in_dom(p, x, n);
    }

    /// Every vertex has a leader.
    proof fn lemma_leaders_total(&self)
        requires
            self.wf(),
        ensures
            closed(self.parents()),
            forall|x: u32| #[trigger] self.parents().contains_key(x) ==> leads(
                self.parents(),
                x,
                leader(self.parents(), x),
            ),
    {
        assert forall|x: u32| #[trigger] self.parents().contains_key(x) implies leads(
            self.parents(),
            x,
            leader(self.parents(), x),
        ) by {
            self.lemma_leader_above(x);
        }
        assert(closed(self.parents())) by {
            assert forall|y: u32| self.parents().contains_key(y) implies self.parents().contains_key(
                #[trigger] self.parents()[y],
            ) by {
                assert(self.vertices@.contains_key(y));
            }
        }
    }

    /// Moving `h` under a vertex of higher level keeps the forest well
    /// formed.
    proof fn lemma_wf_after_compress(&self, before: &Graph, h: u32, root: u32)
        requires
            before.wf(),
            before.vertices@.contains_key(h),
            before.vertices@.contains_key(root),
            before.levels@[h] < before.levels@[root],
            self.vertices@ == before.vertices@.insert(h, Vertex { parent: root, rank: before.vertices@[h].rank }),
            self.levels == before.levels,
            self.bound == before.bound,
        ensures
            self.wf(),
    {
        assert forall|x: u32| #![trigger self.vertices@[x]] self.vertices@.contains_key(x) implies {
            &&& self.vertices@.contains_key(self.vertices@[x].parent)
            &&& self.levels@.contains_key(x)
            &&& self.levels@[x] < self.bound@
            &&& self.vertices@[x].parent != x ==> self.levels@[x] < self.levels@[self.vertices@[x].parent]
        } by {
            assert(before.vertices@.contains_key(x));
        }
    }

    /// Making `key` a root of rank one keeps the forest well formed.
    proof fn lemma_wf_after_root(&self, before: &Graph, key: u32)
        requires
            before.wf(),
            self.vertices@ == before.vertices@.insert(key, Vertex { parent: key, rank: 1 }),
            self.levels@ == (if before.vertices@.contains_key(key) {
                before.levels@
            } else {
                before.levels@.insert(key, 0)
            }),
            self.bound@ == (if before.bound@ == 0 { 1 } else { before.bound@ }),
        ensures
            self.wf(),
    {
        assert forall|x: u32| #![trigger self.vertices@[x]] self.vertices@.contains_key(x) implies {
            &&& self.vertices@.contains_key(self.vertices@[x].parent)
            &&& self.levels@.contains_key(x)
            &&& self.levels@[x] < self.bound@
            &&& self.vertices@[x].parent != x ==> self.levels@[x] < self.levels@[self.vertices@[x].parent]
        } by {
            if x != key {
                let v0 = before.vertices@[x];
                let vp = before.vertices@[v0.parent];
            } else if before.vertices@.contains_key(key) {
                let v0 = before.vertices@[x];
            }
        }
    }

    /// The level data of the forest.
    pub closed spec fn shape(&self) -> (Map<u32, nat>, nat) {
        (self.levels@, self.bound@)
    }

    /// The leader of the cluster of `hash_set`. Every vertex passed on the
    /// way, `hash_set` among them, is moved directly under the leader, which
    /// changes no vertex's leader.
    pub fn find_set(&mut self, hash_set: u32) -> (r: u32)
        requires
            old(self).wf(),
            old(self).parents().contains_key(hash_set),
        ensures
            final(self).wf(),
            r == leader(old(self).parents(), hash_set),
            final(self).parents()[hash_set] == r,
            final(self).parents().dom() == old(self).parents().dom(),
            final(self).ranks() == old(self).ranks(),
            forall|x: u32| #[trigger] old(self).parents().contains_key(x) ==> leader(final(self).parents(), x)
                == leader(old(self).parents(), x),
            forall|x: u32| #[trigger] final(self).parents().contains_key(x) ==> final(self).parents()[x]
                == old(self).parents()[x] || final(self).parents()[x] == leader(old(self).parents(), x),
            final(self).shape() == old(self).shape(),
        decreases old(self).height(hash_set),
    {
        proof {
            self.lemma_leader_above(hash_set);
        }
        let (parent, rank) = match self.vertices.get(&hash_set) {
            Some(v) => (v.parent, v.rank),
            None => (hash_set, 0),
        };
        proof {
            assert(self.vertices@[hash_set].parent == parent);
            assert(self.ranks()[hash_set] == rank);
        }
        if hash_set != parent {
            let ghost p0 = self.parents();
            proof {
                assert(self.vertices@.contains_key(hash_set));
                self.lemma_leader_above(parent);
                let r = leader(p0, parent);
                let n = choose|n: nat| follow(p0, parent, n) == r;
                assert(follow(p0, hash_set, n + 1) == r);
                lemma_leads_unique(p0, hash_set, leader(p0, hash_set), r);
            }
            let root = self.find_set(parent);
            let ghost p1 = self.parents();
            proof {
                assert(p1.contains_key(hash_set));
                assert(p1[hash_set] == p0[hash_set] || p1[hash_set] == leader(p0, hash_set));
                assert(p1[hash_set] != hash_set);
                assert(leader(p1, hash_set) == root);
                self.lemma_leader_above(hash_set);
            }
            let ghost mid = *self;
            proof {
                assert(mid.ranks()[hash_set] == mid.vertices@[hash_set].rank);
            }
            self.vertices.insert(hash_set, Vertex { parent: root, rank });
            proof {
                assert(self.parents() =~= p1.insert(hash_set, root));
                assert(self.ranks() =~= old(self).ranks());
                self.lemma_wf_after_compress(&mid, hash_set, root);
                mid.lemma_leaders_total();
                lemma_compress_leaders(p0, p1, hash_set, root);
                assert forall|x: u32| #[trigger] self.parents().contains_key(x) implies self.parents()[x] == p0[x]
                    || self.parents()[x] == leader(p0, x) by {
                    if x != hash_set {
                        assert(p1.contains_key(x));
                    }
                }
            }
            return root;
        }
        proof {
            let p = self.parents();
            assert(follow(p, hash_set, 0) == hash_set);
            assert(leads(p, hash_set, hash_set));
            lemma_leads_unique(p, hash_set, leader(p, hash_set), hash_set);
        }
        hash_set
    }

    /// Merges the clusters led by the roots `hash_set_1` and `hash_set_2`:
    /// the one of lower rank goes under the other, ties going under
    /// `hash_set_1`, and both take the sum of the ranks, wrapping as
    /// unchecked `u32` addition does.
    #[verifier::spinoff_prover]
    fn union_set(&mut self, hash_set_1: u32, hash_set_2: u32)
        requires
            old(self).wf(),
            old(self).parents().contains_key(hash_set_1),
            old(self).parents().contains_key(hash_set_2),
            old(self).parents()[hash_set_1] == hash_set_1,
            old(self).parents()[hash_set_2] == hash_set_2,
            hash_set_1 != hash_set_2,
        ensures
            final(self).wf(),
            ({
                let r1 = old(self).ranks()[hash_set_1];
                let r2 = old(self).ranks()[hash_set_2];
                let top = if r1 < r2 { hash_set_2 } else { hash_set_1 };
                let low = if r1 < r2 { hash_set_1 } else { hash_set_2 };
                let rank = r2.wrapping_add(r1);
                &&& final(self).parents() == old(self).parents().insert(low, top)
                &&& final(self).ranks() == old(self).ranks().insert(hash_set_2, rank).insert(hash_set_1, rank)
                &&& forall|x: u32| #[trigger] old(self).parents().contains_key(x) ==> leader(final(self).parents(), x)
                    == if leader(old(self).parents(), x) == low { top } else { leader(old(self).parents(), x) }
            }),
    {
        let r1 = match self.vertices.get(&hash_set_1) {
            Some(v) => v.rank,
            None => 0,
        };
        let r2 = match self.vertices.get(&hash_set_2) {
            Some(v) => v.rank,
            None => 0,
        };
        proof {
            assert(self.ranks()[hash_set_1] == r1);
            assert(self.ranks()[hash_set_2] == r2);
            self.lemma_leaders_total();
        }
        let rank = r2.wrapping_add(r1);
        let ghost l0 = self.levels@;
        let ghost s0 = *self;
        let ghost p0 = self.parents();
        let ghost top = if r1 < r2 { hash_set_2 } else { hash_set_1 };
        let ghost low = if r1 < r2 { hash_set_1 } else { hash_set_2 };
        if r1 < r2 {
            self.vertices.insert(hash_set_2, Vertex { parent: hash_set_2, rank });
            self.vertices.insert(hash_set_1, Vertex { parent: hash_set_2, rank });
        } else {
            self.vertices.insert(hash_set_1, Vertex { parent: hash_set_1, rank });
            self.vertices.insert(hash_set_2, Vertex { parent: hash_set_1, rank });
        }
        let ghost lv = if l0[top] > l0[low] { l0[top] } else { l0[low] + 1 };
        self.levels = Ghost(l0.insert(top, lv));
        self.bound = Ghost(if lv + 1 > self.bound@ { lv + 1 } else { self.bound@ });
        proof {
            assert(self.parents() =~= p0.insert(low, top));
            assert(self.ranks() =~= s0.ranks().insert(hash_set_2, rank).insert(hash_set_1, rank));
            assert forall|x: u32| #![trigger self.vertices@[x]] self.vertices@.contains_key(x) implies {
                &&& self.vertices@.contains_key(self.vertices@[x].parent)
                &&& self.levels@.contains_key(x)
                &&& self.levels@[x] < self.bound@
                &&& self.vertices@[x].parent != x ==> self.levels@[x] < self.levels@[self.vertices@[x].parent]
            } by {
                let v0 = s0.vertices@[x];
                if x != low && x != top {
                    let vp = s0.vertices@[v0.parent];
                }
            }
            assert(self.wf());
            assert forall|x: u32| #[trigger] p0.contains_key(x) implies leader(self.parents(), x) == if leader(p0, x)
                == low { top } else { leader(p0, x) } by {
                lemma_union_leaders(p0, low, top, x, leader(p0, x));
                lemma_leads_unique(
                    self.parents(),
                    x,
                    leader(self.parents(), x),
                    if leader(p0, x) == low { top } else { leader(p0, x) },
                );
            }
        }
    }

    /// Makes every hash of `pairs` a vertex that leads its own cluster of
    /// rank one, replacing a vertex already there.
    fn add_vertices(&mut self, pairs: &[(u32, Vec<u8>)])
        requires
            old(self).wf(),
        ensures
            final(self).wf(),
            final(self).parents() == old(self).parents().union_prefer_right(
                Map::new(|k: u32| pair_keys(pairs@).contains(k), |k: u32| k),
            ),
    {
        let n = pairs.len();
        let mut i: usize = 0;
        let ghost keys = pair_keys(pairs@);
        proof {
            assert(old(self).parents().union_prefer_right(
                Map::new(|k: u32| pair_keys(pairs@.take(0)).contains(k), |k: u32| k),
            ) =~= old(self).parents());
        }
        while i < n
            invariant
                n == pairs@.len(),
                i <= n,
                self.wf(),
                self.parents() == old(self).parents().union_prefer_right(
                    Map::new(|k: u32| pair_keys(pairs@.take(i as int)).contains(k), |k: u32| k),
                ),
            decreases n - i,
        {
            let key = pairs[i].0;
            let ghost p0 = self.parents();
            let ghost s0 = *self;
            self.vertices.insert(key, Vertex::new(key));
            self.levels = Ghost(if s0.vertices@.contains_key(key) { self.levels@ } else { self.levels@.insert(key, 0) });
            self.bound = Ghost(if self.bound@ == 0 { 1 } else { self.bound@ });
            proof {
                lemma_pair_keys_push(pairs@, i as int);
                assert(self.vertices@ == s0.vertices@.insert(key, Vertex { parent: key, rank: 1 }));
                assert(self.parents() =~= p0.insert(key, key));
                assert(self.parents() =~= old(self).parents().union_prefer_right(
                    Map::new(|k: u32| pair_keys(pairs@.take(i + 1)).contains(k), |k: u32| k),
                ));
                self.lemma_wf_after_root(&s0, key);
            }
            i += 1;
        }
        proof {
            assert(pairs@.take(n as int) =~= pairs@);
        }
    }

    /// For every hash of `pairs`, the edge to the vertex that the edge
    /// search finds, weighted by their distance.
    fn create_edges(&self, pairs: &[(u32, Vec<u8>)]) -> (r: Vec<Edge>)
        ensures
            r@.len() == pairs@.len(),
            forall|i: int| 0 <= i < r@.len() ==> (#[trigger] r@[i]).parts() == (
                edge_for(self.parents().dom(), pairs@[i].0).0,
                pairs@[i].0,
                edge_for(self.parents().dom(), pairs@[i].0).1,
            ),
    {
        let mut edges: Vec<Edge> = Vec::new();
        let n = pairs.len();
        let mut i: usize = 0;
        while i < n
            invariant
                n == pairs@.len(),
                i <= n,
                edges@.len() == i,
                forall|j: int| 0 <= j < i ==> (#[trigger] edges@[j]).parts() == (
                    edge_for(self.parents().dom(), pairs@[j].0).0,
                    pairs@[j].0,
                    edge_for(self.parents().dom(), pairs@[j].0).1,
                ),
            decreases n - i,
        {
            let hash_1 = pairs[i].0;
            let mut min_dist: u32 = u32::MAX;
            let mut hash_2: u32 = 0;
            let below: u32 = if hash_1 < MAX_WEIGHT_EDGE { hash_1 } else { MAX_WEIGHT_EDGE };
            let above: u32 = if u32::MAX - hash_1 < MAX_WEIGHT_EDGE { u32::MAX - hash_1 } else { MAX_WEIGHT_EDGE };
            let hi: u64 = hash_1 as u64 + above as u64;
            let mut other: u64 = (hash_1 - below) as u64;
            let ghost dom = self.parents().dom();
            while other <= hi
                invariant
                    hi == scan_hi(hash_1),
                    hi <= u32::MAX,
                    scan_lo(hash_1) <= other <= hi + 1,
                    dom == self.parents().dom(),
                    scan_edge(dom, hash_1, other as int, hi as int, min_dist, hash_2) == edge_for(dom, hash_1),
                decreases hi + 1 - other,
            {
                let ghost before = (min_dist, hash_2);
                if self.vertices.contains_key(&hash_2) {
                    let dist: u32 = if hash_2 >= hash_1 { hash_2 - hash_1 } else { hash_1 - hash_2 };
                    if dist < min_dist {
                        min_dist = dist;
                        hash_2 = other as u32;
                    }
                }
                other = other + 1;
            }
            edges.push(Edge { weight: min_dist, hash_chunk_1: hash_1, hash_chunk_2: hash_2 });
            i += 1;
        }
        edges
    }

    /// Adds the hashes of `pairs` as vertices, joins the cluster of every
    /// hash with the cluster of the vertex its edge search finds, and
    /// returns, for the leader of every hash of `pairs`, the vertices of its
    /// cluster. Vertices in a cluster that holds no hash of `pairs` are in
    /// no returned cluster.
    #[verifier::spinoff_prover]
    pub fn update_graph_based_on_the_kraskal_algorithm(&mut self, pairs: Vec<(u32, Vec<u8>)>) -> (r: HashMap<
        u32,
        Vec<u32>,
    >)
        requires
            old(self).wf(),
            forall|i: int|
                0 <= i < pairs@.len() ==> old(self).parents().dom().union(pair_keys(pairs@)).contains(
                    (#[trigger] edge_for(old(self).parents().dom().union(pair_keys(pairs@)), pairs@[i].0)).1,
                ),
        ensures
            final(self).wf(),
            final(self).parents().dom() == old(self).parents().dom().union(pair_keys(pairs@)),
            forall|i: int|
                0 <= i < pairs@.len() ==> leader(final(self).parents(), pairs@[i].0) == leader(
                    final(self).parents(),
                    (#[trigger] edge_for(final(self).parents().dom(), pairs@[i].0)).1,
                ),
            r@.dom() == pair_keys(pairs@).map(|k: u32| leader(final(self).parents(), k)),
            forall|l: u32| #[trigger] r@.contains_key(l) ==> r@[l]@.no_duplicates() && r@[l]@.to_set()
                == final(self).parents().dom().filter(|x: u32| leader(final(self).parents(), x) == l),
            forall|x: u32, y: u32|
                #![trigger leader(final(self).parents(), x), leader(final(self).parents(), y)]
                final(self).parents().contains_key(x) && final(self).parents().contains_key(y) && leader(
                    final(self).parents(),
                    x,
                ) == leader(final(self).parents(), y) ==> connected(
                    old(self).parents().union_prefer_right(Map::new(|k: u32| pair_keys(pairs@).contains(k), |k: u32| k)),
                    search_edges(final(self).parents().dom(), pairs@),
                    pairs@.len() as int,
                    x,
                    y,
                ),
    {
        let ghost dom = old(self).parents().dom().union(pair_keys(pairs@));
        self.add_vertices(pairs.as_slice());
        let ghost p0 = self.parents();
        let ghost es = search_edges(dom, pairs@);
        proof {
            assert(self.parents().dom() =~= dom);
            assert forall|x: u32, y: u32|
                #![trigger leader(self.parents(), x), leader(self.parents(), y)]
                dom.contains(x) && dom.contains(y) && leader(self.parents(), x) == leader(self.parents(), y)
                    implies connected(p0, es, 0, x, y) by {
                lemma_step_connected(p0, es, 0, x, y);
            }
        }
        let edges = self.create_edges(pairs.as_slice());
        let n = edges.len();
        proof {
            assert forall|j: int| 0 <= j < n implies dom.contains(#[trigger] pairs@[j].0) by {
                let ks = pairs@.map_values(|e: (u32, Vec<u8>)| e.0);
                assert(ks[j] == pairs@[j].0);
                assert(ks.to_set().contains(ks[j]));
            }
        }
        let mut i: usize = 0;
        while i < n
            invariant
                self.wf(),
                n == edges@.len(),
                n == pairs@.len(),
                i <= n,
                self.parents().dom() == dom,
                forall|j: int| 0 <= j < n ==> (#[trigger] edges@[j]).parts() == (
                    edge_for(dom, pairs@[j].0).0,
                    pairs@[j].0,
                    edge_for(dom, pairs@[j].0).1,
                ),
                forall|j: int| 0 <= j < n ==> dom.contains((#[trigger] edge_for(dom, pairs@[j].0)).1),
                forall|j: int| 0 <= j < n ==> dom.contains(#[trigger] pairs@[j].0),
                forall|j: int| 0 <= j < i ==> leader(self.parents(), (#[trigger] edges@[j]).parts().1) == leader(
                    self.parents(),
                    edges@[j].parts().2,
                ),
                es == search_edges(dom, pairs@),
                forall|x: u32, y: u32|
                    #![trigger leader(self.parents(), x), leader(self.parents(), y)]
                    dom.contains(x) && dom.contains(y) && leader(self.parents(), x) == leader(self.parents(), y)
                        ==> connected(p0, es, i as int, x, y),
            decreases n - i,
        {
            let h1 = edges[i].hash_chunk_1;
            let h2 = edges[i].hash_chunk_2;
            proof {
                assert(edges@[i as int].parts().1 == h1);
                assert(edges@[i as int].parts().2 == h2);
                assert(dom.contains(h1));
                assert(dom.contains(h2));
            }
            let ghost pa = self.parents();
            proof {
                self.lemma_has_leader(h1);
                lemma_leader_is_root(pa, h1);
            }
            let s1 = self.find_set(h1);
            let ghost pb = self.parents();
            proof {
                old_root_stays(pa, pb, s1);
                self.lemma_has_leader(h2);
                lemma_leader_is_root(pb, h2);
            }
            let s2 = self.find_set(h2);
            let ghost pc = self.parents();
            proof {
                old_root_stays(pb, pc, s1);
                old_root_stays(pb, pc, s2);
                assert(leader(pc, h1) == s1);
                assert(leader(pc, h2) == s2);
            }
            let ghost rk = self.ranks();
            if s1 != s2 {
                self.union_set(s1, s2);
            }
            proof {
                assert(es[i as int] == (h1, h2));
                assert forall|x: u32| #[trigger] dom.contains(x) implies leader(pc, x) == leader(pa, x) by {
                    assert(pa.contains_key(x));
                    assert(pb.contains_key(x));
                }
                if s1 != s2 {
                    let low = if rk[s1] < rk[s2] { s1 } else { s2 };
                    let top = if rk[s1] < rk[s2] { s2 } else { s1 };
                    assert forall|x: u32| #[trigger] dom.contains(x) implies leader(self.parents(), x) == if leader(
                        pa,
                        x,
                    ) == low {
                        top
                    } else {
                        leader(pa, x)
                    } by {
                        assert(pc.contains_key(x));
                    }
                    lemma_union_connects(p0, es, i as int, pa, self.parents(), dom, h1, h2, low, top);
                } else {
                    assert forall|x: u32, y: u32|
                        #![trigger leader(self.parents(), x), leader(self.parents(), y)]
                        dom.contains(x) && dom.contains(y) && leader(self.parents(), x) == leader(self.parents(), y)
                            implies connected(p0, es, i + 1, x, y) by {
                        assert(leader(pa, x) == leader(pa, y));
                        lemma_connected_more(p0, es, i as int, i + 1, x, y);
                    }
                }
                assert forall|j: int| 0 <= j < i + 1 implies leader(self.parents(), (#[trigger] edges@[j]).parts().1)
                    == leader(self.parents(), edges@[j].parts().2) by {
                    let a = edges@[j].parts().1;
                    let b = edges@[j].parts().2;
                    assert(dom.contains(a));
                    assert(dom.contains(b));
                }
            }
            i += 1;
        }
        let ghost pf = self.parents();
        let ghost lmap = Map::new(|x: u32| dom.contains(x), |x: u32| leader(pf, x));
        let mut clusters: HashMap<u32, Vec<u32>> = HashMap::new();
        let mut j: usize = 0;
        proof {
            assert(pair_keys(pairs@.take(0)) =~= Set::<u32>::empty());
            assert(clusters@.dom() =~= pair_keys(pairs@.take(0)).map(|k: u32| lmap[k]));
        }
        while j < n
            invariant
                self.wf(),
                n == pairs@.len(),
                j <= n,
                self.parents().dom() == dom,
                forall|x: u32| #[trigger] dom.contains(x) ==> leader(self.parents(), x) == lmap[x],
                forall|x: u32| #[trigger] lmap.contains_key(x) <==> dom.contains(x),
                forall|k: int| 0 <= k < n ==> dom.contains(#[trigger] pairs@[k].0),
                clusters@.dom() == pair_keys(pairs@.take(j as int)).map(|k: u32| lmap[k]),
                forall|l: u32| #[trigger] clusters@.contains_key(l) ==> clusters@[l]@ == Seq::<u32>::empty(),
            decreases n - j,
        {
            let key = pairs[j].0;
            let ghost p0 = self.parents();
            let leader_key = self.find_set(key);
            proof {
                assert forall|x: u32| #[trigger] dom.contains(x) implies leader(self.parents(), x) == lmap[x] by {
                    assert(p0.contains_key(x));
                }
                lemma_pair_keys_push(pairs@, j as int);
            }
            if !clusters.contains_key(&leader_key) {
                clusters.insert(leader_key, Vec::new());
            }
            proof {
                let s0 = pair_keys(pairs@.take(j as int));
                let s1 = pair_keys(pairs@.take(j + 1));
                let m0 = s0.map(|k: u32| lmap[k]);
                let m1 = s1.map(|k: u32| lmap[k]);
                assert forall|l: u32| #[trigger] m1.contains(l) <==> m0.contains(l) || l == lmap[key] by {
                    if m1.contains(l) {
                        let k = choose|k: u32| s1.contains(k) && lmap[k] == l;
                        if k != key {
                            assert(s0.contains(k));
                        }
                    }
                    if m0.contains(l) {
                        let k = choose|k: u32| s0.contains(k) && lmap[k] == l;
                        assert(s1.contains(k));
                    }
                    if l == lmap[key] {
                        assert(s1.contains(key));
                    }
                }
                assert(clusters@.dom() =~= m1);
            }
            j += 1;
        }
        proof {
            assert(pairs@.take(n as int) =~= pairs@);
        }
        let ghost all = vstd::std_specs::hash::spec_keys_iter(&self.vertices).remaining().unref();
        let mut keys: Vec<u32> = Vec::new();
        for k in it: self.vertices.keys()
            invariant
                it.seq().unref() == all,
                keys@.len() == it.index(),
                forall|q: int| 0 <= q < it.index() ==> keys@[q] == *it.seq()[q],
        {
            keys.push(*k);
        }
        proof {
            assert(keys@ =~= all);
            assert(keys@.to_set() == dom);
            assert(keys@.no_duplicates());
        }
        let ghost cdom = clusters@.dom();
        let m = keys.len();
        let mut q: usize = 0;
        proof {
            assert(keys@.take(0).to_set() =~= Set::<u32>::empty());
        }
        while q < m
            invariant
                self.wf(),
                m == keys@.len(),
                q <= m,
                keys@.to_set() == dom,
                keys@.no_duplicates(),
                self.parents().dom() == dom,
                forall|x: u32| #[trigger] dom.contains(x) ==> leader(self.parents(), x) == lmap[x],
                clusters@.dom() == cdom,
                forall|l: u32| #[trigger] clusters@.contains_key(l) ==> {
                    &&& clusters@[l]@.no_duplicates()
                    &&& clusters@[l]@.to_set() == keys@.take(q as int).to_set().filter(|x: u32| lmap[x] == l)
                },
            decreases m - q,
        {
            let key = keys[q];
            proof {
                assert(keys@.to_set().contains(key));
            }
            let ghost p0 = self.parents();
            let leader_key = self.find_set(key);
            proof {
                assert forall|x: u32| #[trigger] dom.contains(x) implies leader(self.parents(), x) == lmap[x] by {
                    assert(p0.contains_key(x));
                }
                crate::index::store::lemma_take_succ_contains(keys@, q as int);
                assert(keys@.take(q + 1).to_set() =~= keys@.take(q as int).to_set().insert(key));
                assert(!keys@.take(q as int).contains(key)) by {
                    if keys@.take(q as int).contains(key) {
                        let t = choose|t: int| 0 <= t < q && keys@.take(q as int)[t] == key;
                        assert(keys@[t] == keys@[q as int]);
                    }
                }
            }
            let ghost c0 = clusters@;
            if clusters.contains_key(&leader_key) {
                let members = clusters.remove(&leader_key);
                match members {
                    Some(mut v) => {
                        v.push(key);
                        clusters.insert(leader_key, v);
                    },
                    None => {},
                }
            }
            proof {
                assert(clusters@.dom() =~= cdom);
                assert forall|l: u32| #[trigger] clusters@.contains_key(l) implies {
                    &&& clusters@[l]@.no_duplicates()
                    &&& clusters@[l]@.to_set() == keys@.take(q + 1).to_set().filter(|x: u32| lmap[x] == l)
                } by {
                    if l == leader_key {
                        let old_seq = c0[l]@;
                        assert(!old_seq.contains(key)) by {
                            if old_seq.contains(key) {
                                assert(old_seq.to_set().contains(key));
                            }
                        }
                        assert(clusters@[l]@ == old_seq.push(key));
                        assert(lmap[key] == l);
                        old_seq.lemma_push_to_set_commute(key);
                        assert(old_seq.push(key).no_duplicates()) by {
                            assert forall|a: int, b: int| 0 <= a < b < old_seq.len() + 1 implies old_seq.push(key)[a]
                                != old_seq.push(key)[b] by {
                                if b == old_seq.len() {
                                    assert(old_seq.contains(old_seq[a]));
                                }
                            }
                        }
                        assert(clusters@[l]@.to_set() =~= keys@.take(q + 1).to_set().filter(|x: u32| lmap[x] == l));
                    } else {
                        assert(clusters@[l]@.to_set() =~= keys@.take(q + 1).to_set().filter(|x: u32| lmap[x] == l));
                    }
                }
            }
            q += 1;
        }
        proof {
            assert(keys@.take(m as int) =~= keys@);
            let pfin = self.parents();
            let pk = pair_keys(pairs@);
            let mf = pk.map(|k: u32| leader(pfin, k));
            let ml = pk.map(|k: u32| lmap[k]);
            assert forall|l: u32| #[trigger] mf.contains(l) <==> ml.contains(l) by {
                if ml.contains(l) {
                    let k = choose|k: u32| pk.contains(k) && lmap[k] == l;
                    assert(dom.contains(k));
                    assert(mf.contains(leader(pfin, k)));
                }
                if mf.contains(l) {
                    let k = choose|k: u32| pk.contains(k) && leader(pfin, k) == l;
                    assert(dom.contains(k));
                    assert(ml.contains(lmap[k]));
                }
            }
            assert(clusters@.dom() =~= mf);
            assert forall|l: u32| #[trigger] clusters@.contains_key(l) implies clusters@[l]@.no_duplicates()
                && clusters@[l]@.to_set() == pfin.dom().filter(|x: u32| leader(pfin, x) == l) by {
                assert(clusters@[l]@.to_set() =~= pfin.dom().filter(|x: u32| leader(pfin, x) == l));
            }
            assert forall|x: u32, y: u32|
                #![trigger leader(pfin, x), leader(pfin, y)]
                pfin.contains_key(x) && pfin.contains_key(y) && leader(pfin, x) == leader(pfin, y) implies connected(
                p0,
                es,
                pairs@.len() as int,
                x,
                y,
            ) by {
                assert(dom.contains(x) && dom.contains(y));
                assert(leader(pf, x) == leader(pf, y));
            }
            assert forall|i: int| 0 <= i < pairs@.len() implies leader(pfin, pairs@[i].0) == leader(
                pfin,
                (#[trigger] edge_for(pfin.dom(), pairs@[i].0)).1,
            ) by {
                assert(edges@[i].parts().1 == pairs@[i].0);
                assert(dom.contains(pairs@[i].0));
                assert(dom.contains(edge_for(dom, pairs@[i].0).1));
            }
        }
        clusters
    }

    /// Making `l` a root of rank `rank` one level above every other vertex
    /// keeps the forest well formed, with every other vertex below it.
    proof fn lemma_wf_after_new_leader(&self, before: &Graph, l: u32, rank: u32)
        requires
            before.wf(),
            before.vertices@.contains_key(l),
            self.vertices@ == before.vertices@.insert(l, Vertex { parent: l, rank }),
            self.levels@ == before.levels@.insert(l, before.bound@),
            self.bound@ == before.bound@ + 1,
        ensures
            self.wf(),
            forall|x: u32| #[trigger] self.vertices@.contains_key(x) && x != l ==> self.levels@[x] < before.bound@,
    {
        assert forall|x: u32| #![trigger self.vertices@[x]] self.vertices@.contains_key(x) implies {
            &&& self.vertices@.contains_key(self.vertices@[x].parent)
            &&& self.levels@.contains_key(x)
            &&& self.levels@[x] < self.bound@
            &&& self.vertices@[x].parent != x ==> self.levels@[x] < self.levels@[self.vertices@[x].parent]
        } by {
            if x != l {
                assert(before.vertices@.contains_key(x));
                let v0 = before.vertices@[x];
                let vp = before.vertices@[v0.parent];
            }
        }
        assert forall|x: u32| #[trigger] self.vertices@.contains_key(x) && x != l implies self.levels@[x]
            < before.bound@ by {
            assert(before.vertices@.contains_key(x));
            let v0 = before.vertices@[x];
        }
    }

    /// Gives the cluster of `members`, formerly led by `past`, the leader
    /// its distances choose: the leader takes the rank of `past` and every
    /// member is put directly under it.
    #[verifier::spinoff_prover]
    fn set_leader_in_cluster(&mut self, past: u32, members: &Vec<u32>, dist: &Vec<Vec<u32>>) -> (l: u32)
        requires
            old(self).wf(),
            old(self).parents().contains_key(past),
            forall|k: int| 0 <= k < members@.len() ==> old(self).parents().contains_key(#[trigger] members@[k]),
            dist@.len() == members@.len(),
            forall|k: int| 0 <= k < dist@.len() ==> (#[trigger] dist@[k])@.len() == members@.len(),
            old(self).parents().contains_key(cluster_leader(members@, rows_of(*dist))),
            members@.contains(cluster_leader(members@, rows_of(*dist))) || old(self).parents()[cluster_leader(
                members@,
                rows_of(*dist),
            )] == cluster_leader(members@, rows_of(*dist)),
        ensures
            final(self).wf(),
            l == cluster_leader(members@, rows_of(*dist)),
            final(self).parents() == put_under(old(self).parents(), members@, l),
            final(self).ranks() == old(self).ranks().insert(l, old(self).ranks()[past]),
    {
        let l = find_parent_hash_in_cluster(members.as_slice(), dist);
        let past_rank = match self.vertices.get(&past) {
            Some(v) => v.rank,
            None => 0,
        };
        let ghost p0 = self.parents();
        let ghost r0 = self.ranks();
        proof {
            assert(r0[past] == past_rank);
        }
        let ghost lv = self.bound@;
        self.vertices.insert(l, Vertex { parent: l, rank: past_rank });
        self.levels = Ghost(self.levels@.insert(l, lv));
        self.bound = Ghost(lv + 1);
        let ghost p1 = p0.insert(l, l);
        proof {
            assert(old(self).parents().contains_key(l));
            assert(old(self).vertices@.contains_key(l));
            self.lemma_wf_after_new_leader(old(self), l, past_rank);
            assert(self.parents() =~= p1);
            assert(self.ranks() =~= r0.insert(l, past_rank));
            assert(put_under(p1, members@.take(0), l) =~= p1);
        }
        let n = members.len();
        let mut k: usize = 0;
        while k < n
            invariant
                self.wf(),
                n == members@.len(),
                k <= n,
                self.bound@ == lv + 1,
                self.levels@[l] == lv,
                self.parents().contains_key(l),
                self.vertices@[l].parent == l,
                forall|x: u32| #[trigger] self.vertices@.contains_key(x) && x != l ==> self.levels@[x] < lv,
                forall|j: int| 0 <= j < n ==> p0.contains_key(#[trigger] members@[j]),
                p1 == p0.insert(l, l),
                self.parents() == put_under(p1, members@.take(k as int), l),
                self.ranks() == r0.insert(l, past_rank),
            decreases n - k,
        {
            let m = members[k];
            let rank = match self.vertices.get(&m) {
                Some(v) => v.rank,
                None => 0,
            };
            let ghost before = *self;
            proof {
                assert(self.parents().contains_key(m));
                assert(self.ranks()[m] == rank);
            }
            self.vertices.insert(m, Vertex { parent: l, rank });
            proof {
                lemma_take_succ_contains(members@, k as int);
                assert(m == members@[k as int]);
                assert forall|x: u32| #[trigger] self.parents().contains_key(x) implies self.parents()[x] == put_under(
                    p1,
                    members@.take(k + 1),
                    l,
                )[x] by {
                    if x != m {
                        assert(before.parents()[x] == self.parents()[x]);
                    }
                }
                assert(self.parents().dom() =~= put_under(p1, members@.take(k + 1), l).dom());
                assert(self.parents() =~= put_under(p1, members@.take(k + 1), l));
                assert(self.ranks() =~= r0.insert(l, past_rank));
                assert forall|x: u32| #![trigger self.vertices@[x]] self.vertices@.contains_key(x) implies {
                    &&& self.vertices@.contains_key(self.vertices@[x].parent)
                    &&& self.levels@.contains_key(x)
                    &&& self.levels@[x] < self.bound@
                    &&& self.vertices@[x].parent != x ==> self.levels@[x] < self.levels@[self.vertices@[x].parent]
                } by {
                    assert(before.vertices@.contains_key(x));
                    let v0 = before.vertices@[x];
                    if x != m {
                        let vp = before.vertices@[v0.parent];
                    } else if m != l {
                        assert(before.vertices@.contains_key(m) && m != l);
                    }
                }
                assert forall|x: u32| #[trigger] self.vertices@.contains_key(x) && x != l implies self.levels@[x] < lv by {
                    assert(before.vertices@.contains_key(x));
                }
            }
            k += 1;
        }
        proof {
            assert(members@.take(n as int) =~= members@);
            assert(self.parents() =~= put_under(p0, members@, l)) by {
                if !members@.contains(l) {
                    assert(p0[l] == l);
                }
            }
        }
        l
    }

    /// Gives every cluster of `clusters`, in order, the leader its distances
    /// choose. Each cluster is its former leader, its members, and the
    /// distances between its members' data (`dist[i][j]` between members `i`
    /// and `j`); the chosen leader takes the rank of the former leader, and
    /// every member is put directly under it.
    #[verifier::spinoff_prover]
    #[verifier::rlimit(40)]
    pub fn set_leaders_in_clusters(&mut self, clusters: &Vec<(u32, Vec<u32>, Vec<Vec<u32>>)>)
        requires
            old(self).wf(),
            forall|i: int| 0 <= i < clusters@.len() ==> releadable(old(self).parents(), clusters@, i),
        ensures
            final(self).wf(),
            (final(self).parents(), final(self).ranks()) == releaded(old(self).parents(), old(self).ranks(), clusters@),
    {
        let n = clusters.len();
        let mut i: usize = 0;
        let ghost p0 = self.parents();
        let ghost r0 = self.ranks();
        proof {
            assert(clusters@.take(0) =~= Seq::<(u32, Vec<u32>, Vec<Vec<u32>>)>::empty());
            assert forall|j: int| 0 <= j < n implies {
                let l = #[trigger] chosen_leader(clusters@[j]);
                !clusters@[j].1@.contains(l) ==> self.parents()[l] == l
            } by {
                assert(releadable(p0, clusters@, j));
            }
        }
        while i < n
            invariant
                self.wf(),
                n == clusters@.len(),
                i <= n,
                self.parents().dom() == p0.dom(),
                forall|j: int| 0 <= j < n ==> releadable(p0, clusters@, j),
                forall|j: int| i <= j < n ==> {
                    let l = #[trigger] chosen_leader(clusters@[j]);
                    !clusters@[j].1@.contains(l) ==> self.parents()[l] == l
                },
                (self.parents(), self.ranks()) == releaded(p0, r0, clusters@.take(i as int)),
            decreases n - i,
        {
            let c = &clusters[i];
            proof {
                assert(releadable(p0, clusters@, i as int));
                let l = chosen_leader(clusters@[i as int]);
                assert(*c == clusters@[i as int]);
                assert(chosen_leader(*c) == l);
                assert(self.parents().contains_key(c.0));
                assert(self.parents().contains_key(l));
                assert forall|k: int| 0 <= k < c.1@.len() implies self.parents().contains_key(#[trigger] c.1@[k]) by {
                    assert(p0.contains_key(c.1@[k]));
                }
            }
            let ghost pb = self.parents();
            let l = self.set_leader_in_cluster(c.0, &c.1, &c.2);
            proof {
                let t = clusters@.take(i + 1);
                assert(t.drop_last() =~= clusters@.take(i as int));
                assert(t.last() == clusters@[i as int]);
                assert(self.parents().dom() =~= p0.dom());
                assert forall|j: int| i + 1 <= j < n implies {
                    let lj = #[trigger] chosen_leader(clusters@[j]);
                    !clusters@[j].1@.contains(lj) ==> self.parents()[lj] == lj
                } by {
                    let lj = chosen_leader(clusters@[j]);
                    if !clusters@[j].1@.contains(lj) {
                        assert(releadable(p0, clusters@, j));
                        assert(!(clusters@[i as int]).1@.contains(lj));
                        assert(pb.contains_key(lj));
                    }
                }
            }
            i += 1;
        }
        proof {
            assert(clusters@.take(n as int) =~= clusters@);
        }
    }

    /// An empty forest.
    pub fn new() -> (r: Graph)
        ensures
            r.wf(),
            r.parents() == Map::<u32, u32>::empty(),
            r.ranks() == Map::<u32, u32>::empty(),
    {
        let r = Graph { vertices: HashMap::new(), levels: Ghost(Map::empty()), bound: Ghost(1) };
        proof {
            assert(r.parents() =~= Map::<u32, u32>::empty());
            assert(r.ranks() =~= Map::<u32, u32>::empty());
        }
        r
    }
}

} // verus!
