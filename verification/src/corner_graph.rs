//! The integer part of recovering a chessboard grid from dark-square quads:
//! merging coincident quad vertices, keeping the vertices shared by exactly
//! two quads as chessboard corners, joining corners along quad edges, and
//! splitting the corner graph into connected components.
//!
//! Vertex `4 * q + c` is corner `c` (in order around the quad) of quad `q`.
//! Which vertex pairs coincide is decided from the image geometry by the
//! caller and handed in as pairs.

use crate::chessboard::{adjacency_ok, DisjointSet};
use vstd::prelude::*;

verus! {

/// Number of vertices among the first `k` whose class is `r`.
pub open spec fn count_class(classes: Seq<usize>, r: int, k: int) -> nat
    decreases k,
{
    if k <= 0 {
        0
    } else {
        count_class(classes, r, k - 1) + if classes[k - 1] as int == r {
            1nat
        } else {
            0nat
        }
    }
}

/// `v1 < v2` form a whole class of exactly two vertices from different quads.
pub open spec fn is_corner_pair(classes: Seq<usize>, v1: int, v2: int) -> bool {
    &&& 0 <= v1 < v2 < classes.len()
    &&& classes[v1] == classes[v2]
    &&& count_class(classes, classes[v1] as int, classes.len() as int) == 2
    &&& v1 / 4 != v2 / 4
}

/// Corner `a` is the class of vertex `v`.
pub open spec fn corner_at(corners: Seq<(usize, usize)>, classes: Seq<usize>, a: int, v: int) -> bool {
    0 <= a < corners.len() && 0 <= v < classes.len() && classes[corners[a].0 as int] == classes[v]
}

/// The vertex after vertex `t` around its quad.
pub open spec fn next_vertex(t: int) -> int {
    t - t % 4 + (t % 4 + 1) % 4
}

/// Vertex `t` lies in corner `a` and the next vertex of its quad in corner `b`.
pub open spec fn edge_at(corners: Seq<(usize, usize)>, classes: Seq<usize>, a: int, b: int, t: int) -> bool {
    corner_at(corners, classes, a, t) && corner_at(corners, classes, b, next_vertex(t))
}

/// Some quad among the first `quads` has consecutive vertices in corners `a` and `b`.
pub open spec fn quad_edge(corners: Seq<(usize, usize)>, classes: Seq<usize>, quads: int, a: int, b: int) -> bool {
    exists|t: int| 0 <= t < 4 * quads && #[trigger] edge_at(corners, classes, a, b, t)
}

/// Corners `a` and `b` are joined: they differ and some quad edge runs
/// between them in either direction.
pub open spec fn joined(corners: Seq<(usize, usize)>, classes: Seq<usize>, quads: int, a: int, b: int) -> bool {
    a != b && (quad_edge(corners, classes, quads, a, b) || quad_edge(corners, classes, quads, b, a))
}

/// The chessboard corner graph assembled from quads.
pub struct CornerGraph {
    /// The representative of every quad vertex after merging coincident ones.
    pub classes: Vec<usize>,
    /// The two vertices of each corner, ordered by the first.
    pub corners: Vec<(usize, usize)>,
    /// Corners joined along a quad edge.
    pub adjacency: Vec<Vec<usize>>,
    /// Connected components of the corners that have a neighbour.
    pub components: Vec<Vec<usize>>,
}

/// Pair `j < k` joins `u` and `v`, in either order.
pub open spec fn pair_joins(pairs: Seq<(usize, usize)>, k: int, u: int, v: int) -> bool {
    exists|j: int|
        0 <= j < k && ((#[trigger] pairs[j]).0 == u && pairs[j].1 == v || pairs[j].0 == v && pairs[j].1 == u)
}

/// Consecutive entries of `p` are joined by one of the first `k` pairs.
pub open spec fn is_chain(pairs: Seq<(usize, usize)>, k: int, p: Seq<int>) -> bool {
    &&& p.len() >= 1
    &&& forall|i: int| 1 <= i < p.len() ==> pair_joins(pairs, k, p[i - 1], #[trigger] p[i])
}

/// `u` and `v` are linked through a chain of the first `k` pairs.
pub open spec fn linked(pairs: Seq<(usize, usize)>, k: int, u: int, v: int) -> bool {
    exists|p: Seq<int>| #[trigger] is_chain(pairs, k, p) && p[0] == u && p.last() == v
}

proof fn lemma_linked_refl(pairs: Seq<(usize, usize)>, k: int, u: int)
    ensures
        linked(pairs, k, u, u),
{
    assert(is_chain(pairs, k, seq![u]));
}

proof fn lemma_linked_symm(pairs: Seq<(usize, usize)>, k: int, u: int, v: int)
    requires
        linked(pairs, k, u, v),
    ensures
        linked(pairs, k, v, u),
{
    let p = choose|p: Seq<int>| #[trigger] is_chain(pairs, k, p) && p[0] == u && p.last() == v;
    let q = p.reverse();
    assert forall|i: int| 1 <= i < q.len() implies pair_joins(pairs, k, q[i - 1], #[trigger] q[i]) by {
        let a = p.len() - i;
        assert(q[i - 1] == p[a] && q[i] == p[a - 1]);
        assert(pair_joins(pairs, k, p[a - 1], p[a]));
        let j = choose|j: int|
            0 <= j < k && ((#[trigger] pairs[j]).0 == p[a - 1] && pairs[j].1 == p[a] || pairs[j].0 == p[a] && pairs[j].1
                == p[a - 1]);
        assert(pairs[j] == pairs[j]);
    }
    assert(is_chain(pairs, k, q));
}

proof fn lemma_linked_trans(pairs: Seq<(usize, usize)>, k: int, u: int, v: int, w: int)
    requires
        linked(pairs, k, u, v),
        linked(pairs, k, v, w),
    ensures
        linked(pairs, k, u, w),
{
    let p = choose|p: Seq<int>| #[trigger] is_chain(pairs, k, p) && p[0] == u && p.last() == v;
    let q = choose|q: Seq<int>| #[trigger] is_chain(pairs, k, q) && q[0] == v && q.last() == w;
    let r = p + q.skip(1);
    assert forall|i: int| 1 <= i < r.len() implies pair_joins(pairs, k, r[i - 1], #[trigger] r[i]) by {
        if i < p.len() {
            assert(r[i - 1] == p[i - 1] && r[i] == p[i]);
        } else if i == p.len() {
            assert(r[i - 1] == p.last() && r[i] == q[1]);
            assert(pair_joins(pairs, k, q[0], q[1]));
        } else {
            let t = i - p.len() + 1;
            assert(r[i - 1] == q[t - 1] && r[i] == q[t]);
            assert(pair_joins(pairs, k, q[t - 1], q[t]));
        }
    }
    if q.len() == 1 {
        assert(r =~= p);
    } else {
        assert(r.last() == q.last());
    }
    assert(is_chain(pairs, k, r));
}

proof fn lemma_linked_more(pairs: Seq<(usize, usize)>, k: int, k2: int, u: int, v: int)
    requires
        linked(pairs, k, u, v),
        k <= k2,
    ensures
        linked(pairs, k2, u, v),
{
    let p = choose|p: Seq<int>| #[trigger] is_chain(pairs, k, p) && p[0] == u && p.last() == v;
    assert forall|i: int| 1 <= i < p.len() implies pair_joins(pairs, k2, p[i - 1], #[trigger] p[i]) by {
        assert(pair_joins(pairs, k, p[i - 1], p[i]));
        let j = choose|j: int|
            0 <= j < k && ((#[trigger] pairs[j]).0 == p[i - 1] && pairs[j].1 == p[i] || pairs[j].0 == p[i] && pairs[j].1
                == p[i - 1]);
        assert(pairs[j] == pairs[j]);
    }
    assert(is_chain(pairs, k2, p));
}

proof fn lemma_pair_linked(pairs: Seq<(usize, usize)>, k: int, j: int)
    requires
        0 <= j < k,
    ensures
        linked(pairs, k, pairs[j].0 as int, pairs[j].1 as int),
{
    let p = seq![pairs[j].0 as int, pairs[j].1 as int];
    assert(pair_joins(pairs, k, p[0], p[1]));
    assert(is_chain(pairs, k, p));
}

/// Along a chain of pairs whose ends share a class, every entry shares the
/// class of the first.
proof fn lemma_chain_one_class(pairs: Seq<(usize, usize)>, k: int, classes: Seq<usize>, p: Seq<int>, i: int)
    requires
        is_chain(pairs, k, p),
        0 <= i < p.len(),
        k <= pairs.len(),
        forall|j: int| 0 <= j < k ==> classes[(#[trigger] pairs[j]).0 as int] == classes[pairs[j].1 as int],
    ensures
        classes[p[i]] == classes[p[0]],
    decreases i,
{
    if i > 0 {
        lemma_chain_one_class(pairs, k, classes, p, i - 1);
        assert(pair_joins(pairs, k, p[i - 1], p[i]));
        let j = choose|j: int|
            0 <= j < k && ((#[trigger] pairs[j]).0 == p[i - 1] && pairs[j].1 == p[i] || pairs[j].0 == p[i] && pairs[j].1
                == p[i - 1]);
        assert(classes[pairs[j].0 as int] == classes[pairs[j].1 as int]);
    }
}

/// Merges the vertices of each coincident pair and returns every vertex's
/// representative.
fn merge_classes(vertex_count: usize, close_pairs: &[(usize, usize)]) -> (classes: Vec<usize>)
    requires
        forall|k: int|
            0 <= k < close_pairs.len() ==> (#[trigger] close_pairs@[k]).0 < vertex_count && close_pairs@[k].1
                < vertex_count,
    ensures
        classes.len() == vertex_count,
        forall|v: int| 0 <= v < vertex_count ==> #[trigger] classes@[v] < vertex_count,
        forall|v: int| 0 <= v < vertex_count ==> classes@[classes@[v] as int] == #[trigger] classes@[v],
        forall|k: int|
            0 <= k < close_pairs.len() ==> classes@[(#[trigger] close_pairs@[k]).0 as int]
                == classes@[close_pairs@[k].1 as int],
        forall|u: int, v: int|
            0 <= u < vertex_count && 0 <= v < vertex_count ==> (classes@[u] == classes@[v]) == #[trigger] linked(
                close_pairs@,
                close_pairs.len() as int,
                u,
                v,
            ),
{
    let mut sets = DisjointSet::new(vertex_count);
    assert forall|v: int| 0 <= v < vertex_count implies #[trigger] linked(close_pairs@, 0, v, sets@[v]) by {
        lemma_linked_refl(close_pairs@, 0, v);
    }
    let mut k: usize = 0;
    while k < close_pairs.len()
        invariant
            k <= close_pairs.len(),
            sets.wf(),
            sets@.len() == vertex_count,
            forall|j: int|
                0 <= j < close_pairs.len() ==> (#[trigger] close_pairs@[j]).0 < vertex_count && close_pairs@[j].1
                    < vertex_count,
            forall|j: int| 0 <= j < k ==> sets@[(#[trigger] close_pairs@[j]).0 as int] == sets@[close_pairs@[j].1 as int],
            forall|v: int| 0 <= v < vertex_count ==> #[trigger] linked(close_pairs@, k as int, v, sets@[v]),
        decreases close_pairs.len() - k,
    {
        let (a, b) = close_pairs[k];
        let ghost s0 = sets@;
        sets.union(a, b);
        proof {
            let pairs = close_pairs@;
            let k1 = k + 1;
            let ra = s0[a as int];
            let rb = s0[b as int];
            lemma_linked_more(pairs, k as int, k1 as int, a as int, ra);
            lemma_linked_more(pairs, k as int, k1 as int, b as int, rb);
            lemma_pair_linked(pairs, k1 as int, k as int);
            lemma_linked_symm(pairs, k1 as int, a as int, ra);
            lemma_linked_trans(pairs, k1 as int, ra, a as int, b as int);
            lemma_linked_trans(pairs, k1 as int, ra, b as int, rb);
            lemma_linked_symm(pairs, k1 as int, ra, rb);
            lemma_linked_refl(pairs, k1 as int, ra);
            lemma_linked_refl(pairs, k1 as int, rb);
            assert forall|v: int| 0 <= v < vertex_count implies #[trigger] linked(pairs, k1 as int, v, sets@[v]) by {
                lemma_linked_more(pairs, k as int, k1 as int, v, s0[v]);
                if s0[v] == ra || s0[v] == rb {
                    let nr = sets@[a as int];
                    assert(nr == ra || nr == rb);
                    assert(linked(pairs, k1 as int, s0[v], nr));
                    lemma_linked_trans(pairs, k1 as int, v, s0[v], nr);
                }
            }
        }
        assert forall|j: int| 0 <= j < k + 1 implies sets@[(#[trigger] close_pairs@[j]).0 as int]
            == sets@[close_pairs@[j].1 as int] by {
            if j < k {
                assert(s0[close_pairs@[j].0 as int] == s0[close_pairs@[j].1 as int]);
            }
        }
        k = k + 1;
    }
    let mut classes: Vec<usize> = Vec::new();
    let mut v: usize = 0;
    while v < vertex_count
        invariant
            v <= vertex_count,
            sets.wf(),
            sets@.len() == vertex_count,
            classes.len() == v,
            forall|i: int| 0 <= i < v ==> #[trigger] classes@[i] as int == sets@[i],
            forall|j: int|
                0 <= j < close_pairs.len() ==> sets@[(#[trigger] close_pairs@[j]).0 as int] == sets@[close_pairs@[j].1 as int],
            forall|u: int| 0 <= u < vertex_count ==> #[trigger] linked(close_pairs@, close_pairs.len() as int, u, sets@[u]),
        decreases vertex_count - v,
    {
        let ghost s0 = sets@;
        let r = sets.find(v);
        classes.push(r);
        v = v + 1;
    }
    assert forall|i: int| 0 <= i < vertex_count implies #[trigger] classes@[i] < vertex_count && classes@[
        classes@[i] as int] == classes@[i] by {
        sets.lemma_view_roots(i);
    }
    assert forall|k: int| 0 <= k < close_pairs.len() implies classes@[(#[trigger] close_pairs@[k]).0 as int]
        == classes@[close_pairs@[k].1 as int] by {
        assert(classes@[close_pairs@[k].0 as int] as int == sets@[close_pairs@[k].0 as int]);
        assert(classes@[close_pairs@[k].1 as int] as int == sets@[close_pairs@[k].1 as int]);
    }
    assert forall|u: int, v: int| 0 <= u < vertex_count && 0 <= v < vertex_count implies (classes@[u] == classes@[v])
        == #[trigger] linked(close_pairs@, close_pairs.len() as int, u, v) by {
        let pairs = close_pairs@;
        let n = close_pairs.len() as int;
        assert(classes@[u] as int == sets@[u] && classes@[v] as int == sets@[v]);
        if classes@[u] == classes@[v] {
            assert(linked(pairs, n, u, sets@[u]));
            assert(linked(pairs, n, v, sets@[v]));
            lemma_linked_symm(pairs, n, v, sets@[v]);
            lemma_linked_trans(pairs, n, u, sets@[u], v);
        }
        if linked(pairs, n, u, v) {
            let p = choose|p: Seq<int>| #[trigger] is_chain(pairs, n, p) && p[0] == u && p.last() == v;
            lemma_chain_one_class(pairs, n, classes@, p, p.len() - 1);
        }
    }
    classes
}

/// Distinct members of class `r` below `k` number at most its count.
proof fn lemma_count_members(classes: Seq<usize>, r: int, k: int, s: Set<int>)
    requires
        0 <= k <= classes.len(),
        s.finite(),
        forall|u: int| #[trigger] s.contains(u) ==> 0 <= u < k && classes[u] as int == r,
    ensures
        s.len() <= count_class(classes, r, k),
    decreases k,
{
    if k > 0 {
        lemma_count_members(classes, r, k - 1, s.remove(k - 1));
        if s.contains(k - 1) {
            assert(s.remove(k - 1).len() == s.len() - 1);
        } else {
            assert(s.remove(k - 1) =~= s);
        }
    } else {
        assert(s =~= Set::empty());
    }
}

/// Three distinct members make a count of at least three.
proof fn lemma_three_members(classes: Seq<usize>, r: int, a: int, b: int, c: int)
    requires
        0 <= a < b < c < classes.len(),
        classes[a] as int == r,
        classes[b] as int == r,
        classes[c] as int == r,
    ensures
        count_class(classes, r, classes.len() as int) >= 3,
{
    let s = Set::empty().insert(a).insert(b).insert(c);
    assert(s.len() == 3);
    lemma_count_members(classes, r, classes.len() as int, s);
}

/// The smallest and second-smallest member of each class.
fn first_members(classes: &Vec<usize>) -> (fs: (Vec<usize>, Vec<usize>))
    requires
        forall|v: int| 0 <= v < classes.len() ==> #[trigger] classes@[v] < classes.len(),
    ensures
        fs.0.len() == classes.len(),
        fs.1.len() == classes.len(),
        forall|r: int|
            0 <= r < classes.len() ==> {
                let f = #[trigger] fs.0@[r] as int;
                let g = fs.1@[r] as int;
                &&& (f == usize::MAX) == (forall|u: int| 0 <= u < classes.len() ==> classes@[u] as int != r)
                &&& f != usize::MAX ==> 0 <= f < classes.len() && classes@[f] as int == r && forall|u: int|
                    0 <= u < f ==> classes@[u] as int != r
                &&& f != usize::MAX && g != usize::MAX ==> f < g < classes.len() && classes@[g] as int == r
                    && forall|u: int| f < u < g ==> classes@[u] as int != r
                &&& f != usize::MAX && g == usize::MAX ==> forall|u: int|
                    f < u < classes.len() ==> classes@[u] as int != r
            },
{
    let n = classes.len();
    let mut first: Vec<usize> = vec![usize::MAX; n];
    let mut second: Vec<usize> = vec![usize::MAX; n];
    let mut v: usize = 0;
    while v < n
        invariant
            n == classes.len(),
            v <= n,
            first.len() == n,
            second.len() == n,
            forall|u: int| 0 <= u < n ==> #[trigger] classes@[u] < n,
            forall|r: int|
                0 <= r < n ==> {
                    let f = #[trigger] first@[r] as int;
                    let g = second@[r] as int;
                    &&& (f == usize::MAX) == (forall|u: int| 0 <= u < v ==> classes@[u] as int != r)
                    &&& f == usize::MAX ==> g == usize::MAX
                    &&& f != usize::MAX ==> 0 <= f < v && classes@[f] as int == r && forall|u: int|
                        0 <= u < f ==> classes@[u] as int != r
                    &&& f != usize::MAX && g != usize::MAX ==> f < g < v && classes@[g] as int == r && forall|u: int|
                        f < u < g ==> classes@[u] as int != r
                    &&& f != usize::MAX && g == usize::MAX ==> forall|u: int| f < u < v ==> classes@[u] as int != r
                },
        decreases n - v,
    {
        let r = classes[v];
        let ghost f0 = first@;
        let ghost g0 = second@;
        if first[r] == usize::MAX {
            first.set(r, v);
        } else if second[r] == usize::MAX {
            second.set(r, v);
        }
        proof {
            assert forall|rr: int| 0 <= rr < n implies {
                let f = #[trigger] first@[rr] as int;
                let g = second@[rr] as int;
                &&& (f == usize::MAX) == (forall|u: int| 0 <= u < v + 1 ==> classes@[u] as int != rr)
                &&& f == usize::MAX ==> g == usize::MAX
                &&& f != usize::MAX ==> 0 <= f < v + 1 && classes@[f] as int == rr && forall|u: int|
                    0 <= u < f ==> classes@[u] as int != rr
                &&& f != usize::MAX && g != usize::MAX ==> f < g < v + 1 && classes@[g] as int == rr && forall|u: int|
                    f < u < g ==> classes@[u] as int != rr
                &&& f != usize::MAX && g == usize::MAX ==> forall|u: int| f < u < v + 1 ==> classes@[u] as int != rr
            } by {
                let f1 = f0[rr] as int;
                assert(f1 == usize::MAX <==> (forall|u: int| 0 <= u < v ==> classes@[u] as int != rr));
                let g1 = g0[rr] as int;
                assert(f1 == usize::MAX ==> g1 == usize::MAX);
                assert(f1 != usize::MAX ==> 0 <= f1 < v && classes@[f1] as int == rr && forall|u: int|
                    0 <= u < f1 ==> classes@[u] as int != rr);
                assert(f1 != usize::MAX && g1 != usize::MAX ==> f1 < g1 < v && classes@[g1] as int == rr && forall|u: int|
                    f1 < u < g1 ==> classes@[u] as int != rr);
                assert(f1 != usize::MAX && g1 == usize::MAX ==> forall|u: int| f1 < u < v ==> classes@[u] as int != rr);
                if rr != r as int {
                    assert(first@[rr] == f0[rr] && second@[rr] == g0[rr]);
                    assert(classes@[v as int] as int != rr);
                } else {
                    assert(classes@[v as int] as int == rr);
                    if f1 == usize::MAX {
                        assert(first@[rr] as int == v);
                        assert(second@[rr] == g0[rr]);
                    } else if g1 == usize::MAX {
                        assert(first@[rr] == f0[rr]);
                        assert(second@[rr] as int == v);
                    } else {
                        assert(first@[rr] == f0[rr]);
                        assert(second@[rr] == g0[rr]);
                    }
                }
            }
        }
        v = v + 1;
    }
    (first, second)
}

/// The corners: every class of exactly two vertices from different quads,
/// ordered by its smaller vertex.
fn find_corners(classes: &Vec<usize>) -> (corners: Vec<(usize, usize)>)
    requires
        forall|v: int| 0 <= v < classes.len() ==> #[trigger] classes@[v] < classes.len(),
    ensures
        forall|i: int|
            0 <= i < corners.len() ==> is_corner_pair(classes@, (#[trigger] corners@[i]).0 as int, corners@[i].1 as int),
        forall|i: int, j: int| 0 <= i < j < corners.len() ==> (#[trigger] corners@[i]).0 < (#[trigger] corners@[j]).0,
        forall|v1: int, v2: int|
            #[trigger] is_corner_pair(classes@, v1, v2) ==> exists|i: int|
                0 <= i < corners.len() && #[trigger] corners@[i] == (v1 as usize, v2 as usize),
{
    let n = classes.len();
    let mut size: Vec<usize> = vec![0usize; n];
    let mut v: usize = 0;
    while v < n
        invariant
            n == classes.len(),
            v <= n,
            size.len() == n,
            forall|u: int| 0 <= u < n ==> #[trigger] classes@[u] < n,
            forall|r: int| 0 <= r < n ==> #[trigger] size@[r] == count_class(classes@, r, v as int),
            forall|r: int| 0 <= r < n ==> #[trigger] size@[r] <= v,
        decreases n - v,
    {
        let r = classes[v];
        size.set(r, size[r] + 1);
        v = v + 1;
    }
    let (first, second) = first_members(classes);
    let mut corners: Vec<(usize, usize)> = Vec::new();
    let mut v: usize = 0;
    while v < n
        invariant
            n == classes.len(),
            v <= n,
            size.len() == n,
            first.len() == n,
            second.len() == n,
            forall|u: int| 0 <= u < n ==> #[trigger] classes@[u] < n,
            forall|r: int| 0 <= r < n ==> #[trigger] size@[r] == count_class(classes@, r, n as int),
            forall|r: int|
                0 <= r < n ==> {
                    let f = #[trigger] first@[r] as int;
                    let g = second@[r] as int;
                    &&& (f == usize::MAX) == (forall|u: int| 0 <= u < n ==> classes@[u] as int != r)
                    &&& f != usize::MAX ==> 0 <= f < n && classes@[f] as int == r && forall|u: int|
                        0 <= u < f ==> classes@[u] as int != r
                    &&& f != usize::MAX && g != usize::MAX ==> f < g < n && classes@[g] as int == r && forall|u: int|
                        f < u < g ==> classes@[u] as int != r
                    &&& f != usize::MAX && g == usize::MAX ==> forall|u: int| f < u < n ==> classes@[u] as int != r
                },
            forall|i: int|
                0 <= i < corners.len() ==> is_corner_pair(classes@, (#[trigger] corners@[i]).0 as int, corners@[i].1 as int)
                    && corners@[i].0 < v,
            forall|i: int, j: int| 0 <= i < j < corners.len() ==> (#[trigger] corners@[i]).0 < (#[trigger] corners@[j]).0,
            forall|v1: int, v2: int|
                #[trigger] is_corner_pair(classes@, v1, v2) && v1 < v ==> exists|i: int|
                    0 <= i < corners.len() && #[trigger] corners@[i] == (v1 as usize, v2 as usize),
        decreases n - v,
    {
        let r = classes[v];
        let ghost c0 = corners@;
        if first[r] == v && size[r] == 2 && second[r] != usize::MAX && v / 4 != second[r] / 4 {
            corners.push((v, second[r]));
            proof {
                assert forall|i: int, j: int| 0 <= i < j < corners.len() implies (#[trigger] corners@[i]).0 < (
                #[trigger] corners@[j]).0 by {
                    if j < c0.len() {
                        assert(corners@[i] == c0[i] && corners@[j] == c0[j]);
                    } else if i < c0.len() {
                        assert(corners@[i] == c0[i]);
                    }
                }
                assert forall|i: int| 0 <= i < corners.len() implies is_corner_pair(
                    classes@,
                    (#[trigger] corners@[i]).0 as int,
                    corners@[i].1 as int,
                ) && corners@[i].0 < v + 1 by {
                    if i < c0.len() {
                        assert(corners@[i] == c0[i]);
                    }
                }
            }
        }
        proof {
            assert forall|v1: int, v2: int| #[trigger] is_corner_pair(classes@, v1, v2) && v1 < v + 1 implies exists|i: int|
                0 <= i < corners.len() && #[trigger] corners@[i] == (v1 as usize, v2 as usize) by {
                if v1 < v {
                    let i = choose|i: int| 0 <= i < c0.len() && #[trigger] c0[i] == (v1 as usize, v2 as usize);
                    assert(corners@[i] == c0[i]);
                } else {
                    let rr = classes@[v1] as int;
                    let f = first@[rr] as int;
                    let g = second@[rr] as int;
                    assert(f != usize::MAX);
                    if f != v1 {
                        lemma_three_members(classes@, rr, f, v1, v2);
                    }
                    assert(g != usize::MAX) by {
                        if g == usize::MAX {
                            assert(classes@[v2] as int == rr);
                        }
                    }
                    if g < v2 {
                        lemma_three_members(classes@, rr, f, g, v2);
                    }
                    if g > v2 {
                        assert(classes@[v2] as int == rr);
                    }
                    assert(corners@[c0.len() as int] == (v1 as usize, v2 as usize));
                }
            }
        }
        v = v + 1;
    }
    corners
}

/// The corners as produced by `find_corners`.
pub open spec fn corners_ok(classes: Seq<usize>, corners: Seq<(usize, usize)>) -> bool {
    &&& forall|i: int| 0 <= i < corners.len() ==> is_corner_pair(classes, (#[trigger] corners[i]).0 as int, corners[i].1 as int)
    &&& forall|i: int, j: int| 0 <= i < j < corners.len() ==> (#[trigger] corners[i]).0 < (#[trigger] corners[j]).0
}

/// A vertex lies in at most one corner.
proof fn lemma_corner_unique(classes: Seq<usize>, corners: Seq<(usize, usize)>, a: int, b: int, v: int)
    requires
        corners_ok(classes, corners),
        corner_at(corners, classes, a, v),
        corner_at(corners, classes, b, v),
    ensures
        a == b,
{
    if a != b {
        let (i, j) = if a < b {
            (a, b)
        } else {
            (b, a)
        };
        let p = corners[i];
        let q = corners[j];
        assert(is_corner_pair(classes, p.0 as int, p.1 as int));
        assert(is_corner_pair(classes, q.0 as int, q.1 as int));
        assert(p.0 < q.0);
        let r = classes[p.0 as int] as int;
        if q.0 < p.1 {
            lemma_three_members(classes, r, p.0 as int, q.0 as int, p.1 as int);
        } else if q.0 > p.1 {
            lemma_three_members(classes, r, p.0 as int, p.1 as int, q.0 as int);
        } else {
            lemma_three_members(classes, r, p.0 as int, p.1 as int, q.1 as int);
        }
    }
}

/// For each class representative, the corner it forms (`usize::MAX` if none).
fn class_corner_ids(classes: &Vec<usize>, corners: &Vec<(usize, usize)>) -> (ids: Vec<usize>)
    requires
        forall|v: int| 0 <= v < classes.len() ==> #[trigger] classes@[v] < classes.len(),
        corners_ok(classes@, corners@),
    ensures
        ids.len() == classes.len(),
        forall|v: int|
            0 <= v < classes.len() ==> {
                let a = #[trigger] ids@[classes@[v] as int];
                &&& a != usize::MAX ==> a < corners.len() && corner_at(corners@, classes@, a as int, v)
                &&& a == usize::MAX ==> forall|b: int| !corner_at(corners@, classes@, b, v)
            },
{
    let n = classes.len();
    let mut ids: Vec<usize> = vec![usize::MAX; n];
    let mut i: usize = 0;
    while i < corners.len()
        invariant
            n == classes.len(),
            ids.len() == n,
            i <= corners.len(),
            forall|v: int| 0 <= v < n ==> #[trigger] classes@[v] < n,
            corners_ok(classes@, corners@),
            forall|r: int|
                0 <= r < n ==> {
                    let a = #[trigger] ids@[r];
                    &&& a != usize::MAX ==> a < i && classes@[corners@[a as int].0 as int] as int == r
                    &&& a == usize::MAX ==> forall|b: int| 0 <= b < i ==> classes@[corners@[b].0 as int] as int != r
                },
        decreases corners.len() - i,
    {
        let v1 = corners[i].0;
        assert(is_corner_pair(classes@, corners@[i as int].0 as int, corners@[i as int].1 as int));
        let r = classes[v1];
        ids.set(r, i);
        i = i + 1;
    }
    ids
}

/// Adds `b` to the list of `a` unless already there.
fn add_neighbour(adjacency: &mut Vec<Vec<usize>>, a: usize, b: usize)
    requires
        a < old(adjacency).len(),
    ensures
        final(adjacency).len() == old(adjacency).len(),
        final(adjacency)@[a as int]@.no_duplicates() == old(adjacency)@[a as int]@.no_duplicates(),
        forall|x: usize| #[trigger] final(adjacency)@[a as int]@.contains(x) == (old(adjacency)@[a as int]@.contains(x) || x == b),
        forall|u: int| 0 <= u < final(adjacency).len() && u != a ==> #[trigger] final(adjacency)@[u] == old(adjacency)@[u],
{
    let found = crate::chessboard::list_contains(&adjacency[a], b);
    if !found {
        let mut list = adjacency[a].clone();
        let ghost l0 = list@;
        assert(l0 =~= adjacency@[a as int]@);
        list.push(b);
        proof {
            assert forall|x: usize| #[trigger] list@.contains(x) == (l0.contains(x) || x == b) by {
                if list@.contains(x) && x != b {
                    let j = choose|j: int| 0 <= j < list@.len() && list@[j] == x;
                    assert(l0[j] == x);
                }
                if l0.contains(x) {
                    let j = choose|j: int| 0 <= j < l0.len() && l0[j] == x;
                    assert(list@[j] == x);
                }
                if x == b {
                    assert(list@[l0.len() as int] == b);
                }
            }
            if l0.no_duplicates() {
                assert forall|i: int, j: int| 0 <= i < j < list@.len() implies list@[i] != list@[j] by {
                    if j == l0.len() {
                        assert(list@[i] == l0[i]);
                    }
                }
            }
            if !l0.no_duplicates() {
                let (i, j) = choose|i: int, j: int| 0 <= i < l0.len() && 0 <= j < l0.len() && i != j && l0[i] == l0[j];
                assert(list@[i] == list@[j]);
            }
        }
        adjacency.set(a, list);
    }
}

/// Corners `a` and `b` are joined by an edge of a quad vertex below `t`.
pub open spec fn joined_upto(corners: Seq<(usize, usize)>, classes: Seq<usize>, t: int, a: int, b: int) -> bool {
    a != b && exists|u: int|
        #![trigger edge_at(corners, classes, a, b, u)]
        #![trigger edge_at(corners, classes, b, a, u)]
        0 <= u < t && (edge_at(corners, classes, a, b, u) || edge_at(corners, classes, b, a, u))
}

/// Lists of distinct corners, each joined to the corner whose list it is in.
pub open spec fn lists_ok(adj: Seq<Vec<usize>>, n: int) -> bool {
    &&& adj.len() == n
    &&& forall|a: int, i: int| 0 <= a < n && 0 <= i < adj[a]@.len() ==> #[trigger] adj[a]@[i] < n
    &&& forall|a: int| 0 <= a < n ==> (#[trigger] adj[a]@).no_duplicates()
}

/// Joins corners along every quad edge.
fn build_adjacency(classes: &Vec<usize>, corners: &Vec<(usize, usize)>, quads: usize) -> (adj: Vec<Vec<usize>>)
    requires
        classes.len() == 4 * quads,
        forall|v: int| 0 <= v < classes.len() ==> #[trigger] classes@[v] < classes.len(),
        corners_ok(classes@, corners@),
    ensures
        lists_ok(adj@, corners.len() as int),
        forall|a: int, b: int|
            0 <= a < corners.len() && 0 <= b < corners.len() ==> (#[trigger] adj@[a]@.contains(b as usize) == joined(
                corners@,
                classes@,
                quads as int,
                a,
                b,
            )),
{
    let ids = class_corner_ids(classes, corners);
    let nc = corners.len();
    let mut adj: Vec<Vec<usize>> = Vec::new();
    let mut k: usize = 0;
    while k < nc
        invariant
            k <= nc,
            adj.len() == k,
            forall|a: int| 0 <= a < k ==> (#[trigger] adj@[a])@ == Seq::<usize>::empty(),
        decreases nc - k,
    {
        adj.push(Vec::new());
        k = k + 1;
    }
    assert forall|a: int, b: int| 0 <= a < nc && 0 <= b < nc implies (#[trigger] adj@[a]@.contains(b as usize)
        == joined_upto(corners@, classes@, 0, a, b)) by {}
    let n = classes.len();
    let mut t: usize = 0;
    while t < n
        invariant
            n == classes.len(),
            n == 4 * quads,
            nc == corners.len(),
            t <= n,
            ids.len() == n,
            forall|v: int| 0 <= v < n ==> #[trigger] classes@[v] < n,
            corners_ok(classes@, corners@),
            forall|v: int|
                0 <= v < n ==> {
                    let a = #[trigger] ids@[classes@[v] as int];
                    &&& a != usize::MAX ==> a < nc && corner_at(corners@, classes@, a as int, v)
                    &&& a == usize::MAX ==> forall|b: int| !corner_at(corners@, classes@, b, v)
                },
            lists_ok(adj@, nc as int),
            forall|a: int, b: int|
                0 <= a < nc && 0 <= b < nc ==> (#[trigger] adj@[a]@.contains(b as usize) == joined_upto(
                    corners@,
                    classes@,
                    t as int,
                    a,
                    b,
                )),
        decreases n - t,
    {
        let nt = t - t % 4 + (t % 4 + 1) % 4;
        assert(nt as int == next_vertex(t as int));
        let a = ids[classes[t]];
        let b = ids[classes[nt]];
        let ghost adj0 = adj@;
        proof {
            assert forall|x: int, y: int| 0 <= x < nc && 0 <= y < nc implies #[trigger] edge_at(corners@, classes@, x, y, t as int)
                == (a != usize::MAX && b != usize::MAX && x == a && y == b) by {
                if corner_at(corners@, classes@, x, t as int) && a != usize::MAX {
                    lemma_corner_unique(classes@, corners@, x, a as int, t as int);
                }
                if corner_at(corners@, classes@, y, nt as int) && b != usize::MAX {
                    lemma_corner_unique(classes@, corners@, y, b as int, nt as int);
                }
            }
        }
        if a != usize::MAX && b != usize::MAX && a != b {
            add_neighbour(&mut adj, a, b);
            add_neighbour(&mut adj, b, a);
            proof {
                assert forall|x: int, i: int| 0 <= x < nc && 0 <= i < adj@[x]@.len() implies #[trigger] adj@[x]@[i] < nc by {
                    let e = adj@[x]@[i];
                    assert(adj@[x]@.contains(e));
                    if x != a && x != b {
                        assert(adj@[x] == adj0[x]);
                    }
                    if adj0[x]@.contains(e) {
                        let j = choose|j: int| 0 <= j < adj0[x]@.len() && adj0[x]@[j] == e;
                        assert(adj0[x]@[j] < nc);
                    }
                }
                assert forall|x: int| 0 <= x < nc implies (#[trigger] adj@[x]@).no_duplicates() by {
                    if x != a && x != b {
                        assert(adj@[x] == adj0[x]);
                    }
                }
            }
        }
        proof {
            assert forall|x: int, y: int| 0 <= x < nc && 0 <= y < nc implies (#[trigger] adj@[x]@.contains(y as usize)
                == joined_upto(corners@, classes@, t + 1, x, y)) by {
                assert(adj0[x]@.contains(y as usize) == joined_upto(corners@, classes@, t as int, x, y));
                if joined_upto(corners@, classes@, t + 1, x, y) && !joined_upto(corners@, classes@, t as int, x, y) {
                    let u = choose|u: int|
                        #![trigger edge_at(corners@, classes@, x, y, u)]
                        #![trigger edge_at(corners@, classes@, y, x, u)]
                        0 <= u < t + 1 && (edge_at(corners@, classes@, x, y, u) || edge_at(corners@, classes@, y, x, u));
                    assert(u == t);
                    assert(edge_at(corners@, classes@, x, y, t as int) == (a != usize::MAX && b != usize::MAX && x == a
                        && y == b));
                    assert(edge_at(corners@, classes@, y, x, t as int) == (a != usize::MAX && b != usize::MAX && y == a
                        && x == b));
                }
                if joined_upto(corners@, classes@, t as int, x, y) {
                    let u = choose|u: int|
                        #![trigger edge_at(corners@, classes@, x, y, u)]
                        #![trigger edge_at(corners@, classes@, y, x, u)]
                        0 <= u < t && (edge_at(corners@, classes@, x, y, u) || edge_at(corners@, classes@, y, x, u));
                    assert(0 <= u < t + 1);
                }
                if a != usize::MAX && b != usize::MAX && a != b && ((x == a && y == b) || (x == b && y == a)) {
                    assert(edge_at(corners@, classes@, a as int, b as int, t as int));
                }
            }
        }
        t = t + 1;
    }
    proof {
        assert forall|x: int, y: int| 0 <= x < nc && 0 <= y < nc implies joined_upto(corners@, classes@, n as int, x, y)
            == joined(corners@, classes@, quads as int, x, y) by {
            if joined(corners@, classes@, quads as int, x, y) {
                if quad_edge(corners@, classes@, quads as int, x, y) {
                    let u = choose|u: int| 0 <= u < 4 * quads && #[trigger] edge_at(corners@, classes@, x, y, u);
                    assert(edge_at(corners@, classes@, x, y, u));
                } else {
                    let u = choose|u: int| 0 <= u < 4 * quads && #[trigger] edge_at(corners@, classes@, y, x, u);
                    assert(edge_at(corners@, classes@, y, x, u));
                }
            }
            if joined_upto(corners@, classes@, n as int, x, y) {
                let u = choose|u: int|
                    #![trigger edge_at(corners@, classes@, x, y, u)]
                    #![trigger edge_at(corners@, classes@, y, x, u)]
                    0 <= u < n && (edge_at(corners@, classes@, x, y, u) || edge_at(corners@, classes@, y, x, u));
                if edge_at(corners@, classes@, x, y, u) {
                    assert(quad_edge(corners@, classes@, quads as int, x, y));
                } else {
                    assert(quad_edge(corners@, classes@, quads as int, y, x));
                }
            }
        }
    }
    adj
}

/// Every listed neighbour lists the corner back.
pub open spec fn symmetric(adj: Seq<Vec<usize>>) -> bool {
    forall|a: int, b: usize| 0 <= a < adj.len() && #[trigger] adj[a]@.contains(b) ==> adj[b as int]@.contains(a as usize)
}

/// The components: each non-empty, starting at its smallest member, in
/// increasing order of first members, made of corners with a neighbour,
/// closed under adjacency, pairwise disjoint and without repeats.
pub open spec fn components_ok(adj: Seq<Vec<usize>>, comps: Seq<Vec<usize>>) -> bool {
    &&& forall|c: int| 0 <= c < comps.len() ==> (#[trigger] comps[c])@.len() >= 1
    &&& forall|c: int, i: int|
        0 <= c < comps.len() && 0 <= i < comps[c]@.len() ==> {
            let v = #[trigger] comps[c]@[i];
            &&& v < adj.len()
            &&& adj[v as int]@.len() > 0
            &&& comps[c]@[0] <= v
        }
    &&& forall|c1: int, c2: int| 0 <= c1 < c2 < comps.len() ==> (#[trigger] comps[c1])@[0] < (#[trigger] comps[c2])@[0]
    &&& forall|c: int, i: int, x: usize|
        0 <= c < comps.len() && 0 <= i < comps[c]@.len() && #[trigger] adj[comps[c]@[i] as int]@.contains(x)
            ==> comps[c]@.contains(x)
    &&& forall|c1: int, i1: int, c2: int, i2: int|
        0 <= c1 < comps.len() && 0 <= i1 < comps[c1]@.len() && 0 <= c2 < comps.len() && 0 <= i2 < comps[c2]@.len()
            && #[trigger] comps[c1]@[i1] == #[trigger] comps[c2]@[i2] ==> c1 == c2 && i1 == i2
}

/// Every corner with a neighbour lies in some component.
pub open spec fn components_cover(adj: Seq<Vec<usize>>, comps: Seq<Vec<usize>>) -> bool {
    forall|v: int|
        0 <= v < adj.len() && (#[trigger] adj[v]@).len() > 0 ==> exists|c: int, i: int|
            0 <= c < comps.len() && 0 <= i < comps[c]@.len() && #[trigger] comps[c]@[i] == v as usize
}

/// Consecutive entries of `p` are neighbours.
pub open spec fn is_walk(adj: Seq<Vec<usize>>, p: Seq<int>) -> bool {
    &&& p.len() >= 1
    &&& forall|i: int| 1 <= i < p.len() ==> 0 <= p[i - 1] < adj.len() && adj[p[i - 1]]@.contains(#[trigger] p[i] as usize)
}

/// A walk along the adjacency lists leads from `s` to `v`.
pub open spec fn connected(adj: Seq<Vec<usize>>, s: int, v: int) -> bool {
    exists|p: Seq<int>| #[trigger] is_walk(adj, p) && p[0] == s && p.last() == v
}

/// Each component is connected: every member is reached from its first.
pub open spec fn components_connected(adj: Seq<Vec<usize>>, comps: Seq<Vec<usize>>) -> bool {
    forall|c: int, i: int|
        0 <= c < comps.len() && 0 <= i < comps[c]@.len() ==> connected(adj, comps[c]@[0] as int, #[trigger] comps[c]@[i] as int)
}

#[verifier::spinoff_prover]
#[verifier::rlimit(60)]
proof fn lemma_walk_extend(adj: Seq<Vec<usize>>, s: int, v: int, x: usize)
    requires
        connected(adj, s, v),
        0 <= v < adj.len(),
        adj[v]@.contains(x),
    ensures
        connected(adj, s, x as int),
{
    let p = choose|p: Seq<int>| #[trigger] is_walk(adj, p) && p[0] == s && p.last() == v;
    assert(is_walk(adj, p) && p[0] == s && p.last() == v);
    let q = p.push(x as int);
    assert(q.len() == p.len() + 1);
    assert forall|i: int| 1 <= i < q.len() implies 0 <= q[i - 1] < adj.len() && adj[q[i - 1]]@.contains(
        #[trigger] q[i] as usize,
    ) by {
        if i < p.len() {
            assert(q[i] == p[i] && q[i - 1] == p[i - 1]);
            assert(adj[p[i - 1]]@.contains(p[i] as usize));
        } else {
            assert(q[i] == x as int);
            assert(q[i - 1] == p[p.len() - 1]);
        }
    }
    assert(q[0] == s && q.last() == x as int);
    assert(is_walk(adj, q));
}

/// Splits the corners that have a neighbour into connected components, each
/// found breadth-first from its smallest corner.
fn connected_components(adj: &Vec<Vec<usize>>) -> (comps: Vec<Vec<usize>>)
    requires
        lists_ok(adj@, adj.len() as int),
        symmetric(adj@),
    ensures
        components_ok(adj@, comps@),
        components_cover(adj@, comps@),
        components_connected(adj@, comps@),
{
    let n = adj.len();
    let mut seen: Vec<bool> = vec![false; n];
    let mut comps: Vec<Vec<usize>> = Vec::new();
    let ghost mut owner: Seq<int> = Seq::new(n as nat, |i: int| -1);
    let mut start: usize = 0;
    while start < n
        invariant
            n == adj.len(),
            lists_ok(adj@, n as int),
            symmetric(adj@),
            start <= n,
            seen.len() == n,
            owner.len() == n,
            forall|v: int| 0 <= v < n ==> #[trigger] seen@[v] == (owner[v] >= 0),
            forall|v: int| 0 <= v < n && owner[v] >= 0 ==> owner[v] < comps.len() && comps@[owner[v]]@.contains(v as usize),
            forall|c: int, i: int|
                0 <= c < comps.len() && 0 <= i < comps@[c]@.len() ==> owner[(#[trigger] comps@[c]@[i]) as int] == c,
            forall|v: int| 0 <= v < start ==> #[trigger] seen@[v] || adj@[v]@.len() == 0,
            forall|c: int| 0 <= c < comps.len() ==> (#[trigger] comps@[c])@[0] < start,
            components_ok(adj@, comps@),
            components_connected(adj@, comps@),
        decreases n - start,
    {
        if !seen[start] && adj[start].len() > 0 {
            let mut queue: Vec<usize> = Vec::new();
            queue.push(start);
            let ghost seen0 = seen@;
            seen.set(start, true);
            proof {
                assert forall|v: int| 0 <= v < n implies #[trigger] seen@[v] == (owner[v] >= 0 || queue@.contains(
                    v as usize,
                )) by {
                    if v == start {
                        assert(queue@[0] == start);
                    } else {
                        assert(seen@[v] == seen0[v]);
                        if queue@.contains(v as usize) {
                            let j = choose|j: int| 0 <= j < queue@.len() && queue@[j] == v as usize;
                        }
                    }
                }
                assert forall|v: int| 0 <= v < start implies (owner[v] >= 0 || adj@[v]@.len() == 0) by {
                    assert(seen0[v] || adj@[v]@.len() == 0);
                }
                assert(is_walk(adj@, seq![start as int]));
                assert(connected(adj@, start as int, queue@[0] as int));
            }
            let mut head: usize = 0;
            while head < queue.len()
                invariant
                    n == adj.len(),
                    lists_ok(adj@, n as int),
                    symmetric(adj@),
                    start < n,
                    seen.len() == n,
                    owner.len() == n,
                    head <= queue.len(),
                    queue.len() <= n,
                    queue@.len() >= 1,
                    queue@[0] == start,
                    queue@.no_duplicates(),
                    forall|i: int| 0 <= i < queue.len() ==> {
                        let v = #[trigger] queue@[i];
                        &&& v < n
                        &&& start <= v
                        &&& adj@[v as int]@.len() > 0
                        &&& owner[v as int] < 0
                    },
                    forall|v: int| 0 <= v < n ==> #[trigger] seen@[v] == (owner[v] >= 0 || queue@.contains(v as usize)),
                    forall|v: int| 0 <= v < n && owner[v] >= 0 ==> owner[v] < comps.len() && comps@[owner[v]]@.contains(v as usize),
                    forall|c: int, i: int|
                        0 <= c < comps.len() && 0 <= i < comps@[c]@.len() ==> owner[(#[trigger] comps@[c]@[i]) as int] == c,
                    forall|v: int| 0 <= v < start ==> (owner[v] >= 0 || adj@[v]@.len() == 0),
                    forall|i: int, x: usize| 0 <= i < head && #[trigger] adj@[queue@[i] as int]@.contains(x) ==> queue@.contains(x),
                    components_ok(adj@, comps@),
                    components_connected(adj@, comps@),
                    forall|i: int| 0 <= i < queue.len() ==> connected(adj@, start as int, #[trigger] queue@[i] as int),
                decreases n - head,
            {
                let v = queue[head];
                let mut k: usize = 0;
                while k < adj[v].len()
                    invariant
                        n == adj.len(),
                        lists_ok(adj@, n as int),
                        symmetric(adj@),
                        start < n,
                        seen.len() == n,
                        owner.len() == n,
                        head < queue.len(),
                        v == queue@[head as int],
                        queue.len() <= n,
                        queue@.len() >= 1,
                        queue@[0] == start,
                        queue@.no_duplicates(),
                        k <= adj@[v as int]@.len(),
                        forall|i: int| 0 <= i < queue.len() ==> {
                            let u = #[trigger] queue@[i];
                            &&& u < n
                            &&& start <= u
                            &&& adj@[u as int]@.len() > 0
                            &&& owner[u as int] < 0
                        },
                        forall|u: int| 0 <= u < n ==> #[trigger] seen@[u] == (owner[u] >= 0 || queue@.contains(u as usize)),
                        forall|u: int| 0 <= u < n && owner[u] >= 0 ==> owner[u] < comps.len() && comps@[owner[u]]@.contains(u as usize),
                        forall|c: int, i: int|
                            0 <= c < comps.len() && 0 <= i < comps@[c]@.len() ==> owner[(#[trigger] comps@[c]@[i]) as int] == c,
                        forall|u: int| 0 <= u < start ==> (owner[u] >= 0 || adj@[u]@.len() == 0),
                        forall|i: int, x: usize| 0 <= i < head && #[trigger] adj@[queue@[i] as int]@.contains(x) ==> queue@.contains(x),
                        forall|j: int| 0 <= j < k ==> queue@.contains(#[trigger] adj@[v as int]@[j]),
                        components_ok(adj@, comps@),
                        components_connected(adj@, comps@),
                        forall|i: int| 0 <= i < queue.len() ==> connected(adj@, start as int, #[trigger] queue@[i] as int),
                    decreases adj@[v as int]@.len() - k,
                {
                    let x = adj[v][k];
                    assert(adj@[v as int]@.contains(x));
                    if !seen[x] {
                        let ghost q0 = queue@;
                        assert(!q0.contains(x));
                        proof {
                            assert(adj@[x as int]@.contains(v));
                            crate::chessboard::lemma_distinct_below(q0.push(x), n as int);
                            if x < start {
                                assert(owner[x as int] >= 0 || adj@[x as int]@.len() == 0);
                            }
                        }
                        proof {
                            assert(connected(adj@, start as int, queue@[head as int] as int));
                            lemma_walk_extend(adj@, start as int, v as int, x);
                        }
                        queue.push(x);
                        seen.set(x, true);
                        proof {
                            assert forall|i: int| 0 <= i < queue.len() implies connected(
                                adj@,
                                start as int,
                                #[trigger] queue@[i] as int,
                            ) by {
                                if i < q0.len() {
                                    assert(queue@[i] == q0[i]);
                                }
                            }
                            assert forall|i: int| 0 <= i < queue.len() implies {
                                let u = #[trigger] queue@[i];
                                &&& u < n
                                &&& start <= u
                                &&& adj@[u as int]@.len() > 0
                                &&& owner[u as int] < 0
                            } by {
                                if i < q0.len() {
                                    assert(queue@[i] == q0[i]);
                                }
                            }
                            assert(queue@.no_duplicates()) by {
                                assert forall|i: int, j: int| 0 <= i < j < queue.len() implies queue@[i] != queue@[j] by {
                                    assert(queue@[i] == q0[i]);
                                    if j < q0.len() {
                                        assert(queue@[j] == q0[j]);
                                    }
                                }
                            }
                            assert forall|u: int| 0 <= u < n implies #[trigger] seen@[u] == (owner[u] >= 0 || queue@.contains(
                                u as usize,
                            )) by {
                                if q0.contains(u as usize) {
                                    let j = choose|j: int| 0 <= j < q0.len() && q0[j] == u as usize;
                                    assert(queue@[j] == u as usize);
                                }
                                if u == x {
                                    assert(queue@[q0.len() as int] == x);
                                }
                                if queue@.contains(u as usize) && u != x {
                                    let j = choose|j: int| 0 <= j < queue@.len() && queue@[j] == u as usize;
                                    assert(q0[j] == u as usize);
                                }
                            }
                            assert forall|i: int, y: usize| 0 <= i < head && #[trigger] adj@[queue@[i] as int]@.contains(y) implies queue@.contains(y) by {
                                assert(queue@[i] == q0[i]);
                                assert(q0.contains(y));
                                let j = choose|j: int| 0 <= j < q0.len() && q0[j] == y;
                                assert(queue@[j] == y);
                            }
                            assert forall|j: int| 0 <= j < k + 1 implies queue@.contains(#[trigger] adj@[v as int]@[j]) by {
                                if j < k {
                                    let y = adj@[v as int]@[j];
                                    assert(q0.contains(y));
                                    let jj = choose|jj: int| 0 <= jj < q0.len() && q0[jj] == y;
                                    assert(queue@[jj] == y);
                                } else {
                                    assert(queue@[q0.len() as int] == x);
                                }
                            }
                        }
                    } else {
                        proof {
                            if owner[x as int] >= 0 {
                                let c = owner[x as int];
                                let cc = comps@[c];
                                assert(cc@.contains(x));
                                let i = choose|i: int| 0 <= i < cc@.len() && cc@[i] == x;
                                assert(adj@[x as int]@.contains(v));
                                assert(adj@[cc@[i] as int]@.contains(v));
                                assert(cc@.contains(v));
                                let j = choose|j: int| 0 <= j < cc@.len() && cc@[j] == v;
                                assert(owner[cc@[j] as int] == c);
                                assert(false);
                            }
                        }
                    }
                    k = k + 1;
                }
                proof {
                    assert forall|i: int, y: usize| 0 <= i < head + 1 && #[trigger] adj@[queue@[i] as int]@.contains(y) implies queue@.contains(y) by {
                        if i == head {
                            let j = choose|j: int| 0 <= j < adj@[v as int]@.len() && adj@[v as int]@[j] == y;
                            assert(queue@.contains(adj@[v as int]@[j]));
                        }
                    }
                }
                head = head + 1;
            }
            let ghost c_new = comps.len() as int;
            let ghost q = queue@;
            let ghost comps0 = comps@;
            let ghost owner0 = owner;
            proof {
                owner = Seq::new(n as nat, |u: int| if q.contains(u as usize) { c_new } else { owner0[u] });
            }
            comps.push(queue);
            proof {
                assert(comps@[c_new]@ == q);
                assert forall|c: int| 0 <= c < comps.len() implies (#[trigger] comps@[c])@.len() >= 1 by {
                    if c < c_new {
                        assert(comps@[c] == comps0[c]);
                    }
                }
                assert forall|c: int, i: int| 0 <= c < comps.len() && 0 <= i < comps@[c]@.len() implies owner[(
                #[trigger] comps@[c]@[i]) as int] == c by {
                    if c < c_new {
                        assert(comps@[c] == comps0[c]);
                        assert(owner0[comps0[c]@[i] as int] == c);
                        if q.contains(comps0[c]@[i]) {
                            let j = choose|j: int| 0 <= j < q.len() && q[j] == comps0[c]@[i];
                            assert(owner0[q[j] as int] < 0);
                        }
                    } else {
                        assert(q.contains(q[i]));
                    }
                }
                assert forall|u: int| 0 <= u < n && owner[u] >= 0 implies owner[u] < comps.len() && comps@[owner[u]]@.contains(
                    u as usize,
                ) by {
                    if !q.contains(u as usize) {
                        assert(comps@[owner0[u]] == comps0[owner0[u]]);
                    }
                }
                assert forall|c: int, i: int|
                    0 <= c < comps.len() && 0 <= i < comps@[c]@.len() implies {
                        let v = #[trigger] comps@[c]@[i];
                        &&& v < adj.len()
                        &&& adj@[v as int]@.len() > 0
                        &&& comps@[c]@[0] <= v
                    } by {
                    if c < c_new {
                        assert(comps@[c] == comps0[c]);
                    }
                }
                assert forall|c: int, i: int| 0 <= c < comps.len() && 0 <= i < comps@[c]@.len() implies connected(
                    adj@,
                    comps@[c]@[0] as int,
                    #[trigger] comps@[c]@[i] as int,
                ) by {
                    if c < c_new {
                        assert(comps@[c] == comps0[c]);
                    }
                }
                assert forall|c1: int, c2: int| 0 <= c1 < c2 < comps.len() implies (#[trigger] comps@[c1])@[0] < (
                #[trigger] comps@[c2])@[0] by {
                    assert(comps@[c1] == comps0[c1]);
                    if c2 < c_new {
                        assert(comps@[c2] == comps0[c2]);
                    }
                }
                assert forall|c: int, i: int, x: usize|
                    0 <= c < comps.len() && 0 <= i < comps@[c]@.len() && #[trigger] adj@[comps@[c]@[i] as int]@.contains(x)
                        implies comps@[c]@.contains(x) by {
                    if c < c_new {
                        assert(comps@[c] == comps0[c]);
                    }
                }
                assert forall|c1: int, i1: int, c2: int, i2: int|
                    0 <= c1 < comps.len() && 0 <= i1 < comps@[c1]@.len() && 0 <= c2 < comps.len() && 0 <= i2
                        < comps@[c2]@.len() && #[trigger] comps@[c1]@[i1] == #[trigger] comps@[c2]@[i2] implies c1 == c2
                        && i1 == i2 by {
                    assert(owner[comps@[c1]@[i1] as int] == c1);
                    assert(owner[comps@[c2]@[i2] as int] == c2);
                    if c1 == c2 && c1 < c_new {
                        assert(comps@[c1] == comps0[c1]);
                    }
                }
            }
        }
        start = start + 1;
    }
    assert forall|u: int|
        0 <= u < adj.len() && (#[trigger] adj@[u]@).len() > 0 implies exists|c: int, i: int|
            0 <= c < comps.len() && 0 <= i < comps@[c]@.len() && #[trigger] comps@[c]@[i] == u as usize by {
        assert(seen@[u]);
        let c = owner[u];
        let j = choose|j: int| 0 <= j < comps@[c]@.len() && comps@[c]@[j] == u as usize;
        assert(comps@[c]@[j] == u as usize);
    }
    comps
}

/// Assembles the corner graph of `quad_count` quads whose coincident vertex
/// pairs are `close_pairs`: vertices are merged along the pairs (two vertices
/// share a class exactly when a chain of pairs links them), every class
/// of exactly two vertices from two different quads is a corner, corners are
/// joined along quad edges, and the corners with a neighbour are split into
/// connected components.
pub fn corner_graph(quad_count: usize, close_pairs: &[(usize, usize)]) -> (g: CornerGraph)
    requires
        4 * quad_count <= usize::MAX,
        forall|k: int|
            0 <= k < close_pairs.len() ==> (#[trigger] close_pairs@[k]).0 < 4 * quad_count && close_pairs@[k].1 < 4
                * quad_count,
    ensures
        g.classes.len() == 4 * quad_count,
        forall|v: int| 0 <= v < g.classes.len() ==> #[trigger] g.classes@[v] < g.classes.len(),
        forall|v: int| 0 <= v < g.classes.len() ==> g.classes@[g.classes@[v] as int] == #[trigger] g.classes@[v],
        forall|k: int|
            0 <= k < close_pairs.len() ==> g.classes@[(#[trigger] close_pairs@[k]).0 as int]
                == g.classes@[close_pairs@[k].1 as int],
        forall|u: int, v: int|
            0 <= u < g.classes.len() && 0 <= v < g.classes.len() ==> (g.classes@[u] == g.classes@[v])
                == #[trigger] linked(close_pairs@, close_pairs.len() as int, u, v),
        corners_ok(g.classes@, g.corners@),
        forall|v1: int, v2: int|
            #[trigger] is_corner_pair(g.classes@, v1, v2) ==> exists|i: int|
                0 <= i < g.corners.len() && #[trigger] g.corners@[i] == (v1 as usize, v2 as usize),
        lists_ok(g.adjacency@, g.corners.len() as int),
        forall|a: int, b: int|
            0 <= a < g.corners.len() && 0 <= b < g.corners.len() ==> (#[trigger] g.adjacency@[a]@.contains(b as usize)
                == joined(g.corners@, g.classes@, quad_count as int, a, b)),
        components_ok(g.adjacency@, g.components@),
        components_cover(g.adjacency@, g.components@),
        components_connected(g.adjacency@, g.components@),
{
    let classes = merge_classes(4 * quad_count, close_pairs);
    let corners = find_corners(&classes);
    let adjacency = build_adjacency(&classes, &corners, quad_count);
    proof {
        assert forall|a: int, b: usize| 0 <= a < adjacency@.len() && #[trigger] adjacency@[a]@.contains(b) implies adjacency@[
            b as int]@.contains(a as usize) by {
            let j = choose|j: int| 0 <= j < adjacency@[a]@.len() && adjacency@[a]@[j] == b;
            assert(adjacency@[a]@[j] < corners.len());
            let bi = b as int;
            assert(adjacency@[a]@.contains(bi as usize));
            assert(joined(corners@, classes@, quad_count as int, a, bi));
            assert(adjacency@[bi]@.contains(a as usize) == joined(corners@, classes@, quad_count as int, bi, a));
            assert(joined(corners@, classes@, quad_count as int, b as int, a));
        }
    }
    let components = connected_components(&adjacency);
    let g = CornerGraph { classes, corners, adjacency, components };
    assert forall|v1: int, v2: int| #[trigger] is_corner_pair(g.classes@, v1, v2) implies exists|i: int|
        0 <= i < g.corners.len() && #[trigger] g.corners@[i] == (v1 as usize, v2 as usize) by {
        assert(is_corner_pair(classes@, v1, v2));
        let i = choose|i: int| 0 <= i < corners.len() && #[trigger] corners@[i] == (v1 as usize, v2 as usize);
        assert(g.corners@[i] == (v1 as usize, v2 as usize));
    }
    g
}

} // verus!
