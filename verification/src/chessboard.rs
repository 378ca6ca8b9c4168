//! Integer graph logic of the chessboard detector: the union-find that merges
//! coincident square vertices, the Otsu labels and the erosion that separates
//! diagonally touching squares, breadth-first distances, and the validation
//! and candidate orders of the corner graph as a grid.

use vstd::arithmetic::power2::*;
use vstd::prelude::*;
use vstd::set_lib::*;

verus! {

/// Following the parent link of `x` climbs to a strictly higher rank.
pub open spec fn climbs(parent: Seq<usize>, rank: Seq<u8>, x: int) -> bool {
    &&& 0 <= x < parent.len()
    &&& parent.len() == rank.len()
    &&& parent[x] as int != x
    &&& parent[x] < parent.len()
    &&& rank[x] < rank[parent[x] as int]
}

/// The representative reached from `x` by following rank-increasing parent links.
pub open spec fn root_of(parent: Seq<usize>, rank: Seq<u8>, x: int) -> int
    decreases 256 - rank[x],
{
    if climbs(parent, rank, x) {
        root_of(parent, rank, parent[x] as int)
    } else {
        x
    }
}

/// `z` lies on the path of parent links from `x` up to its representative.
pub open spec fn on_path(parent: Seq<usize>, rank: Seq<u8>, x: int, z: int) -> bool
    decreases 256 - rank[x],
{
    z == x || (climbs(parent, rank, x) && on_path(parent, rank, parent[x] as int, z))
}

/// Parent links stay in range and every non-root link climbs in rank.
pub open spec fn forest_ok(parent: Seq<usize>, rank: Seq<u8>) -> bool {
    &&& parent.len() == rank.len()
    &&& forall|i: int| 0 <= i < parent.len() ==> #[trigger] parent[i] < parent.len()
    &&& forall|i: int|
        0 <= i < parent.len() && #[trigger] parent[i] as int != i ==> rank[i] < rank[parent[i] as int]
}

/// The elements whose representative is `r`.
pub open spec fn class_of(parent: Seq<usize>, rank: Seq<u8>, r: int) -> Set<int> {
    Set::new(|x: int| 0 <= x < parent.len() && root_of(parent, rank, x) == r)
}

/// Every root of rank `k` represents at least `2^k` elements.
pub open spec fn ranks_bounded(parent: Seq<usize>, rank: Seq<u8>) -> bool {
    forall|r: int|
        0 <= r < parent.len() && #[trigger] parent[r] as int == r ==> pow2(rank[r] as nat)
            <= class_of(parent, rank, r).len()
}

proof fn lemma_root_props(parent: Seq<usize>, rank: Seq<u8>, x: int)
    requires
        forest_ok(parent, rank),
        0 <= x < parent.len(),
    ensures
        0 <= root_of(parent, rank, x) < parent.len(),
        parent[root_of(parent, rank, x)] as int == root_of(parent, rank, x),
        root_of(parent, rank, root_of(parent, rank, x)) == root_of(parent, rank, x),
        rank[x] <= rank[root_of(parent, rank, x)],
        root_of(parent, rank, x) != x ==> rank[x] < rank[root_of(parent, rank, x)],
        parent[x] as int == x ==> root_of(parent, rank, x) == x,
    decreases 256 - rank[x],
{
    assert(parent[x] < parent.len());
    if climbs(parent, rank, x) {
        lemma_root_props(parent, rank, parent[x] as int);
    } else {
        assert(parent[x] as int == x);
    }
}

proof fn lemma_class_finite(parent: Seq<usize>, rank: Seq<u8>, r: int)
    ensures
        class_of(parent, rank, r).finite(),
        class_of(parent, rank, r).len() <= parent.len(),
{
    lemma_int_range(0, parent.len() as int);
    lemma_len_subset(class_of(parent, rank, r), set_int_range(0, parent.len() as int));
}

/// Pointing `y` straight at its representative changes no representative.
proof fn lemma_compress(parent: Seq<usize>, rank: Seq<u8>, y: int, z: int)
    requires
        forest_ok(parent, rank),
        0 <= y < parent.len(),
        0 <= z < parent.len(),
    ensures
        forest_ok(parent.update(y, root_of(parent, rank, y) as usize), rank),
        root_of(parent.update(y, root_of(parent, rank, y) as usize), rank, z) == root_of(
            parent,
            rank,
            z,
        ),
    decreases 256 - rank[z],
{
    let r = root_of(parent, rank, y);
    let p2 = parent.update(y, r as usize);
    lemma_root_props(parent, rank, y);
    assert(forest_ok(p2, rank)) by {
        assert forall|i: int| 0 <= i < p2.len() && #[trigger] p2[i] as int != i implies rank[i]
            < rank[p2[i] as int] by {
            if i == y {
            } else {
                assert(p2[i] == parent[i]);
            }
        }
    }
    lemma_root_props(parent, rank, z);
    if z == y {
        if r != y {
            assert(climbs(p2, rank, y));
            assert(p2[r] == parent[r]);
            assert(!climbs(p2, rank, r));
            assert(root_of(p2, rank, r) == r);
        } else {
            assert(p2 =~= parent);
        }
    } else {
        assert(p2[z] == parent[z]);
        if climbs(parent, rank, z) {
            assert(climbs(p2, rank, z));
            lemma_compress(parent, rank, y, parent[z] as int);
        } else {
            assert(!climbs(p2, rank, z));
        }
    }
}

/// Linking root `b` under root `a` moves exactly the class of `b` to `a`.
proof fn lemma_link(parent: Seq<usize>, rank: Seq<u8>, rank2: Seq<u8>, a: int, b: int, z: int)
    requires
        forest_ok(parent, rank),
        0 <= a < parent.len(),
        0 <= b < parent.len(),
        a != b,
        parent[a] as int == a,
        parent[b] as int == b,
        rank2.len() == rank.len(),
        forall|i: int| 0 <= i < rank.len() && i != a ==> rank2[i] == rank[i],
        rank[a] <= rank2[a],
        rank[b] < rank2[a],
        0 <= z < parent.len(),
    ensures
        forest_ok(parent.update(b, a as usize), rank2),
        root_of(parent.update(b, a as usize), rank2, z) == (if root_of(parent, rank, z) == b {
            a
        } else {
            root_of(parent, rank, z)
        }),
    decreases 256 - rank[z],
{
    let p2 = parent.update(b, a as usize);
    assert(forest_ok(p2, rank2)) by {
        assert forall|i: int| 0 <= i < p2.len() && #[trigger] p2[i] as int != i implies rank2[i]
            < rank2[p2[i] as int] by {
            if i == b {
            } else {
                assert(p2[i] == parent[i]);
                assert(parent[i] as int != i);
                assert(rank[i] < rank[parent[i] as int]);
                assert(i != a);
            }
        }
    }
    lemma_root_props(parent, rank, z);
    if z == b {
        assert(climbs(p2, rank2, b));
        assert(p2[a] == parent[a]);
        assert(!climbs(p2, rank2, a));
        assert(root_of(p2, rank2, a) == a);
    } else if z == a {
        assert(!climbs(p2, rank2, a));
    } else {
        assert(p2[z] == parent[z]);
        if climbs(parent, rank, z) {
            assert(climbs(p2, rank2, z));
            lemma_link(parent, rank, rank2, a, b, parent[z] as int);
        } else {
            assert(!climbs(p2, rank2, z));
        }
    }
}

/// Union-find over `0..n` with path compression and union by rank.
pub struct DisjointSet {
    parent: Vec<usize>,
    rank: Vec<u8>,
}

impl View for DisjointSet {
    /// The representative of each element.
    type V = Seq<int>;

    closed spec fn view(&self) -> Seq<int> {
        Seq::new(self.parent@.len(), |i: int| root_of(self.parent@, self.rank@, i))
    }
}

impl DisjointSet {
    /// The forest is well formed: links in range, ranks climbing along links,
    /// and every root of rank `k` representing at least `2^k` elements.
    pub closed spec fn wf(&self) -> bool {
        &&& forest_ok(self.parent@, self.rank@)
        &&& ranks_bounded(self.parent@, self.rank@)
    }

    /// Representatives lie in range and represent themselves.
    pub proof fn lemma_view_roots(&self, i: int)
        requires
            self.wf(),
            0 <= i < self@.len(),
        ensures
            0 <= self@[i] < self@.len(),
            self@[self@[i]] == self@[i],
    {
        lemma_root_props(self.parent@, self.rank@, i);
    }

    /// The rank of every element.
    pub closed spec fn ranks(&self) -> Seq<u8> {
        self.rank@
    }

    /// The parent link of every element.
    pub closed spec fn parents(&self) -> Seq<usize> {
        self.parent@
    }

    /// How many rank levels remain above `x`; bounds the length of its path.
    pub closed spec fn climb_room(&self, x: int) -> int {
        256 - self.rank@[x]
    }

    /// `n` singleton classes.
    pub fn new(n: usize) -> (s: Self)
        ensures
            s.wf(),
            s@ == Seq::new(n as nat, |i: int| i),
    {
        let mut parent: Vec<usize> = Vec::new();
        let mut rank: Vec<u8> = Vec::new();
        let mut i: usize = 0;
        while i < n
            invariant
                i <= n,
                parent@.len() == i,
                rank@.len() == i,
                forall|k: int| 0 <= k < i ==> #[trigger] parent@[k] == k && rank@[k] == 0,
            decreases n - i,
        {
            parent.push(i);
            rank.push(0u8);
            i = i + 1;
        }
        let s = DisjointSet { parent, rank };
        assert forall|x: int| 0 <= x < n implies root_of(s.parent@, s.rank@, x) == x by {
            assert(!climbs(s.parent@, s.rank@, x));
        }
        assert forall|r: int|
            0 <= r < s.parent@.len() && #[trigger] s.parent@[r] as int == r implies pow2(
            s.rank@[r] as nat,
        ) <= class_of(s.parent@, s.rank@, r).len() by {
            assert(class_of(s.parent@, s.rank@, r) =~= Set::empty().insert(r));
            lemma2_to64();
        }
        assert(s@ =~= Seq::new(n as nat, |i: int| i));
        s
    }

    /// The representative of `x`; compresses the path from `x` on the way.
    pub fn find(&mut self, x: usize) -> (r: usize)
        requires
            old(self).wf(),
            x < old(self)@.len(),
        ensures
            final(self).wf(),
            final(self)@ == old(self)@,
            final(self).ranks() == old(self).ranks(),
            r == old(self)@[x as int],
            final(self).parents().len() == old(self).parents().len(),
            forall|z: int|
                0 <= z < old(self).parents().len() ==> #[trigger] final(self).parents()[z] == if on_path(
                    old(self).parents(),
                    old(self).ranks(),
                    x as int,
                    z,
                ) {
                    r
                } else {
                    old(self).parents()[z]
                },
        decreases old(self).climb_room(x as int),
    {
        proof {
            lemma_root_props(self.parent@, self.rank@, x as int);
        }
        let p = self.parent[x];
        if p != x {
            let ghost p0 = self.parent@;
            let ghost rk = self.rank@;
            assert(climbs(p0, rk, x as int));
            let r = self.find(p);
            let ghost p1 = self.parent@;
            proof {
                assert(self@[p as int] == root_of(p1, rk, p as int));
                assert(old(self)@[p as int] == root_of(p0, rk, p as int));
                assert(root_of(p1, rk, p as int) == root_of(p0, rk, p as int));
                assert(root_of(p0, rk, x as int) == root_of(p0, rk, p as int));
                assert forall|i: int| 0 <= i < p1.len() implies root_of(p1, rk, i) == root_of(
                    p0,
                    rk,
                    i,
                ) by {
                    assert(self@[i] == root_of(p1, rk, i));
                }
                assert(root_of(p1, rk, x as int) == r);
            }
            self.parent.set(x, r);
            proof {
                let p2 = self.parent@;
                assert(p2 =~= p1.update(x as int, root_of(p1, rk, x as int) as usize));
                assert forall|z: int| 0 <= z < p2.len() implies root_of(p2, rk, z) == root_of(
                    p0,
                    rk,
                    z,
                ) by {
                    lemma_compress(p1, rk, x as int, z);
                }
                lemma_compress(p1, rk, x as int, 0);
                assert(self@ =~= old(self)@);
                assert forall|z: int| 0 <= z < p2.len() implies #[trigger] p2[z] == if on_path(p0, rk, x as int, z) {
                    r
                } else {
                    p0[z]
                } by {
                    assert(on_path(p0, rk, x as int, z) == (z == x || on_path(p0, rk, p as int, z)));
                }
                assert forall|q: int|
                    0 <= q < p2.len() && #[trigger] p2[q] as int == q implies pow2(rk[q] as nat)
                    <= class_of(p2, rk, q).len() by {
                    assert(p1[q] as int == q);
                    assert(class_of(p2, rk, q) =~= class_of(p1, rk, q));
                }
            }
        }
        self.parent[x]
    }

    /// Merge the classes of `a` and `b`. The class with the lower-ranked root
    /// joins the other; the representative of the merged class is one of the
    /// two former representatives, and no other class changes.
    pub fn union(&mut self, a: usize, b: usize)
        requires
            old(self).wf(),
            a < old(self)@.len(),
            b < old(self)@.len(),
        ensures
            final(self).wf(),
            final(self)@.len() == old(self)@.len(),
            final(self)@[a as int] == final(self)@[b as int],
            old(self)@[a as int] != old(self)@[b as int] ==> final(self)@[a as int] == (if old(self).ranks()[old(
                self,
            )@[a as int]] < old(self).ranks()[old(self)@[b as int]] {
                old(self)@[b as int]
            } else {
                old(self)@[a as int]
            }),
            old(self)@[a as int] == old(self)@[b as int] ==> final(self)@ == old(self)@ && final(self).ranks() == old(
                self,
            ).ranks(),
            old(self)@[a as int] != old(self)@[b as int] ==> final(self).ranks() == (if old(self).ranks()[old(
                self,
            )@[a as int]] == old(self).ranks()[old(self)@[b as int]] {
                old(self).ranks().update(old(self)@[a as int], (old(self).ranks()[old(self)@[a as int]] + 1) as u8)
            } else {
                old(self).ranks()
            }),
            forall|i: int|
                0 <= i < old(self)@.len() ==> #[trigger] final(self)@[i] == (if old(self)@[i]
                    == old(self)@[a as int] || old(self)@[i] == old(self)@[b as int] {
                    final(self)@[a as int]
                } else {
                    old(self)@[i]
                }),
    {
        let mut ra = self.find(a);
        let mut rb = self.find(b);
        proof {
            lemma_root_props(self.parent@, self.rank@, a as int);
            lemma_root_props(self.parent@, self.rank@, b as int);
        }
        if ra == rb {
            return;
        }
        if self.rank[ra] < self.rank[rb] {
            let t = ra;
            ra = rb;
            rb = t;
        }
        let ghost p0 = self.parent@;
        let ghost rk0 = self.rank@;
        proof {
            lemma_root_props(p0, rk0, a as int);
            lemma_root_props(p0, rk0, b as int);
            assert(p0[ra as int] as int == ra as int);
            assert(p0[rb as int] as int == rb as int);
            lemma_class_finite(p0, rk0, ra as int);
            lemma_class_finite(p0, rk0, rb as int);
        }
        let equal = self.rank[ra] == self.rank[rb];
        let n = self.parent.len();
        if equal {
            proof {
                // A root of rank k represents at least 2^k of at most usize::MAX elements.
                lemma2_to64();
                assert(pow2(rk0[ra as int] as nat) <= class_of(p0, rk0, ra as int).len());
                assert(class_of(p0, rk0, ra as int).len() <= n);
                if rk0[ra as int] > 64 {
                    lemma_pow2_strictly_increases(64, rk0[ra as int] as nat);
                }
                assert(rk0[ra as int] < 64);
            }
            let r = self.rank[ra] + 1;
            self.rank.set(ra, r);
        }
        self.parent.set(rb, ra);
        proof {
            let p2 = self.parent@;
            let rk2 = self.rank@;
            assert(p2 =~= p0.update(rb as int, ra as usize));
            assert forall|z: int| 0 <= z < p2.len() implies root_of(p2, rk2, z) == (if root_of(
                p0,
                rk0,
                z,
            ) == rb {
                ra as int
            } else {
                root_of(p0, rk0, z)
            }) by {
                lemma_link(p0, rk0, rk2, ra as int, rb as int, z);
            }
            lemma_link(p0, rk0, rk2, ra as int, rb as int, 0);
            assert forall|q: int|
                0 <= q < p2.len() && #[trigger] p2[q] as int == q implies pow2(rk2[q] as nat)
                <= class_of(p2, rk2, q).len() by {
                assert(q != rb);
                assert(p0[q] as int == q);
                if q == ra {
                    assert(class_of(p2, rk2, q) =~= class_of(p0, rk0, ra as int) + class_of(
                        p0,
                        rk0,
                        rb as int,
                    ));
                    lemma_set_disjoint_lens(class_of(p0, rk0, ra as int), class_of(p0, rk0, rb as int));
                    if equal {
                        lemma_pow2_unfold(rk2[q] as nat);
                    } else {
                        lemma_len_subset(class_of(p0, rk0, ra as int), class_of(p2, rk2, q));
                        lemma_class_finite(p2, rk2, q);
                    }
                } else {
                    assert(class_of(p2, rk2, q) =~= class_of(p0, rk0, q));
                }
            }
        }
    }
}

/// `v` is a neighbour of `u` in the adjacency lists.
pub open spec fn edge(adj: Seq<Vec<usize>>, u: int, v: int) -> bool {
    0 <= u < adj.len() && 0 <= v && adj[u]@.contains(v as usize)
}

/// `p` is a walk from `start` whose every later vertex is allowed.
pub open spec fn is_walk(adj: Seq<Vec<usize>>, allowed: Seq<bool>, start: int, p: Seq<int>) -> bool {
    &&& p.len() >= 1
    &&& p[0] == start
    &&& forall|i: int|
        1 <= i < p.len() ==> 0 <= #[trigger] p[i] < allowed.len() && allowed[p[i]] && edge(adj, p[i - 1], p[i])
}

/// `v` is reached from `start` by a walk of `k` steps through allowed vertices.
pub open spec fn reachable_in(adj: Seq<Vec<usize>>, allowed: Seq<bool>, start: int, v: int, k: nat) -> bool {
    exists|p: Seq<int>| #[trigger] is_walk(adj, allowed, start, p) && p.len() == k + 1 && p.last() == v
}

/// The number of steps of a shortest walk from `start` to `v` through
/// allowed vertices, or `usize::MAX` when there is none.
#[verifier::opaque]
pub open spec fn walk_dist(adj: Seq<Vec<usize>>, allowed: Seq<bool>, start: int, v: int) -> usize {
    if exists|k: nat| reachable_in(adj, allowed, start, v, k) {
        (choose|k: nat|
            reachable_in(adj, allowed, start, v, k) && forall|j: nat| j < k ==> !reachable_in(adj, allowed, start, v, j)) as usize
    } else {
        usize::MAX
    }
}

/// Shortest-walk distances from `start` to every vertex.
pub open spec fn walk_dists(adj: Seq<Vec<usize>>, allowed: Seq<bool>, start: int) -> Seq<usize> {
    Seq::new(adj.len(), |v: int| walk_dist(adj, allowed, start, v))
}

/// Every neighbour listed in the adjacency lists is a vertex, and no list
/// repeats a neighbour (each list is the set of its corner's neighbours).
pub open spec fn adjacency_ok(adj: Seq<Vec<usize>>) -> bool {
    &&& forall|u: int, i: int| 0 <= u < adj.len() && 0 <= i < adj[u]@.len() ==> #[trigger] adj[u]@[i] < adj.len()
    &&& forall|u: int| 0 <= u < adj.len() ==> (#[trigger] adj[u])@.no_duplicates()
}

/// A sequence of distinct values below `n` has at most `n` entries.
pub(crate) proof fn lemma_distinct_below(s: Seq<usize>, n: int)
    requires
        0 <= n,
        s.no_duplicates(),
        forall|i: int| 0 <= i < s.len() ==> #[trigger] s[i] < n,
    ensures
        s.len() <= n,
{
    let t = s.map_values(|x: usize| x as int);
    assert(t.no_duplicates()) by {
        assert forall|i: int, j: int| 0 <= i < t.len() && 0 <= j < t.len() && i != j implies t[i] != t[j] by {
            assert(s[i] != s[j]);
        }
    }
    t.unique_seq_to_set();
    lemma_int_range(0, n);
    assert(t.to_set().subset_of(set_int_range(0, n))) by {
        assert forall|v: int| t.to_set().contains(v) implies set_int_range(0, n).contains(v) by {
            let j = choose|j: int| 0 <= j < t.len() && t[j] == v;
            assert(s[j] < n);
        }
    }
    lemma_len_subset(t.to_set(), set_int_range(0, n));
}

/// Walks recorded by parent links: each discovered vertex other than
/// `start` was discovered from an allowed edge of a vertex one step closer.
pub open spec fn parents_ok(
    adj: Seq<Vec<usize>>,
    allowed: Seq<bool>,
    start: int,
    dist: Seq<usize>,
    parent: Seq<int>,
) -> bool {
    &&& parent.len() == dist.len()
    &&& forall|v: int|
        0 <= v < dist.len() && v != start && #[trigger] dist[v] != usize::MAX ==> {
            &&& 0 <= parent[v] < dist.len()
            &&& dist[parent[v]] != usize::MAX
            &&& dist[v] == dist[parent[v]] + 1
            &&& allowed[v]
            &&& edge(adj, parent[v], v)
        }
}

proof fn lemma_walk_from_parents(
    adj: Seq<Vec<usize>>,
    allowed: Seq<bool>,
    start: int,
    dist: Seq<usize>,
    parent: Seq<int>,
    v: int,
)
    requires
        parents_ok(adj, allowed, start, dist, parent),
        allowed.len() == dist.len(),
        0 <= start < dist.len(),
        dist[start] == 0,
        0 <= v < dist.len(),
        dist[v] != usize::MAX,
    ensures
        reachable_in(adj, allowed, start, v, dist[v] as nat),
    decreases dist[v],
{
    if v == start {
        assert(is_walk(adj, allowed, start, seq![start]));
    } else {
        let u = parent[v];
        lemma_walk_from_parents(adj, allowed, start, dist, parent, u);
        let p = choose|p: Seq<int>|
            #[trigger] is_walk(adj, allowed, start, p) && p.len() == dist[u] as nat + 1 && p.last() == u;
        let q = p.push(v);
        assert(is_walk(adj, allowed, start, q)) by {
            assert forall|i: int| 1 <= i < q.len() implies 0 <= #[trigger] q[i] < allowed.len() && allowed[q[i]]
                && edge(adj, q[i - 1], q[i]) by {
                if i < p.len() {
                    assert(q[i] == p[i] && q[i - 1] == p[i - 1]);
                }
            }
        }
        assert(q.last() == v);
    }
}

/// Once every discovered vertex has had its allowed neighbours discovered
/// one step further, each vertex of a walk is discovered no further than its
/// position on the walk.
proof fn lemma_walk_bound(
    adj: Seq<Vec<usize>>,
    allowed: Seq<bool>,
    start: int,
    dist: Seq<usize>,
    p: Seq<int>,
    i: int,
)
    requires
        is_walk(adj, allowed, start, p),
        0 <= i < p.len(),
        dist.len() == allowed.len(),
        0 <= start < dist.len(),
        dist[start] == 0,
        forall|u: int, x: int|
            0 <= u < dist.len() && dist[u] != usize::MAX && #[trigger] edge(adj, u, x) && 0 <= x < dist.len()
                && allowed[x] ==> dist[x] != usize::MAX && dist[x] <= dist[u] + 1,
    ensures
        dist[p[i]] != usize::MAX,
        dist[p[i]] <= i,
    decreases i,
{
    if i > 0 {
        lemma_walk_bound(adj, allowed, start, dist, p, i - 1);
        assert(edge(adj, p[i - 1], p[i]));
    }
}

/// Breadth-first distances from `start` over the adjacency lists, stepping
/// only into allowed vertices; `usize::MAX` marks the unreachable ones.
pub fn bfs_distances(adjacency: &[Vec<usize>], start: usize, allowed: &[bool]) -> (dist: Vec<usize>)
    requires
        start < adjacency.len(),
        allowed.len() == adjacency.len(),
        adjacency_ok(adjacency@),
    ensures
        dist.len() == adjacency.len(),
        forall|v: int|
            0 <= v < dist.len() && #[trigger] dist@[v] != usize::MAX ==> reachable_in(
                adjacency@,
                allowed@,
                start as int,
                v,
                dist@[v] as nat,
            ),
        forall|v: int, k: nat|
            0 <= v < dist.len() && #[trigger] reachable_in(adjacency@, allowed@, start as int, v, k)
                ==> dist@[v] != usize::MAX && dist@[v] <= k,
        dist@ == walk_dists(adjacency@, allowed@, start as int),
{
    let n = adjacency.len();
    let mut dist: Vec<usize> = vec![usize::MAX; n];
    dist.set(start, 0);
    let mut queue: Vec<usize> = Vec::new();
    queue.push(start);
    let mut head: usize = 0;
    let ghost mut parent: Seq<int> = Seq::new(n as nat, |i: int| 0);
    assert forall|v: int| 0 <= v < n && #[trigger] dist@[v] != usize::MAX implies queue@.contains(v as usize) by {
        assert(queue@[0] == start);
    }
    while head < queue.len()
        invariant
            n == adjacency.len(),
            dist.len() == n,
            allowed.len() == n,
            start < n,
            adjacency_ok(adjacency@),
            head <= queue.len(),
            queue.len() <= n,
            queue@.no_duplicates(),
            queue@[0] == start,
            dist@[start as int] == 0,
            forall|i: int|
                0 <= i < queue.len() ==> #[trigger] queue@[i] < n && dist@[queue@[i] as int] != usize::MAX
                    && dist@[queue@[i] as int] <= i,
            forall|v: int| 0 <= v < n && #[trigger] dist@[v] != usize::MAX ==> queue@.contains(v as usize),
            forall|i: int, j: int|
                0 <= i <= j < queue.len() ==> dist@[#[trigger] queue@[i] as int] <= dist@[#[trigger] queue@[j] as int],
            head < queue.len() ==> forall|j: int|
                0 <= j < queue.len() ==> dist@[#[trigger] queue@[j] as int] <= dist@[queue@[head as int] as int] + 1,
            forall|i: int, x: int|
                0 <= i < head && #[trigger] edge(adjacency@, queue@[i] as int, x) && 0 <= x < n && allowed@[x]
                    ==> dist@[x] != usize::MAX && dist@[x] <= dist@[queue@[i] as int] + 1,
            parents_ok(adjacency@, allowed@, start as int, dist@, parent),
        decreases n - head,
    {
        let u = queue[head];
        let du = dist[u];
        let mut k: usize = 0;
        while k < adjacency[u].len()
            invariant
                n == adjacency.len(),
                dist.len() == n,
                allowed.len() == n,
                start < n,
                adjacency_ok(adjacency@),
                head < queue.len(),
                queue.len() <= n,
                queue@.no_duplicates(),
                queue@[0] == start,
                dist@[start as int] == 0,
                u == queue@[head as int],
                u < n,
                du == dist@[u as int],
                du != usize::MAX,
                du <= head,
                k <= adjacency@[u as int]@.len(),
                forall|i: int|
                    0 <= i < queue.len() ==> #[trigger] queue@[i] < n && dist@[queue@[i] as int] != usize::MAX
                        && dist@[queue@[i] as int] <= i,
                forall|v: int| 0 <= v < n && #[trigger] dist@[v] != usize::MAX ==> queue@.contains(v as usize),
                forall|i: int, j: int|
                    0 <= i <= j < queue.len() ==> dist@[#[trigger] queue@[i] as int] <= dist@[#[trigger] queue@[j] as int],
                forall|j: int| 0 <= j < queue.len() ==> dist@[#[trigger] queue@[j] as int] <= du + 1,
                forall|i: int, x: int|
                    0 <= i < head && #[trigger] edge(adjacency@, queue@[i] as int, x) && 0 <= x < n && allowed@[x]
                        ==> dist@[x] != usize::MAX && dist@[x] <= dist@[queue@[i] as int] + 1,
                forall|j: int|
                    0 <= j < k && allowed@[#[trigger] adjacency@[u as int]@[j] as int] ==> dist@[adjacency@[u as int]@[j] as int]
                        != usize::MAX && dist@[adjacency@[u as int]@[j] as int] <= du + 1,
                parents_ok(adjacency@, allowed@, start as int, dist@, parent),
            decreases adjacency@[u as int]@.len() - k,
        {
            let next = adjacency[u][k];
            assert(next < n);
            if allowed[next] && dist[next] == usize::MAX {
                let ghost q0 = queue@;
                let ghost d0 = dist@;
                assert(!q0.contains(next)) by {
                    if q0.contains(next) {
                        let j = choose|j: int| 0 <= j < q0.len() && q0[j] == next;
                        assert(d0[q0[j] as int] != usize::MAX);
                    }
                }
                proof {
                    lemma_distinct_below(q0.push(next), n as int);
                }
                dist.set(next, du + 1);
                queue.push(next);
                proof {
                    parent = parent.update(next as int, u as int);
                    assert forall|v: int| 0 <= v < n && #[trigger] dist@[v] != usize::MAX implies queue@.contains(
                        v as usize,
                    ) by {
                        if v == next {
                            assert(queue@[q0.len() as int] == next);
                        } else {
                            assert(d0[v] != usize::MAX);
                            let j = choose|j: int| 0 <= j < q0.len() && q0[j] == v as usize;
                            assert(queue@[j] == v as usize);
                        }
                    }
                    assert forall|i: int|
                        0 <= i < queue.len() implies #[trigger] queue@[i] < n && dist@[queue@[i] as int]
                        != usize::MAX && dist@[queue@[i] as int] <= i by {
                        if i < q0.len() {
                            assert(queue@[i] == q0[i]);
                            assert(q0[i] != next);
                        }
                    }
                    assert forall|i: int, j: int| 0 <= i <= j < queue.len() implies dist@[
                        #[trigger] queue@[i] as int] <= dist@[#[trigger] queue@[j] as int] by {
                        if j < q0.len() {
                            assert(queue@[i] == q0[i] && queue@[j] == q0[j]);
                            assert(q0[i] != next && q0[j] != next);
                        } else if i < q0.len() {
                            assert(queue@[i] == q0[i]);
                            assert(q0[i] != next);
                        }
                    }
                    assert forall|j: int| 0 <= j < queue.len() implies dist@[#[trigger] queue@[j] as int] <= du + 1 by {
                        if j < q0.len() {
                            assert(queue@[j] == q0[j]);
                            assert(q0[j] != next);
                        }
                    }
                    assert(queue@.no_duplicates()) by {
                        assert forall|i: int, j: int| 0 <= i < j < queue.len() implies queue@[i] != queue@[j] by {
                            if j < q0.len() {
                                assert(queue@[i] == q0[i] && queue@[j] == q0[j]);
                            } else {
                                assert(queue@[i] == q0[i]);
                            }
                        }
                    }
                    assert forall|i: int, x: int|
                        0 <= i < head && #[trigger] edge(adjacency@, queue@[i] as int, x) && 0 <= x < n && allowed@[x]
                            implies dist@[x] != usize::MAX && dist@[x] <= dist@[queue@[i] as int] + 1 by {
                        assert(queue@[i] == q0[i]);
                        assert(q0[i] != next);
                        assert(edge(adjacency@, q0[i] as int, x));
                    }
                    assert forall|v: int|
                        0 <= v < dist.len() && v != start && #[trigger] dist@[v] != usize::MAX implies {
                            &&& 0 <= parent[v] < dist.len()
                            &&& dist@[parent[v]] != usize::MAX
                            &&& dist@[v] == dist@[parent[v]] + 1
                            &&& allowed@[v]
                            &&& edge(adjacency@, parent[v], v)
                        } by {
                        if v == next {
                            assert(adjacency@[u as int]@[k as int] == next);
                        } else {
                            assert(d0[v] != usize::MAX);
                        }
                    }
                }
            }
            k = k + 1;
        }
        proof {
            assert forall|i: int, x: int|
                0 <= i < head + 1 && #[trigger] edge(adjacency@, queue@[i] as int, x) && 0 <= x < n && allowed@[x]
                    implies dist@[x] != usize::MAX && dist@[x] <= dist@[queue@[i] as int] + 1 by {
                if i == head {
                    let j = choose|j: int| 0 <= j < adjacency@[u as int]@.len() && adjacency@[u as int]@[j] == x as usize;
                    assert(allowed@[adjacency@[u as int]@[j] as int]);
                }
            }
            if head + 1 < queue.len() {
                assert forall|j: int| 0 <= j < queue.len() implies dist@[#[trigger] queue@[j] as int] <= dist@[
                    queue@[head + 1] as int] + 1 by {
                    assert(dist@[queue@[head as int] as int] <= dist@[queue@[head + 1] as int]);
                }
            }
        }
        head = head + 1;
    }
    proof {
        assert forall|u: int, x: int|
            0 <= u < dist.len() && dist@[u] != usize::MAX && #[trigger] edge(adjacency@, u, x) && 0 <= x < dist.len()
                && allowed@[x] implies dist@[x] != usize::MAX && dist@[x] <= dist@[u] + 1 by {
            let i = choose|i: int| 0 <= i < queue.len() && queue@[i] == u as usize;
            assert(edge(adjacency@, queue@[i] as int, x));
        }
        assert forall|v: int|
            0 <= v < dist.len() && #[trigger] dist@[v] != usize::MAX implies reachable_in(
            adjacency@,
            allowed@,
            start as int,
            v,
            dist@[v] as nat,
        ) by {
            lemma_walk_from_parents(adjacency@, allowed@, start as int, dist@, parent, v);
        }
        assert forall|v: int, k: nat|
            0 <= v < dist.len() && #[trigger] reachable_in(adjacency@, allowed@, start as int, v, k) implies dist@[v]
            != usize::MAX && dist@[v] <= k by {
            let p = choose|p: Seq<int>|
                #[trigger] is_walk(adjacency@, allowed@, start as int, p) && p.len() == k + 1 && p.last() == v;
            lemma_walk_bound(adjacency@, allowed@, start as int, dist@, p, k as int);
        }
        assert forall|v: int| 0 <= v < n implies dist@[v] == walk_dist(adjacency@, allowed@, start as int, v) by {
            reveal(walk_dist);
            if dist@[v] != usize::MAX {
                let d = dist@[v] as nat;
                assert(reachable_in(adjacency@, allowed@, start as int, v, d));
                let k0 = choose|k: nat|
                    reachable_in(adjacency@, allowed@, start as int, v, k) && forall|j: nat|
                        j < k ==> !reachable_in(adjacency@, allowed@, start as int, v, j);
                assert(forall|j: nat| j < d ==> !reachable_in(adjacency@, allowed@, start as int, v, j));
                assert(k0 <= d);
                assert(d <= k0);
            } else {
                assert forall|k: nat| !reachable_in(adjacency@, allowed@, start as int, v, k) by {}
            }
        }
        assert(dist@ =~= walk_dists(adjacency@, allowed@, start as int));
    }
    dist
}

/// Entries of `s` that are members of `comp`.
pub open spec fn count_in(s: Seq<usize>, comp: Seq<bool>) -> nat
    decreases s.len(),
{
    if s.len() == 0 {
        0
    } else {
        count_in(s.drop_last(), comp) + if comp[s.last() as int] {
            1nat
        } else {
            0nat
        }
    }
}

/// Twice the column of a vertex at distance `da` from the first corner and
/// `db` from the second, which lie `w - 1` apart along the first row.
pub open spec fn col_twice(da: int, db: int, w: int) -> int {
    da - db + w - 1
}

/// Distances `da`, `db` name a cell of the `w x h` grid.
pub open spec fn placed(da: usize, db: usize, w: int, h: int) -> bool {
    &&& da != usize::MAX
    &&& db != usize::MAX
    &&& col_twice(da as int, db as int, w) >= 0
    &&& col_twice(da as int, db as int, w) % 2 == 0
    &&& col_twice(da as int, db as int, w) / 2 < w
    &&& da >= col_twice(da as int, db as int, w) / 2
    &&& da - col_twice(da as int, db as int, w) / 2 < h
}

/// Row-major index of the cell named by distances `da`, `db`.
pub open spec fn cell_index(da: usize, db: usize, w: int) -> int {
    let x = col_twice(da as int, db as int, w) / 2;
    (da - x) * w + x
}

/// Every member of the component names a cell, and no two the same cell.
pub open spec fn placement_ok(da: Seq<usize>, db: Seq<usize>, comp: Seq<bool>, w: int, h: int) -> bool {
    &&& forall|v: int| 0 <= v < comp.len() && #[trigger] comp[v] ==> placed(da[v], db[v], w, h)
    &&& forall|v: int, u: int|
        0 <= v < comp.len() && 0 <= u < comp.len() && #[trigger] comp[v] && #[trigger] comp[u] && v != u
            ==> cell_index(da[v], db[v], w) != cell_index(da[u], db[u], w)
}

/// Cell `c` is named by some member of the component.
pub open spec fn covered(da: Seq<usize>, db: Seq<usize>, comp: Seq<bool>, w: int, c: int) -> bool {
    exists|v: int| 0 <= v < comp.len() && comp[v] && #[trigger] cell_index(da[v], db[v], w) == c
}

/// Every cell is named by some member of the component.
pub open spec fn covers(da: Seq<usize>, db: Seq<usize>, comp: Seq<bool>, w: int, h: int) -> bool {
    forall|c: int| 0 <= c < w * h ==> #[trigger] covered(da, db, comp, w, c)
}

/// The grid of vertices given by the cells the members name.
pub open spec fn grid_from(da: Seq<usize>, db: Seq<usize>, comp: Seq<bool>, w: int, h: int) -> Seq<usize> {
    Seq::new(
        (w * h) as nat,
        |c: int| (choose|v: int| 0 <= v < comp.len() && comp[v] && cell_index(da[v], db[v], w) == c) as usize,
    )
}

/// Number of grid neighbours of cell `(x, y)`.
pub open spec fn grid_degree(x: int, y: int, w: int, h: int) -> nat {
    (if x > 0 { 1nat } else { 0nat }) + (if x + 1 < w { 1nat } else { 0nat }) + (if y > 0 { 1nat } else { 0nat }) + (
    if y + 1 < h { 1nat } else { 0nat })
}

/// Cell `(x, y)` holds a vertex with as many component neighbours as the
/// cell has grid neighbours, joined to the vertices right of and below it.
pub open spec fn cell_ok(adj: Seq<Vec<usize>>, comp: Seq<bool>, grid: Seq<usize>, w: int, h: int, x: int, y: int) -> bool {
    let v = grid[y * w + x] as int;
    &&& count_in(adj[v]@, comp) == grid_degree(x, y, w, h)
    &&& x + 1 < w ==> adj[v]@.contains(grid[y * w + x + 1])
    &&& y + 1 < h ==> adj[v]@.contains(grid[(y + 1) * w + x])
}

pub open spec fn grid_ok(adj: Seq<Vec<usize>>, comp: Seq<bool>, grid: Seq<usize>, w: int, h: int) -> bool {
    forall|x: int, y: int| 0 <= x < w && 0 <= y < h ==> #[trigger] cell_ok(adj, comp, grid, w, h, x, y)
}

/// The row-major order of the component as a `w x h` grid with corner `a`
/// first and corner `b` at the end of the first row, when the graph is one.
pub open spec fn grid_order(adj: Seq<Vec<usize>>, comp: Seq<bool>, a: int, b: int, w: int, h: int) -> Option<Seq<usize>> {
    let da = walk_dists(adj, comp, a);
    let db = walk_dists(adj, comp, b);
    if placement_ok(da, db, comp, w, h) && covers(da, db, comp, w, h) && grid_ok(
        adj,
        comp,
        grid_from(da, db, comp, w, h),
        w,
        h,
    ) {
        Some(grid_from(da, db, comp, w, h))
    } else {
        None
    }
}

/// A placed cell lies in the grid.
proof fn lemma_cell_in_grid(da: usize, db: usize, w: int, h: int)
    requires
        placed(da, db, w, h),
    ensures
        0 <= cell_index(da, db, w) < w * h,
{
    let x = col_twice(da as int, db as int, w) / 2;
    let y = da - x;
    assert(0 <= y * w) by (nonlinear_arith)
        requires
            0 <= y,
            0 <= x < w,
    ;
    assert(y * w + x < w * h) by (nonlinear_arith)
        requires
            0 <= y < h,
            0 <= x < w,
    ;
}

/// A grid order lays the component out as the `w x h` grid: each cell holds
/// a distinct member of the component, every member holds a cell, each
/// vertex is joined to the vertices right of and below it, and it has as many
/// neighbours in the component as its cell has in the grid.
pub proof fn lemma_grid_order_is_grid(adj: Seq<Vec<usize>>, comp: Seq<bool>, a: int, b: int, w: int, h: int, g: Seq<usize>)
    requires
        comp.len() == adj.len(),
        adj.len() <= usize::MAX,
        0 <= w,
        0 <= h,
        grid_order(adj, comp, a, b, w, h) == Some(g),
    ensures
        g.len() == w * h,
        forall|c: int| 0 <= c < g.len() ==> #[trigger] g[c] < comp.len() && comp[g[c] as int],
        forall|c1: int, c2: int| 0 <= c1 < c2 < g.len() ==> #[trigger] g[c1] != #[trigger] g[c2],
        forall|v: int| 0 <= v < comp.len() && #[trigger] comp[v] ==> exists|c: int| 0 <= c < g.len() && g[c] == v,
        forall|x: int, y: int| 0 <= x < w && 0 <= y < h ==> #[trigger] cell_ok(adj, comp, g, w, h, x, y),
{
    reveal(grid_order);
    let da = walk_dists(adj, comp, a);
    let db = walk_dists(adj, comp, b);
    assert(placement_ok(da, db, comp, w, h) && covers(da, db, comp, w, h));
    assert(g == grid_from(da, db, comp, w, h));
    assert(w * h >= 0) by (nonlinear_arith)
        requires
            0 <= w,
            0 <= h,
    ;
    assert forall|c: int| 0 <= c < g.len() implies #[trigger] g[c] < comp.len() && comp[g[c] as int] && cell_index(
        da[g[c] as int],
        db[g[c] as int],
        w,
    ) == c by {
        assert(0 <= c < w * h);
        assert(covered(da, db, comp, w, c));
        let v = choose|v: int| 0 <= v < comp.len() && comp[v] && cell_index(da[v], db[v], w) == c;
        assert(0 <= v < comp.len() && comp[v] && cell_index(da[v], db[v], w) == c);
        assert(g[c] == v as usize);
        assert(g[c] as int == v);
    }
    assert forall|c1: int, c2: int| 0 <= c1 < c2 < g.len() implies #[trigger] g[c1] != #[trigger] g[c2] by {
        assert(cell_index(da[g[c1] as int], db[g[c1] as int], w) == c1);
        assert(cell_index(da[g[c2] as int], db[g[c2] as int], w) == c2);
    }
    assert forall|v: int| 0 <= v < comp.len() && #[trigger] comp[v] implies exists|c: int| 0 <= c < g.len() && g[c] == v by {
        let c = cell_index(da[v], db[v], w);
        lemma_cell_in_grid(da[v], db[v], w, h);
        let u = g[c] as int;
        assert(comp[u] && cell_index(da[u], db[u], w) == c);
        assert(u == v);
    }
}

/// Entries of `list` that are members of `comp`.
fn count_members(list: &Vec<usize>, comp: &[bool]) -> (c: usize)
    requires
        forall|i: int| 0 <= i < list.len() ==> #[trigger] list@[i] < comp.len(),
    ensures
        c == count_in(list@, comp@),
{
    let mut c: usize = 0;
    let mut k: usize = 0;
    while k < list.len()
        invariant
            k <= list.len(),
            forall|i: int| 0 <= i < list.len() ==> #[trigger] list@[i] < comp.len(),
            c == count_in(list@.take(k as int), comp@),
            c <= k,
        decreases list.len() - k,
    {
        assert(list@.take(k + 1).drop_last() =~= list@.take(k as int));
        if comp[list[k]] {
            c = c + 1;
        }
        k = k + 1;
    }
    assert(list@.take(list.len() as int) =~= list@);
    c
}

/// Whether `x` is in `list`.
pub(crate) fn list_contains(list: &Vec<usize>, x: usize) -> (b: bool)
    ensures
        b == list@.contains(x),
{
    let mut k: usize = 0;
    while k < list.len()
        invariant
            k <= list.len(),
            forall|i: int| 0 <= i < k ==> list@[i] != x,
        decreases list.len() - k,
    {
        if list[k] == x {
            return true;
        }
        k = k + 1;
    }
    false
}

/// The grid filled so far: each member placed at its cell, and each filled
/// cell holding the member that names it.
pub open spec fn grid_filled(
    da: Seq<usize>,
    db: Seq<usize>,
    comp: Seq<bool>,
    w: int,
    h: int,
    grid: Seq<usize>,
    upto: int,
) -> bool {
    &&& forall|u: int|
        0 <= u < upto && #[trigger] comp[u] ==> placed(da[u], db[u], w, h) && grid[cell_index(da[u], db[u], w)] == u
    &&& forall|c: int|
        0 <= c < grid.len() && #[trigger] grid[c] != usize::MAX ==> grid[c] < upto && comp[grid[c] as int]
            && cell_index(da[grid[c] as int], db[grid[c] as int], w) == c
}

/// Places every member of the component at the cell its distances name;
/// `None` when a member names no cell or two members the same cell.
fn place_vertices(da: &Vec<usize>, db: &Vec<usize>, component: &[bool], width: usize, height: usize) -> (res: Option<
    Vec<usize>,
>)
    requires
        da.len() == component.len(),
        db.len() == component.len(),
        width * height <= usize::MAX,
    ensures
        match res {
            Some(grid) => grid.len() == width * height && placement_ok(
                da@,
                db@,
                component@,
                width as int,
                height as int,
            ) && grid_filled(da@, db@, component@, width as int, height as int, grid@, component.len() as int),
            None => !placement_ok(da@, db@, component@, width as int, height as int),
        },
{
    let ghost w = width as int;
    let ghost h = height as int;
    let ghost comp = component@;
    let n = component.len();
    let cells = width * height;
    let mut grid: Vec<usize> = vec![usize::MAX; cells];
    let mut v: usize = 0;
    while v < n
        invariant
            n == component.len(),
            comp == component@,
            da.len() == n,
            db.len() == n,
            w == width,
            h == height,
            cells == width * height,
            v <= n,
            grid.len() == cells,
            grid_filled(da@, db@, comp, w, h, grid@, v as int),
        decreases n - v,
    {
        if component[v] {
            let dav = da[v];
            let dbv = db[v];
            if dav == usize::MAX || dbv == usize::MAX {
                return None;
            }
            let num: i128 = dav as i128 - dbv as i128 + width as i128 - 1;
            if num < 0 || num % 2 != 0 {
                return None;
            }
            let x = (num / 2) as usize;
            if x >= width || dav < x {
                return None;
            }
            let y = dav - x;
            if y >= height {
                return None;
            }
            proof {
                crate::imgproc::lemma_row_major(y as int, x as int, w, h);
            }
            let idx = y * width + x;
            assert(idx == cell_index(da@[v as int], db@[v as int], w));
            if grid[idx] != usize::MAX {
                proof {
                    let u = grid@[idx as int] as int;
                    assert(comp[u] && comp[v as int] && u != v);
                }
                return None;
            }
            let ghost g0 = grid@;
            grid.set(idx, v);
            proof {
                assert forall|u: int|
                    0 <= u < v + 1 && #[trigger] comp[u] implies placed(da@[u], db@[u], w, h) && grid@[cell_index(
                    da@[u],
                    db@[u],
                    w,
                )] == u by {
                    if u < v {
                        assert(g0[cell_index(da@[u], db@[u], w)] == u);
                        let xu = col_twice(da@[u] as int, db@[u] as int, w) / 2;
                        crate::imgproc::lemma_row_major(da@[u] - xu, xu, w, h);
                        assert(cell_index(da@[u], db@[u], w) != idx);
                        assert(grid@[cell_index(da@[u], db@[u], w)] == g0[cell_index(da@[u], db@[u], w)]);
                    }
                }
                assert forall|c: int|
                    0 <= c < grid.len() && #[trigger] grid@[c] != usize::MAX implies grid@[c] < v + 1 && comp[grid@[c] as int]
                        && cell_index(da@[grid@[c] as int], db@[grid@[c] as int], w) == c by {
                    if c != idx {
                        assert(g0[c] == grid@[c]);
                    }
                }
            }
        }
        v = v + 1;
    }
    proof {
        assert forall|u1: int, u2: int|
            0 <= u1 < comp.len() && 0 <= u2 < comp.len() && #[trigger] comp[u1] && #[trigger] comp[u2] && u1 != u2
                implies cell_index(da@[u1], db@[u1], w) != cell_index(da@[u2], db@[u2], w) by {
            assert(grid@[cell_index(da@[u1], db@[u1], w)] == u1);
            assert(grid@[cell_index(da@[u2], db@[u2], w)] == u2);
        }
    }
    Some(grid)
}

/// With every member placed, the cells are all named exactly when the grid
/// has no empty cell, and then the grid is the one the members name.
proof fn lemma_filled_grid(da: Seq<usize>, db: Seq<usize>, comp: Seq<bool>, w: int, h: int, grid: Seq<usize>)
    requires
        grid.len() == w * h,
        placement_ok(da, db, comp, w, h),
        grid_filled(da, db, comp, w, h, grid, comp.len() as int),
        comp.len() == da.len(),
        comp.len() == db.len(),
        comp.len() <= usize::MAX,
    ensures
        covers(da, db, comp, w, h) == (forall|c: int| 0 <= c < w * h ==> #[trigger] grid[c] != usize::MAX),
        (forall|c: int| 0 <= c < w * h ==> #[trigger] grid[c] != usize::MAX) ==> grid == grid_from(da, db, comp, w, h),
{
    if covers(da, db, comp, w, h) {
        assert forall|c: int| 0 <= c < w * h implies #[trigger] grid[c] != usize::MAX by {
            assert(covered(da, db, comp, w, c));
            let u = choose|u: int| 0 <= u < comp.len() && comp[u] && #[trigger] cell_index(da[u], db[u], w) == c;
            assert(grid[cell_index(da[u], db[u], w)] == u);
        }
    }
    if forall|c: int| 0 <= c < w * h ==> #[trigger] grid[c] != usize::MAX {
        assert forall|k: int| 0 <= k < w * h implies #[trigger] covered(da, db, comp, w, k) by {
            assert(grid[k] != usize::MAX);
            let u = grid[k] as int;
            assert(cell_index(da[u], db[u], w) == k);
        }
        assert forall|k: int| 0 <= k < w * h implies grid[k] == grid_from(da, db, comp, w, h)[k] by {
            assert(grid[k] != usize::MAX);
            let u = grid[k] as int;
            assert(cell_index(da[u], db[u], w) == k);
            assert(covered(da, db, comp, w, k));
            let u2 = choose|u2: int| 0 <= u2 < comp.len() && comp[u2] && cell_index(da[u2], db[u2], w) == k;
            if u2 != u {
                assert(comp[u2] && comp[u]);
            }
        }
        assert(grid =~= grid_from(da, db, comp, w, h));
    }
}

/// Whether every cell of the grid is filled.
fn all_filled(grid: &Vec<usize>) -> (b: bool)
    ensures
        b == (forall|c: int| 0 <= c < grid.len() ==> #[trigger] grid@[c] != usize::MAX),
{
    let mut c: usize = 0;
    while c < grid.len()
        invariant
            c <= grid.len(),
            forall|k: int| 0 <= k < c ==> #[trigger] grid@[k] != usize::MAX,
        decreases grid.len() - c,
    {
        if grid[c] == usize::MAX {
            return false;
        }
        c = c + 1;
    }
    true
}

/// Whether every cell holds a vertex of the right component degree joined
/// to its right and lower neighbours.
fn edges_ok(adjacency: &[Vec<usize>], component: &[bool], grid: &Vec<usize>, width: usize, height: usize) -> (b: bool)
    requires
        component.len() == adjacency.len(),
        adjacency_ok(adjacency@),
        grid.len() == width * height,
        forall|k: int| 0 <= k < grid.len() ==> (#[trigger] grid@[k]) < adjacency.len(),
    ensures
        b == grid_ok(adjacency@, component@, grid@, width as int, height as int),
{
    let ghost w = width as int;
    let ghost h = height as int;
    let ghost comp = component@;
    let mut y: usize = 0;
    while y < height
        invariant
            comp == component@,
            component.len() == adjacency.len(),
            adjacency_ok(adjacency@),
            w == width,
            h == height,
            grid.len() == width * height,
            y <= height,
            forall|k: int| 0 <= k < grid.len() ==> (#[trigger] grid@[k]) < adjacency.len(),
            forall|xx: int, yy: int| 0 <= xx < w && 0 <= yy < y ==> #[trigger] cell_ok(adjacency@, comp, grid@, w, h, xx, yy),
        decreases height - y,
    {
        let mut x: usize = 0;
        while x < width
            invariant
                comp == component@,
                component.len() == adjacency.len(),
                adjacency_ok(adjacency@),
                w == width,
                h == height,
                grid.len() == width * height,
                y < height,
                x <= width,
                forall|k: int| 0 <= k < grid.len() ==> (#[trigger] grid@[k]) < adjacency.len(),
                forall|xx: int, yy: int|
                    0 <= xx < w && 0 <= yy < h && (yy < y || (yy == y && xx < x)) ==> #[trigger] cell_ok(
                        adjacency@,
                        comp,
                        grid@,
                        w,
                        h,
                        xx,
                        yy,
                    ),
            decreases width - x,
        {
            proof {
                crate::imgproc::lemma_row_major(y as int, x as int, w, h);
            }
            let i = y * width + x;
            let vv = grid[i];
            let expected: usize = (if x > 0 { 1usize } else { 0 }) + (if x + 1 < width { 1usize } else { 0 }) + (if y
                > 0 { 1usize } else { 0 }) + (if y + 1 < height { 1usize } else { 0 });
            if count_members(&adjacency[vv], component) != expected {
                assert(!cell_ok(adjacency@, comp, grid@, w, h, x as int, y as int));
                return false;
            }
            if x + 1 < width && !list_contains(&adjacency[vv], grid[i + 1]) {
                assert(!cell_ok(adjacency@, comp, grid@, w, h, x as int, y as int));
                return false;
            }
            proof {
                assert((y + 1) * w + x == y * w + x + w) by (nonlinear_arith);
            }
            if y + 1 < height {
                proof {
                    crate::imgproc::lemma_row_major(y as int + 1, x as int, w, h);
                }
                if !list_contains(&adjacency[vv], grid[i + width]) {
                    assert(!cell_ok(adjacency@, comp, grid@, w, h, x as int, y as int));
                    return false;
                }
            }
            assert(cell_ok(adjacency@, comp, grid@, w, h, x as int, y as int));
            x = x + 1;
        }
        y = y + 1;
    }
    true
}

/// Checks that the component is exactly a `width x height` grid graph whose
/// first row runs from corner `a` to corner `b`, each vertex placed by its
/// walk distances to `a` and `b`, and returns its vertices in row-major order.
pub fn validate_order(
    adjacency: &[Vec<usize>],
    component: &[bool],
    width: usize,
    height: usize,
    a: usize,
    b: usize,
) -> (res: Option<Vec<usize>>)
    requires
        a < adjacency.len(),
        b < adjacency.len(),
        component.len() == adjacency.len(),
        adjacency_ok(adjacency@),
        width * height <= usize::MAX,
    ensures
        match res {
            Some(g) => grid_order(adjacency@, component@, a as int, b as int, width as int, height as int) == Some(g@),
            None => grid_order(adjacency@, component@, a as int, b as int, width as int, height as int) is None,
        },
{
    let da = bfs_distances(adjacency, a, component);
    let db = bfs_distances(adjacency, b, component);
    let ghost w = width as int;
    let ghost h = height as int;
    reveal(grid_order);
    match place_vertices(&da, &db, component, width, height) {
        None => None,
        Some(grid) => {
            proof {
                lemma_filled_grid(da@, db@, component@, w, h, grid@);
            }
            if !all_filled(&grid) {
                return None;
            }
            assert forall|k: int| 0 <= k < grid.len() implies (#[trigger] grid@[k]) < adjacency.len() by {
                assert(grid@[k] != usize::MAX);
            }
            if !edges_ok(adjacency, component, &grid, width, height) {
                return None;
            }
            Some(grid)
        },
    }
}

/// Membership mask over `n` vertices of the listed component.
pub open spec fn member_mask(component: Seq<usize>, n: nat) -> Seq<bool> {
    Seq::new(n, |v: int| component.contains(v as usize))
}

/// Sum of the component degrees of the first `k` listed vertices.
pub open spec fn degree_sum(adj: Seq<Vec<usize>>, allowed: Seq<bool>, list: Seq<usize>, k: int) -> nat
    decreases k,
{
    if k <= 0 {
        0
    } else {
        degree_sum(adj, allowed, list, k - 1) + count_in(adj[list[k - 1] as int]@, allowed)
    }
}

/// The listed vertices among the first `k` with exactly two component neighbours.
pub open spec fn corners_upto(adj: Seq<Vec<usize>>, allowed: Seq<bool>, list: Seq<usize>, k: int) -> Seq<usize>
    decreases k,
{
    if k <= 0 {
        Seq::empty()
    } else if count_in(adj[list[k - 1] as int]@, allowed) == 2 {
        corners_upto(adj, allowed, list, k - 1).push(list[k - 1])
    } else {
        corners_upto(adj, allowed, list, k - 1)
    }
}

/// Vertex `v` is a member of the component.
pub open spec fn in_mask(allowed: Seq<bool>) -> spec_fn(usize) -> bool {
    |v: usize| allowed[v as int]
}

/// Vertex `v` has exactly two neighbours in the component.
pub open spec fn two_in_component(adj: Seq<Vec<usize>>, allowed: Seq<bool>) -> spec_fn(usize) -> bool {
    |v: usize| adj[v as int]@.filter(in_mask(allowed)).len() == 2
}

/// `count_in` counts exactly the listed vertices that are members.
pub proof fn lemma_count_in_exact(l: Seq<usize>, allowed: Seq<bool>)
    ensures
        count_in(l, allowed) == l.filter(in_mask(allowed)).len(),
    decreases l.len(),
{
    reveal(Seq::filter);
    if l.len() > 0 {
        lemma_count_in_exact(l.drop_last(), allowed);
    }
}

/// The corners of a listed component are exactly its listed vertices, in
/// order, that have two neighbours in the component.
pub proof fn lemma_corners_upto_exact(adj: Seq<Vec<usize>>, allowed: Seq<bool>, list: Seq<usize>, k: int)
    requires
        0 <= k <= list.len(),
    ensures
        corners_upto(adj, allowed, list, k) == list.take(k).filter(two_in_component(adj, allowed)),
    decreases k,
{
    reveal(Seq::filter);
    if k > 0 {
        lemma_corners_upto_exact(adj, allowed, list, k - 1);
        assert(list.take(k).drop_last() =~= list.take(k - 1));
        assert(list.take(k).last() == list[k - 1]);
        lemma_count_in_exact(adj[list[k - 1] as int]@, allowed);
    } else {
        assert(list.take(0) =~= Seq::<usize>::empty());
    }
}

/// The grid orders found for the first `p` ordered corner pairs `(a, b)`,
/// pair `p` being `(corners[p / 4], corners[p % 4])`: a pair counts when
/// `b` is `w - 1` steps from `a` and the component is a grid from `a` to `b`.
pub open spec fn pair_orders(adj: Seq<Vec<usize>>, allowed: Seq<bool>, corners: Seq<usize>, w: int, h: int, p: int) -> Seq<
    Seq<usize>,
>
    decreases p,
{
    if p <= 0 {
        Seq::empty()
    } else {
        let prev = pair_orders(adj, allowed, corners, w, h, p - 1);
        let a = corners[(p - 1) / 4] as int;
        let b = corners[(p - 1) % 4] as int;
        if a != b && walk_dist(adj, allowed, a, b) == w - 1 {
            match grid_order(adj, allowed, a, b, w, h) {
                Some(g) => prev.push(g),
                None => prev,
            }
        } else {
            prev
        }
    }
}

/// The candidate row-major orders of a connected component as a `w x h`
/// grid: `None` unless it has `w * h` vertices, `w (h - 1) + h (w - 1)`
/// edges and exactly four corners of degree two.
pub open spec fn component_orders_spec(adj: Seq<Vec<usize>>, component: Seq<usize>, w: int, h: int) -> Option<
    Seq<Seq<usize>>,
> {
    let allowed = member_mask(component, adj.len());
    let corners = corners_upto(adj, allowed, component, component.len() as int);
    if component.len() != w * h {
        None
    } else if degree_sum(adj, allowed, component, component.len() as int) / 2 != w * (h - 1) + h * (w - 1) {
        None
    } else if corners.len() != 4 {
        None
    } else {
        Some(pair_orders(adj, allowed, corners, w, h, 16))
    }
}

/// Every order listed for the corner pairs below `p` is the grid order of
/// some pair.
proof fn lemma_pair_orders_from_pairs(adj: Seq<Vec<usize>>, allowed: Seq<bool>, corners: Seq<usize>, w: int, h: int, p: int)
    ensures
        forall|i: int|
            0 <= i < pair_orders(adj, allowed, corners, w, h, p).len() ==> exists|a: int, b: int|
                grid_order(adj, allowed, a, b, w, h) == Some(#[trigger] pair_orders(adj, allowed, corners, w, h, p)[i]),
    decreases p,
{
    if p > 0 {
        lemma_pair_orders_from_pairs(adj, allowed, corners, w, h, p - 1);
        let prev = pair_orders(adj, allowed, corners, w, h, p - 1);
        let cur = pair_orders(adj, allowed, corners, w, h, p);
        let a = corners[(p - 1) / 4] as int;
        let b = corners[(p - 1) % 4] as int;
        assert forall|i: int| 0 <= i < cur.len() implies exists|a2: int, b2: int|
            grid_order(adj, allowed, a2, b2, w, h) == Some(#[trigger] cur[i]) by {
            if i < prev.len() {
                assert(cur[i] == prev[i]);
                assert(exists|a2: int, b2: int| grid_order(adj, allowed, a2, b2, w, h) == Some(#[trigger] prev[i]));
            } else {
                assert(grid_order(adj, allowed, a, b, w, h) == Some(cur[i]));
            }
        }
    }
}

/// Each candidate order of a component lays the component out as the
/// `w x h` grid (see `lemma_grid_order_is_grid`): distinct members in every
/// cell, every member in a cell, grid neighbours joined, and degrees those
/// of the grid.
pub proof fn lemma_component_orders_are_grids(adj: Seq<Vec<usize>>, component: Seq<usize>, w: int, h: int, k: int)
    requires
        adj.len() <= usize::MAX,
        0 <= w,
        0 <= h,
        component_orders_spec(adj, component, w, h) matches Some(orders) && 0 <= k < orders.len(),
    ensures
        component_orders_spec(adj, component, w, h) matches Some(orders) && {
            let g = orders[k];
            let comp = member_mask(component, adj.len());
            &&& g.len() == w * h
            &&& forall|c: int| 0 <= c < g.len() ==> #[trigger] g[c] < comp.len() && comp[g[c] as int]
            &&& forall|c1: int, c2: int| 0 <= c1 < c2 < g.len() ==> #[trigger] g[c1] != #[trigger] g[c2]
            &&& forall|v: int| 0 <= v < comp.len() && #[trigger] comp[v] ==> exists|c: int| 0 <= c < g.len() && g[c] == v
            &&& forall|x: int, y: int| 0 <= x < w && 0 <= y < h ==> #[trigger] cell_ok(adj, comp, g, w, h, x, y)
        },
{
    let allowed = member_mask(component, adj.len());
    let corners = corners_upto(adj, allowed, component, component.len() as int);
    lemma_pair_orders_from_pairs(adj, allowed, corners, w, h, 16);
    let orders = pair_orders(adj, allowed, corners, w, h, 16);
    let g = orders[k];
    let (a, b) = choose|a: int, b: int| grid_order(adj, allowed, a, b, w, h) == Some(orders[k]);
    lemma_grid_order_is_grid(adj, allowed, a, b, w, h, g);
}

/// Membership mask of the listed vertices.
fn mask_of(component: &[usize], n: usize) -> (mask: Vec<bool>)
    requires
        forall|i: int| 0 <= i < component.len() ==> #[trigger] component@[i] < n,
    ensures
        mask@ == member_mask(component@, n as nat),
{
    let mut mask: Vec<bool> = vec![false; n];
    let mut k: usize = 0;
    while k < component.len()
        invariant
            k <= component.len(),
            mask.len() == n,
            forall|i: int| 0 <= i < component.len() ==> #[trigger] component@[i] < n,
            forall|v: int| 0 <= v < n ==> #[trigger] mask@[v] == component@.take(k as int).contains(v as usize),
        decreases component.len() - k,
    {
        let ghost m0 = mask@;
        mask.set(component[k], true);
        proof {
            assert forall|v: int| 0 <= v < n implies #[trigger] mask@[v] == component@.take(k + 1).contains(
                v as usize,
            ) by {
                let t0 = component@.take(k as int);
                let t1 = component@.take(k + 1);
                assert(t1 =~= t0.push(component@[k as int]));
                if v == component@[k as int] as int {
                    assert(t1[k as int] == v as usize);
                } else {
                    assert(mask@[v] == m0[v]);
                    if t1.contains(v as usize) {
                        let j = choose|j: int| 0 <= j < t1.len() && t1[j] == v as usize;
                        assert(t0[j] == v as usize);
                    }
                }
            }
        }
        k = k + 1;
    }
    assert(component@.take(component.len() as int) =~= component@);
    assert(mask@ =~= member_mask(component@, n as nat));
    mask
}

/// The grid order for corners `a` and `b` when `b` lies `width - 1` steps
/// from `a` (`dab` steps) and the component is such a grid.
fn pair_order(
    adjacency: &[Vec<usize>],
    allowed: &Vec<bool>,
    width: usize,
    height: usize,
    a: usize,
    b: usize,
    dab: usize,
) -> (r: Option<Vec<usize>>)
    requires
        a < adjacency.len(),
        b < adjacency.len(),
        allowed.len() == adjacency.len(),
        adjacency_ok(adjacency@),
        width >= 1,
        width * height <= usize::MAX,
        dab == walk_dist(adjacency@, allowed@, a as int, b as int),
    ensures
        match r {
            Some(g) => a != b && dab == width - 1 && grid_order(
                adjacency@,
                allowed@,
                a as int,
                b as int,
                width as int,
                height as int,
            ) == Some(g@),
            None => !(a != b && dab == width - 1 && grid_order(
                adjacency@,
                allowed@,
                a as int,
                b as int,
                width as int,
                height as int,
            ) is Some),
        },
{
    if a != b && dab == width - 1 {
        validate_order(adjacency, allowed.as_slice(), width, height, a, b)
    } else {
        None
    }
}

/// The candidate row-major grid orders of a connected component, one for
/// each ordered pair of its corners that spans the first row; choosing among
/// them by the image geometry is left to the caller.
pub fn component_orders(adjacency: &[Vec<usize>], component: &[usize], width: usize, height: usize) -> (res: Option<
    Vec<Vec<usize>>,
>)
    requires
        width >= 1,
        height >= 1,
        adjacency_ok(adjacency@),
        forall|i: int| 0 <= i < component.len() ==> #[trigger] component@[i] < adjacency.len(),
    ensures
        match res {
            Some(orders) => component_orders_spec(adjacency@, component@, width as int, height as int) == Some(
                orders@.map_values(|g: Vec<usize>| g@),
            ),
            None => component_orders_spec(adjacency@, component@, width as int, height as int) is None,
        },
{
    let ghost w = width as int;
    let ghost h = height as int;
    let n = adjacency.len();
    proof {
        assert(w * h <= (usize::MAX as int) * (usize::MAX as int)) by (nonlinear_arith)
            requires
                0 <= w <= usize::MAX,
                0 <= h <= usize::MAX,
        ;
    }
    if component.len() as u128 != width as u128 * height as u128 {
        return None;
    }
    let allowed = mask_of(component, n);
    let ghost list = component@;
    let mut sum: u128 = 0;
    let mut corners: Vec<usize> = Vec::new();
    let mut k: usize = 0;
    while k < component.len()
        invariant
            n == adjacency.len(),
            list == component@,
            adjacency_ok(adjacency@),
            allowed.len() == n,
            forall|i: int| 0 <= i < component.len() ==> #[trigger] component@[i] < n,
            k <= component.len(),
            sum == degree_sum(adjacency@, allowed@, list, k as int),
            sum <= k * (usize::MAX as int),
            corners@ == corners_upto(adjacency@, allowed@, list, k as int),
            forall|j: int| 0 <= j < corners.len() ==> #[trigger] corners@[j] < n,
        decreases component.len() - k,
    {
        let c = count_members(&adjacency[component[k]], &allowed);
        proof {
            assert(k * (usize::MAX as int) + usize::MAX <= (k + 1) * (usize::MAX as int)) by (nonlinear_arith);
            assert((k + 1) * (usize::MAX as int) <= (usize::MAX as int) * (usize::MAX as int)) by (nonlinear_arith)
                requires
                    k + 1 <= usize::MAX,
            ;
        }
        sum = sum + c as u128;
        if c == 2 {
            corners.push(component[k]);
        }
        k = k + 1;
    }
    proof {
        assert(w * (h - 1) <= (usize::MAX as int) * (usize::MAX as int)) by (nonlinear_arith)
            requires
                1 <= w <= usize::MAX,
                1 <= h <= usize::MAX,
        ;
        assert(h * (w - 1) <= (usize::MAX as int) * (usize::MAX as int)) by (nonlinear_arith)
            requires
                1 <= w <= usize::MAX,
                1 <= h <= usize::MAX,
        ;
    }
    proof {
        assert(w * (h - 1) + h * (w - 1) <= 2 * (w * h)) by (nonlinear_arith)
            requires
                1 <= w,
                1 <= h,
        ;
    }
    if sum / 2 != width as u128 * (height as u128 - 1) + height as u128 * (width as u128 - 1) {
        return None;
    }
    if corners.len() != 4 {
        return None;
    }
    let mut orders: Vec<Vec<usize>> = Vec::new();
    let mut i: usize = 0;
    while i < 4
        invariant
            n == adjacency.len(),
            adjacency_ok(adjacency@),
            allowed.len() == n,
            allowed@ == member_mask(component@, n as nat),
            corners.len() == 4,
            forall|j: int| 0 <= j < 4 ==> #[trigger] corners@[j] < n,
            width >= 1,
            w == width,
            h == height,
            width * height <= usize::MAX,
            i <= 4,
            orders.len() == pair_orders(adjacency@, allowed@, corners@, w, h, 4 * i).len(),
            forall|k: int|
                0 <= k < orders.len() ==> (#[trigger] orders@[k])@ == pair_orders(adjacency@, allowed@, corners@, w, h, 4 * i)[k],
        decreases 4 - i,
    {
        let a = corners[i];
        let da = bfs_distances(adjacency, a, &allowed);
        let mut j: usize = 0;
        while j < 4
            invariant
                n == adjacency.len(),
                adjacency_ok(adjacency@),
                allowed.len() == n,
                corners.len() == 4,
                forall|jj: int| 0 <= jj < 4 ==> #[trigger] corners@[jj] < n,
                width >= 1,
                w == width,
                h == height,
                width * height <= usize::MAX,
                i < 4,
                j <= 4,
                a == corners@[i as int],
                da@ == walk_dists(adjacency@, allowed@, a as int),
                orders.len() == pair_orders(adjacency@, allowed@, corners@, w, h, 4 * i + j).len(),
                forall|k: int|
                    0 <= k < orders.len() ==> (#[trigger] orders@[k])@ == pair_orders(
                        adjacency@,
                        allowed@,
                        corners@,
                        w,
                        h,
                        4 * i + j,
                    )[k],
            decreases 4 - j,
        {
            let b = corners[j];
            let ghost p = 4 * i + j + 1;
            let ghost prev = pair_orders(adjacency@, allowed@, corners@, w, h, p - 1);
            assert((p - 1) / 4 == i && (p - 1) % 4 == j);
            let ghost o0 = orders@;
            match pair_order(adjacency, &allowed, width, height, a, b, da[b]) {
                    Some(order) => {
                        let ghost og = order@;
                        orders.push(order);
                        assert(pair_orders(adjacency@, allowed@, corners@, w, h, p) == prev.push(og));
                        assert forall|k: int| 0 <= k < orders.len() implies (#[trigger] orders@[k])@ == pair_orders(
                            adjacency@,
                            allowed@,
                            corners@,
                            w,
                            h,
                            p,
                        )[k] by {
                            if k < o0.len() {
                                assert(orders@[k] == o0[k]);
                            }
                        }
                    },
                    None => {
                        assert(pair_orders(adjacency@, allowed@, corners@, w, h, p) == prev);
                    },
            }
            j = j + 1;
        }
        i = i + 1;
    }
    assert(orders@.map_values(|g: Vec<usize>| g@) =~= pair_orders(adjacency@, allowed@, corners@, w, h, 16));
    Some(orders)
}

/// The label at padded position `(x, y)` of a buffer of stride `w + 2`.
pub open spec fn padded_at(v: Seq<i8>, w: int, x: int, y: int) -> i8 {
    v[y * (w + 2) + x]
}

/// The label at padded position `(x, y)` is non-zero.
pub open spec fn nz(src: Seq<i8>, w: int, x: int, y: int) -> bool {
    src[y * (w + 2) + x] != 0
}

/// Erosion keeps padded position `(x, y)`: it is an interior pixel of an
/// image of at least 3 x 3 pixels, not on the image border, and it and its
/// eight neighbours are all non-zero.
pub open spec fn erode_keep(src: Seq<i8>, w: int, h: int, x: int, y: int) -> bool {
    &&& w >= 3
    &&& h >= 3
    &&& 2 <= x <= w - 1
    &&& 2 <= y <= h - 1
    &&& nz(src, w, x - 1, y - 1) && nz(src, w, x, y - 1) && nz(src, w, x + 1, y - 1)
    &&& nz(src, w, x - 1, y) && nz(src, w, x, y) && nz(src, w, x + 1, y)
    &&& nz(src, w, x - 1, y + 1) && nz(src, w, x, y + 1) && nz(src, w, x + 1, y + 1)
}

/// Label at padded position `(x, y)` of a `w x h` image, stride `w + 2`.
fn padded_get(src: &[i8], w: usize, h: usize, x: usize, y: usize) -> (v: i8)
    requires
        x < w + 2,
        y < h + 2,
        src.len() == (w + 2) * (h + 2),
    ensures
        v == src@[y * (w + 2) + x],
{
    proof {
        crate::imgproc::lemma_padded_index(y as int, x as int, w + 2, h + 2);
        assert((w + 2) * (h + 2) == (h + 2) * (w + 2)) by (nonlinear_arith);
        assert(w + 2 <= (w + 2) * (h + 2)) by (nonlinear_arith);
    }
    src[y * (w + 2) + x]
}

/// One 3 x 3 erosion of a padded foreground-label image. Dark chessboard
/// squares touch only at a corner; one erosion separates those diagonal
/// contacts so that each square gets its own contour.
pub fn erode_labels(src: &[i8], w: usize, h: usize) -> (dst: Vec<i8>)
    requires
        src.len() == (w + 2) * (h + 2),
    ensures
        dst.len() == src.len(),
        forall|y: int, x: int|
            0 <= y < h + 2 && 0 <= x < w + 2 ==> padded_at(dst@, w as int, x, y) == if #[trigger] erode_keep(
                src@,
                w as int,
                h as int,
                x,
                y,
            ) {
                crate::contours::FG
            } else {
                0i8
            },
{
    proof {
        assert(w + 2 <= (w + 2) * (h + 2)) by (nonlinear_arith);
    }
    let stride = w + 2;
    let mut dst: Vec<i8> = vec![0i8; src.len()];
    proof {
        assert((w + 2) * (h + 2) == (h + 2) * (w + 2)) by (nonlinear_arith);
        assert forall|y: int, x: int| 0 <= y < h + 2 && 0 <= x < w + 2 implies #[trigger] padded_at(dst@, w as int, x, y) == 0 by {
            crate::imgproc::lemma_padded_index(y, x, w + 2, h + 2);
        }
    }
    if w < 3 || h < 3 {
        return dst;
    }
    let mut y: usize = 2;
    while y < h
        invariant
            stride == w + 2,
            w >= 3,
            h >= 3,
            2 <= y <= h,
            src.len() == (w + 2) * (h + 2),
            dst.len() == src.len(),
            (w + 2) * (h + 2) == (h + 2) * (w + 2),
            forall|yy: int, xx: int|
                0 <= yy < h + 2 && 0 <= xx < w + 2 ==> padded_at(dst@, w as int, xx, yy) == if erode_keep(
                    src@,
                    w as int,
                    h as int,
                    xx,
                    yy,
                ) && yy < y {
                    crate::contours::FG
                } else {
                    0i8
                },
        decreases h - y,
    {
        let mut x: usize = 2;
        while x < w
            invariant
                stride == w + 2,
                w >= 3,
                h >= 3,
                2 <= y < h,
                2 <= x <= w,
                src.len() == (w + 2) * (h + 2),
                dst.len() == src.len(),
                (w + 2) * (h + 2) == (h + 2) * (w + 2),
                forall|yy: int, xx: int|
                    0 <= yy < h + 2 && 0 <= xx < w + 2 ==> padded_at(dst@, w as int, xx, yy) == if erode_keep(
                        src@,
                        w as int,
                        h as int,
                        xx,
                        yy,
                    ) && (yy < y || (yy == y && xx < x)) {
                        crate::contours::FG
                    } else {
                        0i8
                    },
            decreases w - x,
        {
            let mut keep = true;
            keep = keep && padded_get(src, w, h, x - 1, y - 1) != 0;
            keep = keep && padded_get(src, w, h, x, y - 1) != 0;
            keep = keep && padded_get(src, w, h, x + 1, y - 1) != 0;
            keep = keep && padded_get(src, w, h, x - 1, y) != 0;
            keep = keep && padded_get(src, w, h, x, y) != 0;
            keep = keep && padded_get(src, w, h, x + 1, y) != 0;
            keep = keep && padded_get(src, w, h, x - 1, y + 1) != 0;
            keep = keep && padded_get(src, w, h, x, y + 1) != 0;
            keep = keep && padded_get(src, w, h, x + 1, y + 1) != 0;
            assert(keep == erode_keep(src@, w as int, h as int, x as int, y as int));
            proof {
                crate::imgproc::lemma_padded_index(y as int, x as int, w + 2, h + 2);
            }
            if keep {
                let ghost d0 = dst@;
                let i = y * stride + x;
                dst.set(i, crate::contours::FG);
                proof {
                    assert forall|yy: int, xx: int| 0 <= yy < h + 2 && 0 <= xx < w + 2 implies padded_at(dst@, w as int, xx, yy)
                        == if erode_keep(src@, w as int, h as int, xx, yy) && (yy < y || (yy == y && xx < x + 1)) {
                        crate::contours::FG
                    } else {
                        0i8
                    } by {
                        crate::imgproc::lemma_padded_index(yy, xx, w + 2, h + 2);
                        if yy * (w + 2) + xx == i as int {
                            crate::contours::lemma_index_inj(w as int + 2, xx, yy, x as int, y as int);
                        } else {
                            assert(padded_at(dst@, w as int, xx, yy) == padded_at(d0, w as int, xx, yy));
                        }
                    }
                }
            }
            x = x + 1;
        }
        y = y + 1;
    }
    dst
}

/// Label at padded position `(x, y)` of the global threshold at level `t`:
/// foreground where the pixel is at most `t`, background on the ring.
pub open spec fn global_label(px: Seq<u8>, w: int, h: int, t: int, x: int, y: int) -> i8 {
    if 1 <= x <= w && 1 <= y <= h && px[(y - 1) * w + (x - 1)] <= t {
        crate::contours::FG
    } else {
        0
    }
}

/// Otsu threshold of the image written into the contour tracer's padded
/// label layout: pixels at or below the level are foreground.
pub fn global_threshold_labels(pixels: &[u8], w: usize, h: usize) -> (labels: Vec<i8>)
    requires
        pixels.len() == w * h,
        pixels.len() <= u32::MAX,
        (w + 2) * (h + 2) <= usize::MAX,
    ensures
        labels.len() == (w + 2) * (h + 2),
        exists|t: u8|
            crate::imgproc::is_otsu_level(pixels@, t as int) && forall|y: int, x: int|
                0 <= y < h + 2 && 0 <= x < w + 2 ==> #[trigger] padded_at(labels@, w as int, x, y) == global_label(
                    pixels@,
                    w as int,
                    h as int,
                    t as int,
                    x,
                    y,
                ),
{
    let threshold = crate::imgproc::otsu_level(pixels);
    let ghost t = threshold as int;
    proof {
        assert(w + 2 <= (w + 2) * (h + 2)) by (nonlinear_arith);
        assert(h + 2 <= (w + 2) * (h + 2)) by (nonlinear_arith);
        assert((w + 2) * (h + 2) == (h + 2) * (w + 2)) by (nonlinear_arith);
    }
    let stride = w + 2;
    let mut labels: Vec<i8> = vec![0i8; stride * (h + 2)];
    assert forall|y: int, x: int| 0 <= y < h + 2 && 0 <= x < w + 2 implies #[trigger] padded_at(labels@, w as int, x, y)
        == 0 by {
        crate::imgproc::lemma_padded_index(y, x, w + 2, h + 2);
    }
    let mut y: usize = 0;
    while y < h
        invariant
            stride == w + 2,
            pixels.len() == w * h,
            y <= h,
            labels.len() == (w + 2) * (h + 2),
            (w + 2) * (h + 2) == (h + 2) * (w + 2),
            t == threshold,
            forall|yy: int, xx: int|
                0 <= yy < h + 2 && 0 <= xx < w + 2 ==> #[trigger] padded_at(labels@, w as int, xx, yy) == if yy <= y {
                    global_label(pixels@, w as int, h as int, t, xx, yy)
                } else {
                    0i8
                },
        decreases h - y,
    {
        let mut x: usize = 0;
        while x < w
            invariant
                stride == w + 2,
                pixels.len() == w * h,
                y < h,
                x <= w,
                labels.len() == (w + 2) * (h + 2),
                (w + 2) * (h + 2) == (h + 2) * (w + 2),
                t == threshold,
                forall|yy: int, xx: int|
                    0 <= yy < h + 2 && 0 <= xx < w + 2 ==> #[trigger] padded_at(labels@, w as int, xx, yy) == if yy <= y
                        || (yy == y + 1 && xx <= x) {
                        global_label(pixels@, w as int, h as int, t, xx, yy)
                    } else {
                        0i8
                    },
            decreases w - x,
        {
            proof {
                crate::imgproc::lemma_row_major(y as int, x as int, w as int, h as int);
                crate::imgproc::lemma_padded_index(y + 1, x + 1, w + 2, h + 2);
            }
            if pixels[y * w + x] <= threshold {
                let ghost l0 = labels@;
                let i = (y + 1) * stride + x + 1;
                labels.set(i, crate::contours::FG);
                proof {
                    assert forall|yy: int, xx: int| 0 <= yy < h + 2 && 0 <= xx < w + 2 implies #[trigger] padded_at(
                        labels@,
                        w as int,
                        xx,
                        yy,
                    ) == if yy <= y || (yy == y + 1 && xx <= x + 1) {
                        global_label(pixels@, w as int, h as int, t, xx, yy)
                    } else {
                        0i8
                    } by {
                        crate::imgproc::lemma_padded_index(yy, xx, w + 2, h + 2);
                        if yy * (w + 2) + xx == i as int {
                            crate::contours::lemma_index_inj(w as int + 2, xx, yy, x + 1, y + 1);
                        } else {
                            assert(padded_at(labels@, w as int, xx, yy) == padded_at(l0, w as int, xx, yy));
                        }
                    }
                }
            }
            x = x + 1;
        }
        y = y + 1;
    }
    labels
}

} // verus!
