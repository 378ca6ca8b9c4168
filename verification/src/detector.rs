//! Integer decisions of the marker detector: how many threshold scales run,
//! how near-duplicate candidates are grouped, how border cells are counted,
//! and how identified corners are rotated into canonical order.

use vstd::prelude::*;

verus! {

/// Integer division rounding toward zero, as Rust's `/` does.
pub open spec fn trunc_div(a: int, b: int) -> int {
    if (a >= 0) == (b > 0) {
        if a >= 0 {
            a / b
        } else {
            (-a) / (-b)
        }
    } else if a >= 0 {
        -(a / (-b))
    } else {
        -((-a) / b)
    }
}

/// Number of adaptive-threshold window sizes from `win_min` to `win_max` in
/// steps of `win_step`: `(win_max - win_min) / win_step + 1`.
pub fn n_scales(win_min: i32, win_max: i32, win_step: i32) -> (n: i32)
    requires
        win_step != 0,
        i32::MIN <= win_max - win_min <= i32::MAX,
        trunc_div(win_max - win_min, win_step as int) + 1 <= i32::MAX,
    ensures
        n == trunc_div(win_max - win_min, win_step as int) + 1,
{
    let d = win_max as i64 - win_min as i64;
    let s = win_step as i64;
    let q: i64 = if d >= 0 {
        if s > 0 {
            d / s
        } else {
            -(d / -s)
        }
    } else if s > 0 {
        -((-d) / s)
    } else {
        (-d) / (-s)
    };
    proof {
        let di = d as int;
        let si = s as int;
        if di >= 0 && si > 0 {
            assert(0 <= di / si <= di) by (nonlinear_arith)
                requires
                    di >= 0,
                    si > 0,
            ;
        } else if di >= 0 {
            assert(0 <= di / (-si) <= di) by (nonlinear_arith)
                requires
                    di >= 0,
                    -si > 0,
            ;
        } else if si > 0 {
            assert(0 <= (-di) / si <= -di) by (nonlinear_arith)
                requires
                    -di > 0,
                    si > 0,
            ;
        } else {
            assert(0 <= (-di) / (-si) <= -di) by (nonlinear_arith)
                requires
                    -di > 0,
                    -si > 0,
            ;
        }
    }
    (q + 1) as i32
}

/// Candidates `i` and `j` (by rank) were judged near duplicates; the
/// judgement for a pair is read from the row of the higher-ranked one.
pub open spec fn near(close: Seq<Vec<bool>>, i: int, j: int) -> bool {
    if i < j {
        close[i]@[j]
    } else if j < i {
        close[j]@[i]
    } else {
        false
    }
}

/// Candidate `i` is a near duplicate of some other candidate.
pub open spec fn has_partner(close: Seq<Vec<bool>>, i: int) -> bool {
    exists|j: int| 0 <= j < close.len() && #[trigger] near(close, i, j)
}

/// Candidate `v` is a member of some group.
pub open spec fn in_some_group(groups: Seq<Vec<usize>>, v: int) -> bool {
    exists|g: int, k: int| 0 <= g < groups.len() && 0 <= k < groups[g]@.len() && #[trigger] groups[g]@[k] == v as usize
}

/// The groups formed from the near-duplicate judgements: every candidate is
/// in exactly one group; a group lists its smallest (highest-ranked) member
/// first and the groups come in increasing order of it; a candidate is alone
/// in its group exactly when it has no near duplicate.
pub open spec fn groups_ok(close: Seq<Vec<bool>>, groups: Seq<Vec<usize>>) -> bool {
    let n = close.len();
    &&& forall|g: int| 0 <= g < groups.len() ==> (#[trigger] groups[g])@.len() >= 1
    &&& forall|g: int, k: int|
        0 <= g < groups.len() && 0 <= k < groups[g]@.len() ==> (#[trigger] groups[g]@[k]) < n && groups[g]@[0]
            <= groups[g]@[k]
    &&& forall|g1: int, g2: int| 0 <= g1 < g2 < groups.len() ==> (#[trigger] groups[g1])@[0] < (#[trigger] groups[g2])@[0]
    &&& forall|g1: int, k1: int, g2: int, k2: int|
        0 <= g1 < groups.len() && 0 <= k1 < groups[g1]@.len() && 0 <= g2 < groups.len() && 0 <= k2 < groups[g2]@.len()
            && #[trigger] groups[g1]@[k1] == #[trigger] groups[g2]@[k2] ==> g1 == g2 && k1 == k2
    &&& forall|v: int| 0 <= v < n ==> #[trigger] in_some_group(groups, v)
    &&& forall|g: int| 0 <= g < groups.len() && (#[trigger] groups[g])@.len() == 1 ==> !has_partner(close, groups[g]@[0] as int)
    &&& forall|g: int, k: int|
        0 <= g < groups.len() && 0 <= k < groups[g]@.len() && groups[g]@.len() >= 2 ==> has_partner(
            close,
            (#[trigger] groups[g]@[k]) as int,
        )
}

/// The member lists of the groups.
pub open spec fn group_lists(groups: Seq<Vec<usize>>) -> Seq<Seq<usize>> {
    groups.map_values(|g: Vec<usize>| g@)
}

/// One step of the scan, on the pair `(i, j)` with `i < j`: the group id of
/// each candidate (`usize::MAX` while it has none) and the member lists. A
/// close pair of two ungrouped candidates opens a new group `[i, j]`; a close
/// pair with one grouped member appends the other to that member's group.
pub open spec fn pair_step(close: Seq<Vec<bool>>, gid: Seq<usize>, gs: Seq<Seq<usize>>, i: int, j: int) -> (
    Seq<usize>,
    Seq<Seq<usize>>,
) {
    if !close[i]@[j] {
        (gid, gs)
    } else if gid[i] == usize::MAX && gid[j] == usize::MAX {
        (gid.update(i, gs.len() as usize).update(j, gs.len() as usize), gs.push(seq![i as usize, j as usize]))
    } else if gid[i] != usize::MAX && gid[j] == usize::MAX {
        (gid.update(j, gid[i]), gs.update(gid[i] as int, gs[gid[i] as int].push(j as usize)))
    } else if gid[j] != usize::MAX && gid[i] == usize::MAX {
        (gid.update(i, gid[j]), gs.update(gid[j] as int, gs[gid[j] as int].push(i as usize)))
    } else {
        (gid, gs)
    }
}

/// The scan of row `i` over the pairs `(i, i + 1)` to `(i, j - 1)`.
pub open spec fn row_scan(close: Seq<Vec<bool>>, gid: Seq<usize>, gs: Seq<Seq<usize>>, i: int, j: int) -> (
    Seq<usize>,
    Seq<Seq<usize>>,
)
    decreases j - i,
{
    if j <= i + 1 {
        (gid, gs)
    } else {
        let st = row_scan(close, gid, gs, i, j - 1);
        pair_step(close, st.0, st.1, i, j - 1)
    }
}

/// Group ids and member lists after the rows `0` to `i - 1`: each row scans
/// its pairs, then a candidate still without a group gets one of its own.
pub open spec fn scan_rows(close: Seq<Vec<bool>>, i: int) -> (Seq<usize>, Seq<Seq<usize>>)
    decreases i,
{
    if i <= 0 {
        (Seq::new(close.len(), |v: int| usize::MAX), Seq::empty())
    } else {
        let st0 = scan_rows(close, i - 1);
        let st = row_scan(close, st0.0, st0.1, i - 1, close.len() as int);
        if st.0[i - 1] == usize::MAX {
            (st.0.update(i - 1, st.1.len() as usize), st.1.push(seq![(i - 1) as usize]))
        } else {
            st
        }
    }
}

/// Appends `v` to group `g`.
fn push_to_group(groups: &mut Vec<Vec<usize>>, g: usize, v: usize)
    requires
        g < old(groups).len(),
    ensures
        final(groups).len() == old(groups).len(),
        final(groups)@[g as int]@ == old(groups)@[g as int]@.push(v),
        forall|h: int| 0 <= h < final(groups).len() && h != g ==> #[trigger] final(groups)@[h] == old(groups)@[h],
{
    let mut list = groups[g].clone();
    assert(list@ =~= groups@[g as int]@);
    list.push(v);
    groups.set(g, list);
}

/// Candidate `v` was judged a near duplicate of some candidate ranked above
/// both `i` and `v`.
pub open spec fn paired_before(close: Seq<Vec<bool>>, i: int, v: int) -> bool {
    exists|u: int| 0 <= u < i && u < v && #[trigger] close[u]@[v]
}

/// Group ids and group lists agree: each group lists distinct candidates,
/// each carrying that group's id, and each grouped candidate is listed.
#[verifier::opaque]
pub open spec fn membership_ok(gid: Seq<usize>, groups: Seq<Vec<usize>>, n: int) -> bool {
    &&& gid.len() == n
    &&& forall|v: int| 0 <= v < n && #[trigger] gid[v] != usize::MAX ==> gid[v] < groups.len() && groups[gid[v] as int]@.contains(v as usize)
    &&& forall|g: int, k: int|
        0 <= g < groups.len() && 0 <= k < groups[g]@.len() ==> (#[trigger] groups[g]@[k]) < n && gid[groups[g]@[k] as int] == g
    &&& forall|g: int| 0 <= g < groups.len() ==> (#[trigger] groups[g])@.no_duplicates() && groups[g]@.len() >= 1
}

/// Each group lists its smallest member first, the first members increase
/// along the groups and none exceeds `i`.
#[verifier::opaque]
pub open spec fn order_ok(groups: Seq<Vec<usize>>, i: int) -> bool {
    &&& forall|g: int, k: int| 0 <= g < groups.len() && 0 <= k < groups[g]@.len() ==> groups[g]@[0] <= #[trigger] groups[g]@[k]
    &&& forall|g: int| 0 <= g < groups.len() ==> (#[trigger] groups[g])@[0] <= i
    &&& forall|g1: int, g2: int| 0 <= g1 < g2 < groups.len() ==> (#[trigger] groups[g1])@[0] < (#[trigger] groups[g2])@[0]
}

/// Single-member groups hold candidates below `i` without near duplicates;
/// members of larger groups have near duplicates.
#[verifier::opaque]
pub open spec fn partners_ok(close: Seq<Vec<bool>>, groups: Seq<Vec<usize>>, i: int) -> bool {
    &&& forall|g: int| 0 <= g < groups.len() && (#[trigger] groups[g])@.len() == 1 ==> groups[g]@[0] < i && !has_partner(close, groups[g]@[0] as int)
    &&& forall|g: int, k: int|
        0 <= g < groups.len() && 0 <= k < groups[g]@.len() && groups[g]@.len() >= 2 ==> has_partner(
            close,
            (#[trigger] groups[g]@[k]) as int,
        )
}

#[verifier::rlimit(40)]
proof fn lemma_open_group(
    close: Seq<Vec<bool>>,
    g0: Seq<Vec<usize>>,
    g1: Seq<Vec<usize>>,
    id0: Seq<usize>,
    id1: Seq<usize>,
    n: int,
    i: int,
    j: int,
)
    requires
        n == close.len(),
        n <= usize::MAX,
        0 <= i < j < n,
        close[i]@[j],
        membership_ok(id0, g0, n),
        order_ok(g0, i),
        forall|g: int| 0 <= g < g0.len() && (#[trigger] g0[g])@[0] == i ==> id0[i] != usize::MAX,
        partners_ok(close, g0, i),
        id0[i] == usize::MAX,
        id0[j] == usize::MAX,
        g0.len() < usize::MAX,
        g1.len() == g0.len() + 1,
        forall|g: int| 0 <= g < g0.len() ==> #[trigger] g1[g] == g0[g],
        g1[g0.len() as int]@ == seq![i as usize, j as usize],
        id1 == id0.update(i, g0.len() as usize).update(j, g0.len() as usize),
    ensures
        membership_ok(id1, g1, n),
        order_ok(g1, i),
        forall|g: int| 0 <= g < g1.len() && (#[trigger] g1[g])@[0] == i ==> id1[i] != usize::MAX,
        partners_ok(close, g1, i),
{
    reveal(membership_ok);
    reveal(order_ok);
    reveal(partners_ok);
    let ng = g0.len() as int;
    assert forall|v: int| 0 <= v < n && #[trigger] id1[v] != usize::MAX implies id1[v] < g1.len() && g1[id1[v] as int]@.contains(
        v as usize,
    ) by {
        if v == i {
            assert(g1[ng]@[0] == i as usize);
        } else if v == j {
            assert(g1[ng]@[1] == j as usize);
        } else {
            assert(id0[v] != usize::MAX);
            assert(g1[id0[v] as int] == g0[id0[v] as int]);
        }
    }
    assert forall|g: int, k: int| 0 <= g < g1.len() && 0 <= k < g1[g]@.len() implies (#[trigger] g1[g]@[k]) < n && id1[
        g1[g]@[k] as int] == g by {
        if g < ng {
            assert(g1[g] == g0[g]);
            let v = g0[g]@[k] as int;
            assert(id0[v] == g);
            assert(v != i && v != j);
        } else if k == 0 {
            assert(g1[g]@[k] == i as usize);
        } else {
            assert(g1[g]@[k] == j as usize);
        }
    }
    assert forall|g: int| 0 <= g < g1.len() implies (#[trigger] g1[g])@.no_duplicates() && g1[g]@.len() >= 1 by {
        if g < ng {
            assert(g1[g] == g0[g]);
        } else {
            assert(g1[g]@[0] != g1[g]@[1]);
        }
    }
    assert forall|g: int, k: int| 0 <= g < g1.len() && 0 <= k < g1[g]@.len() implies g1[g]@[0] <= #[trigger] g1[g]@[k] by {
        if g < ng {
            assert(g1[g] == g0[g]);
        }
    }
    assert forall|g1i: int, g2i: int| 0 <= g1i < g2i < g1.len() implies (#[trigger] g1[g1i])@[0] < (#[trigger] g1[g2i])@[0] by {
        assert(g1[g1i] == g0[g1i]);
        if g2i < ng {
            assert(g1[g2i] == g0[g2i]);
        } else {
            assert(g0[g1i]@[0] <= i);
            if g0[g1i]@[0] == i {
                assert(id0[i] != usize::MAX);
            }
        }
    }
    assert forall|g: int| 0 <= g < g1.len() && (#[trigger] g1[g])@.len() == 1 implies g1[g]@[0] < i && !has_partner(
        close,
        g1[g]@[0] as int,
    ) by {
        assert(g < ng);
        assert(g1[g] == g0[g]);
    }
    assert forall|g: int, k: int| 0 <= g < g1.len() && 0 <= k < g1[g]@.len() && g1[g]@.len() >= 2 implies has_partner(
        close,
        (#[trigger] g1[g]@[k]) as int,
    ) by {
        if g < ng {
            assert(g1[g] == g0[g]);
        } else if k == 0 {
            assert(near(close, i, j));
        } else {
            assert(near(close, j, i));
        }
    }
}

#[verifier::rlimit(100)]
#[verifier::spinoff_prover]
proof fn lemma_join_group(
    close: Seq<Vec<bool>>,
    g0: Seq<Vec<usize>>,
    g1: Seq<Vec<usize>>,
    id0: Seq<usize>,
    id1: Seq<usize>,
    n: int,
    i: int,
    v: int,
    m: int,
    g: int,
)
    requires
        n == close.len(),
        n <= usize::MAX,
        0 <= i <= v < n,
        0 <= m < n,
        near(close, v, m),
        membership_ok(id0, g0, n),
        order_ok(g0, i),
        forall|h: int| 0 <= h < g0.len() && (#[trigger] g0[h])@[0] == i ==> id0[i] != usize::MAX,
        partners_ok(close, g0, i),
        id0[m] as int == g,
        0 <= g < g0.len(),
        g0.len() <= usize::MAX,
        id0[v] == usize::MAX,
        v == i ==> id0[i] == usize::MAX,
        g1.len() == g0.len(),
        forall|h: int| 0 <= h < g0.len() && h != g ==> #[trigger] g1[h] == g0[h],
        g1[g]@ == g0[g]@.push(v as usize),
        id1 == id0.update(v, g as usize),
    ensures
        membership_ok(id1, g1, n),
        order_ok(g1, i),
        forall|h: int| 0 <= h < g1.len() && (#[trigger] g1[h])@[0] == i ==> id1[i] != usize::MAX,
        partners_ok(close, g1, i),
{
    reveal(membership_ok);
    reveal(order_ok);
    reveal(partners_ok);
    let gl = g0[g]@;
    assert(gl.contains(m as usize));
    assert(gl.len() >= 2) by {
        if gl.len() == 1 {
            assert(gl[0] == m as usize);
            assert(g0[g]@.len() == 1);
            assert(g0[g]@[0] as int == m);
            assert(!has_partner(close, m));
            assert(near(close, m, v));
        }
    }
    assert(gl[0] <= i) by {
        assert(g0[g]@[0] <= i);
    }
    assert forall|w: int| 0 <= w < n && #[trigger] id1[w] != usize::MAX implies id1[w] < g1.len() && g1[id1[w] as int]@.contains(
        w as usize,
    ) by {
        if w == v {
            assert(g1[g]@[gl.len() as int] == v as usize);
        } else {
            assert(id0[w] != usize::MAX);
            let h = id0[w] as int;
            if h == g {
                let kw = choose|kw: int| 0 <= kw < gl.len() && gl[kw] == w as usize;
                assert(g1[g]@[kw] == w as usize);
            } else {
                assert(g1[h] == g0[h]);
            }
        }
    }
    assert forall|h: int, k: int| 0 <= h < g1.len() && 0 <= k < g1[h]@.len() implies (#[trigger] g1[h]@[k]) < n && id1[
        g1[h]@[k] as int] == h by {
        if h != g {
            assert(g1[h] == g0[h]);
            assert(id0[g0[h]@[k] as int] == h);
            assert(g0[h]@[k] as int != v);
        } else if k < gl.len() {
            assert(g1[h]@[k] == gl[k]);
            assert(id0[gl[k] as int] == g);
            assert(gl[k] as int != v);
        }
    }
    assert forall|h: int| 0 <= h < g1.len() implies (#[trigger] g1[h])@.no_duplicates() && g1[h]@.len() >= 1 by {
        if h != g {
            assert(g1[h] == g0[h]);
        } else {
            assert forall|a: int, b: int| 0 <= a < b < g1[h]@.len() implies g1[h]@[a] != g1[h]@[b] by {
                if b < gl.len() {
                    assert(g1[h]@[a] == gl[a] && g1[h]@[b] == gl[b]);
                } else {
                    assert(g1[h]@[a] == gl[a]);
                    assert(id0[gl[a] as int] == g);
                }
            }
        }
    }
    assert forall|h: int, k: int| 0 <= h < g1.len() && 0 <= k < g1[h]@.len() implies g1[h]@[0] <= #[trigger] g1[h]@[k] by {
        if h != g {
            assert(g1[h] == g0[h]);
        } else if k < gl.len() {
            assert(g1[h]@[k] == gl[k]);
            assert(g0[g]@[0] <= gl[k]);
        } else {
            assert(g1[h]@[0] == gl[0]);
            if v == i {
                if gl[0] as int == i {
                    assert(id0[i] != usize::MAX);
                }
            }
        }
    }
    assert forall|h: int| 0 <= h < g1.len() implies (#[trigger] g1[h])@[0] <= i by {
        if h != g {
            assert(g1[h] == g0[h]);
        }
    }
    assert forall|a: int, b: int| 0 <= a < b < g1.len() implies (#[trigger] g1[a])@[0] < (#[trigger] g1[b])@[0] by {
        assert(g1[a]@[0] == g0[a]@[0]);
        assert(g1[b]@[0] == g0[b]@[0]);
    }
    assert forall|h: int| 0 <= h < g1.len() && (#[trigger] g1[h])@.len() == 1 implies g1[h]@[0] < i && !has_partner(
        close,
        g1[h]@[0] as int,
    ) by {
        assert(h != g);
        assert(g1[h] == g0[h]);
    }
    assert forall|h: int, k: int| 0 <= h < g1.len() && 0 <= k < g1[h]@.len() && g1[h]@.len() >= 2 implies has_partner(
        close,
        (#[trigger] g1[h]@[k]) as int,
    ) by {
        if h != g {
            assert(g1[h] == g0[h]);
        } else if k < gl.len() {
            assert(g1[h]@[k] == gl[k]);
            assert(has_partner(close, g0[g]@[k] as int));
        } else {
            assert(g1[h]@[k] == v as usize);
            assert(near(close, v, m));
        }
    }
}

#[verifier::rlimit(40)]
proof fn lemma_single_group(
    close: Seq<Vec<bool>>,
    g0: Seq<Vec<usize>>,
    g1: Seq<Vec<usize>>,
    id0: Seq<usize>,
    id1: Seq<usize>,
    n: int,
    i: int,
)
    requires
        n == close.len(),
        n <= usize::MAX,
        0 <= i < n,
        !paired_before(close, i, i),
        forall|k: int| i < k < n ==> !(#[trigger] close[i]@[k]),
        membership_ok(id0, g0, n),
        order_ok(g0, i),
        forall|h: int| 0 <= h < g0.len() && (#[trigger] g0[h])@[0] == i ==> id0[i] != usize::MAX,
        partners_ok(close, g0, i),
        id0[i] == usize::MAX,
        g0.len() < usize::MAX,
        g1.len() == g0.len() + 1,
        forall|h: int| 0 <= h < g0.len() ==> #[trigger] g1[h] == g0[h],
        g1[g0.len() as int]@ == seq![i as usize],
        id1 == id0.update(i, g0.len() as usize),
    ensures
        membership_ok(id1, g1, n),
        order_ok(g1, i),
        partners_ok(close, g1, i + 1),
{
    reveal(membership_ok);
    reveal(order_ok);
    reveal(partners_ok);
    let ng = g0.len() as int;
    assert(!has_partner(close, i)) by {
        if has_partner(close, i) {
            let j = choose|j: int| 0 <= j < close.len() && #[trigger] near(close, i, j);
            if j < i {
                assert(close[j]@[i]);
                assert(paired_before(close, i, i));
            } else {
                assert(close[i]@[j]);
            }
        }
    }
    assert forall|v: int| 0 <= v < n && #[trigger] id1[v] != usize::MAX implies id1[v] < g1.len() && g1[id1[v] as int]@.contains(
        v as usize,
    ) by {
        if v == i {
            assert(g1[ng]@[0] == i as usize);
        } else {
            assert(g1[id0[v] as int] == g0[id0[v] as int]);
        }
    }
    assert forall|g: int, k: int| 0 <= g < g1.len() && 0 <= k < g1[g]@.len() implies (#[trigger] g1[g]@[k]) < n && id1[
        g1[g]@[k] as int] == g by {
        if g < ng {
            assert(g1[g] == g0[g]);
            assert(id0[g0[g]@[k] as int] == g);
            assert(g0[g]@[k] as int != i);
        } else {
            assert(g1[g]@[k] == i as usize);
        }
    }
    assert forall|g: int| 0 <= g < g1.len() implies (#[trigger] g1[g])@.no_duplicates() && g1[g]@.len() >= 1 by {
        if g < ng {
            assert(g1[g] == g0[g]);
        }
    }
    assert forall|g: int, k: int| 0 <= g < g1.len() && 0 <= k < g1[g]@.len() implies g1[g]@[0] <= #[trigger] g1[g]@[k] by {
        if g < ng {
            assert(g1[g] == g0[g]);
        }
    }
    assert forall|a: int, b: int| 0 <= a < b < g1.len() implies (#[trigger] g1[a])@[0] < (#[trigger] g1[b])@[0] by {
        assert(g1[a] == g0[a]);
        if b < ng {
            assert(g1[b] == g0[b]);
        } else if g0[a]@[0] == i {
            assert(id0[i] != usize::MAX);
        }
    }
    assert forall|g: int| 0 <= g < g1.len() && (#[trigger] g1[g])@.len() == 1 implies g1[g]@[0] < i + 1 && !has_partner(
        close,
        g1[g]@[0] as int,
    ) by {
        if g < ng {
            assert(g1[g] == g0[g]);
        }
    }
    assert forall|g: int, k: int| 0 <= g < g1.len() && 0 <= k < g1[g]@.len() && g1[g]@.len() >= 2 implies has_partner(
        close,
        (#[trigger] g1[g]@[k]) as int,
    ) by {
        assert(g < ng);
        assert(g1[g] == g0[g]);
    }
}

#[verifier::rlimit(40)]
proof fn lemma_groups_final(close: Seq<Vec<bool>>, groups: Seq<Vec<usize>>, gid: Seq<usize>, n: int)
    requires
        n == close.len(),
        membership_ok(gid, groups, n),
        order_ok(groups, n - 1),
        partners_ok(close, groups, n),
        forall|v: int| 0 <= v < n ==> #[trigger] gid[v] != usize::MAX,
    ensures
        groups_ok(close, groups),
{
    reveal(membership_ok);
    reveal(order_ok);
    reveal(partners_ok);
    assert forall|v: int| 0 <= v < n implies #[trigger] in_some_group(groups, v) by {
        assert(gid[v] != usize::MAX);
        let g = gid[v] as int;
        let k = choose|k: int| 0 <= k < groups[g]@.len() && groups[g]@[k] == v as usize;
        assert(groups[g]@[k] == v as usize);
    }
    assert forall|g1: int, k1: int, g2: int, k2: int|
        0 <= g1 < groups.len() && 0 <= k1 < groups[g1]@.len() && 0 <= g2 < groups.len() && 0 <= k2 < groups[g2]@.len()
            && #[trigger] groups[g1]@[k1] == #[trigger] groups[g2]@[k2] implies g1 == g2 && k1 == k2 by {
        assert(gid[groups[g1]@[k1] as int] == g1);
        assert(gid[groups[g2]@[k2] as int] == g2);
        assert(groups[g1]@.no_duplicates());
    }
}

/// With first members increasing from zero, group `k` starts at `k` or later.
proof fn lemma_firsts_grow(groups: Seq<Vec<usize>>, i: int, k: int)
    requires
        order_ok(groups, i),
        forall|g: int| 0 <= g < groups.len() ==> (#[trigger] groups[g])@.len() >= 1,
        0 <= k < groups.len(),
    ensures
        groups[k]@[0] >= k,
    decreases k,
{
    reveal(order_ok);
    if k > 0 {
        lemma_firsts_grow(groups, i, k - 1);
        assert(groups[k - 1]@[0] < groups[k]@[0]);
    }
}

/// Fewer groups than `i` when every group starts below `i`.
proof fn lemma_group_count(groups: Seq<Vec<usize>>, gid: Seq<usize>, i: int, n: int)
    requires
        i >= 0,
        order_ok(groups, i),
        membership_ok(gid, groups, n),
        forall|g: int| 0 <= g < groups.len() ==> (#[trigger] groups[g])@[0] < i,
    ensures
        groups.len() <= i,
{
    reveal(membership_ok);
    if groups.len() > i {
        lemma_firsts_grow(groups, i, groups.len() - 1);
    }
}

/// Groups near-duplicate marker candidates. Candidates are ranked (largest
/// first); `close[i][j]` for `i < j` tells whether `i` and `j` are near
/// duplicates. Scanning `i` in rank order and `j > i`: a close pair of two
/// ungrouped candidates opens a group, an ungrouped candidate joins the group
/// of its grouped partner, and a candidate left without any near duplicate
/// gets a group of its own.
#[verifier::rlimit(100)]
#[verifier::spinoff_prover]
pub fn group_candidates(close: &[Vec<bool>]) -> (groups: Vec<Vec<usize>>)
    requires
        forall|r: int| 0 <= r < close.len() ==> (#[trigger] close@[r])@.len() == close.len(),
    ensures
        groups_ok(close@, groups@),
        group_lists(groups@) == scan_rows(close@, close.len() as int).1,
{
    let n = close.len();
    let mut gid: Vec<usize> = vec![usize::MAX; n];
    let mut alone: Vec<bool> = vec![true; n];
    let mut groups: Vec<Vec<usize>> = Vec::new();
    proof {
        reveal(membership_ok);
        reveal(order_ok);
        reveal(partners_ok);
    }
    let mut i: usize = 0;
    while i < n
        invariant
            n == close.len(),
            forall|r: int| 0 <= r < n ==> (#[trigger] close@[r])@.len() == n,
            i <= n,
            alone.len() == n,
            gid.len() == n,
            membership_ok(gid@, groups@, n as int),
            order_ok(groups@, i as int - 1),
            partners_ok(close@, groups@, i as int),
            forall|v: int| 0 <= v < n && #[trigger] gid@[v] != usize::MAX ==> gid@[v] < groups.len(),
            forall|v: int| 0 <= v < i ==> #[trigger] gid@[v] != usize::MAX,
            forall|v: int|
                i <= v < n ==> (#[trigger] gid@[v] != usize::MAX) == paired_before(close@, i as int, v) && alone@[v] == (
                gid@[v] == usize::MAX),
            gid@ == scan_rows(close@, i as int).0,
            group_lists(groups@) == scan_rows(close@, i as int).1,
        decreases n - i,
    {
        let ghost row_start = scan_rows(close@, i as int);
        proof {
            reveal(order_ok);
            reveal(membership_ok);
            assert forall|g: int| 0 <= g < groups.len() && (#[trigger] groups@[g])@[0] == i implies gid@[i as int] != usize::MAX by {
                assert(groups@[g]@[0] <= i - 1);
            }
        }
        let mut j: usize = i + 1;
        while j < n
            invariant
                n == close.len(),
                forall|r: int| 0 <= r < n ==> (#[trigger] close@[r])@.len() == n,
                i < n,
                i < j <= n,
                alone.len() == n,
                gid.len() == n,
                membership_ok(gid@, groups@, n as int),
                order_ok(groups@, i as int),
                forall|g: int| 0 <= g < groups.len() && (#[trigger] groups@[g])@[0] == i ==> gid@[i as int] != usize::MAX,
                partners_ok(close@, groups@, i as int),
                forall|v: int| 0 <= v < n && #[trigger] gid@[v] != usize::MAX ==> gid@[v] < groups.len(),
                forall|v: int| 0 <= v < i ==> #[trigger] gid@[v] != usize::MAX,
                forall|v: int|
                    i < v < n ==> (#[trigger] gid@[v] != usize::MAX) == (paired_before(close@, i as int, v) || (v < j
                        && close@[i as int]@[v])) && alone@[v] == (gid@[v] == usize::MAX),
                (gid@[i as int] != usize::MAX) == (paired_before(close@, i as int, i as int) || exists|k: int|
                    i < k < j && #[trigger] close@[i as int]@[k]),
                alone@[i as int] == (gid@[i as int] == usize::MAX),
                row_start == scan_rows(close@, i as int),
                gid@ == row_scan(close@, row_start.0, row_start.1, i as int, j as int).0,
                group_lists(groups@) == row_scan(close@, row_start.0, row_start.1, i as int, j as int).1,
            decreases n - j,
        {
            let ghost id_before = gid@;
            let ghost lists_before = group_lists(groups@);
            if close[i][j] {
                let ghost g0 = groups@;
                let ghost id0 = gid@;
                alone.set(i, false);
                alone.set(j, false);
                if gid[i] == usize::MAX && gid[j] == usize::MAX {
                    proof {
                        assert forall|g: int| 0 <= g < groups.len() implies (#[trigger] groups@[g])@[0] < i by {
                            reveal(order_ok);
                            assert(groups@[g]@[0] <= i);
                        }
                        lemma_group_count(groups@, gid@, i as int, n as int);
                    }
                    let g = groups.len();
                    gid.set(i, g);
                    gid.set(j, g);
                    let mut pair: Vec<usize> = Vec::new();
                    pair.push(i);
                    pair.push(j);
                    assert(pair@ =~= seq![i, j]);
                    groups.push(pair);
                    proof {
                        lemma_open_group(close@, g0, groups@, id0, gid@, n as int, i as int, j as int);
                        assert(group_lists(groups@) =~= lists_before.push(seq![i as usize, j as usize]));
                    }
                } else if gid[i] != usize::MAX && gid[j] == usize::MAX {
                    let g = gid[i];
                    gid.set(j, g);
                    push_to_group(&mut groups, g, j);
                    proof {
                        lemma_join_group(close@, g0, groups@, id0, gid@, n as int, i as int, j as int, i as int, g as int);
                        assert(group_lists(groups@) =~= lists_before.update(
                            g as int,
                            lists_before[g as int].push(j as usize),
                        ));
                    }
                } else if gid[j] != usize::MAX && gid[i] == usize::MAX {
                    let g = gid[j];
                    gid.set(i, g);
                    push_to_group(&mut groups, g, i);
                    proof {
                        lemma_join_group(close@, g0, groups@, id0, gid@, n as int, i as int, i as int, j as int, g as int);
                        assert(group_lists(groups@) =~= lists_before.update(
                            g as int,
                            lists_before[g as int].push(i as usize),
                        ));
                    }
                }
                proof {
                    assert(gid@[i as int] != usize::MAX && gid@[j as int] != usize::MAX);
                    assert forall|v: int| 0 <= v < n && v != i && v != j implies gid@[v] == id_before[v] by {}
                }
            }
            proof {
                assert(gid@ == pair_step(close@, id_before, lists_before, i as int, j as int).0);
                assert(group_lists(groups@) == pair_step(close@, id_before, lists_before, i as int, j as int).1);
                assert(row_scan(close@, row_start.0, row_start.1, i as int, j + 1) == pair_step(
                    close@,
                    id_before,
                    lists_before,
                    i as int,
                    j as int,
                ));
                assert forall|v: int| i < v < n implies (#[trigger] gid@[v] != usize::MAX) == (paired_before(
                    close@,
                    i as int,
                    v,
                ) || (v < j + 1 && close@[i as int]@[v])) && alone@[v] == (gid@[v] == usize::MAX) by {
                    if v != j {
                        assert(gid@[v] == id_before[v]);
                    }
                }
                if close@[i as int]@[j as int] {
                    assert(exists|k: int| i < k < j + 1 && #[trigger] close@[i as int]@[k]);
                } else {
                    if exists|k: int| i < k < j + 1 && #[trigger] close@[i as int]@[k] {
                        let k = choose|k: int| i < k < j + 1 && #[trigger] close@[i as int]@[k];
                        assert(k < j);
                    }
                }
            }
            j = j + 1;
        }
        let ghost id_mid = gid@;
        if alone[i] {
            proof {
                assert forall|g: int| 0 <= g < groups.len() implies (#[trigger] groups@[g])@[0] < i by {
                    reveal(order_ok);
                    assert(groups@[g]@[0] <= i);
                }
                lemma_group_count(groups@, gid@, i as int, n as int);
            }
            let ghost g0 = groups@;
            let ghost id0 = gid@;
            alone.set(i, false);
            let g = groups.len();
            gid.set(i, g);
            let mut single: Vec<usize> = Vec::new();
            single.push(i);
            assert(single@ =~= seq![i]);
            groups.push(single);
            proof {
                lemma_single_group(close@, g0, groups@, id0, gid@, n as int, i as int);
                assert(group_lists(groups@) =~= group_lists(g0).push(seq![i as usize]));
            }
        } else {
            proof {
                reveal(order_ok);
                reveal(partners_ok);
            }
        }
        proof {
            assert forall|v: int| i + 1 <= v < n implies (#[trigger] gid@[v] != usize::MAX) == paired_before(
                close@,
                i + 1,
                v,
            ) && alone@[v] == (gid@[v] == usize::MAX) by {
                assert(gid@[v] == id_mid[v]);
                if paired_before(close@, i + 1, v) && !paired_before(close@, i as int, v) {
                    let u = choose|u: int| 0 <= u < i + 1 && u < v && #[trigger] close@[u]@[v];
                    assert(u == i);
                }
                if close@[i as int]@[v] {
                    assert(paired_before(close@, i + 1, v));
                }
                if paired_before(close@, i as int, v) {
                    let u = choose|u: int| 0 <= u < i && u < v && #[trigger] close@[u]@[v];
                    assert(paired_before(close@, i + 1, v));
                }
            }
        }
        i = i + 1;
    }
    proof {
        lemma_groups_final(close@, groups@, gid@, n as int);
    }
    groups
}

/// One for a set flag.
pub open spec fn bit(b: bool) -> int {
    if b {
        1
    } else {
        0
    }
}

/// Row `y`: the first `k` cells from the left edge and from the right edge.
pub open spec fn row_part(a: Seq<bool>, s: int, y: int, k: int) -> int
    decreases k,
{
    if k <= 0 {
        0
    } else {
        row_part(a, s, y, k - 1) + bit(a[y * s + (k - 1)]) + bit(a[y * s + (s - 1 - (k - 1))])
    }
}

/// Rows `0..rows`: their `b` leftmost and `b` rightmost cells.
pub open spec fn side_count(a: Seq<bool>, s: int, b: int, rows: int) -> int
    decreases rows,
{
    if rows <= 0 {
        0
    } else {
        side_count(a, s, b, rows - 1) + row_part(a, s, rows - 1, b)
    }
}

/// Column `x`: the first `k` cells from the top edge and from the bottom edge.
pub open spec fn col_part(a: Seq<bool>, s: int, x: int, k: int) -> int
    decreases k,
{
    if k <= 0 {
        0
    } else {
        col_part(a, s, x, k - 1) + bit(a[(k - 1) * s + x]) + bit(a[(s - 1 - (k - 1)) * s + x])
    }
}

/// Columns `b..x`: their `b` top and `b` bottom cells.
pub open spec fn band_count(a: Seq<bool>, s: int, b: int, x: int) -> int
    decreases x - b,
{
    if x <= b {
        0
    } else {
        band_count(a, s, b, x - 1) + col_part(a, s, x - 1, b)
    }
}

/// Flagged cells of the `b`-cell border of an `s x s` grid: the left and
/// right bands of every row, then the top and bottom bands of the columns
/// between them, so that each border cell is counted once.
pub open spec fn border_count(a: Seq<bool>, s: int, b: int) -> int {
    side_count(a, s, b, s) + band_count(a, s, b, s - b)
}

/// Cell `(x, y)` of an `s x s` grid lies in its `b`-cell border.
pub open spec fn on_border(s: int, b: int, x: int, y: int) -> bool {
    x < b || x >= s - b || y < b || y >= s - b
}

/// Setting cell `(x, y)` changes a row part by the number of times it reads it.
proof fn lemma_row_part_flip(a: Seq<bool>, s: int, yy: int, k: int, x: int, y: int)
    requires
        0 <= x < s,
        0 <= y < s,
        0 <= yy < s,
        0 <= k <= s,
        a.len() == s * s,
    ensures
        row_part(a.update(y * s + x, true), s, yy, k) == row_part(a.update(y * s + x, false), s, yy, k) + bit(yy == y
            && x < k) + bit(yy == y && s - 1 - x < k),
    decreases k,
{
    if k > 0 {
        lemma_row_part_flip(a, s, yy, k - 1, x, y);
        let j1 = k - 1;
        let j2 = s - 1 - (k - 1);
        crate::imgproc::lemma_row_major(yy, j1, s, s);
        crate::imgproc::lemma_row_major(yy, j2, s, s);
        crate::imgproc::lemma_row_major(y, x, s, s);
        if yy * s + j1 == y * s + x {
            crate::contours::lemma_index_inj(s, j1, yy, x, y);
        }
        if yy * s + j2 == y * s + x {
            crate::contours::lemma_index_inj(s, j2, yy, x, y);
        }
        if yy == y {
            assert(yy * s + j1 == y * s + x <==> j1 == x);
            assert(yy * s + j2 == y * s + x <==> j2 == x);
        }
    }
}

/// Setting cell `(x, y)` changes the side count of rows `0..rows` by its
/// number of side readings.
proof fn lemma_side_count_flip(a: Seq<bool>, s: int, b: int, rows: int, x: int, y: int)
    requires
        0 <= x < s,
        0 <= y < s,
        0 <= b <= s,
        0 <= rows <= s,
        a.len() == s * s,
    ensures
        side_count(a.update(y * s + x, true), s, b, rows) == side_count(a.update(y * s + x, false), s, b, rows) + bit(
            y < rows,
        ) * (bit(x < b) + bit(s - 1 - x < b)),
    decreases rows,
{
    if rows > 0 {
        lemma_side_count_flip(a, s, b, rows - 1, x, y);
        lemma_row_part_flip(a, s, rows - 1, b, x, y);
    }
}

/// Setting cell `(x, y)` changes a column part by the number of times it reads it.
proof fn lemma_col_part_flip(a: Seq<bool>, s: int, xx: int, k: int, x: int, y: int)
    requires
        0 <= x < s,
        0 <= y < s,
        0 <= xx < s,
        0 <= k <= s,
        a.len() == s * s,
    ensures
        col_part(a.update(y * s + x, true), s, xx, k) == col_part(a.update(y * s + x, false), s, xx, k) + bit(xx == x
            && y < k) + bit(xx == x && s - 1 - y < k),
    decreases k,
{
    if k > 0 {
        lemma_col_part_flip(a, s, xx, k - 1, x, y);
        let j1 = k - 1;
        let j2 = s - 1 - (k - 1);
        crate::imgproc::lemma_row_major(j1, xx, s, s);
        crate::imgproc::lemma_row_major(j2, xx, s, s);
        crate::imgproc::lemma_row_major(y, x, s, s);
        if j1 * s + xx == y * s + x {
            crate::contours::lemma_index_inj(s, xx, j1, x, y);
        }
        if j2 * s + xx == y * s + x {
            crate::contours::lemma_index_inj(s, xx, j2, x, y);
        }
        if xx == x {
            assert(j1 * s + xx == y * s + x <==> j1 == y);
            assert(j2 * s + xx == y * s + x <==> j2 == y);
        }
    }
}

/// Setting cell `(x, y)` changes the band count of columns `b..cols` by its
/// number of band readings.
proof fn lemma_band_count_flip(a: Seq<bool>, s: int, b: int, cols: int, x: int, y: int)
    requires
        0 <= x < s,
        0 <= y < s,
        0 <= b <= s,
        cols <= s,
        a.len() == s * s,
    ensures
        band_count(a.update(y * s + x, true), s, b, cols) == band_count(a.update(y * s + x, false), s, b, cols) + bit(
            b <= x < cols,
        ) * (bit(y < b) + bit(s - 1 - y < b)),
    decreases cols - b,
{
    if cols > b {
        lemma_band_count_flip(a, s, b, cols - 1, x, y);
        lemma_col_part_flip(a, s, cols - 1, b, x, y);
    }
}

/// The border count counts each flagged border cell once and nothing else:
/// it is zero when no cell is flagged, and flagging one cell raises it by
/// one exactly when the cell lies in the border.
pub proof fn lemma_border_count_cells(a: Seq<bool>, s: int, b: int, x: int, y: int)
    requires
        0 <= 2 * b <= s,
        a.len() == s * s,
        0 <= x < s,
        0 <= y < s,
    ensures
        border_count(Seq::new((s * s) as nat, |i: int| false), s, b) == 0,
        border_count(a.update(y * s + x, true), s, b) == border_count(a.update(y * s + x, false), s, b) + bit(
            on_border(s, b, x, y),
        ),
{
    crate::imgproc::lemma_row_major(y, x, s, s);
    lemma_side_count_flip(a, s, b, s, x, y);
    lemma_band_count_flip(a, s, b, s - b, x, y);
    assert(s * s >= 0) by (nonlinear_arith);
    lemma_border_count_zero(s, b, s);
}

/// With no flagged cell every count is zero.
proof fn lemma_border_count_zero(s: int, b: int, rows: int)
    requires
        0 <= b,
        2 * b <= s,
        0 <= rows <= s,
    ensures
        border_count(Seq::new((s * s) as nat, |i: int| false), s, b) == 0,
{
    let z = Seq::new((s * s) as nat, |i: int| false);
    lemma_side_zero(z, s, b, s);
    lemma_band_zero(z, s, b, s - b);
}

proof fn lemma_row_part_zero(z: Seq<bool>, s: int, yy: int, k: int)
    requires
        z.len() == s * s,
        forall|i: int| 0 <= i < z.len() ==> !#[trigger] z[i],
        0 <= yy < s,
        0 <= k <= s,
    ensures
        row_part(z, s, yy, k) == 0,
    decreases k,
{
    if k > 0 {
        lemma_row_part_zero(z, s, yy, k - 1);
        crate::imgproc::lemma_row_major(yy, k - 1, s, s);
        crate::imgproc::lemma_row_major(yy, s - 1 - (k - 1), s, s);
    }
}

proof fn lemma_col_part_zero(z: Seq<bool>, s: int, xx: int, k: int)
    requires
        z.len() == s * s,
        forall|i: int| 0 <= i < z.len() ==> !#[trigger] z[i],
        0 <= xx < s,
        0 <= k <= s,
    ensures
        col_part(z, s, xx, k) == 0,
    decreases k,
{
    if k > 0 {
        lemma_col_part_zero(z, s, xx, k - 1);
        crate::imgproc::lemma_row_major(k - 1, xx, s, s);
        crate::imgproc::lemma_row_major(s - 1 - (k - 1), xx, s, s);
    }
}

proof fn lemma_side_zero(z: Seq<bool>, s: int, b: int, rows: int)
    requires
        z.len() == s * s,
        forall|i: int| 0 <= i < z.len() ==> !#[trigger] z[i],
        0 <= b <= s,
        0 <= rows <= s,
    ensures
        side_count(z, s, b, rows) == 0,
    decreases rows,
{
    if rows > 0 {
        lemma_side_zero(z, s, b, rows - 1);
        lemma_row_part_zero(z, s, rows - 1, b);
    }
}

proof fn lemma_band_zero(z: Seq<bool>, s: int, b: int, cols: int)
    requires
        z.len() == s * s,
        forall|i: int| 0 <= i < z.len() ==> !#[trigger] z[i],
        0 <= b <= s,
        cols <= s,
    ensures
        band_count(z, s, b, cols) == 0,
    decreases cols - b,
{
    if cols > b {
        lemma_band_zero(z, s, b, cols - 1);
        lemma_col_part_zero(z, s, cols - 1, b);
    }
}

proof fn lemma_part_bounds(a: Seq<bool>, s: int, y: int, k: int)
    requires
        k >= 0,
    ensures
        0 <= row_part(a, s, y, k) <= 2 * k,
        0 <= col_part(a, s, y, k) <= 2 * k,
    decreases k,
{
    if k > 0 {
        lemma_part_bounds(a, s, y, k - 1);
    }
}

proof fn lemma_side_bounds(a: Seq<bool>, s: int, b: int, rows: int)
    requires
        rows >= 0,
        b >= 0,
    ensures
        0 <= side_count(a, s, b, rows) <= 2 * b * rows,
    decreases rows,
{
    if rows > 0 {
        lemma_side_bounds(a, s, b, rows - 1);
        lemma_part_bounds(a, s, rows - 1, b);
        assert(2 * b * (rows - 1) + 2 * b == 2 * b * rows) by (nonlinear_arith);
    }
}

proof fn lemma_band_bounds(a: Seq<bool>, s: int, b: int, x: int)
    requires
        b >= 0,
    ensures
        0 <= band_count(a, s, b, x),
        x >= b ==> band_count(a, s, b, x) <= 2 * b * (x - b),
    decreases x - b,
{
    if x > b {
        lemma_band_bounds(a, s, b, x - 1);
        lemma_part_bounds(a, s, x - 1, b);
        assert(2 * b * (x - 1 - b) + 2 * b == 2 * b * (x - b)) by (nonlinear_arith);
    }
}

/// Counts the cells of the marker border (`border` cells wide around a
/// `marker_size` grid) whose ratio is above the white threshold (`above`)
/// and below the black one (`below`): errors against a black border and
/// against an inverted one.
pub fn border_errors(above: &[bool], below: &[bool], marker_size: usize, border: usize) -> (errs: (i32, i32))
    requires
        (marker_size + 2 * border) * (marker_size + 2 * border) <= usize::MAX,
        above.len() == (marker_size + 2 * border) * (marker_size + 2 * border),
        below.len() == above.len(),
        4 * border * (marker_size + 2 * border) <= i32::MAX,
    ensures
        errs.0 == border_count(above@, marker_size + 2 * border, border as int),
        errs.1 == border_count(below@, marker_size + 2 * border, border as int),
{
    proof {
        let t = marker_size + 2 * border;
        assert(t <= t * t) by (nonlinear_arith)
            requires
                t >= 0,
        ;
    }
    let s = marker_size + 2 * border;
    let ghost si = s as int;
    let ghost b = border as int;
    proof {
        assert(4 * b * si >= 0) by (nonlinear_arith)
            requires
                b >= 0,
                si >= 0,
        ;
    }
    let mut be: i32 = 0;
    let mut ibe: i32 = 0;
    let mut y: usize = 0;
    while y < s
        invariant
            s == marker_size + 2 * border,
            si == s,
            b == border,
            y <= s,
            above.len() == s * s,
            below.len() == s * s,
            4 * b * si <= i32::MAX,
            be == side_count(above@, si, b, y as int),
            ibe == side_count(below@, si, b, y as int),
        decreases s - y,
    {
        let mut k: usize = 0;
        while k < border
            invariant
                s == marker_size + 2 * border,
                si == s,
                b == border,
                y < s,
                k <= border,
                above.len() == s * s,
                below.len() == s * s,
                4 * b * si <= i32::MAX,
                be == side_count(above@, si, b, y as int) + row_part(above@, si, y as int, k as int),
                ibe == side_count(below@, si, b, y as int) + row_part(below@, si, y as int, k as int),
            decreases border - k,
        {
            proof {
                crate::imgproc::lemma_row_major(y as int, k as int, si, si);
                crate::imgproc::lemma_row_major(y as int, si - 1 - k, si, si);
                lemma_side_bounds(above@, si, b, y as int);
                lemma_side_bounds(below@, si, b, y as int);
                lemma_part_bounds(above@, si, y as int, k as int);
                lemma_part_bounds(below@, si, y as int, k as int);
                assert(2 * b * y + 2 * k + 2 <= 4 * b * si) by (nonlinear_arith)
                    requires
                        0 <= y < si,
                        0 <= k < b,
                ;
            }
            let left = y * s + k;
            let right = y * s + (s - 1 - k);
            if above[left] {
                be = be + 1;
            }
            if below[left] {
                ibe = ibe + 1;
            }
            if above[right] {
                be = be + 1;
            }
            if below[right] {
                ibe = ibe + 1;
            }
            k = k + 1;
        }
        y = y + 1;
    }
    let mut x: usize = border;
    while x < s - border
        invariant
            s == marker_size + 2 * border,
            si == s,
            b == border,
            border <= x <= s - border,
            above.len() == s * s,
            below.len() == s * s,
            4 * b * si <= i32::MAX,
            be == side_count(above@, si, b, si) + band_count(above@, si, b, x as int),
            ibe == side_count(below@, si, b, si) + band_count(below@, si, b, x as int),
        decreases s - border - x,
    {
        let mut k: usize = 0;
        while k < border
            invariant
                s == marker_size + 2 * border,
                si == s,
                b == border,
                border <= x < s - border,
                k <= border,
                above.len() == s * s,
                below.len() == s * s,
                4 * b * si <= i32::MAX,
                be == side_count(above@, si, b, si) + band_count(above@, si, b, x as int) + col_part(above@, si, x as int, k as int),
                ibe == side_count(below@, si, b, si) + band_count(below@, si, b, x as int) + col_part(below@, si, x as int, k as int),
            decreases border - k,
        {
            proof {
                crate::imgproc::lemma_row_major(k as int, x as int, si, si);
                crate::imgproc::lemma_row_major(si - 1 - k, x as int, si, si);
                lemma_side_bounds(above@, si, b, si);
                lemma_side_bounds(below@, si, b, si);
                lemma_band_bounds(above@, si, b, x as int);
                lemma_band_bounds(below@, si, b, x as int);
                lemma_part_bounds(above@, si, x as int, k as int);
                lemma_part_bounds(below@, si, x as int, k as int);
                assert(2 * b * si + 2 * b * (x - b) + 2 * k + 2 <= 4 * b * si) by (nonlinear_arith)
                    requires
                        b <= x < si - b,
                        0 <= k < b,
                ;
            }
            let top = k * s + x;
            let bottom = (s - 1 - k) * s + x;
            if above[top] {
                be = be + 1;
            }
            if below[top] {
                ibe = ibe + 1;
            }
            if above[bottom] {
                be = be + 1;
            }
            if below[bottom] {
                ibe = ibe + 1;
            }
            k = k + 1;
        }
        x = x + 1;
    }
    (be, ibe)
}

/// Four corners turned left by `(4 - rotation) % 4` places.
pub open spec fn rotated<T>(c: Seq<T>, rotation: int) -> Seq<T> {
    Seq::new(4, |i: int| c[(i + (4 - rotation) % 4) % 4])
}

/// Turning corners by `rotation` and then by `(4 - rotation) % 4` gives
/// them back: the two rotations undo each other.
pub proof fn lemma_rotation_undone<T>(c: Seq<T>, rotation: int)
    requires
        c.len() == 4,
        0 <= rotation <= 4,
    ensures
        rotated(rotated(c, rotation), (4 - rotation) % 4) == c,
{
    let once = rotated(c, rotation);
    let twice = rotated(once, (4 - rotation) % 4);
    assert forall|i: int| 0 <= i < 4 implies twice[i] == c[i] by {
        let j = (i + (4 - (4 - rotation) % 4) % 4) % 4;
        assert(twice[i] == once[j]);
        assert(once[j] == c[(j + (4 - rotation) % 4) % 4]);
        assert((j + (4 - rotation) % 4) % 4 == i);
    }
    assert(twice =~= c);
}

/// Turning by `rotation` moves corner `i` to position `(i + rotation) % 4`.
pub proof fn lemma_rotated_moves<T>(c: Seq<T>, rotation: int)
    requires
        c.len() == 4,
        0 <= rotation <= 4,
    ensures
        rotated(c, rotation).len() == 4,
        forall|i: int| 0 <= i < 4 ==> #[trigger] rotated(c, rotation)[(i + rotation) % 4] == c[i],
{
    assert forall|i: int| 0 <= i < 4 implies #[trigger] rotated(c, rotation)[(i + rotation) % 4] == c[i] by {
        let j = (i + rotation) % 4;
        assert((j + (4 - rotation) % 4) % 4 == i);
    }
}

/// The corners turned so that the identified rotation becomes the first
/// corner: `rotation` places to the right (a left rotation by `4 - rotation`).
pub fn rotate_corners<T: Copy>(c: [T; 4], rotation: usize) -> (r: [T; 4])
    requires
        rotation <= 4,
    ensures
        r@ == rotated(c@, rotation as int),
        forall|i: int| 0 <= i < 4 ==> #[trigger] r@[(i + rotation) % 4] == c@[i],
{
    proof {
        lemma_rotated_moves(c@, rotation as int);
    }
    let n = (4 - rotation) % 4;
    let r = [c[n % 4], c[(n + 1) % 4], c[(n + 2) % 4], c[(n + 3) % 4]];
    assert(r@ =~= rotated(c@, rotation as int));
    r
}

} // verus!
