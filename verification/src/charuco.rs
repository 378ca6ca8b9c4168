//! The integer side of ChArUco board detection: detector parameters, marker
//! lookup, the selection of predicted corners inside the image, and the filter
//! that keeps the chessboard corners with enough detected neighbouring markers.

use vstd::prelude::*;

verus! {

/// ChArUco detection parameters.
#[derive(Clone)]
pub struct CharucoParameters {
    /// Adjacent markers that must be detected to accept a corner (0..=2).
    pub min_markers: i32,
    /// Verify the detected markers really belong to this board.
    pub check_markers: bool,
}

impl Default for CharucoParameters {
    fn default() -> (p: CharucoParameters)
        ensures
            p.min_markers == 2,
            p.check_markers,
    {
        CharucoParameters { min_markers: 2, check_markers: true }
    }
}

/// Find the index of `marker_id` (compared as an `i32`) within the detected
/// marker ids: the first position holding it.
pub fn find_marker(marker_ids: &[i32], marker_id: usize) -> (res: Option<usize>)
    ensures
        match res {
            Some(k) => {
                &&& k < marker_ids@.len()
                &&& marker_ids@[k as int] == marker_id as i32
                &&& forall|j: int| 0 <= j < k ==> marker_ids@[j] != marker_id as i32
            },
            None => forall|j: int| 0 <= j < marker_ids@.len() ==> marker_ids@[j] != marker_id as i32,
        },
{
    let target = marker_id as i32;
    let mut k: usize = 0;
    while k < marker_ids.len()
        invariant
            k <= marker_ids@.len(),
            target == marker_id as i32,
            forall|j: int| 0 <= j < k ==> marker_ids@[j] != target,
        decreases marker_ids@.len() - k,
    {
        if marker_ids[k] == target {
            return Some(k);
        }
        k = k + 1;
    }
    None
}

/// Number of the first `m` nearest markers of a corner that were detected.
pub open spec fn detected_neighbours(
    nearest: Seq<usize>,
    board_ids: Seq<usize>,
    marker_ids: Seq<i32>,
    m: int,
) -> int
    decreases m,
{
    if m <= 0 {
        0
    } else {
        detected_neighbours(nearest, board_ids, marker_ids, m - 1) + (if exists|j: int|
            0 <= j < marker_ids.len() && marker_ids[j] == board_ids[nearest[m - 1] as int] as i32 {
            1int
        } else {
            0int
        })
    }
}

/// Corner `ch_id` has at least `min_markers` of its nearest markers detected.
pub open spec fn corner_supported(
    nearest_marker_idx: Seq<Vec<usize>>,
    board_ids: Seq<usize>,
    marker_ids: Seq<i32>,
    min_markers: i32,
    ch_id: int,
) -> bool {
    detected_neighbours(
        nearest_marker_idx[ch_id]@,
        board_ids,
        marker_ids,
        nearest_marker_idx[ch_id]@.len() as int,
    ) >= min_markers
}

/// The positions `k` of `ids` whose corner is supported, in order.
pub open spec fn supported_positions(
    nearest_marker_idx: Seq<Vec<usize>>,
    board_ids: Seq<usize>,
    ids: Seq<usize>,
    marker_ids: Seq<i32>,
    min_markers: i32,
    k: int,
) -> Seq<int>
    decreases k,
{
    if k <= 0 {
        Seq::empty()
    } else {
        let prev = supported_positions(nearest_marker_idx, board_ids, ids, marker_ids, min_markers, k - 1);
        if corner_supported(nearest_marker_idx, board_ids, marker_ids, min_markers, ids[k - 1] as int) {
            prev.push(k - 1)
        } else {
            prev
        }
    }
}

/// The detected neighbours of a corner are counted exactly: among its first
/// `m` nearest markers, those whose id is among the detected ids.
pub proof fn lemma_detected_neighbours_count(nearest: Seq<usize>, board_ids: Seq<usize>, marker_ids: Seq<i32>, m: int)
    requires
        0 <= m <= nearest.len(),
    ensures
        detected_neighbours(nearest, board_ids, marker_ids, m) == nearest.take(m).filter(
            |v: usize| marker_ids.contains(board_ids[v as int] as i32),
        ).len(),
    decreases m,
{
    reveal(Seq::filter);
    if m > 0 {
        lemma_detected_neighbours_count(nearest, board_ids, marker_ids, m - 1);
        assert(nearest.take(m).drop_last() =~= nearest.take(m - 1));
        assert(nearest.take(m).last() == nearest[m - 1]);
        let id = board_ids[nearest[m - 1] as int] as i32;
        if marker_ids.contains(id) {
            let j = choose|j: int| 0 <= j < marker_ids.len() && marker_ids[j] == id;
            assert(exists|j: int| 0 <= j < marker_ids.len() && marker_ids[j] == board_ids[nearest[m - 1] as int] as i32);
        }
    } else {
        assert(nearest.take(0) =~= Seq::<usize>::empty());
    }
}

/// A corner is supported exactly when the number of its nearest markers
/// whose id was detected is at least `min_markers`.
pub proof fn lemma_corner_supported_count(
    nearest_marker_idx: Seq<Vec<usize>>,
    board_ids: Seq<usize>,
    marker_ids: Seq<i32>,
    min_markers: i32,
    c: int,
)
    ensures
        corner_supported(nearest_marker_idx, board_ids, marker_ids, min_markers, c) == (nearest_marker_idx[c]@.filter(
            |v: usize| marker_ids.contains(board_ids[v as int] as i32),
        ).len() >= min_markers),
{
    let nearest = nearest_marker_idx[c]@;
    lemma_detected_neighbours_count(nearest, board_ids, marker_ids, nearest.len() as int);
    assert(nearest.take(nearest.len() as int) =~= nearest);
}

/// The kept positions are exactly, in increasing order, the positions `k`
/// whose corner `ids[k]` has at least `min_markers` detected neighbours.
pub proof fn lemma_supported_positions_exact(
    nearest_marker_idx: Seq<Vec<usize>>,
    board_ids: Seq<usize>,
    ids: Seq<usize>,
    marker_ids: Seq<i32>,
    min_markers: i32,
    k: int,
)
    requires
        0 <= k <= ids.len(),
    ensures
        forall|j: int|
            0 <= j < supported_positions(nearest_marker_idx, board_ids, ids, marker_ids, min_markers, k).len() ==> {
                let i = #[trigger] supported_positions(nearest_marker_idx, board_ids, ids, marker_ids, min_markers, k)[j];
                &&& 0 <= i < k
                &&& corner_supported(nearest_marker_idx, board_ids, marker_ids, min_markers, ids[i] as int)
            },
        forall|j1: int, j2: int|
            0 <= j1 < j2 < supported_positions(nearest_marker_idx, board_ids, ids, marker_ids, min_markers, k).len()
                ==> #[trigger] supported_positions(nearest_marker_idx, board_ids, ids, marker_ids, min_markers, k)[j1]
                < #[trigger] supported_positions(nearest_marker_idx, board_ids, ids, marker_ids, min_markers, k)[j2],
        forall|i: int|
            0 <= i < k && #[trigger] corner_supported(nearest_marker_idx, board_ids, marker_ids, min_markers, ids[i] as int)
                ==> supported_positions(nearest_marker_idx, board_ids, ids, marker_ids, min_markers, k).contains(i),
    decreases k,
{
    if k > 0 {
        lemma_supported_positions_exact(nearest_marker_idx, board_ids, ids, marker_ids, min_markers, k - 1);
        let prev = supported_positions(nearest_marker_idx, board_ids, ids, marker_ids, min_markers, k - 1);
        let cur = supported_positions(nearest_marker_idx, board_ids, ids, marker_ids, min_markers, k);
        if corner_supported(nearest_marker_idx, board_ids, marker_ids, min_markers, ids[k - 1] as int) {
            assert(cur == prev.push(k - 1));
            assert forall|j: int| 0 <= j < prev.len() implies cur[j] == prev[j] by {}
            assert(cur[prev.len() as int] == k - 1);
            assert forall|j1: int, j2: int| 0 <= j1 < j2 < cur.len() implies #[trigger] cur[j1] < #[trigger] cur[j2] by {
                assert(cur[j1] == prev[j1]);
                if j2 < prev.len() {
                    assert(cur[j2] == prev[j2]);
                }
            }
            assert forall|i: int|
                0 <= i < k && #[trigger] corner_supported(nearest_marker_idx, board_ids, marker_ids, min_markers, ids[i] as int)
                implies cur.contains(i) by {
                if i < k - 1 {
                    let j = choose|j: int| 0 <= j < prev.len() && prev[j] == i;
                    assert(cur[j] == i);
                } else {
                    assert(cur[prev.len() as int] == i);
                }
            }
        } else {
            assert(cur == prev);
        }
    }
}

/// Keep the chessboard corners of which at least `min_markers` neighbouring
/// markers were detected. `nearest_marker_idx[c]` lists the board markers
/// nearest to corner `c`, `board_ids` the id of each board marker, and
/// `corners[k]` is the corner with index `ids[k]`.
pub fn filter_min_markers<T: Copy>(
    nearest_marker_idx: &[Vec<usize>],
    board_ids: &[usize],
    corners: &[T],
    ids: &[usize],
    marker_ids: &[i32],
    min_markers: i32,
) -> (res: (Vec<T>, Vec<usize>))
    requires
        corners@.len() == ids@.len(),
        forall|k: int| 0 <= k < ids@.len() ==> #[trigger] ids@[k] < nearest_marker_idx@.len(),
        forall|c: int, m: int|
            0 <= c < nearest_marker_idx@.len() && 0 <= m < nearest_marker_idx@[c]@.len()
                ==> #[trigger] nearest_marker_idx@[c]@[m] < board_ids@.len(),
    ensures
        ({
            let kept = supported_positions(
                nearest_marker_idx@,
                board_ids@,
                ids@,
                marker_ids@,
                min_markers,
                ids@.len() as int,
            );
            &&& res.0@.len() == kept.len()
            &&& res.1@.len() == kept.len()
            &&& forall|i: int|
                0 <= i < kept.len() ==> #[trigger] res.0@[i] == corners@[kept[i]] && res.1@[i]
                    == ids@[kept[i]]
        }),
{
    let mut out_c: Vec<T> = Vec::new();
    let mut out_i: Vec<usize> = Vec::new();
    let mut k: usize = 0;
    while k < ids.len()
        invariant
            k <= ids@.len(),
            corners@.len() == ids@.len(),
            forall|k: int| 0 <= k < ids@.len() ==> #[trigger] ids@[k] < nearest_marker_idx@.len(),
            forall|c: int, m: int|
                0 <= c < nearest_marker_idx@.len() && 0 <= m < nearest_marker_idx@[c]@.len()
                    ==> #[trigger] nearest_marker_idx@[c]@[m] < board_ids@.len(),
            ({
                let kept = supported_positions(
                    nearest_marker_idx@,
                    board_ids@,
                    ids@,
                    marker_ids@,
                    min_markers,
                    k as int,
                );
                &&& out_c@.len() == kept.len()
                &&& out_i@.len() == kept.len()
                &&& forall|i: int|
                    0 <= i < kept.len() ==> #[trigger] out_c@[i] == corners@[kept[i]] && out_i@[i]
                        == ids@[kept[i]]
            }),
        decreases ids@.len() - k,
    {
        let ch_id = ids[k];
        let near = &nearest_marker_idx[ch_id];
        let mut total: usize = 0;
        let mut m: usize = 0;
        while m < near.len()
            invariant
                m <= near@.len(),
                near@ == nearest_marker_idx@[ch_id as int]@,
                ch_id < nearest_marker_idx@.len(),
                forall|c: int, m: int|
                    0 <= c < nearest_marker_idx@.len() && 0 <= m < nearest_marker_idx@[c]@.len()
                        ==> #[trigger] nearest_marker_idx@[c]@[m] < board_ids@.len(),
                total == detected_neighbours(near@, board_ids@, marker_ids@, m as int),
                0 <= total <= m,
            decreases near@.len() - m,
        {
            let marker_id = board_ids[near[m]];
            if find_marker(marker_ids, marker_id).is_some() {
                total = total + 1;
            }
            m = m + 1;
        }
        if min_markers < 0 || total >= min_markers as usize {
            out_i.push(ch_id);
            out_c.push(corners[k]);
        }
        k = k + 1;
    }
    (out_c, out_i)
}

/// Margin, in pixels, that a corner must keep from the image border.
pub const MIN_DIST_TO_BORDER: i64 = 2;

/// A rounded corner lies inside the image, `MIN_DIST_TO_BORDER` pixels from its border.
pub open spec fn inside(p: (i64, i64), width: int, height: int) -> bool {
    MIN_DIST_TO_BORDER <= p.0 < width - MIN_DIST_TO_BORDER && MIN_DIST_TO_BORDER <= p.1 < height - MIN_DIST_TO_BORDER
}

/// Positions among the first `k` corners that lie inside the image.
pub open spec fn inside_upto(points: Seq<(i64, i64)>, width: int, height: int, k: int) -> Seq<usize>
    decreases k,
{
    if k <= 0 {
        Seq::empty()
    } else if inside(points[k - 1], width, height) {
        inside_upto(points, width, height, k - 1).push((k - 1) as usize)
    } else {
        inside_upto(points, width, height, k - 1)
    }
}

/// The selected positions are exactly, in increasing order, the corners
/// `(x, y)` with `2 <= x < width - 2` and `2 <= y < height - 2`: the column
/// is held to the width and the row to the height.
pub proof fn lemma_inside_upto_exact(points: Seq<(i64, i64)>, width: int, height: int, k: int)
    requires
        0 <= k <= points.len(),
        points.len() <= usize::MAX,
    ensures
        forall|j: int|
            0 <= j < inside_upto(points, width, height, k).len() ==> {
                let i = #[trigger] inside_upto(points, width, height, k)[j] as int;
                &&& 0 <= i < k
                &&& 2 <= points[i].0 < width - 2
                &&& 2 <= points[i].1 < height - 2
            },
        forall|j1: int, j2: int|
            0 <= j1 < j2 < inside_upto(points, width, height, k).len() ==> #[trigger] inside_upto(
                points,
                width,
                height,
                k,
            )[j1] < #[trigger] inside_upto(points, width, height, k)[j2],
        forall|i: int|
            0 <= i < k && 2 <= (#[trigger] points[i]).0 < width - 2 && 2 <= points[i].1 < height - 2 ==> inside_upto(
                points,
                width,
                height,
                k,
            ).contains(i as usize),
    decreases k,
{
    if k > 0 {
        lemma_inside_upto_exact(points, width, height, k - 1);
        let prev = inside_upto(points, width, height, k - 1);
        let cur = inside_upto(points, width, height, k);
        if 2 <= points[k - 1].0 < width - 2 && 2 <= points[k - 1].1 < height - 2 {
            assert(cur == prev.push((k - 1) as usize));
            assert(cur[prev.len() as int] == (k - 1) as usize);
            assert forall|j: int| 0 <= j < prev.len() implies cur[j] == prev[j] by {}
            assert forall|j: int| 0 <= j < cur.len() implies {
                let i = #[trigger] cur[j] as int;
                &&& 0 <= i < k
                &&& 2 <= points[i].0 < width - 2
                &&& 2 <= points[i].1 < height - 2
            } by {
                if j < prev.len() {
                    assert(cur[j] == prev[j]);
                    let i = prev[j] as int;
                    assert(0 <= i < k - 1);
                }
            }
            assert forall|j1: int, j2: int| 0 <= j1 < j2 < cur.len() implies #[trigger] cur[j1] < #[trigger] cur[j2] by {
                assert(cur[j1] == prev[j1]);
                if j2 < prev.len() {
                    assert(cur[j2] == prev[j2]);
                } else {
                    let i = prev[j1] as int;
                    assert(0 <= i < k - 1);
                }
            }
            assert forall|i: int|
                0 <= i < k && 2 <= (#[trigger] points[i]).0 < width - 2 && 2 <= points[i].1 < height - 2 implies cur.contains(
                i as usize,
            ) by {
                if i < k - 1 {
                    let j = choose|j: int| 0 <= j < prev.len() && prev[j] == i as usize;
                    assert(cur[j] == i as usize);
                } else {
                    assert(cur[prev.len() as int] == i as usize);
                }
            }
        } else {
            assert(cur == prev);
        }
    }
}

/// The positions, in order, of the rounded corner predictions that lie
/// inside the `width x height` image with the required margin.
pub fn select_inside(rounded: &[(i64, i64)], width: i64, height: i64) -> (ids: Vec<usize>)
    requires
        width >= 0,
        height >= 0,
    ensures
        ids@ == inside_upto(rounded@, width as int, height as int, rounded.len() as int),
        forall|j: int|
            0 <= j < ids.len() ==> (#[trigger] ids@[j]) < rounded.len() && 2 <= rounded@[ids@[j] as int].0 < width - 2
                && 2 <= rounded@[ids@[j] as int].1 < height - 2,
        forall|j1: int, j2: int| 0 <= j1 < j2 < ids.len() ==> #[trigger] ids@[j1] < #[trigger] ids@[j2],
        forall|i: int|
            0 <= i < rounded.len() && 2 <= (#[trigger] rounded@[i]).0 < width - 2 && 2 <= rounded@[i].1 < height - 2
                ==> ids@.contains(i as usize),
{
    let mut ids: Vec<usize> = Vec::new();
    let mut i: usize = 0;
    while i < rounded.len()
        invariant
            i <= rounded.len(),
            width >= 0,
            height >= 0,
            ids@ == inside_upto(rounded@, width as int, height as int, i as int),
        decreases rounded.len() - i,
    {
        let (x, y) = rounded[i];
        if x >= MIN_DIST_TO_BORDER && x < width - MIN_DIST_TO_BORDER && y >= MIN_DIST_TO_BORDER && y < height
            - MIN_DIST_TO_BORDER {
            ids.push(i);
        }
        i = i + 1;
    }
    proof {
        lemma_inside_upto_exact(rounded@, width as int, height as int, rounded.len() as int);
    }
    ids
}

} // verus!
