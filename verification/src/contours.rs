//! Suzuki-Abe border following (list retrieval, every border pixel kept)
//! over a one-pixel zero-padded label buffer built from the image.
//!
//! Foreground is every non-zero pixel. Each traced border is reported as the
//! ordered list of its pixel coordinates; borders come out in raster order of
//! their starting pixel.

use vstd::prelude::*;

verus! {

/// Label of an unvisited foreground pixel in a padded label buffer.
pub const FG: i8 = 1;

/// Horizontal step of search direction `k` (W, NW, N, NE, E, SE, S, SW).
pub open spec fn dir_dx(k: int) -> int {
    if k == 0 || k == 1 || k == 7 {
        -1
    } else if k == 2 || k == 6 {
        0
    } else {
        1
    }
}

/// Vertical step of search direction `k` (W, NW, N, NE, E, SE, S, SW).
pub open spec fn dir_dy(k: int) -> int {
    if k == 1 || k == 2 || k == 3 {
        -1
    } else if k == 0 || k == 4 {
        0
    } else {
        1
    }
}

/// `(dx, dy)` is a step to one of the eight neighbours.
pub open spec fn is_dir(dx: int, dy: int) -> bool {
    -1 <= dx <= 1 && -1 <= dy <= 1 && !(dx == 0 && dy == 0)
}

/// The search direction of the neighbour step `(dx, dy)`.
pub open spec fn dir_of(dx: int, dy: int) -> int {
    if dy == 0 {
        if dx == -1 {
            0
        } else {
            4
        }
    } else if dy == -1 {
        dx + 2
    } else if dx == -1 {
        7
    } else {
        6 - dx
    }
}

/// The neighbour of `p` in search direction `k`.
pub open spec fn step(p: (i32, i32), k: int) -> (i32, i32) {
    ((p.0 + dir_dx(k)) as i32, (p.1 + dir_dy(k)) as i32)
}

/// Pixel `(x, y)` lies in the `w x h` image and is foreground (non-zero).
pub open spec fn pix_fg(px: Seq<u8>, w: int, h: int, x: int, y: int) -> bool {
    0 <= x < w && 0 <= y < h && px[y * w + x] > 0
}

/// Position of image coordinate `(x, y)` in the padded buffer of stride `w + 2`.
pub open spec fn pidx(w: int, x: int, y: int) -> int {
    (y + 1) * (w + 2) + (x + 1)
}

/// The non-zero entries of the padded label buffer are exactly the
/// foreground pixels of the image.
pub open spec fn labels_match(lbl: Seq<i32>, px: Seq<u8>, w: int, h: int) -> bool {
    &&& lbl.len() == (w + 2) * (h + 2)
    &&& forall|x: int, y: int|
        -1 <= x <= w && -1 <= y <= h ==> ((#[trigger] lbl[pidx(w, x, y)] != 0) == pix_fg(px, w, h, x, y))
}

/// Raster position of a point.
pub open spec fn raster(w: int, p: (i32, i32)) -> int {
    p.1 * w + p.0
}

/// Scanning around `p` the steps `k - 1` down to `0`, step `j` looking in
/// direction `(base + j) % 8`: the first step that finds a foreground pixel,
/// or `0` when none does.
pub open spec fn ccw_from(px: Seq<u8>, w: int, h: int, p: (i32, i32), base: int, k: int) -> int
    decreases k,
{
    if k <= 0 {
        0
    } else if pix_fg(px, w, h, p.0 + dir_dx((base + k - 1) % 8), p.1 + dir_dy((base + k - 1) % 8)) {
        k - 1
    } else {
        ccw_from(px, w, h, p, base, k - 1)
    }
}

/// Scanning around `p` the steps `k` to `7`, step `j` looking in direction
/// `(d0 + j) % 8`: the first foreground neighbour found, if any.
pub open spec fn cw_from(px: Seq<u8>, w: int, h: int, p: (i32, i32), d0: int, k: int) -> Option<(i32, i32)>
    decreases 8 - k,
{
    if k >= 8 {
        None
    } else if pix_fg(px, w, h, p.0 + dir_dx((d0 + k) % 8), p.1 + dir_dy((d0 + k) % 8)) {
        Some(step(p, (d0 + k) % 8))
    } else {
        cw_from(px, w, h, p, d0, k + 1)
    }
}

/// The pixel that follows `p` on a border reached from `prev`: the first
/// foreground neighbour of `p` met counter-clockwise, starting just before
/// the direction of `prev`.
pub open spec fn next_on_border(px: Seq<u8>, w: int, h: int, prev: (i32, i32), p: (i32, i32)) -> (i32, i32) {
    let base = dir_of(prev.0 - p.0, prev.1 - p.1);
    step(p, (base + ccw_from(px, w, h, p, base, 8)) % 8)
}

/// The border followed from `p`, reached from `prev`, on the trace that
/// started at `curr` with first neighbour `pos1`: it ends at `pos1` when the
/// next pixel would be `curr` again, or after `fuel` further pixels.
pub open spec fn trace_from(
    px: Seq<u8>,
    w: int,
    h: int,
    curr: (i32, i32),
    pos1: (i32, i32),
    prev: (i32, i32),
    p: (i32, i32),
    fuel: nat,
) -> Seq<(i32, i32)>
    decreases fuel,
{
    let q = next_on_border(px, w, h, prev, p);
    if (q == curr && p == pos1) || fuel == 0 {
        seq![p]
    } else {
        seq![p] + trace_from(px, w, h, curr, pos1, p, q, (fuel - 1) as nat)
    }
}

/// The border that starts at `c[0]` with background in search direction
/// `d` (west, or east), as the tracer follows it: the single pixel when it
/// has no foreground neighbour, else the pixels from `c[0]` on, the first
/// step going to the first foreground neighbour clockwise from `d`.
pub open spec fn traced_border(px: Seq<u8>, w: int, h: int, c: Seq<(i32, i32)>) -> bool {
    let s = c[0];
    exists|d: int|
        #![trigger cw_from(px, w, h, s, d, 0)]
        ((d == 0 && s.0 > 0) || (d == 4 && s.0 + 1 < w)) && !pix_fg(px, w, h, s.0 + dir_dx(d), s.1 + dir_dy(d)) && match cw_from(
            px,
            w,
            h,
            s,
            d,
            0,
        ) {
            None => c == seq![s],
            Some(q) => c == trace_from(px, w, h, s, q, q, s, (w * h + 1) as nat),
        }
}

/// Pixel `p` lies in the image and is foreground.
pub open spec fn fg_at(px: Seq<u8>, w: int, h: int, p: (i32, i32)) -> bool {
    pix_fg(px, w, h, p.0 as int, p.1 as int)
}

/// Visiting `p` from `prev`, the tracer marks `p` as a right-edge pixel: `p`
/// is in the last column, or the counter-clockwise scan around `p` passes
/// east before it reaches the next border pixel.
pub open spec fn right_edge_visit(px: Seq<u8>, w: int, h: int, prev: (i32, i32), p: (i32, i32)) -> bool {
    let base = dir_of(prev.0 - p.0, prev.1 - p.1);
    let k = ccw_from(px, w, h, p, base, 8);
    p.0 + 1 == w || exists|j: int| k < j < 8 && #[trigger] ((base + j) % 8) == 4
}

/// On the trace `pts` (entered at `pts[0]` from `pos1`), `p` is visited as a
/// right-edge pixel.
pub open spec fn edge_in(px: Seq<u8>, w: int, h: int, pts: Seq<(i32, i32)>, pos1: (i32, i32), p: (i32, i32)) -> bool {
    exists|k: int|
        0 <= k < pts.len() && #[trigger] pts[k] == p && right_edge_visit(
            px,
            w,
            h,
            if k == 0 {
                pos1
            } else {
                pts[k - 1]
            },
            p,
        )
}

/// Past its first pixel, the border `c` visits `p` as a right-edge pixel.
pub open spec fn edge_tail(px: Seq<u8>, w: int, h: int, c: Seq<(i32, i32)>, p: (i32, i32)) -> bool {
    exists|k: int| 1 <= k < c.len() && #[trigger] c[k] == p && right_edge_visit(px, w, h, c[k - 1], p)
}

/// A border starting before `p` in raster order passes through `p`.
pub open spec fn visited_before(w: int, cs: Seq<Vec<(i32, i32)>>, p: (i32, i32)) -> bool {
    exists|i: int| 0 <= i < cs.len() && raster(w, (#[trigger] cs[i])@[0]) < raster(w, p) && cs[i]@.contains(p)
}

/// A border starting before `p` in raster order visits `p` as a right-edge
/// pixel.
pub open spec fn edge_marked_before(px: Seq<u8>, w: int, h: int, cs: Seq<Vec<(i32, i32)>>, p: (i32, i32)) -> bool {
    exists|i: int| 0 <= i < cs.len() && raster(w, (#[trigger] cs[i])@[0]) < raster(w, p) && edge_tail(px, w, h, cs[i]@, p)
}

/// `p` starts an outer border: a foreground pixel, not in the first column,
/// with background to its left, on no border started before it.
pub open spec fn outer_start(px: Seq<u8>, w: int, h: int, cs: Seq<Vec<(i32, i32)>>, p: (i32, i32)) -> bool {
    &&& fg_at(px, w, h, p)
    &&& p.0 > 0
    &&& !pix_fg(px, w, h, p.0 - 1, p.1 as int)
    &&& !visited_before(w, cs, p)
}

/// `p` starts a hole border: a foreground pixel, not in the last column,
/// with background to its right, not marked a right-edge pixel by a border
/// started before it.
pub open spec fn hole_start(px: Seq<u8>, w: int, h: int, cs: Seq<Vec<(i32, i32)>>, p: (i32, i32)) -> bool {
    &&& fg_at(px, w, h, p)
    &&& p.0 + 1 < w
    &&& !pix_fg(px, w, h, p.0 + 1, p.1 as int)
    &&& !edge_marked_before(px, w, h, cs, p)
}

/// The border traced from `s`, with background in search direction `d`.
pub open spec fn border_from(px: Seq<u8>, w: int, h: int, s: (i32, i32), d: int) -> Seq<(i32, i32)> {
    match cw_from(px, w, h, s, d, 0) {
        None => seq![s],
        Some(q) => trace_from(px, w, h, s, q, q, s, (w * h + 1) as nat),
    }
}

/// No foreground pixel among the eight neighbours of `p`.
pub open spec fn isolated(px: Seq<u8>, w: int, h: int, p: (i32, i32)) -> bool {
    forall|k: int| 0 <= k < 8 ==> !pix_fg(px, w, h, p.0 + dir_dx(k), p.1 + #[trigger] dir_dy(k))
}

/// The eight search directions go clockwise from west, in image coordinates
/// (y down): direction 0 is west, two steps on turn a quarter clockwise, and
/// each odd direction is the diagonal between its two neighbours; `dir_of`
/// inverts the table.
pub proof fn lemma_directions_clockwise()
    ensures
        dir_dx(0) == -1 && dir_dy(0) == 0,
        forall|k: int|
            0 <= k < 8 ==> dir_dx((k + 2) % 8) == -dir_dy(k) && #[trigger] dir_dy((k + 2) % 8) == dir_dx(k),
        forall|j: int|
            0 <= j < 4 ==> #[trigger] dir_dx(2 * j + 1) == dir_dx(2 * j) + dir_dx((2 * j + 2) % 8) && dir_dy(2 * j + 1)
                == dir_dy(2 * j) + dir_dy((2 * j + 2) % 8),
        forall|k: int| 0 <= k < 8 ==> #[trigger] dir_of(dir_dx(k), dir_dy(k)) == k,
{
}

/// Scanning down from step `k - 1`, the counter-clockwise search stops at the
/// highest step below `k` that finds a foreground pixel, and gives 0 when
/// none does.
pub proof fn lemma_ccw_from_exact(px: Seq<u8>, w: int, h: int, p: (i32, i32), base: int, k: int)
    requires
        0 <= k,
    ensures
        ({
            let j = ccw_from(px, w, h, p, base, k);
            &&& (exists|i: int|
                0 <= i < k && pix_fg(px, w, h, p.0 + dir_dx((base + i) % 8), p.1 + #[trigger] dir_dy((base + i) % 8))) ==> {
                &&& 0 <= j < k
                &&& pix_fg(px, w, h, p.0 + dir_dx((base + j) % 8), p.1 + dir_dy((base + j) % 8))
                &&& forall|i: int|
                    j < i < k ==> !pix_fg(px, w, h, p.0 + dir_dx((base + i) % 8), p.1 + #[trigger] dir_dy((base + i) % 8))
            }
            &&& !(exists|i: int|
                0 <= i < k && pix_fg(px, w, h, p.0 + dir_dx((base + i) % 8), p.1 + #[trigger] dir_dy((base + i) % 8))) ==> j == 0
        }),
    decreases k,
{
    if k > 0 {
        lemma_ccw_from_exact(px, w, h, p, base, k - 1);
    }
}

/// Scanning up from step `k`, the clockwise search finds the neighbour at the
/// lowest step from `k` on that holds a foreground pixel, if any.
pub proof fn lemma_cw_from_exact(px: Seq<u8>, w: int, h: int, p: (i32, i32), d0: int, k: int)
    requires
        0 <= k <= 8,
    ensures
        match cw_from(px, w, h, p, d0, k) {
            Some(q) => exists|j: int|
                k <= j < 8 && q == #[trigger] step(p, (d0 + j) % 8) && pix_fg(
                    px,
                    w,
                    h,
                    p.0 + dir_dx((d0 + j) % 8),
                    p.1 + dir_dy((d0 + j) % 8),
                ) && forall|i: int|
                    k <= i < j ==> !pix_fg(px, w, h, p.0 + dir_dx((d0 + i) % 8), p.1 + #[trigger] dir_dy((d0 + i) % 8)),
            None => forall|i: int|
                k <= i < 8 ==> !pix_fg(px, w, h, p.0 + dir_dx((d0 + i) % 8), p.1 + #[trigger] dir_dy((d0 + i) % 8)),
        },
    decreases 8 - k,
{
    if k < 8 {
        lemma_cw_from_exact(px, w, h, p, d0, k + 1);
        if pix_fg(px, w, h, p.0 + dir_dx((d0 + k) % 8), p.1 + dir_dy((d0 + k) % 8)) {
            assert(cw_from(px, w, h, p, d0, k) == Some(step(p, (d0 + k) % 8)));
        } else {
            match cw_from(px, w, h, p, d0, k + 1) {
                Some(q) => {
                    let j = choose|j: int|
                        k + 1 <= j < 8 && q == #[trigger] step(p, (d0 + j) % 8) && pix_fg(
                            px,
                            w,
                            h,
                            p.0 + dir_dx((d0 + j) % 8),
                            p.1 + dir_dy((d0 + j) % 8),
                        ) && forall|i: int|
                            k + 1 <= i < j ==> !pix_fg(
                                px,
                                w,
                                h,
                                p.0 + dir_dx((d0 + i) % 8),
                                p.1 + #[trigger] dir_dy((d0 + i) % 8),
                            );
                    assert forall|i: int| k <= i < j implies !pix_fg(
                        px,
                        w,
                        h,
                        p.0 + dir_dx((d0 + i) % 8),
                        p.1 + #[trigger] dir_dy((d0 + i) % 8),
                    ) by {
                        if i > k {
                        }
                    }
                },
                None => {},
            }
        }
    }
}

/// A foreground pixel without foreground neighbours.
pub open spec fn lone(px: Seq<u8>, w: int, h: int, p: (i32, i32)) -> bool {
    pix_fg(px, w, h, p.0 as int, p.1 as int) && isolated(px, w, h, p)
}

/// A path of foreground pixels, each an 8-neighbour of the one before.
pub open spec fn fg_path(px: Seq<u8>, w: int, h: int, s: Seq<(i32, i32)>) -> bool {
    &&& s.len() >= 1
    &&& forall|i: int| 0 <= i < s.len() ==> pix_fg(px, w, h, (#[trigger] s[i]).0 as int, s[i].1 as int)
    &&& forall|i: int| 0 <= i < s.len() - 1 ==> is_dir((#[trigger] s[i + 1]).0 - s[i].0, s[i + 1].1 - s[i].1)
}

/// A foreground path leads from `p` to `q`.
pub open spec fn fg_linked(px: Seq<u8>, w: int, h: int, p: (i32, i32), q: (i32, i32)) -> bool {
    exists|s: Seq<(i32, i32)>| #[trigger] fg_path(px, w, h, s) && s[0] == p && s.last() == q
}

/// `p` is the first pixel, in raster order, of its 8-connected foreground
/// component.
pub open spec fn component_first(px: Seq<u8>, w: int, h: int, p: (i32, i32)) -> bool {
    &&& pix_fg(px, w, h, p.0 as int, p.1 as int)
    &&& forall|q: (i32, i32)| #[trigger] fg_linked(px, w, h, q, p) ==> raster(w, p) <= raster(w, q)
}

/// A border is owed at `p`: it is the first pixel of its component, and it
/// is not in the first column, or background lies to its right.
pub open spec fn owes_border(px: Seq<u8>, w: int, h: int, p: (i32, i32)) -> bool {
    &&& component_first(px, w, h, p)
    &&& (p.0 > 0 || (p.0 + 1 < w && !pix_fg(px, w, h, p.0 + 1, p.1 as int)))
}

/// A traced border: non-empty, of foreground pixels, each one a neighbour of
/// the one before, and no longer than the trace guard allows. It is a single
/// pixel exactly when its start has no foreground neighbour; a longer border
/// closes (its last pixel neighbours its first) unless the guard cut it.
pub open spec fn contour_ok(c: Seq<(i32, i32)>, px: Seq<u8>, w: int, h: int) -> bool {
    &&& 1 <= c.len() <= w * h + 2
    &&& (c.len() == 1) == isolated(px, w, h, c[0])
    &&& c.len() >= 2 ==> is_dir(c[0].0 - c.last().0, c[0].1 - c.last().1) || c.len() == w * h + 2
    &&& forall|i: int| 0 <= i < c.len() ==> pix_fg(px, w, h, (#[trigger] c[i]).0 as int, c[i].1 as int)
    &&& forall|i: int|
        0 <= i < c.len() - 1 ==> is_dir(
            (#[trigger] c[i + 1]).0 - c[i].0,
            c[i + 1].1 - c[i].1,
        )
}

/// A border starts at a foreground pixel with a background pixel of the
/// image directly to its left or right.
pub open spec fn border_start(px: Seq<u8>, w: int, h: int, p: (i32, i32)) -> bool {
    &&& pix_fg(px, w, h, p.0 as int, p.1 as int)
    &&& ((p.0 > 0 && !pix_fg(px, w, h, p.0 - 1, p.1 as int)) || (p.0 + 1 < w && !pix_fg(
        px,
        w,
        h,
        p.0 + 1,
        p.1 as int,
    )))
}

/// The step of search direction `k`.
fn direction(k: usize) -> (d: (i32, i32))
    requires
        k < 8,
    ensures
        d.0 == dir_dx(k as int),
        d.1 == dir_dy(k as int),
{
    match k {
        0 => (-1, 0),
        1 => (-1, -1),
        2 => (0, -1),
        3 => (1, -1),
        4 => (1, 0),
        5 => (1, 1),
        6 => (0, 1),
        _ => (-1, 1),
    }
}

/// The search position of a neighbour step (W = 0, then clockwise).
pub fn dir_index(d: (i32, i32)) -> (k: usize)
    requires
        is_dir(d.0 as int, d.1 as int),
    ensures
        k < 8,
        dir_dx(k as int) == d.0,
        dir_dy(k as int) == d.1,
        k == dir_of(d.0 as int, d.1 as int),
{
    match d {
        (-1, 0) => 0,
        (-1, -1) => 1,
        (0, -1) => 2,
        (1, -1) => 3,
        (1, 0) => 4,
        (1, 1) => 5,
        (0, 1) => 6,
        _ => 7,
    }
}

proof fn lemma_dirs_are_steps(k: int)
    requires
        0 <= k < 8,
    ensures
        is_dir(dir_dx(k), dir_dy(k)),
{
}

/// Every neighbour step is one of the eight search directions.
proof fn lemma_step_is_dir(dx: int, dy: int)
    requires
        is_dir(dx, dy),
    ensures
        exists|k: int| 0 <= k < 8 && dir_dx(k) == dx && #[trigger] dir_dy(k) == dy,
{
    let k: int = if dy == 0 {
        if dx == -1 { 0 } else { 4 }
    } else if dy == -1 {
        dx + 2
    } else {
        if dx == -1 { 7 } else { 6 - dx }
    };
    assert(0 <= k < 8 && dir_dx(k) == dx && dir_dy(k) == dy);
}

/// A pixel with a foreground neighbour is not isolated.
proof fn lemma_not_isolated(px: Seq<u8>, w: int, h: int, p: (i32, i32), q: (i32, i32))
    requires
        pix_fg(px, w, h, q.0 as int, q.1 as int),
        is_dir(q.0 - p.0, q.1 - p.1),
    ensures
        !isolated(px, w, h, p),
{
    lemma_step_is_dir(q.0 - p.0, q.1 - p.1);
    let k = choose|k: int| 0 <= k < 8 && dir_dx(k) == q.0 - p.0 && #[trigger] dir_dy(k) == q.1 - p.1;
    assert(p.0 + dir_dx(k) == q.0 && p.1 + dir_dy(k) == q.1);
}

/// Padded positions are in range and distinct coordinates have distinct positions.
proof fn lemma_pidx(w: int, h: int, x: int, y: int)
    requires
        w >= 0,
        h >= 0,
        -1 <= x <= w,
        -1 <= y <= h,
    ensures
        0 <= pidx(w, x, y) < (w + 2) * (h + 2),
        (y + 1) * (w + 2) <= (h + 1) * (w + 2),
        (w + 2) * (h + 2) == (h + 2) * (w + 2),
        w + 2 <= (w + 2) * (h + 2),
        h + 2 <= (w + 2) * (h + 2),
{
    let yy = y + 1;
    let s = w + 2;
    assert(0 <= yy * s) by (nonlinear_arith)
        requires
            0 <= yy,
            0 <= s,
    ;
    assert(yy * s + s <= (h + 2) * s) by (nonlinear_arith)
        requires
            yy + 1 <= h + 2,
            0 <= s,
    ;
    assert(yy * s <= (h + 1) * s) by (nonlinear_arith)
        requires
            yy <= h + 1,
            0 <= s,
    ;
    assert((w + 2) * (h + 2) == (h + 2) * (w + 2)) by (nonlinear_arith);
    assert(w + 2 <= (w + 2) * (h + 2) && h + 2 <= (w + 2) * (h + 2)) by (nonlinear_arith)
        requires
            w >= 0,
            h >= 0,
    ;
}

proof fn lemma_pidx_inj(w: int, x1: int, y1: int, x2: int, y2: int)
    requires
        w >= 0,
        -1 <= x1 <= w,
        -1 <= x2 <= w,
        -1 <= y1,
        -1 <= y2,
        pidx(w, x1, y1) == pidx(w, x2, y2),
    ensures
        x1 == x2,
        y1 == y2,
{
    let s = w + 2;
    let a = y1 + 1;
    let b = y2 + 1;
    if a < b {
        assert(a * s + s <= b * s) by (nonlinear_arith)
            requires
                a + 1 <= b,
                0 <= s,
        ;
    }
    if b < a {
        assert(b * s + s <= a * s) by (nonlinear_arith)
            requires
                b + 1 <= a,
                0 <= s,
        ;
    }
}

/// Row-major positions of stride `s` determine their coordinates.
pub(crate) proof fn lemma_index_inj(s: int, x1: int, y1: int, x2: int, y2: int)
    requires
        0 <= x1 < s,
        0 <= x2 < s,
        0 <= y1,
        0 <= y2,
        y1 * s + x1 == y2 * s + x2,
    ensures
        x1 == x2,
        y1 == y2,
{
    if y1 < y2 {
        assert(y1 * s + s <= y2 * s) by (nonlinear_arith)
            requires
                y1 + 1 <= y2,
                0 <= s,
        ;
    }
    if y2 < y1 {
        assert(y2 * s + s <= y1 * s) by (nonlinear_arith)
            requires
                y2 + 1 <= y1,
                0 <= s,
        ;
    }
}

/// Writing a non-zero label over a foreground pixel keeps the buffer matched.
proof fn lemma_write_keeps_match(lbl: Seq<i32>, px: Seq<u8>, w: int, h: int, x0: int, y0: int, v: i32)
    requires
        w >= 0,
        h >= 0,
        labels_match(lbl, px, w, h),
        pix_fg(px, w, h, x0, y0),
        v != 0,
    ensures
        labels_match(lbl.update(pidx(w, x0, y0), v), px, w, h),
{
    lemma_pidx(w, h, x0, y0);
    let nl = lbl.update(pidx(w, x0, y0), v);
    assert forall|x: int, y: int| -1 <= x <= w && -1 <= y <= h implies ((#[trigger] nl[pidx(w, x, y)] != 0)
        == pix_fg(px, w, h, x, y)) by {
        lemma_pidx(w, h, x, y);
        if pidx(w, x, y) == pidx(w, x0, y0) {
            lemma_pidx_inj(w, x, y, x0, y0);
        } else {
            assert(nl[pidx(w, x, y)] == lbl[pidx(w, x, y)]);
        }
    }
}

/// Extending a trace by `q`, entered from `prev`, adds `q`'s visit.
proof fn lemma_edge_in_push(
    px: Seq<u8>,
    w: int,
    h: int,
    pts: Seq<(i32, i32)>,
    pos1: (i32, i32),
    q: (i32, i32),
    prev: (i32, i32),
    p: (i32, i32),
)
    requires
        prev == if pts.len() == 0 {
            pos1
        } else {
            pts[pts.len() - 1]
        },
    ensures
        edge_in(px, w, h, pts.push(q), pos1, p) == (edge_in(px, w, h, pts, pos1, p) || (p == q && right_edge_visit(
            px,
            w,
            h,
            prev,
            q,
        ))),
{
    let t = pts.push(q);
    if edge_in(px, w, h, pts, pos1, p) {
        let k = choose|k: int|
            0 <= k < pts.len() && #[trigger] pts[k] == p && right_edge_visit(
                px,
                w,
                h,
                if k == 0 {
                    pos1
                } else {
                    pts[k - 1]
                },
                p,
            );
        assert(t[k] == p);
        if k > 0 {
            assert(t[k - 1] == pts[k - 1]);
        }
    }
    if p == q && right_edge_visit(px, w, h, prev, q) {
        let k = pts.len() as int;
        assert(t[k] == p);
        if k > 0 {
            assert(t[k - 1] == pts[k - 1]);
        }
    }
    if edge_in(px, w, h, t, pos1, p) {
        let k = choose|k: int|
            0 <= k < t.len() && #[trigger] t[k] == p && right_edge_visit(
                px,
                w,
                h,
                if k == 0 {
                    pos1
                } else {
                    t[k - 1]
                },
                p,
            );
        if k < pts.len() {
            assert(pts[k] == p);
            if k > 0 {
                assert(t[k - 1] == pts[k - 1]);
            }
        } else {
            if k > 0 {
                assert(t[k - 1] == pts[k - 1]);
            }
        }
    }
}

/// A trace visits a pixel other than its first only past its first pixel.
proof fn lemma_edge_in_tail(px: Seq<u8>, w: int, h: int, pts: Seq<(i32, i32)>, pos1: (i32, i32), p: (i32, i32))
    requires
        pts.len() >= 1,
        pts[0] != p,
    ensures
        edge_in(px, w, h, pts, pos1, p) == edge_tail(px, w, h, pts, p),
{
    if edge_in(px, w, h, pts, pos1, p) {
        let k = choose|k: int|
            0 <= k < pts.len() && #[trigger] pts[k] == p && right_edge_visit(
                px,
                w,
                h,
                if k == 0 {
                    pos1
                } else {
                    pts[k - 1]
                },
                p,
            );
        assert(k != 0);
    }
    if edge_tail(px, w, h, pts, p) {
        let k = choose|k: int| 1 <= k < pts.len() && #[trigger] pts[k] == p && right_edge_visit(px, w, h, pts[k - 1], p);
        assert(pts[k] == p);
    }
}

/// Appending a border adds its visits to those made before `p`.
proof fn lemma_borders_push(px: Seq<u8>, w: int, h: int, cs: Seq<Vec<(i32, i32)>>, c: Vec<(i32, i32)>, p: (i32, i32))
    ensures
        visited_before(w, cs.push(c), p) == (visited_before(w, cs, p) || (raster(w, c@[0]) < raster(w, p) && c@.contains(p))),
        edge_marked_before(px, w, h, cs.push(c), p) == (edge_marked_before(px, w, h, cs, p) || (raster(w, c@[0]) < raster(w, p)
            && edge_tail(px, w, h, c@, p))),
{
    let t = cs.push(c);
    if visited_before(w, cs, p) {
        let i = choose|i: int| 0 <= i < cs.len() && raster(w, (#[trigger] cs[i])@[0]) < raster(w, p) && cs[i]@.contains(p);
        assert(t[i] == cs[i]);
    }
    if edge_marked_before(px, w, h, cs, p) {
        let i = choose|i: int| 0 <= i < cs.len() && raster(w, (#[trigger] cs[i])@[0]) < raster(w, p) && edge_tail(px, w, h, cs[i]@, p);
        assert(t[i] == cs[i]);
    }
    assert(t[cs.len() as int] == c);
    if visited_before(w, t, p) {
        let i = choose|i: int| 0 <= i < t.len() && raster(w, (#[trigger] t[i])@[0]) < raster(w, p) && t[i]@.contains(p);
        if i < cs.len() {
            assert(t[i] == cs[i]);
        }
    }
    if edge_marked_before(px, w, h, t, p) {
        let i = choose|i: int| 0 <= i < t.len() && raster(w, (#[trigger] t[i])@[0]) < raster(w, p) && edge_tail(px, w, h, t[i]@, p);
        if i < cs.len() {
            assert(t[i] == cs[i]);
        }
    }
}

/// A foreground pixel is linked to itself.
proof fn lemma_link_self(px: Seq<u8>, w: int, h: int, a: (i32, i32))
    requires
        pix_fg(px, w, h, a.0 as int, a.1 as int),
    ensures
        fg_linked(px, w, h, a, a),
{
    let t = seq![a];
    assert(t[0] == a);
    assert(fg_path(px, w, h, t));
}

/// A link extends by a step to a foreground neighbour.
proof fn lemma_link_extend(px: Seq<u8>, w: int, h: int, a: (i32, i32), b: (i32, i32), c: (i32, i32))
    requires
        fg_linked(px, w, h, a, b),
        pix_fg(px, w, h, c.0 as int, c.1 as int),
        is_dir(c.0 - b.0, c.1 - b.1),
    ensures
        fg_linked(px, w, h, a, c),
{
    let s = choose|s: Seq<(i32, i32)>| #[trigger] fg_path(px, w, h, s) && s[0] == a && s.last() == b;
    let t = s.push(c);
    assert forall|i: int| 0 <= i < t.len() implies pix_fg(px, w, h, (#[trigger] t[i]).0 as int, t[i].1 as int) by {
        if i < s.len() {
            assert(t[i] == s[i]);
        }
    }
    assert forall|i: int| 0 <= i < t.len() - 1 implies is_dir((#[trigger] t[i + 1]).0 - t[i].0, t[i + 1].1 - t[i].1) by {
        if i + 1 < s.len() {
            assert(t[i + 1] == s[i + 1] && t[i] == s[i]);
        } else {
            assert(t[i] == s[s.len() - 1]);
        }
    }
    assert(t[0] == a && t.last() == c);
    assert(fg_path(px, w, h, t));
}

/// Writing at a pixel linked to `from` leaves the labels of the foreground
/// pixels not linked to `from` as they were.
proof fn lemma_write_spares_unlinked(lbl: Seq<i32>, px: Seq<u8>, w: int, h: int, from: (i32, i32), at: (i32, i32), v: i32)
    requires
        w >= 0,
        h >= 0,
        lbl.len() == (w + 2) * (h + 2),
        pix_fg(px, w, h, at.0 as int, at.1 as int),
        fg_linked(px, w, h, from, at),
    ensures
        forall|p: (i32, i32)|
            pix_fg(px, w, h, p.0 as int, p.1 as int) && !#[trigger] fg_linked(px, w, h, from, p) ==> lbl.update(
                pidx(w, at.0 as int, at.1 as int),
                v,
            )[pidx(w, p.0 as int, p.1 as int)] == lbl[pidx(w, p.0 as int, p.1 as int)],
{
    lemma_pidx(w, h, at.0 as int, at.1 as int);
    assert forall|p: (i32, i32)| pix_fg(px, w, h, p.0 as int, p.1 as int) && !#[trigger] fg_linked(px, w, h, from, p) implies lbl.update(
        pidx(w, at.0 as int, at.1 as int),
        v,
    )[pidx(w, p.0 as int, p.1 as int)] == lbl[pidx(w, p.0 as int, p.1 as int)] by {
        lemma_pidx(w, h, p.0 as int, p.1 as int);
        if pidx(w, p.0 as int, p.1 as int) == pidx(w, at.0 as int, at.1 as int) {
            lemma_pidx_inj(w, p.0 as int, p.1 as int, at.0 as int, at.1 as int);
            assert(p == at);
        }
    }
}

/// Writing at a pixel with a foreground neighbour leaves the labels of lone
/// pixels as they were.
proof fn lemma_write_spares_lone(
    lbl: Seq<i32>,
    px: Seq<u8>,
    w: int,
    h: int,
    at: (i32, i32),
    nb: (i32, i32),
    v: i32,
)
    requires
        w >= 0,
        h >= 0,
        lbl.len() == (w + 2) * (h + 2),
        pix_fg(px, w, h, at.0 as int, at.1 as int),
        pix_fg(px, w, h, nb.0 as int, nb.1 as int),
        is_dir(nb.0 - at.0, nb.1 - at.1),
    ensures
        forall|p: (i32, i32)|
            #[trigger] lone(px, w, h, p) ==> lbl.update(pidx(w, at.0 as int, at.1 as int), v)[pidx(
                w,
                p.0 as int,
                p.1 as int,
            )] == lbl[pidx(w, p.0 as int, p.1 as int)],
{
    lemma_pidx(w, h, at.0 as int, at.1 as int);
    assert forall|p: (i32, i32)| #[trigger] lone(px, w, h, p) implies lbl.update(
        pidx(w, at.0 as int, at.1 as int),
        v,
    )[pidx(w, p.0 as int, p.1 as int)] == lbl[pidx(w, p.0 as int, p.1 as int)] by {
        lemma_pidx(w, h, p.0 as int, p.1 as int);
        if pidx(w, p.0 as int, p.1 as int) == pidx(w, at.0 as int, at.1 as int) {
            lemma_pidx_inj(w, p.0 as int, p.1 as int, at.0 as int, at.1 as int);
            assert(p == at);
            lemma_not_isolated(px, w, h, at, nb);
        }
    }
}

/// Position of `(x, y)` in the padded buffer.
fn pindex(w: usize, h: usize, x: i32, y: i32) -> (i: usize)
    requires
        w < i32::MAX,
        h < i32::MAX,
        -1 <= x <= w,
        -1 <= y <= h,
        (w + 2) * (h + 2) <= usize::MAX,
    ensures
        i == pidx(w as int, x as int, y as int),
        i < (w + 2) * (h + 2),
{
    proof {
        lemma_pidx(w as int, h as int, x as int, y as int);
    }
    ((y + 1) as usize) * (w + 2) + ((x + 1) as usize)
}

/// Copies the image into a zero-padded buffer with 1 on foreground pixels.
fn binarize(pixels: &[u8], w: usize, h: usize) -> (lbl: Vec<i32>)
    requires
        w < i32::MAX,
        h < i32::MAX,
        pixels.len() == w * h,
        (w + 2) * (h + 2) <= usize::MAX,
    ensures
        labels_match(lbl@, pixels@, w as int, h as int),
        forall|i: int| 0 <= i < lbl.len() ==> 0 <= #[trigger] lbl@[i] <= 1,
{
    let stride = w + 2;
    proof {
        lemma_pidx(w as int, h as int, w as int, h as int);
    }
    let mut lbl: Vec<i32> = vec![0i32; stride * (h + 2)];
    assert forall|xx: int, yy: int| -1 <= xx <= w && -1 <= yy <= h implies lbl@[pidx(w as int, xx, yy)] == 0 by {
        lemma_pidx(w as int, h as int, xx, yy);
    }
    let mut y: usize = 0;
    while y < h
        invariant
            w < i32::MAX,
            h < i32::MAX,
            y <= h,
            stride == w + 2,
            pixels.len() == w * h,
            (w + 2) * (h + 2) <= usize::MAX,
            lbl.len() == (w + 2) * (h + 2),
            forall|i: int| 0 <= i < lbl.len() ==> 0 <= #[trigger] lbl@[i] <= 1,
            forall|xx: int, yy: int|
                -1 <= xx <= w && -1 <= yy <= h ==> ((#[trigger] lbl@[pidx(w as int, xx, yy)] != 0) == (yy
                    < y && pix_fg(pixels@, w as int, h as int, xx, yy))),
        decreases h - y,
    {
        let mut x: usize = 0;
        while x < w
            invariant
                w < i32::MAX,
                h < i32::MAX,
                y < h,
                x <= w,
                stride == w + 2,
                pixels.len() == w * h,
                (w + 2) * (h + 2) <= usize::MAX,
                lbl.len() == (w + 2) * (h + 2),
                forall|i: int| 0 <= i < lbl.len() ==> 0 <= #[trigger] lbl@[i] <= 1,
                forall|xx: int, yy: int|
                    -1 <= xx <= w && -1 <= yy <= h ==> ((#[trigger] lbl@[pidx(w as int, xx, yy)] != 0) == ((
                    yy < y || (yy == y && xx < x)) && pix_fg(pixels@, w as int, h as int, xx, yy))),
            decreases w - x,
        {
            proof {
                crate::imgproc::lemma_row_major(y as int, x as int, w as int, h as int);
            }
            let p = pixels[y * w + x];
            let i = pindex(w, h, x as i32, y as i32);
            if p > 0 {
                let ghost old_lbl = lbl@;
                lbl.set(i, 1);
                proof {
                    assert forall|xx: int, yy: int| -1 <= xx <= w && -1 <= yy <= h implies ((
                    #[trigger] lbl@[pidx(w as int, xx, yy)] != 0) == ((yy < y || (yy == y && xx < x + 1))
                        && pix_fg(pixels@, w as int, h as int, xx, yy))) by {
                        lemma_pidx(w as int, h as int, xx, yy);
                        if pidx(w as int, xx, yy) == i {
                            lemma_pidx_inj(w as int, xx, yy, x as int, y as int);
                        } else {
                            assert(lbl@[pidx(w as int, xx, yy)] == old_lbl[pidx(w as int, xx, yy)]);
                        }
                    }
                }
            } else {
                proof {
                    assert forall|xx: int, yy: int| -1 <= xx <= w && -1 <= yy <= h implies ((
                    #[trigger] lbl@[pidx(w as int, xx, yy)] != 0) == ((yy < y || (yy == y && xx < x + 1))
                        && pix_fg(pixels@, w as int, h as int, xx, yy))) by {
                        if xx == x && yy == y {
                            assert(!pix_fg(pixels@, w as int, h as int, xx, yy));
                        }
                    }
                }
            }
            x = x + 1;
        }
        y = y + 1;
    }
    lbl
}

/// Label stored for `(x, y)`.
fn label(lbl: &Vec<i32>, w: usize, h: usize, x: i32, y: i32) -> (v: i32)
    requires
        w < i32::MAX,
        h < i32::MAX,
        -1 <= x <= w,
        -1 <= y <= h,
        (w + 2) * (h + 2) <= usize::MAX,
        lbl.len() == (w + 2) * (h + 2),
    ensures
        v == lbl@[pidx(w as int, x as int, y as int)],
{
    lbl[pindex(w, h, x, y)]
}

/// Stores `v` as the label of `(x, y)`.
fn set_label(lbl: &mut Vec<i32>, w: usize, h: usize, x: i32, y: i32, v: i32)
    requires
        w < i32::MAX,
        h < i32::MAX,
        -1 <= x <= w,
        -1 <= y <= h,
        (w + 2) * (h + 2) <= usize::MAX,
        old(lbl).len() == (w + 2) * (h + 2),
    ensures
        final(lbl)@ == old(lbl)@.update(pidx(w as int, x as int, y as int), v),
{
    let i = pindex(w, h, x, y);
    lbl.set(i, v);
}

/// The first foreground neighbour of `p`, searching clockwise from direction `d0`.
fn first_fg_cw(lbl: &Vec<i32>, pixels: &[u8], w: usize, h: usize, p: (i32, i32), d0: usize) -> (r: Option<
    (i32, i32),
>)
    requires
        w < i32::MAX,
        h < i32::MAX,
        (w + 2) * (h + 2) <= usize::MAX,
        labels_match(lbl@, pixels@, w as int, h as int),
        pix_fg(pixels@, w as int, h as int, p.0 as int, p.1 as int),
        d0 < 8,
    ensures
        r matches Some(q) ==> pix_fg(pixels@, w as int, h as int, q.0 as int, q.1 as int) && is_dir(
            q.0 - p.0,
            q.1 - p.1,
        ),
        r is None ==> forall|k: int|
            0 <= k < 8 ==> !pix_fg(pixels@, w as int, h as int, p.0 + dir_dx(k), p.1 + #[trigger] dir_dy(k)),
        r == cw_from(pixels@, w as int, h as int, p, d0 as int, 0),
{
    let mut k: usize = 0;
    while k < 8
        invariant
            k <= 8,
            d0 < 8,
            w < i32::MAX,
            h < i32::MAX,
            (w + 2) * (h + 2) <= usize::MAX,
            labels_match(lbl@, pixels@, w as int, h as int),
            pix_fg(pixels@, w as int, h as int, p.0 as int, p.1 as int),
            forall|j: int|
                0 <= j < k ==> !pix_fg(
                    pixels@,
                    w as int,
                    h as int,
                    p.0 + dir_dx((d0 + j) % 8),
                    p.1 + #[trigger] dir_dy((d0 + j) % 8),
                ),
            cw_from(pixels@, w as int, h as int, p, d0 as int, 0) == cw_from(pixels@, w as int, h as int, p, d0 as int, k as int),
        decreases 8 - k,
    {
        let d = direction((d0 + k) % 8);
        proof {
            lemma_dirs_are_steps(((d0 + k) % 8) as int);
        }
        let q = (p.0 + d.0, p.1 + d.1);
        if label(lbl, w, h, q.0, q.1) != 0 {
            assert(q == step(p, ((d0 + k) % 8) as int));
            return Some(q);
        }
        k = k + 1;
    }
    assert forall|j: int| 0 <= j < 8 implies !pix_fg(
        pixels@,
        w as int,
        h as int,
        p.0 + dir_dx(j),
        p.1 + #[trigger] dir_dy(j),
    ) by {
        let i = if j >= d0 {
            j - d0
        } else {
            j + 8 - d0
        };
        assert((d0 + i) % 8 == j);
        assert(!pix_fg(pixels@, w as int, h as int, p.0 + dir_dx((d0 + i) % 8), p.1 + dir_dy((d0 + i) % 8)));
    }
    None
}

/// The last search step `k` (scanning `k = 7` down to `0`, direction
/// `(base + k) % 8`) that reaches a foreground neighbour of `p`; the step
/// `k = 0` points at a foreground pixel, so one is always found.
fn first_fg_ccw(lbl: &Vec<i32>, pixels: &[u8], w: usize, h: usize, p: (i32, i32), base: usize) -> (k: usize)
    requires
        w < i32::MAX,
        h < i32::MAX,
        (w + 2) * (h + 2) <= usize::MAX,
        labels_match(lbl@, pixels@, w as int, h as int),
        pix_fg(pixels@, w as int, h as int, p.0 as int, p.1 as int),
        base < 8,
        pix_fg(pixels@, w as int, h as int, p.0 + dir_dx(base as int), p.1 + dir_dy(base as int)),
    ensures
        k < 8,
        pix_fg(
            pixels@,
            w as int,
            h as int,
            p.0 + dir_dx(((base + k) % 8) as int),
            p.1 + dir_dy(((base + k) % 8) as int),
        ),
        k == ccw_from(pixels@, w as int, h as int, p, base as int, 8),
{
    let mut k: usize = 8;
    while k > 0
        invariant
            k <= 8,
            base < 8,
            w < i32::MAX,
            h < i32::MAX,
            (w + 2) * (h + 2) <= usize::MAX,
            labels_match(lbl@, pixels@, w as int, h as int),
            pix_fg(pixels@, w as int, h as int, p.0 as int, p.1 as int),
            pix_fg(pixels@, w as int, h as int, p.0 + dir_dx(base as int), p.1 + dir_dy(base as int)),
            ccw_from(pixels@, w as int, h as int, p, base as int, 8) == ccw_from(pixels@, w as int, h as int, p, base as int, k as int),
        decreases k,
    {
        let d = direction((base + k - 1) % 8);
        proof {
            lemma_dirs_are_steps(((base + k - 1) % 8) as int);
        }
        if label(lbl, w, h, p.0 + d.0, p.1 + d.1) != 0 {
            return k - 1;
        }
        k = k - 1;
    }
    assert((base + 0) % 8 == base);
    0
}

/// Distinct search directions are distinct steps.
proof fn lemma_dirs_distinct(a: int, b: int)
    requires
        0 <= a < 8,
        0 <= b < 8,
        dir_dx(a) == dir_dx(b),
        dir_dy(a) == dir_dy(b),
    ensures
        a == b,
{
}

/// Whether a counter-clockwise scan from step 7 down to step `k4` passes the
/// east direction before reaching step `k4`.
fn passes_east(base: usize, k4: usize) -> (r: bool)
    requires
        base < 8,
        k4 < 8,
    ensures
        r == exists|j: int| k4 < j < 8 && #[trigger] ((base + j) % 8) == 4,
{
    let target = direction((base + k4) % 8);
    let mut k: usize = 8;
    while k > 0
        invariant
            k <= 8,
            base < 8,
            k4 < 8,
            target.0 == dir_dx(((base + k4) % 8) as int),
            target.1 == dir_dy(((base + k4) % 8) as int),
            forall|j: int| k <= j < 8 ==> j != k4 && #[trigger] ((base + j) % 8) != 4,
        decreases k,
    {
        let d = direction((base + k - 1) % 8);
        if d.0 == target.0 && d.1 == target.1 {
            proof {
                lemma_dirs_distinct(((base + k - 1) % 8) as int, ((base + k4) % 8) as int);
                assert(k - 1 == k4);
                assert forall|j: int| k4 < j < 8 implies #[trigger] ((base + j) % 8) != 4 by {}
            }
            return false;
        }
        if d.0 == 1 && d.1 == 0 {
            proof {
                lemma_dirs_distinct(((base + k - 1) % 8) as int, 4);
                assert(k - 1 != k4);
                assert(k4 < k - 1);
                assert((base + (k - 1)) % 8 == 4);
            }
            return true;
        }
        proof {
            if k - 1 == k4 {
                assert(d.0 == target.0 && d.1 == target.1);
            }
            if (base + (k - 1)) % 8 == 4 {
                assert(d.0 == 1 && d.1 == 0);
            }
        }
        k = k - 1;
    }
    false
}

/// Follows the border that starts at `curr` and continues to its neighbour
/// `pos1`, relabelling the visited pixels with `nbd` (or `-nbd` at right
/// edges), and returns the visited pixels in order.
fn trace_border(
    lbl: &mut Vec<i32>,
    pixels: &[u8],
    w: usize,
    h: usize,
    curr: (i32, i32),
    pos1: (i32, i32),
    nbd: i32,
) -> (points: Vec<(i32, i32)>)
    requires
        w < i32::MAX,
        h < i32::MAX,
        w * h + 2 <= i32::MAX,
        (w + 2) * (h + 2) <= usize::MAX,
        labels_match(old(lbl)@, pixels@, w as int, h as int),
        pix_fg(pixels@, w as int, h as int, curr.0 as int, curr.1 as int),
        pix_fg(pixels@, w as int, h as int, pos1.0 as int, pos1.1 as int),
        is_dir(pos1.0 - curr.0, pos1.1 - curr.1),
        nbd >= 2,
    ensures
        labels_match(final(lbl)@, pixels@, w as int, h as int),
        contour_ok(points@, pixels@, w as int, h as int),
        points@[0] == curr,
        points@ == trace_from(pixels@, w as int, h as int, curr, pos1, pos1, curr, (w * h + 1) as nat),
        forall|p: (i32, i32)|
            #[trigger] fg_at(pixels@, w as int, h as int, p) ==> ((final(lbl)@[pidx(w as int, p.0 as int, p.1 as int)]
                == 1) == (old(lbl)@[pidx(w as int, p.0 as int, p.1 as int)] == 1 && !points@.contains(p))),
        forall|p: (i32, i32)|
            #[trigger] fg_at(pixels@, w as int, h as int, p) ==> ((final(lbl)@[pidx(w as int, p.0 as int, p.1 as int)]
                > 0) == (old(lbl)@[pidx(w as int, p.0 as int, p.1 as int)] > 0 && !edge_in(
                pixels@,
                w as int,
                h as int,
                points@,
                pos1,
                p,
            ))),
        forall|p: (i32, i32)|
            #[trigger] lone(pixels@, w as int, h as int, p) ==> final(lbl)@[pidx(w as int, p.0 as int, p.1 as int)]
                == old(lbl)@[pidx(w as int, p.0 as int, p.1 as int)],
        forall|p: (i32, i32)|
            pix_fg(pixels@, w as int, h as int, p.0 as int, p.1 as int) && !#[trigger] fg_linked(
                pixels@,
                w as int,
                h as int,
                curr,
                p,
            ) ==> final(lbl)@[pidx(w as int, p.0 as int, p.1 as int)] == old(lbl)@[pidx(w as int, p.0 as int, p.1 as int)],
{
    let ghost lbl0 = lbl@;
    proof {
        lemma_link_self(pixels@, w as int, h as int, curr);
    }
    let max_points: usize = w * h + 1;
    let mut points: Vec<(i32, i32)> = Vec::new();
    let mut pos2 = pos1;
    let mut pos3 = curr;
    loop
        invariant
            w < i32::MAX,
            h < i32::MAX,
            w * h + 2 <= i32::MAX,
            max_points == w * h + 1,
            (w + 2) * (h + 2) <= usize::MAX,
            nbd >= 2,
            labels_match(lbl@, pixels@, w as int, h as int),
            pix_fg(pixels@, w as int, h as int, pos3.0 as int, pos3.1 as int),
            pix_fg(pixels@, w as int, h as int, pos2.0 as int, pos2.1 as int),
            is_dir(pos2.0 - pos3.0, pos2.1 - pos3.1),
            points.len() <= max_points,
            points.len() == 0 ==> pos3 == curr,
            points@ + trace_from(
                pixels@,
                w as int,
                h as int,
                curr,
                pos1,
                pos2,
                pos3,
                (max_points - points.len()) as nat,
            ) == trace_from(pixels@, w as int, h as int, curr, pos1, pos1, curr, max_points as nat),
            pix_fg(pixels@, w as int, h as int, pos1.0 as int, pos1.1 as int),
            is_dir(pos1.0 - curr.0, pos1.1 - curr.1),
            lbl@.len() == (w + 2) * (h + 2),
            lbl0 == old(lbl)@,
            points.len() == 0 ==> pos2 == pos1,
            points.len() > 0 ==> pos2 == points@[points.len() - 1],
            forall|p: (i32, i32)|
                #[trigger] fg_at(pixels@, w as int, h as int, p) ==> ((lbl@[pidx(w as int, p.0 as int, p.1 as int)] == 1)
                    == (lbl0[pidx(w as int, p.0 as int, p.1 as int)] == 1 && !points@.contains(p))),
            forall|p: (i32, i32)|
                #[trigger] fg_at(pixels@, w as int, h as int, p) ==> ((lbl@[pidx(w as int, p.0 as int, p.1 as int)] > 0)
                    == (lbl0[pidx(w as int, p.0 as int, p.1 as int)] > 0 && !edge_in(
                    pixels@,
                    w as int,
                    h as int,
                    points@,
                    pos1,
                    p,
                ))),
            fg_linked(pixels@, w as int, h as int, curr, pos3),
            forall|p: (i32, i32)|
                pix_fg(pixels@, w as int, h as int, p.0 as int, p.1 as int) && !#[trigger] fg_linked(
                    pixels@,
                    w as int,
                    h as int,
                    curr,
                    p,
                ) ==> lbl@[pidx(w as int, p.0 as int, p.1 as int)] == lbl0[pidx(w as int, p.0 as int, p.1 as int)],
            forall|p: (i32, i32)|
                #[trigger] lone(pixels@, w as int, h as int, p) ==> lbl@[pidx(w as int, p.0 as int, p.1 as int)]
                    == lbl0[pidx(w as int, p.0 as int, p.1 as int)],
            points.len() > 0 ==> points@[0] == curr && is_dir(
                pos3.0 - points@.last().0,
                pos3.1 - points@.last().1,
            ),
            forall|i: int|
                0 <= i < points.len() ==> pix_fg(
                    pixels@,
                    w as int,
                    h as int,
                    (#[trigger] points@[i]).0 as int,
                    points@[i].1 as int,
                ),
            forall|i: int|
                0 <= i < points.len() - 1 ==> is_dir(
                    (#[trigger] points@[i + 1]).0 - points@[i].0,
                    points@[i + 1].1 - points@[i].1,
                ),
        decreases max_points - points.len(),
    {
        let ghost before = points@;
        points.push(pos3);
        proof {
            assert forall|i: int| 0 <= i < points.len() - 1 implies is_dir(
                (#[trigger] points@[i + 1]).0 - points@[i].0,
                points@[i + 1].1 - points@[i].1,
            ) by {
                if i + 1 < before.len() {
                    assert(points@[i + 1] == before[i + 1] && points@[i] == before[i]);
                } else {
                    assert(points@[i] == before.last());
                }
            }
            assert forall|i: int| 0 <= i < points.len() implies pix_fg(
                pixels@,
                w as int,
                h as int,
                (#[trigger] points@[i]).0 as int,
                points@[i].1 as int,
            ) by {
                if i < before.len() {
                    assert(points@[i] == before[i]);
                }
            }
        }
        let base = dir_index((pos2.0 - pos3.0, pos2.1 - pos3.1));
        let k4 = first_fg_ccw(lbl, pixels, w, h, pos3, base);
        let d4 = direction((base + k4) % 8);
        proof {
            lemma_dirs_are_steps(((base + k4) % 8) as int);
        }
        let pos4 = (pos3.0 + d4.0, pos3.1 + d4.1);
        let ghost fuel: nat = (max_points - before.len()) as nat;
        let ghost full = trace_from(pixels@, w as int, h as int, curr, pos1, pos1, curr, max_points as nat);
        proof {
            assert(pos4 == step(pos3, ((base + k4) % 8) as int));
            assert(pos4 == next_on_border(pixels@, w as int, h as int, pos2, pos3));
            assert(points@ =~= before.push(pos3));
        }
        let is_right_edge = passes_east(base, k4);
        let ghost lb = lbl@;
        proof {
            assert(fg_at(pixels@, w as int, h as int, pos3));
            assert((pos3.0 + 1 == w as i32 || is_right_edge) == right_edge_visit(pixels@, w as int, h as int, pos2, pos3));
        }
        if pos3.0 + 1 == w as i32 || is_right_edge {
            proof {
                lemma_write_keeps_match(lbl@, pixels@, w as int, h as int, pos3.0 as int, pos3.1 as int, (-nbd) as i32);
                lemma_write_spares_lone(lbl@, pixels@, w as int, h as int, pos3, pos2, (-nbd) as i32);
                lemma_write_spares_unlinked(lbl@, pixels@, w as int, h as int, curr, pos3, (-nbd) as i32);
            }
            set_label(lbl, w, h, pos3.0, pos3.1, -nbd);
        } else if label(lbl, w, h, pos3.0, pos3.1) == 1 {
            proof {
                lemma_write_keeps_match(lbl@, pixels@, w as int, h as int, pos3.0 as int, pos3.1 as int, nbd);
                lemma_write_spares_lone(lbl@, pixels@, w as int, h as int, pos3, pos2, nbd);
                lemma_write_spares_unlinked(lbl@, pixels@, w as int, h as int, curr, pos3, nbd);
            }
            set_label(lbl, w, h, pos3.0, pos3.1, nbd);
        }
        proof {
            lemma_pidx(w as int, h as int, pos3.0 as int, pos3.1 as int);
            assert forall|p: (i32, i32)| #[trigger] fg_at(pixels@, w as int, h as int, p) implies ((lbl@[pidx(
                w as int,
                p.0 as int,
                p.1 as int,
            )] == 1) == (lbl0[pidx(w as int, p.0 as int, p.1 as int)] == 1 && !points@.contains(p))) && ((lbl@[pidx(
                w as int,
                p.0 as int,
                p.1 as int,
            )] > 0) == (lbl0[pidx(w as int, p.0 as int, p.1 as int)] > 0 && !edge_in(
                pixels@,
                w as int,
                h as int,
                points@,
                pos1,
                p,
            ))) by {
                lemma_edge_in_push(pixels@, w as int, h as int, before, pos1, pos3, pos2, p);
                lemma_pidx(w as int, h as int, p.0 as int, p.1 as int);
                if before.contains(p) {
                    let k = choose|k: int| 0 <= k < before.len() && before[k] == p;
                    assert(points@[k] == p);
                }
                if points@.contains(p) && p != pos3 {
                    let k = choose|k: int| 0 <= k < points@.len() && points@[k] == p;
                    assert(before[k] == p);
                }
                if p == pos3 {
                    assert(points@[before.len() as int] == p);
                }
                if pidx(w as int, p.0 as int, p.1 as int) == pidx(w as int, pos3.0 as int, pos3.1 as int) {
                    lemma_pidx_inj(w as int, p.0 as int, p.1 as int, pos3.0 as int, pos3.1 as int);
                    assert(p == pos3);
                } else {
                    assert(lbl@[pidx(w as int, p.0 as int, p.1 as int)] == lb[pidx(w as int, p.0 as int, p.1 as int)]);
                }
            }
        }
        if pos4.0 == curr.0 && pos4.1 == curr.1 && pos3.0 == pos1.0 && pos3.1 == pos1.1 {
            proof {
                assert(trace_from(pixels@, w as int, h as int, curr, pos1, pos2, pos3, fuel) == seq![pos3]);
                assert(points@ =~= full);
                lemma_not_isolated(pixels@, w as int, h as int, curr, pos1);
                assert(points@.last() == pos3);
                if points.len() == 1 {
                    assert(before.len() == 0);
                }
            }
            return points;
        }
        proof {
            lemma_link_extend(pixels@, w as int, h as int, curr, pos3, pos4);
            if fuel == 0 {
                assert(trace_from(pixels@, w as int, h as int, curr, pos1, pos2, pos3, fuel) == seq![pos3]);
                assert(points@ =~= full);
            } else {
                let rest = trace_from(pixels@, w as int, h as int, curr, pos1, pos3, pos4, (fuel - 1) as nat);
                assert(trace_from(pixels@, w as int, h as int, curr, pos1, pos2, pos3, fuel) == seq![pos3] + rest);
                assert(points@ + rest =~= before + (seq![pos3] + rest));
            }
        }
        pos2 = pos3;
        pos3 = pos4;
        if points.len() > max_points {
            proof {
                lemma_not_isolated(pixels@, w as int, h as int, curr, pos1);
            }
            return points;
        }
    }
}

/// Search direction of the background side a border starting at `s`
/// enters from: west for an outer border, east for a hole border.
pub open spec fn start_dir(px: Seq<u8>, w: int, h: int, cs: Seq<Vec<(i32, i32)>>, s: (i32, i32)) -> int {
    if outer_start(px, w, h, cs, s) {
        0
    } else {
        4
    }
}

/// The labels of foreground pixels other than `s` changed from `old` to
/// `new` as the border `c` relabels them: a visited pixel is no longer
/// unvisited (1), and a pixel visited as a right-edge pixel turns negative.
pub open spec fn relabelled(
    px: Seq<u8>,
    w: int,
    h: int,
    old: Seq<i32>,
    new: Seq<i32>,
    c: Seq<(i32, i32)>,
    s: (i32, i32),
) -> bool {
    forall|p: (i32, i32)|
        #[trigger] fg_at(px, w, h, p) && p != s ==> ((new[pidx(w, p.0 as int, p.1 as int)] == 1) == (old[pidx(
            w,
            p.0 as int,
            p.1 as int,
        )] == 1 && !c.contains(p))) && ((new[pidx(w, p.0 as int, p.1 as int)] > 0) == (old[pidx(
            w,
            p.0 as int,
            p.1 as int,
        )] > 0 && !edge_tail(px, w, h, c, p)))
}

/// The scan invariants carry over one pixel `c` (at raster position `b`):
/// either nothing happens there, or the border started at `c` is appended
/// and relabels the pixels it visits.
#[verifier::rlimit(60)]
#[verifier::spinoff_prover]
proof fn lemma_scan_step(
    px: Seq<u8>,
    w: int,
    h: int,
    cs_b: Seq<Vec<(i32, i32)>>,
    cs: Seq<Vec<(i32, i32)>>,
    lb: Seq<i32>,
    lbl: Seq<i32>,
    c: (i32, i32),
    b: int,
    is_outer: bool,
    is_hole: bool,
)
    requires
        0 <= c.0 < w,
        0 <= c.1 < h,
        raster(w, c) == b,
        is_outer == outer_start(px, w, h, cs_b, c),
        is_hole == hole_start(px, w, h, cs_b, c),
        forall|i: int| 0 <= i < cs_b.len() ==> raster(w, (#[trigger] cs_b[i])@[0]) < b,
        forall|p: (i32, i32)|
            #[trigger] fg_at(px, w, h, p) && raster(w, p) >= b ==> (lb[pidx(w, p.0 as int, p.1 as int)] == 1)
                == !visited_before(w, cs_b, p),
        forall|p: (i32, i32)|
            #[trigger] fg_at(px, w, h, p) && raster(w, p) >= b ==> (lb[pidx(w, p.0 as int, p.1 as int)] > 0)
                == !edge_marked_before(px, w, h, cs_b, p),
        forall|i: int|
            0 <= i < cs_b.len() ==> outer_start(px, w, h, cs_b, (#[trigger] cs_b[i])@[0]) || hole_start(
                px,
                w,
                h,
                cs_b,
                cs_b[i]@[0],
            ),
        forall|p: (i32, i32)|
            #[trigger] outer_start(px, w, h, cs_b, p) && raster(w, p) < b ==> starts_border(cs_b, p),
        forall|p: (i32, i32)|
            #[trigger] hole_start(px, w, h, cs_b, p) && raster(w, p) < b ==> starts_border(cs_b, p),
        forall|i: int|
            0 <= i < cs_b.len() ==> (#[trigger] cs_b[i])@ == border_from(
                px,
                w,
                h,
                cs_b[i]@[0],
                start_dir(px, w, h, cs_b, cs_b[i]@[0]),
            ),
        (is_outer || is_hole) ==> {
            &&& cs.len() == cs_b.len() + 1
            &&& cs == cs_b.push(cs[cs_b.len() as int])
            &&& cs[cs_b.len() as int]@[0] == c
            &&& relabelled(px, w, h, lb, lbl, cs[cs_b.len() as int]@, c)
            &&& cs[cs_b.len() as int]@ == border_from(px, w, h, c, if is_outer { 0int } else { 4int })
        },
        !(is_outer || is_hole) ==> cs == cs_b && lbl == lb,
    ensures
        forall|p: (i32, i32)|
            #[trigger] fg_at(px, w, h, p) && raster(w, p) >= b + 1 ==> (lbl[pidx(w, p.0 as int, p.1 as int)] == 1)
                == !visited_before(w, cs, p),
        forall|p: (i32, i32)|
            #[trigger] fg_at(px, w, h, p) && raster(w, p) >= b + 1 ==> (lbl[pidx(w, p.0 as int, p.1 as int)] > 0)
                == !edge_marked_before(px, w, h, cs, p),
        forall|i: int|
            0 <= i < cs.len() ==> outer_start(px, w, h, cs, (#[trigger] cs[i])@[0]) || hole_start(px, w, h, cs, cs[i]@[0]),
        forall|p: (i32, i32)| #[trigger] outer_start(px, w, h, cs, p) && raster(w, p) < b + 1 ==> starts_border(cs, p),
        forall|p: (i32, i32)| #[trigger] hole_start(px, w, h, cs, p) && raster(w, p) < b + 1 ==> starts_border(cs, p),
        forall|i: int|
            0 <= i < cs.len() ==> (#[trigger] cs[i])@ == border_from(
                px,
                w,
                h,
                cs[i]@[0],
                start_dir(px, w, h, cs, cs[i]@[0]),
            ),
{
    let pushed = is_outer || is_hole;
    let n = cs_b.len() as int;
    assert forall|q: (i32, i32)| raster(w, q) <= b implies visited_before(w, cs, q) == visited_before(w, cs_b, q)
        && edge_marked_before(px, w, h, cs, q) == edge_marked_before(px, w, h, cs_b, q) by {
        if pushed {
            lemma_borders_push(px, w, h, cs_b, cs[n], q);
        }
    }
    assert forall|p: (i32, i32)| #[trigger] fg_at(px, w, h, p) && raster(w, p) >= b + 1 implies (lbl[pidx(
        w,
        p.0 as int,
        p.1 as int,
    )] == 1) == !visited_before(w, cs, p) && (lbl[pidx(w, p.0 as int, p.1 as int)] > 0) == !edge_marked_before(
        px,
        w,
        h,
        cs,
        p,
    ) by {
        assert(p != c);
        if pushed {
            lemma_borders_push(px, w, h, cs_b, cs[n], p);
        }
    }
    assert forall|i: int| 0 <= i < cs.len() implies outer_start(px, w, h, cs, (#[trigger] cs[i])@[0]) || hole_start(
        px,
        w,
        h,
        cs,
        cs[i]@[0],
    ) by {
        if i < n {
            assert(cs[i] == cs_b[i]);
            assert(raster(w, cs_b[i]@[0]) <= b);
        } else {
            assert(cs[i]@[0] == c);
        }
    }
    assert forall|i: int| 0 <= i < cs.len() implies (#[trigger] cs[i])@ == border_from(
        px,
        w,
        h,
        cs[i]@[0],
        start_dir(px, w, h, cs, cs[i]@[0]),
    ) by {
        if i < n {
            assert(cs[i] == cs_b[i]);
            assert(raster(w, cs_b[i]@[0]) <= b);
        } else {
            assert(cs[i]@[0] == c);
        }
    }
    assert forall|p: (i32, i32)| #[trigger] outer_start(px, w, h, cs, p) && raster(w, p) < b + 1 implies starts_border(
        cs,
        p,
    ) by {
        if pushed {
            lemma_borders_push(px, w, h, cs_b, cs[n], p);
        }
        assert(outer_start(px, w, h, cs_b, p));
        if raster(w, p) < b {
            let i = choose|i: int| 0 <= i < cs_b.len() && (#[trigger] cs_b[i])@[0] == p;
            assert(cs[i] == cs_b[i]);
        } else {
            lemma_index_inj(w, p.0 as int, p.1 as int, c.0 as int, c.1 as int);
            assert(p == c);
            assert(cs[n]@[0] == p);
        }
    }
    assert forall|p: (i32, i32)| #[trigger] hole_start(px, w, h, cs, p) && raster(w, p) < b + 1 implies starts_border(
        cs,
        p,
    ) by {
        if pushed {
            lemma_borders_push(px, w, h, cs_b, cs[n], p);
        }
        assert(hole_start(px, w, h, cs_b, p));
        if raster(w, p) < b {
            let i = choose|i: int| 0 <= i < cs_b.len() && (#[trigger] cs_b[i])@[0] == p;
            assert(cs[i] == cs_b[i]);
        } else {
            lemma_index_inj(w, p.0 as int, p.1 as int, c.0 as int, c.1 as int);
            assert(p == c);
            assert(cs[n]@[0] == p);
        }
    }
}

/// Some border starts at `p`.
pub open spec fn starts_border(contours: Seq<Vec<(i32, i32)>>, p: (i32, i32)) -> bool {
    exists|i: int| 0 <= i < contours.len() && (#[trigger] contours[i])@[0] == p
}

/// Some border is exactly the single pixel `p`.
pub open spec fn reported_alone(contours: Seq<Vec<(i32, i32)>>, p: (i32, i32)) -> bool {
    exists|i: int| 0 <= i < contours.len() && (#[trigger] contours[i])@ == seq![p]
}

/// Traces every border of the foreground (non-zero) regions of the `w x h`
/// row-major image `pixels`, in raster order of the border starts: an outer
/// border starts at each foreground pixel with background to its left that no
/// earlier border passes through (`outer_start`), a hole border at each other
/// foreground pixel with background to its right that no earlier border
/// visited as a right-edge pixel (`hole_start`); these are exactly the starts.
/// Each border is the ordered list of its pixels, followed from its start
/// by the rule of `trace_from` (see `traced_border`). The first pixel of every
/// 8-connected foreground component starts a border, unless it lies in the
/// first column with foreground to its right; a foreground pixel without
/// foreground neighbours is a border of its own, and in an image at least two
/// pixels wide every such pixel is reported so.
#[verifier::rlimit(80)]
#[verifier::spinoff_prover]
pub fn for_each_contour(pixels: &[u8], w: usize, h: usize) -> (contours: Vec<Vec<(i32, i32)>>)
    requires
        pixels.len() == w * h,
        w < i32::MAX,
        h < i32::MAX,
        w * h + 2 <= i32::MAX,
        (w + 2) * (h + 2) <= usize::MAX,
    ensures
        forall|i: int| 0 <= i < contours.len() ==> contour_ok(#[trigger] contours@[i]@, pixels@, w as int, h as int),
        forall|i: int| 0 <= i < contours.len() ==> traced_border(pixels@, w as int, h as int, #[trigger] contours@[i]@),
        forall|i: int|
            0 <= i < contours.len() ==> border_start(pixels@, w as int, h as int, (#[trigger] contours@[i])@[0]),
        forall|i: int, j: int|
            0 <= i < j < contours.len() ==> raster(w as int, (#[trigger] contours@[i])@[0]) < raster(
                w as int,
                (#[trigger] contours@[j])@[0],
            ),
        w >= 2 ==> forall|p: (i32, i32)|
            #[trigger] lone(pixels@, w as int, h as int, p) ==> reported_alone(contours@, p),
        forall|p: (i32, i32)| #[trigger] owes_border(pixels@, w as int, h as int, p) ==> starts_border(contours@, p),
        forall|i: int|
            0 <= i < contours.len() ==> outer_start(pixels@, w as int, h as int, contours@, (#[trigger] contours@[i])@[0])
                || hole_start(pixels@, w as int, h as int, contours@, contours@[i]@[0]),
        forall|p: (i32, i32)| #[trigger] outer_start(pixels@, w as int, h as int, contours@, p) ==> starts_border(contours@, p),
        forall|p: (i32, i32)| #[trigger] hole_start(pixels@, w as int, h as int, contours@, p) ==> starts_border(contours@, p),
        forall|i: int|
            0 <= i < contours.len() ==> (#[trigger] contours@[i])@ == border_from(
                pixels@,
                w as int,
                h as int,
                contours@[i]@[0],
                start_dir(pixels@, w as int, h as int, contours@, contours@[i]@[0]),
            ),
{
    let mut contours: Vec<Vec<(i32, i32)>> = Vec::new();
    if w == 0 || h == 0 {
        return contours;
    }
    let mut lbl = binarize(pixels, w, h);
    assert forall|p: (i32, i32)| #[trigger] lone(pixels@, w as int, h as int, p) && raster(w as int, p) >= 0 implies lbl@[pidx(
        w as int,
        p.0 as int,
        p.1 as int,
    )] == 1 by {
        lemma_pidx(w as int, h as int, p.0 as int, p.1 as int);
    }
    assert forall|p: (i32, i32)| #[trigger] component_first(pixels@, w as int, h as int, p) && raster(w as int, p) >= 0 implies lbl@[pidx(
        w as int,
        p.0 as int,
        p.1 as int,
    )] == 1 by {
        lemma_pidx(w as int, h as int, p.0 as int, p.1 as int);
    }
    assert forall|p: (i32, i32)| #[trigger] fg_at(pixels@, w as int, h as int, p) implies lbl@[pidx(
        w as int,
        p.0 as int,
        p.1 as int,
    )] == 1 by {
        lemma_pidx(w as int, h as int, p.0 as int, p.1 as int);
    }
    let mut nbd: i32 = 1;
    let mut y: usize = 0;
    let ghost mut row: int = 0;
    while y < h
        invariant
            pixels.len() == w * h,
            w < i32::MAX,
            h < i32::MAX,
            w * h + 2 <= i32::MAX,
            (w + 2) * (h + 2) <= usize::MAX,
            0 < w,
            y <= h,
            row == y * w,
            labels_match(lbl@, pixels@, w as int, h as int),
            nbd == 1 + contours.len(),
            contours.len() <= row,
            forall|i: int| 0 <= i < contours.len() ==> contour_ok(#[trigger] contours@[i]@, pixels@, w as int, h as int),
            forall|i: int| 0 <= i < contours.len() ==> traced_border(pixels@, w as int, h as int, #[trigger] contours@[i]@),
            forall|i: int|
                0 <= i < contours.len() ==> border_start(pixels@, w as int, h as int, (#[trigger] contours@[i])@[0]),
            forall|i: int| 0 <= i < contours.len() ==> raster(w as int, (#[trigger] contours@[i])@[0]) < row,
            forall|p: (i32, i32)|
                #[trigger] fg_at(pixels@, w as int, h as int, p) && raster(w as int, p) >= row ==> (lbl@[pidx(
                    w as int,
                    p.0 as int,
                    p.1 as int,
                )] == 1) == !visited_before(w as int, contours@, p),
            forall|p: (i32, i32)|
                #[trigger] fg_at(pixels@, w as int, h as int, p) && raster(w as int, p) >= row ==> (lbl@[pidx(
                    w as int,
                    p.0 as int,
                    p.1 as int,
                )] > 0) == !edge_marked_before(pixels@, w as int, h as int, contours@, p),
            forall|i: int|
                0 <= i < contours.len() ==> outer_start(pixels@, w as int, h as int, contours@, (#[trigger] contours@[i])@[0])
                    || hole_start(pixels@, w as int, h as int, contours@, contours@[i]@[0]),
            forall|p: (i32, i32)|
                #[trigger] outer_start(pixels@, w as int, h as int, contours@, p) && raster(w as int, p) < row ==> starts_border(contours@, p),
            forall|p: (i32, i32)|
                #[trigger] hole_start(pixels@, w as int, h as int, contours@, p) && raster(w as int, p) < row ==> starts_border(contours@, p),
            forall|i: int|
                0 <= i < contours.len() ==> (#[trigger] contours@[i])@ == border_from(
                    pixels@,
                    w as int,
                    h as int,
                    contours@[i]@[0],
                    start_dir(pixels@, w as int, h as int, contours@, contours@[i]@[0]),
                ),
            lbl@.len() == (w + 2) * (h + 2),
            forall|p: (i32, i32)|
                #[trigger] lone(pixels@, w as int, h as int, p) && raster(w as int, p) >= row ==> lbl@[pidx(
                    w as int,
                    p.0 as int,
                    p.1 as int,
                )] == 1,
            w >= 2 ==> forall|p: (i32, i32)|
                #[trigger] lone(pixels@, w as int, h as int, p) && raster(w as int, p) < row ==> reported_alone(
                    contours@,
                    p,
                ),
            forall|p: (i32, i32)|
                #[trigger] component_first(pixels@, w as int, h as int, p) && raster(w as int, p) >= row ==> lbl@[pidx(
                    w as int,
                    p.0 as int,
                    p.1 as int,
                )] == 1,
            forall|p: (i32, i32)|
                #[trigger] owes_border(pixels@, w as int, h as int, p) && raster(w as int, p) < row ==> starts_border(
                    contours@,
                    p,
                ),
            forall|i: int, j: int|
                0 <= i < j < contours.len() ==> raster(w as int, (#[trigger] contours@[i])@[0]) < raster(
                    w as int,
                    (#[trigger] contours@[j])@[0],
                ),
        decreases h - y,
    {
        let mut x: usize = 0;
        while x < w
            invariant
                pixels.len() == w * h,
                w < i32::MAX,
                h < i32::MAX,
                w * h + 2 <= i32::MAX,
                (w + 2) * (h + 2) <= usize::MAX,
                0 < w,
                y < h,
                x <= w,
                row == y * w,
                labels_match(lbl@, pixels@, w as int, h as int),
                nbd == 1 + contours.len(),
                contours.len() <= row + x,
                forall|i: int|
                    0 <= i < contours.len() ==> contour_ok(#[trigger] contours@[i]@, pixels@, w as int, h as int),
                forall|i: int|
                    0 <= i < contours.len() ==> traced_border(pixels@, w as int, h as int, #[trigger] contours@[i]@),
                forall|i: int|
                    0 <= i < contours.len() ==> border_start(
                        pixels@,
                        w as int,
                        h as int,
                        (#[trigger] contours@[i])@[0],
                    ),
                forall|i: int| 0 <= i < contours.len() ==> raster(w as int, (#[trigger] contours@[i])@[0]) < row + x,
    forall|p: (i32, i32)|
                    #[trigger] fg_at(pixels@, w as int, h as int, p) && raster(w as int, p) >= row + x ==> (lbl@[pidx(
                        w as int,
                        p.0 as int,
                        p.1 as int,
                    )] == 1) == !visited_before(w as int, contours@, p),
                forall|p: (i32, i32)|
                    #[trigger] fg_at(pixels@, w as int, h as int, p) && raster(w as int, p) >= row + x ==> (lbl@[pidx(
                        w as int,
                        p.0 as int,
                        p.1 as int,
                    )] > 0) == !edge_marked_before(pixels@, w as int, h as int, contours@, p),
                forall|i: int|
                    0 <= i < contours.len() ==> outer_start(pixels@, w as int, h as int, contours@, (#[trigger] contours@[i])@[0])
                        || hole_start(pixels@, w as int, h as int, contours@, contours@[i]@[0]),
                forall|p: (i32, i32)|
                    #[trigger] outer_start(pixels@, w as int, h as int, contours@, p) && raster(w as int, p) < row + x ==> starts_border(contours@, p),
                forall|p: (i32, i32)|
                    #[trigger] hole_start(pixels@, w as int, h as int, contours@, p) && raster(w as int, p) < row + x ==> starts_border(contours@, p),
                forall|i: int|
                    0 <= i < contours.len() ==> (#[trigger] contours@[i])@ == border_from(
                        pixels@,
                        w as int,
                        h as int,
                        contours@[i]@[0],
                        start_dir(pixels@, w as int, h as int, contours@, contours@[i]@[0]),
                    ),
                lbl@.len() == (w + 2) * (h + 2),
                forall|p: (i32, i32)|
                    #[trigger] lone(pixels@, w as int, h as int, p) && raster(w as int, p) >= row + x ==> lbl@[pidx(
                        w as int,
                        p.0 as int,
                        p.1 as int,
                    )] == 1,
                w >= 2 ==> forall|p: (i32, i32)|
                    #[trigger] lone(pixels@, w as int, h as int, p) && raster(w as int, p) < row + x ==> reported_alone(
                        contours@,
                        p,
                    ),
                forall|p: (i32, i32)|
                    #[trigger] component_first(pixels@, w as int, h as int, p) && raster(w as int, p) >= row + x ==> lbl@[pidx(
                        w as int,
                        p.0 as int,
                        p.1 as int,
                    )] == 1,
                forall|p: (i32, i32)|
                    #[trigger] owes_border(pixels@, w as int, h as int, p) && raster(w as int, p) < row + x ==> starts_border(
                        contours@,
                        p,
                    ),
                forall|i: int, j: int|
                    0 <= i < j < contours.len() ==> raster(w as int, (#[trigger] contours@[i])@[0]) < raster(
                        w as int,
                        (#[trigger] contours@[j])@[0],
                    ),
            decreases w - x,
        {
            proof {
                crate::imgproc::lemma_row_major(y as int, x as int, w as int, h as int);
            }
            let xi = x as i32;
            let yi = y as i32;
            let ghost c = (xi, yi);
            let ghost lbl_b = lbl@;
            let ghost cs_b = contours@;
            let v = label(&lbl, w, h, xi, yi);
            let ghost is_outer = outer_start(pixels@, w as int, h as int, cs_b, c);
            let ghost is_hole = hole_start(pixels@, w as int, h as int, cs_b, c);
            proof {
                lemma_pidx(w as int, h as int, x as int, y as int);
                assert(raster(w as int, c) == row + x);
                if fg_at(pixels@, w as int, h as int, c) {
                    assert((v == 1) == !visited_before(w as int, cs_b, c));
                    assert((v > 0) == !edge_marked_before(pixels@, w as int, h as int, cs_b, c));
                }
                if x > 0 {
                    lemma_pidx(w as int, h as int, x - 1, y as int);
                }
                if x + 1 < w {
                    lemma_pidx(w as int, h as int, x + 1, y as int);
                }
                if lone(pixels@, w as int, h as int, c) {
                    assert(raster(w as int, c) == row + x);
                    assert(v == 1);
                    assert(dir_dx(0) == -1 && dir_dy(0) == 0 && dir_dx(4) == 1 && dir_dy(4) == 0);
                    assert(!pix_fg(pixels@, w as int, h as int, x - 1, y as int));
                    assert(!pix_fg(pixels@, w as int, h as int, x + 1, y as int));
                    if x > 0 {
                        lemma_pidx(w as int, h as int, x - 1, y as int);
                    }
                    if x + 1 < w {
                        lemma_pidx(w as int, h as int, x + 1, y as int);
                    }
                }
                if owes_border(pixels@, w as int, h as int, c) {
                    assert(raster(w as int, c) == row + x);
                    assert(v == 1);
                    if x > 0 {
                        lemma_pidx(w as int, h as int, x - 1, y as int);
                        let l = ((x - 1) as i32, y as i32);
                        if pix_fg(pixels@, w as int, h as int, x - 1, y as int) {
                            lemma_link_self(pixels@, w as int, h as int, l);
                            lemma_link_extend(pixels@, w as int, h as int, l, l, c);
                            assert(raster(w as int, c) <= raster(w as int, l));
                        }
                    } else {
                        lemma_pidx(w as int, h as int, x + 1, y as int);
                    }
                }
            }
            if v != 0 {
                let adj: Option<i32> = if v == 1 && x > 0 && label(&lbl, w, h, xi - 1, yi) == 0 {
                    Some(-1)
                } else if v > 0 && x + 1 < w && label(&lbl, w, h, xi + 1, yi) == 0 {
                    Some(1)
                } else {
                    None
                };
                if let Some(ax) = adj {
                    nbd = nbd + 1;
                    let d0 = dir_index((ax, 0));
                    let curr = (xi, yi);
                    let ghost before = contours@;
                    let points = match first_fg_cw(&lbl, pixels, w, h, curr, d0) {
                        None => {
                            proof {
                                lemma_write_keeps_match(lbl@, pixels@, w as int, h as int, x as int, y as int, (-nbd) as i32);
                            }
                            set_label(&mut lbl, w, h, xi, yi, -nbd);
                            let mut single: Vec<(i32, i32)> = Vec::new();
                            single.push(curr);
                            proof {
                                assert forall|p: (i32, i32)| #[trigger] fg_at(pixels@, w as int, h as int, p) && p != c implies ((
                                lbl@[pidx(w as int, p.0 as int, p.1 as int)] == 1) == (lbl_b[pidx(
                                    w as int,
                                    p.0 as int,
                                    p.1 as int,
                                )] == 1 && !single@.contains(p))) && ((lbl@[pidx(w as int, p.0 as int, p.1 as int)] > 0)
                                    == (lbl_b[pidx(w as int, p.0 as int, p.1 as int)] > 0 && !edge_tail(
                                    pixels@,
                                    w as int,
                                    h as int,
                                    single@,
                                    p,
                                ))) by {
                                    lemma_pidx(w as int, h as int, p.0 as int, p.1 as int);
                                    if pidx(w as int, p.0 as int, p.1 as int) == pidx(w as int, x as int, y as int) {
                                        lemma_pidx_inj(w as int, p.0 as int, p.1 as int, x as int, y as int);
                                    }
                                    if single@.contains(p) {
                                        let k = choose|k: int| 0 <= k < single@.len() && single@[k] == p;
                                        assert(k == 0);
                                    }
                                }
                                assert(relabelled(pixels@, w as int, h as int, lbl_b, lbl@, single@, c));
                            }
                            single
                        },
                        Some(pos1) => {
                            proof {
                                if lone(pixels@, w as int, h as int, c) {
                                    lemma_not_isolated(pixels@, w as int, h as int, curr, pos1);
                                }
                            }
                            let pts = trace_border(&mut lbl, pixels, w, h, curr, pos1, nbd);
                            proof {
                                assert forall|p: (i32, i32)| #[trigger] fg_at(pixels@, w as int, h as int, p) && p != c implies ((
                                lbl@[pidx(w as int, p.0 as int, p.1 as int)] == 1) == (lbl_b[pidx(
                                    w as int,
                                    p.0 as int,
                                    p.1 as int,
                                )] == 1 && !pts@.contains(p))) && ((lbl@[pidx(w as int, p.0 as int, p.1 as int)] > 0)
                                    == (lbl_b[pidx(w as int, p.0 as int, p.1 as int)] > 0 && !edge_tail(
                                    pixels@,
                                    w as int,
                                    h as int,
                                    pts@,
                                    p,
                                ))) by {
                                    lemma_edge_in_tail(pixels@, w as int, h as int, pts@, pos1, p);
                                }
                                assert(relabelled(pixels@, w as int, h as int, lbl_b, lbl@, pts@, c));
                            }
                            pts
                        },
                    };
                    assert(lone(pixels@, w as int, h as int, c) ==> points@ == seq![curr]);
                    assert(points@[0] == curr);
                    proof {
                        let dd = d0 as int;
                        if ax == -1 {
                            lemma_pidx(w as int, h as int, x - 1, y as int);
                        } else {
                            lemma_pidx(w as int, h as int, x + 1, y as int);
                        }
                        assert((dd == 0 && curr.0 > 0) || (dd == 4 && curr.0 + 1 < w));
                        assert(!pix_fg(pixels@, w as int, h as int, curr.0 + dir_dx(dd), curr.1 + dir_dy(dd)));
                        assert(match cw_from(pixels@, w as int, h as int, curr, dd, 0) {
                            None => points@ == seq![curr],
                            Some(q) => points@ == trace_from(
                                pixels@,
                                w as int,
                                h as int,
                                curr,
                                q,
                                q,
                                curr,
                                (w * h + 1) as nat,
                            ),
                        });
                        assert(traced_border(pixels@, w as int, h as int, points@));
                        assert(dd == if is_outer { 0int } else { 4int });
                        assert(points@ == border_from(pixels@, w as int, h as int, c, dd));
                    }
                    assert(border_start(pixels@, w as int, h as int, points@[0]));
                    assert(raster(w as int, points@[0]) == row + x);
                    contours.push(points);
                    assert forall|i: int| 0 <= i < contours.len() - 1 implies contours@[i] == before[i] by {}
                    assert(contours@ == cs_b.push(contours@[cs_b.len() as int]));
                    assert(relabelled(pixels@, w as int, h as int, lbl_b, lbl@, contours@[cs_b.len() as int]@, c));
                    assert(contours@[cs_b.len() as int]@ == border_from(
                        pixels@,
                        w as int,
                        h as int,
                        c,
                        if is_outer { 0int } else { 4int },
                    ));
                }
            }
            proof {
                assert((contours@.len() == cs_b.len() + 1) == (is_outer || is_hole));
                assert(!(is_outer || is_hole) ==> contours@ == cs_b && lbl@ == lbl_b);
                lemma_scan_step(pixels@, w as int, h as int, cs_b, contours@, lbl_b, lbl@, c, row + x, is_outer, is_hole);
                assert(lone(pixels@, w as int, h as int, c) && w >= 2 ==> contours@.len() == cs_b.len() + 1
                    && contours@.last()@ == seq![c]);
                assert(contours@.len() >= cs_b.len());
                assert(forall|i: int| 0 <= i < cs_b.len() ==> contours@[i] == cs_b[i]);
                lemma_pidx(w as int, h as int, x as int, y as int);
                assert forall|p: (i32, i32)| #[trigger] lone(pixels@, w as int, h as int, p) && p != c implies lbl@[pidx(
                    w as int,
                    p.0 as int,
                    p.1 as int,
                )] == lbl_b[pidx(w as int, p.0 as int, p.1 as int)] by {
                    lemma_pidx(w as int, h as int, p.0 as int, p.1 as int);
                    if pidx(w as int, p.0 as int, p.1 as int) == pidx(w as int, x as int, y as int) {
                        lemma_pidx_inj(w as int, p.0 as int, p.1 as int, x as int, y as int);
                    }
                }
                assert forall|p: (i32, i32)| #[trigger] lone(pixels@, w as int, h as int, p) && raster(w as int, p) >= row
                    + x + 1 implies lbl@[pidx(w as int, p.0 as int, p.1 as int)] == 1 by {
                    assert(p != c);
                }
                assert(owes_border(pixels@, w as int, h as int, c) ==> contours@.len() == cs_b.len() + 1
                    && contours@.last()@[0] == c);
                assert forall|p: (i32, i32)| #[trigger] component_first(pixels@, w as int, h as int, p) && raster(
                    w as int,
                    p,
                ) >= row + x + 1 implies lbl@[pidx(w as int, p.0 as int, p.1 as int)] == 1 by {
                    assert(p != c);
                    lemma_pidx(w as int, h as int, p.0 as int, p.1 as int);
                    if fg_linked(pixels@, w as int, h as int, c, p) {
                        assert(raster(w as int, p) <= raster(w as int, c));
                    }
                    if pidx(w as int, p.0 as int, p.1 as int) == pidx(w as int, x as int, y as int) {
                        lemma_pidx_inj(w as int, p.0 as int, p.1 as int, x as int, y as int);
                    }
                    assert(lbl_b[pidx(w as int, p.0 as int, p.1 as int)] == 1);
                }
                assert forall|p: (i32, i32)| #[trigger] owes_border(pixels@, w as int, h as int, p) && raster(w as int, p)
                    < row + x + 1 implies starts_border(contours@, p) by {
                    if raster(w as int, p) < row + x {
                        let i = choose|i: int| 0 <= i < cs_b.len() && (#[trigger] cs_b[i])@[0] == p;
                        assert(contours@[i] == cs_b[i]);
                    } else {
                        lemma_index_inj(w as int, p.0 as int, p.1 as int, x as int, y as int);
                        assert(p == c);
                        assert(contours@[contours.len() - 1]@[0] == p);
                    }
                }
                if w >= 2 {
                    assert forall|p: (i32, i32)| #[trigger] lone(pixels@, w as int, h as int, p) && raster(w as int, p)
                        < row + x + 1 implies reported_alone(contours@, p) by {
                        if raster(w as int, p) < row + x {
                            let i = choose|i: int| 0 <= i < cs_b.len() && (#[trigger] cs_b[i])@ == seq![p];
                            assert(contours@[i] == cs_b[i]);
                        } else {
                            lemma_index_inj(w as int, p.0 as int, p.1 as int, x as int, y as int);
                            assert(p == c);
                            assert(contours@[contours.len() - 1]@ == seq![p]);
                        }
                    }
                }
            }
            x = x + 1;
        }
        proof {
            assert((y + 1) * w == y * w + w) by (nonlinear_arith);
            row = row + w;
        }
        y = y + 1;
    }
    proof {
        assert(w * h == h * w) by (nonlinear_arith);
        assert forall|p: (i32, i32)| #[trigger] lone(pixels@, w as int, h as int, p) implies raster(w as int, p) < row by {
            crate::imgproc::lemma_row_major(p.1 as int, p.0 as int, w as int, h as int);
        }
        assert forall|p: (i32, i32)| #[trigger] owes_border(pixels@, w as int, h as int, p) implies raster(w as int, p) < row by {
            crate::imgproc::lemma_row_major(p.1 as int, p.0 as int, w as int, h as int);
        }
        assert forall|p: (i32, i32)| #[trigger] outer_start(pixels@, w as int, h as int, contours@, p) implies raster(w as int, p) < row by {
            crate::imgproc::lemma_row_major(p.1 as int, p.0 as int, w as int, h as int);
        }
        assert forall|p: (i32, i32)| #[trigger] hole_start(pixels@, w as int, h as int, contours@, p) implies raster(w as int, p) < row by {
            crate::imgproc::lemma_row_major(p.1 as int, p.0 as int, w as int, h as int);
        }
    }
    contours
}

} // verus!
