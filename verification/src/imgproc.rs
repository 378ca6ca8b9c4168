//! Integer image-processing primitives of the detector: Otsu's threshold, the
//! adaptive mean threshold that writes the padded foreground label buffer the
//! contour tracer walks, and the layout of an incoming image array.

use vstd::prelude::*;

verus! {

/// Number of pixels whose value is at most `t`.
pub open spec fn count_le(s: Seq<u8>, t: int) -> int
    decreases s.len(),
{
    if s.len() == 0 {
        0
    } else {
        count_le(s.drop_last(), t) + (if s.last() as int <= t {
            1int
        } else {
            0int
        })
    }
}

/// Total value of the pixels whose value is at most `t`.
pub open spec fn sum_le(s: Seq<u8>, t: int) -> int
    decreases s.len(),
{
    if s.len() == 0 {
        0
    } else {
        sum_le(s.drop_last(), t) + (if s.last() as int <= t {
            s.last() as int
        } else {
            0int
        })
    }
}

/// Number of pixels whose value is exactly `v`.
pub open spec fn count_eq(s: Seq<u8>, v: int) -> int
    decreases s.len(),
{
    if s.len() == 0 {
        0
    } else {
        count_eq(s.drop_last(), v) + (if s.last() as int == v {
            1int
        } else {
            0int
        })
    }
}

/// Splitting at `t` (background `<= t`, foreground `> t`) leaves both classes non-empty.
pub open spec fn split_valid(s: Seq<u8>, t: int) -> bool {
    0 < count_le(s, t) < s.len()
}

/// `sb * wf - sf * wb` for the split at `t`, where `wb`/`wf` are the class sizes
/// and `sb`/`sf` the class sums. The between-class variance of the split is
/// `between_num(s, t)^2 / between_den(s, t)`.
pub open spec fn between_num(s: Seq<u8>, t: int) -> int {
    let wb = count_le(s, t);
    let wf = s.len() - wb;
    let sb = sum_le(s, t);
    let sf = sum_le(s, 255) - sb;
    sb * wf - sf * wb
}

/// `wb * wf` for the split at `t`.
pub open spec fn between_den(s: Seq<u8>, t: int) -> int {
    count_le(s, t) * (s.len() - count_le(s, t))
}

/// The split at `t` has strictly larger between-class variance than the split at `u`.
pub open spec fn split_better(s: Seq<u8>, t: int, u: int) -> bool {
    between_num(s, t) * between_num(s, t) * between_den(s, u) > between_num(s, u) * between_num(
        s,
        u,
    ) * between_den(s, t)
}

/// `level` is Otsu's threshold of `s`: the first split of maximal between-class
/// variance among the splits that leave both classes non-empty, or 0 when no
/// split does.
pub open spec fn is_otsu_level(s: Seq<u8>, level: int) -> bool {
    if exists|t: int| 0 <= t < 256 && split_valid(s, t) {
        &&& 0 <= level < 256
        &&& split_valid(s, level)
        &&& forall|t: int| 0 <= t < 256 && split_valid(s, t) ==> !split_better(s, t, level)
        &&& forall|t: int| 0 <= t < level && split_valid(s, t) ==> split_better(s, level, t)
    } else {
        level == 0
    }
}

/// Otsu's level is well defined: an image has exactly one.
pub proof fn lemma_otsu_level_unique(s: Seq<u8>, a: int, b: int)
    requires
        is_otsu_level(s, a),
        is_otsu_level(s, b),
    ensures
        a == b,
{
    if exists|t: int| 0 <= t < 256 && split_valid(s, t) {
        if a < b {
            assert(split_better(s, b, a));
            assert(!split_better(s, b, a));
        } else if b < a {
            assert(split_better(s, a, b));
            assert(!split_better(s, a, b));
        }
    }
}

proof fn lemma_counts_step(s: Seq<u8>, t: int)
    ensures
        count_le(s, t) == count_le(s, t - 1) + count_eq(s, t),
        sum_le(s, t) == sum_le(s, t - 1) + t * count_eq(s, t),
    decreases s.len(),
{
    if s.len() > 0 {
        lemma_counts_step(s.drop_last(), t);
        let c = count_eq(s.drop_last(), t);
        assert(t * (c + 1) == t * c + t) by (nonlinear_arith);
    }
}

proof fn lemma_counts_bounds(s: Seq<u8>, t: int)
    ensures
        count_le(s, -1) == 0,
        sum_le(s, -1) == 0,
        count_le(s, 255) == s.len(),
        0 <= count_eq(s, t) <= count_le(s, 255),
        0 <= count_le(s, t) <= s.len(),
        0 <= sum_le(s, t) <= 255 * count_le(s, t),
        0 <= sum_le(s, 255) - sum_le(s, t) <= 255 * (s.len() - count_le(s, t)),
    decreases s.len(),
{
    if s.len() > 0 {
        lemma_counts_bounds(s.drop_last(), t);
    }
}

/// `d^2 == q * p + r` for the integer and fractional parts of `d^2 / p`.
proof fn lemma_square_div(d: int, p: int, aq: int, ar: int, q: int, r: int)
    requires
        p > 0,
        d == aq * p + ar,
        q == aq * aq * p + 2 * aq * ar + (ar * ar) / p,
        r == (ar * ar) % p,
    ensures
        d * d == q * p + r,
{
    let k = (ar * ar) / p;
    assert(ar * ar == k * p + r) by (nonlinear_arith)
        requires
            p > 0,
            k == (ar * ar) / p,
            r == (ar * ar) % p,
    ;
    assert(d * d == (aq * aq * p + 2 * aq * ar + k) * p + r) by (nonlinear_arith)
        requires
            d == aq * p + ar,
            ar * ar == k * p + r,
    ;
}

/// Comparing `d1^2 / p1` with `d2^2 / p2` through their integer and fractional parts.
proof fn lemma_compare_ratios(d1: int, p1: int, q1: int, r1: int, d2: int, p2: int, q2: int, r2: int)
    requires
        p1 > 0,
        p2 > 0,
        d1 * d1 == q1 * p1 + r1,
        d2 * d2 == q2 * p2 + r2,
        0 <= r1 < p1,
        0 <= r2 < p2,
    ensures
        (d1 * d1 * p2 > d2 * d2 * p1) <==> (q1 > q2 || (q1 == q2 && r1 * p2 > r2 * p1)),
{
    let diff = d1 * d1 * p2 - d2 * d2 * p1;
    assert(diff == (q1 - q2) * (p1 * p2) + (r1 * p2 - r2 * p1)) by (nonlinear_arith)
        requires
            d1 * d1 == q1 * p1 + r1,
            d2 * d2 == q2 * p2 + r2,
            diff == d1 * d1 * p2 - d2 * d2 * p1,
    ;
    assert(r2 * p1 < p2 * p1) by (nonlinear_arith)
        requires
            0 <= r2 < p2,
            p1 > 0,
    ;
    assert(r1 * p2 < p1 * p2) by (nonlinear_arith)
        requires
            0 <= r1 < p1,
            p2 > 0,
    ;
    assert(0 <= r1 * p2) by (nonlinear_arith)
        requires
            0 <= r1,
            p2 > 0,
    ;
    assert(0 <= r2 * p1) by (nonlinear_arith)
        requires
            0 <= r2,
            p1 > 0,
    ;
    assert(p1 * p2 == p2 * p1) by (nonlinear_arith);
    assert(p1 * p2 > 0) by (nonlinear_arith)
        requires
            p1 > 0,
            p2 > 0,
    ;
    if q1 > q2 {
        assert((q1 - q2) * (p1 * p2) >= p1 * p2) by (nonlinear_arith)
            requires
                q1 - q2 >= 1,
                p1 * p2 > 0,
        ;
        assert(diff > 0);
    } else if q1 < q2 {
        assert((q1 - q2) * (p1 * p2) <= -(p1 * p2)) by (nonlinear_arith)
            requires
                q1 - q2 <= -1,
                p1 * p2 > 0,
        ;
        assert(diff < 0);
    } else {
        assert((q1 - q2) * (p1 * p2) == 0) by (nonlinear_arith)
            requires
                q1 == q2,
        ;
        assert(diff == r1 * p2 - r2 * p1);
    }
}

/// Ratio comparison is transitive: `a/pa <= b/pb < c/pc` gives `a/pa < c/pc`.
proof fn lemma_ratio_trans(a: int, pa: int, b: int, pb: int, c: int, pc: int)
    requires
        pa > 0,
        pb > 0,
        pc > 0,
        a * pb <= b * pa,
        b * pc < c * pb,
    ensures
        a * pc < c * pa,
{
    assert(a * pb * pc <= b * pa * pc) by (nonlinear_arith)
        requires
            a * pb <= b * pa,
            pc > 0,
    ;
    assert(b * pc * pa < c * pb * pa) by (nonlinear_arith)
        requires
            b * pc < c * pb,
            pa > 0,
    ;
    assert((a * pc) * pb < (c * pa) * pb) by (nonlinear_arith)
        requires
            a * pb * pc <= b * pa * pc,
            b * pc * pa < c * pb * pa,
    ;
    assert(a * pc < c * pa) by (nonlinear_arith)
        requires
            (a * pc) * pb < (c * pa) * pb,
            pb > 0,
    ;
}

proof fn lemma_split_trans(s: Seq<u8>, u: int, b: int, t: int)
    requires
        split_valid(s, u),
        split_valid(s, b),
        split_valid(s, t),
        !split_better(s, u, b),
        split_better(s, t, b),
    ensures
        split_better(s, t, u),
{
    lemma_den_pos(s, u);
    lemma_den_pos(s, b);
    lemma_den_pos(s, t);
    lemma_ratio_trans(
        between_num(s, u) * between_num(s, u),
        between_den(s, u),
        between_num(s, b) * between_num(s, b),
        between_den(s, b),
        between_num(s, t) * between_num(s, t),
        between_den(s, t),
    );
}

proof fn lemma_den_pos(s: Seq<u8>, t: int)
    requires
        split_valid(s, t),
    ensures
        between_den(s, t) > 0,
{
    let wb = count_le(s, t);
    let wf = s.len() - wb;
    assert(wb * wf > 0) by (nonlinear_arith)
        requires
            wb > 0,
            wf > 0,
    ;
}

/// Otsu's threshold over a grayscale buffer (0..=255 histogram): the level that
/// maximises the between-class variance, ties going to the lowest level.
/// Class comparisons are exact; counts are held in 64 bits.
pub fn otsu_level(pixels: &[u8]) -> (level: u8)
    requires
        pixels@.len() <= u32::MAX,
    ensures
        is_otsu_level(pixels@, level as int),
{
    let ghost s = pixels@;
    let n = pixels.len();
    let mut hist: Vec<u64> = Vec::new();
    let mut v: usize = 0;
    while v < 256
        invariant
            v <= 256,
            hist@.len() == v,
            forall|k: int| 0 <= k < v ==> hist@[k] == 0,
        decreases 256 - v,
    {
        hist.push(0u64);
        v = v + 1;
    }
    let mut i: usize = 0;
    while i < n
        invariant
            i <= n,
            n == s.len(),
            n <= u32::MAX,
            hist@.len() == 256,
            s == pixels@,
            forall|k: int| 0 <= k < 256 ==> #[trigger] hist@[k] == count_eq(s.take(i as int), k),
            forall|k: int| 0 <= k < 256 ==> #[trigger] hist@[k] <= i,
        decreases n - i,
    {
        let ghost h0 = hist@;
        let p = pixels[i] as usize;
        let c = hist[p] + 1;
        hist.set(p, c);
        proof {
            let s1 = s.take(i as int + 1);
            assert(s1.drop_last() =~= s.take(i as int));
            assert(s1.last() == s[i as int]);
            assert forall|k: int| 0 <= k < 256 implies #[trigger] hist@[k] == count_eq(s1, k)
                && hist@[k] <= i + 1 by {
                assert(h0[k] == count_eq(s.take(i as int), k));
                assert(h0[k] <= i);
            }
        }
        i = i + 1;
    }
    proof {
        assert(s.take(n as int) =~= s);
    }
    let total: u64 = n as u64;
    // Running class sizes and sums below each candidate level.
    let mut wb: u64 = 0;
    let mut sb: u64 = 0;
    let mut sum: u64 = 0;
    let mut t: usize = 0;
    proof {
        lemma_counts_bounds(s, 0);
    }
    while t < 256
        invariant
            t <= 256,
            hist@.len() == 256,
            n == s.len(),
            n <= u32::MAX,
            forall|k: int| 0 <= k < 256 ==> #[trigger] hist@[k] == count_eq(s, k),
            sum == sum_le(s, t - 1),
        decreases 256 - t,
    {
        proof {
            lemma_counts_step(s, t as int);
            lemma_counts_bounds(s, t as int);
            lemma_counts_bounds(s, 255);
            assert(sum_le(s, t as int) <= sum_le(s, 255));
        }
        sum = sum + (t as u64) * hist[t];
        t = t + 1;
    }
    proof {
        lemma_counts_bounds(s, 255);
    }
    let mut found = false;
    let mut best: u8 = 0;
    let mut best_q: u128 = 0;
    let mut best_r: u128 = 0;
    let mut best_p: u128 = 1;
    t = 0;
    while t < 256
        invariant
            t <= 256,
            hist@.len() == 256,
            n == s.len(),
            n <= u32::MAX,
            total == n,
            forall|k: int| 0 <= k < 256 ==> #[trigger] hist@[k] == count_eq(s, k),
            sum == sum_le(s, 255),
            wb == count_le(s, t - 1),
            sb == sum_le(s, t - 1),
            !found ==> best == 0,
            0 < best_p <= 0x1_0000_0000 * 0x1_0000_0000,
            !found ==> forall|u: int| 0 <= u < t ==> !split_valid(s, u),
            found ==> {
                &&& best < t
                &&& split_valid(s, best as int)
                &&& best_p == between_den(s, best as int)
                &&& between_num(s, best as int) * between_num(s, best as int) == best_q * best_p
                    + best_r
                &&& best_r < best_p
                &&& forall|u: int| 0 <= u < t && split_valid(s, u) ==> !split_better(s, u, best as int)
                &&& forall|u: int|
                    0 <= u < best && split_valid(s, u) ==> split_better(s, best as int, u)
            },
        decreases 256 - t,
    {
        proof {
            lemma_counts_step(s, t as int);
            lemma_counts_bounds(s, t as int);
            lemma_counts_bounds(s, 255);
        }
        wb = wb + hist[t];
        sb = sb + (t as u64) * hist[t];
        if wb != 0 && wb != total {
            let wf: u64 = total - wb;
            let sf: u64 = sum - sb;
            proof {
                assert((sb as u128) * (wf as u128) <= 0xffff_ffff_ffff_ffff * 0xffff_ffff_ffff_ffff)
                    by (nonlinear_arith)
                    requires
                        sb <= 0xffff_ffff_ffff_ffffu64,
                        wf <= 0xffff_ffff_ffff_ffffu64,
                ;
                assert((sf as u128) * (wb as u128) <= 0xffff_ffff_ffff_ffff * 0xffff_ffff_ffff_ffff)
                    by (nonlinear_arith)
                    requires
                        sf <= 0xffff_ffff_ffff_ffffu64,
                        wb <= 0xffff_ffff_ffff_ffffu64,
                ;
                assert((wb as u128) * (wf as u128) <= 0xffff_ffff_ffff_ffff * 0xffff_ffff_ffff_ffff)
                    by (nonlinear_arith)
                    requires
                        wf <= 0xffff_ffff_ffff_ffffu64,
                        wb <= 0xffff_ffff_ffff_ffffu64,
                ;
            }
            let pos: u128 = (sb as u128) * (wf as u128);
            let neg: u128 = (sf as u128) * (wb as u128);
            let p: u128 = (wb as u128) * (wf as u128);
            proof {
                let wbi = wb as int;
                let wfi = wf as int;
                assert(pos <= 255 * p) by (nonlinear_arith)
                    requires
                        pos == sb * wf,
                        p == wb * wf,
                        sb <= 255 * wb,
                        wf >= 0,
                ;
                assert(neg <= 255 * p) by (nonlinear_arith)
                    requires
                        neg == sf * wb,
                        p == wb * wf,
                        sf <= 255 * wf,
                        wb >= 0,
                ;
                assert(p <= 0x1_0000_0000 * 0x1_0000_0000) by (nonlinear_arith)
                    requires
                        p == wbi * wfi,
                        0 < wbi <= 0x1_0000_0000,
                        0 < wfi <= 0x1_0000_0000,
                ;
                assert(p > 0) by (nonlinear_arith)
                    requires
                        p == wbi * wfi,
                        0 < wbi,
                        0 < wfi,
                ;
            }
            let d: u128 = if pos >= neg {
                pos - neg
            } else {
                neg - pos
            };
            let aq: u128 = d / p;
            let ar: u128 = d % p;
            proof {
                assert(aq <= 255) by (nonlinear_arith)
                    requires
                        d <= 255 * p,
                        p > 0,
                        aq == d / p,
                ;
                assert(ar * ar < p * p) by (nonlinear_arith)
                    requires
                        0 <= ar < p,
                ;
                assert(p * p <= 0x1_0000_0000_0000_0000 * 0x1_0000_0000_0000_0000) by (
                nonlinear_arith)
                    requires
                        0 < p <= 0x1_0000_0000 * 0x1_0000_0000,
                ;
                assert(aq * aq * p <= 65025 * p) by (nonlinear_arith)
                    requires
                        aq <= 255,
                        p > 0,
                ;
                assert(2 * aq * ar <= 510 * p) by (nonlinear_arith)
                    requires
                        aq <= 255,
                        ar < p,
                ;
            }
            proof {
                assert(aq * aq <= 65025) by (nonlinear_arith)
                    requires
                        aq <= 255,
                ;
                assert((ar as int * ar as int) / (p as int) <= p as int) by (nonlinear_arith)
                    requires
                        ar * ar < p * p,
                        p > 0,
                ;
            }
            let sq: u128 = ar * ar;
            let q: u128 = aq * aq * p + 2 * aq * ar + sq / p;
            let r: u128 = sq % p;
            proof {
                assert(d == aq * p + ar) by (nonlinear_arith)
                    requires
                        p > 0,
                        aq == d / p,
                        ar == d % p,
                ;
                lemma_square_div(d as int, p as int, aq as int, ar as int, q as int, r as int);
                assert(between_num(s, t as int) == pos - neg);
                assert(between_den(s, t as int) == p);
                assert(between_num(s, t as int) * between_num(s, t as int) == d * d) by (
                nonlinear_arith)
                    requires
                        between_num(s, t as int) == pos - neg,
                        d == (if pos >= neg {
                            pos - neg
                        } else {
                            neg - pos
                        }),
                ;
                assert(split_valid(s, t as int));
            }
            proof {
                assert(r * best_p < 0x1_0000_0000_0000_0000 * 0x1_0000_0000_0000_0000) by (
                nonlinear_arith)
                    requires
                        0 <= r < p,
                        0 < p <= 0x1_0000_0000 * 0x1_0000_0000,
                        best_p <= 0x1_0000_0000 * 0x1_0000_0000,
                ;
                if found {
                    assert(best_r * p < 0x1_0000_0000_0000_0000 * 0x1_0000_0000_0000_0000) by (
                    nonlinear_arith)
                        requires
                            0 <= best_r < best_p,
                            0 < p <= 0x1_0000_0000 * 0x1_0000_0000,
                            best_p <= 0x1_0000_0000 * 0x1_0000_0000,
                    ;
                }
            }
            let better = if !found {
                true
            } else {
                q > best_q || (q == best_q && r * best_p > best_r * p)
            };
            proof {
                assert(r * best_p < 0x1_0000_0000_0000_0000 * 0x1_0000_0000_0000_0000) by (
                nonlinear_arith)
                    requires
                        0 <= r < p,
                        0 < p <= 0x1_0000_0000 * 0x1_0000_0000,
                        best_p <= 0x1_0000_0000 * 0x1_0000_0000,
                ;
                if found {
                    lemma_compare_ratios(
                        between_num(s, t as int),
                        p as int,
                        q as int,
                        r as int,
                        between_num(s, best as int),
                        best_p as int,
                        best_q as int,
                        best_r as int,
                    );
                    lemma_compare_ratios(
                        between_num(s, best as int),
                        best_p as int,
                        best_q as int,
                        best_r as int,
                        between_num(s, t as int),
                        p as int,
                        q as int,
                        r as int,
                    );
                }
            }
            let ghost old_found = found;
            let ghost old_best = best as int;
            proof {
                if better {
                    assert forall|u: int| 0 <= u < t + 1 && split_valid(s, u) implies !split_better(
                        s,
                        u,
                        t as int,
                    ) by {
                        if u < t {
                            lemma_split_trans(s, u, old_best, t as int);
                            lemma_den_pos(s, u);
                            lemma_den_pos(s, t as int);
                        }
                    }
                    assert forall|u: int| 0 <= u < t && split_valid(s, u) implies split_better(
                        s,
                        t as int,
                        u,
                    ) by {
                        if u == old_best {
                        } else if u < old_best {
                            lemma_den_pos(s, u);
                            lemma_den_pos(s, old_best);
                            lemma_den_pos(s, t as int);
                            lemma_ratio_trans(
                                between_num(s, u) * between_num(s, u),
                                between_den(s, u),
                                between_num(s, old_best) * between_num(s, old_best),
                                between_den(s, old_best),
                                between_num(s, t as int) * between_num(s, t as int),
                                between_den(s, t as int),
                            );
                        } else {
                            lemma_split_trans(s, u, old_best, t as int);
                        }
                    }
                }
            }
            if better {
                found = true;
                best = t as u8;
                best_q = q;
                best_r = r;
                best_p = p;
            }
        }
        t = t + 1;
    }
    proof {
        if exists|u: int| 0 <= u < 256 && split_valid(s, u) {
            assert(found);
        }
    }
    best
}

} // verus!

verus! {

/// Sum of the column `x` over the rows `y0..y1` of a row-major `w`-wide image.
pub open spec fn col_sum(px: Seq<u8>, w: int, x: int, y0: int, y1: int) -> int
    decreases y1 - y0,
{
    if y1 <= y0 {
        0
    } else {
        col_sum(px, w, x, y0, y1 - 1) + px[(y1 - 1) * w + x] as int
    }
}

/// Sum of the pixels in columns `x0..x1` and rows `y0..y1`.
pub open spec fn window_sum(px: Seq<u8>, w: int, x0: int, x1: int, y0: int, y1: int) -> int
    decreases x1 - x0,
{
    if x1 <= x0 {
        0
    } else {
        window_sum(px, w, x0, x1 - 1, y0, y1) + col_sum(px, w, x1 - 1, y0, y1)
    }
}

/// Half-size of the mean window actually used for a requested window size:
/// at least 3, and odd.
pub open spec fn threshold_radius(win: u32) -> int {
    let a: int = if win < 3 {
        3
    } else {
        win as int
    };
    let b: int = if a % 2 == 0 {
        a + 1
    } else {
        a
    };
    b / 2
}

/// The mean window for a requested size `win` spans `2 r + 1` pixels per
/// side, `r = threshold_radius(win)`: the requested size raised to at least
/// 3, then to the next odd number.
pub proof fn lemma_threshold_window(win: u32)
    ensures
        2 * threshold_radius(win) + 1 == if win < 3 {
            3
        } else if win % 2 == 0 {
            win + 1
        } else {
            win as int
        },
{
}

/// Pixel `(x, y)` is foreground when it is at most the mean of its window
/// (clamped to the image) minus `c`, in exact integer form:
/// not `2 * sum + area < 2 * area * (value + c)`.
pub open spec fn adaptive_fg(px: Seq<u8>, w: int, h: int, r: int, c: int, x: int, y: int) -> bool {
    let x0 = if x - r < 0 {
        0
    } else {
        x - r
    };
    let x1 = if x + r > w - 1 {
        w
    } else {
        x + r + 1
    };
    let y0 = if y - r < 0 {
        0
    } else {
        y - r
    };
    let y1 = if y + r > h - 1 {
        h
    } else {
        y + r + 1
    };
    let area = (x1 - x0) * (y1 - y0);
    let sum = window_sum(px, w, x0, x1, y0, y1);
    !(2 * sum + area < 2 * area * (px[y * w + x] as int + c))
}

/// Label at padded position `(px_, py)` of the `(w + 2) x (h + 2)` buffer: the
/// one-pixel ring is background, interior pixels are foreground per `adaptive_fg`.
pub open spec fn adaptive_label(
    px: Seq<u8>,
    w: int,
    h: int,
    r: int,
    c: int,
    x: int,
    y: int,
) -> i8 {
    if 1 <= x <= w && 1 <= y <= h && adaptive_fg(px, w, h, r, c, x - 1, y - 1) {
        crate::contours::FG
    } else {
        0
    }
}

proof fn lemma_col_sum_drop_top(px: Seq<u8>, w: int, x: int, y0: int, y1: int)
    requires
        y0 < y1,
    ensures
        col_sum(px, w, x, y0 + 1, y1) == col_sum(px, w, x, y0, y1) - px[y0 * w + x] as int,
    decreases y1 - y0,
{
    if y1 - 1 > y0 {
        lemma_col_sum_drop_top(px, w, x, y0, y1 - 1);
    } else {
        assert(col_sum(px, w, x, y0, y0) == 0);
        assert(col_sum(px, w, x, y0 + 1, y1) == 0);
    }
}

proof fn lemma_col_sum_bounds(px: Seq<u8>, w: int, x: int, y0: int, y1: int)
    requires
        y0 <= y1,
    ensures
        0 <= col_sum(px, w, x, y0, y1) <= 255 * (y1 - y0),
    decreases y1 - y0,
{
    if y1 > y0 {
        lemma_col_sum_bounds(px, w, x, y0, y1 - 1);
    }
}

proof fn lemma_window_sum_bounds(px: Seq<u8>, w: int, x0: int, x1: int, y0: int, y1: int)
    requires
        x0 <= x1,
        y0 <= y1,
    ensures
        0 <= window_sum(px, w, x0, x1, y0, y1) <= 255 * ((x1 - x0) * (y1 - y0)),
    decreases x1 - x0,
{
    if x1 > x0 {
        lemma_window_sum_bounds(px, w, x0, x1 - 1, y0, y1);
        lemma_col_sum_bounds(px, w, x1 - 1, y0, y1);
        assert((x1 - 1 - x0) * (y1 - y0) + (y1 - y0) == (x1 - x0) * (y1 - y0)) by (nonlinear_arith);
    }
}

proof fn lemma_window_sum_split(px: Seq<u8>, w: int, x0: int, x1: int, y0: int, y1: int)
    requires
        0 <= x0 <= x1,
    ensures
        window_sum(px, w, x0, x1, y0, y1) == window_sum(px, w, 0, x1, y0, y1) - window_sum(
            px,
            w,
            0,
            x0,
            y0,
            y1,
        ),
    decreases x1 - x0,
{
    if x1 > x0 {
        lemma_window_sum_split(px, w, x0, x1 - 1, y0, y1);
    }
}

/// A cell of an earlier row comes earlier in row-major order.
proof fn lemma_row_major_order(yy: int, xx: int, y: int, x: int, w: int)
    requires
        0 <= xx < w,
        0 <= x,
        0 <= yy < y,
    ensures
        yy * w + xx < y * w + x,
{
    assert(yy * w + w <= y * w) by (nonlinear_arith)
        requires
            yy + 1 <= y,
            0 <= w,
    ;
}

/// The foreground mask of a `w x h` image held in the padded label layout
/// (stride `w + 2`, one ring of padding): 255 where the label is non-zero,
/// 0 elsewhere, in row-major order.
pub fn labels_to_mask(labels: &[i8], w: usize, h: usize) -> (mask: Vec<u8>)
    requires
        labels.len() == (w + 2) * (h + 2),
        (w + 2) * (h + 2) <= usize::MAX,
    ensures
        mask.len() == w * h,
        forall|x: int, y: int|
            0 <= x < w && 0 <= y < h ==> #[trigger] mask@[y * w + x] == if labels@[(y + 1) * (w + 2) + x + 1] != 0 {
                255u8
            } else {
                0u8
            },
{
    proof {
        assert(w + 2 <= (w + 2) * (h + 2)) by (nonlinear_arith)
            requires
                0 <= w,
                0 <= h,
        ;
    }
    let stride = w + 2;
    let mut mask: Vec<u8> = Vec::new();
    let mut y: usize = 0;
    while y < h
        invariant
            y <= h,
            stride == w + 2,
            labels.len() == (w + 2) * (h + 2),
            (w + 2) * (h + 2) <= usize::MAX,
            mask.len() == y * w,
            forall|xx: int, yy: int|
                0 <= xx < w && 0 <= yy < y ==> #[trigger] mask@[yy * w + xx] == if labels@[(yy + 1) * (w + 2) + xx + 1]
                    != 0 {
                    255u8
                } else {
                    0u8
                },
        decreases h - y,
    {
        let mut x: usize = 0;
        while x < w
            invariant
                y < h,
                x <= w,
                stride == w + 2,
                labels.len() == (w + 2) * (h + 2),
                (w + 2) * (h + 2) <= usize::MAX,
                mask.len() == y * w + x,
                forall|xx: int, yy: int|
                    0 <= xx < w && 0 <= yy < y ==> #[trigger] mask@[yy * w + xx] == if labels@[(yy + 1) * (w + 2) + xx
                        + 1] != 0 {
                        255u8
                    } else {
                        0u8
                    },
                forall|xx: int|
                    0 <= xx < x ==> #[trigger] mask@[y * w + xx] == if labels@[(y + 1) * (w + 2) + xx + 1] != 0 {
                        255u8
                    } else {
                        0u8
                    },
            decreases w - x,
        {
            proof {
                lemma_padded_index(y + 1, x + 1, w + 2, h + 2);
            }
            let i = (y + 1) * stride + x + 1;
            let ghost m0 = mask@;
            if labels[i] != 0 {
                mask.push(255u8);
            } else {
                mask.push(0u8);
            }
            proof {
                assert forall|xx: int, yy: int| 0 <= xx < w && 0 <= yy < y implies #[trigger] mask@[yy * w + xx]
                    == m0[yy * w + xx] by {
                    lemma_row_major_order(yy, xx, y as int, x as int, w as int);
                    assert(0 <= yy * w) by (nonlinear_arith)
                        requires
                            0 <= yy,
                            0 <= w,
                    ;
                }
            }
            x = x + 1;
        }
        proof {
            assert((y + 1) * w == y * w + w) by (nonlinear_arith);
            assert forall|xx: int, yy: int| 0 <= xx < w && 0 <= yy < y + 1 implies #[trigger] mask@[yy * w + xx]
                == if labels@[(yy + 1) * (w + 2) + xx + 1] != 0 {
                255u8
            } else {
                0u8
            } by {
                if yy == y {
                    assert(mask@[y * w + xx] == mask@[yy * w + xx]);
                }
            }
        }
        y = y + 1;
    }
    assert(h * w == w * h) by (nonlinear_arith);
    mask
}

pub(crate) proof fn lemma_row_major(y: int, x: int, w: int, h: int)
    requires
        0 <= y < h,
        0 <= x < w,
    ensures
        0 <= y * w + x < w * h,
        y * w + w <= w * h,
{
    assert(0 <= y * w) by (nonlinear_arith)
        requires
            0 <= y,
            0 <= w,
    ;
    assert(y * w + w <= w * h) by (nonlinear_arith)
        requires
            y + 1 <= h,
            0 <= w,
    ;
}

/// Positions of the padded buffer: row `yy` starts at `yy * stride`.
pub(crate) proof fn lemma_padded_index(yy: int, xx: int, stride: int, rows: int)
    requires
        0 <= yy < rows,
        0 <= xx < stride,
    ensures
        0 <= yy * stride + xx < rows * stride,
        yy * stride + xx < (yy + 1) * stride,
        (yy + 1) * stride == yy * stride + stride,
{
    assert(0 <= yy * stride) by (nonlinear_arith)
        requires
            0 <= yy,
            0 <= stride,
    ;
    assert((yy + 1) * stride == yy * stride + stride) by (nonlinear_arith);
    assert((yy + 1) * stride <= rows * stride) by (nonlinear_arith)
        requires
            yy + 1 <= rows,
            0 <= stride,
    ;
}

/// Adds row `bot` to the column sums of rows `top..bot`.
fn add_window_row(colsum: &mut Vec<i64>, src: &[u8], w: usize, h: usize, top: usize, bot: usize)
    requires
        src@.len() == w * h,
        w * h <= usize::MAX,
        255 * (w * h) <= i64::MAX,
        top <= bot < h,
        old(colsum)@.len() == w,
        forall|x: int| 0 <= x < w ==> #[trigger] old(colsum)@[x] == col_sum(src@, w as int, x, top as int, bot as int),
    ensures
        final(colsum)@.len() == w,
        forall|x: int| 0 <= x < w ==> #[trigger] final(colsum)@[x] == col_sum(src@, w as int, x, top as int, bot as int + 1),
{
    let ghost px = src@;
    let mut x: usize = 0;
    while x < w
        invariant
            x <= w,
            top <= bot < h,
            px == src@,
            src@.len() == w * h,
            w * h <= usize::MAX,
            255 * (w * h) <= i64::MAX,
            colsum@.len() == w,
            forall|z: int| 0 <= z < x ==> #[trigger] colsum@[z] == col_sum(px, w as int, z, top as int, bot as int + 1),
            forall|z: int| x <= z < w ==> #[trigger] colsum@[z] == col_sum(px, w as int, z, top as int, bot as int),
        decreases w - x,
    {
        proof {
            lemma_row_major(bot as int, x as int, w as int, h as int);
            lemma_col_sum_bounds(px, w as int, x as int, top as int, bot as int + 1);
            assert(h <= w * h) by (nonlinear_arith) requires x < w, h >= 0;
        }
        let v = colsum[x] + src[bot * w + x] as i64;
        colsum.set(x, v);
        x = x + 1;
    }
}

/// Removes row `top` from the column sums of rows `top..bot`.
fn drop_window_row(colsum: &mut Vec<i64>, src: &[u8], w: usize, h: usize, top: usize, bot: usize)
    requires
        src@.len() == w * h,
        w * h <= usize::MAX,
        255 * (w * h) <= i64::MAX,
        top < bot <= h,
        old(colsum)@.len() == w,
        forall|x: int| 0 <= x < w ==> #[trigger] old(colsum)@[x] == col_sum(src@, w as int, x, top as int, bot as int),
    ensures
        final(colsum)@.len() == w,
        forall|x: int| 0 <= x < w ==> #[trigger] final(colsum)@[x] == col_sum(src@, w as int, x, top as int + 1, bot as int),
{
    let ghost px = src@;
    let mut x: usize = 0;
    while x < w
        invariant
            x <= w,
            top < bot <= h,
            px == src@,
            src@.len() == w * h,
            w * h <= usize::MAX,
            255 * (w * h) <= i64::MAX,
            colsum@.len() == w,
            forall|z: int| 0 <= z < x ==> #[trigger] colsum@[z] == col_sum(px, w as int, z, top as int + 1, bot as int),
            forall|z: int| x <= z < w ==> #[trigger] colsum@[z] == col_sum(px, w as int, z, top as int, bot as int),
        decreases w - x,
    {
        proof {
            lemma_row_major(top as int, x as int, w as int, h as int);
            lemma_col_sum_drop_top(px, w as int, x as int, top as int, bot as int);
            lemma_col_sum_bounds(px, w as int, x as int, top as int, bot as int);
            assert(h <= w * h) by (nonlinear_arith) requires x < w, h >= 0;
        }
        let v = colsum[x] - src[top * w + x] as i64;
        colsum.set(x, v);
        x = x + 1;
    }
}

/// Prefix sums across the column sums: `hpre[k]` is the window over columns `0..k`.
fn window_prefix(hpre: &mut Vec<i64>, colsum: &Vec<i64>, src: &[u8], w: usize, h: usize, top: usize, bot: usize)
    requires
        src@.len() == w * h,
        255 * (w * h) <= i64::MAX,
        top <= bot <= h,
        old(hpre)@.len() == w + 1,
        colsum@.len() == w,
        forall|x: int| 0 <= x < w ==> #[trigger] colsum@[x] == col_sum(src@, w as int, x, top as int, bot as int),
    ensures
        final(hpre)@.len() == w + 1,
        forall|z: int| 0 <= z <= w ==> #[trigger] final(hpre)@[z] == window_sum(src@, w as int, 0, z, top as int, bot as int),
{
    let ghost px = src@;
    let ghost span = bot - top;
    hpre.set(0, 0);
    let mut x: usize = 0;
    while x < w
        invariant
            x <= w,
            top <= bot <= h,
            span == bot - top,
            px == src@,
            src@.len() == w * h,
            255 * (w * h) <= i64::MAX,
            hpre@.len() == w + 1,
            colsum@.len() == w,
            forall|x: int| 0 <= x < w ==> #[trigger] colsum@[x] == col_sum(px, w as int, x, top as int, bot as int),
            forall|z: int| 0 <= z <= x ==> #[trigger] hpre@[z] == window_sum(px, w as int, 0, z, top as int, bot as int),
        decreases w - x,
    {
        proof {
            lemma_window_sum_bounds(px, w as int, 0, x as int + 1, top as int, bot as int);
            lemma_col_sum_bounds(px, w as int, x as int, top as int, bot as int);
            lemma_window_sum_bounds(px, w as int, 0, x as int, top as int, bot as int);
            assert((x as int + 1) * (span as int) <= w * h) by (nonlinear_arith)
                requires x + 1 <= w, span <= h, span >= 0, x >= 0;
        }
        let v = hpre[x] + colsum[x];
        hpre.set(x + 1, v);
        x = x + 1;
    }
}

/// Threshold decision of pixel `(x, y)` against the window `x0..x1` x `top..bot`.
fn threshold_pixel(hpre: &Vec<i64>, src: &[u8], w: usize, h: usize, radius: usize, c: i32, top: usize, bot: usize, x: usize, y: usize) -> (label: i8)
    requires
        src@.len() == w * h,
        w * h <= usize::MAX,
        255 * (w * h) <= i64::MAX,
        x < w,
        y < h,
        top as int == (if y as int - radius < 0 { 0 } else { y as int - radius }),
        bot as int == (if y as int + radius > h - 1 { h as int } else { y as int + radius + 1 }),
        hpre@.len() == w + 1,
        forall|z: int| 0 <= z <= w ==> #[trigger] hpre@[z] == window_sum(src@, w as int, 0, z, top as int, bot as int),
    ensures
        label == (if adaptive_fg(src@, w as int, h as int, radius as int, c as int, x as int, y as int) {
            crate::contours::FG
        } else {
            0
        }),
{
    let ghost px = src@;
    let x0: usize = if x >= radius {
        x - radius
    } else {
        0
    };
    let x1: usize = if radius >= w - x {
        w
    } else {
        x + radius + 1
    };
    let span: usize = bot - top;
    proof {
        lemma_window_sum_split(px, w as int, x0 as int, x1 as int, top as int, bot as int);
        lemma_window_sum_bounds(px, w as int, x0 as int, x1 as int, top as int, bot as int);
        lemma_window_sum_bounds(px, w as int, 0, x1 as int, top as int, bot as int);
        lemma_window_sum_bounds(px, w as int, 0, x0 as int, top as int, bot as int);
        lemma_row_major(y as int, x as int, w as int, h as int);
        assert((x1 - x0) * span <= w * h) by (nonlinear_arith)
            requires x1 - x0 <= w, span <= h, span >= 0, x1 >= x0;
        assert((x1 - x0) * span >= 0) by (nonlinear_arith)
            requires span >= 0, x1 >= x0;
        assert((x1 as int - x0 as int) * span as int <= 255 * ((x1 as int - x0 as int) * span as int)) by (nonlinear_arith)
            requires (x1 - x0) * span >= 0;
    }
    let sum: i64 = hpre[x1] - hpre[x0];
    let area: usize = (x1 - x0) * span;
    let v: i32 = src[y * w + x] as i32;
    proof {
        assert(2 * (area as int) * (v as int + c as int) <= 2 * (w * h) * 0x1_0000_0000) by (nonlinear_arith)
            requires area <= w * h, area >= 0, -0x8000_0000 <= c, c <= 0x7fff_ffff, 0 <= v <= 255;
        assert(2 * (area as int) * (v as int + c as int) >= -2 * (w * h) * 0x1_0000_0000) by (nonlinear_arith)
            requires area <= w * h, area >= 0, -0x8000_0000 <= c, c <= 0x7fff_ffff, 0 <= v <= 255;
        assert(2 * (area as int) <= 2 * (w * h)) ;
    }
    let lhs: i128 = 2 * (sum as i128) + area as i128;
    let a2: i128 = 2 * (area as i128);
    let rhs: i128 = a2 * ((v as i128) + (c as i128));
    if lhs < rhs {
        0
    } else {
        crate::contours::FG
    }
}

/// Adaptive mean threshold (window mean minus `c`, foreground at or below it)
/// fused with the contour tracer's label layout: a zero ring around a
/// `w x h` image, row stride `w + 2`, `FG` on foreground pixels.
/// The window mean uses the window clamped to the image; the comparison is
/// made exactly in integers.
#[verifier::loop_isolation(false)]
pub fn adaptive_threshold_labels(src: &[u8], w: usize, h: usize, win: u32, c: i32) -> (lbl: Vec<
    i8,
>)
    requires
        src@.len() == w * h,
        h > 0,
        (w + 2) * (h + 2) <= usize::MAX,
        255 * (w * h) <= i64::MAX,
    ensures
        lbl@.len() == (w + 2) * (h + 2),
        2 * threshold_radius(win) + 1 == if win < 3 {
            3
        } else if win % 2 == 0 {
            win + 1
        } else {
            win as int
        },
        forall|y: int, x: int|
            0 <= y < h + 2 && 0 <= x < w + 2 ==> lbl@[y * (w + 2) + x] == #[trigger] adaptive_label(
                src@,
                w as int,
                h as int,
                threshold_radius(win),
                c as int,
                x,
                y,
            ),
{
    let ghost px = src@;
    let ghost wi = w as int;
    let ghost hi = h as int;
    let ghost win0 = win;
    let mut win = win;
    if win < 3 {
        win = 3;
    }
    if win % 2 == 0 {
        win = win + 1;
    }
    let radius = (win / 2) as usize;
    let ghost r = radius as int;
    assert(r == threshold_radius(win0));
    let ghost ci = c as int;
    proof {
        assert(w + 2 <= (w + 2) * (h + 2)) by (nonlinear_arith)
            requires
                h + 2 >= 1,
        ;
        assert(w * h <= (w + 2) * (h + 2)) by (nonlinear_arith);
    }
    let stride = w + 2;
    let ghost st = stride as int;
    let ghost rows = hi + 2;
    let mut lbl: Vec<i8> = Vec::new();
    let mut k: usize = 0;
    while k < stride
        invariant
            k <= stride,
            lbl@.len() == k,
            forall|xx: int| 0 <= xx < k ==> lbl@[xx] == #[trigger] adaptive_label(px, wi, hi, r, ci, xx, 0),
        decreases stride - k,
    {
        lbl.push(0i8);
        k = k + 1;
    }
    let mut colsum: Vec<i64> = Vec::new();
    k = 0;
    while k < w
        invariant
            k <= w,
            colsum@.len() == k,
            forall|x: int| 0 <= x < k ==> colsum@[x] == 0,
        decreases w - k,
    {
        colsum.push(0i64);
        k = k + 1;
    }
    let mut hpre: Vec<i64> = Vec::new();
    k = 0;
    while k <= w
        invariant
            k <= w + 1,
            hpre@.len() == k,
        decreases w + 1 - k,
    {
        hpre.push(0i64);
        k = k + 1;
    }
    // Window rows are cur_top..cur_bot; colsum holds their column sums.
    let mut cur_top: usize = 0;
    let mut cur_bot: usize = 0;
    let mut y: usize = 0;
    while y < h
        invariant
            y <= h,
            src@.len() == w * h,
            255 * (w * h) <= i64::MAX,
            stride == w + 2,
            st == stride,
            rows == h + 2,
            r == radius,
            lbl@.len() == (y + 1) * stride,
            forall|yy: int, xx: int|
                0 <= yy < y + 1 && 0 <= xx < stride ==> lbl@[yy * st + xx]
                    == #[trigger] adaptive_label(px, wi, hi, r, ci, xx, yy),
            colsum@.len() == w,
            hpre@.len() == w + 1,
            cur_top <= cur_bot <= h,
            cur_top as int <= (if y as int - r < 0 {
                0
            } else {
                y as int - r
            }),
            cur_bot as int <= (if y as int + r > hi - 1 {
                hi
            } else {
                y as int + r + 1
            }),
            forall|x: int| 0 <= x < w ==> #[trigger] colsum@[x] == col_sum(px, wi, x, cur_top as int, cur_bot as int),
        decreases h - y,
    {
        let target_bot: usize = if radius >= h - y {
            h
        } else {
            y + radius + 1
        };
        let target_top: usize = if y >= radius {
            y - radius
        } else {
            0
        };
        while cur_bot < target_bot
            invariant
                cur_top <= cur_bot <= target_bot,
                target_bot <= h,
                colsum@.len() == w,
                forall|x: int| 0 <= x < w ==> #[trigger] colsum@[x] == col_sum(px, wi, x, cur_top as int, cur_bot as int),
            decreases target_bot - cur_bot,
        {
            add_window_row(&mut colsum, src, w, h, cur_top, cur_bot);
            cur_bot = cur_bot + 1;
        }
        while cur_top < target_top
            invariant
                cur_top <= target_top,
                target_top < cur_bot,
                cur_bot <= h,
                colsum@.len() == w,
                forall|x: int| 0 <= x < w ==> #[trigger] colsum@[x] == col_sum(px, wi, x, cur_top as int, cur_bot as int),
            decreases target_top - cur_top,
        {
            drop_window_row(&mut colsum, src, w, h, cur_top, cur_bot);
            cur_top = cur_top + 1;
        }
        window_prefix(&mut hpre, &colsum, src, w, h, cur_top, cur_bot);
        let ghost row = y as int + 1;
        proof {
            lemma_padded_index(row, 0, st, rows);
        }
        lbl.push(0i8);
        proof {
            assert forall|yy: int, xx: int|
                0 <= yy < row && 0 <= xx < stride implies lbl@[yy * st + xx]
                    == #[trigger] adaptive_label(px, wi, hi, r, ci, xx, yy) by {
                lemma_padded_index(yy, xx, st, rows);
                assert((yy + 1) * st <= row * st) by (nonlinear_arith) requires yy + 1 <= row, st >= 0;
            }
            assert(lbl@[row * st + 0] == adaptive_label(px, wi, hi, r, ci, 0, row));
        }
        let mut x: usize = 0;
        while x < w
            invariant
                x <= w,
                lbl@.len() == row * st + 1 + x,
                forall|yy: int, xx: int|
                    0 <= yy < row && 0 <= xx < stride ==> lbl@[yy * st + xx]
                        == #[trigger] adaptive_label(px, wi, hi, r, ci, xx, yy),
                forall|xx: int| 0 <= xx < x + 1 ==> lbl@[row * st + xx]
                        == #[trigger] adaptive_label(px, wi, hi, r, ci, xx, row),
            decreases w - x,
        {
            let label = threshold_pixel(&hpre, src, w, h, radius, c, cur_top, cur_bot, x, y);
            proof {
                lemma_padded_index(row, x as int + 1, st, rows);
                assert(label == adaptive_label(px, wi, hi, r, ci, x as int + 1, row));
            }
            lbl.push(label);
            proof {
                assert forall|yy: int, xx: int|
                    0 <= yy < row && 0 <= xx < stride implies lbl@[yy * st + xx]
                        == #[trigger] adaptive_label(px, wi, hi, r, ci, xx, yy) by {
                    lemma_padded_index(yy, xx, st, rows);
                    assert((yy + 1) * st <= row * st) by (nonlinear_arith) requires yy + 1 <= row, st >= 0;
                }
            }
            x = x + 1;
        }
        proof {
            lemma_padded_index(row, wi + 1, st, rows);
        }
        lbl.push(0i8);
        proof {
            assert forall|yy: int, xx: int|
                0 <= yy < row + 1 && 0 <= xx < stride implies lbl@[yy * st + xx]
                    == #[trigger] adaptive_label(px, wi, hi, r, ci, xx, yy) by {
                lemma_padded_index(yy, xx, st, rows);
                if yy < row {
                    assert((yy + 1) * st <= row * st) by (nonlinear_arith) requires yy + 1 <= row, st >= 0;
                }
            }
        }
        y = y + 1;
    }
    k = 0;
    while k < stride
        invariant
            k <= stride,
            stride == w + 2,
            st == stride,
            rows == h + 2,
            lbl@.len() == (hi + 1) * st + k,
            forall|yy: int, xx: int|
                0 <= yy < hi + 1 && 0 <= xx < stride ==> lbl@[yy * st + xx]
                    == #[trigger] adaptive_label(px, wi, hi, r, ci, xx, yy),
            forall|xx: int| 0 <= xx < k ==> lbl@[(hi + 1) * st + xx]
                    == #[trigger] adaptive_label(px, wi, hi, r, ci, xx, hi + 1),
        decreases stride - k,
    {
        proof {
            lemma_padded_index(hi + 1, k as int, st, rows);
        }
        lbl.push(0i8);
        proof {
            assert forall|yy: int, xx: int|
                0 <= yy < hi + 1 && 0 <= xx < stride implies lbl@[yy * st + xx]
                    == #[trigger] adaptive_label(px, wi, hi, r, ci, xx, yy) by {
                lemma_padded_index(yy, xx, st, rows);
                assert((yy + 1) * st <= (hi + 1) * st) by (nonlinear_arith) requires yy + 1 <= hi + 1, st >= 0;
            }
        }
        k = k + 1;
    }
    proof {
        assert((hi + 1) * st + st == (wi + 2) * (hi + 2)) by (nonlinear_arith) requires st == wi + 2;
        assert forall|yy: int, xx: int|
            0 <= yy < hi + 2 && 0 <= xx < wi + 2 implies lbl@[yy * (wi + 2) + xx]
                == #[trigger] adaptive_label(px, wi, hi, r, ci, xx, yy) by {
            if yy == hi + 1 {
            }
        }
    }
    lbl
}

/// Why an image array was refused.
#[derive(Clone, Copy, PartialEq, Eq, Structural, Debug)]
pub enum FrameError {
    /// The array is neither 2-D (gray) nor 3-D (colour).
    Dimensions,
    /// A 3-D array whose last axis is neither 1 nor 3 channels.
    Channels,
}

/// Height, width and channel count of an image array of shape `shape`:
/// `(h, w)` is gray, `(h, w, c)` has `c` channels, and only 1 or 3 channels
/// are accepted.
pub fn frame_layout(shape: &[usize]) -> (res: Result<(usize, usize, usize), FrameError>)
    ensures
        res == (if shape@.len() == 2 {
            Ok((shape@[0], shape@[1], 1usize))
        } else if shape@.len() != 3 {
            Err(FrameError::Dimensions)
        } else if shape@[2] != 1 && shape@[2] != 3 {
            Err(FrameError::Channels)
        } else {
            Ok((shape@[0], shape@[1], shape@[2]))
        }),
{
    if shape.len() == 2 {
        Ok((shape[0], shape[1], 1))
    } else if shape.len() != 3 {
        Err(FrameError::Dimensions)
    } else if shape[2] != 1 && shape[2] != 3 {
        Err(FrameError::Channels)
    } else {
        Ok((shape[0], shape[1], shape[2]))
    }
}

} // verus!
