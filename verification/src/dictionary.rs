//! Marker dictionaries and identification by Hamming distance over the four
//! rotations of each marker's bit pattern; the predefined base tables, their
//! lookup by name, and the list of predefined names.

use vstd::arithmetic::power2::*;
use vstd::prelude::*;

verus! {

/// Number of set bits of a byte.
pub open spec fn popcount(x: u8) -> nat
    decreases x,
{
    if x == 0 {
        0
    } else {
        (x % 2) as nat + popcount(x / 2)
    }
}

/// Bytes per rotation of a marker with `marker_size` cells per side:
/// `ceil(marker_size^2 / 8)`.
pub open spec fn bytes_per_rotation(marker_size: int) -> int {
    (marker_size * marker_size + 7) / 8
}

/// The value of `len` bits of `bits` starting at `start`, most significant first.
pub open spec fn pack_bits(bits: Seq<bool>, start: int, len: int) -> int
    decreases len,
{
    if len <= 0 {
        0
    } else {
        2 * pack_bits(bits, start, len - 1) + (if bits[start + len - 1] {
            1int
        } else {
            0int
        })
    }
}

/// Packing puts the bits most significant first: bit `j` of the `len` packed
/// bits is the bit of weight `2^(len - 1 - j)`.
pub proof fn lemma_pack_bits_order(bits: Seq<bool>, start: int, len: int, j: int)
    requires
        0 <= j < len,
    ensures
        (pack_bits(bits, start, len) / pow2((len - 1 - j) as nat) as int) % 2 == if bits[start + j] {
            1int
        } else {
            0int
        },
    decreases len,
{
    lemma_pack_bits_bound(bits, start, len - 1);
    let p = pack_bits(bits, start, len - 1);
    let b: int = if bits[start + len - 1] {
        1
    } else {
        0
    };
    assert(pack_bits(bits, start, len) == 2 * p + b);
    if j == len - 1 {
        lemma2_to64();
        assert((2 * p + b) / 1 == 2 * p + b);
        assert((2 * p + b) % 2 == b) by (nonlinear_arith)
            requires
                0 <= b <= 1,
                0 <= p,
        ;
    } else {
        lemma_pack_bits_order(bits, start, len - 1, j);
        let e = (len - 2 - j) as nat;
        lemma_pow2_unfold((len - 1 - j) as nat);
        assert(pow2((len - 1 - j) as nat) == 2 * pow2(e));
        lemma_pow2_pos(e);
        assert((2 * p + b) / 2 == p) by (nonlinear_arith)
            requires
                0 <= b <= 1,
                0 <= p,
        ;
        vstd::arithmetic::div_mod::lemma_div_denominator(2 * p + b, 2, pow2(e) as int);
    }
}

/// Byte `k` of the row-major packing of `bits`: eight bits per byte, most
/// significant first; a final partial byte holds its bits in its low end.
pub open spec fn packed_byte(bits: Seq<bool>, k: int) -> int {
    let n = bits.len() - 8 * k;
    pack_bits(bits, 8 * k, if n < 8 {
        n
    } else {
        8
    })
}

/// Number of bits set in the packed difference between the observed cell masks
/// and the marker bytes `row[r * s .. (r + 1) * s]`, over the first `k` bytes.
pub open spec fn rotation_distance(not0: Seq<u8>, notxor: Seq<u8>, row: Seq<u8>, s: int, r: int, k: int) -> nat
    decreases k,
{
    if k <= 0 {
        0
    } else {
        rotation_distance(not0, notxor, row, s, r, k - 1) + popcount(
            not0[k - 1] ^ (notxor[k - 1] & row[r * s + k - 1]),
        )
    }
}

proof fn lemma_popcount_bound(x: u8, k: nat)
    requires
        (x as int) < pow2(k),
    ensures
        popcount(x) <= k,
    decreases k,
{
    if x != 0 {
        if k == 0 {
            lemma2_to64();
        } else {
            lemma_pow2_unfold(k);
            lemma_popcount_bound(x / 2, (k - 1) as nat);
        }
    }
}

/// Number of set bits of a byte.
pub fn count_ones(x: u8) -> (n: u32)
    ensures
        n == popcount(x),
        n <= 8,
{
    proof {
        lemma2_to64();
        lemma_popcount_bound(x, 8);
    }
    let mut v = x;
    let mut n: u32 = 0;
    while v != 0
        invariant
            n + popcount(v) == popcount(x),
            popcount(x) <= 8,
        decreases v,
    {
        n = n + (v % 2) as u32;
        v = v / 2;
    }
    n
}

proof fn lemma_pack_bits_bound(bits: Seq<bool>, start: int, len: int)
    requires
        0 <= len,
    ensures
        0 <= pack_bits(bits, start, len) < pow2(len as nat),
    decreases len,
{
    if len > 0 {
        lemma_pack_bits_bound(bits, start, len - 1);
        lemma_pow2_unfold(len as nat);
    } else {
        lemma2_to64();
    }
}

/// Packed masks of the cells that are "not black" (`not0`) and of the cells
/// that are "not white" xor "not black" (`notxor`), for one observed marker.
pub struct CellBitMasks {
    pub not0: Vec<u8>,
    pub notxor: Vec<u8>,
    pub total_cells: usize,
}

impl CellBitMasks {
    /// Masks for a `marker_size x marker_size` marker from its per-cell
    /// classification, row-major: `not0_cells[i]` (the cell is not black) and
    /// `not1_cells[i]` (the cell is not white).
    pub fn from_cells(not0_cells: &[bool], not1_cells: &[bool], marker_size: usize) -> (m: CellBitMasks)
        requires
            not0_cells@.len() == marker_size * marker_size,
            not1_cells@.len() == marker_size * marker_size,
            marker_size * marker_size + 7 <= usize::MAX,
        ensures
            m.total_cells == marker_size * marker_size,
            m.not0@.len() == bytes_per_rotation(marker_size as int),
            m.notxor@.len() == bytes_per_rotation(marker_size as int),
            forall|k: int|
                0 <= k < bytes_per_rotation(marker_size as int) ==> #[trigger] m.not0@[k]
                    == packed_byte(not0_cells@, k) && m.notxor@[k] == (packed_byte(not0_cells@, k) as u8
                    ^ packed_byte(not1_cells@, k) as u8),
    {
        let total = marker_size * marker_size;
        let mut not0: Vec<u8> = Vec::new();
        let mut not1: Vec<u8> = Vec::new();
        let mut b0: u8 = 0;
        let mut b1: u8 = 0;
        let mut bit: usize = 0;
        let mut idx: usize = 0;
        while idx < total
            invariant
                idx <= total,
                total == not0_cells@.len(),
                total == not1_cells@.len(),
                bit < 8,
                idx == 8 * not0@.len() + bit,
                not1@.len() == not0@.len(),
                b0 == pack_bits(not0_cells@, 8 * not0@.len() as int, bit as int),
                b1 == pack_bits(not1_cells@, 8 * not0@.len() as int, bit as int),
                forall|k: int| 0 <= k < not0@.len() ==> #[trigger] not0@[k] == pack_bits(not0_cells@, 8 * k, 8),
                forall|k: int| 0 <= k < not1@.len() ==> #[trigger] not1@[k] == pack_bits(not1_cells@, 8 * k, 8),
            decreases total - idx,
        {
            proof {
                lemma_pack_bits_bound(not0_cells@, 8 * not0@.len() as int, bit as int);
                lemma_pack_bits_bound(not1_cells@, 8 * not0@.len() as int, bit as int);
                lemma2_to64();
                if bit < 7 {
                    lemma_pow2_strictly_increases(bit as nat, 7);
                }
            }
            b0 = b0 * 2 + if not0_cells[idx] { 1 } else { 0 };
            b1 = b1 * 2 + if not1_cells[idx] { 1 } else { 0 };
            bit = bit + 1;
            idx = idx + 1;
            if bit == 8 {
                not0.push(b0);
                not1.push(b1);
                b0 = 0;
                b1 = 0;
                bit = 0;
            }
        }
        if bit != 0 {
            not0.push(b0);
            not1.push(b1);
        }
        let s = not0.len();
        let mut notxor: Vec<u8> = Vec::new();
        let mut k: usize = 0;
        while k < s
            invariant
                k <= s,
                s == not0@.len(),
                s == not1@.len(),
                notxor@.len() == k,
                forall|j: int| 0 <= j < k ==> #[trigger] notxor@[j] == not0@[j] ^ not1@[j],
            decreases s - k,
        {
            notxor.push(not0[k] ^ not1[k]);
            k = k + 1;
        }
        proof {
            assert(s == bytes_per_rotation(marker_size as int));
            assert forall|k: int| 0 <= k < s implies #[trigger] not0@[k] == packed_byte(not0_cells@, k)
                && notxor@[k] == (packed_byte(not0_cells@, k) as u8 ^ packed_byte(not1_cells@, k) as u8) by {
                if k < total / 8 {
                } else {
                }
            }
        }
        CellBitMasks { not0, notxor, total_cells: total }
    }

    /// Masks hold `s` bytes each.
    pub open spec fn sized(&self, s: int) -> bool {
        &&& self.not0@.len() == s
        &&& self.notxor@.len() == s
        &&& self.total_cells < u32::MAX
    }

    /// Bit distance from the observed masks to rotation `r` of a marker row.
    pub open spec fn distance_to(&self, row: Seq<u8>, s: int, r: int) -> nat {
        rotation_distance(self.not0@, self.notxor@, row, s, r, s)
    }

    /// The running minimum over rotations `0..r`, starting at `total_cells + 1`
    /// and replaced only on strict improvement: (distance, rotation).
    pub open spec fn scan_rotations(&self, row: Seq<u8>, s: int, r: int) -> (nat, int)
        decreases r,
    {
        if r <= 0 {
            ((self.total_cells + 1) as nat, 0)
        } else {
            let prev = self.scan_rotations(row, s, r - 1);
            if self.distance_to(row, s, r - 1) < prev.0 {
                (self.distance_to(row, s, r - 1), r - 1)
            } else {
                prev
            }
        }
    }

    /// The scan over rotations `0..r` finds the least distance among those at
    /// most `total_cells` and the first rotation attaining it; if none is,
    /// it reports `total_cells + 1` and rotation 0.
    pub proof fn lemma_scan_rotations_min(&self, row: Seq<u8>, s: int, r: int)
        requires
            0 <= r,
        ensures
            ({
                let res = self.scan_rotations(row, s, r);
                &&& res.0 <= self.total_cells + 1
                &&& forall|q: int| 0 <= q < r ==> res.0 <= #[trigger] self.distance_to(row, s, q)
                &&& res.0 <= self.total_cells ==> 0 <= res.1 < r && res.0 == self.distance_to(row, s, res.1) && forall|q: int|
                    0 <= q < res.1 ==> res.0 < #[trigger] self.distance_to(row, s, q)
                &&& res.0 == self.total_cells + 1 ==> res.1 == 0
            }),
        decreases r,
    {
        if r > 0 {
            self.lemma_scan_rotations_min(row, s, r - 1);
        }
    }

    /// Smallest Hamming distance to marker `row` over its 4 rotations, and the
    /// first rotation that attains it.
    pub fn hamming_to_id(&self, row: &[u8], s: usize) -> (res: (u32, usize))
        requires
            self.sized(s as int),
            row@.len() >= 4 * s,
            8 * s <= u32::MAX,
        ensures
            res.0 == self.scan_rotations(row@, s as int, 4).0,
            res.1 == self.scan_rotations(row@, s as int, 4).1,
            res.1 < 4,
            forall|q: int| 0 <= q < 4 ==> res.0 <= #[trigger] self.distance_to(row@, s as int, q),
            res.0 <= self.total_cells ==> res.0 == self.distance_to(row@, s as int, res.1 as int) && forall|q: int|
                0 <= q < res.1 ==> res.0 < #[trigger] self.distance_to(row@, s as int, q),
    {
        proof {
            self.lemma_scan_rotations_min(row@, s as int, 4);
        }
        let mut min: u32 = self.total_cells as u32 + 1;
        let mut best_rot: usize = 0;
        let mut r: usize = 0;
        while r < 4
            invariant
                r <= 4,
                self.sized(s as int),
                row@.len() >= 4 * s,
                8 * s <= u32::MAX,
                (min as nat, best_rot as int) == self.scan_rotations(row@, s as int, r as int),
                best_rot < 4,
            decreases 4 - r,
        {
            proof {
                assert(r * s <= 4 * s) by (nonlinear_arith)
                    requires r < 4;
            }
            let base = r * s;
            let mut d: u32 = 0;
            let mut k: usize = 0;
            while k < s
                invariant
                    k <= s,
                    r < 4,
                    base == r * s,
                    self.sized(s as int),
                    row@.len() >= 4 * s,
                    8 * s <= u32::MAX,
                    d == rotation_distance(self.not0@, self.notxor@, row@, s as int, r as int, k as int),
                    d <= 8 * k,
                decreases s - k,
            {
                proof {
                    assert(r * s + k < 4 * s) by (nonlinear_arith)
                        requires r < 4, k < s;
                }
                let t = self.notxor[k] & row[base + k];
                let c = count_ones(self.not0[k] ^ t);
                d = d + c;
                k = k + 1;
            }
            if d < min {
                min = d;
                best_rot = r;
                if d == 0 {
                    proof {
                        self.lemma_scan_zero(row@, s as int, r as int + 1);
                        self.lemma_scan_rotations_min(row@, s as int, 4);
                    }
                    return (min, best_rot);
                }
            }
            r = r + 1;
        }
        proof {
            self.lemma_scan_rotations_min(row@, s as int, 4);
        }
        (min, best_rot)
    }

    /// Once the running minimum is 0 no later rotation replaces it.
    proof fn lemma_scan_zero(&self, row: Seq<u8>, s: int, r: int)
        requires
            0 <= r <= 4,
            self.scan_rotations(row, s, r).0 == 0,
        ensures
            self.scan_rotations(row, s, 4) == self.scan_rotations(row, s, r),
        decreases 4 - r,
    {
        if r < 4 {
            self.lemma_scan_zero(row, s, r + 1);
        }
    }
}

/// A marker dictionary: `bytes_list` holds one row per marker, each row the
/// packed bits of the marker's four rotations (`4 * s` bytes).
pub struct Dictionary {
    pub marker_size: usize,
    pub max_correction_bits: i32,
    pub bytes_list: Vec<Vec<u8>>,
}

/// A copy of a byte slice.
fn copy_bytes(v: &[u8]) -> (out: Vec<u8>)
    ensures
        out@ == v@,
{
    let mut out: Vec<u8> = Vec::new();
    let mut i: usize = 0;
    while i < v.len()
        invariant
            i <= v@.len(),
            out@ == v@.take(i as int),
        decreases v@.len() - i,
    {
        out.push(v[i]);
        i = i + 1;
        assert(out@ =~= v@.take(i as int));
    }
    assert(v@.take(v@.len() as int) =~= v@);
    out
}

impl Dictionary {
    /// A dictionary holding `rows` (each the four packed rotations of a marker).
    pub fn from_table(rows: &[Vec<u8>], marker_size: usize, max_correction_bits: i32) -> (d: Dictionary)
        ensures
            d.marker_size == marker_size,
            d.max_correction_bits == max_correction_bits,
            d.bytes_list@.len() == rows@.len(),
            forall|i: int| 0 <= i < rows@.len() ==> #[trigger] d.bytes_list@[i]@ == rows@[i]@,
    {
        let mut bytes_list: Vec<Vec<u8>> = Vec::new();
        let mut i: usize = 0;
        while i < rows.len()
            invariant
                i <= rows@.len(),
                bytes_list@.len() == i,
                forall|j: int| 0 <= j < i ==> #[trigger] bytes_list@[j]@ == rows@[j]@,
            decreases rows@.len() - i,
        {
            bytes_list.push(copy_bytes(rows[i].as_slice()));
            i = i + 1;
        }
        Dictionary { marker_size, max_correction_bits, bytes_list }
    }

    /// Bytes per rotation: `ceil(marker_size^2 / 8)`.
    pub fn s(&self) -> (n: usize)
        requires
            self.marker_size * self.marker_size + 7 <= usize::MAX,
        ensures
            n == bytes_per_rotation(self.marker_size as int),
    {
        (self.marker_size * self.marker_size + 7) / 8
    }

    /// Every row holds four rotations of `s` bytes.
    pub open spec fn rows_sized(&self) -> bool {
        &&& self.marker_size * self.marker_size + 7 <= usize::MAX
        &&& 8 * bytes_per_rotation(self.marker_size as int) <= u32::MAX
        &&& forall|m: int|
            0 <= m < self.bytes_list@.len() ==> #[trigger] self.bytes_list@[m]@.len() >= 4
                * bytes_per_rotation(self.marker_size as int)
    }

    /// Marker `m` matches the observed masks: its best rotation differs in at
    /// most `max_corr` bits (the distance taken as an `i32`).
    pub open spec fn matches(&self, masks: &CellBitMasks, max_corr: i32, m: int) -> bool {
        masks.scan_rotations(self.bytes_list@[m]@, bytes_per_rotation(self.marker_size as int), 4).0 as u32 as i32
            <= max_corr
    }

    /// Identify observed cell masks: the first marker whose best rotation
    /// differs in at most `max_corr` bits, with that rotation.
    pub fn identify_masks(&self, masks: &CellBitMasks, max_corr: i32) -> (res: Option<(usize, usize)>)
        requires
            self.rows_sized(),
            masks.sized(bytes_per_rotation(self.marker_size as int)),
        ensures
            match res {
                Some((m, rot)) => {
                    &&& m < self.bytes_list@.len()
                    &&& self.matches(masks, max_corr, m as int)
                    &&& forall|j: int| 0 <= j < m ==> !#[trigger] self.matches(masks, max_corr, j)
                    &&& rot as int == masks.scan_rotations(
                        self.bytes_list@[m as int]@,
                        bytes_per_rotation(self.marker_size as int),
                        4,
                    ).1
                },
                None => forall|j: int|
                    0 <= j < self.bytes_list@.len() ==> !#[trigger] self.matches(masks, max_corr, j),
            },
    {
        let s = self.s();
        let mut m: usize = 0;
        while m < self.bytes_list.len()
            invariant
                m <= self.bytes_list@.len(),
                s == bytes_per_rotation(self.marker_size as int),
                self.rows_sized(),
                masks.sized(s as int),
                forall|j: int| 0 <= j < m ==> !#[trigger] self.matches(masks, max_corr, j),
            decreases self.bytes_list@.len() - m,
        {
            let (dist, rot) = masks.hamming_to_id(self.bytes_list[m].as_slice(), s);
            if dist as i32 <= max_corr {
                return Some((m, rot));
            }
            m = m + 1;
        }
        None
    }
}

/// Marker size (cells per side) of each stored base table, in storage order:
/// 4x4, 5x5, 6x6, 7x7, ArUco original, ArUco MIP 36h12, AprilTag 16h5, 25h9,
/// 36h10, 36h11.
pub open spec fn base_marker_size(b: int) -> int {
    if b == 0 || b == 6 {
        4
    } else if b == 1 || b == 4 || b == 7 {
        5
    } else if b == 3 {
        7
    } else {
        6
    }
}

/// Number of markers stored in each base table.
pub open spec fn base_row_count(b: int) -> int {
    if b <= 3 {
        1000
    } else if b == 4 {
        1024
    } else if b == 5 {
        250
    } else if b == 6 {
        30
    } else if b == 7 {
        35
    } else if b == 8 {
        2320
    } else {
        587
    }
}

/// Bytes per stored marker: four rotations.
pub open spec fn base_row_len(b: int) -> int {
    4 * bytes_per_rotation(base_marker_size(b))
}

/// Byte offset of base table `b` in the concatenated table data.
pub open spec fn base_offset(b: int) -> int
    decreases b,
{
    if b <= 0 {
        0
    } else {
        base_offset(b - 1) + base_row_count(b - 1) * base_row_len(b - 1)
    }
}

/// Number of base tables.
pub const BASE_TABLES: usize = 10;

/// Rows and row length of base table `b`.
fn base_shape(b: usize) -> (shape: (usize, usize))
    requires
        b < 10,
    ensures
        shape.0 == base_row_count(b as int),
        shape.1 == base_row_len(b as int),
{
    if b == 0 {
        (1000, 8)
    } else if b == 1 {
        (1000, 16)
    } else if b == 2 {
        (1000, 20)
    } else if b == 3 {
        (1000, 28)
    } else if b == 4 {
        (1024, 16)
    } else if b == 5 {
        (250, 20)
    } else if b == 6 {
        (30, 8)
    } else if b == 7 {
        (35, 16)
    } else if b == 8 {
        (2320, 20)
    } else {
        (587, 20)
    }
}

/// The predefined dictionaries' base tables.
pub struct PredefinedTables {
    tables: Vec<Vec<Vec<u8>>>,
}

impl PredefinedTables {
    /// Row `i` of base table `b`.
    pub closed spec fn row(&self, b: int, i: int) -> Seq<u8> {
        self.tables@[b]@[i]@
    }

    /// Every base table holds its full number of rows of the right length.
    pub closed spec fn complete(&self) -> bool {
        &&& self.tables@.len() == 10
        &&& forall|b: int|
            0 <= b < 10 ==> #[trigger] self.tables@[b]@.len() == base_row_count(b)
        &&& forall|b: int, i: int|
            0 <= b < 10 && 0 <= i < base_row_count(b) ==> #[trigger] self.tables@[b]@[i]@.len()
                == base_row_len(b)
    }

    /// Split the concatenation of the ten base tables, in storage order, each
    /// marker's four rotations contiguous. Fails unless the length is exact.
    pub fn from_bytes(data: &[u8]) -> (res: Option<PredefinedTables>)
        ensures
            res is Some <==> data@.len() == base_offset(10),
            res matches Some(t) ==> {
                &&& t.complete()
                &&& forall|b: int, i: int|
                    0 <= b < 10 && 0 <= i < base_row_count(b) ==> #[trigger] t.row(b, i)
                        == data@.subrange(
                        base_offset(b) + i * base_row_len(b),
                        base_offset(b) + (i + 1) * base_row_len(b),
                    )
            },
    {
        assert(base_offset(10) == 152324) by {
            reveal_with_fuel(base_offset, 11);
        }
        if data.len() != 152324 {
            return None;
        }
        let mut tables: Vec<Vec<Vec<u8>>> = Vec::new();
        let mut cursor: usize = 0;
        let mut b: usize = 0;
        while b < 10
            invariant
                b <= 10,
                data@.len() == base_offset(10),
                base_offset(10) == 152324,
                cursor == base_offset(b as int),
                tables@.len() == b,
                forall|bb: int| 0 <= bb < b ==> #[trigger] tables@[bb]@.len() == base_row_count(bb),
                forall|bb: int, i: int|
                    0 <= bb < b && 0 <= i < base_row_count(bb) ==> #[trigger] tables@[bb]@[i]@
                        == data@.subrange(
                        base_offset(bb) + i * base_row_len(bb),
                        base_offset(bb) + (i + 1) * base_row_len(bb),
                    ),
            decreases 10 - b,
        {
            let (rows, len) = base_shape(b);
            proof {
                lemma_base_offset_mono(b as int + 1, 10);
            }
            let mut table: Vec<Vec<u8>> = Vec::new();
            let mut i: usize = 0;
            while i < rows
                invariant
                    i <= rows,
                    rows == base_row_count(b as int),
                    len == base_row_len(b as int),
                    b < 10,
                    data@.len() == 152324,
                    base_offset(b as int + 1) <= 152324,
                    cursor == base_offset(b as int) + i * len,
                    base_offset(b as int + 1) == base_offset(b as int) + rows * len,
                    table@.len() == i,
                    forall|j: int| 0 <= j < i ==> #[trigger] table@[j]@ == data@.subrange(
                        base_offset(b as int) + j * len,
                        base_offset(b as int) + (j + 1) * len,
                    ),
                decreases rows - i,
            {
                proof {
                    assert((i + 1) * len == i * len + len) by (nonlinear_arith);
                    assert((i + 1) * len <= rows * len) by (nonlinear_arith)
                        requires i + 1 <= rows, len >= 0;
                }
                let mut row: Vec<u8> = Vec::new();
                let mut k: usize = 0;
                while k < len
                    invariant
                        k <= len,
                        data@.len() == 152324,
                        cursor + len <= data@.len(),
                        row@ == data@.subrange(cursor as int, cursor + k),
                    decreases len - k,
                {
                    row.push(data[cursor + k]);
                    k = k + 1;
                    assert(row@ =~= data@.subrange(cursor as int, cursor + k));
                }
                table.push(row);
                cursor = cursor + len;
                i = i + 1;
            }
            tables.push(table);
            b = b + 1;
            proof {
                assert forall|bb: int, i: int|
                    0 <= bb < b && 0 <= i < base_row_count(bb) implies #[trigger] tables@[bb]@[i]@
                        == data@.subrange(
                        base_offset(bb) + i * base_row_len(bb),
                        base_offset(bb) + (i + 1) * base_row_len(bb),
                    ) by {
                }
            }
        }
        let t = PredefinedTables { tables };
        proof {
            assert forall|b: int, i: int|
                0 <= b < 10 && 0 <= i < base_row_count(b) implies #[trigger] t.tables@[b]@[i]@.len()
                    == base_row_len(b) by {
                assert(base_offset(b) + (i + 1) * base_row_len(b) - (base_offset(b) + i * base_row_len(b))
                    == base_row_len(b)) by (nonlinear_arith);
                lemma_base_offset_mono(b + 1, 10);
                lemma_base_offset_mono(0, b);
                assert(base_offset(b + 1) == base_offset(b) + base_row_count(b) * base_row_len(b));
                assert(t.tables@[b]@[i]@ == data@.subrange(
                    base_offset(b) + i * base_row_len(b),
                    base_offset(b) + (i + 1) * base_row_len(b),
                ));
                assert((i + 1) * base_row_len(b) <= base_row_count(b) * base_row_len(b)) by (nonlinear_arith)
                    requires i + 1 <= base_row_count(b), base_row_len(b) >= 0;
                assert(0 <= i * base_row_len(b)) by (nonlinear_arith)
                    requires i >= 0, base_row_len(b) >= 0;
            }
        }
        Some(t)
    }

    /// Rows `0..count` of base table `b`.
    fn rows_of(&self, b: usize, count: usize) -> (rows: &[Vec<u8>])
        requires
            self.complete(),
            b < 10,
            count <= base_row_count(b as int),
        ensures
            rows@ == self.tables@[b as int]@.take(count as int),
            forall|i: int| 0 <= i < count ==> #[trigger] rows@[i]@ == self.row(b as int, i),
    {
        slice_rows(self.tables[b].as_slice(), count)
    }
}

/// The first `count` rows of a table.
pub fn slice_rows(table: &[Vec<u8>], count: usize) -> (rows: &[Vec<u8>])
    requires
        count <= table.len(),
    ensures
        rows@ == table@.take(count as int),
{
    let (head, _) = table.split_at(count);
    head
}

proof fn lemma_base_offset_mono(b: int, c: int)
    requires
        0 <= b <= c,
    ensures
        base_offset(b) <= base_offset(c),
    decreases c - b,
{
    if b < c {
        lemma_base_offset_mono(b, c - 1);
        assert(base_row_count(c - 1) * base_row_len(c - 1) >= 0) by (nonlinear_arith)
            requires base_row_count(c - 1) >= 0, base_row_len(c - 1) >= 0;
    }
}

/// ASCII upper-casing of one character; other characters are unchanged.
pub open spec fn ascii_upper(c: char) -> char {
    if 'a' <= c <= 'z' {
        ((c as int) - 32) as char
    } else {
        c
    }
}

/// The lookup key of a dictionary name: ASCII upper-cased, with a leading
/// `DICT_` removed.
pub open spec fn dictionary_key(name: Seq<char>) -> Seq<char> {
    let u = name.map_values(|c: char| ascii_upper(c));
    if u.len() >= 5 && u[0] == 'D' && u[1] == 'I' && u[2] == 'C' && u[3] == 'T' && u[4] == '_' {
        u.skip(5)
    } else {
        u
    }
}

/// Dictionary names are ASCII case-insensitive: upper-casing a name does not
/// change the dictionary it names.
pub proof fn lemma_name_case_insensitive(name: Seq<char>)
    ensures
        dictionary_key(name.map_values(|c: char| ascii_upper(c))) == dictionary_key(name),
{
    let u = name.map_values(|c: char| ascii_upper(c));
    let uu = u.map_values(|c: char| ascii_upper(c));
    assert forall|i: int| 0 <= i < u.len() implies uu[i] == u[i] by {
        assert(u[i] == ascii_upper(name[i]));
    }
    assert(uu =~= u);
}

/// The `DICT_` prefix is optional: a name without it and the same name with
/// it name the same dictionary.
pub proof fn lemma_name_prefix_optional(name: Seq<char>)
    requires
        !(name.len() >= 5 && ascii_upper(name[0]) == 'D' && ascii_upper(name[1]) == 'I' && ascii_upper(name[2]) == 'C'
            && ascii_upper(name[3]) == 'T' && name[4] == '_'),
    ensures
        dictionary_key(seq!['D', 'I', 'C', 'T', '_'] + name) == dictionary_key(name),
{
    let p = seq!['D', 'I', 'C', 'T', '_'] + name;
    let up = p.map_values(|c: char| ascii_upper(c));
    let un = name.map_values(|c: char| ascii_upper(c));
    assert(up[0] == 'D' && up[1] == 'I' && up[2] == 'C' && up[3] == 'T' && up[4] == '_');
    assert(up.skip(5) =~= un);
    if un.len() >= 5 && un[0] == 'D' && un[1] == 'I' && un[2] == 'C' && un[3] == 'T' && un[4] == '_' {
        assert(ascii_upper(name[4]) == '_');
        assert(name[4] == '_');
    }
}

/// The predefined dictionary a key names: (base table, number of markers,
/// marker size, maximum correctable bits).
pub open spec fn predefined_entry(key: Seq<char>) -> Option<(int, int, int, int)> {
    if key == "4X4_50"@ {
        Some((0, 50, 4, 1))
    } else if key == "4X4_100"@ {
        Some((0, 100, 4, 1))
    } else if key == "4X4_250"@ {
        Some((0, 250, 4, 1))
    } else if key == "4X4_1000"@ {
        Some((0, 1000, 4, 0))
    } else if key == "5X5_50"@ {
        Some((1, 50, 5, 3))
    } else if key == "5X5_100"@ {
        Some((1, 100, 5, 3))
    } else if key == "5X5_250"@ {
        Some((1, 250, 5, 2))
    } else if key == "5X5_1000"@ {
        Some((1, 1000, 5, 2))
    } else if key == "6X6_50"@ {
        Some((2, 50, 6, 6))
    } else if key == "6X6_100"@ {
        Some((2, 100, 6, 5))
    } else if key == "6X6_250"@ {
        Some((2, 250, 6, 5))
    } else if key == "6X6_1000"@ {
        Some((2, 1000, 6, 4))
    } else if key == "7X7_50"@ {
        Some((3, 50, 7, 9))
    } else if key == "7X7_100"@ {
        Some((3, 100, 7, 8))
    } else if key == "7X7_250"@ {
        Some((3, 250, 7, 8))
    } else if key == "7X7_1000"@ {
        Some((3, 1000, 7, 6))
    } else if key == "ARUCO_ORIGINAL"@ {
        Some((4, 1024, 5, 1))
    } else if key == "ARUCO_MIP_36H12"@ {
        Some((5, 250, 6, 5))
    } else if key == "APRILTAG_16H5"@ {
        Some((6, 30, 4, 2))
    } else if key == "APRILTAG_25H9"@ {
        Some((7, 35, 5, 4))
    } else if key == "APRILTAG_36H10"@ {
        Some((8, 2320, 6, 4))
    } else if key == "APRILTAG_36H11"@ {
        Some((9, 587, 6, 5))
    } else {
        None
    }
}

/// The characters of `s`, upper-cased (ASCII).
fn upper_chars(s: &str) -> (out: Vec<char>)
    ensures
        out@ == s@.map_values(|c: char| ascii_upper(c)),
{
    let n = s.unicode_len();
    let mut out: Vec<char> = Vec::new();
    let mut i: usize = 0;
    while i < n
        invariant
            i <= n,
            n == s@.len(),
            out@ == s@.take(i as int).map_values(|c: char| ascii_upper(c)),
        decreases n - i,
    {
        let c = s.get_char(i);
        let u = if 'a' <= c && c <= 'z' {
            ((c as u32) - 32) as u8 as char
        } else {
            c
        };
        proof {
            if 'a' <= c && c <= 'z' {
                assert(((c as u32) - 32) as u8 as char == ((c as int) - 32) as char);
            }
        }
        out.push(u);
        i = i + 1;
        assert(out@ =~= s@.take(i as int).map_values(|c: char| ascii_upper(c)));
    }
    assert(s@.take(n as int) =~= s@);
    out
}

/// `key[from..]` equals the characters of `lit`.
fn key_is(key: &Vec<char>, from: usize, lit: &str) -> (b: bool)
    requires
        from <= key@.len(),
    ensures
        b == (key@.skip(from as int) == lit@),
{
    let n = lit.unicode_len();
    if key.len() - from != n {
        assert(key@.skip(from as int).len() != lit@.len());
        return false;
    }
    let mut i: usize = 0;
    while i < n
        invariant
            i <= n,
            n == lit@.len(),
            from + n == key@.len(),
            key@.len() <= usize::MAX,
            forall|j: int| 0 <= j < i ==> key@[from + j] == lit@[j],
        decreases n - i,
    {
        if key[from + i] != lit.get_char(i) {
            assert(key@.skip(from as int)[i as int] != lit@[i as int]);
            return false;
        }
        i = i + 1;
    }
    assert(key@.skip(from as int) =~= lit@);
    true
}

/// The entry the key `key[from..]` names, as (base table, markers, marker size,
/// maximum correctable bits).
fn lookup_entry(key: &Vec<char>, from: usize) -> (e: Option<(usize, usize, usize, i32)>)
    requires
        from <= key@.len(),
    ensures
        match predefined_entry(key@.skip(from as int)) {
            None => e is None,
            Some(t) => e matches Some(v) && v.0 == t.0 && v.1 == t.1 && v.2 == t.2 && v.3 == t.3,
        },
{
    if key_is(key, from, "4X4_50") {
        Some((0, 50, 4, (4 - 1) / 2))
    } else if key_is(key, from, "4X4_100") {
        Some((0, 100, 4, (3 - 1) / 2))
    } else if key_is(key, from, "4X4_250") {
        Some((0, 250, 4, (3 - 1) / 2))
    } else if key_is(key, from, "4X4_1000") {
        Some((0, 1000, 4, (2 - 1) / 2))
    } else if key_is(key, from, "5X5_50") {
        Some((1, 50, 5, (8 - 1) / 2))
    } else if key_is(key, from, "5X5_100") {
        Some((1, 100, 5, (7 - 1) / 2))
    } else if key_is(key, from, "5X5_250") {
        Some((1, 250, 5, (6 - 1) / 2))
    } else if key_is(key, from, "5X5_1000") {
        Some((1, 1000, 5, (5 - 1) / 2))
    } else if key_is(key, from, "6X6_50") {
        Some((2, 50, 6, (13 - 1) / 2))
    } else if key_is(key, from, "6X6_100") {
        Some((2, 100, 6, (12 - 1) / 2))
    } else if key_is(key, from, "6X6_250") {
        Some((2, 250, 6, (11 - 1) / 2))
    } else if key_is(key, from, "6X6_1000") {
        Some((2, 1000, 6, (9 - 1) / 2))
    } else if key_is(key, from, "7X7_50") {
        Some((3, 50, 7, (19 - 1) / 2))
    } else if key_is(key, from, "7X7_100") {
        Some((3, 100, 7, (18 - 1) / 2))
    } else if key_is(key, from, "7X7_250") {
        Some((3, 250, 7, (17 - 1) / 2))
    } else if key_is(key, from, "7X7_1000") {
        Some((3, 1000, 7, (14 - 1) / 2))
    } else if key_is(key, from, "ARUCO_ORIGINAL") {
        Some((4, 1024, 5, (3 - 1) / 2))
    } else if key_is(key, from, "ARUCO_MIP_36H12") {
        Some((5, 250, 6, (12 - 1) / 2))
    } else if key_is(key, from, "APRILTAG_16H5") {
        Some((6, 30, 4, (5 - 1) / 2))
    } else if key_is(key, from, "APRILTAG_25H9") {
        Some((7, 35, 5, (9 - 1) / 2))
    } else if key_is(key, from, "APRILTAG_36H10") {
        Some((8, 2320, 6, (10 - 1) / 2))
    } else if key_is(key, from, "APRILTAG_36H11") {
        Some((9, 587, 6, (11 - 1) / 2))
    } else {
        None
    }
}

/// Predefined dictionaries drawn from the same base table share their marker
/// size, the smaller holds the first markers of the larger (both take the
/// first rows of that table), and it corrects at least as many bits.
pub proof fn lemma_same_table_dictionaries(k1: Seq<char>, k2: Seq<char>)
    requires
        predefined_entry(k1) matches Some(e1) && predefined_entry(k2) matches Some(e2) && e1.0 == e2.0 && e1.1 <= e2.1,
    ensures
        predefined_entry(k1) matches Some(e1) && predefined_entry(k2) matches Some(e2) && e1.2 == e2.2 && e1.3 >= e2.3,
{
}

/// The tag family a dictionary key names: `NXN` for the square ArUco
/// dictionaries, whatever their marker count, and the whole key otherwise.
pub open spec fn key_family(k: Seq<char>) -> Seq<char> {
    if k.len() > 3 && k[1] == 'X' && k[3] == '_' {
        k.take(3)
    } else {
        k
    }
}

/// The family stored in base table `b` (storage order of the tables).
spec fn table_family(b: int) -> Seq<char> {
    if b == 0 {
        "4X4"@
    } else     if b == 1 {
        "5X5"@
    } else     if b == 2 {
        "6X6"@
    } else     if b == 3 {
        "7X7"@
    } else     if b == 4 {
        "ARUCO_ORIGINAL"@
    } else     if b == 5 {
        "ARUCO_MIP_36H12"@
    } else     if b == 6 {
        "APRILTAG_16H5"@
    } else     if b == 7 {
        "APRILTAG_25H9"@
    } else     if b == 8 {
        "APRILTAG_36H10"@
    } else {
        "APRILTAG_36H11"@
    }
}

/// Storage position of a family, read from its length and a few characters.
spec fn family_position(f: Seq<char>) -> int {
    if f.len() == 3 {
        (f[0] as int) - 52
    } else if f.len() == 15 {
        5
    } else if f[1] == 'R' {
        4
    } else if f[9] == '1' {
        6
    } else if f[9] == '2' {
        7
    } else if f[f.len() - 1] == '0' {
        8
    } else {
        9
    }
}

/// Each key is stored in the base table of its family, with that table's
/// marker size, and takes at most the table's markers (all of them, for the
/// families that are not square ArUco dictionaries).
#[verifier::spinoff_prover]
#[verifier::rlimit(100)]
proof fn lemma_entry_family(k: Seq<char>)
    requires
        predefined_entry(k) is Some,
    ensures
        predefined_entry(k) matches Some(e) && {
            &&& 0 <= e.0 < 10
            &&& key_family(k) == table_family(e.0)
            &&& e.2 == base_marker_size(e.0)
            &&& e.1 <= base_row_count(e.0)
            &&& (key_family(k) == k ==> e.1 == base_row_count(e.0))
        },
{
    reveal_strlit("4X4_50");
    reveal_strlit("4X4_100");
    reveal_strlit("4X4_250");
    reveal_strlit("4X4_1000");
    reveal_strlit("5X5_50");
    reveal_strlit("5X5_100");
    reveal_strlit("5X5_250");
    reveal_strlit("5X5_1000");
    reveal_strlit("6X6_50");
    reveal_strlit("6X6_100");
    reveal_strlit("6X6_250");
    reveal_strlit("6X6_1000");
    reveal_strlit("7X7_50");
    reveal_strlit("7X7_100");
    reveal_strlit("7X7_250");
    reveal_strlit("7X7_1000");
    reveal_strlit("ARUCO_ORIGINAL");
    reveal_strlit("ARUCO_MIP_36H12");
    reveal_strlit("APRILTAG_16H5");
    reveal_strlit("APRILTAG_25H9");
    reveal_strlit("APRILTAG_36H10");
    reveal_strlit("APRILTAG_36H11");
    reveal_strlit("4X4");
    reveal_strlit("5X5");
    reveal_strlit("6X6");
    reveal_strlit("7X7");
    if k == "4X4_50"@ {
        assert(key_family(k) =~= "4X4"@);
    }
    if k == "4X4_100"@ {
        assert(key_family(k) =~= "4X4"@);
    }
    if k == "4X4_250"@ {
        assert(key_family(k) =~= "4X4"@);
    }
    if k == "4X4_1000"@ {
        assert(key_family(k) =~= "4X4"@);
    }
    if k == "5X5_50"@ {
        assert(key_family(k) =~= "5X5"@);
    }
    if k == "5X5_100"@ {
        assert(key_family(k) =~= "5X5"@);
    }
    if k == "5X5_250"@ {
        assert(key_family(k) =~= "5X5"@);
    }
    if k == "5X5_1000"@ {
        assert(key_family(k) =~= "5X5"@);
    }
    if k == "6X6_50"@ {
        assert(key_family(k) =~= "6X6"@);
    }
    if k == "6X6_100"@ {
        assert(key_family(k) =~= "6X6"@);
    }
    if k == "6X6_250"@ {
        assert(key_family(k) =~= "6X6"@);
    }
    if k == "6X6_1000"@ {
        assert(key_family(k) =~= "6X6"@);
    }
    if k == "7X7_50"@ {
        assert(key_family(k) =~= "7X7"@);
    }
    if k == "7X7_100"@ {
        assert(key_family(k) =~= "7X7"@);
    }
    if k == "7X7_250"@ {
        assert(key_family(k) =~= "7X7"@);
    }
    if k == "7X7_1000"@ {
        assert(key_family(k) =~= "7X7"@);
    }
    if k == "ARUCO_ORIGINAL"@ {
        assert(key_family(k) =~= "ARUCO_ORIGINAL"@);
    }
    if k == "ARUCO_MIP_36H12"@ {
        assert(key_family(k) =~= "ARUCO_MIP_36H12"@);
    }
    if k == "APRILTAG_16H5"@ {
        assert(key_family(k) =~= "APRILTAG_16H5"@);
    }
    if k == "APRILTAG_25H9"@ {
        assert(key_family(k) =~= "APRILTAG_25H9"@);
    }
    if k == "APRILTAG_36H10"@ {
        assert(key_family(k) =~= "APRILTAG_36H10"@);
    }
    if k == "APRILTAG_36H11"@ {
        assert(key_family(k) =~= "APRILTAG_36H11"@);
    }
}

/// Family names of distinct base tables differ.
proof fn lemma_table_families_distinct()
    ensures
        forall|b: int| 0 <= b < 10 ==> #[trigger] family_position(table_family(b)) == b,
{
    reveal_strlit("4X4");
    reveal_strlit("5X5");
    reveal_strlit("6X6");
    reveal_strlit("7X7");
    reveal_strlit("ARUCO_ORIGINAL");
    reveal_strlit("ARUCO_MIP_36H12");
    reveal_strlit("APRILTAG_16H5");
    reveal_strlit("APRILTAG_25H9");
    reveal_strlit("APRILTAG_36H10");
    reveal_strlit("APRILTAG_36H11");
    assert(family_position(table_family(0)) == 0);
    assert(family_position(table_family(1)) == 1);
    assert(family_position(table_family(2)) == 2);
    assert(family_position(table_family(3)) == 3);
    assert(family_position(table_family(4)) == 4);
    assert(family_position(table_family(5)) == 5);
    assert(family_position(table_family(6)) == 6);
    assert(family_position(table_family(7)) == 7);
    assert(family_position(table_family(8)) == 8);
    assert(family_position(table_family(9)) == 9);
}

/// Each predefined dictionary draws its markers from the base table that
/// stores its own family: two keys share a base table exactly when they name
/// the same family. Each uses its table's marker size and at most its
/// markers, and a family other than the square ArUco ones uses all of them.
pub proof fn lemma_tables_follow_families(k1: Seq<char>, k2: Seq<char>)
    requires
        predefined_entry(k1) is Some,
        predefined_entry(k2) is Some,
    ensures
        predefined_entry(k1) matches Some(e1) && predefined_entry(k2) matches Some(e2) && {
            &&& (e1.0 == e2.0) == (key_family(k1) == key_family(k2))
            &&& e1.2 == base_marker_size(e1.0)
            &&& e1.1 <= base_row_count(e1.0)
            &&& (key_family(k1) == k1 ==> e1.1 == base_row_count(e1.0))
        },
{
    lemma_entry_family(k1);
    lemma_entry_family(k2);
    lemma_table_families_distinct();
    let e1 = predefined_entry(k1)->0;
    let e2 = predefined_entry(k2)->0;
    if key_family(k1) == key_family(k2) {
        assert(family_position(table_family(e1.0)) == e1.0);
        assert(family_position(table_family(e2.0)) == e2.0);
    }
}

/// The predefined dictionary called `name` (ASCII case-insensitive, `DICT_`
/// prefix optional), built from the first markers of its base table; `None`
/// for an unknown name.
pub fn get_predefined_dictionary(name: &str, tables: &PredefinedTables) -> (res: Option<Dictionary>)
    requires
        tables.complete(),
    ensures
        match predefined_entry(dictionary_key(name@)) {
            None => res is None,
            Some((b, count, ms, mcb)) => res matches Some(d) && {
                &&& d.marker_size == ms
                &&& d.max_correction_bits == mcb
                &&& d.bytes_list@.len() == count
                &&& forall|i: int| 0 <= i < count ==> #[trigger] d.bytes_list@[i]@ == tables.row(b, i)
            },
        },
{
    let key = upper_chars(name);
    let from: usize = if key.len() >= 5 && key[0] == 'D' && key[1] == 'I' && key[2] == 'C'
        && key[3] == 'T' && key[4] == '_' {
        5
    } else {
        0
    };
    proof {
        assert(key@.skip(0) =~= key@);
        assert(key@.skip(from as int) == dictionary_key(name@));
    }
    match lookup_entry(&key, from) {
        None => None,
        Some((b, count, ms, mcb)) => {
            let rows = tables.rows_of(b, count);
            Some(Dictionary::from_table(rows, ms, mcb))
        },
    }
}

/// Listing position of a predefined dictionary key, read from its first
/// character, length and a few distinguishing characters.
spec fn key_position(k: Seq<char>) -> int {
    if k[0] == 'A' {
        if k.len() == 15 {
            17
        } else if k.len() == 14 {
            if k[4] == 'O' {
                16
            } else if k[k.len() - 1] == '0' {
                20
            } else {
                21
            }
        } else if k[k.len() - 1] == '5' {
            18
        } else {
            19
        }
    } else {
        4 * ((k[0] as int) - 52) + if k.len() == 6 {
            0int
        } else if k.len() == 8 {
            3int
        } else if k[4] == '1' {
            1int
        } else {
            2int
        }
    }
}

/// The keys of the predefined dictionaries, in listing order.
spec fn predefined_keys() -> Seq<Seq<char>> {
    seq![
        "4X4_50"@,
        "4X4_100"@,
        "4X4_250"@,
        "4X4_1000"@,
        "5X5_50"@,
        "5X5_100"@,
        "5X5_250"@,
        "5X5_1000"@,
        "6X6_50"@,
        "6X6_100"@,
        "6X6_250"@,
        "6X6_1000"@,
        "7X7_50"@,
        "7X7_100"@,
        "7X7_250"@,
        "7X7_1000"@,
        "ARUCO_ORIGINAL"@,
        "ARUCO_MIP_36H12"@,
        "APRILTAG_16H5"@,
        "APRILTAG_25H9"@,
        "APRILTAG_36H10"@,
        "APRILTAG_36H11"@,
    ]
}

/// The listed keys sit at their own positions, and every key with a
/// predefined dictionary is listed.
proof fn lemma_predefined_keys()
    ensures
        forall|i: int| 0 <= i < 22 ==> #[trigger] key_position(predefined_keys()[i]) == i,
        forall|key: Seq<char>| #[trigger] predefined_entry(key) is Some ==> exists|i: int| 0 <= i < 22 && predefined_keys()[i] == key,
{
    reveal_strlit("4X4_50");
    reveal_strlit("4X4_100");
    reveal_strlit("4X4_250");
    reveal_strlit("4X4_1000");
    reveal_strlit("5X5_50");
    reveal_strlit("5X5_100");
    reveal_strlit("5X5_250");
    reveal_strlit("5X5_1000");
    reveal_strlit("6X6_50");
    reveal_strlit("6X6_100");
    reveal_strlit("6X6_250");
    reveal_strlit("6X6_1000");
    reveal_strlit("7X7_50");
    reveal_strlit("7X7_100");
    reveal_strlit("7X7_250");
    reveal_strlit("7X7_1000");
    reveal_strlit("ARUCO_ORIGINAL");
    reveal_strlit("ARUCO_MIP_36H12");
    reveal_strlit("APRILTAG_16H5");
    reveal_strlit("APRILTAG_25H9");
    reveal_strlit("APRILTAG_36H10");
    reveal_strlit("APRILTAG_36H11");
    let keys = predefined_keys();
    assert(key_position(keys[0]) == 0);
    assert(key_position(keys[1]) == 1);
    assert(key_position(keys[2]) == 2);
    assert(key_position(keys[3]) == 3);
    assert(key_position(keys[4]) == 4);
    assert(key_position(keys[5]) == 5);
    assert(key_position(keys[6]) == 6);
    assert(key_position(keys[7]) == 7);
    assert(key_position(keys[8]) == 8);
    assert(key_position(keys[9]) == 9);
    assert(key_position(keys[10]) == 10);
    assert(key_position(keys[11]) == 11);
    assert(key_position(keys[12]) == 12);
    assert(key_position(keys[13]) == 13);
    assert(key_position(keys[14]) == 14);
    assert(key_position(keys[15]) == 15);
    assert(key_position(keys[16]) == 16);
    assert(key_position(keys[17]) == 17);
    assert(key_position(keys[18]) == 18);
    assert(key_position(keys[19]) == 19);
    assert(key_position(keys[20]) == 20);
    assert(key_position(keys[21]) == 21);
}

/// The names of the predefined dictionaries, in listing order.
pub open spec fn predefined_names() -> Seq<Seq<char>> {
    seq![
        "DICT_4X4_50"@,
        "DICT_4X4_100"@,
        "DICT_4X4_250"@,
        "DICT_4X4_1000"@,
        "DICT_5X5_50"@,
        "DICT_5X5_100"@,
        "DICT_5X5_250"@,
        "DICT_5X5_1000"@,
        "DICT_6X6_50"@,
        "DICT_6X6_100"@,
        "DICT_6X6_250"@,
        "DICT_6X6_1000"@,
        "DICT_7X7_50"@,
        "DICT_7X7_100"@,
        "DICT_7X7_250"@,
        "DICT_7X7_1000"@,
        "DICT_ARUCO_ORIGINAL"@,
        "DICT_ARUCO_MIP_36h12"@,
        "DICT_APRILTAG_16h5"@,
        "DICT_APRILTAG_25h9"@,
        "DICT_APRILTAG_36h10"@,
        "DICT_APRILTAG_36h11"@,
    ]
}

/// Each listed name has the listed key, and each listed key names a
/// predefined dictionary.
#[verifier::spinoff_prover]
#[verifier::rlimit(100)]
proof fn lemma_predefined_names()
    ensures
        forall|i: int| 0 <= i < 22 ==> dictionary_key(#[trigger] predefined_names()[i]) == predefined_keys()[i],
        forall|i: int| 0 <= i < 22 ==> #[trigger] predefined_entry(predefined_keys()[i]) is Some,
        forall|i: int| 0 <= i < 22 ==> #[trigger] key_position(predefined_keys()[i]) == i,
        forall|key: Seq<char>| #[trigger] predefined_entry(key) is Some ==> exists|i: int| 0 <= i < 22 && predefined_keys()[i] == key,
{
    lemma_predefined_keys();
    reveal_strlit("DICT_4X4_50");
    reveal_strlit("DICT_4X4_100");
    reveal_strlit("DICT_4X4_250");
    reveal_strlit("DICT_4X4_1000");
    reveal_strlit("DICT_5X5_50");
    reveal_strlit("DICT_5X5_100");
    reveal_strlit("DICT_5X5_250");
    reveal_strlit("DICT_5X5_1000");
    reveal_strlit("DICT_6X6_50");
    reveal_strlit("DICT_6X6_100");
    reveal_strlit("DICT_6X6_250");
    reveal_strlit("DICT_6X6_1000");
    reveal_strlit("DICT_7X7_50");
    reveal_strlit("DICT_7X7_100");
    reveal_strlit("DICT_7X7_250");
    reveal_strlit("DICT_7X7_1000");
    reveal_strlit("DICT_ARUCO_ORIGINAL");
    reveal_strlit("DICT_ARUCO_MIP_36h12");
    reveal_strlit("DICT_APRILTAG_16h5");
    reveal_strlit("DICT_APRILTAG_25h9");
    reveal_strlit("DICT_APRILTAG_36h10");
    reveal_strlit("DICT_APRILTAG_36h11");
    reveal_strlit("4X4_50");
    reveal_strlit("4X4_100");
    reveal_strlit("4X4_250");
    reveal_strlit("4X4_1000");
    reveal_strlit("5X5_50");
    reveal_strlit("5X5_100");
    reveal_strlit("5X5_250");
    reveal_strlit("5X5_1000");
    reveal_strlit("6X6_50");
    reveal_strlit("6X6_100");
    reveal_strlit("6X6_250");
    reveal_strlit("6X6_1000");
    reveal_strlit("7X7_50");
    reveal_strlit("7X7_100");
    reveal_strlit("7X7_250");
    reveal_strlit("7X7_1000");
    reveal_strlit("ARUCO_ORIGINAL");
    reveal_strlit("ARUCO_MIP_36H12");
    reveal_strlit("APRILTAG_16H5");
    reveal_strlit("APRILTAG_25H9");
    reveal_strlit("APRILTAG_36H10");
    reveal_strlit("APRILTAG_36H11");
    let ns = predefined_names();
    let ks = predefined_keys();
    assert(dictionary_key(ns[0]) =~= ks[0]);
    assert(predefined_entry(ks[0]) is Some);
    assert(dictionary_key(ns[1]) =~= ks[1]);
    assert(predefined_entry(ks[1]) is Some);
    assert(dictionary_key(ns[2]) =~= ks[2]);
    assert(predefined_entry(ks[2]) is Some);
    assert(dictionary_key(ns[3]) =~= ks[3]);
    assert(predefined_entry(ks[3]) is Some);
    assert(dictionary_key(ns[4]) =~= ks[4]);
    assert(predefined_entry(ks[4]) is Some);
    assert(dictionary_key(ns[5]) =~= ks[5]);
    assert(predefined_entry(ks[5]) is Some);
    assert(dictionary_key(ns[6]) =~= ks[6]);
    assert(predefined_entry(ks[6]) is Some);
    assert(dictionary_key(ns[7]) =~= ks[7]);
    assert(predefined_entry(ks[7]) is Some);
    assert(dictionary_key(ns[8]) =~= ks[8]);
    assert(predefined_entry(ks[8]) is Some);
    assert(dictionary_key(ns[9]) =~= ks[9]);
    assert(predefined_entry(ks[9]) is Some);
    assert(dictionary_key(ns[10]) =~= ks[10]);
    assert(predefined_entry(ks[10]) is Some);
    assert(dictionary_key(ns[11]) =~= ks[11]);
    assert(predefined_entry(ks[11]) is Some);
    assert(dictionary_key(ns[12]) =~= ks[12]);
    assert(predefined_entry(ks[12]) is Some);
    assert(dictionary_key(ns[13]) =~= ks[13]);
    assert(predefined_entry(ks[13]) is Some);
    assert(dictionary_key(ns[14]) =~= ks[14]);
    assert(predefined_entry(ks[14]) is Some);
    assert(dictionary_key(ns[15]) =~= ks[15]);
    assert(predefined_entry(ks[15]) is Some);
    assert(dictionary_key(ns[16]) =~= ks[16]);
    assert(predefined_entry(ks[16]) is Some);
    assert(dictionary_key(ns[17]) =~= ks[17]);
    assert(predefined_entry(ks[17]) is Some);
    assert(dictionary_key(ns[18]) =~= ks[18]);
    assert(predefined_entry(ks[18]) is Some);
    assert(dictionary_key(ns[19]) =~= ks[19]);
    assert(predefined_entry(ks[19]) is Some);
    assert(dictionary_key(ns[20]) =~= ks[20]);
    assert(predefined_entry(ks[20]) is Some);
    assert(dictionary_key(ns[21]) =~= ks[21]);
    assert(predefined_entry(ks[21]) is Some);
}

/// The names of the predefined dictionaries; `get_predefined_dictionary`
/// accepts each of them, no two name the same dictionary, and every name it
/// accepts names one of them.
pub fn predefined_dictionary_names() -> (names: Vec<&'static str>)
    ensures
        names.len() == 22,
        names@.map_values(|s: &'static str| s@) == predefined_names(),
        forall|i: int| 0 <= i < names.len() ==> #[trigger] predefined_entry(dictionary_key(names@[i]@)) is Some,
        forall|i: int, j: int|
            0 <= i < j < names.len() ==> dictionary_key(#[trigger] names@[i]@) != dictionary_key(#[trigger] names@[j]@),
        forall|key: Seq<char>|
            #[trigger] predefined_entry(key) is Some ==> exists|i: int|
                0 <= i < names.len() && dictionary_key(#[trigger] names@[i]@) == key,
{
    let mut names: Vec<&'static str> = Vec::new();
    names.push("DICT_4X4_50");
    names.push("DICT_4X4_100");
    names.push("DICT_4X4_250");
    names.push("DICT_4X4_1000");
    names.push("DICT_5X5_50");
    names.push("DICT_5X5_100");
    names.push("DICT_5X5_250");
    names.push("DICT_5X5_1000");
    names.push("DICT_6X6_50");
    names.push("DICT_6X6_100");
    names.push("DICT_6X6_250");
    names.push("DICT_6X6_1000");
    names.push("DICT_7X7_50");
    names.push("DICT_7X7_100");
    names.push("DICT_7X7_250");
    names.push("DICT_7X7_1000");
    names.push("DICT_ARUCO_ORIGINAL");
    names.push("DICT_ARUCO_MIP_36h12");
    names.push("DICT_APRILTAG_16h5");
    names.push("DICT_APRILTAG_25h9");
    names.push("DICT_APRILTAG_36h10");
    names.push("DICT_APRILTAG_36h11");
    proof {
        assert(names@.map_values(|s: &'static str| s@) =~= predefined_names());
        lemma_predefined_names();
        let keys = predefined_keys();
        assert forall|i: int| 0 <= i < 22 implies dictionary_key(#[trigger] names@[i]@) == keys[i] by {
            assert(names@.map_values(|s: &'static str| s@)[i] == names@[i]@);
        }
        assert forall|i: int, j: int| 0 <= i < j < names.len() implies dictionary_key(#[trigger] names@[i]@)
            != dictionary_key(#[trigger] names@[j]@) by {
            assert(key_position(keys[i]) == i);
            assert(key_position(keys[j]) == j);
        }
        assert forall|key: Seq<char>| #[trigger] predefined_entry(key) is Some implies exists|i: int|
            0 <= i < names.len() && dictionary_key(#[trigger] names@[i]@) == key by {
            let i: int = choose|i: int| 0 <= i < 22 && keys[i] == key;
            assert(dictionary_key(names@[i]@) == key);
        }
        assert forall|i: int| 0 <= i < names.len() implies #[trigger] predefined_entry(dictionary_key(names@[i]@)) is Some by {
            assert(dictionary_key(names@[i]@) == keys[i]);
        }
    }
    names
}

} // verus!
