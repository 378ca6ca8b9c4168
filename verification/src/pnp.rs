//! Deterministic sampling for robust (RANSAC) pose estimation.

use vstd::prelude::*;

verus! {

/// Replacement for the all-zero seed, which xorshift cannot use.
pub const ZERO_SEED_STATE: u64 = 0x9e37_79b9_7f4a_7c15;

/// Output multiplier of xorshift64*.
pub const OUTPUT_MULTIPLIER: u64 = 0x2545_f491_4f6c_dd1d;

/// One xorshift64 step: `x ^= x >> 12; x ^= x << 25; x ^= x >> 27`.
pub open spec fn xorshift_step(x: u64) -> u64 {
    let a = x ^ (x >> 12u64);
    let b = a ^ (a << 25u64);
    b ^ (b >> 27u64)
}

/// The value xorshift64* emits from state `x`.
pub open spec fn xorshift_output(x: u64) -> u64 {
    x.wrapping_mul(OUTPUT_MULTIPLIER)
}

/// The candidate index drawn from state `x` for a population of `population`.
pub open spec fn draw_index(x: u64, population: usize) -> usize {
    ((xorshift_output(x) as usize) % population) as usize
}

/// Smallest index below `population` not in `used`.
pub open spec fn smallest_unused(used: Seq<usize>, population: usize) -> usize {
    choose|c: usize| c < population && !used.contains(c) && forall|d: usize| d < c ==> used.contains(d)
}

/// Drawing one new index: states are advanced until the drawn index is not in
/// `used`, at most `budget` times; after that the smallest unused index is
/// taken. Returns (index, final state).
pub open spec fn pick(state: u64, population: usize, used: Seq<usize>, budget: nat) -> (usize, u64)
    decreases budget,
{
    if budget == 0 {
        (smallest_unused(used, population), state)
    } else {
        let s2 = xorshift_step(state);
        let c = draw_index(s2, population);
        if used.contains(c) {
            pick(s2, population, used, (budget - 1) as nat)
        } else {
            (c, s2)
        }
    }
}

/// Draws per index before falling back to the smallest unused index.
pub open spec fn draw_budget() -> nat {
    u64::MAX as nat
}

/// The first `k` indices of a sample and the state after drawing them.
pub open spec fn sample_prefix(state: u64, population: usize, k: int) -> (Seq<usize>, u64)
    decreases k,
{
    if k <= 0 {
        (Seq::empty(), state)
    } else {
        let prev = sample_prefix(state, population, k - 1);
        let next = pick(prev.1, population, prev.0, draw_budget());
        (prev.0.push(next.0), next.1)
    }
}

/// The state a generator starts from for `seed` (0 is replaced by a fixed
/// non-zero state).
pub open spec fn seed_state(seed: u64) -> u64 {
    if seed == 0 {
        ZERO_SEED_STATE
    } else {
        seed
    }
}

/// Small deterministic xorshift64* generator used for RANSAC sampling: a
/// given seed reproduces the same hypotheses on every platform.
pub struct RansacRng {
    state: u64,
}

impl RansacRng {
    pub closed spec fn state(&self) -> u64 {
        self.state
    }

    /// A generator seeded with `seed` (0 is replaced by a fixed non-zero state).
    pub fn new(seed: u64) -> (r: RansacRng)
        ensures
            r.state() == seed_state(seed),
    {
        RansacRng { state: if seed == 0 { ZERO_SEED_STATE } else { seed } }
    }

    /// Advance the state one xorshift step and emit its xorshift64* output.
    pub fn next_u64(&mut self) -> (v: u64)
        ensures
            final(self).state() == xorshift_step(old(self).state()),
            v == xorshift_output(final(self).state()),
    {
        let mut x = self.state;
        x ^= x >> 12;
        x ^= x << 25;
        x ^= x >> 27;
        self.state = x;
        x.wrapping_mul(OUTPUT_MULTIPLIER)
    }

    /// Sampling is reproducible: two generators built from the same seed draw
    /// the same indices and end in the same state.
    pub proof fn lemma_same_seed_same_samples(r1: RansacRng, r2: RansacRng, seed: u64, population: usize, count: int)
        requires
            r1.state() == seed_state(seed),
            r2.state() == seed_state(seed),
        ensures
            sample_prefix(r1.state(), population, count) == sample_prefix(r2.state(), population, count),
    {
    }

    /// Draw one index below `population` that is not among the first `len`
    /// entries of `indices`, rejecting candidates already drawn.
    fn draw_fresh(&mut self, indices: &[usize; 6], len: usize, population: usize) -> (c: usize)
        requires
            len < 6,
            len < population,
        ensures
            (c, final(self).state()) == pick(old(self).state(), population, indices@.subrange(0, len as int), draw_budget()),
    {
        let ghost used = indices@.subrange(0, len as int);
        let mut budget: u64 = u64::MAX;
        while budget > 0
            invariant
                len < 6,
                len < population,
                used == indices@.subrange(0, len as int),
                pick(old(self).state(), population, used, draw_budget()) == pick(self.state, population, used, budget as nat),
            decreases budget,
        {
            let v = self.next_u64();
            let candidate = (v as usize) % population;
            budget = budget - 1;
            if !prefix_contains(indices, len, candidate) {
                return candidate;
            }
        }
        // Reached only if the generator never produced a fresh index.
        smallest_absent(indices, len, population)
    }

    /// Draw `count` distinct indices below `population`, each by rejecting
    /// indices already drawn; the rest of the returned array is 0.
    pub fn sample(&mut self, population: usize, count: usize) -> (indices: [usize; 6])
        requires
            count <= 6,
            count <= population,
        ensures
            indices@.subrange(0, count as int) == sample_prefix(old(self).state(), population, count as int).0,
            final(self).state() == sample_prefix(old(self).state(), population, count as int).1,
            forall|i: int| count <= i < 6 ==> indices@[i] == 0,
            forall|i: int| 0 <= i < count ==> #[trigger] indices@[i] < population,
            forall|i: int, j: int| 0 <= i < j < count ==> indices@[i] != indices@[j],
    {
        let mut indices = [0usize; 6];
        let ghost s0 = self.state;
        let mut i: usize = 0;
        while i < count
            invariant
                i <= count,
                count <= 6,
                count <= population,
                indices@.len() == 6,
                indices@.subrange(0, i as int) == sample_prefix(s0, population, i as int).0,
                self.state == sample_prefix(s0, population, i as int).1,
                forall|k: int| i <= k < 6 ==> indices@[k] == 0,
                forall|k: int| 0 <= k < i ==> #[trigger] indices@[k] < population,
                forall|k: int, j: int| 0 <= k < j < i ==> indices@[k] != indices@[j],
            decreases count - i,
        {
            let ghost used = indices@.subrange(0, i as int);
            let ghost before = self.state;
            let c = self.draw_fresh(&indices, i, population);
            proof {
                lemma_pick_fresh(before, population, used, draw_budget());
                lemma_sample_step(s0, population, i as int, c, self.state);
            }
            indices[i] = c;
            assert(indices@.subrange(0, i + 1) =~= used.push(c));
            assert forall|k: int| 0 <= k < i implies indices@[k] != c by {
                assert(used[k] == indices@[k]);
            }
            i = i + 1;
        }
        indices
    }
}

/// Whether `x` occurs among the first `len` entries of `indices`.
fn prefix_contains(indices: &[usize; 6], len: usize, x: usize) -> (b: bool)
    requires
        len <= 6,
    ensures
        b == indices@.subrange(0, len as int).contains(x),
{
    let mut k: usize = 0;
    while k < len
        invariant
            k <= len,
            len <= 6,
            forall|j: int| 0 <= j < k ==> indices@[j] != x,
        decreases len - k,
    {
        if indices[k] == x {
            assert(indices@.subrange(0, len as int)[k as int] == x);
            return true;
        }
        k = k + 1;
    }
    assert forall|j: int| 0 <= j < len implies indices@.subrange(0, len as int)[j] != x by {}
    false
}

/// The smallest index below `population` absent from the first `len` entries.
fn smallest_absent(indices: &[usize; 6], len: usize, population: usize) -> (c: usize)
    requires
        len < 6,
        len < population,
    ensures
        c == smallest_unused(indices@.subrange(0, len as int), population),
{
    let ghost used = indices@.subrange(0, len as int);
    proof {
        lemma_unused_exists(used, population);
    }
    let mut c: usize = 0;
    while prefix_contains(indices, len, c)
        invariant
            len < 6,
            len < population,
            used == indices@.subrange(0, len as int),
            c < population,
            forall|d: usize| d < c ==> used.contains(d),
            exists|e: usize| e < population && !used.contains(e),
        decreases population - c,
    {
        proof {
            let e = choose|e: usize| e < population && !used.contains(e);
            if c + 1 >= population {
                assert(e <= c);
                assert(false);
            }
        }
        c = c + 1;
    }
    proof {
        lemma_smallest_unused(used, population, c);
    }
    c
}

/// A sequence shorter than `population` misses some index below `population`.
proof fn lemma_unused_exists(used: Seq<usize>, population: usize)
    requires
        used.len() < population,
    ensures
        exists|e: usize| e < population && !used.contains(e),
{
    let ints = used.map_values(|x: usize| x as int);
    let range = vstd::set_lib::set_int_range(0, population as int);
    vstd::set_lib::lemma_int_range(0, population as int);
    ints.lemma_cardinality_of_set();
    if forall|e: usize| e < population ==> used.contains(e) {
        assert forall|v: int| range.contains(v) implies ints.to_set().contains(v) by {
            let e = v as usize;
            assert(used.contains(e));
            let j = choose|j: int| 0 <= j < used.len() && used[j] == e;
            assert(ints[j] == v);
        }
        vstd::seq_lib::seq_to_set_is_finite(ints);
        vstd::set_lib::lemma_len_subset(range, ints.to_set());
        assert(false);
    }
}

/// The index `c` that is absent while every smaller index is present is
/// the one `smallest_unused` names.
proof fn lemma_smallest_unused(used: Seq<usize>, population: usize, c: usize)
    requires
        c < population,
        !used.contains(c),
        forall|d: usize| d < c ==> used.contains(d),
    ensures
        c == smallest_unused(used, population),
{
    let s = smallest_unused(used, population);
    assert(s < population && !used.contains(s) && forall|d: usize| d < s ==> used.contains(d));
    if s < c {
        assert(used.contains(s));
    }
    if c < s {
        assert(used.contains(c));
    }
}

/// One more draw extends the sample prefix by the drawn index.
proof fn lemma_sample_step(s0: u64, population: usize, i: int, c: usize, st: u64)
    requires
        i >= 0,
        (c, st) == pick(sample_prefix(s0, population, i).1, population, sample_prefix(s0, population, i).0, draw_budget()),
    ensures
        sample_prefix(s0, population, i + 1).0 == sample_prefix(s0, population, i).0.push(c),
        sample_prefix(s0, population, i + 1).1 == st,
{
}

/// Each drawn index is below `population` and not drawn before.
proof fn lemma_pick_fresh(state: u64, population: usize, used: Seq<usize>, budget: nat)
    requires
        used.len() < population,
    ensures
        pick(state, population, used, budget).0 < population,
        !used.contains(pick(state, population, used, budget).0),
    decreases budget,
{
    if budget == 0 {
        lemma_unused_exists(used, population);
        let e = choose|e: usize| e < population && !used.contains(e);
        lemma_least_absent(used, population, e);
    } else {
        let s2 = xorshift_step(state);
        let c = draw_index(s2, population);
        if used.contains(c) {
            lemma_pick_fresh(s2, population, used, (budget - 1) as nat);
        }
    }
}

/// Some index at most `e` is absent and has every smaller index present.
proof fn lemma_least_absent(used: Seq<usize>, population: usize, e: usize)
    requires
        e < population,
        !used.contains(e),
    ensures
        smallest_unused(used, population) < population,
        !used.contains(smallest_unused(used, population)),
    decreases e,
{
    if forall|d: usize| d < e ==> used.contains(d) {
        lemma_smallest_unused(used, population, e);
    } else {
        let d = choose|d: usize| d < e && !used.contains(d);
        lemma_least_absent(used, population, d);
    }
}

} // verus!
