//! Choice of the CPU cores that detection workers are pinned to: an explicit
//! core list such as `4-7` or `4,5,6,7`, `all` to disable pinning, or the cores
//! clocked above the slowest frequency tier.

use vstd::prelude::*;

verus! {

/// Unicode `White_Space`, the set that `str::trim` removes.
pub open spec fn is_white_space(c: char) -> bool {
    ||| ('\u{9}' <= c <= '\u{d}')
    ||| c == ' '
    ||| c == '\u{85}'
    ||| c == '\u{a0}'
    ||| c == '\u{1680}'
    ||| ('\u{2000}' <= c <= '\u{200a}')
    ||| c == '\u{2028}'
    ||| c == '\u{2029}'
    ||| c == '\u{202f}'
    ||| c == '\u{205f}'
    ||| c == '\u{3000}'
}

/// `s` without leading white space.
pub open spec fn trim_start(s: Seq<char>) -> Seq<char>
    decreases s.len(),
{
    if s.len() > 0 && is_white_space(s[0]) {
        trim_start(s.skip(1))
    } else {
        s
    }
}

/// `s` without trailing white space.
pub open spec fn trim_end(s: Seq<char>) -> Seq<char>
    decreases s.len(),
{
    if s.len() > 0 && is_white_space(s.last()) {
        trim_end(s.drop_last())
    } else {
        s
    }
}

/// `s` without leading or trailing white space.
pub open spec fn trim(s: Seq<char>) -> Seq<char> {
    trim_end(trim_start(s))
}

/// Position of the first `c` in `s`, or `s.len()` when there is none.
pub open spec fn first_index(s: Seq<char>, c: char) -> int
    decreases s.len(),
{
    if s.len() == 0 {
        0
    } else if s[0] == c {
        0
    } else {
        1 + first_index(s.skip(1), c)
    }
}

pub open spec fn is_digit(c: char) -> bool {
    '0' <= c <= '9'
}

/// Decimal value of a string of digits.
pub open spec fn digits_value(d: Seq<char>) -> int
    decreases d.len(),
{
    if d.len() == 0 {
        0
    } else {
        10 * digits_value(d.drop_last()) + (d.last() as int - '0' as int)
    }
}

/// The digit string of `s`: `s` without one leading `+`.
pub open spec fn digits_part(s: Seq<char>) -> Seq<char> {
    if s.len() > 0 && s[0] == '+' {
        s.skip(1)
    } else {
        s
    }
}

pub open spec fn all_digits(d: Seq<char>) -> bool {
    forall|i: int| 0 <= i < d.len() ==> #[trigger] is_digit(d[i])
}

/// `usize::from_str`: an optional `+`, then one or more ASCII digits, with a
/// value that fits in `usize`.
pub open spec fn parse_usize(s: Seq<char>) -> Option<int> {
    let d = digits_part(s);
    if d.len() == 0 || !all_digits(d) {
        None
    } else if digits_value(d) > usize::MAX {
        None
    } else {
        Some(digits_value(d))
    }
}

/// `u64::from_str`: an optional `+`, then one or more ASCII digits, with a
/// value that fits in `u64`.
pub open spec fn parse_u64(s: Seq<char>) -> Option<int> {
    let d = digits_part(s);
    if d.len() == 0 || !all_digits(d) {
        None
    } else if digits_value(d) > u64::MAX {
        None
    } else {
        Some(digits_value(d))
    }
}

/// The cores named by one comma-separated part: nothing for a blank part, one
/// core `n`, or the inclusive range `a-b` with `a <= b`. `None` when malformed.
pub open spec fn part_cores(p: Seq<char>) -> Option<Set<int>> {
    let t = trim(p);
    let j = first_index(t, '-');
    if t.len() == 0 {
        Some(Set::empty())
    } else if j < t.len() {
        match (parse_usize(trim(t.take(j))), parse_usize(trim(t.skip(j + 1)))) {
            (Some(a), Some(b)) => if a <= b {
                Some(Set::new(|c: int| a <= c <= b))
            } else {
                None
            },
            _ => None,
        }
    } else {
        match parse_usize(t) {
            Some(v) => Some(set![v]),
            None => None,
        }
    }
}

/// The cores named by a comma-separated list, or `None` when a part is malformed.
pub open spec fn list_cores(s: Seq<char>) -> Option<Set<int>>
    decreases s.len(),
{
    let i = first_index(s, ',');
    match part_cores(s.take(i)) {
        None => None,
        Some(here) => if i >= s.len() {
            Some(here)
        } else {
            proof {
                lemma_first_index_bounds(s, ',');
            }
            match list_cores(s.skip(i + 1)) {
                None => None,
                Some(rest) => Some(here + rest),
            }
        },
    }
}

/// `v` is strictly increasing.
pub open spec fn strictly_increasing(v: Seq<usize>) -> bool {
    forall|i: int, j: int| 0 <= i < j < v.len() ==> v[i] < v[j]
}

/// The values held by `v`.
pub open spec fn seq_set(v: Seq<usize>) -> Set<int> {
    Set::new(|c: int| exists|i: int| 0 <= i < v.len() && v[i] as int == c)
}

proof fn lemma_first_index(s: Seq<char>, c: char, k: int)
    requires
        0 <= k <= s.len(),
        forall|j: int| 0 <= j < k ==> s[j] != c,
        k == s.len() || s[k] == c,
    ensures
        first_index(s, c) == k,
    decreases k,
{
    if k > 0 {
        lemma_first_index(s.skip(1), c, k - 1);
    }
}

pub proof fn lemma_first_index_bounds(s: Seq<char>, c: char)
    ensures
        0 <= first_index(s, c) <= s.len(),
        first_index(s, c) < s.len() ==> s[first_index(s, c)] == c,
    decreases s.len(),
{
    if s.len() > 0 && s[0] != c {
        lemma_first_index_bounds(s.skip(1), c);
    }
}

proof fn lemma_trim_start(s: Seq<char>, k: int)
    requires
        0 <= k <= s.len(),
        forall|j: int| 0 <= j < k ==> is_white_space(s[j]),
        k == s.len() || !is_white_space(s[k]),
    ensures
        trim_start(s) == s.skip(k),
    decreases k,
{
    if k > 0 {
        lemma_trim_start(s.skip(1), k - 1);
        assert(s.skip(1).skip(k - 1) =~= s.skip(k));
    } else {
        assert(s.skip(0) =~= s);
    }
}

proof fn lemma_trim_end(s: Seq<char>, k: int)
    requires
        0 <= k <= s.len(),
        forall|j: int| k <= j < s.len() ==> is_white_space(s[j]),
        k == 0 || !is_white_space(s[k - 1]),
    ensures
        trim_end(s) == s.take(k),
    decreases s.len() - k,
{
    if k < s.len() {
        lemma_trim_end(s.drop_last(), k);
        assert(s.drop_last().take(k) =~= s.take(k));
    } else {
        assert(s.take(k) =~= s);
    }
}

proof fn lemma_digits_nonneg(d: Seq<char>)
    requires
        forall|i: int| 0 <= i < d.len() ==> is_digit(d[i]),
    ensures
        digits_value(d) >= 0,
    decreases d.len(),
{
    if d.len() > 0 {
        lemma_digits_nonneg(d.drop_last());
    }
}

proof fn lemma_digits_mono(d: Seq<char>, k: int)
    requires
        0 <= k <= d.len(),
        forall|i: int| 0 <= i < d.len() ==> is_digit(d[i]),
    ensures
        digits_value(d.take(k)) <= digits_value(d),
    decreases d.len(),
{
    if k < d.len() {
        lemma_digits_mono(d.drop_last(), k);
        assert(d.drop_last().take(k) =~= d.take(k));
        lemma_digits_nonneg(d.drop_last());
    } else {
        assert(d.take(k) =~= d);
    }
}

/// The characters of `s`.
fn chars_of(s: &str) -> (out: Vec<char>)
    ensures
        out@ == s@,
{
    let n = s.unicode_len();
    let mut out: Vec<char> = Vec::new();
    let mut i: usize = 0;
    while i < n
        invariant
            i <= n,
            n == s@.len(),
            out@ == s@.take(i as int),
        decreases n - i,
    {
        out.push(s.get_char(i));
        i = i + 1;
        assert(out@ =~= s@.take(i as int));
    }
    assert(s@.take(n as int) =~= s@);
    out
}

fn is_white_space_char(c: char) -> (b: bool)
    ensures
        b == is_white_space(c),
{
    ('\u{9}' <= c && c <= '\u{d}') || c == ' ' || c == '\u{85}' || c == '\u{a0}' || c == '\u{1680}'
        || ('\u{2000}' <= c && c <= '\u{200a}') || c == '\u{2028}' || c == '\u{2029}' || c
        == '\u{202f}' || c == '\u{205f}' || c == '\u{3000}'
}

/// Position of the first `c` in `chars[lo..hi]`, or `hi`.
fn find_char(chars: &Vec<char>, lo: usize, hi: usize, c: char) -> (k: usize)
    requires
        lo <= hi <= chars@.len(),
    ensures
        lo <= k <= hi,
        k - lo == first_index(chars@.subrange(lo as int, hi as int), c),
{
    let mut k = lo;
    while k < hi
        invariant
            lo <= k <= hi,
            hi <= chars@.len(),
            forall|j: int| lo <= j < k ==> chars@[j] != c,
        decreases hi - k,
    {
        if chars[k] == c {
            proof {
                lemma_first_index(chars@.subrange(lo as int, hi as int), c, k - lo);
            }
            return k;
        }
        k = k + 1;
    }
    proof {
        lemma_first_index(chars@.subrange(lo as int, hi as int), c, k - lo);
    }
    k
}

/// The trimmed bounds of `chars[lo..hi]`.
fn trim_range(chars: &Vec<char>, lo: usize, hi: usize) -> (r: (usize, usize))
    requires
        lo <= hi <= chars@.len(),
    ensures
        lo <= r.0 <= r.1 <= hi,
        chars@.subrange(r.0 as int, r.1 as int) == trim(chars@.subrange(lo as int, hi as int)),
{
    let mut a = lo;
    while a < hi && is_white_space_char(chars[a])
        invariant
            lo <= a <= hi,
            hi <= chars@.len(),
            forall|j: int| lo <= j < a ==> is_white_space(chars@[j]),
        decreases hi - a,
    {
        a = a + 1;
    }
    let mut b = hi;
    while b > a && is_white_space_char(chars[b - 1])
        invariant
            a <= b <= hi,
            hi <= chars@.len(),
            forall|j: int| b <= j < hi ==> is_white_space(chars@[j]),
        decreases b - a,
    {
        b = b - 1;
    }
    proof {
        let s = chars@.subrange(lo as int, hi as int);
        lemma_trim_start(s, a - lo);
        assert(s.skip(a - lo) =~= chars@.subrange(a as int, hi as int));
        let t = chars@.subrange(a as int, hi as int);
        lemma_trim_end(t, b - a);
        assert(t.take(b - a) =~= chars@.subrange(a as int, b as int));
    }
    (a, b)
}

proof fn lemma_parse_usize_none(s: Seq<char>)
    requires
        digits_part(s).len() == 0 || !all_digits(digits_part(s)) || digits_value(digits_part(s))
            > usize::MAX,
    ensures
        parse_usize(s) is None,
{
}

/// `usize::from_str` on `chars[lo..hi]`.
#[verifier::loop_isolation(false)]
fn parse_usize_range(chars: &Vec<char>, lo: usize, hi: usize) -> (r: Option<usize>)
    requires
        lo <= hi <= chars@.len(),
    ensures
        match parse_usize(chars@.subrange(lo as int, hi as int)) {
            None => r is None,
            Some(v) => r == Some(v as usize) && 0 <= v <= usize::MAX,
        },
{
    let ghost s = chars@.subrange(lo as int, hi as int);
    let d0: usize = if lo < hi && chars[lo] == '+' {
        lo + 1
    } else {
        lo
    };
    let ghost d = chars@.subrange(d0 as int, hi as int);
    assert(d =~= digits_part(s));
    if d0 == hi {
        proof {
            lemma_parse_usize_none(s);
        }
        return None;
    }
    let mut acc: usize = 0;
    let mut i = d0;
    while i < hi
        invariant
            d0 <= i <= hi,
            hi <= chars@.len(),
            d == chars@.subrange(d0 as int, hi as int),
            forall|j: int| d0 <= j < i ==> is_digit(chars@[j]),
            acc == digits_value(d.take(i - d0)),
        decreases hi - i,
    {
        let c = chars[i];
        if !('0' <= c && c <= '9') {
            assert(!is_digit(d[i - d0]));
            proof {
                lemma_parse_usize_none(s);
            }
            return None;
        }
        let digit = (c as u32 - '0' as u32) as usize;
        assert(d.take(i - d0 + 1).drop_last() =~= d.take(i - d0));
        let next = match acc.checked_mul(10) {
            Some(m) => m.checked_add(digit),
            None => None,
        };
        match next {
            Some(v) => {
                acc = v;
            },
            None => {
                proof {
                    assert(digits_value(d.take(i - d0 + 1)) > usize::MAX);
                    if all_digits(d) {
                        lemma_digits_mono(d, i - d0 + 1);
                    }
                    lemma_parse_usize_none(s);
                }
                return None;
            },
        }
        i = i + 1;
    }
    assert(d.take(d.len() as int) =~= d);
    proof {
        lemma_digits_nonneg(d);
    }
    Some(acc)
}

/// `u64::from_str` on `chars[lo..hi]`.
#[verifier::loop_isolation(false)]
fn parse_u64_range(chars: &Vec<char>, lo: usize, hi: usize) -> (r: Option<u64>)
    requires
        lo <= hi <= chars@.len(),
    ensures
        match parse_u64(chars@.subrange(lo as int, hi as int)) {
            None => r is None,
            Some(v) => r == Some(v as u64) && 0 <= v <= u64::MAX,
        },
{
    let ghost s = chars@.subrange(lo as int, hi as int);
    let d0: usize = if lo < hi && chars[lo] == '+' {
        lo + 1
    } else {
        lo
    };
    let ghost d = chars@.subrange(d0 as int, hi as int);
    assert(d =~= digits_part(s));
    if d0 == hi {
        return None;
    }
    let mut acc: u64 = 0;
    let mut i = d0;
    while i < hi
        invariant
            d0 <= i <= hi,
            hi <= chars@.len(),
            d == chars@.subrange(d0 as int, hi as int),
            forall|j: int| d0 <= j < i ==> is_digit(chars@[j]),
            acc == digits_value(d.take(i - d0)),
        decreases hi - i,
    {
        let c = chars[i];
        if !('0' <= c && c <= '9') {
            assert(!is_digit(d[i - d0]));
            return None;
        }
        let digit = (c as u32 - '0' as u32) as u64;
        assert(d.take(i - d0 + 1).drop_last() =~= d.take(i - d0));
        let next = match acc.checked_mul(10) {
            Some(m) => m.checked_add(digit),
            None => None,
        };
        match next {
            Some(v) => {
                acc = v;
            },
            None => {
                proof {
                    assert(digits_value(d.take(i - d0 + 1)) > u64::MAX);
                    if all_digits(d) {
                        lemma_digits_mono(d, i - d0 + 1);
                    }
                }
                return None;
            },
        }
        i = i + 1;
    }
    assert(d.take(d.len() as int) =~= d);
    proof {
        lemma_digits_nonneg(d);
    }
    Some(acc)
}

/// The core number of a sysfs CPU entry named `cpu<N>`, if the name has that form.
pub fn cpu_index(name: &str) -> (res: Option<usize>)
    ensures
        res == (if name@.len() >= 3 && name@.take(3) == seq!['c', 'p', 'u'] {
            match parse_usize(name@.skip(3)) {
                Some(v) => Some(v as usize),
                None => None,
            }
        } else {
            None
        }),
{
    let chars = chars_of(name);
    if chars.len() >= 3 && chars[0] == 'c' && chars[1] == 'p' && chars[2] == 'u' {
        assert(chars@.take(3) =~= seq!['c', 'p', 'u']);
        assert(chars@.subrange(3, chars@.len() as int) =~= name@.skip(3));
        parse_usize_range(&chars, 3, chars.len())
    } else {
        assert(chars@.len() >= 3 ==> chars@.take(3)[0] == chars@[0] && chars@.take(3)[1] == chars@[1] && chars@.take(3)[2] == chars@[2]);
        None
    }
}

/// The frequency written in a `cpuinfo_max_freq` file: its trimmed text as a `u64`.
pub fn parse_frequency(text: &str) -> (res: Option<u64>)
    ensures
        res == (match parse_u64(trim(text@)) {
            Some(v) => Some(v as u64),
            None => None,
        }),
{
    let chars = chars_of(text);
    let (a, b) = trim_range(&chars, 0, chars.len());
    assert(chars@.subrange(0, chars@.len() as int) =~= text@);
    parse_u64_range(&chars, a, b)
}

/// Add `x` to a strictly increasing vector, keeping it strictly increasing.
fn insert_sorted(v: &mut Vec<usize>, x: usize)
    requires
        strictly_increasing(old(v)@),
    ensures
        strictly_increasing(final(v)@),
        seq_set(final(v)@) == seq_set(old(v)@).insert(x as int),
{
    let n = v.len();
    let mut i: usize = n;
    while i > 0 && v[i - 1] > x
        invariant
            i <= n,
            n == v@.len(),
            forall|j: int| i <= j < n ==> v@[j] > x,
        decreases i,
    {
        i = i - 1;
    }
    if i > 0 && v[i - 1] == x {
        assert(seq_set(v@).contains(x as int));
        assert(seq_set(v@).insert(x as int) =~= seq_set(v@));
        return;
    }
    let ghost old_v = v@;
    v.insert(i, x);
    proof {
        assert(v@ =~= old_v.insert(i as int, x));
        assert forall|c: int| seq_set(v@).contains(c) <==> seq_set(old_v).insert(x as int).contains(c) by {
            if seq_set(old_v).contains(c) {
                let k = choose|k: int| 0 <= k < old_v.len() && old_v[k] as int == c;
                if k < i {
                    assert(v@[k] as int == c);
                } else {
                    assert(v@[k + 1] as int == c);
                }
            }
            if c == x as int {
                assert(v@[i as int] as int == c);
            }
            if seq_set(v@).contains(c) {
                let k = choose|k: int| 0 <= k < v@.len() && v@[k] as int == c;
                if k < i {
                    assert(old_v[k] as int == c);
                } else if k > i {
                    assert(old_v[k - 1] as int == c);
                }
            }
        }
        assert(seq_set(v@) =~= seq_set(old_v).insert(x as int));
    }
}

/// Add the cores of one comma-separated part `chars[lo..hi]` to `cores`;
/// false when the part is malformed.
fn add_part(chars: &Vec<char>, lo: usize, hi: usize, cores: &mut Vec<usize>) -> (ok: bool)
    requires
        lo <= hi <= chars@.len(),
        strictly_increasing(old(cores)@),
    ensures
        strictly_increasing(final(cores)@),
        match part_cores(chars@.subrange(lo as int, hi as int)) {
            None => !ok,
            Some(p) => ok && seq_set(final(cores)@) == seq_set(old(cores)@) + p,
        },
{
    let ghost p = chars@.subrange(lo as int, hi as int);
    let (a, b) = trim_range(chars, lo, hi);
    let ghost t = chars@.subrange(a as int, b as int);
    if a == b {
        assert(seq_set(cores@) + Set::<int>::empty() =~= seq_set(cores@));
        return true;
    }
    let dash = find_char(chars, a, b, '-');
    if dash < b {
        proof {
            assert(t.take(dash - a) =~= chars@.subrange(a as int, dash as int));
            assert(t.skip(dash - a + 1) =~= chars@.subrange(dash + 1, b as int));
        }
        let (a0, a1) = trim_range(chars, a, dash);
        let (b0, b1) = trim_range(chars, dash + 1, b);
        let first = parse_usize_range(chars, a0, a1);
        let last = parse_usize_range(chars, b0, b1);
        match (first, last) {
            (Some(x), Some(y)) => {
                if x > y {
                    return false;
                }
                let ghost old_set = seq_set(cores@);
                proof {
                    let pc = part_cores(p)->0;
                    assert(part_cores(p) is Some);
                    assert(pc =~= Set::new(|k: int| x <= k <= y));
                }
                let mut c = x;
                loop
                    invariant
                        x <= c <= y,
                        old_set == seq_set(old(cores)@),
                        p == chars@.subrange(lo as int, hi as int),
                        part_cores(p) == Some(Set::new(|k: int| x <= k <= y)),
                        strictly_increasing(cores@),
                        seq_set(cores@) == old_set + Set::new(|k: int| x <= k < c),
                    decreases y - c,
                {
                    insert_sorted(cores, c);
                    proof {
                        assert(old_set + Set::new(|k: int| x <= k < c + 1) =~= (old_set + Set::new(
                            |k: int| x <= k < c,
                        )).insert(c as int));
                    }
                    if c == y {
                        assert(Set::new(|k: int| x <= k < c + 1) =~= Set::new(|k: int| x <= k <= y));
                        return true;
                    }
                    c = c + 1;
                }
            },
            _ => {
                return false;
            },
        }
    } else {
        match parse_usize_range(chars, a, b) {
            Some(v) => {
                insert_sorted(cores, v);
                assert(seq_set(old(cores)@).insert(v as int) =~= seq_set(old(cores)@) + set![v as int]);
                true
            },
            None => false,
        }
    }
}

/// Parse `4-7`, `4,5,6` or `3` into a sorted list of distinct cores. Parts are
/// separated by commas and trimmed; blank parts are skipped. `None` when a
/// part is malformed, a range is reversed, or no core is named.
pub fn parse_core_list(s: &str) -> (res: Option<Vec<usize>>)
    ensures
        match res {
            None => list_cores(s@) is None || list_cores(s@) == Some(Set::<int>::empty()),
            Some(v) => {
                &&& list_cores(s@) == Some(seq_set(v@))
                &&& v@.len() > 0
                &&& strictly_increasing(v@)
            },
        },
{
    let chars = chars_of(s);
    let n = chars.len();
    let mut cores: Vec<usize> = Vec::new();
    let mut start: usize = 0;
    assert(chars@.subrange(0, n as int) =~= s@);
    assert(seq_set(cores@) =~= Set::<int>::empty());
    loop
        invariant
            start <= n,
            n == chars@.len(),
            chars@ == s@,
            strictly_increasing(cores@),
            list_cores(s@) == match list_cores(chars@.subrange(start as int, n as int)) {
                None => None,
                Some(rest) => Some(seq_set(cores@) + rest),
            },
        decreases n + 1 - start,
    {
        let ghost rest = chars@.subrange(start as int, n as int);
        let end = find_char(&chars, start, n, ',');
        proof {
            assert(rest.take(end - start) =~= chars@.subrange(start as int, end as int));
            lemma_first_index_bounds(rest, ',');
        }
        let ghost before = seq_set(cores@);
        let ok = add_part(&chars, start, end, &mut cores);
        if !ok {
            return None;
        }
        if end >= n {
            if cores.len() == 0 {
                assert(seq_set(cores@) =~= Set::<int>::empty());
                return None;
            } else {
                return Some(cores);
            }
        }
        proof {
            assert(rest.skip(end - start + 1) =~= chars@.subrange(end + 1, n as int));
            let p = part_cores(chars@.subrange(start as int, end as int))->0;
            match list_cores(chars@.subrange(end + 1, n as int)) {
                None => {},
                Some(r2) => {
                    assert(before + (p + r2) =~= (before + p) + r2);
                },
            }
        }
        start = end + 1;
    }
}

/// `t` is `all` in any ASCII case.
pub open spec fn is_all(t: Seq<char>) -> bool {
    &&& t.len() == 3
    &&& (t[0] == 'a' || t[0] == 'A')
    &&& (t[1] == 'l' || t[1] == 'L')
    &&& (t[2] == 'l' || t[2] == 'L')
}

/// The smallest frequency in a non-empty list of (core, frequency) pairs.
pub open spec fn min_freq(freqs: Seq<(usize, u64)>) -> u64
    decreases freqs.len(),
{
    if freqs.len() <= 1 {
        freqs[0].1
    } else {
        let m = min_freq(freqs.drop_last());
        if freqs.last().1 < m {
            freqs.last().1
        } else {
            m
        }
    }
}

/// The cores, in list order, whose frequency is above `m`.
pub open spec fn cores_above(freqs: Seq<(usize, u64)>, m: u64) -> Seq<usize>
    decreases freqs.len(),
{
    if freqs.len() == 0 {
        Seq::empty()
    } else {
        let rest = cores_above(freqs.drop_last(), m);
        if freqs.last().1 > m {
            rest.push(freqs.last().0)
        } else {
            rest
        }
    }
}

/// The slowest frequency of a non-empty list is one of its frequencies and
/// is at most every one of them.
pub proof fn lemma_min_freq(freqs: Seq<(usize, u64)>)
    requires
        freqs.len() >= 1,
    ensures
        exists|i: int| 0 <= i < freqs.len() && #[trigger] freqs[i].1 == min_freq(freqs),
        forall|i: int| 0 <= i < freqs.len() ==> min_freq(freqs) <= #[trigger] freqs[i].1,
    decreases freqs.len(),
{
    if freqs.len() > 1 {
        let d = freqs.drop_last();
        lemma_min_freq(d);
        let i0 = choose|i: int| 0 <= i < d.len() && #[trigger] d[i].1 == min_freq(d);
        assert(freqs[i0] == d[i0]);
        assert forall|i: int| 0 <= i < freqs.len() implies min_freq(freqs) <= #[trigger] freqs[i].1 by {
            if i < d.len() {
                assert(freqs[i] == d[i]);
            }
        }
        if freqs.last().1 < min_freq(d) {
            assert(freqs[freqs.len() - 1].1 == min_freq(freqs));
        }
    } else {
        assert(freqs[0].1 == min_freq(freqs));
    }
}

/// The cores chosen above `m` are exactly the listed cores clocked above
/// `m`, in list order.
pub proof fn lemma_cores_above(freqs: Seq<(usize, u64)>, m: u64)
    ensures
        cores_above(freqs, m).len() <= freqs.len(),
        forall|j: int|
            0 <= j < cores_above(freqs, m).len() ==> exists|i: int|
                0 <= i < freqs.len() && freqs[i].0 == #[trigger] cores_above(freqs, m)[j] && freqs[i].1 > m,
        forall|i: int| 0 <= i < freqs.len() && #[trigger] freqs[i].1 > m ==> cores_above(freqs, m).contains(freqs[i].0),
    decreases freqs.len(),
{
    if freqs.len() > 0 {
        let d = freqs.drop_last();
        lemma_cores_above(d, m);
        let prev = cores_above(d, m);
        let cur = cores_above(freqs, m);
        if freqs.last().1 > m {
            assert(cur == prev.push(freqs.last().0));
            assert forall|j: int| 0 <= j < cur.len() implies exists|i: int|
                0 <= i < freqs.len() && freqs[i].0 == #[trigger] cur[j] && freqs[i].1 > m by {
                if j < prev.len() {
                    assert(cur[j] == prev[j]);
                    let i = choose|i: int| 0 <= i < d.len() && d[i].0 == #[trigger] prev[j] && d[i].1 > m;
                    assert(freqs[i] == d[i]);
                } else {
                    assert(freqs[freqs.len() - 1].0 == cur[j]);
                }
            }
            assert forall|i: int| 0 <= i < freqs.len() && #[trigger] freqs[i].1 > m implies cur.contains(freqs[i].0) by {
                if i < d.len() {
                    assert(freqs[i] == d[i]);
                    assert(d[i].1 > m);
                    let j = choose|j: int| 0 <= j < prev.len() && prev[j] == d[i].0;
                    assert(cur[j] == prev[j]);
                } else {
                    assert(cur[prev.len() as int] == freqs[i].0);
                }
            }
        } else {
            assert(cur == prev);
            assert forall|j: int| 0 <= j < cur.len() implies exists|i: int|
                0 <= i < freqs.len() && freqs[i].0 == #[trigger] cur[j] && freqs[i].1 > m by {
                let i = choose|i: int| 0 <= i < d.len() && d[i].0 == #[trigger] prev[j] && d[i].1 > m;
                assert(freqs[i] == d[i]);
            }
            assert forall|i: int| 0 <= i < freqs.len() && #[trigger] freqs[i].1 > m implies cur.contains(freqs[i].0) by {
                assert(i < d.len());
                assert(freqs[i] == d[i]);
                assert(d[i].1 > m);
            }
        }
    }
}

/// The cores that detection workers should run on, or `None` for no pinning.
///
/// With a core setting (`env_value`), `all` in any case disables pinning and
/// anything else is parsed as a core list, an unparseable list disabling
/// pinning too. Without one, the cores clocked above the slowest frequency
/// tier are chosen, provided there is at least one of them and at least one
/// slower core.
pub fn choose_fast_cores(env_value: Option<&str>, freqs: &[(usize, u64)]) -> (res: Option<Vec<usize>>)
    ensures
        match env_value {
            Some(v) => if is_all(trim(v@)) {
                res is None
            } else {
                match res {
                    None => list_cores(trim(v@)) is None || list_cores(trim(v@)) == Some(
                        Set::<int>::empty(),
                    ),
                    Some(cores) => {
                        &&& list_cores(trim(v@)) == Some(seq_set(cores@))
                        &&& cores@.len() > 0
                        &&& strictly_increasing(cores@)
                    },
                }
            },
            None => if freqs@.len() < 2 {
                res is None
            } else {
                let fast = cores_above(freqs@, min_freq(freqs@));
                if 1 <= fast.len() < freqs@.len() {
                    res matches Some(v) && v@ == fast
                } else {
                    res is None
                }
            },
        },
        env_value is None && freqs@.len() >= 1 ==> (exists|i: int|
            0 <= i < freqs@.len() && #[trigger] freqs@[i].1 == min_freq(freqs@)) && (forall|i: int|
            0 <= i < freqs@.len() ==> min_freq(freqs@) <= #[trigger] freqs@[i].1),
        env_value is None ==> (res matches Some(v) ==> (forall|j: int|
            0 <= j < v@.len() ==> exists|i: int|
                0 <= i < freqs@.len() && freqs@[i].0 == #[trigger] v@[j] && freqs@[i].1 > min_freq(freqs@)) && (forall|i: int|
            0 <= i < freqs@.len() && #[trigger] freqs@[i].1 > min_freq(freqs@) ==> v@.contains(freqs@[i].0))),
{
    match env_value {
        Some(v) => {
            let chars = chars_of(v);
            let (a, b) = trim_range(&chars, 0, chars.len());
            proof {
                assert(chars@.subrange(0, chars@.len() as int) =~= v@);
            }
            if b - a == 3 && (chars[a] == 'a' || chars[a] == 'A') && (chars[a + 1] == 'l' || chars[a
                + 1] == 'L') && (chars[a + 2] == 'l' || chars[a + 2] == 'L') {
                return None;
            }
            let t = v.substring_char(a, b);
            parse_core_list(t)
        },
        None => {
            proof {
                if freqs@.len() >= 1 {
                    lemma_min_freq(freqs@);
                    lemma_cores_above(freqs@, min_freq(freqs@));
                }
            }
            let n = freqs.len();
            if n < 2 {
                return None;
            }
            let mut m = freqs[0].1;
            let mut i: usize = 1;
            while i < n
                invariant
                    1 <= i <= n,
                    n == freqs@.len(),
                    m == min_freq(freqs@.take(i as int)),
                decreases n - i,
            {
                assert(freqs@.take(i as int + 1).drop_last() =~= freqs@.take(i as int));
                if freqs[i].1 < m {
                    m = freqs[i].1;
                }
                i = i + 1;
            }
            assert(freqs@.take(n as int) =~= freqs@);
            let mut fast: Vec<usize> = Vec::new();
            i = 0;
            while i < n
                invariant
                    i <= n,
                    n == freqs@.len(),
                    fast@ == cores_above(freqs@.take(i as int), m),
                decreases n - i,
            {
                assert(freqs@.take(i as int + 1).drop_last() =~= freqs@.take(i as int));
                if freqs[i].1 > m {
                    fast.push(freqs[i].0);
                }
                i = i + 1;
            }
            if fast.len() >= 1 && fast.len() < n {
                Some(fast)
            } else {
                None
            }
        },
    }
}

} // verus!
