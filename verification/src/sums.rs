//! Mathematical model shared by the tree operations: inclusive range sums
//! over integer sequences and the power-of-two capacity arithmetic.

use vstd::prelude::*;

verus! {

/// Sum of `s[l ..= r]`; an empty interval (`l > r`) sums to zero.
pub open spec fn range_sum(s: Seq<int>, l: int, r: int) -> int
    decreases r - l + 1,
{
    if l > r {
        0
    } else {
        s[l] + range_sum(s, l + 1, r)
    }
}

/// `true` when `v` can be stored in an `i32` cell.
pub open spec fn in_i32_range(v: int) -> bool {
    i32::MIN <= v <= i32::MAX
}

/// The sequence `vals` as mathematical integers.
pub open spec fn int_values(vals: Seq<i32>) -> Seq<int> {
    vals.map_values(|v: i32| v as int)
}

/// `vals` extended with zeros up to length `n` (truncated if `n` is shorter).
pub open spec fn padded(vals: Seq<int>, n: nat) -> Seq<int> {
    Seq::new(n, |i: int| if i < vals.len() { vals[i] } else { 0 })
}

/// `true` for 1, 2, 4, 8, ...
pub open spec fn is_power_of_two(n: nat) -> bool
    decreases n,
{
    if n == 0 {
        false
    } else if n == 1 {
        true
    } else {
        n % 2 == 0 && is_power_of_two(n / 2)
    }
}

/// The smallest power of two that is at least `len` (1 for an empty input).
pub open spec fn next_pow2(len: nat) -> nat
    decreases len,
{
    if len <= 1 {
        1
    } else {
        2 * next_pow2(((len + 1) / 2) as nat)
    }
}

/// Two to the power `e`.
pub open spec fn pow2(e: nat) -> nat
    decreases e,
{
    if e == 0 {
        1
    } else {
        2 * pow2((e - 1) as nat)
    }
}

/// Powers of two are positive.
pub proof fn lemma_pow2_pos(e: nat)
    ensures
        pow2(e) >= 1,
    decreases e,
{
    if e > 0 {
        lemma_pow2_pos((e - 1) as nat);
    }
}

/// `pow2` grows with its exponent.
pub proof fn lemma_pow2_mono(e1: nat, e2: nat)
    requires
        e1 <= e2,
    ensures
        pow2(e1) <= pow2(e2),
    decreases e2,
{
    if 0 < e1 {
        lemma_pow2_mono((e1 - 1) as nat, (e2 - 1) as nat);
    } else if 0 < e2 {
        lemma_pow2_pos(e2);
        lemma_pow2_mono(0, (e2 - 1) as nat);
    }
}

/// The 64th power of two, spelled out.
pub proof fn lemma_pow2_64()
    ensures
        pow2(64) == 0x1_0000_0000_0000_0000,
{
    assert(pow2(64) == 0x1_0000_0000_0000_0000) by {
        reveal_with_fuel(pow2, 65);
    }
}

/// Between distinct powers of two there is at least a factor of two.
pub proof fn lemma_power_of_two_gap(p: nat, m: nat)
    requires
        is_power_of_two(p),
        is_power_of_two(m),
        p < m,
    ensures
        2 * p <= m,
    decreases m,
{
    if p > 1 {
        lemma_power_of_two_gap(p / 2, m / 2);
    }
}

/// An interval sum splits at any midpoint `m` with `l - 1 <= m <= r`.
pub proof fn lemma_range_sum_split(s: Seq<int>, l: int, m: int, r: int)
    requires
        l - 1 <= m <= r,
    ensures
        range_sum(s, l, r) == range_sum(s, l, m) + range_sum(s, m + 1, r),
    decreases m - l + 2,
{
    if l <= m {
        lemma_range_sum_split(s, l + 1, m, r);
    }
}

/// Replacing `s[k]` by `v` changes an interval sum by `v - s[k]` when the
/// interval contains `k` and leaves it unchanged otherwise.
pub proof fn lemma_range_sum_update(s: Seq<int>, k: int, v: int, l: int, r: int)
    requires
        0 <= l,
        r < s.len(),
        0 <= k < s.len(),
    ensures
        l <= k <= r ==> range_sum(s.update(k, v), l, r) == range_sum(s, l, r) + (v - s[k]),
        !(l <= k <= r) ==> range_sum(s.update(k, v), l, r) == range_sum(s, l, r),
    decreases r - l + 1,
{
    if l <= r {
        lemma_range_sum_update(s, k, v, l + 1, r);
    }
}

/// Padding contributes zero: a range sum that stays within the original
/// values is the same whether or not the sequence was padded to a larger
/// capacity.
pub proof fn lemma_range_sum_padded(vals: Seq<int>, n: nat, l: int, r: int)
    requires
        0 <= l,
        r < vals.len(),
        vals.len() <= n,
    ensures
        range_sum(padded(vals, n), l, r) == range_sum(vals, l, r),
    decreases r - l + 1,
{
    if l <= r {
        lemma_range_sum_padded(vals, n, l + 1, r);
    }
}

/// Adding `delta` to the stored value at `k` — what `SegmentTree::add`
/// does to the stored sequence — changes the sum over `[l, r]` by exactly
/// `delta` when the interval contains `k`, and not at all otherwise.
pub proof fn lemma_point_update_changes_range_sum(
    s: Seq<int>,
    k: int,
    delta: int,
    l: int,
    r: int,
)
    requires
        0 <= k < s.len(),
        0 <= l,
        r < s.len(),
    ensures
        l <= k <= r ==> range_sum(s.update(k, s[k] + delta), l, r) == range_sum(s, l, r) + delta,
        !(l <= k <= r) ==> range_sum(s.update(k, s[k] + delta), l, r) == range_sum(s, l, r),
{
    lemma_range_sum_update(s, k, s[k] + delta, l, r);
}

/// A range sum over a subsequence equals the shifted range sum over the
/// full sequence.
pub proof fn lemma_range_sum_subrange(s: Seq<int>, lo: int, hi: int, l: int, r: int)
    requires
        0 <= lo <= hi <= s.len(),
        lo <= lo + l,
        lo + r < hi,
    ensures
        range_sum(s.subrange(lo, hi), l, r) == range_sum(s, lo + l, lo + r),
    decreases r - l + 1,
{
    if l <= r {
        lemma_range_sum_subrange(s, lo, hi, l + 1, r);
    }
}

/// `next_pow2` never falls below its argument.
pub proof fn lemma_next_pow2_ge(len: nat)
    ensures
        next_pow2(len) >= len,
        next_pow2(len) >= 1,
    decreases len,
{
    if len > 1 {
        lemma_next_pow2_ge(((len + 1) / 2) as nat);
    }
}

/// `next_pow2` always returns a power of two.
pub proof fn lemma_next_pow2_is_power_of_two(len: nat)
    ensures
        is_power_of_two(next_pow2(len)),
    decreases len,
{
    if len > 1 {
        lemma_next_pow2_is_power_of_two(((len + 1) / 2) as nat);
        lemma_next_pow2_ge(((len + 1) / 2) as nat);
    }
}

/// `next_pow2(len)` is the least power of two at least `len`: any power of
/// two `m >= len` is at least `next_pow2(len)`.
pub proof fn lemma_next_pow2_minimal(len: nat, m: nat)
    requires
        is_power_of_two(m),
        m >= len,
    ensures
        m >= next_pow2(len),
    decreases len,
{
    if len > 1 {
        lemma_next_pow2_minimal(((len + 1) / 2) as nat, m / 2);
    }
}

/// A length that is already a power of two is its own `next_pow2`:
/// construction from a power-of-two number of values keeps that capacity.
pub proof fn lemma_next_pow2_of_power_of_two(n: nat)
    requires
        is_power_of_two(n),
    ensures
        next_pow2(n) == n,
    decreases n,
{
    if n > 1 {
        lemma_next_pow2_of_power_of_two(n / 2);
    }
}

} // verus!
