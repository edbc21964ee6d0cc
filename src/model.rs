//! The mathematical model of addition chains: what a chain is, its sum, the
//! bounds on the sum of any completion, and the facts proved about them.

use vstd::arithmetic::power;
use vstd::arithmetic::power2;
use vstd::prelude::*;

use crate::arith::triangle;

verus! {

/// `v` is the sum of two elements of `s`, possibly the same element twice.
pub open spec fn is_pair_sum(s: Seq<i32>, v: int) -> bool {
    exists|a: int, b: int| 0 <= a < s.len() && 0 <= b < s.len() && s[a] + s[b] == v
}

/// A strictly increasing sequence that starts at 1 and in which every later
/// element is the sum of two earlier ones.
pub open spec fn is_addition_chain(s: Seq<i32>) -> bool {
    &&& s.len() >= 1
    &&& s[0] == 1
    &&& forall|i: int, j: int| 0 <= i < j < s.len() ==> s[i] < s[j]
    &&& forall|i: int| 0 < i < s.len() ==> #[trigger] is_pair_sum(s.take(i), s[i] as int)
}

/// Every element of `s` is smaller than every later one.
pub open spec fn strictly_ascending(s: Seq<i32>) -> bool {
    forall|i: int, j: int| 0 <= i < j < s.len() ==> s[i] < s[j]
}

/// The sum of all elements of `s`.
pub open spec fn seq_sum(s: Seq<i32>) -> int
    decreases s.len(),
{
    if s.len() == 0 {
        0
    } else {
        seq_sum(s.drop_last()) + s.last()
    }
}

/// `full` is an addition chain of `len` elements adding up to `total` that
/// starts with the elements of `prefix`.
pub open spec fn completes(prefix: Seq<i32>, full: Seq<i32>, len: int, total: int) -> bool {
    &&& is_addition_chain(full)
    &&& full.len() == len
    &&& seq_sum(full) == total
    &&& prefix.len() <= full.len()
    &&& full.take(prefix.len() as int) == prefix
}

/// The least sum that a chain with largest element `biggest`, sum `sum` and
/// `len` elements can reach at `target_length` elements: each of the
/// remaining elements exceeds the one before by one.
pub open spec fn min_bound_of(biggest: int, sum: int, len: int, target_length: int) -> int {
    let delta = target_length - len;
    delta * biggest + triangle(delta) + sum
}

/// The greatest sum that a chain with largest element `biggest`, sum `sum` and
/// `len` elements can reach at `target_length` elements: each of the
/// remaining elements doubles the one before.
pub open spec fn max_bound_of(biggest: int, sum: int, len: int, target_length: int) -> int {
    let delta = target_length - len;
    biggest * (power::pow(2, (delta + 1) as nat) - 2) + sum
}

/// The lower bound for the chain `s`.
pub open spec fn min_bound(s: Seq<i32>, target_length: int) -> int {
    min_bound_of(s.last() as int, seq_sum(s), s.len() as int, target_length)
}

/// The upper bound for the chain `s`.
pub open spec fn max_bound(s: Seq<i32>, target_length: int) -> int {
    max_bound_of(s.last() as int, seq_sum(s), s.len() as int, target_length)
}

/// `triangle(d + 1)` adds `d + 1` to `triangle(d)`.
pub proof fn lemma_triangle_step(d: int)
    ensures
        triangle(d + 1) == triangle(d) + d + 1,
{
    assert((d + 1) * (d + 2) == d * (d + 1) + 2 * (d + 1)) by (nonlinear_arith);
}

/// Appending `v` adds `v` to the sum.
pub proof fn lemma_sum_push(s: Seq<i32>, v: i32)
    ensures
        seq_sum(s.push(v)) == seq_sum(s) + v,
{
    assert(s.push(v).drop_last() =~= s);
}

/// Every prefix of a chain is a chain.
pub proof fn lemma_chain_prefix(s: Seq<i32>, k: int)
    requires
        is_addition_chain(s),
        1 <= k <= s.len(),
    ensures
        is_addition_chain(s.take(k)),
{
    let t = s.take(k);
    assert forall|i: int| 0 < i < t.len() implies #[trigger] is_pair_sum(t.take(i), t[i] as int) by {
        assert(t.take(i) =~= s.take(i));
        assert(is_pair_sum(s.take(i), s[i] as int));
    }
}

/// Appending a pair sum that exceeds the last element keeps a chain a chain.
pub proof fn lemma_chain_push(s: Seq<i32>, v: i32)
    requires
        is_addition_chain(s),
        v > s.last(),
        is_pair_sum(s, v as int),
    ensures
        is_addition_chain(s.push(v)),
{
    let t = s.push(v);
    assert forall|i: int, j: int| 0 <= i < j < t.len() implies t[i] < t[j] by {
        if j == s.len() {
            if i < s.len() - 1 {
                assert(s[i] < s[s.len() - 1]);
            }
        }
    }
    assert forall|i: int| 0 < i < t.len() implies #[trigger] is_pair_sum(t.take(i), t[i] as int) by {
        if i < s.len() {
            assert(t.take(i) =~= s.take(i));
            assert(is_pair_sum(s.take(i), s[i] as int));
        } else {
            assert(t.take(i) =~= s);
        }
    }
}

/// A pair sum of a chain is at most twice its last element.
pub proof fn lemma_pair_sum_at_most_double(s: Seq<i32>, v: int)
    requires
        is_addition_chain(s),
        is_pair_sum(s, v),
    ensures
        v <= 2 * s.last(),
{
    let (a, b) = choose|a: int, b: int| 0 <= a < s.len() && 0 <= b < s.len() && s[a] + s[b] == v;
    if a < s.len() - 1 {
        assert(s[a] < s[s.len() - 1]);
    }
    if b < s.len() - 1 {
        assert(s[b] < s[s.len() - 1]);
    }
}

/// Every element of a chain is at least 1, its sum is at least its length
/// and at least its last element.
pub proof fn lemma_sum_lower(s: Seq<i32>)
    requires
        is_addition_chain(s),
    ensures
        forall|i: int| 0 <= i < s.len() ==> s[i] >= 1,
        seq_sum(s) >= s.len(),
        seq_sum(s) >= s.last(),
    decreases s.len(),
{
    assert forall|i: int| 0 <= i < s.len() implies s[i] >= 1 by {
        if i > 0 {
            assert(s[0] < s[i]);
        }
    }
    if s.len() > 1 {
        let t = s.drop_last();
        assert(t =~= s.take(s.len() - 1));
        lemma_chain_prefix(s, s.len() - 1);
        lemma_sum_lower(t);
        assert(seq_sum(s) == seq_sum(t) + s.last());
    } else {
        assert(seq_sum(s.drop_last()) == 0);
        assert(seq_sum(s) == s.last());
    }
}

/// The last element of a chain of `n` elements is at most `2^(n-1)` and its
/// sum at most `2^n - 1`.
pub proof fn lemma_chain_growth(s: Seq<i32>)
    requires
        is_addition_chain(s),
    ensures
        s.last() <= power::pow(2, (s.len() - 1) as nat),
        seq_sum(s) <= power::pow(2, s.len() as nat) - 1,
    decreases s.len(),
{
    reveal(power::pow);
    if s.len() == 1 {
        assert(seq_sum(s.drop_last()) == 0);
        assert(seq_sum(s) == s.last());
        assert(power::pow(2, 1) == 2 * power::pow(2, 0));
    } else {
        let n = s.len();
        let t = s.drop_last();
        assert(t =~= s.take(n - 1));
        lemma_chain_prefix(s, n - 1);
        lemma_chain_growth(t);
        assert(is_pair_sum(s.take(n - 1), s[n - 1] as int));
        lemma_pair_sum_at_most_double(t, s[n - 1] as int);
        assert(power::pow(2, (n - 1) as nat) == 2 * power::pow(2, (n - 2) as nat));
        assert(power::pow(2, n as nat) == 2 * power::pow(2, (n - 1) as nat));
        assert(seq_sum(s) == seq_sum(t) + s.last());
    }
}

/// `d + 2 <= 2^(d+1)`.
proof fn lemma_linear_below_double(d: nat)
    ensures
        d + 2 <= power::pow(2, d + 1),
    decreases d,
{
    reveal(power::pow);
    assert(power::pow(2, d + 1) == 2 * power::pow(2, d));
    if d > 0 {
        lemma_linear_below_double((d - 1) as nat);
    } else {
        assert(power::pow(2, 0) == 1);
    }
}

/// `d + triangle(d) <= 2^(d+1) - 2`.
proof fn lemma_triangle_below_double(d: nat)
    ensures
        d + triangle(d as int) <= power::pow(2, d + 1) - 2,
    decreases d,
{
    reveal(power::pow);
    assert(power::pow(2, d + 1) == 2 * power::pow(2, d));
    if d == 0 {
        assert(power::pow(2, 0) == 1);
    } else {
        lemma_triangle_below_double((d - 1) as nat);
        lemma_triangle_step(d - 1);
        lemma_linear_below_double((d - 1) as nat);
    }
}

/// The lower bound never exceeds the upper bound.
pub proof fn lemma_min_bound_le_max_bound(biggest: int, sum: int, len: int, target_length: int)
    requires
        biggest >= 1,
        len <= target_length,
    ensures
        min_bound_of(biggest, sum, len, target_length) <= max_bound_of(
            biggest,
            sum,
            len,
            target_length,
        ),
{
    let d = target_length - len;
    lemma_triangle_below_double(d as nat);
    let t = triangle(d);
    let g = power::pow(2, (d + 1) as nat) - 2;
    assert(t >= 0) by (nonlinear_arith)
        requires
            d >= 0,
            t == d * (d + 1) / 2,
    ;
    assert(d * biggest + t <= biggest * g) by (nonlinear_arith)
        requires
            d >= 0,
            t >= 0,
            biggest >= 1,
            d + t <= g,
    ;
}

/// Every completion of a chain to `target_length` elements has a sum between
/// the chain's lower and upper bound.
pub proof fn lemma_completion_within_bounds(
    prefix: Seq<i32>,
    full: Seq<i32>,
    target_length: int,
    target_sum: int,
)
    requires
        prefix.len() >= 1,
        completes(prefix, full, target_length, target_sum),
    ensures
        min_bound(prefix, target_length) <= target_sum <= max_bound(prefix, target_length),
    decreases target_length - prefix.len(),
{
    reveal(power::pow);
    let n = prefix.len() as int;
    if n == target_length {
        assert(full =~= prefix);
        assert(power::pow(2, 1) == 2 * power::pow(2, 0));
    } else {
        let v = full[n];
        let next = full.take(n + 1);
        assert(next =~= prefix.push(v));
        assert(next.take(n) =~= prefix);
        assert(full.take(n + 1).take(n) =~= full.take(n));
        lemma_completion_within_bounds(next, full, target_length, target_sum);
        lemma_chain_prefix(full, n);
        assert(full[n - 1] < full[n]);
        assert(is_pair_sum(full.take(n), full[n] as int));
        lemma_pair_sum_at_most_double(prefix, v as int);
        lemma_sum_push(prefix, v);
        let b = prefix.last() as int;
        let d = target_length - n;
        lemma_triangle_step(d - 1);
        assert(d * b + d <= (d - 1) * v + v) by (nonlinear_arith)
            requires
                d >= 1,
                v >= b + 1,
        ;
        let p = power::pow(2, (d - 1 + 1) as nat);
        assert(power::pow(2, (d + 1) as nat) == 2 * p);
        power::lemma_pow_positive(2, d as nat);
        assert(v * (p - 2) + v <= b * (2 * p - 2)) by (nonlinear_arith)
            requires
                v <= 2 * b,
                p >= 1,
        ;
    }
}

/// Both bounds are non-decreasing in the chain's largest element, for chains
/// of the same length and sum and a fixed target length.
pub proof fn lemma_bounds_monotonic(p: Seq<i32>, q: Seq<i32>, target_length: int)
    requires
        p.len() == q.len(),
        p.len() <= target_length,
        seq_sum(p) == seq_sum(q),
        p.last() <= q.last(),
    ensures
        min_bound(p, target_length) <= min_bound(q, target_length),
        max_bound(p, target_length) <= max_bound(q, target_length),
{
    let d = target_length - p.len();
    let g = power::pow(2, (d + 1) as nat) - 2;
    power::lemma_pow_increases(2, 1, (d + 1) as nat);
    reveal(power::pow);
    assert(power::pow(2, 1) == 2 * power::pow(2, 0));
    let (bp, bq) = (p.last() as int, q.last() as int);
    assert(d * bp <= d * bq && bp * g <= bq * g) by (nonlinear_arith)
        requires
            d >= 0,
            g >= 0,
            bp <= bq,
    ;
}

/// A chain of at most 31 elements has a sum that fits in an `i32`; with at
/// most 30 elements, twice its last element fits too.
pub proof fn lemma_chain_fits(s: Seq<i32>)
    requires
        is_addition_chain(s),
        s.len() <= 31,
    ensures
        seq_sum(s) <= i32::MAX,
        s.len() <= 30 ==> 2 * s.last() <= i32::MAX,
{
    lemma_chain_growth(s);
    power::lemma_pow_increases(2, s.len() as nat, 31);
    if s.len() <= 30 {
        power::lemma_pow_increases(2, (s.len() - 1) as nat, 29);
    }
    power2::lemma_pow2(31);
    power2::lemma_pow2(29);
    power2::lemma2_to64();
}

/// For a chain of 2 to `target_length <= 31` elements the bounds, and the
/// intermediate values of their computation, fit in an `i32`.
pub proof fn lemma_bounds_fit(s: Seq<i32>, target_length: int)
    requires
        is_addition_chain(s),
        2 <= s.len() <= target_length <= 31,
    ensures
        min_bound(s, target_length) <= max_bound(s, target_length),
        max_bound(s, target_length) <= i32::MAX,
        (target_length - s.len() + 1) * (target_length - s.len() + 2) <= i32::MAX,
{
    let n = s.len() as int;
    let d = target_length - n;
    lemma_chain_growth(s);
    lemma_sum_lower(s);
    lemma_min_bound_le_max_bound(s.last() as int, seq_sum(s), n, target_length);
    reveal(power::pow);
    power::lemma_pow_adds(2, (n - 1) as nat, (d + 1) as nat);
    assert(power::pow(2, n as nat) == 2 * power::pow(2, (n - 1) as nat));
    power::lemma_pow_increases(2, target_length as nat, 31);
    power2::lemma_pow2(31);
    power2::lemma2_to64();
    power::lemma_pow_increases(2, 1, (d + 1) as nat);
    assert(power::pow(2, 1) == 2 * power::pow(2, 0));
    let b = s.last() as int;
    let h = power::pow(2, (n - 1) as nat);
    let g = power::pow(2, (d + 1) as nat) - 2;
    assert(b * g <= h * g) by (nonlinear_arith)
        requires
            b <= h,
            g >= 0,
    ;
    assert(h * (g + 2) == power::pow(2, target_length as nat));
    assert(h * (g + 2) == h * g + 2 * h) by (nonlinear_arith);
    assert(power::pow(2, 31) == 0x80000000);
    assert(power::pow(2, target_length as nat) <= 0x80000000);
    assert(max_bound(s, target_length) == b * g + seq_sum(s));
    assert((d + 1) * (d + 2) <= 30 * 31) by (nonlinear_arith)
        requires
            0 <= d <= 29,
    ;
}

} // verus!
