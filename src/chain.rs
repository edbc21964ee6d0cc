//! The chain value and the search over its extensions.

use vstd::arithmetic::power;
use vstd::arithmetic::power2;
use vstd::math::abs;
use vstd::prelude::*;

use crate::arith::{pow, sum_n_2, triangle};
use crate::model::{
    completes, is_addition_chain, is_pair_sum, lemma_bounds_fit, lemma_chain_fits, lemma_chain_push,
    lemma_completion_within_bounds, lemma_sum_lower, lemma_sum_push, lemma_triangle_step, max_bound,
    min_bound, seq_sum, strictly_ascending,
};

verus! {

/// An addition chain together with the running sum of its elements.
pub struct Chain {
    values: Vec<i32>,
    sum: i32,
}

impl View for Chain {
    type V = Seq<i32>;

    /// The elements of the chain, in order.
    closed spec fn view(&self) -> Seq<i32> {
        self.values@
    }
}

impl Chain {
    /// The elements form an addition chain and `sum` is their sum.
    pub closed spec fn wf(&self) -> bool {
        &&& is_addition_chain(self.values@)
        &&& self.sum == seq_sum(self.values@)
    }

    /// The starting chain `[1]`.
    pub fn new() -> (r: Chain)
        ensures
            r.wf(),
            r@ == seq![1i32],
    {
        let values: Vec<i32> = vec![1];
        proof {
            assert(values@.drop_last().len() == 0);
            assert(seq_sum(values@) == seq_sum(values@.drop_last()) + 1);
        }
        Chain { values, sum: 1 }
    }

    /// Appends `to_add`, which must be a legal next element.
    pub fn add(&mut self, to_add: i32)
        requires
            old(self).wf(),
            to_add > old(self)@.last(),
            is_pair_sum(old(self)@, to_add as int),
            seq_sum(old(self)@) + to_add <= i32::MAX,
        ensures
            final(self).wf(),
            final(self)@ == old(self)@.push(to_add),
    {
        proof {
            lemma_chain_push(self.values@, to_add);
            lemma_sum_push(self.values@, to_add);
        }
        self.values.push(to_add);
        self.sum = self.sum + to_add;
    }

    /// The number of elements.
    pub fn length(&self) -> (r: i32)
        requires
            self.wf(),
        ensures
            r == self@.len(),
    {
        proof {
            lemma_sum_lower(self.values@);
        }
        self.values.len() as i32
    }

    /// The last, and largest, element.
    pub fn last_value(&self) -> (r: i32)
        requires
            self.wf(),
        ensures
            r == self@.last(),
    {
        self.values[self.values.len() - 1]
    }

    /// The sum of the elements.
    pub fn sum(&self) -> (r: i32)
        requires
            self.wf(),
        ensures
            r == seq_sum(self@),
    {
        self.sum
    }

    /// The elements, in order.
    pub fn values(&self) -> (r: &Vec<i32>)
        ensures
            r@ == self@,
    {
        &self.values
    }

    /// The least sum that a completion of this chain to `target_length`
    /// elements can have. The bound, and the intermediate values of its
    /// computation, must fit in an `i32`.
    pub fn min_sum(&self, target_length: i32) -> (r: i32)
        requires
            self.wf(),
            self@.len() <= target_length,
            (target_length - self@.len() + 1) * (target_length - self@.len() + 2) <= i32::MAX,
            min_bound(self@, target_length as int) <= i32::MAX,
        ensures
            r == min_bound(self@, target_length as int),
    {
        let delta: i32 = target_length - self.length();
        let biggest: i32 = self.last_value();
        proof {
            lemma_sum_lower(self.values@);
            lemma_triangle_step(delta as int);
            let d = delta as int;
            let b = biggest as int;
            assert((b - 1) * (d + 1) == d * b + b - d - 1) by (nonlinear_arith);
            assert(d * b >= 0) by (nonlinear_arith)
                requires
                    d >= 0,
                    b >= 1,
            ;
            assert(triangle(d) >= 0) by (nonlinear_arith)
                requires
                    d >= 0,
            ;
        }
        let next_n: i32 = (biggest - 1) * (delta + 1) + sum_n_2(delta + 1) - biggest;
        next_n + self.sum
    }

    /// The greatest sum that a completion of this chain to `target_length`
    /// elements can have. The bound, and `2^(delta+1)` for the `delta`
    /// elements still to come, must fit in an `i32`.
    pub fn max_sum(&self, target_length: i32) -> (r: i32)
        requires
            self.wf(),
            self@.len() <= target_length,
            target_length - self@.len() <= 29,
            max_bound(self@, target_length as int) <= i32::MAX,
        ensures
            r == max_bound(self@, target_length as int),
    {
        let delta: i32 = target_length - self.length();
        let biggest: i32 = self.last_value();
        proof {
            lemma_sum_lower(self.values@);
            power::lemma_pow_increases(2, (delta + 1) as nat, 30);
            power::lemma_pow_increases(2, 1, (delta + 1) as nat);
            power2::lemma_pow2(30);
            power2::lemma2_to64();
            reveal(power::pow);
            assert(power::pow(2, 1) == 2 * power::pow(2, 0));
            assert(abs(2) == 2);
            let g = power::pow(2, (delta + 1) as nat) - 2;
            assert(biggest * g >= 0) by (nonlinear_arith)
                requires
                    biggest >= 1,
                    g >= 0,
            ;
        }
        biggest * (pow(2, delta + 1) - 2) + self.sum
    }

    /// The legal next elements, in ascending order: every sum of two
    /// elements that exceeds the last one, each once.
    pub fn possible_next_values(&self) -> (r: Vec<i32>)
        requires
            self.wf(),
            2 * self@.last() <= i32::MAX,
        ensures
            strictly_ascending(r@),
            forall|v: i32| r@.contains(v) <==> (v > self@.last() && is_pair_sum(self@, v as int)),
    {
        let ghost s = self.values@;
        let mut result: Vec<i32> = Vec::new();
        let biggest: i32 = self.last_value();
        let n: usize = self.values.len();
        let mut i: usize = 0;
        while i < n
            invariant
                s == self.values@,
                n == s.len(),
                biggest == s.last(),
                is_addition_chain(s),
                2 * biggest <= i32::MAX,
                0 <= i <= n,
                strictly_ascending(result@),
                forall|v: i32| #[trigger]
                    result@.contains(v) <==> (v > biggest && covered(s, i as int, i as int, v as int)),
            decreases n - i,
        {
            let mut j: usize = i;
            while j < n
                invariant
                    s == self.values@,
                    n == s.len(),
                    biggest == s.last(),
                    is_addition_chain(s),
                    2 * biggest <= i32::MAX,
                    0 <= i < n,
                    i <= j <= n,
                    strictly_ascending(result@),
                    forall|v: i32| #[trigger]
                        result@.contains(v) <==> (v > biggest && covered(s, i as int, j as int, v as int)),
                decreases n - j,
            {
                proof {
                    if i < n - 1 {
                        assert(s[i as int] < s[n - 1]);
                    }
                    if j < n - 1 {
                        assert(s[j as int] < s[n - 1]);
                    }
                    lemma_covered_step(s, i as int, j as int);
                }
                let next: i32 = self.values[i] + self.values[j];
                if next > biggest {
                    insert_sorted(&mut result, next);
                }
                j = j + 1;
            }
            proof {
                lemma_covered_row(s, i as int);
            }
            i = i + 1;
        }
        proof {
            lemma_covered_all(s);
        }
        result
    }
}

impl Clone for Chain {
    /// A copy with the same elements and sum.
    fn clone(&self) -> (r: Chain)
        ensures
            r@ == self@,
            self.wf() ==> r.wf(),
    {
        let values = self.values.clone();
        proof {
            assert(values@ =~= self.values@);
        }
        Chain { values, sum: self.sum }
    }
}

/// Searches, depth first and with smaller next elements tried first, for a
/// completion of `c` to `target_length` elements that adds up to
/// `target_sum`; returns the first one found, or `None` if there is none.
/// Up to 31 elements every sum and bound met on the way fits in an `i32`.
pub fn try_chain(target_length: i32, target_sum: i32, c: Chain) -> (r: Option<Chain>)
    requires
        c.wf(),
        c@.len() <= target_length <= 31,
    ensures
        match r {
            Some(d) => d.wf() && completes(c@, d@, target_length as int, target_sum as int),
            None => forall|full: Seq<i32>|
                !completes(c@, full, target_length as int, target_sum as int),
        },
    decreases target_length - c@.len(),
{
    let ghost s = c@;
    let ghost (t, u) = (target_length as int, target_sum as int);
    if c.length() == target_length {
        assert(s.take(s.len() as int) =~= s);
        if c.sum == target_sum {
            Some(c)
        } else {
            proof {
                assert forall|full: Seq<i32>| !completes(s, full, t, u) by {
                    if completes(s, full, t, u) {
                        assert(full.take(s.len() as int) =~= full);
                    }
                }
            }
            None
        }
    } else {
        proof {
            lemma_chain_fits(s);
        }
        let candidates = c.possible_next_values();
        let mut k: usize = 0;
        while k < candidates.len()
            invariant
                c.wf(),
                s == c@,
                s.len() < t <= 31,
                t == target_length,
                u == target_sum,
                0 <= k <= candidates@.len(),
                forall|v: i32| #[trigger]
                    candidates@.contains(v) <==> (v > s.last() && is_pair_sum(s, v as int)),
                forall|m: int, full: Seq<i32>|
                    0 <= m < k ==> !#[trigger] completes(s.push(candidates@[m]), full, t, u),
            decreases candidates@.len() - k,
        {
            let v: i32 = candidates[k];
            proof {
                assert(candidates@.contains(v));
                lemma_chain_push(s, v);
                lemma_chain_fits(s.push(v));
                lemma_sum_push(s, v);
            }
            let mut next = c.clone();
            next.add(v);
            proof {
                lemma_bounds_fit(next@, t);
            }
            if target_sum < next.min_sum(target_length) || target_sum > next.max_sum(target_length) {
                proof {
                    assert forall|full: Seq<i32>| !completes(s.push(v), full, t, u) by {
                        if completes(s.push(v), full, t, u) {
                            lemma_completion_within_bounds(s.push(v), full, t, u);
                        }
                    }
                }
            } else {
                let x = try_chain(target_length, target_sum, next);
                if x.is_some() {
                    proof {
                        let d = x->Some_0@;
                        assert(d.take(s.len() + 1int).take(s.len() as int) =~= d.take(s.len() as int));
                        assert(s.push(v).take(s.len() as int) =~= s);
                    }
                    return x;
                }
            }
            k = k + 1;
        }
        proof {
            assert forall|full: Seq<i32>| !completes(s, full, t, u) by {
                if completes(s, full, t, u) {
                    let n = s.len() as int;
                    let v = full[n];
                    assert(full[n - 1] < full[n]);
                    assert(full.take(n)[n - 1] == s.last());
                    assert(is_pair_sum(full.take(n), full[n] as int));
                    assert(candidates@.contains(v));
                    let m = choose|m: int| 0 <= m < candidates@.len() && candidates@[m] == v;
                    assert(full.take(n + 1) =~= s.push(v));
                    assert(completes(s.push(candidates@[m]), full, t, u));
                }
            }
        }
        None
    }
}

/// Searches for an addition chain of `target_length` elements whose sum is
/// `target_sum`; returns the first one found, or `None` if there is none.
/// Up to 31 elements every sum and bound met on the way fits in an `i32`.
pub fn solve(target_length: i32, target_sum: i32) -> (r: Option<Chain>)
    requires
        1 <= target_length <= 31,
    ensures
        match r {
            Some(d) => d.wf() && is_addition_chain(d@) && d@.len() == target_length && seq_sum(d@)
                == target_sum,
            None => forall|full: Seq<i32>|
                !(is_addition_chain(full) && full.len() == target_length && seq_sum(full)
                    == target_sum),
        },
{
    let c: Chain = Chain::new();
    let r = try_chain(target_length, target_sum, c);
    proof {
        if r is None {
            assert forall|full: Seq<i32>|
                !(is_addition_chain(full) && full.len() == target_length && seq_sum(full)
                    == target_sum) by {
                if is_addition_chain(full) && full.len() == target_length {
                    assert(full.take(1) =~= seq![1i32]);
                    assert(!completes(seq![1i32], full, target_length as int, target_sum as int));
                }
            }
        }
        if r is Some {
            let d = r->Some_0@;
            assert(completes(seq![1i32], d, target_length as int, target_sum as int));
            assert(is_addition_chain(d));
        }
    }
    r
}

/// `v` is `s[a] + s[b]` for some `a <= b` whose pair comes before `(i, j)`
/// in the order in which rows `a` and columns `b` are visited.
spec fn covered(s: Seq<i32>, i: int, j: int, v: int) -> bool {
    exists|a: int, b: int|
        0 <= a <= b < s.len() && (a < i || (a == i && b < j)) && #[trigger] s[a] + #[trigger] s[b]
            == v
}

proof fn lemma_covered_step(s: Seq<i32>, i: int, j: int)
    requires
        0 <= i <= j < s.len(),
    ensures
        forall|v: int| #[trigger]
            covered(s, i, j + 1, v) <==> (covered(s, i, j, v) || v == s[i] + s[j]),
{
    assert forall|v: int| #[trigger] covered(s, i, j + 1, v) implies (covered(s, i, j, v) || v
        == s[i] + s[j]) by {
        let (a, b) = choose|a: int, b: int|
            0 <= a <= b < s.len() && (a < i || (a == i && b < j + 1)) && #[trigger] s[a]
                + #[trigger] s[b] == v;
        if !(a == i && b == j) {
            assert(covered(s, i, j, v));
        }
    }
    assert forall|v: int| (covered(s, i, j, v) || v == s[i] + s[j]) implies #[trigger] covered(
        s,
        i,
        j + 1,
        v,
    ) by {
        if v == s[i] + s[j] {
            assert(0 <= i <= j < s.len() && s[i] + s[j] == v);
        } else {
            let (a, b) = choose|a: int, b: int|
                0 <= a <= b < s.len() && (a < i || (a == i && b < j)) && #[trigger] s[a]
                    + #[trigger] s[b] == v;
            assert(s[a] + s[b] == v);
        }
    }
}

proof fn lemma_covered_row(s: Seq<i32>, i: int)
    requires
        0 <= i < s.len(),
    ensures
        forall|v: int| #[trigger]
            covered(s, i + 1, i + 1, v) == covered(s, i, s.len() as int, v),
{
    assert forall|v: int| #[trigger] covered(s, i + 1, i + 1, v) == covered(s, i, s.len() as int, v) by {
        if covered(s, i + 1, i + 1, v) {
            let (a, b) = choose|a: int, b: int|
                0 <= a <= b < s.len() && (a < i + 1 || (a == i + 1 && b < i + 1)) && #[trigger] s[a]
                    + #[trigger] s[b] == v;
            assert(s[a] + s[b] == v);
        }
        if covered(s, i, s.len() as int, v) {
            let (a, b) = choose|a: int, b: int|
                0 <= a <= b < s.len() && (a < i || (a == i && b < s.len())) && #[trigger] s[a]
                    + #[trigger] s[b] == v;
            assert(s[a] + s[b] == v);
        }
    }
}

proof fn lemma_covered_all(s: Seq<i32>)
    ensures
        forall|v: int| #[trigger] covered(s, s.len() as int, s.len() as int, v) == is_pair_sum(s, v),
{
    assert forall|v: int| #[trigger] covered(s, s.len() as int, s.len() as int, v) == is_pair_sum(s, v) by {
        if is_pair_sum(s, v) {
            let (a, b) = choose|a: int, b: int|
                0 <= a < s.len() && 0 <= b < s.len() && s[a] + s[b] == v;
            if a <= b {
                assert(s[a] + s[b] == v);
            } else {
                assert(s[b] + s[a] == v);
            }
        }
        if covered(s, s.len() as int, s.len() as int, v) {
            let (a, b) = choose|a: int, b: int|
                0 <= a <= b < s.len() && (a < s.len() || (a == s.len() && b < s.len()))
                    && #[trigger] s[a] + #[trigger] s[b] == v;
            assert(s[a] + s[b] == v);
        }
    }
}

/// Adds `x` to an ascending vector unless it is already there.
fn insert_sorted(r: &mut Vec<i32>, x: i32)
    requires
        strictly_ascending(old(r)@),
    ensures
        strictly_ascending(final(r)@),
        forall|y: i32| #[trigger] final(r)@.contains(y) <==> (old(r)@.contains(y) || y == x),
{
    let mut k: usize = 0;
    while k < r.len() && r[k] < x
        invariant
            0 <= k <= r.len(),
            strictly_ascending(r@),
            forall|i: int| 0 <= i < k ==> r@[i] < x,
        decreases r.len() - k,
    {
        k = k + 1;
    }
    if k < r.len() && r[k] == x {
        return;
    }
    let ghost before = r@;
    r.insert(k, x);
    proof {
        let after = r@;
        assert forall|i: int, j: int| 0 <= i < j < after.len() implies after[i] < after[j] by {
            if j < k {
            } else if j == k {
            } else if i < k {
                assert(before[i] < x);
                assert(x <= before[k as int]);
                if k < j - 1 {
                    assert(before[k as int] < before[j - 1]);
                }
            } else if i == k {
                assert(x <= before[k as int]);
                if k < j - 1 {
                    assert(before[k as int] < before[j - 1]);
                }
            }
        }
        assert forall|y: i32| #[trigger] after.contains(y) <==> (before.contains(y) || y == x) by {
            if after.contains(y) {
                let m = choose|m: int| 0 <= m < after.len() && after[m] == y;
                if m < k {
                    assert(before[m] == y);
                } else if m > k {
                    assert(before[m - 1] == y);
                }
            }
            if before.contains(y) {
                let m = choose|m: int| 0 <= m < before.len() && before[m] == y;
                if m < k {
                    assert(after[m] == y);
                } else {
                    assert(after[m + 1] == y);
                }
            }
            if y == x {
                assert(after[k as int] == x);
            }
        }
    }
}

} // verus!
