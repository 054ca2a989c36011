//! Construction of fixed-point prior distributions.
//!
//! Both games hand the search a probability for each legal action. The
//! distributions are built here so that their one obligation — summing to
//! exactly one unit — is proved once.
use vstd::prelude::*;
use vstd::arithmetic::div_mod::{lemma_fundamental_div_mod, lemma_div_is_ordered_by_denominator};
use crate::fixed::SCALE;
use crate::mcts::{sum_weights, PRIOR_EPSILON};

verus! {

/// Number of selected slots among the first `n` of `mask`.
pub open spec fn count_true(mask: Seq<bool>, n: int) -> int
    decreases n,
{
    if n <= 0 {
        0
    } else {
        count_true(mask, n - 1) + if mask[n - 1] {
            1int
        } else {
            0int
        }
    }
}

/// The count of selected slots lies between 0 and `n`.
pub proof fn lemma_count_true_bounds(mask: Seq<bool>, n: int)
    requires
        0 <= n,
    ensures
        0 <= count_true(mask, n) <= n,
    decreases n,
{
    if n > 0 {
        lemma_count_true_bounds(mask, n - 1);
    }
}

/// A positive count names a selected slot.
pub proof fn lemma_count_true_witness(mask: Seq<bool>, n: int)
    requires
        0 < count_true(mask, n),
        n <= mask.len(),
    ensures
        exists|i: int| 0 <= i < n && mask[i],
    decreases n,
{
    if n > 0 {
        if mask[n - 1] {
            assert(mask[n - 1]);
        } else {
            lemma_count_true_witness(mask, n - 1);
        }
    }
}

/// The share of one whole unit that slot `i` receives: selected slots split
/// the unit evenly, with the first `SCALE % c` of them taking the rounding
/// remainder; unselected slots get nothing.
pub open spec fn unit_share(mask: Seq<bool>, i: int) -> u64 {
    let c = count_true(mask, mask.len() as int);
    if !mask[i] {
        0u64
    } else if count_true(mask, i) < SCALE as int % c {
        (SCALE as int / c + 1) as u64
    } else {
        (SCALE as int / c) as u64
    }
}

/// Appending a weight adds it to the sum.
pub proof fn lemma_sum_push(s: Seq<u64>, x: u64)
    ensures
        sum_weights(s.push(x)) == sum_weights(s) + x,
{
    assert(s.push(x).drop_last() =~= s);
}

/// Splits one whole unit of probability evenly over the selected slots of
/// `mask`: the result sums to exactly `SCALE`, and some selected slot gets a
/// non-negligible share.
pub fn distribute_unit(mask: &Vec<bool>) -> (r: Vec<u64>)
    requires
        0 < count_true(mask@, mask@.len() as int),
        mask@.len() <= 64,
    ensures
        r@.len() == mask@.len(),
        forall|i: int| 0 <= i < r@.len() ==> r@[i] == unit_share(mask@, i),
        forall|i: int| 0 <= i < r@.len() ==> r@[i] <= SCALE,
        sum_weights(r@) == SCALE,
        exists|i: int| 0 <= i < r@.len() && #[trigger] r@[i] > PRIOR_EPSILON,
{
    let n = mask.len();
    let mut cnt: usize = 0;
    let mut k: usize = 0;
    while k < n
        invariant
            k <= n,
            n == mask@.len(),
            cnt as int == count_true(mask@, k as int),
            cnt <= k,
        decreases n - k,
    {
        if mask[k] {
            cnt = cnt + 1;
        }
        k = k + 1;
    }
    proof {
        lemma_count_true_bounds(mask@, n as int);
    }
    let c: u64 = cnt as u64;
    let base: u64 = SCALE / c;
    let rem: u64 = SCALE % c;
    proof {
        lemma_fundamental_div_mod(SCALE as int, c as int);
        lemma_div_is_ordered_by_denominator(SCALE as int, c as int, 64int);
        assert(base >= 15_625);
        assert(base <= SCALE) by (nonlinear_arith)
            requires
                base == SCALE as int / c as int,
                c >= 1,
                SCALE == 1_000_000,
        {
        }
    }
    let mut r: Vec<u64> = Vec::new();
    let mut seen: u64 = 0;
    let mut i: usize = 0;
    while i < n
        invariant
            i <= n,
            n == mask@.len(),
            c as int == count_true(mask@, n as int),
            0 < c <= 64,
            base == SCALE as int / c as int,
            rem == SCALE as int % c as int,
            15_625 <= base <= SCALE,
            rem < c,
            seen as int == count_true(mask@, i as int),
            seen <= c,
            r@.len() == i,
            forall|m: int| 0 <= m < i ==> r@[m] == unit_share(mask@, m),
            forall|m: int| 0 <= m < i ==> r@[m] <= SCALE,
            sum_weights(r@) == base * seen + (if seen <= rem {
                seen as int
            } else {
                rem as int
            }),
        decreases n - i,
    {
        proof {
            lemma_count_true_bounds(mask@, i as int);
            assert(count_true(mask@, i + 1) <= count_true(mask@, n as int)) by {
                lemma_count_true_mono(mask@, i + 1, n as int);
            }
        }
        let share: u64 = if mask[i] {
            if seen < rem {
                base + 1
            } else {
                base
            }
        } else {
            0
        };
        proof {
            lemma_sum_push(r@, share);
            if mask[i as int] {
                assert(base * (seen + 1) == base * seen + base) by (nonlinear_arith);
                if seen < rem {
                    assert(c >= 2);
                    assert(base <= 500_000) by (nonlinear_arith)
                        requires
                            base == SCALE as int / c as int,
                            c >= 2,
                            SCALE == 1_000_000,
                    {
                    }
                }
            }
        }
        r.push(share);
        if mask[i] {
            seen = seen + 1;
        }
        i = i + 1;
    }
    proof {
        assert(seen == c);
        assert(sum_weights(r@) == base * c + rem);
        lemma_fundamental_div_mod(SCALE as int, c as int);
        assert(base * c == c * base) by (nonlinear_arith);
        lemma_count_true_witness(mask@, n as int);
        let w = choose|i: int| 0 <= i < n && mask@[i];
        assert(r@[w] >= base);
        assert(r@[w] > PRIOR_EPSILON);
    }
    r
}

/// Counting over a longer prefix never counts fewer slots.
pub proof fn lemma_count_true_mono(mask: Seq<bool>, a: int, b: int)
    requires
        0 <= a <= b,
    ensures
        count_true(mask, a) <= count_true(mask, b),
    decreases b,
{
    if a < b {
        lemma_count_true_mono(mask, a, b - 1);
    }
}


/// A selected slot within the counted prefix keeps the count positive.
pub proof fn lemma_count_true_pos(mask: Seq<bool>, k: int, n: int)
    requires
        0 <= k < n <= mask.len(),
        mask[k],
    ensures
        count_true(mask, n) > 0,
    decreases n,
{
    if k == n - 1 {
        lemma_count_true_bounds(mask, n - 1);
    } else {
        lemma_count_true_pos(mask, k, n - 1);
    }
}

/// The uniform share of one whole unit for slot `i` of `n`: the first
/// `SCALE % n` slots take the rounding remainder.
pub open spec fn uniform_share(n: int, i: int) -> u64 {
    if i < SCALE as int % n {
        (SCALE as int / n + 1) as u64
    } else {
        (SCALE as int / n) as u64
    }
}

/// Splits one whole unit of probability evenly over `n` slots: the result
/// sums to exactly `SCALE`.
pub fn uniform_unit(n: usize) -> (r: Vec<u64>)
    requires
        0 < n <= 64,
    ensures
        r@.len() == n,
        forall|i: int| 0 <= i < n ==> r@[i] == uniform_share(n as int, i),
        forall|i: int| 0 <= i < n ==> r@[i] <= SCALE,
        sum_weights(r@) == SCALE,
        exists|i: int| 0 <= i < r@.len() && #[trigger] r@[i] > PRIOR_EPSILON,
{
    let base: u64 = SCALE / (n as u64);
    let rem: u64 = SCALE % (n as u64);
    proof {
        lemma_fundamental_div_mod(SCALE as int, n as int);
        lemma_div_is_ordered_by_denominator(SCALE as int, n as int, 64int);
        assert(base >= 15_625);
        assert(base <= SCALE) by (nonlinear_arith)
            requires
                base == SCALE as int / n as int,
                n >= 1,
                SCALE == 1_000_000,
        {
        }
        if rem > 0 {
            assert(base <= 500_000) by (nonlinear_arith)
                requires
                    base == SCALE as int / n as int,
                    n >= 2,
                    SCALE == 1_000_000,
            {
            }
        }
    }
    let mut r: Vec<u64> = Vec::new();
    let mut i: usize = 0;
    while i < n
        invariant
            i <= n,
            0 < n <= 64,
            base == SCALE as int / n as int,
            rem == SCALE as int % n as int,
            rem < n,
            15_625 <= base <= SCALE,
            rem > 0 ==> base <= 500_000,
            r@.len() == i,
            forall|m: int| 0 <= m < i ==> r@[m] == uniform_share(n as int, m),
            forall|m: int| 0 <= m < i ==> r@[m] <= SCALE,
            sum_weights(r@) == base * i + (if i <= rem {
                i as int
            } else {
                rem as int
            }),
        decreases n - i,
    {
        let share: u64 = if (i as u64) < rem {
            base + 1
        } else {
            base
        };
        proof {
            lemma_sum_push(r@, share);
            assert(base * (i + 1) == base * i + base) by (nonlinear_arith);
        }
        r.push(share);
        i = i + 1;
    }
    proof {
        assert(sum_weights(r@) == base * n + rem);
        lemma_fundamental_div_mod(SCALE as int, n as int);
        assert(base * n == n * base) by (nonlinear_arith);
        assert(r@[0] == uniform_share(n as int, 0));
        assert(r@[0] >= base);
    }
    r
}

} // verus!
