//! Fixed-point arithmetic in millionths.
//!
//! Probabilities and selection scores are represented as integers scaled by
//! `SCALE` (one unit is 1e-6), so that the search's numeric formulas can be
//! stated and proved exactly over the integers.
use vstd::prelude::*;
use vstd::arithmetic::power2::*;

verus! {

/// One whole unit in fixed-point representation: values are in millionths.
pub const SCALE: u64 = 1_000_000;

/// Natural logarithm of 2, in millionths.
pub const LN2: u64 = 693_147;

/// Floor of the square root, defined by recursion on the argument.
pub open spec fn sqrt_floor(x: nat) -> nat
    decreases x,
{
    if x == 0 {
        0
    } else {
        let r = 2 * sqrt_floor(x / 4);
        if (r + 1) * (r + 1) <= x {
            r + 1
        } else {
            r
        }
    }
}

/// `sqrt_floor(x)` really is the floor of the square root of `x`.
pub proof fn lemma_sqrt_floor_bounds(x: nat)
    ensures
        sqrt_floor(x) * sqrt_floor(x) <= x,
        x < (sqrt_floor(x) + 1) * (sqrt_floor(x) + 1),
    decreases x,
{
    if x == 0 {
        assert(sqrt_floor(0) == 0);
        assert((sqrt_floor(x) + 1) * (sqrt_floor(x) + 1) == 1) by (nonlinear_arith)
            requires
                sqrt_floor(x) == 0,
        {
        }
    } else {
        lemma_sqrt_floor_bounds(x / 4);
        let s = sqrt_floor(x / 4);
        let r = 2 * s;
        assert(r * r <= x) by (nonlinear_arith)
            requires
                s * s <= x / 4,
                r == 2 * s,
        {
        }
        assert(x < (r + 2) * (r + 2)) by (nonlinear_arith)
            requires
                x / 4 < (s + 1) * (s + 1),
                r == 2 * s,
        {
        }
        if (r + 1) * (r + 1) <= x {
            assert(sqrt_floor(x) == r + 1);
            assert((r + 1 + 1) * (r + 1 + 1) == (r + 2) * (r + 2)) by (nonlinear_arith);
            assert(sqrt_floor(x) * sqrt_floor(x) <= x);
            assert(x < (sqrt_floor(x) + 1) * (sqrt_floor(x) + 1));
        } else {
            assert(sqrt_floor(x) == r);
            assert(sqrt_floor(x) * sqrt_floor(x) <= x);
            assert(x < (sqrt_floor(x) + 1) * (sqrt_floor(x) + 1));
        }
    }
}

/// Two naturals with the same floor-sqrt bracketing are equal.
pub proof fn lemma_sqrt_unique(x: nat, a: nat, b: nat)
    requires
        a * a <= x,
        x < (a + 1) * (a + 1),
        b * b <= x,
        x < (b + 1) * (b + 1),
    ensures
        a == b,
{
    assert(a == b) by (nonlinear_arith)
        requires
            a * a <= x,
            x < (a + 1) * (a + 1),
            b * b <= x,
            x < (b + 1) * (b + 1),
    {
    }
}

/// Integer square root by binary search.
pub fn isqrt(x: u128) -> (r: u128)
    requires
        x < 0x1_0000_0000_0000_0000_0000u128,
    ensures
        r == sqrt_floor(x as nat),
{
    let mut lo: u128 = 0;
    let mut hi: u128 = 0x100_0000_0000u128;
    assert(0x100_0000_0000u128 * 0x100_0000_0000u128 == 0x1_0000_0000_0000_0000_0000u128)
        by (nonlinear_arith);
    while hi - lo > 1
        invariant
            lo < hi <= 0x100_0000_0000u128,
            lo * lo <= x,
            x < hi * hi,
        decreases hi - lo,
    {
        let mid = lo + (hi - lo) / 2;
        proof {
            assert(mid * mid <= 0x1_0000_0000_0000_0000_0000u128) by (nonlinear_arith)
                requires
                    mid <= 0x100_0000_0000u128,
            {
            }
        }
        if mid * mid <= x {
            lo = mid;
        } else {
            hi = mid;
        }
    }
    proof {
        lemma_sqrt_floor_bounds(x as nat);
        lemma_sqrt_unique(x as nat, lo as nat, sqrt_floor(x as nat));
    }
    lo
}

/// Logarithm of `m / SCALE` for `m` in `[SCALE, 2 * SCALE)`, in millionths,
/// via the series `ln(v) = 2 (z + z^3 / 3 + ...)` with `z = (v - 1) / (v + 1)`.
pub open spec fn ln_frac(m: int) -> int {
    let z = (m - SCALE) * SCALE / (m + SCALE);
    2 * z + 2 * z * z * z / (3 * SCALE * SCALE)
}

/// Logarithm of `x / SCALE` for `x >= SCALE`, in millionths: halve down into
/// `[SCALE, 2 * SCALE)`, adding `LN2` per halving, then take the series tail.
pub open spec fn ln_fixed_spec(x: int) -> int
    decreases x when x >= SCALE
{
    if x < 2 * SCALE {
        ln_frac(x)
    } else {
        LN2 + ln_fixed_spec(x / 2)
    }
}

/// Fixed-point natural logarithm of `x / SCALE`, for `x >= SCALE`.
pub fn ln_fixed(x: u64) -> (r: u64)
    requires
        SCALE <= x,
    ensures
        r == ln_fixed_spec(x as int),
        r <= 48_000_000,
{
    let mut m: u64 = x;
    let mut k: u64 = 0;
    proof {
        lemma2_to64();
    }
    while m >= 2 * SCALE
        invariant
            SCALE <= m <= x,
            k <= 64,
            m as nat * pow2(k as nat) <= x as nat,
            ln_fixed_spec(x as int) == k * LN2 + ln_fixed_spec(m as int),
        decreases m,
    {
        proof {
            assert(ln_fixed_spec(m as int) == LN2 + ln_fixed_spec(m as int / 2));
            lemma_pow2_unfold((k + 1) as nat);
            assert((m as int / 2) as nat * pow2((k + 1) as nat) <= x as nat) by (nonlinear_arith)
                requires
                    m as nat * pow2(k as nat) <= x as nat,
                    pow2((k + 1) as nat) == 2 * pow2(k as nat),
                    m >= 2,
            {
            }
            if k >= 64 {
                lemma2_to64();
                assert(m as nat * pow2(64) >= pow2(64)) by (nonlinear_arith)
                    requires
                        m >= 1,
                {
                }
                assert(false);
            }
        }
        m = m / 2;
        k = k + 1;
    }
    let z: u64 = (m - SCALE) * SCALE / (m + SCALE);
    assert(z < SCALE) by (nonlinear_arith)
        requires
            SCALE <= m < 2 * SCALE,
            z == (m - SCALE) * SCALE / (m + SCALE),
    {
    }
    proof {
        assert(2 * z * z < 2_000_000_000_000) by (nonlinear_arith)
            requires
                z < 1_000_000,
        {
        }
        assert(2 * z * z * z < 2_000_000_000_000_000_000) by (nonlinear_arith)
            requires
                z < 1_000_000,
        {
        }
    }
    proof {
        assert(2 * z * z * z / (3 * SCALE * SCALE) <= 666_667int) by (nonlinear_arith)
            requires
                0 <= 2 * z * z * z < 2_000_000_000_000_000_000,
                SCALE == 1_000_000,
        {
        }
    }
    let r = k * LN2 + 2 * z + 2 * z * z * z / (3 * SCALE * SCALE);
    r
}

} // verus!
