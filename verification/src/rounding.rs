//! Binary floating-point results, computed exactly with integers.
//!
//! A product of two floating-point numbers is the exact product, rounded to the nearest number with
//! as many significant binary digits as the format holds; of two that are equally near, the one
//! whose last digit is zero.

use vstd::prelude::*;
use vstd::arithmetic::power2::{lemma2_to64, lemma_pow2_pos, lemma_pow2_unfold, pow2};
use vstd::arithmetic::div_mod::{lemma_div_denominator, lemma_fundamental_div_mod, lemma_mod_bound};

verus! {

/// The numbers below this one have at most 53 binary digits.
pub const DOUBLE_LIMIT: u128 = 9007199254740992;

/// The numbers below this one have at most 24 binary digits.
pub const SINGLE_LIMIT: u128 = 16777216;

/// The smallest power of two of which fewer than `limit` make up `n`, not counting a part of one.
pub open spec fn unit(n: nat, limit: nat) -> nat
    decreases n,
{
    if n < limit || n == 0 {
        1
    } else {
        2 * unit(n / 2, limit)
    }
}

/// `n` rounded to a multiple of its unit: to the nearest one, and of two to the even one.
pub open spec fn rounded(n: nat, limit: nat) -> nat {
    let u = unit(n, limit);
    let q = n / u;
    let r = n % u;
    if 2 * r < u || (2 * r == u && q % 2 == 0) {
        q * u
    } else {
        (q + 1) * u
    }
}

proof fn lemma_unit(n: nat, limit: nat)
    requires
        limit > 1,
    ensures
        unit(n, limit) >= 1,
        n > 0 ==> unit(n, limit) <= n,
        n / unit(n, limit) < limit,
    decreases n,
{
    if n < limit || n == 0 {
        assert(n / 1 == n);
    } else {
        lemma_unit(n / 2, limit);
        let u = unit(n / 2, limit);
        lemma_div_denominator(n as int, 2, u as int);
        assert((n as int / 2) / u as int == n as int / (2 * u as int));
    }
}

/// Rounding loses less than half of a number.
pub proof fn lemma_rounded_bounds(n: nat, limit: nat)
    requires
        limit > 1,
    ensures
        n <= 2 * rounded(n, limit),
        rounded(n, limit) <= 2 * n,
{
    lemma_unit(n, limit);
    let u = unit(n, limit) as int;
    let q = n as int / u;
    let r = n as int % u;
    lemma_fundamental_div_mod(n as int, u);
    lemma_mod_bound(n as int, u);
    if n > 0 {
        assert(q >= 1) by (nonlinear_arith)
            requires
                n as int == u * q + r,
                0 <= r < u <= n,
        ;
        assert(u * q >= u) by (nonlinear_arith)
            requires
                q >= 1,
                u >= 1,
        ;
    }
    assert(q * u == u * q) by (nonlinear_arith);
    assert((q + 1) * u == u * q + u) by (nonlinear_arith);
}

/// Rounds `n` to as many binary digits as the numbers below `limit` have.
pub fn round_to(n: u128, limit: u128) -> (r: u128)
    requires
        limit > 1,
        n <= u128::MAX / 2,
    ensures
        r == rounded(n as nat, limit as nat),
{
    let mut u: u128 = 1;
    let mut m: u128 = n;
    proof {
        assert(n as int / 1 == n as int);
        assert(1 * unit(n as nat, limit as nat) == unit(n as nat, limit as nat));
    }
    while m >= limit
        invariant
            limit > 1,
            n <= u128::MAX / 2,
            u >= 1,
            n > 0 ==> u <= n,
            m == n as int / u as int,
            u * unit(m as nat, limit as nat) == unit(n as nat, limit as nat),
        decreases m,
    {
        proof {
            lemma_div_denominator(n as int, u as int, 2);
            lemma_fundamental_div_mod(n as int, u as int);
            lemma_mod_bound(n as int, u as int);
            assert(2 * u <= n) by (nonlinear_arith)
                requires
                    n as int == u * (n as int / u as int) + n as int % u as int,
                    n as int / u as int >= 2,
                    0 <= n as int % u as int,
                    u >= 1,
            ;
            assert(u * (2 * unit((m / 2) as nat, limit as nat)) == (u * 2) * unit((m / 2) as nat, limit as nat))
                by (nonlinear_arith);
            assert((m as nat) / 2 == (m / 2) as nat);
        }
        m = m / 2;
        u = u * 2;
    }
    proof {
        assert(unit(m as nat, limit as nat) == 1);
        assert(u * 1 == u);
        lemma_fundamental_div_mod(n as int, u as int);
        lemma_mod_bound(n as int, u as int);
        assert(m * u == u * (n as int / u as int)) by (nonlinear_arith)
            requires
                m == n as int / u as int,
        ;
        assert((m + 1) * u == m * u + u) by (nonlinear_arith);
        if n == 0 {
            assert(u * unit(m as nat, limit as nat) == 1);
        }
    }
    let r: u128 = n % u;
    if r < u - r || (r == u - r && m % 2 == 0) {
        m * u
    } else {
        (m + 1) * u
    }
}

/// The sign bit of a single-precision number is set.
pub open spec fn single_negative(bits: u32) -> bool {
    bits >= 0x8000_0000
}

/// The exponent field of a single-precision number.
pub open spec fn single_exponent(bits: u32) -> nat {
    (bits as nat / 0x80_0000) % 256
}

/// The fraction field of a single-precision number.
pub open spec fn single_fraction(bits: u32) -> nat {
    bits as nat % 0x80_0000
}

/// The digits of a finite single-precision number, an integer.
pub open spec fn single_digits(bits: u32) -> nat {
    if single_exponent(bits) == 0 {
        single_fraction(bits)
    } else {
        single_fraction(bits) + 0x80_0000
    }
}

/// The power of two by which the digits of a finite single-precision number are scaled.
pub open spec fn single_scale(bits: u32) -> int {
    if single_exponent(bits) == 0 {
        -149
    } else {
        single_exponent(bits) - 150
    }
}

/// `n` scaled by a power of two, without a fractional part.
pub open spec fn scaled(n: nat, scale: int) -> nat {
    if scale >= 0 {
        n * pow2(scale as nat)
    } else {
        n / pow2((-scale) as nat)
    }
}

/// The whole milliseconds of a number of seconds in single precision: a thousand times that number,
/// rounded to single precision, without its fractional part, and clamped to the range of `u64`.
/// What is no number counts as zero.
pub open spec fn millis(bits: u32) -> nat {
    if single_exponent(bits) == 255 {
        if single_fraction(bits) == 0 && !single_negative(bits) {
            u64::MAX as nat
        } else {
            0
        }
    } else if single_negative(bits) {
        0
    } else {
        let ms = scaled(rounded(1000 * single_digits(bits), SINGLE_LIMIT as nat), single_scale(bits));
        if ms > u64::MAX {
            u64::MAX as nat
        } else {
            ms
        }
    }
}

fn two_to(k: u32) -> (r: u128)
    requires
        k < 64,
    ensures
        r == pow2(k as nat),
{
    let mut r: u128 = 1;
    let mut i: u32 = 0;
    proof {
        lemma2_to64();
    }
    while i < k
        invariant
            i <= k < 64,
            pow2(64) == 0x1_0000_0000_0000_0000,
            r == pow2(i as nat),
        decreases k - i,
    {
        proof {
            lemma_pow2_unfold((i + 1) as nat);
            lemma_pow2_at_most(i as nat, 64);
        }
        r = r * 2;
        i += 1;
    }
    r
}

proof fn lemma_pow2_at_most(i: nat, j: nat)
    requires
        i <= j,
    ensures
        pow2(i) <= pow2(j),
    decreases j,
{
    if i < j {
        lemma_pow2_at_most(i, (j - 1) as nat);
        lemma_pow2_unfold(j);
        lemma_pow2_pos((j - 1) as nat);
    }
}

/// The whole milliseconds of a duration in seconds, given by the bits of a single-precision number.
pub fn duration_millis(bits: u32) -> (ms: u64)
    ensures
        ms == millis(bits),
{
    let exponent: u32 = (bits / 0x80_0000) % 256;
    let fraction: u32 = bits % 0x80_0000;
    let negative = bits >= 0x8000_0000;
    if exponent == 255 {
        return if fraction == 0 && !negative {
            u64::MAX
        } else {
            0
        };
    }
    if negative {
        return 0;
    }
    let digits: u32 = if exponent == 0 {
        fraction
    } else {
        fraction + 0x80_0000
    };
    let product: u128 = round_to(1000 * digits as u128, SINGLE_LIMIT);
    proof {
        lemma_rounded_bounds((1000 * digits) as nat, SINGLE_LIMIT as nat);
        lemma2_to64();
        assert(product < 0x9_0000_0000);
    }
    if exponent >= 150 {
        let k: u32 = exponent - 150;
        assert(single_scale(bits) == k);
        if k >= 64 {
            proof {
                lemma_pow2_at_most(64, k as nat);
                assert(product >= 1) by {
                    assert(digits >= 0x80_0000);
                }
                assert(product * pow2(k as nat) >= pow2(k as nat)) by (nonlinear_arith)
                    requires
                        product >= 1,
                ;
            }
            return u64::MAX;
        }
        let factor: u128 = two_to(k);
        proof {
            lemma_pow2_at_most(k as nat, 64);
            assert(product * factor <= 0x9_0000_0000 * 0x1_0000_0000_0000_0000) by (nonlinear_arith)
                requires
                    product < 0x9_0000_0000,
                    factor <= 0x1_0000_0000_0000_0000,
            ;
        }
        let ms: u128 = product * factor;
        if ms > u64::MAX as u128 {
            u64::MAX
        } else {
            ms as u64
        }
    } else {
        let k: u32 = if exponent == 0 {
            149
        } else {
            150 - exponent
        };
        assert(single_scale(bits) == -(k as int));
        if k >= 64 {
            proof {
                lemma_pow2_at_most(64, k as nat);
                vstd::arithmetic::div_mod::lemma_basic_div(product as int, pow2(k as nat) as int);
            }
            return 0;
        }
        let factor: u128 = two_to(k);
        proof {
            lemma_pow2_pos(k as nat);
            vstd::arithmetic::div_mod::lemma_div_is_ordered_by_denominator(product as int, 1, factor as int);
        }
        let ms: u128 = product / factor;
        ms as u64
    }
}

} // verus!
