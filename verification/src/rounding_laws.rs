//! Laws of rounding.

use vstd::prelude::*;
use vstd::arithmetic::div_mod::{lemma_fundamental_div_mod, lemma_mod_bound};
use vstd::arithmetic::power2::{lemma_pow2_pos, lemma_pow2_unfold, pow2};
use crate::rounding::{
    lemma_rounded_bounds, millis, rounded, single_digits, single_exponent, single_fraction, unit, SINGLE_LIMIT,
};

verus! {

/// The unit is a power of two, the smallest with which `n` has few enough digits.
proof fn lemma_unit_power(n: nat, limit: nat) -> (e: nat)
    requires
        limit > 1,
    ensures
        unit(n, limit) == pow2(e),
        n < limit * pow2(e),
        e > 0 ==> limit * pow2((e - 1) as nat) <= n,
    decreases n,
{
    if n < limit || n == 0 {
        assert(pow2(0) == 1) by {
            vstd::arithmetic::power2::lemma2_to64();
        }
        assert(limit * 1 == limit);
        0
    } else {
        let e = lemma_unit_power(n / 2, limit);
        lemma_pow2_unfold(e + 1);
        let p = pow2(e) as int;
        let l = limit as int;
        assert(n < limit * pow2(e + 1)) by (nonlinear_arith)
            requires
                pow2(e + 1) == 2 * p,
                pow2(e) == p,
                n / 2 < l * p,
                limit == l,
        ;
        if e > 0 {
            lemma_pow2_unfold(e);
            let q = pow2((e - 1) as nat) as int;
            assert(limit * pow2(e) <= n) by (nonlinear_arith)
                requires
                    pow2(e) == 2 * q,
                    l * q <= n / 2,
                    limit == l,
            ;
        } else {
            assert(pow2(0) == 1) by {
                vstd::arithmetic::power2::lemma2_to64();
            }
            assert(limit * 1 == limit);
        }
        assert(((e + 1) - 1) as nat == e);
        e + 1
    }
}

/// A number with few enough binary digits is kept. Any other becomes a number with just as many: a multiple
/// of the smallest power of two of which few enough make it up, not farther away than half of that power, and
/// exactly that far only where it is an even multiple.
pub proof fn law_rounded(n: nat, limit: nat)
    requires
        limit > 1,
    ensures
        n < limit ==> rounded(n, limit) == n,
        exists|e: nat, k: nat|
            {
                &&& rounded(n, limit) == k * #[trigger] pow2(e)
                &&& n < limit * pow2(e)
                &&& e > 0 ==> limit * pow2((e - 1) as nat) <= n
                &&& 2 * (k * pow2(e) - n) <= pow2(e)
                &&& 2 * (n - k * pow2(e)) <= pow2(e)
                &&& 2 * (k * pow2(e) - n) == pow2(e) || 2 * (n - k * pow2(e)) == pow2(e) ==> #[trigger] (k % 2) == 0
            },
{
    let e = lemma_unit_power(n, limit);
    let u = unit(n, limit) as int;
    lemma_pow2_pos(e);
    let q = n as int / u;
    let r = n as int % u;
    lemma_fundamental_div_mod(n as int, u);
    lemma_mod_bound(n as int, u);
    assert(q >= 0) by (nonlinear_arith)
        requires
            n as int == u * q + r,
            0 <= r < u,
            n >= 0,
    ;
    assert(q * u == u * q) by (nonlinear_arith);
    assert((q + 1) * u == u * q + u) by (nonlinear_arith);
    let k: nat = if 2 * r < u || (2 * r == u && q % 2 == 0) {
        q as nat
    } else {
        (q + 1) as nat
    };
    assert(rounded(n, limit) == k * u);
    assert(k * pow2(e) == rounded(n, limit) && n < limit * pow2(e) && (k % 2 == 0 || k % 2 == 1));
    if n < limit {
        assert(n as int / 1 == n as int);
        assert(n as int % 1 == 0);
        assert(n * 1 == n);
    }
}

/// The bits of a single-precision number that is not negative, from its exponent and fraction fields.
pub open spec fn single(exponent: nat, fraction: nat) -> nat {
    exponent * 0x80_0000 + fraction
}

/// A duration in seconds, in single precision, is a number of milliseconds: the product with a thousand,
/// rounded to 24 binary digits, without its fractional part, and at most the largest `u64`. What is below the
/// normal range is less than a millisecond.
pub proof fn law_millis(exponent: nat, fraction: nat, bits: u32)
    requires
        exponent < 255,
        fraction < 0x80_0000,
        bits as nat == single(exponent, fraction),
    ensures
        exponent == 0 ==> millis(bits) == 0,
        exponent > 0 ==> {
            let product = rounded(1000 * (0x80_0000 + fraction), 0x100_0000);
            let m = millis(bits);
            &&& exponent < 150 ==> m * pow2((150 - exponent) as nat) <= product < (m + 1) * pow2((150 - exponent) as nat)
            &&& exponent >= 150 ==> m == if product * pow2((exponent - 150) as nat) <= u64::MAX {
                product * pow2((exponent - 150) as nat)
            } else {
                u64::MAX as nat
            }
        },
{
    assert(single_exponent(bits) == exponent);
    assert(single_fraction(bits) == fraction);
    let digits = single_digits(bits);
    let product = rounded(1000 * digits, SINGLE_LIMIT as nat);
    lemma_rounded_bounds(1000 * digits, SINGLE_LIMIT as nat);
    let places: nat = if exponent == 0 {
        149
    } else if exponent < 150 {
        (150 - exponent) as nat
    } else {
        0
    };
    lemma_pow2_pos(places);
    let p = pow2(places) as int;
    let x = product as int;
    lemma_fundamental_div_mod(x, p);
    lemma_mod_bound(x, p);
    let q = x / p;
    assert(q >= 0 && q <= x) by (nonlinear_arith)
        requires
            x == p * q + x % p,
            0 <= x % p < p,
            x >= 0,
            p >= 1,
    ;
    assert(p * q == q * p && (q + 1) * p == q * p + p) by (nonlinear_arith);
    if exponent == 0 {
        vstd::arithmetic::power2::lemma2_to64();
        vstd::arithmetic::power2::lemma_pow2_adds(64, 85);
        lemma_pow2_pos(85);
        assert(p >= 0x1_0000_0000_0000_0000) by (nonlinear_arith)
            requires
                p == pow2(64) * pow2(85),
                pow2(64) == 0x1_0000_0000_0000_0000,
                pow2(85) >= 1,
        ;
        assert(q == 0) by (nonlinear_arith)
            requires
                x == p * q + x % p,
                0 <= x % p,
                0 <= q,
                x < p,
                p >= 1,
        ;
    }
}

/// An infinite duration is the largest number of milliseconds; what is negative or no number is none.
pub proof fn law_millis_without_number(bits: u32)
    ensures
        bits as nat == single(255, 0) ==> millis(bits) == u64::MAX,
        single(255, 0) < bits ==> millis(bits) == 0,
{
}

} // verus!
