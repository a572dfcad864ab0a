use vstd::prelude::*;
use vstd::arithmetic::div_mod::lemma_fundamental_div_mod_converse;
use vstd::arithmetic::power2::{lemma2_to64, lemma2_to64_rest, pow2};
use vstd::bits::{lemma_u32_shr_is_div, lemma_u64_shr_is_div};

verus! {

/// Division by `d` as a multiplication by `m` and a division by `p`: with
/// `d * m == p + e`, the error that `e` and the offset `c` bring stays below one
/// step of `p` for every quotient up to `qmax`.
pub proof fn lemma_mul_shift_div(x: int, c: int, m: int, p: int, d: int, e: int, qmax: int)
    requires
        0 <= x,
        0 <= c,
        d > 0,
        p > 0,
        m > 0,
        d * m == p + e,
        x / d <= qmax,
        e >= 0 ==> qmax * e + (d - 1 + c) * m < p,
        e < 0 ==> c * m + qmax * e >= 0 && (d - 1 + c) * m < p,
    ensures
        (x + c) * m / p == x / d,
{
    let q = x / d;
    let r = x % d;
    assert(x == q * d + r && 0 <= r < d && q >= 0) by (nonlinear_arith)
        requires
            d > 0,
            x >= 0,
            q == x / d,
            r == x % d,
    ;
    let rest = q * e + (r + c) * m;
    assert((x + c) * m == q * p + rest) by (nonlinear_arith)
        requires
            x == q * d + r,
            d * m == p + e,
            rest == q * e + (r + c) * m,
    ;
    assert(0 <= rest < p) by (nonlinear_arith)
        requires
            0 <= q <= qmax,
            0 <= r < d,
            0 <= c,
            m > 0,
            rest == q * e + (r + c) * m,
            e >= 0 ==> qmax * e + (d - 1 + c) * m < p,
            e < 0 ==> c * m + qmax * e >= 0 && (d - 1 + c) * m < p,
    ;
    lemma_fundamental_div_mod_converse((x + c) * m, p, q, rest);
}

/// `x / 100` for `x` below `10^4`: multiply by `5243`, shift by 19.
pub proof fn lemma_div100_u32(x: u32)
    requires
        x < 10000,
    ensures
        ((x * 5243) as u32) >> 19u32 == x / 100,
{
    lemma2_to64();
    lemma_u32_shr_is_div((x * 5243) as u32, 19);
    lemma_mul_shift_div(x as int, 0, 5243, pow2(19) as int, 100, 12, 99);
}

/// `x / 100` for `x` below `10^4`, in 64-bit arithmetic.
pub proof fn lemma_div100_u64(x: u64)
    requires
        x < 10000,
    ensures
        ((x * 5243) as u64) >> 19u64 == x / 100,
{
    lemma2_to64();
    lemma_u64_shr_is_div((x * 5243) as u64, 19);
    lemma_mul_shift_div(x as int, 0, 5243, pow2(19) as int, 100, 12, 99);
}

/// `x / 10000` for `x` below `10^8`: multiply by `109951163`, shift by 40.
pub proof fn lemma_div10000_u64(x: u64)
    requires
        x < 100000000,
    ensures
        ((x * 109951163) as u64) >> 40u64 == x / 10000,
{
    lemma2_to64();
    lemma2_to64_rest();
    lemma_u64_shr_is_div((x * 109951163) as u64, 40);
    lemma_mul_shift_div(x as int, 0, 109951163, pow2(40) as int, 10000, 2224, 9999);
}

/// `x / 10000` for `x` below `10^6`: multiply by `429497`, shift by 32.
pub proof fn lemma_div10000_small_u64(x: u64)
    requires
        x < 1000000,
    ensures
        ((x * 429497) as u64) >> 32u64 == x / 10000,
{
    lemma2_to64();
    lemma_u64_shr_is_div((x * 429497) as u64, 32);
    lemma_mul_shift_div(x as int, 0, 429497, pow2(32) as int, 10000, 2704, 99);
}

/// `x / 10000` for `x` below `10^6`: add one, multiply by `858993`, shift by 33.
pub proof fn lemma_div10000_rounded_u64(x: u64)
    requires
        x < 1000000,
    ensures
        (((x + 1) * 858993) as u64) >> 33u64 == x / 10000,
{
    lemma2_to64();
    lemma2_to64_rest();
    lemma_u64_shr_is_div(((x + 1) * 858993) as u64, 33);
    lemma_mul_shift_div(x as int, 1, 858993, pow2(33) as int, 10000, -4592, 99);
}

/// `x / 10^6` for `x` below `10^8`: add one, multiply by `8796093`, shift by 43.
pub proof fn lemma_div1000000_rounded_u64(x: u64)
    requires
        x < 100000000,
    ensures
        (((x + 1) * 8796093) as u64) >> 43u64 == x / 1000000,
{
    lemma2_to64();
    lemma2_to64_rest();
    lemma_u64_shr_is_div(((x + 1) * 8796093) as u64, 43);
    lemma_mul_shift_div(x as int, 1, 8796093, pow2(43) as int, 1000000, -22208, 99);
}

/// `x / 10^8` for every 32-bit `x`: multiply by `1441151881`, shift by 57.
pub proof fn lemma_div100000000_u64(x: u64)
    requires
        x < 0x1_0000_0000,
    ensures
        ((x * 1441151881) as u64) >> 57u64 == x / 100000000,
{
    lemma2_to64();
    lemma2_to64_rest();
    lemma_u64_shr_is_div((x * 1441151881) as u64, 57);
    lemma_mul_shift_div(x as int, 0, 1441151881, pow2(57) as int, 100000000, 24144128, 42);
}

} // verus!
