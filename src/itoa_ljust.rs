use vstd::prelude::*;
use crate::decimal::{
    decimal,
    lemma_div_mod_pow10,
    lemma_decimal_exact,
    lemma_decimal_len,
    lemma_padded_len,
    lemma_padded_split,
    lemma_pow10_values,
    padded,
    pow10,
};
use crate::digits_lut::{lemma_lut_pair, lemma_written_concat, write_pair, written, DIGITS_LUT};
use crate::fixed_point::{
    lemma_div100000000_u64,
    lemma_div1000000_rounded_u64,
    lemma_div10000_rounded_u64,
    lemma_div100_u64,
};
use crate::numstr::NumStr;

verus! {

broadcast use lemma_padded_len;

/// `10^e` for `e` up to 9.
fn p10(e: u32) -> (r: u32)
    requires
        e <= 9,
    ensures
        r as nat == pow10(e as nat),
    decreases e,
{
    proof {
        lemma_pow10_values();
    }
    if e != 0 {
        10 * p10(e - 1)
    } else {
        1
    }
}

/// The exponents for which a multiply-and-shift quotient is defined, with the
/// largest input each one is exact for.
pub open spec fn q10_domain(e: u32, u: u32) -> bool {
    ||| e == 0
    ||| (e == 2 && u < 10000)
    ||| (e == 4 && u < 1000000)
    ||| (e == 6 && u < 100000000)
    ||| e == 8
}

/// `u / 10^e` by a multiplication and a shift.
fn q10_u32(u: u32, e: u32) -> (r: u32)
    requires
        q10_domain(e, u),
    ensures
        r as nat == u as nat / pow10(e as nat),
{
    proof {
        lemma_pow10_values();
    }
    let x = u as u64;
    if e == 0 {
        assert(u as nat / pow10(0) == u);
        u
    } else if e == 2 {
        let q = (x * 5243) >> 19;
        proof {
            lemma_div100_u64(x);
            assert(q == u / 100);
        }
        q as u32
    } else if e == 4 {
        let q = ((x + 1) * 858993) >> 33;
        proof {
            lemma_div10000_rounded_u64(x);
            assert(q == u / 10000);
        }
        q as u32
    } else if e == 6 {
        let q = ((x + 1) * 8796093) >> 43;
        proof {
            lemma_div1000000_rounded_u64(x);
            assert(q == u / 1000000);
        }
        q as u32
    } else {
        let q = (x * 1441151881) >> 57;
        proof {
            lemma_div100000000_u64(x);
            assert(q == u / 100000000);
        }
        q as u32
    }
}

/// `u / 10^e`.
fn q10_u64(u: u64, e: u32) -> (r: u64)
    requires
        e <= 9,
    ensures
        r as nat == u as nat / pow10(e as nat),
{
    proof {
        lemma_p10_bound(e);
    }
    u / p10(e) as u64
}

/// A quotient and a remainder.
pub struct QR<T> {
    pub q: T,
    pub r: T,
}

impl QR<u32> {
    /// Quotient and remainder of `u` by `10^e`.
    fn new_u32(u: u32, e: u32) -> (d: Self)
        requires
            q10_domain(e, u),
        ensures
            d.q as nat == u as nat / pow10(e as nat),
            d.r as nat == u as nat % pow10(e as nat),
    {
        let q = q10_u32(u, e);
        let p = p10(e);
        proof {
            lemma_pow10_values();
            vstd::arithmetic::div_mod::lemma_fundamental_div_mod(u as int, p as int);
            assert(q * p <= u) by (nonlinear_arith)
                requires
                    q == u / p,
                    p > 0,
            ;
        }
        QR { q, r: u - q * p }
    }

    /// Quotient and remainder of `u` by `10^e`, where the quotient fits 32 bits; the
    /// remainder is found with a wrapping product.
    fn new_u64(u: u64, e: u32) -> (d: Self)
        requires
            e <= 9,
            u as nat / pow10(e as nat) < 0x1_0000_0000,
        ensures
            d.q as nat == u as nat / pow10(e as nat),
            d.r as nat == u as nat % pow10(e as nat),
    {
        let q = q10_u64(u, e) as u32;
        let p = p10(e);
        let w = q.wrapping_mul(p);
        proof {
            lemma_pow10_values();
            lemma_p10_bound(e);
            let pn = p as int;
            let ui = u as int;
            let qp = q as int * pn;
            vstd::arithmetic::div_mod::lemma_fundamental_div_mod(ui, pn);
            vstd::arithmetic::div_mod::lemma_fundamental_div_mod(qp, 0x1_0000_0000);
            let k = qp / 0x1_0000_0000;
            assert(0 <= ui % pn < pn) by {
                vstd::arithmetic::div_mod::lemma_mod_bound(ui, pn);
            }
            assert(qp == k * 0x1_0000_0000 + w);
            assert(k >= 0) by {
                vstd::arithmetic::div_mod::lemma_div_pos_is_pos(qp, 0x1_0000_0000);
            }
            assert(ui == qp + ui % pn) by {
                vstd::arithmetic::mul::lemma_mul_is_commutative(pn, q as int);
            }
        }
        let x = u - w as u64;
        proof {
            let ui = u as int;
            let pn = p as int;
            let k = (q as int * pn) / 0x1_0000_0000;
            assert(x == ui % pn + k * 0x1_0000_0000);
            assert(x as u32 == x % 0x1_0000_0000) by (bit_vector);
            vstd::arithmetic::div_mod::lemma_fundamental_div_mod_converse(x as int, 0x1_0000_0000, k, ui % pn);
        }
        QR { q, r: #[verifier::truncate] (x as u32) }
    }
}

proof fn lemma_p10_bound(e: u32)
    requires
        e <= 9,
    ensures
        1 <= pow10(e as nat) <= 1000000000,
{
    lemma_pow10_values();
    assert(e == 0 || e == 1 || e == 2 || e == 3 || e == 4 || e == 5 || e == 6 || e == 7 || e == 8
        || e == 9);
}

impl QR<u64> {
    /// Quotient and remainder of `u` by `10^e`.
    fn new_u64(u: u64, e: u32) -> (d: Self)
        requires
            e <= 9,
        ensures
            d.q as nat == u as nat / pow10(e as nat),
            d.r as nat == u as nat % pow10(e as nat),
    {
        let q = q10_u64(u, e);
        let p = p10(e) as u64;
        proof {
            lemma_p10_bound(e);
            vstd::arithmetic::div_mod::lemma_fundamental_div_mod(u as int, p as int);
            assert(q * p <= u) by (nonlinear_arith)
                requires
                    q == u / p,
                    p > 0,
            ;
        }
        QR { q, r: u - q * p }
    }
}

/// Exactly `n` digits of `u`, `n` even, leading zeros included: a pair from the
/// table, then the rest.
fn cvt_even(buf: &mut [u8; 20], pos: usize, u: u32, n: u32) -> (end: usize)
    requires
        n <= 8,
        n % 2 == 0,
        u < pow10(n as nat),
        pos + n <= 20,
    ensures
        written(old(buf)@, final(buf)@, pos as int, padded(u as nat, n as nat)),
        end == pos + n,
    decreases n,
{
    proof {
        lemma_pow10_values();
    }
    if n == 0 {
        proof {
            assert(buf@.subrange(pos as int, pos as int) =~= padded(u as nat, 0));
        }
        return pos;
    }
    proof {
        lemma_div_mod_pow10(u as nat, 2, (n - 2) as nat);
        assert(2 + (n - 2) as nat == n as nat);
    }
    let d = QR::<u32>::new_u32(u, n - 2);
    let ghost b0 = buf@;
    write_pair(buf, pos, d.q);
    let ghost b1 = buf@;
    let end = cvt_even(buf, pos + 2, d.r, n - 2);
    proof {
        lemma_written_concat(b0, b1, buf@, pos as int, padded(d.q as nat, 2), padded(d.r as nat, (n - 2) as nat));
        lemma_padded_split(d.q as nat, d.r as nat, 2, (n - 2) as nat);
    }
    end
}

/// The one or two leading digits of `u` with no leading zero, then `n - 1` more:
/// both bytes of the table's pair are copied, and the cursor moves past the first
/// only when the lead has two digits.
fn cvt_odd(buf: &mut [u8; 20], pos: usize, u: u32, n: u32) -> (end: usize)
    requires
        n <= 9,
        n % 2 == 1,
        u < pow10((n + 1) as nat),
        n == 1 || pow10((n - 1) as nat) <= u,
        pos + n + 1 <= 20,
    ensures
        written(old(buf)@, final(buf)@, pos as int, decimal(u as nat)),
        end == pos + decimal(u as nat).len(),
        end <= pos + n + 1,
{
    proof {
        lemma_pow10_values();
        lemma_p10_bound((n - 1) as u32);
        lemma_decimal_len(u as nat, (n + 1) as nat);
    }
    proof {
        lemma_div_mod_pow10(u as nat, 2, (n - 1) as nat);
        assert(2 + (n - 1) as nat == (n + 1) as nat);
    }
    let d = QR::<u32>::new_u32(u, n - 1);
    let ghost b0 = buf@;
    proof {
        lemma_lut_pair(d.q as nat);
        reveal_with_fuel(padded, 3);
    }
    let i = d.q as usize * 2;
    let mut out = pos;
    buf[out] = DIGITS_LUT[i];
    if d.q > 9 {
        out += 1;
    }
    buf[out] = DIGITS_LUT[i + 1];
    let lead_end = out + 1;
    proof {
        if d.q > 9 {
            lemma_decimal_exact(d.q as nat, 2);
            assert(buf@.subrange(pos as int, lead_end as int) =~= padded(d.q as nat, 2));
        } else {
            lemma_decimal_exact(d.q as nat, 1);
            assert(buf@.subrange(pos as int, lead_end as int) =~= padded(d.q as nat, 1));
        }
        assert(written(b0, buf@, pos as int, decimal(d.q as nat)));
    }
    let ghost b1 = buf@;
    let end = cvt_even(buf, lead_end, d.r, n - 1);
    proof {
        lemma_written_concat(b0, b1, buf@, pos as int, decimal(d.q as nat), padded(d.r as nat, (n - 1) as nat));
        if d.q >= 1 {
            crate::decimal::lemma_decimal_split(d.q as nat, d.r as nat, (n - 1) as nat);
        } else {
            let pw = pow10((n - 1) as nat);
            assert((d.q as nat) * pw == 0) by (nonlinear_arith)
                requires
                    d.q == 0,
            ;
            assert(n == 1);
            assert(pow10(0) == 1);
            assert(u as nat == d.q as nat);
            assert(decimal(d.q as nat) + padded(d.r as nat, 0) =~= decimal(u as nat));
        }
    }
    end
}

/// Any 32-bit value, branching on its length by powers of a hundred.
fn to_dec_u32(buf: &mut [u8; 20], pos: usize, u: u32) -> (end: usize)
    requires
        pos + 10 <= 20,
    ensures
        written(old(buf)@, final(buf)@, pos as int, decimal(u as nat)),
        end == pos + decimal(u as nat).len(),
        end <= pos + 10,
{
    proof {
        lemma_pow10_values();
        lemma_decimal_len(u as nat, 10);
    }
    if u >= p10(8) {
        cvt_odd(buf, pos, u, 9)
    } else if u < p10(2) {
        cvt_odd(buf, pos, u, 1)
    } else if u < p10(4) {
        cvt_odd(buf, pos, u, 3)
    } else if u < p10(6) {
        cvt_odd(buf, pos, u, 5)
    } else {
        cvt_odd(buf, pos, u, 7)
    }
}

/// Any 64-bit value: the 32-bit path for small values, else groups of eight digits.
fn to_dec_u64(buf: &mut [u8; 20], u: u64) -> (end: usize)
    ensures
        written(old(buf)@, final(buf)@, 0, decimal(u as nat)),
        end == decimal(u as nat).len(),
{
    proof {
        lemma_pow10_values();
    }
    let low = #[verifier::truncate] (u as u32);
    if low as u64 == u {
        return to_dec_u32(buf, 0, low);
    }
    let mid = QR::<u64>::new_u64(u, 8);
    let mid32 = #[verifier::truncate] (mid.q as u32);
    let ghost b0 = buf@;
    if mid32 as u64 == mid.q {
        let p = to_dec_u32(buf, 0, mid32);
        let ghost b1 = buf@;
        let end = cvt_even(buf, p, mid.r as u32, 8);
        proof {
            lemma_written_concat(b0, b1, buf@, 0, decimal(mid32 as nat), padded(mid.r as nat, 8));
            crate::decimal::lemma_decimal_split(mid32 as nat, mid.r as nat, 8);
        }
        end
    } else {
        let d = QR::<u32>::new_u64(mid.q, 8);
        let p = if d.q < p10(2) {
            cvt_odd(buf, 0, d.q, 1)
        } else {
            cvt_odd(buf, 0, d.q, 3)
        };
        let ghost b1 = buf@;
        let p = cvt_even(buf, p, d.r, 8);
        proof {
            lemma_written_concat(b0, b1, buf@, 0, decimal(d.q as nat), padded(d.r as nat, 8));
            crate::decimal::lemma_decimal_split(d.q as nat, d.r as nat, 8);
        }
        let ghost b2 = buf@;
        let end = cvt_even(buf, p, mid.r as u32, 8);
        proof {
            lemma_written_concat(b0, b2, buf@, 0, decimal(mid.q as nat), padded(mid.r as nat, 8));
            crate::decimal::lemma_decimal_split(mid.q as nat, mid.r as nat, 8);
        }
        end
    }
}

/// Length-dispatched fixed routines with an overlapping write of the leading digit.
pub fn u64toa_amartin(v: u64) -> (r: NumStr<20>)
    ensures
        r@ == decimal(v as nat),
{
    let mut buffer = [0u8; 20];
    let end = to_dec_u64(&mut buffer, v);
    NumStr::from_parts(buffer, end)
}

} // verus!
