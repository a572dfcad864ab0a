use vstd::prelude::*;
use vstd::arithmetic::power2::{lemma2_to64, lemma2_to64_rest, pow2};
use vstd::bits::lemma_u64_shr_is_div;
use crate::decimal::{
    decimal,
    digit_count,
    lemma_decimal_exact,
    lemma_decimal_len,
    lemma_digit_count_exact,
    lemma_padded_len,
    lemma_padded_split,
    lemma_pow10_values,
    padded,
    pow10,
};
use crate::digits_lut::{lemma_append_chunk, lemma_written_concat, write_pair, written};
use crate::numstr::NumStr;

verus! {

broadcast use lemma_padded_len;

/// `2^32`, the unit of the fixed-point fractions.
pub open spec fn unit() -> int {
    0x1_0000_0000
}

/// `t` holds `x / r` whole and `x % r` as a 32-bit fraction of `r`, with an error
/// below one unit of the last place.
pub open spec fn holds_scaled(t: int, x: int, r: int) -> bool {
    t * r >= x * unit() && t * r < (x + 1) * unit()
}

/// Reading the whole part and the fraction back out of a scaled value.
pub proof fn lemma_fixed_split(t: int, x: int, r: int)
    requires
        r >= 1,
        x >= 0,
        t >= 0,
        holds_scaled(t, x, r),
    ensures
        t / unit() == x / r,
        holds_scaled(t % unit(), x % r, r),
{
    let k = unit();
    let a = x / r;
    let b = x % r;
    assert(x == a * r + b && 0 <= b < r && a >= 0) by (nonlinear_arith)
        requires
            r >= 1,
            x >= 0,
            a == x / r,
            b == x % r,
    ;
    assert(t >= a * k) by (nonlinear_arith)
        requires
            t * r >= (a * r + b) * k,
            r >= 1,
            b >= 0,
            k > 0,
    ;
    assert(t < (a + 1) * k) by (nonlinear_arith)
        requires
            t * r < (a * r + b + 1) * k,
            b + 1 <= r,
            r >= 1,
            k > 0,
            a >= 0,
    ;
    let l = t - a * k;
    vstd::arithmetic::div_mod::lemma_fundamental_div_mod_converse(t, k, a, l);
    assert(l * r >= b * k && l * r < (b + 1) * k) by (nonlinear_arith)
        requires
            l == t - a * k,
            t * r >= (a * r + b) * k,
            t * r < (a * r + b + 1) * k,
    ;
}

/// The fixed-point start: `(u * c) >> s`, plus `add`, holds `u` scaled by `r`
/// when `c * r` exceeds `2^(32+s)` by `e`, small enough over the whole range of `u`.
proof fn lemma_start(u: int, c: int, p: int, add: int, r: int, e: int, q: int, umax: int)
    requires
        0 <= u <= umax,
        p >= 1,
        r >= 1,
        c >= 1,
        q * p <= u * c < q * p + p,
        c * r == unit() * p + e,
        e >= 0,
        add >= 1 || p == 1,
        add >= 0,
        umax * e + add * r * p < unit() * p,
    ensures
        holds_scaled(q + add, u, r),
{
    let k = unit();
    assert(q * p * r <= u * c * r) by (nonlinear_arith)
        requires
            q * p <= u * c,
            r >= 1,
    ;
    assert(u * c * r == u * k * p + u * e) by (nonlinear_arith)
        requires
            c * r == k * p + e,
    ;
    assert(u * e <= umax * e) by (nonlinear_arith)
        requires
            0 <= u <= umax,
            e >= 0,
    ;
    assert((q + add) * r * p == q * p * r + add * r * p) by (nonlinear_arith);
    assert((u + 1) * k * p == u * k * p + k * p) by (nonlinear_arith);
    assert((q + add) * r * p < (u + 1) * k * p);
    assert((q + add) * r < (u + 1) * k) by (nonlinear_arith)
        requires
            (q + add) * r * p < (u + 1) * k * p,
            p >= 1,
    ;
    if p == 1 {
        assert(q == u * c);
        assert((q + add) * r >= u * k) by (nonlinear_arith)
            requires
                q == u * c,
                c * r == k + e,
                e >= 0,
                add >= 0,
                r >= 1,
                u >= 0,
        ;
    } else {
        assert((q + 1) * p * r > u * c * r) by (nonlinear_arith)
            requires
                u * c < q * p + p,
                r >= 1,
        ;
        assert((q + 1) * r * p > u * k * p) by (nonlinear_arith)
            requires
                (q + 1) * p * r > u * c * r,
                u * c * r == u * k * p + u * e,
                u * e >= 0,
        ;
        assert((q + add) * r >= u * k) by (nonlinear_arith)
            requires
                (q + 1) * r * p > u * k * p,
                p >= 1,
                add >= 1,
                r >= 1,
        ;
    }
}

/// `u` scaled by `10^k` into a 64-bit word with a multiplication, a shift and an
/// addition, the constants chosen per `k`.
fn fixed_point_start(u: u32, k: u32) -> (t: u64)
    requires
        1 <= k <= 8,
        u < pow10((k + 2) as nat),
    ensures
        holds_scaled(t as int, u as int, pow10(k as nat) as int),
{
    proof {
        lemma_pow10_values();
        lemma2_to64();
        lemma2_to64_rest();
    }
    let x = u as u64;
    if k == 1 {
        proof {
            lemma_start(x as int, 429496730, 1, 0, 10, 4, x * 429496730, 999);
        }
        x * 429496730
    } else if k == 2 {
        proof {
            lemma_start(x as int, 42949673, 1, 0, 100, 4, x * 42949673, 9999);
        }
        x * 42949673
    } else if k == 3 {
        proof {
            lemma_start(x as int, 4294968, 1, 0, 1000, 704, x * 4294968, 99999);
        }
        x * 4294968
    } else if k == 4 {
        proof {
            lemma_start(x as int, 429497, 1, 0, 10000, 2704, x * 429497, 999999);
        }
        x * 429497
    } else if k == 5 {
        let m = x * 2814749768;
        proof {
            lemma_u64_shr_is_div(m, 16);
            vstd::arithmetic::div_mod::lemma_fundamental_div_mod(m as int, pow2(16) as int);
            lemma_start(x as int, 2814749768, pow2(16) as int, 4, 100000, 89344, (m >> 16) as int, 9999999);
        }
        (m >> 16) + 4
    } else if k == 6 {
        let m = x * 2251799814;
        proof {
            lemma_u64_shr_is_div(m, 19);
            vstd::arithmetic::div_mod::lemma_fundamental_div_mod(m as int, pow2(19) as int);
            lemma_start(x as int, 2251799814, pow2(19) as int, 4, 1000000, 314752, (m >> 19) as int, 99999999);
        }
        (m >> 19) + 4
    } else if k == 7 {
        let m = x * 3602879702;
        proof {
            lemma_u64_shr_is_div(m, 23);
            vstd::arithmetic::div_mod::lemma_fundamental_div_mod(m as int, pow2(23) as int);
            lemma_start(x as int, 3602879702, pow2(23) as int, 4, 10000000, 1036032, (m >> 23) as int, 999999999);
        }
        (m >> 23) + 4
    } else {
        let m = x * 2882303762;
        proof {
            lemma_u64_shr_is_div(m, 26);
            vstd::arithmetic::div_mod::lemma_fundamental_div_mod(m as int, pow2(26) as int);
            lemma_start(x as int, 2882303762, pow2(26) as int, 4, 100000000, 48288256, (m >> 26) as int, 0xffff_ffff);
        }
        (m >> 26) + 4
    }
}

/// The whole part and the 32-bit fraction of a scaled word.
proof fn lemma_word_parts(t: u64)
    ensures
        (t >> 32u64) as int == t as int / unit(),
        (t as u32) as int == t as int % unit(),
{
    lemma2_to64();
    lemma_u64_shr_is_div(t, 32);
    assert(t as u32 == t % 0x1_0000_0000) by (bit_vector);
}

/// Exactly `n + 1` digits of `u`, leading zeros included: one digit, one pair, or
/// a fixed-point start followed by a pair per multiplication by 100 of the
/// fraction and a last single digit per multiplication by 10.
fn write_digits(buf: &mut [u8; 20], pos: usize, u: u32, n: u32) -> (end: usize)
    requires
        n <= 9,
        u < pow10((n + 1) as nat),
        pos + n + 1 <= 20,
    ensures
        written(old(buf)@, final(buf)@, pos as int, padded(u as nat, (n + 1) as nat)),
        end == pos + n + 1,
{
    proof {
        lemma_pow10_values();
    }
    if n == 0 {
        buf[pos] = u as u8 + 48;
        proof {
            reveal_with_fuel(padded, 2);
            assert(buf@.subrange(pos as int, pos + 1) =~= padded(u as nat, 1));
        }
        return pos + 1;
    }
    if n == 1 {
        write_pair(buf, pos, u);
        return pos + 2;
    }
    let ghost b0 = buf@;
    let mut t = fixed_point_start(u, n - 1);
    proof {
        lemma_word_parts(t);
        lemma_fixed_split(t as int, u as int, pow10((n - 1) as nat) as int);
        crate::decimal::lemma_div_mod_pow10(u as nat, 2, (n - 1) as nat);
        assert(2 + (n - 1) as nat == (n + 1) as nat);
    }
    write_pair(buf, pos, (t >> 32) as u32);
    let mut p = pos + 2;
    let mut rem = n - 1;
    while rem >= 2
        invariant
            pos + n + 1 <= 20,
            n <= 9,
            rem <= n - 1,
            p == pos + (n + 1 - rem),
            u < pow10((n + 1) as nat),
            written(b0, buf@, pos as int, padded(u as nat / pow10(rem as nat), (n + 1 - rem) as nat)),
            holds_scaled(
                t as int % unit(),
                (u as nat % pow10(rem as nat)) as int,
                pow10(rem as nat) as int,
            ),
            pow10(2) == 100,
        decreases rem,
    {
        let ghost y = u as nat % pow10(rem as nat);
        let ghost prev = buf@;
        proof {
            assert(pow10(rem as nat) == 100 * pow10((rem - 2) as nat)) by {
                assert(pow10(rem as nat) == 10 * pow10((rem - 1) as nat));
                assert(pow10((rem - 1) as nat) == 10 * pow10((rem - 2) as nat));
            }
            crate::decimal::lemma_pow10_positive((rem - 2) as nat);
        }
        proof {
            lemma_word_parts(t);
        }
        t = 100 * (#[verifier::truncate] (t as u32) as u64);
        proof {
            let r2 = pow10((rem - 2) as nat) as int;
            let l = t as int / 100;
            assert(holds_scaled(t as int, y as int, r2)) by (nonlinear_arith)
                requires
                    t as int == 100 * l,
                    holds_scaled(l, y as int, 100 * r2),
            ;
            lemma_word_parts(t);
            lemma_fixed_split(t as int, y as int, r2);
            crate::decimal::lemma_div_mod_pow10(y, 2, (rem - 2) as nat);
            assert(2 + (rem - 2) as nat == rem as nat);
        }
        write_pair(buf, p, (t >> 32) as u32);
        proof {
            let r2 = pow10((rem - 2) as nat);
            let hi = u as nat / pow10(rem as nat);
            let d = y / r2;
            lemma_written_concat(
                b0,
                prev,
                buf@,
                pos as int,
                padded(hi, (n + 1 - rem) as nat),
                padded(d, 2),
            );
            lemma_padded_split(hi, d, (n + 1 - rem) as nat, 2);
            crate::decimal::lemma_pow10_positive(rem as nat);
            assert(hi * 100 + d == u as nat / r2) by (nonlinear_arith)
                requires
                    hi == u as nat / (100 * r2),
                    y == u as nat % (100 * r2),
                    d == y / r2,
                    r2 >= 1,
            ;
            assert((n + 1 - rem) as nat + 2 == (n + 1 - (rem - 2)) as nat);
            assert(u as nat % r2 == y % r2) by (nonlinear_arith)
                requires
                    y == u as nat % (100 * r2),
                    r2 >= 1,
            ;
        }
        p += 2;
        rem -= 2;
    }
    if rem == 1 {
        let ghost y = u as nat % 10;
        let ghost prev = buf@;
        proof {
            lemma_word_parts(t);
        }
        let f = 10 * (#[verifier::truncate] (t as u32) as u64);
        proof {
            assert(pow10(1) == 10);
            let l = f as int / 10;
            assert(holds_scaled(f as int, y as int, 1)) by (nonlinear_arith)
                requires
                    f as int == 10 * l,
                    holds_scaled(l, y as int, 10),
            ;
            lemma_word_parts(f);
            lemma_fixed_split(f as int, y as int, 1);
        }
        buf[p] = (f >> 32) as u8 + 48;
        proof {
            let hi = u as nat / 10;
            reveal_with_fuel(padded, 2);
            assert(buf@.subrange(p as int, p + 1) =~= padded(y, 1));
            assert(written(prev, buf@, p as int, padded(y, 1)));
            lemma_written_concat(b0, prev, buf@, pos as int, padded(hi, n as nat), padded(y, 1));
            lemma_padded_split(hi, y, n as nat, 1);
            assert(hi * 10 + y == u);
        }
        p += 1;
    } else {
        proof {
            assert(pow10(0) == 1);
            assert(u as nat / 1 == u);
        }
    }
    p
}

/// How many digits `u` has, less one, by a small tree of comparisons.
fn length_class(u: u32) -> (n: u32)
    ensures
        n <= 9,
        n + 1 == digit_count(u as nat),
{
    proof {
        lemma_pow10_values();
    }
    let n: u32 = if u < 100 {
        if u < 10 {
            0
        } else {
            1
        }
    } else if u < 1000000 {
        if u < 10000 {
            if u < 1000 {
                2
            } else {
                3
            }
        } else if u < 100000 {
            4
        } else {
            5
        }
    } else if u < 100000000 {
        if u < 10000000 {
            6
        } else {
            7
        }
    } else if u < 1000000000 {
        8
    } else {
        9
    };
    proof {
        lemma_digit_count_exact(u as nat, (n + 1) as nat);
    }
    n
}

/// The digits of `u`, no leading zero.
fn write_leading(buf: &mut [u8; 20], pos: usize, u: u32) -> (end: usize)
    requires
        pos + 10 <= 20,
    ensures
        written(old(buf)@, final(buf)@, pos as int, decimal(u as nat)),
        end == pos + decimal(u as nat).len(),
        end <= pos + 10,
{
    let n = length_class(u);
    proof {
        lemma_pow10_values();
        crate::decimal::lemma_digit_count_bounds(u as nat);
        lemma_decimal_exact(u as nat, (n + 1) as nat);
    }
    write_digits(buf, pos, u, n)
}

/// Fixed-point digit extraction: one branch-selected routine per length for the
/// leading part, then fixed eight-digit groups.
pub fn u64toa_jeaiii(n: u64) -> (r: NumStr<20>)
    ensures
        r@ == decimal(n as nat),
{
    proof {
        lemma_pow10_values();
    }
    let mut buffer = [0u8; 20];
    let ghost b0 = buffer@;
    if n < 0x1_0000_0000 {
        let end = write_leading(&mut buffer, 0, n as u32);
        return NumStr::from_parts(buffer, end);
    }
    let a = n / 100000000;
    let p = if a < 0x1_0000_0000 {
        write_leading(&mut buffer, 0, a as u32)
    } else {
        let p = write_leading(&mut buffer, 0, (a / 100000000) as u32);
        let ghost b1 = buffer@;
        let p = write_digits(&mut buffer, p, (a % 100000000) as u32, 7);
        proof {
            lemma_append_chunk(b0, b1, buffer@, 0, (a / 100000000) as nat, (a % 100000000) as nat, 8);
            lemma_decimal_len(a as nat, 12);
        }
        p
    };
    let ghost b2 = buffer@;
    let end = write_digits(&mut buffer, p, (n % 100000000) as u32, 7);
    proof {
        lemma_append_chunk(b0, b2, buffer@, 0, a as nat, (n % 100000000) as nat, 8);
    }
    NumStr::from_parts(buffer, end)
}

} // verus!
