use vstd::prelude::*;
use vstd::std_specs::bits::{
    axiom_u32_leading_zeros,
    axiom_u64_leading_zeros,
    u32_leading_zeros,
    u64_leading_zeros,
};
use crate::decimal::{
    decimal,
    digit_count,
    lemma_decimal_len,
    lemma_digit_count_bounds,
    lemma_div_mod_pow10,
    lemma_padded_len,
    lemma_padded_split,
    lemma_pow10_increasing,
    lemma_pow10_values,
    padded,
    pow10,
};
use crate::digits_lut::{lemma_written_concat, written};
use crate::fixed_point::lemma_div100_u32;
use crate::numstr::NumStr;

verus! {

broadcast use lemma_padded_len;

/// `256^m`.
pub open spec fn pow256(m: nat) -> nat
    decreases m,
{
    if m == 0 {
        1
    } else {
        256 * pow256((m - 1) as nat)
    }
}

/// The packed decimal word of the last `n` digits of `x`: one digit per byte, the
/// most significant digit in the highest byte.
pub open spec fn bcd_word(x: nat, n: nat) -> nat
    decreases n,
{
    if n == 0 {
        0
    } else {
        bcd_word(x / 10, (n - 1) as nat) * 256 + x % 10
    }
}

/// Leading zero bytes of a 32-bit word.
pub open spec fn zero_bytes_u32(w: u32) -> u32 {
    if w >= 0x100_0000 {
        0
    } else if w >= 0x1_0000 {
        1
    } else if w >= 0x100 {
        2
    } else if w >= 1 {
        3
    } else {
        4
    }
}

/// Leading zero bytes of a 64-bit word.
pub open spec fn zero_bytes_u64(w: u64) -> u64 {
    if w >= 0x100_0000_0000_0000 {
        0
    } else if w >= 0x1_0000_0000_0000 {
        1
    } else if w >= 0x100_0000_0000 {
        2
    } else if w >= 0x1_0000_0000 {
        3
    } else if w >= 0x100_0000 {
        4
    } else if w >= 0x1_0000 {
        5
    } else if w >= 0x100 {
        6
    } else if w >= 1 {
        7
    } else {
        8
    }
}

proof fn lemma_zero_bytes_u32_bv(w: u32, lz: u32) by (bit_vector)
    requires
        lz <= 32,
        (w == 0) == (lz == 32),
        lz < 32 ==> (w >> ((31 - lz) as u32)) & 1 != 0,
        lz < 32 ==> w >> ((32 - lz) as u32) == 0,
    ensures
        lz / 8 == zero_bytes_u32(w),
{
}

/// A 32-bit word's leading zero bits, in whole bytes.
pub(crate) proof fn lemma_zero_bytes_u32(w: u32)
    ensures
        u32_leading_zeros(w) / 8 == zero_bytes_u32(w),
{
    axiom_u32_leading_zeros(w);
    let lz = u32_leading_zeros(w);
    if lz < 32 {
        assert((w >> ((31 - lz) as u32)) & 1 != 0);
    }
    assert(lz < 32 ==> w >> ((32 - lz) as u32) == 0);
    lemma_zero_bytes_u32_bv(w, lz);
}

proof fn lemma_zero_bytes_u64_bv(w: u64, lz: u64) by (bit_vector)
    requires
        lz <= 64,
        (w == 0) == (lz == 64),
        lz < 64 ==> (w >> ((63 - lz) as u64)) & 1 != 0,
        lz < 64 ==> w >> ((64 - lz) as u64) == 0,
    ensures
        lz / 8 == zero_bytes_u64(w),
{
}

/// A 64-bit word's leading zero bits, in whole bytes.
pub(crate) proof fn lemma_zero_bytes_u64(w: u64)
    ensures
        u64_leading_zeros(w) / 8 == zero_bytes_u64(w),
{
    axiom_u64_leading_zeros(w);
    let lz = u64_leading_zeros(w) as u64;
    if lz < 64 {
        assert((w >> ((63 - lz) as u64)) & 1 != 0);
    }
    assert(lz < 64 ==> w >> ((64 - lz) as u64) == 0);
    lemma_zero_bytes_u64_bv(w, lz);
}

/// The second step of the packing: tens split off in both 16-bit lanes at once.
proof fn lemma_lanes_bv(a: u32, b: u32, c: u32, d: u32) by (bit_vector)
    requires
        a < 10,
        b < 10,
        c < 10,
        d < 10,
    ensures
        ((((((a * 10 + b) * 65536 + c * 10 + d) as u32) * 0x67) as u32) >> 10u32) & 0xf000fu32 == a
            * 65536 + c,
{
}

/// The ASCII digits of a packed word, with the bits of `'0'` set in every byte.
proof fn lemma_ascii_bv(a: u32, b: u32, c: u32, d: u32) by (bit_vector)
    requires
        a < 10,
        b < 10,
        c < 10,
        d < 10,
    ensures
        ((((a * 16777216 + b * 65536 + c * 256 + d) as u32) | 0x30303030u32) >> 24u32) as u8 == a + 48,
        ((((a * 16777216 + b * 65536 + c * 256 + d) as u32) | 0x30303030u32) >> 16u32) as u8 == b + 48,
        ((((a * 16777216 + b * 65536 + c * 256 + d) as u32) | 0x30303030u32) >> 8u32) as u8 == c + 48,
        (((a * 16777216 + b * 65536 + c * 256 + d) as u32) | 0x30303030u32) as u8 == d + 48,
{
}

/// Two packed 32-bit words side by side in one 64-bit word.
proof fn lemma_join_bv(hi: u32, lo: u32) by (bit_vector)
    ensures
        ((hi as u64) << 32u64) | (lo as u64) == hi as u64 * 0x1_0000_0000 + lo as u64,
{
}

pub(crate) proof fn lemma_bcd_word4(v: nat)
    requires
        v < 10000,
    ensures
        bcd_word(v, 4) == (v / 1000) * 16777216 + (v / 100 % 10) * 65536 + (v / 10 % 10) * 256 + v % 10,
{
    reveal_with_fuel(bcd_word, 5);
}

/// Packing `a * 10^k + b` is packing `a` shifted by `k` bytes, plus packing `b`.
pub(crate) proof fn lemma_bcd_word_split(a: nat, b: nat, j: nat, k: nat)
    requires
        b < pow10(k),
    ensures
        bcd_word(a * pow10(k) + b, j + k) == bcd_word(a, j) * pow256(k) + bcd_word(b, k),
    decreases k,
{
    if k > 0 {
        let x = a * pow10(k) + b;
        let p = pow10((k - 1) as nat);
        assert(x == (a * p + b / 10) * 10 + b % 10) by (nonlinear_arith)
            requires
                pow10(k) == 10 * p,
                x == a * pow10(k) + b,
                b == (b / 10) * 10 + b % 10,
        ;
        vstd::arithmetic::div_mod::lemma_fundamental_div_mod_converse(x as int, 10, (a * p + b / 10) as int, (b % 10) as int);
        assert(b / 10 < p);
        lemma_bcd_word_split(a, b / 10, j, (k - 1) as nat);
        assert((j + k - 1) as nat == j + (k - 1) as nat);
        let w = bcd_word(a, j);
        let q = pow256((k - 1) as nat);
        assert((w * q + bcd_word(b / 10, (k - 1) as nat)) * 256 + b % 10 == w * (256 * q) + (bcd_word(
            b / 10,
            (k - 1) as nat,
        ) * 256 + b % 10)) by (nonlinear_arith);
        assert(bcd_word(x, j + k) == bcd_word(x / 10, (j + k - 1) as nat) * 256 + x % 10);
        assert(bcd_word(b, k) == bcd_word(b / 10, (k - 1) as nat) * 256 + b % 10);
        assert(pow256(k) == 256 * q);
    } else {
        assert(pow10(0) == 1);
        assert(pow256(0) == 1);
        assert(b == 0);
        assert(bcd_word(b, 0) == 0);
        assert(a * pow10(k) + b == a);
        assert(bcd_word(a, j) * pow256(k) == bcd_word(a, j));
    }
}

/// A packed word of `n` digits is at least `256^m` exactly when the value is at
/// least `10^m`, and it stays below `256^n`.
pub(crate) proof fn lemma_bcd_word_threshold(x: nat, n: nat, m: nat)
    requires
        x < pow10(n),
        m <= n,
    ensures
        bcd_word(x, n) >= pow256(m) <==> x >= pow10(m),
        bcd_word(x, n) < pow256(n),
    decreases n,
{
    if n > 0 {
        lemma_div_mod_pow10(x, (n - 1) as nat, 1);
        reveal_with_fuel(pow10, 2);
        assert(pow10(1) == 10);
        assert((n - 1) as nat + 1 == n);
        let w = bcd_word(x / 10, (n - 1) as nat);
        if m > 0 {
            lemma_bcd_word_threshold(x / 10, (n - 1) as nat, (m - 1) as nat);
            assert(x >= pow10(m) <==> x / 10 >= pow10((m - 1) as nat)) by {
                assert(pow10(m) == 10 * pow10((m - 1) as nat));
            }
        } else {
            lemma_bcd_word_threshold(x / 10, (n - 1) as nat, 0);
            assert(pow10(0) == 1);
            assert(pow256(0) == 1);
            if x / 10 == 0 {
                assert(bcd_word(0, (n - 1) as nat) == 0) by {
                    lemma_bcd_word_zero((n - 1) as nat);
                }
            }
        }
    } else {
        assert(pow10(0) == 1);
    }
}

pub(crate) proof fn lemma_bcd_word_zero(n: nat)
    ensures
        bcd_word(0, n) == 0,
    decreases n,
{
    if n > 0 {
        lemma_bcd_word_zero((n - 1) as nat);
    }
}

/// The packed decimal word of `abcd`: a division by 100 splits it into two 16-bit
/// lanes, a second step splits each lane by 10; quotient and remainder come from
/// one multiply-shift and a wrapping subtraction of the quotient's multiple.
pub(crate) fn to_bcd4(abcd: u16) -> (r: u32)
    requires
        abcd < 10000,
    ensures
        r as nat == bcd_word(abcd as nat, 4),
{
    let abcd = abcd as u32;
    proof {
        lemma_div100_u32(abcd);
    }
    let ab_cd = abcd + (0x10000 - 100) * ((abcd * 0x147b) >> 19);
    let ghost a = abcd / 1000;
    let ghost b = abcd / 100 % 10;
    let ghost c = abcd / 10 % 10;
    let ghost d = abcd % 10;
    proof {
        assert(ab_cd == (a * 10 + b) * 65536 + c * 10 + d);
        lemma_lanes_bv(a, b, c, d);
        lemma_bcd_word4(abcd as nat);
    }
    let a_b_c_d = ab_cd + (0x100 - 10) * (((ab_cd * 0x67) >> 10) & 0xf000f);
    a_b_c_d
}

/// Writes the four bytes of `bcd` with the bits of `'0'` set, most significant first.
pub(crate) fn put_ascii4(buf: &mut [u8; 20], pos: usize, bcd: u32, v: Ghost<nat>)
    requires
        v@ < 10000,
        bcd as nat == bcd_word(v@, 4),
        pos + 4 <= 20,
    ensures
        written(old(buf)@, final(buf)@, pos as int, padded(v@, 4)),
{
    let ascii = bcd | 0x30303030;
    proof {
        let x = v@;
        lemma_bcd_word4(x);
        lemma_ascii_bv((x / 1000) as u32, (x / 100 % 10) as u32, (x / 10 % 10) as u32, (x % 10) as u32);
    }
    buf[pos] = (ascii >> 24) as u8;
    buf[pos + 1] = (ascii >> 16) as u8;
    buf[pos + 2] = (ascii >> 8) as u8;
    buf[pos + 3] = ascii as u8;
    proof {
        reveal_with_fuel(padded, 5);
        assert(buf@.subrange(pos as int, pos + 4) =~= padded(v@, 4));
    }
}

/// The text of `x`, `n` digits written in full, starts after the leading zeros.
pub(crate) proof fn lemma_skip_zeros(x: nat, n: nat)
    requires
        x < pow10(n),
        n >= 1,
    ensures
        digit_count(x) <= n,
        padded(x, n).subrange(n - digit_count(x), n as int) == decimal(x),
{
    lemma_decimal_len(x, n);
    let d = digit_count(x);
    lemma_digit_count_bounds(x);
    lemma_padded_split(0, x, (n - d) as nat, d);
    assert(0 * pow10(d) + x == x);
    assert((n - d) as nat + d == n);
}

/// The number of leading zero digits of `x` written in `n` digits, from its packed word.
pub(crate) proof fn lemma_zero_digits(x: nat, n: nat, z: nat)
    requires
        1 <= x < pow10(n),
        z <= n,
        z < n ==> bcd_word(x, n) >= pow256((n - z - 1) as nat),
        z > 0 ==> bcd_word(x, n) < pow256((n - z) as nat),
    ensures
        z == n - digit_count(x),
{
    lemma_digit_count_bounds(x);
    let d = digit_count(x);
    lemma_decimal_len(x, n);
    if z < n {
        lemma_bcd_word_threshold(x, n, (n - z - 1) as nat);
    }
    if z > 0 {
        lemma_bcd_word_threshold(x, n, (n - z) as nat);
    }
    if d > 1 {
        if (d - 1) as nat > (n - z) as nat {
            lemma_pow10_increasing((n - z) as nat, (d - 1) as nat);
        }
    }
    if (n - z - 1) as nat >= d {
        if (n - z - 1) as nat > d {
            lemma_pow10_increasing(d, (n - z - 1) as nat);
        }
    }
}

/// The 64-bit packing routine on a 32-bit value, in a ten-byte buffer.
pub fn u32toa_bcd4(value: u32) -> (r: NumStr<10>)
    ensures
        r@ == decimal(value as nat),
{
    proof {
        lemma_pow10_values();
        lemma_decimal_len(value as nat, 10);
    }
    u64toa_bcd4(value as u64).resized()
}

/// Up to four digits: one packed word.
fn bcd4_len_1_to_4(value: u64) -> (r: NumStr<20>)
    requires
        value < 10000,
    ensures
        r@ == decimal(value as nat),
{
    proof {
        lemma_pow10_values();
        lemma_pow256_values();
    }
    let mut bytes = [0u8; 20];
    let bcd = to_bcd4(value as u16);
    proof {
        lemma_zero_bytes_u32(bcd | 1);
        lemma_bcd_word4(value as nat);
        assert((bcd | 1) >= 0x100_0000 <==> bcd >= 0x100_0000) by (bit_vector);
        assert((bcd | 1) >= 0x1_0000 <==> bcd >= 0x1_0000) by (bit_vector);
        assert((bcd | 1) >= 0x100 <==> bcd >= 0x100) by (bit_vector);
        assert((bcd | 1) >= 1) by (bit_vector);
    }
    let leading_zeros = (bcd | 1).leading_zeros() as usize / 8;
    put_ascii4(&mut bytes, 0, bcd, Ghost(value as nat));
    proof {
        lemma_bcd_word_threshold(value as nat, 4, 1);
        lemma_bcd_word_threshold(value as nat, 4, 2);
        lemma_bcd_word_threshold(value as nat, 4, 3);
        if value >= 1 {
            lemma_zero_digits(value as nat, 4, leading_zeros as nat);
        } else {
            lemma_bcd_word_zero(4);
            assert(padded(0, 4).subrange(3, 4) =~= decimal(0)) by {
                reveal_with_fuel(padded, 5);
            }
        }
        if value >= 1 {
            lemma_skip_zeros(value as nat, 4);
        }
        assert(bytes@.subrange(0, 4) == padded(value as nat, 4));
        assert(bytes@.subrange(leading_zeros as int, 4) =~= padded(value as nat, 4).subrange(
            leading_zeros as int,
            4,
        ));
    }
    NumStr::from_range(bytes, leading_zeros, 4)
}

/// Five to eight digits: two packed words.
fn bcd4_len_5_to_8(value: u64) -> (r: NumStr<20>)
    requires
        10000 <= value < 100000000,
    ensures
        r@ == decimal(value as nat),
{
    proof {
        lemma_pow10_values();
        lemma_pow256_values();
    }
    let mut bytes = [0u8; 20];
    let bcd_hi = to_bcd4((value / 10000) as u16);
    let bcd_lo = to_bcd4((value % 10000) as u16);
    let leading_zeros = bcd_hi.leading_zeros() as usize / 8;
    let ghost b0 = bytes@;
    put_ascii4(&mut bytes, 0, bcd_hi, Ghost((value / 10000) as nat));
    let ghost b1 = bytes@;
    put_ascii4(&mut bytes, 4, bcd_lo, Ghost((value % 10000) as nat));
    proof {
        let x = value as nat;
        let hi = x / 10000;
        let lo = x % 10000;
        lemma_zero_bytes_u32(bcd_hi);
        lemma_written_concat(b0, b1, bytes@, 0, padded(hi, 4), padded(lo, 4));
        lemma_padded_split(hi, lo, 4, 4);
        lemma_bcd_word_split(hi, lo, 4, 4);
        lemma_bcd_word_threshold(lo, 4, 0);
        lemma_bcd_word_threshold(hi, 4, 1);
        lemma_bcd_word_threshold(hi, 4, 2);
        lemma_bcd_word_threshold(hi, 4, 3);
        lemma_bcd_word_threshold(x, 8, 4);
        lemma_bcd_word_threshold(x, 8, 5);
        lemma_bcd_word_threshold(x, 8, 6);
        lemma_bcd_word_threshold(x, 8, 7);
        lemma_zero_digits(x, 8, leading_zeros as nat);
        lemma_skip_zeros(x, 8);
        assert(bytes@.subrange(leading_zeros as int, 8) =~= padded(x, 8).subrange(
            leading_zeros as int,
            8,
        ));
    }
    NumStr::from_range(bytes, leading_zeros, 8)
}

/// Nine to sixteen digits: four packed words, the leading zeros counted on the upper two.
fn bcd4_len_9_to_16(value: u64) -> (r: NumStr<20>)
    requires
        100000000 <= value < 10_000_000_000_000_000,
    ensures
        r@ == decimal(value as nat),
{
    proof {
        lemma_pow10_values();
        lemma_pow256_values();
    }
    let mut bytes = [0u8; 20];
    let hi = (value / 100000000) as u32;
    let lo = (value % 100000000) as u32;
    let bcd_hi_hi = to_bcd4((hi / 10000) as u16);
    let bcd_hi_lo = to_bcd4((hi % 10000) as u16);
    let bcd_lo_hi = to_bcd4((lo / 10000) as u16);
    let bcd_lo_lo = to_bcd4((lo % 10000) as u16);
    let word = ((bcd_hi_hi as u64) << 32) | (bcd_hi_lo as u64);
    let leading_zeros = word.leading_zeros() as usize / 8;
    let ghost b0 = bytes@;
    put_ascii4(&mut bytes, 0, bcd_hi_hi, Ghost((hi / 10000) as nat));
    let ghost b1 = bytes@;
    put_ascii4(&mut bytes, 4, bcd_hi_lo, Ghost((hi % 10000) as nat));
    let ghost b2 = bytes@;
    put_ascii4(&mut bytes, 8, bcd_lo_hi, Ghost((lo / 10000) as nat));
    let ghost b3 = bytes@;
    put_ascii4(&mut bytes, 12, bcd_lo_lo, Ghost((lo % 10000) as nat));
    proof {
        let x = value as nat;
        let h = hi as nat;
        let l = lo as nat;
        lemma_join_bv(bcd_hi_hi, bcd_hi_lo);
        lemma_zero_bytes_u64(word);
        lemma_written_concat(b0, b1, b2, 0, padded(h / 10000, 4), padded(h % 10000, 4));
        lemma_padded_split(h / 10000, h % 10000, 4, 4);
        lemma_written_concat(b0, b2, b3, 0, padded(h, 8), padded(l / 10000, 4));
        lemma_written_concat(b0, b3, bytes@, 0, padded(h, 8) + padded(l / 10000, 4), padded(l % 10000, 4));
        lemma_padded_split(l / 10000, l % 10000, 4, 4);
        assert(padded(h, 8) + padded(l / 10000, 4) + padded(l % 10000, 4) =~= padded(h, 8) + padded(l, 8));
        lemma_padded_split(h, l, 8, 8);
        lemma_bcd_word_split(h / 10000, h % 10000, 4, 4);
        lemma_bcd_word_threshold(h, 8, 1);
        lemma_bcd_word_threshold(h, 8, 2);
        lemma_bcd_word_threshold(h, 8, 3);
        lemma_bcd_word_threshold(h, 8, 4);
        lemma_bcd_word_threshold(h, 8, 5);
        lemma_bcd_word_threshold(h, 8, 6);
        lemma_bcd_word_threshold(h, 8, 7);
        lemma_bcd_word_threshold(h, 8, 8);
        lemma_zero_digits(h, 8, leading_zeros as nat);
        lemma_decimal_len(h, 8);
        crate::decimal::lemma_decimal_split(h, l, 8);
        lemma_skip_zeros(h, 8);
        let d = digit_count(h);
        assert(bytes@.subrange(leading_zeros as int, 16) =~= padded(h, 8).subrange(
            leading_zeros as int,
            8,
        ) + padded(l, 8));
    }
    NumStr::from_range(bytes, leading_zeros, 16)
}

/// Seventeen to twenty digits: five packed words.
fn bcd4_len_17_to_20(value: u64) -> (r: NumStr<20>)
    requires
        10_000_000_000_000_000 <= value,
    ensures
        r@ == decimal(value as nat),
{
    proof {
        lemma_pow10_values();
        lemma_pow256_values();
    }
    let mut bytes = [0u8; 20];
    let top = value / 10_000_000_000_000_000;
    let hi = (value % 10_000_000_000_000_000 / 100000000) as u32;
    let lo = (value % 100000000) as u32;
    let bcd_top = to_bcd4(top as u16);
    let bcd_hi_hi = to_bcd4((hi / 10000) as u16);
    let bcd_hi_lo = to_bcd4((hi % 10000) as u16);
    let bcd_lo_hi = to_bcd4((lo / 10000) as u16);
    let bcd_lo_lo = to_bcd4((lo % 10000) as u16);
    let leading_zeros = bcd_top.leading_zeros() as usize / 8;
    let ghost b0 = bytes@;
    put_ascii4(&mut bytes, 0, bcd_top, Ghost(top as nat));
    let ghost b1 = bytes@;
    put_ascii4(&mut bytes, 4, bcd_hi_hi, Ghost((hi / 10000) as nat));
    let ghost b2 = bytes@;
    put_ascii4(&mut bytes, 8, bcd_hi_lo, Ghost((hi % 10000) as nat));
    let ghost b3 = bytes@;
    put_ascii4(&mut bytes, 12, bcd_lo_hi, Ghost((lo / 10000) as nat));
    let ghost b4 = bytes@;
    put_ascii4(&mut bytes, 16, bcd_lo_lo, Ghost((lo % 10000) as nat));
    proof {
        let t = top as nat;
        let h = hi as nat;
        let l = lo as nat;
        let rest = value as nat % 10_000_000_000_000_000;
        lemma_zero_bytes_u32(bcd_top);
        lemma_written_concat(b0, b1, b2, 0, padded(t, 4), padded(h / 10000, 4));
        lemma_written_concat(b0, b2, b3, 0, padded(t, 4) + padded(h / 10000, 4), padded(h % 10000, 4));
        lemma_written_concat(b0, b3, b4, 0, padded(t, 4) + padded(h / 10000, 4) + padded(h % 10000, 4), padded(l / 10000, 4));
        lemma_written_concat(b0, b4, bytes@, 0, padded(t, 4) + padded(h / 10000, 4) + padded(h % 10000, 4) + padded(l / 10000, 4), padded(l % 10000, 4));
        lemma_padded_split(h / 10000, h % 10000, 4, 4);
        lemma_padded_split(l / 10000, l % 10000, 4, 4);
        lemma_padded_split(h, l, 8, 8);
        assert(rest == h * 100000000 + l);
        assert(bytes@.subrange(0, 20) =~= padded(t, 4) + padded(rest, 16));
        lemma_bcd_word_threshold(t, 4, 1);
        lemma_bcd_word_threshold(t, 4, 2);
        lemma_bcd_word_threshold(t, 4, 3);
        lemma_bcd_word_threshold(t, 4, 4);
        lemma_zero_digits(t, 4, leading_zeros as nat);
        crate::decimal::lemma_decimal_split(t, rest, 16);
        lemma_skip_zeros(t, 4);
        assert(bytes@.subrange(leading_zeros as int, 20) =~= padded(t, 4).subrange(
            leading_zeros as int,
            4,
        ) + padded(rest, 16));
    }
    NumStr::from_range(bytes, leading_zeros, 20)
}

/// Packs the value into decimal words four digits at a time, turns them into
/// ASCII by setting the bits of `'0'` in every byte, and skips the leading zero
/// bytes that the packed word's leading zero bits count.
pub fn u64toa_bcd4(value: u64) -> (r: NumStr<20>)
    ensures
        r@ == decimal(value as nat),
{
    if value < 10000 {
        bcd4_len_1_to_4(value)
    } else if value < 100000000 {
        bcd4_len_5_to_8(value)
    } else if value < 10_000_000_000_000_000 {
        bcd4_len_9_to_16(value)
    } else {
        bcd4_len_17_to_20(value)
    }
}

pub(crate) proof fn lemma_pow256_values()
    ensures
        pow256(0) == 1,
        pow256(1) == 256,
        pow256(2) == 65536,
        pow256(3) == 16777216,
        pow256(4) == 0x1_0000_0000,
        pow256(5) == 0x100_0000_0000,
        pow256(6) == 0x1_0000_0000_0000,
        pow256(7) == 0x100_0000_0000_0000,
        pow256(8) == 0x1_0000_0000_0000_0000,
{
    assert(pow256(0) == 1);
    assert(pow256(1) == 256);
    assert(pow256(2) == 65536);
    assert(pow256(3) == 16777216);
    assert(pow256(4) == 0x1_0000_0000);
    assert(pow256(5) == 0x100_0000_0000);
    assert(pow256(6) == 0x1_0000_0000_0000);
    assert(pow256(7) == 0x100_0000_0000_0000);
    assert(pow256(8) == 0x1_0000_0000_0000_0000);
}

} // verus!
