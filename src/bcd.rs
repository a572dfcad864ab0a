use vstd::prelude::*;
use crate::bcd4::{
    bcd_word,
    lemma_bcd_word_split,
    lemma_bcd_word_threshold,
    lemma_pow256_values,
    lemma_skip_zeros,
    lemma_zero_bytes_u32,
    lemma_zero_bytes_u64,
    lemma_zero_digits,
    put_ascii4,
    to_bcd4,
};
use crate::decimal::{
    decimal,
    lemma_decimal_exact,
    lemma_decimal_len,
    lemma_decimal_split,
    lemma_padded_len,
    lemma_padded_split,
    lemma_pow10_values,
    padded,
};
use crate::digits_lut::{lemma_lut_pair, lemma_written_concat, written, DIGITS_LUT};
use crate::fixed_point::lemma_div10000_u64;
use crate::numstr::NumStr;
use crate::oracle::itoa_format_u64;

verus! {

broadcast use lemma_padded_len;

/// The second step of the eight-digit packing: hundreds split off in both 32-bit lanes.
proof fn lemma_lanes100_bv(ab: u64, cd: u64, ef: u64, gh: u64) by (bit_vector)
    requires
        ab < 100,
        cd < 100,
        ef < 100,
        gh < 100,
    ensures
        ((((((ab * 100 + cd) * 0x1_0000_0000 + ef * 100 + gh) as u64) * 0x147b) as u64) >> 19u64)
            & 0x7f0000007fu64 == ab * 0x1_0000_0000 + ef,
{
}

/// The third step of the eight-digit packing: tens split off in all four 16-bit lanes.
proof fn lemma_lanes10_bv(a: u64, b: u64, c: u64, d: u64, e: u64, f: u64, g: u64, h: u64) by (bit_vector)
    requires
        a < 10,
        b < 10,
        c < 10,
        d < 10,
        e < 10,
        f < 10,
        g < 10,
        h < 10,
    ensures
        ((((((a * 10 + b) * 0x1_0000_0000_0000 + (c * 10 + d) * 0x1_0000_0000 + (e * 10 + f) * 0x1_0000
            + g * 10 + h) as u64) * 0x67) as u64) >> 10u64) & 0xf000f000f000fu64 == a
            * 0x1_0000_0000_0000 + c * 0x1_0000_0000 + e * 0x1_0000 + g,
{
}

proof fn lemma_bcd_word8(v: nat)
    requires
        v < 100000000,
    ensures
        bcd_word(v, 8) == bcd_word(v / 10000, 4) * 0x1_0000_0000 + bcd_word(v % 10000, 4),
{
    lemma_pow10_values();
    lemma_pow256_values();
    lemma_bcd_word_split(v / 10000, v % 10000, 4, 4);
}

/// The second packing step on a word holding two four-digit lanes.
proof fn lemma_bcd8_step2(hi: nat, lo: nat)
    requires
        hi < 10000,
        lo < 10000,
    ensures
        ((((hi * 0x1_0000_0000 + lo) as u64 * 0x147b) as u64) >> 19u64) & 0x7f0000007fu64 == (hi / 100)
            * 0x1_0000_0000 + lo / 100,
{
    assert(hi * 0x1_0000_0000 + lo == ((hi / 100) * 100 + hi % 100) * 0x1_0000_0000 + (lo / 100) * 100
        + lo % 100);
    lemma_lanes100_bv((hi / 100) as u64, (hi % 100) as u64, (lo / 100) as u64, (lo % 100) as u64);
}

/// A four-digit packed word as two two-digit packed halves.
proof fn lemma_bcd_word4_halves(v: nat)
    requires
        v < 10000,
    ensures
        bcd_word(v, 4) == ((v / 100) / 10 * 256 + (v / 100) % 10) * 0x1_0000 + (v % 100) / 10 * 256 + (v
            % 100) % 10,
{
    lemma_pow10_values();
    lemma_pow256_values();
    lemma_bcd_word_split(v / 100, v % 100, 2, 2);
    reveal_with_fuel(bcd_word, 3);
}

/// The third packing step on a word holding four two-digit lanes.
proof fn lemma_bcd8_step3(hi: nat, lo: nat)
    requires
        hi < 10000,
        lo < 10000,
    ensures
        ({
            let z = (hi / 100) * 0x1_0000_0000_0000 + (hi % 100) * 0x1_0000_0000 + (lo / 100) * 0x1_0000
                + lo % 100;
            let m = (((z as u64 * 0x67) as u64) >> 10u64) & 0xf000f000f000fu64;
            z + 246 * m == bcd_word(hi, 4) * 0x1_0000_0000 + bcd_word(lo, 4)
        }),
{
    let ab = hi / 100;
    let cd = hi % 100;
    let ef = lo / 100;
    let gh = lo % 100;
    lemma_lanes10_bv(
        (ab / 10) as u64,
        (ab % 10) as u64,
        (cd / 10) as u64,
        (cd % 10) as u64,
        (ef / 10) as u64,
        (ef % 10) as u64,
        (gh / 10) as u64,
        (gh % 10) as u64,
    );
    lemma_bcd_word4_halves(hi);
    lemma_bcd_word4_halves(lo);
}

/// The packed decimal word of an eight-digit value, in three steps: base 10000,
/// base 100, base 10, each quotient found by a multiply-shift across all lanes.
fn to_bcd8(abcdefgh: u32) -> (r: u64)
    requires
        abcdefgh < 100000000,
    ensures
        r as nat == bcd_word(abcdefgh as nat / 10000, 4) * 0x1_0000_0000 + bcd_word(
            abcdefgh as nat % 10000,
            4,
        ),
{
    let abcdefgh = abcdefgh as u64;
    let ghost v = abcdefgh as nat;
    let ghost hi = v / 10000;
    let ghost lo = v % 10000;
    proof {
        lemma_div10000_u64(abcdefgh);
    }
    let abcd_efgh = abcdefgh + (0x100000000 - 10000) * ((abcdefgh * 0x68db8bb) >> 40);
    proof {
        assert(abcd_efgh == hi * 0x1_0000_0000 + lo);
        lemma_bcd8_step2(hi, lo);
    }
    let ab_cd_ef_gh = abcd_efgh + (0x10000 - 100) * (((abcd_efgh * 0x147b) >> 19) & 0x7f0000007f);
    proof {
        assert(ab_cd_ef_gh == (hi / 100) * 0x1_0000_0000_0000 + (hi % 100) * 0x1_0000_0000 + (lo / 100)
            * 0x1_0000 + lo % 100);
        lemma_bcd8_step3(hi, lo);
        lemma_pow10_values();
        lemma_pow256_values();
        lemma_bcd_word_threshold(hi, 4, 4);
        lemma_bcd_word_threshold(lo, 4, 4);
    }
    let a_b_c_d_e_f_g_h = ab_cd_ef_gh + (0x100 - 10) * (((ab_cd_ef_gh * 0x67) >> 10) & 0xf000f000f000f);
    a_b_c_d_e_f_g_h
}

/// The two 32-bit halves of a 64-bit word.
proof fn lemma_halves_bv(w: u64) by (bit_vector)
    ensures
        w == ((w >> 32u64) as u32) as u64 * 0x1_0000_0000 + (w as u32) as u64,
{
}

/// Writes the eight bytes of `bcd` with the bits of `'0'` set, most significant
/// first, one 32-bit half at a time.
fn put_ascii8(buf: &mut [u8; 20], pos: usize, bcd: u64, v: Ghost<nat>)
    requires
        v@ < 100000000,
        bcd as nat == bcd_word(v@ / 10000, 4) * 0x1_0000_0000 + bcd_word(v@ % 10000, 4),
        pos + 8 <= 20,
    ensures
        written(old(buf)@, final(buf)@, pos as int, padded(v@, 8)),
{
    let hi_word = #[verifier::truncate] ((bcd >> 32) as u32);
    let lo_word = #[verifier::truncate] (bcd as u32);
    proof {
        lemma_halves_bv(bcd);
        lemma_pow256_values();
        lemma_pow10_values();
        lemma_bcd_word_threshold(v@ % 10000, 4, 4);
        assert(hi_word == bcd_word(v@ / 10000, 4));
    }
    let ghost b0 = buf@;
    put_ascii4(buf, pos, hi_word, Ghost(v@ / 10000));
    let ghost b1 = buf@;
    put_ascii4(buf, pos + 4, lo_word, Ghost(v@ % 10000));
    proof {
        lemma_written_concat(b0, b1, buf@, pos as int, padded(v@ / 10000, 4), padded(v@ % 10000, 4));
        lemma_padded_split(v@ / 10000, v@ % 10000, 4, 4);
    }
}

/// The packing algorithm with a table lookup below 100 and the `itoa` crate above
/// sixteen digits.
pub fn u64toa_bcd(value: u64) -> (r: NumStr<20>)
    ensures
        r@ == decimal(value as nat),
{
    proof {
        lemma_pow10_values();
        lemma_pow256_values();
    }
    let mut bytes = [0u8; 20];
    if value < 100 {
        let offset: usize = if value < 10 {
            1
        } else {
            0
        };
        bytes[0] = DIGITS_LUT[value as usize * 2];
        bytes[1] = DIGITS_LUT[value as usize * 2 + 1];
        proof {
            lemma_lut_pair(value as nat);
            reveal_with_fuel(padded, 3);
            if value < 10 {
                lemma_decimal_exact(value as nat, 1);
            } else {
                lemma_decimal_exact(value as nat, 2);
            }
            assert(bytes@.subrange(offset as int, 2) =~= decimal(value as nat));
        }
        NumStr::from_range(bytes, offset, 2)
    } else if value < 10_000 {
        let bcd = to_bcd4(value as u16);
        let leading_zeros = bcd.leading_zeros() as usize / 8;
        put_ascii4(&mut bytes, 0, bcd, Ghost(value as nat));
        proof {
            let x = value as nat;
            lemma_zero_bytes_u32(bcd);
            lemma_bcd_word_threshold(x, 4, 1);
            lemma_bcd_word_threshold(x, 4, 2);
            lemma_bcd_word_threshold(x, 4, 3);
            lemma_zero_digits(x, 4, leading_zeros as nat);
            lemma_skip_zeros(x, 4);
            assert(bytes@.subrange(leading_zeros as int, 4) =~= padded(x, 4).subrange(leading_zeros as int, 4));
        }
        NumStr::from_range(bytes, leading_zeros, 4)
    } else if value < 100_000_000 {
        let bcd_hi = to_bcd4((value / 10_000) as u16);
        let leading_zeros = bcd_hi.leading_zeros() as usize / 8;
        let bcd_lo = to_bcd4((value % 10_000) as u16);
        let ghost b0 = bytes@;
        put_ascii4(&mut bytes, 0, bcd_hi, Ghost((value / 10000) as nat));
        let ghost b1 = bytes@;
        put_ascii4(&mut bytes, 4, bcd_lo, Ghost((value % 10000) as nat));
        proof {
            let x = value as nat;
            let hi = x / 10000;
            let lo = x % 10000;
            lemma_zero_bytes_u32(bcd_hi);
            lemma_written_concat(b0, b1, bytes@, 0, padded(hi, 4), padded(lo, 4));
            lemma_padded_split(hi, lo, 4, 4);
            lemma_bcd_word_threshold(hi, 4, 1);
            lemma_bcd_word_threshold(hi, 4, 2);
            lemma_bcd_word_threshold(hi, 4, 3);
            lemma_bcd_word_threshold(hi, 4, 4);
            lemma_zero_digits(hi, 4, leading_zeros as nat);
            lemma_skip_zeros(hi, 4);
            lemma_decimal_split(hi, lo, 4);
            assert(bytes@.subrange(leading_zeros as int, 8) =~= padded(hi, 4).subrange(leading_zeros as int, 4)
                + padded(lo, 4));
        }
        NumStr::from_range(bytes, leading_zeros, 8)
    } else if value < 10_000_000_000_000_000 {
        let bcd_hi = to_bcd8((value / 100_000_000) as u32);
        let leading_zeros = bcd_hi.leading_zeros() as usize / 8;
        let bcd_lo = to_bcd8((value % 100_000_000) as u32);
        let ghost b0 = bytes@;
        put_ascii8(&mut bytes, 0, bcd_hi, Ghost((value / 100_000_000) as nat));
        let ghost b1 = bytes@;
        put_ascii8(&mut bytes, 8, bcd_lo, Ghost((value % 100_000_000) as nat));
        proof {
            let x = value as nat;
            let hi = x / 100_000_000;
            let lo = x % 100_000_000;
            lemma_zero_bytes_u64(bcd_hi);
            lemma_bcd_word8(hi);
            lemma_written_concat(b0, b1, bytes@, 0, padded(hi, 8), padded(lo, 8));
            lemma_bcd_word_threshold(hi, 8, 1);
            lemma_bcd_word_threshold(hi, 8, 2);
            lemma_bcd_word_threshold(hi, 8, 3);
            lemma_bcd_word_threshold(hi, 8, 4);
            lemma_bcd_word_threshold(hi, 8, 5);
            lemma_bcd_word_threshold(hi, 8, 6);
            lemma_bcd_word_threshold(hi, 8, 7);
            lemma_bcd_word_threshold(hi, 8, 8);
            lemma_zero_digits(hi, 8, leading_zeros as nat);
            lemma_skip_zeros(hi, 8);
            lemma_decimal_split(hi, lo, 8);
            assert(bytes@.subrange(leading_zeros as int, 16) =~= padded(hi, 8).subrange(leading_zeros as int, 8)
                + padded(lo, 8));
        }
        NumStr::from_range(bytes, leading_zeros, 16)
    } else {
        proof {
            lemma_decimal_len(value as nat, 20);
        }
        let len = itoa_format_u64(value, &mut bytes);
        NumStr::from_parts(bytes, len)
    }
}

} // verus!
