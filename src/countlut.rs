use vstd::prelude::*;
use crate::countdecimaldigit::count_decimal_digit_64;
use crate::decimal::{
    decimal,
    lemma_digit_count_exact,
    lemma_padded_len,
    digit_count,
    lemma_decimal_split,
    lemma_pow10_values,
    lemma_shift_chunk,
    padded,
    pow10,
};
use crate::digits_lut::{write_8, write_pair};
use crate::numstr::NumStr;

verus! {

broadcast use lemma_padded_len;

/// Counts the digits first, then fills the buffer from the end, eight digits at
/// a time while the rest is large, then two at a time.
pub fn u64toa_countlut(value: u64) -> (r: NumStr<20>)
    ensures
        r@ == decimal(value as nat),
{
    let digit = count_decimal_digit_64(value);
    let mut buffer = [0u8; 20];
    let mut out: usize = digit as usize;
    let mut value = value;
    let ghost orig = value as nat;
    let ghost mut low: nat = 0;
    proof {
        lemma_pow10_values();
        assert((digit - out) as nat == 0);
        assert(value as nat * pow10(0) == value as nat);
    }
    while value >= 100000000
        invariant
            digit as nat == digit_count(orig),
            digit <= 20,
            out <= digit,
            out as nat == digit_count(value as nat),
            orig == value as nat * pow10((digit - out) as nat) + low,
            low < pow10((digit - out) as nat),
            buffer@.subrange(out as int, digit as int) == padded(low, (digit - out) as nat),
            value >= 1 || orig == 0,
            pow10(8) == 100000000,
        decreases value,
    {
        let a = (value % 100000000) as u32;
        let ghost m = (digit - out) as nat;
        proof {
            lemma_shift_chunk(orig, value as nat, low, m, 8);
        }
        value /= 100000000;
        out -= 8;
        let ghost before = buffer@;
        write_8(&mut buffer, out, a);
        proof {
            low = a as nat * pow10(m) + low;
            assert(buffer@.subrange(out as int, digit as int) =~= buffer@.subrange(out as int, out + 8)
                + before.subrange(out + 8, digit as int));
        }
    }
    let mut value32 = value as u32;
    while value32 >= 100
        invariant
            digit as nat == digit_count(orig),
            digit <= 20,
            out <= digit,
            out as nat == digit_count(value32 as nat),
            orig == value32 as nat * pow10((digit - out) as nat) + low,
            low < pow10((digit - out) as nat),
            buffer@.subrange(out as int, digit as int) == padded(low, (digit - out) as nat),
            value32 >= 1 || orig == 0,
            pow10(2) == 100,
        decreases value32,
    {
        let i = value32 % 100;
        let ghost m = (digit - out) as nat;
        proof {
            lemma_shift_chunk(orig, value32 as nat, low, m, 2);
        }
        value32 /= 100;
        out -= 2;
        let ghost before = buffer@;
        write_pair(&mut buffer, out, i);
        proof {
            low = i as nat * pow10(m) + low;
            assert(buffer@.subrange(out as int, digit as int) =~= buffer@.subrange(out as int, out + 2)
                + before.subrange(out + 2, digit as int));
        }
    }
    let ghost m = (digit - out) as nat;
    let ghost before = buffer@;
    proof {
        if value32 < 10 {
            lemma_digit_count_exact(value32 as nat, 1);
        } else {
            lemma_digit_count_exact(value32 as nat, 2);
        }
    }
    if value32 < 10 {
        out -= 1;
        buffer[out] = value32 as u8 + 48;
        assert(buffer@.subrange(out as int, out + 1) =~= padded(value32 as nat, 1));
    } else {
        out -= 2;
        write_pair(&mut buffer, out, value32);
    }
    proof {
        let n = digit_count(value32 as nat);
        assert(out == 0);
        assert(buffer@.subrange(0, digit as int) =~= buffer@.subrange(0, n as int) + before.subrange(
            n as int,
            digit as int,
        ));
        if value32 >= 1 {
            lemma_decimal_split(value32 as nat, low, m);
        } else {
            assert(m == 0);
        }
    }
    NumStr::from_parts(buffer, digit as usize)
}

} // verus!
