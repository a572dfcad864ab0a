use vstd::prelude::*;
use crate::decimal::{
    decimal, digit_count, lemma_decimal_exact, lemma_decimal_split, lemma_padded_len, lemma_pow10_values,
    lemma_shift_chunk, padded, pow10,
};
use crate::digits_lut::{lemma_lut_pair, DIGITS_LUT};
use crate::numstr::{reversed, NumStr};

verus! {

broadcast use lemma_padded_len;

/// Writes pairs from the table least significant first, then reverses them.
#[verifier::rlimit(30)]
pub fn u64toa_lut(value: u64) -> (r: NumStr<20>)
    ensures
        r@ == decimal(value as nat),
{
    proof {
        lemma_pow10_values();
    }
    let mut temp = [0u8; 20];
    let mut p: usize = 0;
    let mut value = value;
    let ghost orig = value as nat;
    let ghost mut low: nat = 0;
    assert(value as nat * pow10(0) == value as nat);
    while value >= 100
        invariant
            p <= 19,
            orig == value as nat * pow10(p as nat) + low,
            low < pow10(p as nat),
            p as nat + digit_count(value as nat) == digit_count(orig),
            forall|i: int| 0 <= i < p ==> temp@[i] == padded(low, p as nat)[p - 1 - i],
            orig < 0x1_0000_0000_0000_0000,
            value >= 1 || orig == 0,
            pow10(2) == 100,
            pow10(20) == 100000000000000000000nat,
        decreases value,
    {
        let i = ((value % 100) as usize) * 2;
        let ghost r = (value % 100) as nat;
        proof {
            lemma_shift_chunk(orig, value as nat, low, p as nat, 2);
            lemma_lut_pair(r);
            crate::decimal::lemma_decimal_len(orig, 20);
            crate::decimal::lemma_digit_count_bounds((value / 100) as nat);
        }
        value /= 100;
        temp[p] = DIGITS_LUT[i + 1];
        temp[p + 1] = DIGITS_LUT[i];
        proof {
            let np = (p + 2) as nat;
            let nlow = r * pow10(p as nat) + low;
            assert(padded(nlow, np) == padded(r, 2) + padded(low, p as nat));
            assert forall|j: int| 0 <= j < p + 2 implies temp@[j] == padded(nlow, np)[p + 2 - 1 - j] by {
                if j >= p as int {
                    reveal_with_fuel(padded, 3);
                }
            }
            low = nlow;
        }
        p += 2;
    }
    let ghost p_before = p as nat;
    proof {
        crate::decimal::lemma_decimal_len(orig, 20);
        lemma_lut_pair(value as nat);
        reveal_with_fuel(padded, 3);
        if value < 10 {
            lemma_decimal_exact(value as nat, 1);
        } else {
            lemma_decimal_exact(value as nat, 2);
        }
    }
    if value < 10 {
        temp[p] = value as u8 + 48;
        p += 1;
    } else {
        let i = (value as usize) * 2;
        temp[p] = DIGITS_LUT[i + 1];
        temp[p + 1] = DIGITS_LUT[i];
        p += 2;
    }
    proof {
        let n = digit_count(value as nat);
        if value >= 1 {
            lemma_decimal_split(value as nat, low, p_before);
        } else {
            assert(p_before == 0);
        }
        assert(decimal(orig) == padded(value as nat, n) + padded(low, p_before));
        assert forall|j: int| 0 <= j < p implies temp@[j] == decimal(orig)[p - 1 - j] by {}
    }
    let r = reversed(&temp, p);
    assert(r@ =~= decimal(orig));
    r
}

} // verus!
