use vstd::prelude::*;
use crate::decimal::{
    ascii_digit, decimal, digit_count, lemma_padded_len, lemma_pow10_values, lemma_shift_chunk, padded,
    pow10,
};
use crate::numstr::{reversed, NumStr};

verus! {

broadcast use lemma_padded_len;

/// The digits of a signed remainder `-9..=9`, found at offset `9 + remainder`.
pub const DIGITS: [u8; 19] = [57, 56, 55, 54, 53, 52, 51, 50, 49, 48, 49, 50, 51, 52, 53, 54, 55, 56, 57];

proof fn lemma_digits_entry(d: nat)
    requires
        d < 10,
    ensures
        DIGITS@[9 + d as int] == ascii_digit(d),
{
    assert(d == 0 || d == 1 || d == 2 || d == 3 || d == 4 || d == 5 || d == 6 || d == 7 || d == 8
        || d == 9);
}

/// Takes one digit at a time off the end by division by ten, then reverses them.
pub fn u64toa_mwilson(value: u64) -> (r: NumStr<20>)
    ensures
        r@ == decimal(value as nat),
{
    proof {
        lemma_pow10_values();
        crate::decimal::lemma_decimal_len(value as nat, 20);
        reveal_with_fuel(padded, 2);
    }
    let mut buf = [0u8; 20];
    let ghost orig = value as nat;
    let mut i = value;
    let lsd = i % 10;
    proof {
        lemma_shift_chunk(orig, value as nat, 0, 0, 1);
        lemma_digits_entry(lsd as nat);
    }
    i /= 10;
    buf[0] = DIGITS[9 + lsd as usize];
    let mut p: usize = 1;
    let ghost mut low: nat = lsd as nat;
    while i != 0
        invariant
            1 <= p <= 20,
            orig == i as nat * pow10(p as nat) + low,
            low < pow10(p as nat),
            i >= 1 ==> p as nat + digit_count(i as nat) == digit_count(orig),
            i == 0 ==> p as nat == digit_count(orig),
            digit_count(orig) <= 20,
            forall|j: int| 0 <= j < p ==> buf@[j] == padded(low, p as nat)[p - 1 - j],
            pow10(1) == 10,
        decreases i,
    {
        let lsd = i % 10;
        proof {
            lemma_shift_chunk(orig, i as nat, low, p as nat, 1);
            lemma_digits_entry(lsd as nat);
            crate::decimal::lemma_digit_count_bounds((i / 10) as nat);
            if i < 10 {
                crate::decimal::lemma_decimal_exact(i as nat, 1);
            }
        }
        i /= 10;
        buf[p] = DIGITS[9 + lsd as usize];
        proof {
            let nlow = lsd as nat * pow10(p as nat) + low;
            let np = (p + 1) as nat;
            assert(padded(nlow, np) == padded(lsd as nat, 1) + padded(low, p as nat));
            assert forall|j: int| 0 <= j < p + 1 implies buf@[j] == padded(nlow, np)[p + 1 - 1 - j] by {}
            low = nlow;
        }
        p += 1;
    }
    proof {
        assert(low == orig);
    }
    let r = reversed(&buf, p);
    assert(r@ =~= decimal(orig));
    r
}

} // verus!
