use vstd::prelude::*;
use crate::decimal::{digit_count, lemma_digit_count_exact, lemma_pow10_increasing, lemma_pow10_values, pow10};

verus! {

/// The number of decimal digits of `v`.
pub fn count_decimal_digit_64(v: u64) -> (r: u32)
    ensures
        r as nat == digit_count(v as nat),
        1 <= r <= 20,
{
    proof {
        lemma_pow10_values();
    }
    let mut n: u32 = 1;
    let mut p: u64 = 10;
    while n < 20 && v >= p
        invariant
            1 <= n <= 20,
            n < 20 ==> p as nat == pow10(n as nat),
            n == 1 || pow10((n - 1) as nat) <= v,
            pow10(19) == 10000000000000000000nat,
            pow10(20) == 100000000000000000000nat,
        decreases 20 - n,
    {
        n = n + 1;
        if n < 20 {
            proof {
                if n < 19 {
                    lemma_pow10_increasing(n as nat, 19);
                }
            }
            p = p * 10;
        }
    }
    proof {
        lemma_digit_count_exact(v as nat, n as nat);
    }
    n
}

} // verus!
