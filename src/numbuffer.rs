use vstd::prelude::*;
use crate::decimal::{decimal, lemma_decimal_len, lemma_pow10_values};
use crate::numstr::NumStr;
use crate::oracle::{display_u128, display_u32, display_u64};

verus! {

// The standard library's `NumBuffer` and `format_into` sit behind an unstable
// compiler feature, which this crate does not enable; these routines reach the
// same integer formatter of the standard library through `Display` instead, and
// so write the same text as the `core` routines.

/// The standard library's own integer formatting into a stack buffer.
pub fn u32toa_numbuffer(value: u32) -> (r: NumStr<10>)
    ensures
        r@ == decimal(value as nat),
{
    proof {
        lemma_pow10_values();
        lemma_decimal_len(value as nat, 10);
    }
    let mut buffer = [0u8; 10];
    let len = display_u32(value, &mut buffer);
    NumStr::from_parts(buffer, len)
}

/// The standard library's own integer formatting into a stack buffer.
pub fn u64toa_numbuffer(value: u64) -> (r: NumStr<20>)
    ensures
        r@ == decimal(value as nat),
{
    proof {
        lemma_pow10_values();
        lemma_decimal_len(value as nat, 20);
    }
    let mut buffer = [0u8; 20];
    let len = display_u64(value, &mut buffer);
    NumStr::from_parts(buffer, len)
}

/// The standard library's own integer formatting into a stack buffer.
pub fn u128toa_numbuffer(value: u128) -> (r: NumStr<39>)
    ensures
        r@ == decimal(value as nat),
{
    proof {
        lemma_pow10_values();
        lemma_decimal_len(value as nat, 39);
    }
    let mut buffer = [0u8; 39];
    let len = display_u128(value, &mut buffer);
    NumStr::from_parts(buffer, len)
}

} // verus!
