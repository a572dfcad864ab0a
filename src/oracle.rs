use vstd::prelude::*;
use core::fmt::Write;
use crate::decimal::{decimal, lemma_decimal_len, lemma_pow10_values};
use crate::numstr::NumStr;

verus! {

/// Relies on the standard library's `Display` for `u32`, written into arrayvec's
/// `ArrayString`: the minimal decimal digits of `value`.
#[verifier::external_body]
pub(crate) fn display_u32(value: u32, out: &mut [u8; 10]) -> (len: usize)
    ensures
        len == decimal(value as nat).len(),
        final(out)@.subrange(0, len as int) == decimal(value as nat),
{
    let mut s = arrayvec::ArrayString::<10>::new();
    write!(s, "{value}").unwrap();
    out[..s.len()].copy_from_slice(s.as_bytes());
    s.len()
}

/// Relies on the standard library's `Display` for `u64`, written into arrayvec's
/// `ArrayString`: the minimal decimal digits of `value`.
#[verifier::external_body]
pub(crate) fn display_u64(value: u64, out: &mut [u8; 20]) -> (len: usize)
    ensures
        len == decimal(value as nat).len(),
        final(out)@.subrange(0, len as int) == decimal(value as nat),
{
    let mut s = arrayvec::ArrayString::<20>::new();
    write!(s, "{value}").unwrap();
    out[..s.len()].copy_from_slice(s.as_bytes());
    s.len()
}

/// Relies on the standard library's `Display` for `u128`, written into arrayvec's
/// `ArrayString`: the minimal decimal digits of `value`.
#[verifier::external_body]
pub(crate) fn display_u128(value: u128, out: &mut [u8; 39]) -> (len: usize)
    ensures
        len == decimal(value as nat).len(),
        final(out)@.subrange(0, len as int) == decimal(value as nat),
{
    let mut s = arrayvec::ArrayString::<39>::new();
    write!(s, "{value}").unwrap();
    out[..s.len()].copy_from_slice(s.as_bytes());
    s.len()
}

/// Relies on `itoa::Buffer::format` for `u32`: the minimal decimal digits of `value`.
#[verifier::external_body]
fn itoa_format_u32(value: u32, out: &mut [u8; 10]) -> (len: usize)
    ensures
        len == decimal(value as nat).len(),
        final(out)@.subrange(0, len as int) == decimal(value as nat),
{
    let mut b = itoa::Buffer::new();
    let s = b.format(value);
    out[..s.len()].copy_from_slice(s.as_bytes());
    s.len()
}

/// Relies on `itoa::Buffer::format` for `u64`: the minimal decimal digits of `value`.
#[verifier::external_body]
pub(crate) fn itoa_format_u64(value: u64, out: &mut [u8; 20]) -> (len: usize)
    ensures
        len == decimal(value as nat).len(),
        final(out)@.subrange(0, len as int) == decimal(value as nat),
{
    let mut b = itoa::Buffer::new();
    let s = b.format(value);
    out[..s.len()].copy_from_slice(s.as_bytes());
    s.len()
}

/// Relies on `itoa::Buffer::format` for `u128`: the minimal decimal digits of `value`.
#[verifier::external_body]
fn itoa_format_u128(value: u128, out: &mut [u8; 39]) -> (len: usize)
    ensures
        len == decimal(value as nat).len(),
        final(out)@.subrange(0, len as int) == decimal(value as nat),
{
    let mut b = itoa::Buffer::new();
    let s = b.format(value);
    out[..s.len()].copy_from_slice(s.as_bytes());
    s.len()
}

/// The standard library's formatter: the reference every other algorithm is held to.
pub fn u32toa_core(value: u32) -> (r: NumStr<10>)
    ensures
        r@ == decimal(value as nat),
{
    proof {
        lemma_pow10_values();
        lemma_decimal_len(value as nat, 10);
    }
    let mut buffer = [0u8; 10];
    let len = display_u32(value, &mut buffer);
    NumStr::from_parts(buffer, len)
}

/// The standard library's formatter: the reference every other algorithm is held to.
pub fn u64toa_core(value: u64) -> (r: NumStr<20>)
    ensures
        r@ == decimal(value as nat),
{
    proof {
        lemma_pow10_values();
        lemma_decimal_len(value as nat, 20);
    }
    let mut buffer = [0u8; 20];
    let len = display_u64(value, &mut buffer);
    NumStr::from_parts(buffer, len)
}

/// The standard library's formatter: the reference every other algorithm is held to.
pub fn u128toa_core(value: u128) -> (r: NumStr<39>)
    ensures
        r@ == decimal(value as nat),
{
    proof {
        lemma_pow10_values();
        lemma_decimal_len(value as nat, 39);
    }
    let mut buffer = [0u8; 39];
    let len = display_u128(value, &mut buffer);
    NumStr::from_parts(buffer, len)
}

/// The `itoa` crate's formatter.
pub fn u32toa_itoa(value: u32) -> (r: NumStr<10>)
    ensures
        r@ == decimal(value as nat),
{
    proof {
        lemma_pow10_values();
        lemma_decimal_len(value as nat, 10);
    }
    let mut buffer = [0u8; 10];
    let len = itoa_format_u32(value, &mut buffer);
    NumStr::from_parts(buffer, len)
}

/// The `itoa` crate's formatter.
pub fn u64toa_itoa(value: u64) -> (r: NumStr<20>)
    ensures
        r@ == decimal(value as nat),
{
    proof {
        lemma_pow10_values();
        lemma_decimal_len(value as nat, 20);
    }
    let mut buffer = [0u8; 20];
    let len = itoa_format_u64(value, &mut buffer);
    NumStr::from_parts(buffer, len)
}

/// The `itoa` crate's formatter.
pub fn u128toa_itoa(value: u128) -> (r: NumStr<39>)
    ensures
        r@ == decimal(value as nat),
{
    proof {
        lemma_pow10_values();
        lemma_decimal_len(value as nat, 39);
    }
    let mut buffer = [0u8; 39];
    let len = itoa_format_u128(value, &mut buffer);
    NumStr::from_parts(buffer, len)
}

} // verus!
