use vstd::prelude::*;
use crate::data::{Data, DataForType};
use crate::decimal::decimal;
use crate::oracle::{u128toa_core, u32toa_core, u64toa_core};
use crate::registry::{all, Algorithm, Width};

verus! {

/// An algorithm whose text for `value` differs from the reference formatter's.
#[derive(Clone, Copy, PartialEq, Eq, Debug)]
pub struct Mismatch {
    pub algorithm: Algorithm,
    pub width: Width,
    pub value: u128,
}

/// Whether two byte strings are equal.
pub fn same_bytes(a: &[u8], b: &[u8]) -> (r: bool)
    ensures
        r == (a@ == b@),
{
    if a.len() != b.len() {
        return false;
    }
    let mut i: usize = 0;
    while i < a.len()
        invariant
            a@.len() == b@.len(),
            i <= a@.len(),
            forall|j: int| 0 <= j < i ==> a@[j] == b@[j],
        decreases a@.len() - i,
    {
        if a[i] != b[i] {
            return false;
        }
        i += 1;
    }
    assert(a@ =~= b@);
    true
}

/// Whether the correctness pass checks the algorithm: all but the reference itself
/// and the placeholder that writes nothing.
pub fn is_compared(alg: Algorithm) -> (r: bool)
    ensures
        r == (alg != Algorithm::Core && alg != Algorithm::Null),
{
    match alg {
        Algorithm::Core | Algorithm::Null => false,
        _ => true,
    }
}

/// Every 32-bit value of every bucket, through every algorithm but the reference
/// and the placeholder, compared with the reference's text.
fn verify_u32(data: &DataForType<u32>) -> (r: Option<Mismatch>)
    ensures
        r is None,
{
    let algs = all();
    let mut i: usize = 0;
    while i < data.by_length.len()
        decreases data.by_length@.len() - i,
    {
        let vec = &data.by_length[i];
        let mut j: usize = 0;
        while j < vec.len()
            decreases vec@.len() - j,
        {
            let value = vec[j];
            let expected = u32toa_core(value);
            let mut k: usize = 0;
            while k < algs.len()
                invariant
                    expected@ == decimal(value as nat),
                decreases algs@.len() - k,
            {
                let alg = algs[k];
                if is_compared(alg) {
                    if let Some(actual) = alg.run_u32(value) {
                        if !same_bytes(expected.as_bytes(), actual.as_bytes()) {
                            return Some(Mismatch { algorithm: alg, width: Width::U32, value: value as u128 });
                        }
                    }
                }
                k += 1;
            }
            j += 1;
        }
        i += 1;
    }
    None
}

/// Every 64-bit value of every bucket, through every algorithm but the reference
/// and the placeholder, compared with the reference's text.
fn verify_u64(data: &DataForType<u64>) -> (r: Option<Mismatch>)
    ensures
        r is None,
{
    let algs = all();
    let mut i: usize = 0;
    while i < data.by_length.len()
        decreases data.by_length@.len() - i,
    {
        let vec = &data.by_length[i];
        let mut j: usize = 0;
        while j < vec.len()
            decreases vec@.len() - j,
        {
            let value = vec[j];
            let expected = u64toa_core(value);
            let mut k: usize = 0;
            while k < algs.len()
                invariant
                    expected@ == decimal(value as nat),
                decreases algs@.len() - k,
            {
                let alg = algs[k];
                if is_compared(alg) {
                    if let Some(actual) = alg.run_u64(value) {
                        if !same_bytes(expected.as_bytes(), actual.as_bytes()) {
                            return Some(Mismatch { algorithm: alg, width: Width::U64, value: value as u128 });
                        }
                    }
                }
                k += 1;
            }
            j += 1;
        }
        i += 1;
    }
    None
}

/// Every 128-bit value of every bucket, through every algorithm but the reference
/// and the placeholder, compared with the reference's text.
fn verify_u128(data: &DataForType<u128>) -> (r: Option<Mismatch>)
    ensures
        r is None,
{
    let algs = all();
    let mut i: usize = 0;
    while i < data.by_length.len()
        decreases data.by_length@.len() - i,
    {
        let vec = &data.by_length[i];
        let mut j: usize = 0;
        while j < vec.len()
            decreases vec@.len() - j,
        {
            let value = vec[j];
            let expected = u128toa_core(value);
            let mut k: usize = 0;
            while k < algs.len()
                invariant
                    expected@ == decimal(value as nat),
                decreases algs@.len() - k,
            {
                let alg = algs[k];
                if is_compared(alg) {
                    if let Some(actual) = alg.run_u128(value) {
                        if !same_bytes(expected.as_bytes(), actual.as_bytes()) {
                            return Some(Mismatch { algorithm: alg, width: Width::U128, value });
                        }
                    }
                }
                k += 1;
            }
            j += 1;
        }
        i += 1;
    }
    None
}

/// Runs the correctness pass over a whole dataset: the first algorithm, width and
/// value whose text differs from the reference formatter's, if any. None ever does.
pub fn verify(data: &Data) -> (r: Option<Mismatch>)
    ensures
        r is None,
{
    let r = verify_u32(&data.u32);
    if r.is_some() {
        return r;
    }
    let r = verify_u64(&data.u64);
    if r.is_some() {
        return r;
    }
    verify_u128(&data.u128)
}

} // verus!
