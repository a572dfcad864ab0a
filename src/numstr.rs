use vstd::prelude::*;
use vstd::slice::slice_subrange;

verus! {

/// Decimal text in a fixed-capacity buffer of `N` bytes: only the written prefix
/// is ever exposed.
pub struct NumStr<const N: usize> {
    bytes: [u8; N],
    start: usize,
    end: usize,
}

impl<const N: usize> View for NumStr<N> {
    type V = Seq<u8>;

    closed spec fn view(&self) -> Seq<u8> {
        self.bytes@.subrange(self.start as int, self.end as int)
    }
}

impl<const N: usize> NumStr<N> {
    #[verifier::type_invariant]
    spec fn inv(self) -> bool {
        self.start <= self.end <= N
    }

    /// Keeps the first `len` bytes of `bytes` as the text.
    pub fn from_parts(bytes: [u8; N], len: usize) -> (r: Self)
        requires
            len <= N,
        ensures
            r@ == bytes@.subrange(0, len as int),
    {
        NumStr { bytes, start: 0, end: len }
    }

    /// Keeps the bytes of `bytes` from `start` up to, not including, `end` as the text.
    pub fn from_range(bytes: [u8; N], start: usize, end: usize) -> (r: Self)
        requires
            start <= end <= N,
        ensures
            r@ == bytes@.subrange(start as int, end as int),
    {
        NumStr { bytes, start, end }
    }

    /// The same text in a buffer of `M` bytes.
    pub fn resized<const M: usize>(&self) -> (r: NumStr<M>)
        requires
            self@.len() <= M,
        ensures
            r@ == self@,
    {
        proof {
            use_type_invariant(self);
        }
        let mut bytes = [0u8; M];
        let n = self.end - self.start;
        let mut k: usize = 0;
        while k < n
            invariant
                self.start <= self.end <= N,
                n == self.end - self.start,
                n <= M,
                k <= n,
                forall|i: int| 0 <= i < k ==> bytes@[i] == self.bytes@[self.start + i],
            decreases n - k,
        {
            bytes[k] = self.bytes[self.start + k];
            k += 1;
        }
        let r = NumStr::from_parts(bytes, n);
        assert(r@ =~= self@);
        r
    }

    /// The text's bytes.
    pub fn as_bytes(&self) -> (r: &[u8])
        ensures
            r@ == self@,
    {
        proof {
            use_type_invariant(self);
        }
        slice_subrange(self.bytes.as_slice(), self.start, self.end)
    }

    /// The text's length in bytes.
    pub fn len(&self) -> (r: usize)
        ensures
            r == self@.len(),
    {
        proof {
            use_type_invariant(self);
        }
        self.end - self.start
    }
}

/// Reverses the first `len` bytes of `rev` into a new buffer.
pub fn reversed<const N: usize>(rev: &[u8; N], len: usize) -> (r: NumStr<N>)
    requires
        len <= N,
    ensures
        r@.len() == len,
        forall|i: int| 0 <= i < len ==> r@[i] == rev@[len - 1 - i],
{
    let mut out = [0u8; N];
    let mut k: usize = 0;
    while k < len
        invariant
            k <= len <= N,
            forall|i: int| 0 <= i < k ==> out@[i] == rev@[len - 1 - i],
        decreases len - k,
    {
        out[k] = rev[len - 1 - k];
        k += 1;
    }
    NumStr::from_parts(out, len)
}

} // verus!
