use vstd::prelude::*;
use vstd::arithmetic::power::pow;
use rand::rngs::SmallRng;
use crate::decimal::{
    digit_count, lemma_digit_count_bounds, lemma_digit_count_exact, lemma_pow10_increasing,
    lemma_pow10_positive, pow10,
};
use crate::unsigned::{saturating_pow, Unsigned};

verus! {

/// Relies on `rand::SeedableRng::seed_from_u64` for `SmallRng`: a generator
/// seeded from `seed`, the same on every run.
#[verifier::external_body]
fn seeded_rng(seed: u64) -> SmallRng {
    <SmallRng as rand::SeedableRng>::seed_from_u64(seed)
}

/// Relies on `rand::seq::SliceRandom::shuffle`: the elements are permuted in place.
#[verifier::external_body]
fn shuffle<T>(v: &mut Vec<T>, rng: &mut SmallRng)
    ensures
        final(v)@.to_multiset() == old(v)@.to_multiset(),
{
    rand::seq::SliceRandom::shuffle(v.as_mut_slice(), rng)
}

/// The smallest value with `len` digits: zero for the first bucket.
pub open spec fn bucket_lo(len: nat) -> nat {
    if len <= 1 {
        0
    } else {
        pow10((len - 1) as nat)
    }
}

/// The largest value with `len` digits, clipped to `max`.
pub open spec fn bucket_hi(len: nat, max: nat) -> nat {
    if pow10(len) <= max {
        (pow10(len) - 1) as nat
    } else {
        max
    }
}

proof fn lemma_pow_is_pow10(k: nat)
    ensures
        pow(10, k) == pow10(k),
    decreases k,
{
    reveal(pow);
    if k > 0 {
        lemma_pow_is_pow10((k - 1) as nat);
    }
}

/// The buckets of a width whose largest value is `max`: bucket `len` runs from
/// `bucket_lo(len)` to `bucket_hi(len, max)`, both ends have exactly `len` digits,
/// each bucket ends right before the next begins, the first starts at zero and the
/// last ends at `max`.
pub proof fn lemma_buckets_partition(max: nat, len: nat)
    requires
        1 <= len <= digit_count(max),
    ensures
        bucket_lo(len) <= bucket_hi(len, max),
        digit_count(bucket_lo(len)) == len,
        digit_count(bucket_hi(len, max)) == len,
        len < digit_count(max) ==> bucket_hi(len, max) + 1 == bucket_lo(len + 1),
        len == digit_count(max) ==> bucket_hi(len, max) == max,
        bucket_lo(1) == 0,
{
    let d = digit_count(max);
    lemma_digit_count_bounds(max);
    lemma_pow10_positive((len - 1) as nat);
    if len + 1 < d {
        lemma_pow10_increasing(len, (d - 1) as nat);
    }
    if len > 1 {
        lemma_pow10_increasing((len - 1) as nat, len);
        lemma_digit_count_exact(pow10((len - 1) as nat), len);
        if len < d {
            assert(pow10(len) <= max);
        }
    } else {
        lemma_digit_count_exact(0, 1);
    }
    if len > 1 && len == d {
        lemma_pow10_increasing((d - 1) as nat, d);
    }
    let hi = bucket_hi(len, max);
    assert(pow10(len) == 10 * pow10((len - 1) as nat));
    lemma_digit_count_exact(hi, len);
}

/// Every value up to `max` lies in the bucket of its digit count.
pub proof fn lemma_bucket_of_value(max: nat, v: nat)
    requires
        v <= max,
    ensures
        1 <= digit_count(v) <= digit_count(max),
        bucket_lo(digit_count(v)) <= v <= bucket_hi(digit_count(v), max),
{
    lemma_digit_count_bounds(v);
    lemma_digit_count_bounds(max);
    let n = digit_count(v);
    let d = digit_count(max);
    assert(n <= d) by {
        if n > d {
            if (n - 1) as nat > d {
                lemma_pow10_increasing(d, (n - 1) as nat);
            }
        }
    }
}

/// A value between the bounds of bucket `len` has exactly `len` digits.
proof fn lemma_in_bucket(max: nat, len: nat, x: nat)
    requires
        1 <= len <= digit_count(max),
        bucket_lo(len) <= x <= bucket_hi(len, max),
    ensures
        digit_count(x) == len,
{
    lemma_pow10_positive(len);
    lemma_digit_count_exact(x, len);
}

/// The inclusive bounds of the bucket of values with `len` digits: the smallest
/// is `10^(len-1)` less one for the first bucket, the largest `10^len - 1`, found
/// by wrapping arithmetic so that it becomes the width's largest value where
/// `10^len` saturates.
pub fn bucket_bounds<T: Unsigned>(len: u32) -> (r: (T, T))
    requires
        1 <= len <= digit_count(T::max_nat()),
    ensures
        r.0.as_nat() == bucket_lo(len as nat),
        r.1.as_nat() == bucket_hi(len as nat, T::max_nat()),
{
    let ghost max = T::max_nat();
    let ten = T::ten();
    proof {
        ten.lemma_range();
        lemma_digit_count_bounds(max);
        lemma_pow_is_pow10((len - 1) as nat);
        lemma_pow_is_pow10(len as nat);
        lemma_pow10_positive((len - 1) as nat);
        if len < digit_count(max) {
            lemma_pow10_increasing((len - 1) as nat, (digit_count(max) - 1) as nat);
        }
        assert(pow10(len as nat) == 10 * pow10((len - 1) as nat));
    }
    let lo = saturating_pow(ten, len - 1).sub(T::from_bool(len == 1));
    let hi = saturating_pow(ten, len).wrapping_add(T::one()).saturating_sub(T::one()).wrapping_sub(
        T::one(),
    );
    (lo, hi)
}

/// `x` has exactly `len` digits.
pub open spec fn in_bucket<T: Unsigned>(x: T, len: nat) -> bool {
    digit_count(x.as_nat()) == len
}

/// The `k`-th element lies in bucket `k % n + 1`.
pub open spec fn round_robin<T: Unsigned>(pre: Seq<T>, n: nat) -> bool {
    forall|k: int| 0 <= k < pre.len() ==> #[trigger] in_bucket(pre[k], (k % (n as int) + 1) as nat)
}

/// `count` values of bucket `len` in any order; where the dataset is unpredictable,
/// the mixed values too.
pub open spec fn bucket_filled<T: Unsigned>(
    v: Seq<T>,
    mixed: Seq<T>,
    count: nat,
    len: nat,
    unpredictable: bool,
) -> bool {
    if unpredictable {
        exists|own: Seq<T>|
            own.len() == count && (forall|j: int| 0 <= j < own.len() ==> #[trigger] in_bucket(own[j], len))
                && v.to_multiset() == (mixed + own).to_multiset()
    } else {
        v.len() == count && forall|j: int| 0 <= j < v.len() ==> #[trigger] in_bucket(v[j], len)
    }
}

/// `after` is `before` with `count` values of bucket `len` appended.
pub open spec fn grown_in_bucket<T: Unsigned>(before: Seq<T>, after: Seq<T>, count: nat, len: nat) -> bool {
    &&& after.len() == before.len() + count
    &&& after.take(before.len() as int) == before
    &&& forall|j: int| before.len() <= j < after.len() ==> #[trigger] in_bucket(after[j], len)
}

/// Appends `count` values drawn uniformly from bucket `len` to `vec`.
fn fill_bucket<T: Unsigned>(rng: &mut SmallRng, vec: &mut Vec<T>, count: usize, len: u32)
    requires
        1 <= len <= digit_count(T::max_nat()),
    ensures
        grown_in_bucket(old(vec)@, final(vec)@, count as nat, len as nat),
{
    let ghost max = T::max_nat();
    let ghost start = vec@;
    let (lo, hi) = bucket_bounds::<T>(len);
    proof {
        lemma_buckets_partition(max, len as nat);
    }
    let mut j: usize = 0;
    while j < count
        invariant
            max == T::max_nat(),
            1 <= len <= digit_count(max),
            lo.as_nat() == bucket_lo(len as nat),
            hi.as_nat() == bucket_hi(len as nat, max),
            lo.as_nat() <= hi.as_nat(),
            j <= count,
            vec@.len() == start.len() + j,
            vec@.take(start.len() as int) == start,
            forall|q: int| start.len() <= q < vec@.len() ==> #[trigger] in_bucket(vec@[q], len as nat),
        decreases count - j,
    {
        let x = T::sample_inclusive(rng, lo, hi);
        proof {
            lemma_in_bucket(max, len as nat, x.as_nat());
        }
        let ghost prev = vec@;
        vec.push(x);
        assert(vec@.take(start.len() as int) =~= prev.take(start.len() as int));
        j += 1;
    }
}

/// Appends to the `i`-th array `count` values drawn uniformly from the bucket of
/// values with `i + 1` digits.
pub fn fill<T: Unsigned>(rng: &mut SmallRng, data: &mut Vec<Vec<T>>, count: usize)
    requires
        old(data)@.len() == digit_count(T::max_nat()),
    ensures
        final(data)@.len() == old(data)@.len(),
        forall|i: int|
            0 <= i < old(data)@.len() ==> #[trigger] grown_in_bucket(
                old(data)@[i]@,
                final(data)@[i]@,
                count as nat,
                (i + 1) as nat,
            ),
{
    let n = T::max_digits();
    let mut i: usize = 0;
    while i < n as usize
        invariant
            n as nat == digit_count(T::max_nat()),
            data@.len() == n,
            old(data)@.len() == n,
            i <= n,
            forall|k: int|
                0 <= k < i ==> #[trigger] grown_in_bucket(
                    old(data)@[k]@,
                    data@[k]@,
                    count as nat,
                    (k + 1) as nat,
                ),
            forall|k: int| i <= k < n ==> data@[k] == old(data)@[k],
        decreases n - i,
    {
        let ghost before = data@;
        fill_bucket(rng, &mut data[i], count, i as u32 + 1);
        proof {
            assert forall|k: int| 0 <= k < n && k != i implies data@[k] == before[k] by {}
        }
        i += 1;
    }
}

/// The datasets of one width: one array per digit length, and the shared mixed array.
pub struct DataForType<T> {
    pub count: usize,
    pub mixed: Vec<T>,
    pub by_length: Vec<Vec<T>>,
    pub unpredictable: bool,
}

/// The datasets of the three widths.
pub struct Data {
    pub u32: DataForType<u32>,
    pub u64: DataForType<u64>,
    pub u128: DataForType<u128>,
}

impl<T: Unsigned> DataForType<T> {
    /// One array per digit length, each as `bucket_filled` says; in unpredictable
    /// mode a mixed array of `count` values, bucket by bucket in turn, in any order.
    pub open spec fn well_formed(self, count: nat, unpredictable: bool) -> bool {
        let n = digit_count(T::max_nat());
        &&& self.count == count
        &&& self.unpredictable == unpredictable
        &&& self.by_length@.len() == n
        &&& if unpredictable {
            exists|pre: Seq<T>|
                pre.len() == count && round_robin(pre, n) && #[trigger] pre.to_multiset()
                    == self.mixed@.to_multiset()
        } else {
            self.mixed@.len() == 0
        }
        &&& forall|i: int|
            0 <= i < n ==> #[trigger] bucket_filled(
                self.by_length@[i]@,
                self.mixed@,
                count,
                (i + 1) as nat,
                unpredictable,
            )
    }

    /// Draws `count` values uniformly from each digit-length bucket; in unpredictable
    /// mode, also `count` values from the buckets in turn, shuffled, and folds them
    /// into every bucket's array before shuffling that too.
    pub fn random(rng: &mut SmallRng, count: usize, unpredictable: bool) -> (r: Self)
        ensures
            r.well_formed(count as nat, unpredictable),
    {
        let n = T::max_digits();
        let ghost max = T::max_nat();
        proof {
            lemma_digit_count_bounds(max);
        }
        let mut mixed: Vec<T> = Vec::new();
        if unpredictable {
            let mut i: usize = 0;
            while i < count
                invariant
                    n as nat == digit_count(max),
                    max == T::max_nat(),
                    n >= 1,
                    i <= count,
                    mixed@.len() == i,
                    round_robin(mixed@, n as nat),
                decreases count - i,
            {
                let len = (i % n as usize) as u32 + 1;
                let (lo, hi) = bucket_bounds::<T>(len);
                proof {
                    lemma_buckets_partition(max, len as nat);
                }
                let x = T::sample_inclusive(rng, lo, hi);
                proof {
                    lemma_in_bucket(max, len as nat, x.as_nat());
                }
                mixed.push(x);
                proof {
                    assert forall|k: int| 0 <= k < mixed@.len() implies #[trigger] in_bucket(
                        mixed@[k],
                        (k % (n as int) + 1) as nat,
                    ) by {
                        if k < i {
                            assert(in_bucket(mixed@[k], (k % (n as int) + 1) as nat));
                        }
                    }
                }
                i += 1;
            }
            let ghost pre = mixed@;
            shuffle(&mut mixed, rng);
            assert(pre.len() == count && round_robin(pre, n as nat) && pre.to_multiset()
                == mixed@.to_multiset());
        }
        let mut by_length: Vec<Vec<T>> = Vec::new();
        let mut b: u32 = 0;
        while b < n
            invariant
                b <= n,
                by_length@.len() == b,
                forall|i: int| 0 <= i < b ==> #[trigger] by_length@[i]@ == mixed@,
            decreases n - b,
        {
            let mut vec: Vec<T> = Vec::new();
            let mut k: usize = 0;
            while k < mixed.len()
                invariant
                    k <= mixed@.len(),
                    vec@ == mixed@.take(k as int),
                decreases mixed@.len() - k,
            {
                vec.push(mixed[k]);
                k += 1;
                assert(vec@ =~= mixed@.take(k as int));
            }
            assert(mixed@.take(mixed@.len() as int) =~= mixed@);
            let ghost prev = by_length@;
            by_length.push(vec);
            assert forall|i: int| 0 <= i < b + 1 implies #[trigger] by_length@[i]@ == mixed@ by {
                if i < b {
                    assert(by_length@[i] == prev[i]);
                }
            }
            b += 1;
        }
        let ghost folded = by_length@;
        fill(rng, &mut by_length, count);
        proof {
            assert forall|i: int| 0 <= i < n implies #[trigger] grown_in_bucket(
                mixed@,
                by_length@[i]@,
                count as nat,
                (i + 1) as nat,
            ) by {
                assert(grown_in_bucket(folded[i]@, by_length@[i]@, count as nat, (i + 1) as nat));
                assert(folded[i]@ == mixed@);
            }
        }
        let mut b: usize = 0;
        while b < n as usize
            invariant
                n as nat == digit_count(max),
                b <= n,
                by_length@.len() == n,
                !unpredictable ==> mixed@.len() == 0,
                forall|i: int|
                    0 <= i < b ==> #[trigger] bucket_filled(
                        by_length@[i]@,
                        mixed@,
                        count as nat,
                        (i + 1) as nat,
                        unpredictable,
                    ),
                forall|i: int|
                    b <= i < n ==> #[trigger] grown_in_bucket(
                        mixed@,
                        by_length@[i]@,
                        count as nat,
                        (i + 1) as nat,
                    ),
            decreases n - b,
        {
            let ghost before = by_length@;
            let ghost v = before[b as int]@;
            let ghost own = v.skip(mixed@.len() as int);
            proof {
                assert(grown_in_bucket(mixed@, v, count as nat, (b + 1) as nat));
                assert(v =~= mixed@ + own);
                assert forall|q: int| 0 <= q < own.len() implies #[trigger] in_bucket(own[q], (b + 1) as nat) by {
                    assert(own[q] == v[mixed@.len() + q]);
                }
            }
            if unpredictable {
                shuffle(&mut by_length[b], rng);
            }
            proof {
                if unpredictable {
                    assert(own.len() == count && (forall|q: int| 0 <= q < own.len() ==> #[trigger] in_bucket(own[q], (b + 1) as nat))
                        && by_length@[b as int]@.to_multiset() == (mixed@ + own).to_multiset());
                } else {
                    assert(mixed@ + own =~= own);
                }
                assert(bucket_filled(by_length@[b as int]@, mixed@, count as nat, (b + 1) as nat, unpredictable));
                assert forall|i: int| 0 <= i < n && i != b implies by_length@[i] == before[i] by {}
            }
            b += 1;
        }
        DataForType { count, mixed, by_length, unpredictable }
    }
}

impl Data {
    /// The datasets of all three widths, drawn from one generator with a fixed seed.
    pub fn random(count: usize, unpredictable: bool) -> (r: Data)
        ensures
            r.u32.well_formed(count as nat, unpredictable),
            r.u64.well_formed(count as nat, unpredictable),
            r.u128.well_formed(count as nat, unpredictable),
    {
        let mut rng = seeded_rng(1);
        let u32 = DataForType::<u32>::random(&mut rng, count, unpredictable);
        let u64 = DataForType::<u64>::random(&mut rng, count, unpredictable);
        let u128 = DataForType::<u128>::random(&mut rng, count, unpredictable);
        Data { u32, u64, u128 }
    }
}

} // verus!
