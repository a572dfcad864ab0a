use vstd::prelude::*;
use vstd::arithmetic::power::{lemma_pow_increases, pow};
use rand::rngs::SmallRng;
use crate::decimal::{digit_count, lemma_digit_count_exact, lemma_pow10_values};

verus! {

/// Relies on the type `rand::rngs::SmallRng`: a seeded pseudorandom generator,
/// carried through unopened.
#[verifier::external_type_specification]
#[verifier::external_body]
pub struct ExSmallRng(SmallRng);

/// Relies on `rand::distr::Uniform::new_inclusive` and `Distribution::sample` for
/// `u32`: a value in `[lo, hi]`, which `new_inclusive` accepts whenever `lo <= hi`.
#[verifier::external_body]
fn sample_u32(rng: &mut SmallRng, lo: u32, hi: u32) -> (r: u32)
    requires
        lo <= hi,
    ensures
        lo <= r <= hi,
{
    rand::distr::Distribution::sample(&rand::distr::Uniform::new_inclusive(lo, hi).unwrap(), rng)
}

/// Relies on `rand::distr::Uniform::new_inclusive` and `Distribution::sample` for
/// `u64`: a value in `[lo, hi]`, which `new_inclusive` accepts whenever `lo <= hi`.
#[verifier::external_body]
fn sample_u64(rng: &mut SmallRng, lo: u64, hi: u64) -> (r: u64)
    requires
        lo <= hi,
    ensures
        lo <= r <= hi,
{
    rand::distr::Distribution::sample(&rand::distr::Uniform::new_inclusive(lo, hi).unwrap(), rng)
}

/// Relies on `rand::distr::Uniform::new_inclusive` and `Distribution::sample` for
/// `u128`: a value in `[lo, hi]`, which `new_inclusive` accepts whenever `lo <= hi`.
#[verifier::external_body]
fn sample_u128(rng: &mut SmallRng, lo: u128, hi: u128) -> (r: u128)
    requires
        lo <= hi,
    ensures
        lo <= r <= hi,
{
    rand::distr::Distribution::sample(&rand::distr::Uniform::new_inclusive(lo, hi).unwrap(), rng)
}

/// What the dataset generator needs of an unsigned integer width.
pub trait Unsigned: Sized + Copy {
    /// The value as a natural number.
    spec fn as_nat(self) -> nat;

    /// The largest value of the width.
    spec fn max_nat() -> nat;

    /// Every value is at most the largest, and the largest is odd and at least 9.
    proof fn lemma_range(self)
        ensures
            self.as_nat() <= Self::max_nat(),
            Self::max_nat() % 2 == 1,
            Self::max_nat() >= 9,
    ;

    fn one() -> (r: Self)
        ensures
            r.as_nat() == 1,
    ;

    fn ten() -> (r: Self)
        ensures
            r.as_nat() == 10,
    ;

    fn max_value() -> (r: Self)
        ensures
            r.as_nat() == Self::max_nat(),
    ;

    /// The number of decimal digits of the largest value.
    fn max_digits() -> (r: u32)
        ensures
            r as nat == digit_count(Self::max_nat()),
    ;

    /// One for `true`, zero for `false`.
    fn from_bool(b: bool) -> (r: Self)
        ensures
            r.as_nat() == (if b {
                1nat
            } else {
                0nat
            }),
    ;

    /// The product, or nothing where it does not fit.
    fn checked_mul(self, rhs: Self) -> (r: Option<Self>)
        ensures
            r matches Some(x) ==> x.as_nat() == self.as_nat() * rhs.as_nat(),
            r is None ==> self.as_nat() * rhs.as_nat() > Self::max_nat(),
    ;

    /// The sum, wrapping past the largest value to zero.
    fn wrapping_add(self, rhs: Self) -> (r: Self)
        ensures
            r.as_nat() == (if self.as_nat() + rhs.as_nat() > Self::max_nat() {
                self.as_nat() + rhs.as_nat() - Self::max_nat() - 1
            } else {
                self.as_nat() + rhs.as_nat() as int
            }),
    ;

    /// The difference, wrapping below zero to the largest value.
    fn wrapping_sub(self, rhs: Self) -> (r: Self)
        ensures
            r.as_nat() == (if self.as_nat() < rhs.as_nat() {
                self.as_nat() - rhs.as_nat() + Self::max_nat() + 1
            } else {
                self.as_nat() - rhs.as_nat() as int
            }),
    ;

    /// The difference, or zero where it would be negative.
    fn saturating_sub(self, rhs: Self) -> (r: Self)
        ensures
            r.as_nat() == (if self.as_nat() >= rhs.as_nat() {
                self.as_nat() - rhs.as_nat()
            } else {
                0
            }),
    ;

    /// The difference, where it is not negative.
    fn sub(self, rhs: Self) -> (r: Self)
        requires
            self.as_nat() >= rhs.as_nat(),
        ensures
            r.as_nat() == self.as_nat() - rhs.as_nat(),
    ;

    /// A value drawn from `[lo, hi]`.
    fn sample_inclusive(rng: &mut SmallRng, lo: Self, hi: Self) -> (r: Self)
        requires
            lo.as_nat() <= hi.as_nat(),
        ensures
            lo.as_nat() <= r.as_nat() <= hi.as_nat(),
    ;
}

/// `x`, or `max` where `x` is larger.
pub open spec fn saturate(x: int, max: nat) -> nat {
    if x > max {
        max
    } else if x < 0 {
        0
    } else {
        x as nat
    }
}

/// `base` to the power `exp`, or the largest value where that does not fit: by
/// repeated checked multiplication, stopping on the first overflow.
pub fn saturating_pow<T: Unsigned>(base: T, exp: u32) -> (r: T)
    ensures
        r.as_nat() == saturate(pow(base.as_nat() as int, exp as nat), T::max_nat()),
{
    let mut acc = T::one();
    let mut i: u32 = 0;
    proof {
        assert(pow(base.as_nat() as int, 0) == 1) by {
            reveal(pow);
        }
        acc.lemma_range();
    }
    while i < exp
        invariant
            i <= exp,
            acc.as_nat() == pow(base.as_nat() as int, i as nat),
            acc.as_nat() <= T::max_nat(),
        decreases exp - i,
    {
        let next = acc.checked_mul(base);
        proof {
            reveal(pow);
            assert(pow(base.as_nat() as int, (i + 1) as nat) == base.as_nat() * pow(
                base.as_nat() as int,
                i as nat,
            ));
            vstd::arithmetic::mul::lemma_mul_is_commutative(base.as_nat() as int, acc.as_nat() as int);
        }
        match next {
            Some(x) => {
                acc = x;
                proof {
                    x.lemma_range();
                }
            },
            None => {
                proof {
                    if base.as_nat() == 0 {
                        assert(acc.as_nat() * base.as_nat() == 0) by (nonlinear_arith)
                            requires
                                base.as_nat() == 0,
                        ;
                    }
                    lemma_pow_increases(base.as_nat(), (i + 1) as nat, exp as nat);
                }
                return T::max_value();
            },
        }
        i += 1;
    }
    acc
}

impl Unsigned for u32 {
    open spec fn as_nat(self) -> nat {
        self as nat
    }

    open spec fn max_nat() -> nat {
        u32::MAX as nat
    }

    proof fn lemma_range(self) {
    }

    fn one() -> (r: Self) {
        1
    }

    fn ten() -> (r: Self) {
        10
    }

    fn max_value() -> (r: Self) {
        u32::MAX
    }

    fn max_digits() -> (r: u32) {
        proof {
            lemma_pow10_values();
            lemma_digit_count_exact(u32::MAX as nat, 10);
        }
        10
    }

    fn from_bool(b: bool) -> (r: Self) {
        if b {
            1
        } else {
            0
        }
    }

    fn checked_mul(self, rhs: Self) -> (r: Option<Self>) {
        u32::checked_mul(self, rhs)
    }

    fn wrapping_add(self, rhs: Self) -> (r: Self) {
        u32::wrapping_add(self, rhs)
    }

    fn wrapping_sub(self, rhs: Self) -> (r: Self) {
        u32::wrapping_sub(self, rhs)
    }

    fn saturating_sub(self, rhs: Self) -> (r: Self) {
        u32::saturating_sub(self, rhs)
    }

    fn sub(self, rhs: Self) -> (r: Self) {
        self - rhs
    }

    fn sample_inclusive(rng: &mut SmallRng, lo: Self, hi: Self) -> (r: Self) {
        sample_u32(rng, lo, hi)
    }
}

impl Unsigned for u64 {
    open spec fn as_nat(self) -> nat {
        self as nat
    }

    open spec fn max_nat() -> nat {
        u64::MAX as nat
    }

    proof fn lemma_range(self) {
    }

    fn one() -> (r: Self) {
        1
    }

    fn ten() -> (r: Self) {
        10
    }

    fn max_value() -> (r: Self) {
        u64::MAX
    }

    fn max_digits() -> (r: u32) {
        proof {
            lemma_pow10_values();
            lemma_digit_count_exact(u64::MAX as nat, 20);
        }
        20
    }

    fn from_bool(b: bool) -> (r: Self) {
        if b {
            1
        } else {
            0
        }
    }

    fn checked_mul(self, rhs: Self) -> (r: Option<Self>) {
        u64::checked_mul(self, rhs)
    }

    fn wrapping_add(self, rhs: Self) -> (r: Self) {
        u64::wrapping_add(self, rhs)
    }

    fn wrapping_sub(self, rhs: Self) -> (r: Self) {
        u64::wrapping_sub(self, rhs)
    }

    fn saturating_sub(self, rhs: Self) -> (r: Self) {
        u64::saturating_sub(self, rhs)
    }

    fn sub(self, rhs: Self) -> (r: Self) {
        self - rhs
    }

    fn sample_inclusive(rng: &mut SmallRng, lo: Self, hi: Self) -> (r: Self) {
        sample_u64(rng, lo, hi)
    }
}

impl Unsigned for u128 {
    open spec fn as_nat(self) -> nat {
        self as nat
    }

    open spec fn max_nat() -> nat {
        u128::MAX as nat
    }

    proof fn lemma_range(self) {
    }

    fn one() -> (r: Self) {
        1
    }

    fn ten() -> (r: Self) {
        10
    }

    fn max_value() -> (r: Self) {
        u128::MAX
    }

    fn max_digits() -> (r: u32) {
        proof {
            lemma_pow10_values();
            lemma_digit_count_exact(u128::MAX as nat, 39);
        }
        39
    }

    fn from_bool(b: bool) -> (r: Self) {
        if b {
            1
        } else {
            0
        }
    }

    fn checked_mul(self, rhs: Self) -> (r: Option<Self>) {
        u128::checked_mul(self, rhs)
    }

    fn wrapping_add(self, rhs: Self) -> (r: Self) {
        u128::wrapping_add(self, rhs)
    }

    fn wrapping_sub(self, rhs: Self) -> (r: Self) {
        u128::wrapping_sub(self, rhs)
    }

    fn saturating_sub(self, rhs: Self) -> (r: Self) {
        u128::saturating_sub(self, rhs)
    }

    fn sub(self, rhs: Self) -> (r: Self) {
        self - rhs
    }

    fn sample_inclusive(rng: &mut SmallRng, lo: Self, hi: Self) -> (r: Self) {
        sample_u128(rng, lo, hi)
    }
}

} // verus!
