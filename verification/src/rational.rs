//! Exact rational numbers, computed by `num-rational` on `num-bigint`
//! integers.
//!
//! A [`Rational`] holds its numerator and denominator as two's-complement
//! little-endian bytes, the form that `BigInt::to_signed_bytes_le` produces.
//! The arithmetic itself is done by `BigRational`; the contracts state each
//! result's value as a fraction of mathematical integers.
use vstd::prelude::*;

use num_bigint::BigInt;
use num_rational::BigRational;
use num_traits::{One, Zero};

verus! {

/// The integer that two's-complement little-endian bytes encode (zero for no
/// bytes).
pub open spec fn signed_le_value(b: Seq<u8>) -> int
    decreases b.len(),
{
    if b.len() == 0 {
        0
    } else if b.len() == 1 {
        if b[0] < 128 {
            b[0] as int
        } else {
            b[0] - 256
        }
    } else {
        b[0] + 256 * signed_le_value(b.drop_first())
    }
}

/// An exact rational number.
#[derive(Debug, PartialEq, Eq)]
pub struct Rational {
    numer: Vec<u8>,
    denom: Vec<u8>,
}

impl Rational {
    /// The numerator.
    pub closed spec fn num(&self) -> int {
        signed_le_value(self.numer@)
    }

    /// The denominator.
    pub closed spec fn den(&self) -> int {
        signed_le_value(self.denom@)
    }

    /// The value.
    pub open spec fn val(&self) -> real {
        self.num() as real / self.den() as real
    }

    /// The denominator is positive.
    pub open spec fn wf(&self) -> bool {
        self.den() > 0
    }

    /// Calls `BigRational::from_integer(BigInt::from(i))`: the integer `i`.
    #[verifier::external_body]
    fn big_from_i64(i: i64) -> (r: Rational)
        ensures
            r.wf(),
            r.val() == i as real,
    {
        let x = BigRational::from_integer(BigInt::from(i));
        Rational { numer: x.numer().to_signed_bytes_le(), denom: x.denom().to_signed_bytes_le() }
    }

    /// Calls `BigRational::from_integer(BigInt::from(i))`: the integer `i`.
    #[verifier::external_body]
    fn big_from_usize(i: usize) -> (r: Rational)
        ensures
            r.wf(),
            r.val() == i as real,
    {
        let x = BigRational::from_integer(BigInt::from(i));
        Rational { numer: x.numer().to_signed_bytes_le(), denom: x.denom().to_signed_bytes_le() }
    }

    /// Calls `BigRational::new(numer, denom)`, which reduces the fraction and
    /// panics on a zero denominator.
    #[verifier::external_body]
    fn big_new(numer: i64, denom: i64) -> (r: Rational)
        requires
            denom != 0,
        ensures
            r.wf(),
            r.val() == numer as real / denom as real,
    {
        let x = BigRational::new(BigInt::from(numer), BigInt::from(denom));
        Rational { numer: x.numer().to_signed_bytes_le(), denom: x.denom().to_signed_bytes_le() }
    }

    /// Calls `Add` of `BigRational` on the two values.
    #[verifier::external_body]
    fn big_add(&self, other: &Rational) -> (r: Rational)
        requires
            self.wf(),
            other.wf(),
        ensures
            r.wf(),
            r.val() == self.val() + other.val(),
    {
        let a = BigRational::new_raw(BigInt::from_signed_bytes_le(&self.numer), BigInt::from_signed_bytes_le(&self.denom));
        let b = BigRational::new_raw(BigInt::from_signed_bytes_le(&other.numer), BigInt::from_signed_bytes_le(&other.denom));
        let x = a + b;
        Rational { numer: x.numer().to_signed_bytes_le(), denom: x.denom().to_signed_bytes_le() }
    }

    /// Calls `Sub` of `BigRational` on the two values.
    #[verifier::external_body]
    fn big_sub(&self, other: &Rational) -> (r: Rational)
        requires
            self.wf(),
            other.wf(),
        ensures
            r.wf(),
            r.val() == self.val() - other.val(),
    {
        let a = BigRational::new_raw(BigInt::from_signed_bytes_le(&self.numer), BigInt::from_signed_bytes_le(&self.denom));
        let b = BigRational::new_raw(BigInt::from_signed_bytes_le(&other.numer), BigInt::from_signed_bytes_le(&other.denom));
        let x = a - b;
        Rational { numer: x.numer().to_signed_bytes_le(), denom: x.denom().to_signed_bytes_le() }
    }

    /// Calls `Mul` of `BigRational` on the two values.
    #[verifier::external_body]
    fn big_mul(&self, other: &Rational) -> (r: Rational)
        requires
            self.wf(),
            other.wf(),
        ensures
            r.wf(),
            r.val() == self.val() * other.val(),
    {
        let a = BigRational::new_raw(BigInt::from_signed_bytes_le(&self.numer), BigInt::from_signed_bytes_le(&self.denom));
        let b = BigRational::new_raw(BigInt::from_signed_bytes_le(&other.numer), BigInt::from_signed_bytes_le(&other.denom));
        let x = a * b;
        Rational { numer: x.numer().to_signed_bytes_le(), denom: x.denom().to_signed_bytes_le() }
    }

    /// Calls `Div` of `BigRational` on the two values; it panics on a zero
    /// divisor.
    #[verifier::external_body]
    fn big_div(&self, other: &Rational) -> (r: Rational)
        requires
            self.wf(),
            other.wf(),
            other.val() != 0real,
        ensures
            r.wf(),
            r.val() == self.val() / other.val(),
    {
        let a = BigRational::new_raw(BigInt::from_signed_bytes_le(&self.numer), BigInt::from_signed_bytes_le(&self.denom));
        let b = BigRational::new_raw(BigInt::from_signed_bytes_le(&other.numer), BigInt::from_signed_bytes_le(&other.denom));
        let x = a / b;
        Rational { numer: x.numer().to_signed_bytes_le(), denom: x.denom().to_signed_bytes_le() }
    }

    /// Calls `Neg` of `BigRational`.
    #[verifier::external_body]
    fn big_neg(&self) -> (r: Rational)
        requires
            self.wf(),
        ensures
            r.wf(),
            r.val() == -self.val(),
    {
        let a = BigRational::new_raw(BigInt::from_signed_bytes_le(&self.numer), BigInt::from_signed_bytes_le(&self.denom));
        let x = -a;
        Rational { numer: x.numer().to_signed_bytes_le(), denom: x.denom().to_signed_bytes_le() }
    }

    /// Calls `PartialEq::eq` of `BigRational`, which compares values.
    #[verifier::external_body]
    fn big_eq(&self, other: &Rational) -> (r: bool)
        requires
            self.wf(),
            other.wf(),
        ensures
            r == (self.val() == other.val()),
    {
        let a = BigRational::new_raw(BigInt::from_signed_bytes_le(&self.numer), BigInt::from_signed_bytes_le(&self.denom));
        let b = BigRational::new_raw(BigInt::from_signed_bytes_le(&other.numer), BigInt::from_signed_bytes_le(&other.denom));
        a == b
    }

    /// Calls `PartialOrd::lt` of `BigRational`, which compares values.
    #[verifier::external_body]
    fn big_lt(&self, other: &Rational) -> (r: bool)
        requires
            self.wf(),
            other.wf(),
        ensures
            r == (self.val() < other.val()),
    {
        let a = BigRational::new_raw(BigInt::from_signed_bytes_le(&self.numer), BigInt::from_signed_bytes_le(&self.denom));
        let b = BigRational::new_raw(BigInt::from_signed_bytes_le(&other.numer), BigInt::from_signed_bytes_le(&other.denom));
        a < b
    }

    /// Calls `Zero::is_zero` of `BigRational`.
    #[verifier::external_body]
    fn big_is_zero(&self) -> (r: bool)
        requires
            self.wf(),
        ensures
            r == (self.val() == 0real),
    {
        let a = BigRational::new_raw(BigInt::from_signed_bytes_le(&self.numer), BigInt::from_signed_bytes_le(&self.denom));
        a.is_zero()
    }

    /// Zero.
    pub fn zero() -> (r: Rational)
        ensures
            r.val() == 0real,
            r.wf(),
    {
        Self::big_from_i64(0)
    }

    /// One.
    pub fn one() -> (r: Rational)
        ensures
            r.val() == 1real,
            r.wf(),
    {
        Self::big_from_i64(1)
    }

    /// The integer `i`.
    pub fn from_integer(i: i64) -> (r: Rational)
        ensures
            r.wf(),
            r.val() == i as real,
    {
        Self::big_from_i64(i)
    }

    /// The integer `i`.
    pub fn from_count(i: usize) -> (r: Rational)
        ensures
            r.wf(),
            r.val() == i as real,
    {
        Self::big_from_usize(i)
    }

    /// The fraction `numer / denom`, in lowest terms.
    pub fn new(numer: i64, denom: i64) -> (r: Rational)
        requires
            denom != 0,
        ensures
            r.wf(),
            r.val() == numer as real / denom as real,
    {
        Self::big_new(numer, denom)
    }

    /// `self + other`.
    pub fn add(&self, other: &Rational) -> (r: Rational)
        requires
            self.wf(),
            other.wf(),
        ensures
            r.wf(),
            r.val() == self.val() + other.val(),
    {
        self.big_add(other)
    }

    /// `self - other`.
    pub fn sub(&self, other: &Rational) -> (r: Rational)
        requires
            self.wf(),
            other.wf(),
        ensures
            r.wf(),
            r.val() == self.val() - other.val(),
    {
        self.big_sub(other)
    }

    /// `self * other`.
    pub fn mul(&self, other: &Rational) -> (r: Rational)
        requires
            self.wf(),
            other.wf(),
        ensures
            r.wf(),
            r.val() == self.val() * other.val(),
    {
        self.big_mul(other)
    }

    /// `self / other`, for a non-zero `other`.
    pub fn div(&self, other: &Rational) -> (r: Rational)
        requires
            self.wf(),
            other.wf(),
            other.val() != 0real,
        ensures
            r.wf(),
            r.val() == self.val() / other.val(),
    {
        self.big_div(other)
    }

    /// `-self`.
    pub fn neg(&self) -> (r: Rational)
        requires
            self.wf(),
        ensures
            r.wf(),
            r.val() == -self.val(),
    {
        self.big_neg()
    }

    /// The two values are equal.
    pub fn equals(&self, other: &Rational) -> (r: bool)
        requires
            self.wf(),
            other.wf(),
        ensures
            r == (self.val() == other.val()),
    {
        self.big_eq(other)
    }

    /// `self < other`.
    pub fn less_than(&self, other: &Rational) -> (r: bool)
        requires
            self.wf(),
            other.wf(),
        ensures
            r == (self.val() < other.val()),
    {
        self.big_lt(other)
    }

    /// The value is zero.
    pub fn is_zero(&self) -> (r: bool)
        requires
            self.wf(),
        ensures
            r == (self.val() == 0real),
    {
        self.big_is_zero()
    }

    /// The value is at least zero.
    pub fn is_nonnegative(&self) -> (r: bool)
        requires
            self.wf(),
        ensures
            r == (self.val() >= 0real),
    {
        let z = Self::zero();
        !self.big_lt(&z)
    }

    /// The value is greater than zero.
    pub fn is_positive(&self) -> (r: bool)
        requires
            self.wf(),
        ensures
            r == (self.val() > 0real),
    {
        let z = Self::zero();
        z.big_lt(self)
    }

    /// The numerator, as two's-complement little-endian bytes.
    pub fn numer_bytes(&self) -> (r: &[u8])
        ensures
            signed_le_value(r@) == self.num(),
    {
        self.numer.as_slice()
    }

    /// The denominator, as two's-complement little-endian bytes.
    pub fn denom_bytes(&self) -> (r: &[u8])
        ensures
            signed_le_value(r@) == self.den(),
    {
        self.denom.as_slice()
    }
}

impl Clone for Rational {
    fn clone(&self) -> (r: Rational)
        ensures
            r.val() == self.val(),
            r.wf() == self.wf(),
    {
        Rational { numer: copy_bytes(&self.numer), denom: copy_bytes(&self.denom) }
    }
}

/// A copy of a byte vector.
fn copy_bytes(b: &Vec<u8>) -> (r: Vec<u8>)
    ensures
        r@ == b@,
{
    let mut r: Vec<u8> = Vec::new();
    let mut k: usize = 0;
    while k < b.len()
        invariant
            k <= b@.len(),
            r@ == b@.take(k as int),
        decreases b@.len() - k,
    {
        r.push(b[k]);
        k += 1;
        assert(r@ =~= b@.take(k as int));
    }
    assert(b@.take(b@.len() as int) =~= b@);
    r
}

} // verus!
