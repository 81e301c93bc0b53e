//! Non-negative integers of any size, held as base-2^32 digits with the least
//! significant digit first. The arithmetic itself is done by `num_bigint`.
use num_bigint::BigUint;
use num_traits::Zero;
use vstd::prelude::*;

verus! {

/// The value of little-endian base-2^32 digits.
pub open spec fn digits_value(d: Seq<u32>) -> int
    decreases d.len(),
{
    if d.len() == 0 {
        0
    } else {
        d[0] as int + 4294967296 * digits_value(d.subrange(1, d.len() as int))
    }
}

/// A non-negative integer of unbounded size.
#[derive(Clone, Debug, PartialEq, Eq)]
pub struct Big {
    digits: Vec<u32>,
}

impl View for Big {
    type V = int;

    closed spec fn view(&self) -> int {
        digits_value(self.digits@)
    }
}

/// Relies on `BigUint::from(u64)` and `BigUint::to_u32_digits`: the digits of `v`.
#[verifier::external_body]
fn big_from_u64(v: u64) -> (r: Big)
    ensures
        r@ == v,
{
    Big { digits: BigUint::from(v).to_u32_digits() }
}

/// Relies on `BigUint + BigUint` (with `from_slice` and `to_u32_digits` to
/// convert): the sum.
#[verifier::external_body]
fn big_add(a: &Big, b: &Big) -> (r: Big)
    ensures
        r@ == a@ + b@,
{
    Big { digits: (BigUint::from_slice(&a.digits) + BigUint::from_slice(&b.digits)).to_u32_digits() }
}

/// Relies on `BigUint * u64` (with `from_slice` and `to_u32_digits` to
/// convert): the product.
#[verifier::external_body]
fn big_mul_u64(a: &Big, b: u64) -> (r: Big)
    ensures
        r@ == a@ * b,
{
    Big { digits: (BigUint::from_slice(&a.digits) * b).to_u32_digits() }
}

/// Relies on `BigUint % u64` and `Zero::is_zero` (with `from_slice` to
/// convert): whether `m` divides `a`.
#[verifier::external_body]
fn big_divisible_by(a: &Big, m: u64) -> (r: bool)
    requires
        m > 0,
    ensures
        r == (a@ % (m as int) == 0),
{
    (BigUint::from_slice(&a.digits) % m).is_zero()
}

impl Big {
    /// The integer `v`.
    pub fn from_u64(v: u64) -> (r: Big)
        ensures
            r@ == v,
    {
        big_from_u64(v)
    }

    /// `self + other`.
    pub fn add(&self, other: &Big) -> (r: Big)
        ensures
            r@ == self@ + other@,
    {
        big_add(self, other)
    }

    /// `self * m`.
    pub fn mul_u64(&self, m: u64) -> (r: Big)
        ensures
            r@ == self@ * m,
    {
        big_mul_u64(self, m)
    }

    /// Whether `(self + k) mod m == 0`.
    pub fn plus_is_multiple_of(&self, k: u64, m: u64) -> (r: bool)
        requires
            m > 0,
        ensures
            r == ((self@ + k) % (m as int) == 0),
    {
        let s = big_add(self, &big_from_u64(k));
        big_divisible_by(&s, m)
    }

    /// A copy of `self`.
    pub fn duplicate(&self) -> (r: Big)
        ensures
            r@ == self@,
    {
        let d = self.digits.clone();
        assert(d@ =~= self.digits@);
        Big { digits: d }
    }

    /// The base-2^32 digits, least significant first.
    pub fn to_u32_digits(&self) -> (r: Vec<u32>)
        ensures
            digits_value(r@) == self@,
    {
        let d = self.digits.clone();
        assert(d@ =~= self.digits@);
        d
    }
}

/// An endless arithmetic sequence `start, start + incr, start + 2 * incr, ...`,
/// handed out one value at a time.
pub struct BigIntGenerator {
    next: Big,
    incr: Big,
}

impl BigIntGenerator {
    /// The value that the next call of `next` hands out.
    pub closed spec fn upcoming(&self) -> int {
        self.next@
    }

    /// The step between two values.
    pub closed spec fn step(&self) -> int {
        self.incr@
    }

    /// A sequence that starts at `start` and steps by `incr`.
    pub fn new(start: Big, incr: Big) -> (r: BigIntGenerator)
        ensures
            r.upcoming() == start@,
            r.step() == incr@,
    {
        BigIntGenerator { next: start, incr }
    }

    /// Hands out the current value and moves on by one step.
    pub fn next(&mut self) -> (r: Big)
        ensures
            r@ == old(self).upcoming(),
            final(self).upcoming() == old(self).upcoming() + old(self).step(),
            final(self).step() == old(self).step(),
    {
        let cur = self.next.duplicate();
        self.next = big_add(&self.next, &self.incr);
        cur
    }
}

} // verus!
