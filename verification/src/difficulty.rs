//! Proof-of-work amounts of arbitrary size, held as base-2^32 digits and computed with
//! `num_bigint`.
use num_bigint::BigUint;
use vstd::prelude::*;

verus! {

/// Value of little-endian base-2^32 digits.
pub open spec fn digits_value(s: Seq<u32>) -> nat
    decreases s.len(),
{
    if s.len() == 0 {
        0
    } else {
        s[0] as nat + 4294967296 * digits_value(s.drop_first())
    }
}

/// `num_bigint`: `BigUint::from(a) * BigUint::from(b)`, read back with `to_u32_digits`.
/// Claimed: the digits (least significant first) have the value `a * b`.
#[verifier::external_body]
fn biguint_mul(a: u128, b: u64) -> (r: Vec<u32>)
    ensures
        digits_value(r@) == a as nat * b as nat,
{
    (BigUint::from(a) * BigUint::from(b)).to_u32_digits()
}

/// `num_bigint`: `BigUint + BigUint` on numbers built with `BigUint::from_slice`.
/// Claimed: the digits of the sum have the value of the sum of the two values.
#[verifier::external_body]
fn biguint_add(a: &Vec<u32>, b: &Vec<u32>) -> (r: Vec<u32>)
    ensures
        digits_value(r@) == digits_value(a@) + digits_value(b@),
{
    (BigUint::from_slice(a) + BigUint::from_slice(b)).to_u32_digits()
}

/// `num_bigint`: `<` on numbers built with `BigUint::from_slice`.
/// Claimed: true exactly when the first value is below the second.
#[verifier::external_body]
fn biguint_lt(a: &Vec<u32>, b: &Vec<u32>) -> (r: bool)
    ensures
        r == (digits_value(a@) < digits_value(b@)),
{
    BigUint::from_slice(a) < BigUint::from_slice(b)
}

/// An amount of proof-of-work (a non-negative integer of any size).
pub struct Work {
    digits: Vec<u32>,
}

impl View for Work {
    type V = nat;

    closed spec fn view(&self) -> nat {
        digits_value(self.digits@)
    }
}

impl Clone for Work {
    fn clone(&self) -> (r: Self)
        ensures
            r@ == self@,
    {
        let d = self.digits.clone();
        assert(d@ =~= self.digits@);
        Work { digits: d }
    }
}

impl Work {
    /// Zero work.
    pub fn zero() -> (r: Work)
        ensures
            r@ == 0,
    {
        Work { digits: Vec::new() }
    }

    /// The work `v`.
    pub fn from_u64(v: u64) -> (r: Work)
        ensures
            r@ == v,
    {
        let lo: u32 = (v % 4294967296) as u32;
        let hi: u32 = (v / 4294967296) as u32;
        let mut digits: Vec<u32> = Vec::new();
        digits.push(lo);
        digits.push(hi);
        proof {
            let s = digits@;
            let t = s.drop_first();
            assert(t.drop_first() =~= Seq::<u32>::empty());
            assert(digits_value(t.drop_first()) == 0);
            assert(t[0] == hi);
            assert(digits_value(t) == hi as nat);
            assert(s[0] == lo);
        }
        Work { digits }
    }

    /// The work whose base-2^32 digits, least significant first, are `digits`.
    pub fn from_digits(digits: Vec<u32>) -> (r: Work)
        ensures
            r@ == digits_value(digits@),
    {
        Work { digits }
    }

    /// Base-2^32 digits of this amount, least significant first.
    pub fn to_digits(&self) -> (r: Vec<u32>)
        ensures
            digits_value(r@) == self@,
    {
        let d = self.digits.clone();
        assert(d@ =~= self.digits@);
        d
    }

    /// `self + other`.
    pub fn add(&self, other: &Work) -> (r: Work)
        ensures
            r@ == self@ + other@,
    {
        Work { digits: biguint_add(&self.digits, &other.digits) }
    }

    /// `self < other`.
    pub fn lt(&self, other: &Work) -> (r: bool)
        ensures
            r == (self@ < other@),
    {
        biguint_lt(&self.digits, &other.digits)
    }

    /// `self * other` for a 128-bit and a 64-bit factor.
    pub fn product(a: u128, b: u64) -> (r: Work)
        ensures
            r@ == a as nat * b as nat,
    {
        Work { digits: biguint_mul(a, b) }
    }
}

} // verus!
