//! Symbolic multipliers of the terms of a linear combination.

use crate::field::{modulus, neg_mod, Fe};
use vstd::prelude::*;

verus! {

/// A scalar that multiplies a wire in a linear combination.
///
/// The common constants have tags of their own, so that they can be
/// recognised without looking at a field element.
#[derive(Clone, Copy, Debug)]
pub enum Coeff {
    /// The additive identity.
    Zero,
    /// The multiplicative identity.
    One,
    /// One plus one.
    Two,
    /// The additive inverse of one.
    NegativeOne,
    /// The given field element.
    Arbitrary(Fe),
    /// The additive inverse of the given field element.
    NegativeArbitrary(Fe),
}

impl Coeff {
    /// Every field element inside is canonical.
    pub open spec fn wf(&self) -> bool {
        match *self {
            Coeff::Arbitrary(v) => v.wf(),
            Coeff::NegativeArbitrary(v) => v.wf(),
            _ => true,
        }
    }

    /// The integer below the modulus that this coefficient stands for.
    pub open spec fn val(&self) -> nat {
        match *self {
            Coeff::Zero => 0,
            Coeff::One => 1,
            Coeff::Two => 2,
            Coeff::NegativeOne => neg_mod(1),
            Coeff::Arbitrary(v) => v@,
            Coeff::NegativeArbitrary(v) => neg_mod(v@),
        }
    }

    /// Whether every field element inside is canonical.
    pub fn is_canonical(&self) -> (r: bool)
        ensures
            r == self.wf(),
    {
        match *self {
            Coeff::Arbitrary(v) => v.is_canonical(),
            Coeff::NegativeArbitrary(v) => v.is_canonical(),
            _ => true,
        }
    }

    /// The field element that this coefficient stands for.
    pub fn value(&self) -> (r: Fe)
        requires
            self.wf(),
        ensures
            r.wf(),
            r@ == self.val(),
    {
        match *self {
            Coeff::Zero => Fe::zero(),
            Coeff::One => Fe::one(),
            Coeff::Two => Fe::from_u64(2),
            Coeff::NegativeOne => Fe::one().neg(),
            Coeff::Arbitrary(v) => v,
            Coeff::NegativeArbitrary(v) => v.neg(),
        }
    }

    /// Whether this coefficient stands for zero.
    pub fn is_zero(&self) -> (r: bool)
        requires
            self.wf(),
        ensures
            r == (self.val() == 0),
    {
        match *self {
            Coeff::Zero => true,
            Coeff::Arbitrary(v) => v.is_zero(),
            _ => self.value().is_zero(),
        }
    }

    /// The product of two coefficients.
    ///
    /// Multiplying by `Zero` gives `Zero` and multiplying by `One` gives the
    /// other factor back, tag and all; every other product is computed in the
    /// field.
    pub fn mul(&self, rhs: &Coeff) -> (r: Coeff)
        requires
            self.wf(),
            rhs.wf(),
        ensures
            r.wf(),
            r.val() == (self.val() * rhs.val()) % modulus(),
            (*self is Zero || *rhs is Zero) ==> r is Zero,
            *self is One ==> r == *rhs,
            (*rhs is One && !(*self is Zero)) ==> r == *self,
    {
        proof {
            crate::field::lemma_modulus_large();
            lemma_val_canonical(*self);
            lemma_val_canonical(*rhs);
            assert(1 * rhs.val() == rhs.val());
            assert(self.val() * 1 == self.val());
            assert(0 * rhs.val() == 0);
            assert(self.val() * 0 == 0);
            vstd::arithmetic::div_mod::lemma_small_mod(rhs.val(), modulus());
            vstd::arithmetic::div_mod::lemma_small_mod(self.val(), modulus());
        }
        match (*self, *rhs) {
            (Coeff::Zero, _) => Coeff::Zero,
            (_, Coeff::Zero) => Coeff::Zero,
            (Coeff::One, other) => other,
            (other, Coeff::One) => other,
            (a, b) => Coeff::Arbitrary(a.value().mul(&b.value())),
        }
    }

    /// The sum of two coefficients.
    ///
    /// Adding `Zero` gives the other summand back, tag and all; every other
    /// sum is computed in the field.
    pub fn add(&self, rhs: &Coeff) -> (r: Coeff)
        requires
            self.wf(),
            rhs.wf(),
        ensures
            r.wf(),
            r.val() == (self.val() + rhs.val()) % modulus(),
            *self is Zero ==> r == *rhs,
            (*rhs is Zero && !(*self is Zero)) ==> r == *self,
    {
        proof {
            lemma_val_canonical(*self);
            lemma_val_canonical(*rhs);
            vstd::arithmetic::div_mod::lemma_small_mod(rhs.val(), modulus());
            vstd::arithmetic::div_mod::lemma_small_mod(self.val(), modulus());
        }
        match (*self, *rhs) {
            (Coeff::Zero, other) => other,
            (other, Coeff::Zero) => other,
            (a, b) => Coeff::Arbitrary(a.value().add(&b.value())),
        }
    }
}

/// A well-formed coefficient stands for an integer below the modulus.
pub proof fn lemma_val_canonical(c: Coeff)
    requires
        c.wf(),
    ensures
        c.val() < modulus(),
{
    crate::field::lemma_modulus_large();
    let p = modulus() as int;
    assert(forall|a: nat| #[trigger] neg_mod(a) < modulus()) by {
        assert forall|a: nat| #[trigger] neg_mod(a) < modulus() by {
            vstd::arithmetic::div_mod::lemma_mod_bound(p - (a % modulus()) as int, p);
        }
    }
}

} // verus!
