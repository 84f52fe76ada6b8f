//! Wires as evaluated monomials.
//!
//! Where the wiring polynomial is evaluated at a fixed first argument, a
//! wire is no index but the value of its monomial, and a linear
//! combination of wires is computed on the spot.

use crate::coeff::Coeff;
use crate::field::{modulus, Fe};
use vstd::prelude::*;

verus! {

/// The evaluated monomial of a wire.
#[derive(Clone, Copy, Debug)]
pub enum WireEval {
    /// The value of the monomial.
    Value(Fe),
    /// The constant wire. Its monomial depends on the evaluation point, so
    /// its value is looked up where it is used.
    One,
}

impl WireEval {
    /// The field element inside, if there is one, is canonical.
    pub open spec fn wf(&self) -> bool {
        match *self {
            WireEval::Value(v) => v.wf(),
            WireEval::One => true,
        }
    }

    /// The value of the wire, where `one` is the value of the constant
    /// wire.
    pub open spec fn val(&self, one: nat) -> nat {
        match *self {
            WireEval::Value(v) => v@,
            WireEval::One => one,
        }
    }
}

/// A linear combination of evaluated wires, computed as its terms come.
#[derive(Clone, Copy, Debug)]
pub struct WireEvalSum {
    /// The sum so far.
    pub value: Fe,
    /// The value of the constant wire.
    pub one: Fe,
    /// The gain that multiplies the coefficients of the terms to come.
    pub gain: Coeff,
}

impl WireEvalSum {
    /// The field elements inside are canonical.
    pub open spec fn wf(&self) -> bool {
        self.value.wf() && self.one.wf() && self.gain.wf()
    }

    /// The empty sum, where `one` is the value of the constant wire.
    pub fn new(one: Fe) -> (r: WireEvalSum)
        requires
            one.wf(),
        ensures
            r.wf(),
            r.value@ == 0,
            r.one == one,
            r.gain is One,
    {
        WireEvalSum { value: Fe::zero(), one, gain: Coeff::One }
    }

    /// Adds the value of a wire, multiplied by the coefficient and by the
    /// gain.
    pub fn add_term(self, wire_eval: &WireEval, coeff: Coeff) -> (r: WireEvalSum)
        requires
            self.wf(),
            wire_eval.wf(),
            coeff.wf(),
        ensures
            r.wf(),
            r.one == self.one,
            r.gain == self.gain,
            r.value@ == (self.value@ + (wire_eval.val(self.one@) * ((coeff.val()
                * self.gain.val()) % modulus())) % modulus()) % modulus(),
    {
        let wire = match wire_eval {
            WireEval::Value(v) => *v,
            WireEval::One => self.one,
        };
        let scaled = wire.mul(&coeff.mul(&self.gain).value());
        WireEvalSum { value: self.value.add(&scaled), one: self.one, gain: self.gain }
    }

    /// Multiplies the gain that the terms to come are subject to.
    pub fn gain(self, coeff: Coeff) -> (r: WireEvalSum)
        requires
            self.wf(),
            coeff.wf(),
        ensures
            r.wf(),
            r.value == self.value,
            r.one == self.one,
            r.gain.val() == (self.gain.val() * coeff.val()) % modulus(),
    {
        WireEvalSum { value: self.value, one: self.one, gain: self.gain.mul(&coeff) }
    }
}

} // verus!
