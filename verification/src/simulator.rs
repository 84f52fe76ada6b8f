//! A driver that counts and checks.
//!
//! The [`Simulator`] gives every wire its value, counts the gates and the
//! constraints that a circuit asks for, and takes note of whether every
//! gate and every constraint holds of the values.

use crate::coeff::Coeff;
use crate::driver::{lc_gain, lc_sum, lemma_lc_sum_related, Driver, Resources, Step};
use crate::emulator::DirectSum;
use crate::error::Error;
use crate::field::Fe;
use vstd::prelude::*;

verus! {

/// A driver that counts gates and constraints and checks them against the
/// values of the wires.
#[derive(Debug)]
pub struct Simulator {
    /// The number of gates so far.
    pub multiplications: usize,
    /// The number of constraints so far.
    pub linear_constraints: usize,
    /// Whether every gate and every constraint so far holds.
    pub satisfied: bool,
}

/// The value of the linear combination that the steps build.
pub fn evaluate(lc: &Vec<Step<Fe>>) -> (r: Fe)
    requires
        forall|k: int|
            0 <= k < lc@.len() ==> (#[trigger] lc@[k]).wf() && (lc@[k] matches Step::Term(w, _)
                ==> w.wf()),
    ensures
        r.wf(),
        r@ == lc_sum(lc@, |w: Fe| w@),
{
    let ghost val = |w: Fe| w@;
    let mut acc = DirectSum::new();
    let mut k: usize = 0;
    proof {
        assert(lc@.take(0) =~= Seq::<Step<Fe>>::empty());
    }
    while k < lc.len()
        invariant
            0 <= k <= lc@.len(),
            acc.wf(),
            val == |w: Fe| w@,
            forall|j: int|
                0 <= j < lc@.len() ==> (#[trigger] lc@[j]).wf() && (lc@[j] matches Step::Term(w, _)
                    ==> w.wf()),
            acc.value@ == lc_sum(lc@.take(k as int), val),
            acc.gain.val() == lc_gain(lc@.take(k as int)),
        decreases lc@.len() - k,
    {
        proof {
            assert(lc@.take(k as int + 1).drop_last() =~= lc@.take(k as int));
            assert(lc@.take(k as int + 1).last() == lc@[k as int]);
            assert(lc@[k as int].wf());
        }
        match lc[k] {
            Step::Term(w, c) => {
                acc = acc.add_term(&w, c);
            },
            Step::Gain(c) => {
                acc = acc.gain(c);
            },
        }
        k += 1;
    }
    proof {
        assert(lc@.take(k as int) =~= lc@);
    }
    acc.value
}

impl Driver for Simulator {
    type Wire = Fe;

    open spec fn wf(&self) -> bool {
        true
    }

    open spec fn usage(&self) -> Resources {
        Resources {
            gates: self.multiplications as nat,
            gate_limit: Some(usize::MAX),
            constraints: self.linear_constraints as nat,
            constraint_limit: Some(usize::MAX),
            pairing: false,
            paired: false,
        }
    }

    open spec fn valid(&self, wire: Fe) -> bool {
        wire.wf()
    }

    open spec fn tracks(&self) -> bool {
        true
    }

    open spec fn predicts(&self) -> bool {
        false
    }

    open spec fn spare(&self) -> Option<Fe> {
        None
    }

    /// One more gate is counted, and the wire is the value.
    open spec fn allocates(before: Simulator, value: Coeff, after: Simulator, r: Result<Fe, Error>) -> bool {
        if before.multiplications == usize::MAX {
            after == before && r == Err::<Fe, Error>(Error::MultiplicationBoundExceeded(usize::MAX))
        } else {
            &&& after == (Simulator { multiplications: (before.multiplications + 1) as usize, ..before })
            &&& r matches Ok(v)
            &&& v.wf()
            &&& v@ == value.val()
        }
    }

    open spec fn value_of(wire: Fe) -> nat {
        wire@
    }

    fn one(&self) -> (wire: Fe) {
        Fe::one()
    }

    /// A single wire takes a gate of its own.
    fn allocate(&mut self, value: Coeff) -> (r: Result<Fe, Error>)
        ensures
            final(self).satisfied == old(self).satisfied,
            final(self).linear_constraints == old(self).linear_constraints,
    {
        if self.multiplications == usize::MAX {
            return Err(Error::MultiplicationBoundExceeded(usize::MAX));
        }
        self.multiplications += 1;
        Ok(value.value())
    }

    /// A gate holds if the third value is the product of the other two.
    fn mul(&mut self, a: Coeff, b: Coeff, c: Coeff) -> (r: Result<(Fe, Fe, Fe), Error>)
        ensures
            r is Ok ==> final(self).satisfied == (old(self).satisfied && (a.val() * b.val())
                % crate::field::modulus() == c.val()),
            final(self).linear_constraints == old(self).linear_constraints,
    {
        if self.multiplications == usize::MAX {
            return Err(Error::MultiplicationBoundExceeded(usize::MAX));
        }
        self.multiplications += 1;
        let left = a.value();
        let right = b.value();
        let output = c.value();
        if !left.mul(&right).equals(&output) {
            self.satisfied = false;
        }
        Ok((left, right, output))
    }

    fn add(&mut self, lc: &Vec<Step<Fe>>) -> (wire: Fe)
        ensures
            *final(self) == *old(self),
    {
        let sum = evaluate(lc);
        proof {
            lemma_lc_sum_related(lc@, lc@, |w: Fe| w@, |w: Fe| Self::value_of(w));
        }
        sum
    }

    /// The constraint holds if the linear combination is zero.
    fn enforce_zero(&mut self, lc: &Vec<Step<Fe>>) -> (r: Result<(), Error>)
        ensures
            r is Ok ==> final(self).satisfied == (old(self).satisfied && lc_sum(
                lc@,
                |w: Fe| w@,
            ) == 0),
            final(self).multiplications == old(self).multiplications,
    {
        if self.linear_constraints == usize::MAX {
            return Err(Error::LinearBoundExceeded(usize::MAX));
        }
        self.linear_constraints += 1;
        if !evaluate(lc).is_zero() {
            self.satisfied = false;
        }
        Ok(())
    }

    fn predicting(&self) -> (r: bool) {
        false
    }

    fn suspend(&mut self) -> (saved: Option<Fe>)
        ensures
            *final(self) == *old(self),
    {
        None
    }

    fn resume(&mut self, saved: Option<Fe>)
        ensures
            *final(self) == *old(self),
    {
    }
}

impl Simulator {
    /// A simulator that has seen nothing.
    pub fn new() -> (r: Simulator)
        ensures
            r.multiplications == 0,
            r.linear_constraints == 0,
            r.satisfied,
    {
        Simulator { multiplications: 0, linear_constraints: 0, satisfied: true }
    }

    /// Starts the counts again at zero.
    pub fn reset(&mut self)
        ensures
            final(self).multiplications == 0,
            final(self).linear_constraints == 0,
            final(self).satisfied == old(self).satisfied,
    {
        self.multiplications = 0;
        self.linear_constraints = 0;
    }

    /// The number of gates since the counts were started.
    pub fn num_multiplications(&self) -> (r: usize)
        ensures
            r == self.multiplications,
    {
        self.multiplications
    }

    /// The number of constraints since the counts were started.
    pub fn num_linear_constraints(&self) -> (r: usize)
        ensures
            r == self.linear_constraints,
    {
        self.linear_constraints
    }

    /// Whether every gate and every constraint so far holds.
    pub fn is_satisfied(&self) -> (r: bool)
        ensures
            r == self.satisfied,
    {
        self.satisfied
    }
}

} // verus!
