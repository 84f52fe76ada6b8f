//! Drivers that run a circuit without enforcing anything.
//!
//! An [`Emulator`] in [`Wired`] mode gives every wire the value that the
//! circuit assigns to it, so that the values can be read off afterwards. In
//! [`Wireless`] mode a wire is nothing at all, and only the shape of the
//! circuit is left. Neither enforces a constraint, and both return the
//! predicted output of a routine in place of carrying the routine out.

use crate::coeff::Coeff;
use crate::driver::{
    lc_gain, lc_sum, lemma_lc_sum_related, lemma_ops_usage_unlimited, lemma_steps_usage_unlimited,
    wire_values, Circuit, Driver, Resources, Routine, Step,
};
use crate::error::Error;
use crate::field::{modulus, Fe};
use core::marker::PhantomData;
use vstd::prelude::*;

verus! {

/// The mode that an emulator runs in.
pub trait Mode {
    /// What stands for a wire.
    type Wire: Copy;

    /// What builds the linear combination of a new wire.
    type LCadd;

    /// What builds the linear combination of a constraint.
    type LCenforce;
}

/// The mode in which wires carry values.
pub struct Wired;

/// The mode in which wires carry nothing.
pub struct Wireless;

/// A wire of the emulator in wireless mode.
#[derive(Clone, Copy, Debug, PartialEq, Eq, Structural)]
pub struct NoWire;

/// The value of a wire, which is known if the emulator was given a witness.
#[derive(Clone, Copy, Debug)]
pub enum MaybeWired {
    /// The wire that stands for the constant one.
    One,
    /// A wire with a value of its own, if the value is known.
    Arbitrary(Option<Fe>),
}

impl MaybeWired {
    /// The field element inside, if there is one, is canonical.
    pub open spec fn wf(&self) -> bool {
        match *self {
            MaybeWired::Arbitrary(Some(v)) => v.wf(),
            _ => true,
        }
    }

    /// The value of the wire is known.
    pub open spec fn known(&self) -> bool {
        !(*self matches MaybeWired::Arbitrary(None))
    }

    /// The value of the wire as an integer, where it is known.
    pub open spec fn val(&self) -> nat {
        match *self {
            MaybeWired::One => 1,
            MaybeWired::Arbitrary(Some(v)) => v@,
            MaybeWired::Arbitrary(None) => 0,
        }
    }

    /// The value of the wire.
    pub fn value(self) -> (r: Fe)
        requires
            self.wf(),
            self.known(),
        ensures
            r.wf(),
            r@ == self.val(),
    {
        match self {
            MaybeWired::One => Fe::one(),
            MaybeWired::Arbitrary(value) => value.unwrap(),
        }
    }

    /// A reference to the value of the wire, where `one` is the value of
    /// the constant wire.
    pub fn snag<'a>(&'a self, one: &'a Fe) -> (r: &'a Fe)
        requires
            self.known(),
        ensures
            *self matches MaybeWired::One ==> *r == *one,
            *self matches MaybeWired::Arbitrary(Some(v)) ==> *r == v,
    {
        match self {
            MaybeWired::One => one,
            MaybeWired::Arbitrary(value) => value.as_ref().unwrap(),
        }
    }
}

/// A linear combination of values, computed as its terms come.
#[derive(Clone, Copy, Debug)]
pub struct DirectSum {
    /// The sum so far.
    pub value: Fe,
    /// The gain that multiplies the coefficients of the terms to come.
    pub gain: Coeff,
}

impl DirectSum {
    /// The value and the gain are canonical.
    pub open spec fn wf(&self) -> bool {
        self.value.wf() && self.gain.wf()
    }

    /// The empty sum: zero, with gain one.
    pub fn new() -> (r: DirectSum)
        ensures
            r.wf(),
            r.value@ == 0,
            r.gain is One,
    {
        DirectSum { value: Fe::zero(), gain: Coeff::One }
    }

    /// Adds a value, multiplied by the coefficient and by the gain.
    pub fn add_term(self, wire: &Fe, coeff: Coeff) -> (r: DirectSum)
        requires
            self.wf(),
            wire.wf(),
            coeff.wf(),
        ensures
            r.wf(),
            r.gain == self.gain,
            r.value@ == (self.value@ + (wire@ * ((coeff.val() * self.gain.val()) % modulus()))
                % modulus()) % modulus(),
    {
        let scaled = wire.mul(&coeff.mul(&self.gain).value());
        DirectSum { value: self.value.add(&scaled), gain: self.gain }
    }

    /// Multiplies the gain that the terms to come are subject to.
    pub fn gain(self, coeff: Coeff) -> (r: DirectSum)
        requires
            self.wf(),
            coeff.wf(),
        ensures
            r.wf(),
            r.value == self.value,
            r.gain.val() == (self.gain.val() * coeff.val()) % modulus(),
    {
        DirectSum { value: self.value, gain: self.gain.mul(&coeff) }
    }
}

/// A linear combination of the values of wires, which is computed if the
/// values are known.
#[derive(Clone, Copy, Debug)]
pub struct MaybeDirectSum {
    /// The sum, if the values are known.
    pub sum: Option<DirectSum>,
}

impl MaybeDirectSum {
    /// The sum inside, if there is one, is canonical.
    pub open spec fn wf(&self) -> bool {
        self.sum matches Some(s) ==> s.wf()
    }

    /// The empty sum, which will be computed if `witness` says that the
    /// values are known.
    pub fn new(witness: bool) -> (r: MaybeDirectSum)
        ensures
            r.wf(),
            r.sum is Some == witness,
            r.sum matches Some(s) ==> s.value@ == 0 && s.gain is One,
    {
        if witness {
            MaybeDirectSum { sum: Some(DirectSum::new()) }
        } else {
            MaybeDirectSum { sum: None }
        }
    }

    /// Adds the value of a wire, multiplied by the coefficient and by the
    /// gain.
    pub fn add_term(self, wire: &MaybeWired, coeff: Coeff) -> (r: MaybeDirectSum)
        requires
            self.wf(),
            coeff.wf(),
            wire.wf(),
            self.sum is Some ==> wire.known(),
        ensures
            r.wf(),
            r.sum is Some == self.sum is Some,
            self.sum matches Some(s) ==> r.sum.unwrap().gain == s.gain && r.sum.unwrap().value@ == (
            s.value@ + (wire.val() * ((coeff.val() * s.gain.val()) % modulus())) % modulus())
                % modulus(),
    {
        match self.sum {
            Some(sum) => {
                let one = Fe::one();
                MaybeDirectSum { sum: Some(sum.add_term(wire.snag(&one), coeff)) }
            },
            None => MaybeDirectSum { sum: None },
        }
    }

    /// Multiplies the gain that the terms to come are subject to.
    pub fn gain(self, coeff: Coeff) -> (r: MaybeDirectSum)
        requires
            self.wf(),
            coeff.wf(),
        ensures
            r.wf(),
            r.sum is Some == self.sum is Some,
            self.sum matches Some(s) ==> r.sum.unwrap().value == s.value
                && r.sum.unwrap().gain.val() == (s.gain.val() * coeff.val()) % modulus(),
    {
        match self.sum {
            Some(sum) => MaybeDirectSum { sum: Some(sum.gain(coeff)) },
            None => MaybeDirectSum { sum: None },
        }
    }

    /// Adds the value of a wire.
    pub fn add(self, wire: &MaybeWired) -> (r: MaybeDirectSum)
        requires
            self.wf(),
            wire.wf(),
            self.sum is Some ==> wire.known(),
        ensures
            r.wf(),
            r.sum is Some == self.sum is Some,
            self.sum matches Some(s) ==> r.sum.unwrap().gain == s.gain && r.sum.unwrap().value@ == (
            s.value@ + (wire.val() * ((1 * s.gain.val()) % modulus())) % modulus()) % modulus(),
    {
        self.add_term(wire, Coeff::One)
    }

    /// Subtracts the value of a wire.
    pub fn sub(self, wire: &MaybeWired) -> (r: MaybeDirectSum)
        requires
            self.wf(),
            wire.wf(),
            self.sum is Some ==> wire.known(),
        ensures
            r.wf(),
            r.sum is Some == self.sum is Some,
            self.sum matches Some(s) ==> r.sum.unwrap().gain == s.gain && r.sum.unwrap().value@ == (
            s.value@ + (wire.val() * ((Coeff::NegativeOne.val() * s.gain.val()) % modulus()))
                % modulus()) % modulus(),
    {
        self.add_term(wire, Coeff::NegativeOne)
    }

    /// Adds every term of the list, in its order.
    pub fn extend(self, with: &Vec<(MaybeWired, Coeff)>) -> (r: MaybeDirectSum)
        requires
            self.wf(),
            forall|k: int|
                0 <= k < with@.len() ==> (#[trigger] with@[k]).0.wf() && with@[k].1.wf() && (
                self.sum is Some ==> with@[k].0.known()),
        ensures
            r.wf(),
            r.sum is Some == self.sum is Some,
            self.sum matches Some(s) ==> r.sum.unwrap().gain == s.gain && r.sum.unwrap().value@
                == extended(s.value@, s.gain.val(), with@),
    {
        let mut acc = self;
        let mut k: usize = 0;
        proof {
            assert(with@.take(0) =~= Seq::<(MaybeWired, Coeff)>::empty());
        }
        while k < with.len()
            invariant
                0 <= k <= with@.len(),
                acc.wf(),
                acc.sum is Some == self.sum is Some,
                forall|j: int|
                    0 <= j < with@.len() ==> (#[trigger] with@[j]).0.wf() && with@[j].1.wf() && (
                    self.sum is Some ==> with@[j].0.known()),
                self.sum matches Some(s) ==> acc.sum.unwrap().gain == s.gain
                    && acc.sum.unwrap().value@ == extended(
                    s.value@,
                    s.gain.val(),
                    with@.take(k as int),
                ),
            decreases with@.len() - k,
        {
            proof {
                assert(with@.take(k as int + 1).drop_last() =~= with@.take(k as int));
                assert(with@[k as int].0.wf());
            }
            let (wire, coeff) = with[k];
            acc = acc.add_term(&wire, coeff);
            k += 1;
        }
        proof {
            assert(with@.take(k as int) =~= with@);
        }
        acc
    }
}

/// The sum `start` after the terms of the list have been added to it under
/// the gain `gain`.
pub open spec fn extended(start: nat, gain: nat, with: Seq<(MaybeWired, Coeff)>) -> nat
    decreases with.len(),
{
    if with.len() == 0 {
        start
    } else {
        (extended(start, gain, with.drop_last()) + (with.last().0.val() * ((with.last().1.val()
            * gain) % modulus())) % modulus()) % modulus()
    }
}

impl Mode for Wired {
    type Wire = MaybeWired;

    type LCadd = MaybeDirectSum;

    type LCenforce = MaybeDirectSum;
}

impl Mode for Wireless {
    type Wire = NoWire;

    type LCadd = NoWire;

    type LCenforce = NoWire;
}

/// A driver that runs a circuit to obtain what it computes, without
/// enforcing a constraint.
pub struct Emulator<M: Mode> {
    /// Whether the values of the wires are known.
    pub witness: bool,
    /// What the circuit has asked for so far. Nothing is limited.
    pub used: Ghost<Resources>,
    /// The mode.
    pub mode: PhantomData<M>,
}

/// The resources of a driver that has not been used and has no limits.
pub open spec fn unused() -> Resources {
    Resources {
        gates: 0,
        gate_limit: None,
        constraints: 0,
        constraint_limit: None,
        pairing: false,
        paired: false,
    }
}

/// The resources have no limits, and wires do not share gates.
pub open spec fn unlimited(used: Resources) -> bool {
    &&& used.gate_limit is None
    &&& used.constraint_limit is None
    &&& !used.pairing
    &&& !used.paired
}

impl Driver for Emulator<Wireless> {
    type Wire = NoWire;

    open spec fn wf(&self) -> bool {
        unlimited(self.used@)
    }

    open spec fn usage(&self) -> Resources {
        self.used@
    }

    open spec fn valid(&self, wire: NoWire) -> bool {
        true
    }

    open spec fn tracks(&self) -> bool {
        false
    }

    open spec fn predicts(&self) -> bool {
        true
    }

    open spec fn spare(&self) -> Option<NoWire> {
        None
    }

    /// Only the count goes on.
    open spec fn allocates(
        before: Emulator<Wireless>,
        value: Coeff,
        after: Emulator<Wireless>,
        r: Result<NoWire, Error>,
    ) -> bool {
        &&& r == Ok::<NoWire, Error>(NoWire)
        &&& after.witness == before.witness
        &&& before.used@.allocate() == Ok::<Resources, Error>(after.used@)
    }

    open spec fn value_of(wire: NoWire) -> nat {
        0
    }

    fn one(&self) -> (wire: NoWire) {
        NoWire
    }

    fn allocate(&mut self, value: Coeff) -> (r: Result<NoWire, Error>)
        ensures
            r is Ok,
    {
        self.used = Ghost(self.used@.allocate()->Ok_0);
        Ok(NoWire)
    }

    fn mul(&mut self, a: Coeff, b: Coeff, c: Coeff) -> (r: Result<(NoWire, NoWire, NoWire), Error>)
        ensures
            r is Ok,
    {
        self.used = Ghost(self.used@.mul()->Ok_0);
        Ok((NoWire, NoWire, NoWire))
    }

    fn add(&mut self, lc: &Vec<Step<NoWire>>) -> (wire: NoWire)
        ensures
            *final(self) == *old(self),
    {
        NoWire
    }

    fn enforce_zero(&mut self, lc: &Vec<Step<NoWire>>) -> (r: Result<(), Error>)
        ensures
            r is Ok,
    {
        self.used = Ghost(self.used@.enforce_zero()->Ok_0);
        Ok(())
    }

    fn predicting(&self) -> (r: bool) {
        true
    }

    fn suspend(&mut self) -> (saved: Option<NoWire>)
        ensures
            *final(self) == *old(self),
    {
        None
    }

    fn resume(&mut self, saved: Option<NoWire>)
        ensures
            *final(self) == *old(self),
    {
    }
}

impl Driver for Emulator<Wired> {
    type Wire = MaybeWired;

    open spec fn wf(&self) -> bool {
        unlimited(self.used@)
    }

    open spec fn usage(&self) -> Resources {
        self.used@
    }

    open spec fn valid(&self, wire: MaybeWired) -> bool {
        wire.wf() && (self.witness ==> wire.known())
    }

    open spec fn tracks(&self) -> bool {
        self.witness
    }

    open spec fn predicts(&self) -> bool {
        true
    }

    open spec fn spare(&self) -> Option<MaybeWired> {
        None
    }

    /// The count goes on, and the wire carries the value if values are
    /// known.
    open spec fn allocates(
        before: Emulator<Wired>,
        value: Coeff,
        after: Emulator<Wired>,
        r: Result<MaybeWired, Error>,
    ) -> bool {
        &&& after.witness == before.witness
        &&& before.used@.allocate() == Ok::<Resources, Error>(after.used@)
        &&& r matches Ok(MaybeWired::Arbitrary(held))
        &&& if before.witness {
            held matches Some(v) && v.wf() && v@ == value.val()
        } else {
            held is None
        }
    }

    open spec fn value_of(wire: MaybeWired) -> nat {
        wire.val()
    }

    fn one(&self) -> (wire: MaybeWired)
        ensures
            wire is One,
    {
        MaybeWired::One
    }

    /// The wire takes the given value, if values are known.
    fn allocate(&mut self, value: Coeff) -> (r: Result<MaybeWired, Error>)
        ensures
            r is Ok,
            final(self).witness == old(self).witness,
    {
        self.used = Ghost(self.used@.allocate()->Ok_0);
        if self.witness {
            Ok(MaybeWired::Arbitrary(Some(value.value())))
        } else {
            Ok(MaybeWired::Arbitrary(None))
        }
    }

    /// The three wires take the given values, if values are known. That
    /// the third is the product of the other two is not looked at.
    fn mul(&mut self, a: Coeff, b: Coeff, c: Coeff) -> (r: Result<
        (MaybeWired, MaybeWired, MaybeWired),
        Error,
    >)
        ensures
            r is Ok,
            final(self).witness == old(self).witness,
    {
        self.used = Ghost(self.used@.mul()->Ok_0);
        if self.witness {
            Ok(
                (
                    MaybeWired::Arbitrary(Some(a.value())),
                    MaybeWired::Arbitrary(Some(b.value())),
                    MaybeWired::Arbitrary(Some(c.value())),
                ),
            )
        } else {
            Ok((MaybeWired::Arbitrary(None), MaybeWired::Arbitrary(None), MaybeWired::Arbitrary(None)))
        }
    }

    /// The wire takes the value of the linear combination, if values are
    /// known.
    fn add(&mut self, lc: &Vec<Step<MaybeWired>>) -> (wire: MaybeWired)
        ensures
            *final(self) == *old(self),
    {
        let ghost val = |w: MaybeWired| w.val();
        let mut acc = MaybeDirectSum::new(self.witness);
        let mut k: usize = 0;
        proof {
            assert(lc@.take(0) =~= Seq::<Step<MaybeWired>>::empty());
        }
        while k < lc.len()
            invariant
                0 <= k <= lc@.len(),
                acc.wf(),
                acc.sum is Some == self.witness,
                val == |w: MaybeWired| w.val(),
                forall|j: int|
                    0 <= j < lc@.len() ==> (#[trigger] lc@[j]).wf() && (lc@[j] matches Step::Term(
                        w,
                        _,
                    ) ==> self.valid(w)),
                acc.sum matches Some(s) ==> s.value@ == lc_sum(lc@.take(k as int), val)
                    && s.gain.val() == lc_gain(lc@.take(k as int)),
            decreases lc@.len() - k,
        {
            proof {
                assert(lc@.take(k as int + 1).drop_last() =~= lc@.take(k as int));
                assert(lc@.take(k as int + 1).last() == lc@[k as int]);
                assert(lc@[k as int].wf());
            }
            match lc[k] {
                Step::Term(w, c) => {
                    acc = acc.add_term(&w, c);
                },
                Step::Gain(c) => {
                    acc = acc.gain(c);
                },
            }
            k += 1;
        }
        proof {
            assert(lc@.take(k as int) =~= lc@);
            lemma_lc_sum_related(lc@, lc@, val, |w: MaybeWired| Self::value_of(w));
        }
        match acc.sum {
            Some(sum) => MaybeWired::Arbitrary(Some(sum.value)),
            None => MaybeWired::Arbitrary(None),
        }
    }

    /// Nothing is enforced.
    fn enforce_zero(&mut self, lc: &Vec<Step<MaybeWired>>) -> (r: Result<(), Error>)
        ensures
            r is Ok,
            final(self).witness == old(self).witness,
    {
        self.used = Ghost(self.used@.enforce_zero()->Ok_0);
        Ok(())
    }

    fn predicting(&self) -> (r: bool) {
        true
    }

    fn suspend(&mut self) -> (saved: Option<MaybeWired>)
        ensures
            *final(self) == *old(self),
    {
        None
    }

    fn resume(&mut self, saved: Option<MaybeWired>)
        ensures
            *final(self) == *old(self),
    {
    }
}

/// Collects the wires of a gadget as they are visited.
pub struct WireExtractor {
    /// The wires visited so far.
    pub wires: Vec<MaybeWired>,
}

impl WireExtractor {
    /// Takes note of one wire.
    pub fn convert_wire(&mut self, wire: &MaybeWired) -> (r: Result<(), Error>)
        ensures
            r is Ok,
            final(self).wires@ == old(self).wires@.push(*wire),
    {
        self.wires.push(*wire);
        Ok(())
    }
}

impl Emulator<Wired> {
    /// An emulator whose wires carry values, if `witness` says that the
    /// values are known.
    pub fn wired(witness: bool) -> (r: Emulator<Wired>)
        ensures
            r.wf(),
            r.witness == witness,
            r.usage() == unused(),
    {
        Emulator { witness, used: Ghost(unused()), mode: PhantomData }
    }

    /// An emulator whose wires carry values that are known, for reading
    /// the values off afterwards.
    pub fn extractor() -> (r: Emulator<Wired>)
        ensures
            r.wf(),
            r.witness,
            r.usage() == unused(),
    {
        Emulator::wired(true)
    }

    /// The wires of a gadget, in the order in which the gadget lists them.
    pub fn wires(&self, gadget: &Vec<MaybeWired>) -> (r: Result<Vec<MaybeWired>, Error>)
        ensures
            r matches Ok(wires) && wires@ == gadget@,
    {
        let mut collector = WireExtractor { wires: Vec::new() };
        let mut k: usize = 0;
        while k < gadget.len()
            invariant
                0 <= k <= gadget@.len(),
                collector.wires@ == gadget@.take(k as int),
            decreases gadget@.len() - k,
        {
            collector.convert_wire(&gadget[k])?;
            proof {
                assert(gadget@.take(k as int + 1) =~= gadget@.take(k as int).push(gadget@[k as int]));
            }
            k += 1;
        }
        proof {
            assert(gadget@.take(k as int) =~= gadget@);
        }
        Ok(collector.wires)
    }

    /// The values of the wires of a gadget, where all of them are known.
    pub fn always_wires(&self, gadget: &Vec<MaybeWired>) -> (r: Result<Vec<Fe>, Error>)
        requires
            forall|k: int| 0 <= k < gadget@.len() ==> (#[trigger] gadget@[k]).wf() && gadget@[k].known(),
        ensures
            r matches Ok(values) && {
                &&& values@.len() == gadget@.len()
                &&& forall|k: int|
                    0 <= k < values@.len() ==> (#[trigger] values@[k]).wf() && values@[k]@
                        == gadget@[k].val()
            },
    {
        let wires = self.wires(gadget)?;
        let mut values: Vec<Fe> = Vec::new();
        let mut k: usize = 0;
        while k < wires.len()
            invariant
                0 <= k <= wires@.len(),
                wires@ == gadget@,
                forall|j: int|
                    0 <= j < gadget@.len() ==> (#[trigger] gadget@[j]).wf() && gadget@[j].known(),
                values@.len() == k,
                forall|j: int|
                    0 <= j < k ==> (#[trigger] values@[j]).wf() && values@[j]@ == gadget@[j].val(),
            decreases wires@.len() - k,
        {
            proof {
                assert(gadget@[k as int].wf());
            }
            values.push(wires[k].value());
            k += 1;
        }
        Ok(values)
    }

    /// Synthesizes a circuit on this emulator. Nothing can fail.
    pub fn just(&mut self, circuit: &Circuit) -> (r: Result<Vec<MaybeWired>, Error>)
        requires
            old(self).wf(),
            circuit.wf(),
        ensures
            final(self).wf(),
            final(self).witness == old(self).witness,
            Ok::<Resources, Error>(final(self).usage()) == circuit.usage(old(self).usage(), true),
            r matches Ok(output) && {
                &&& output@.len() == circuit.outputs@.len()
                &&& forall|k: int| 0 <= k < output@.len() ==> final(self).valid(#[trigger] output@[k])
                &&& final(self).witness ==> wire_values::<Emulator<Wired>>(output@)
                    == circuit.values(1)
            },
    {
        proof {
            lemma_steps_usage_unlimited(circuit.steps@, self.usage(), true);
        }
        circuit.witness(self)
    }

    /// Hands the witness to a routine: each value becomes a wire, which
    /// carries it if values are known, and the routine is carried out on
    /// those wires.
    pub fn with(&mut self, witness: &Vec<Fe>, routine: &Routine) -> (r: Result<
        Vec<MaybeWired>,
        Error,
    >)
        requires
            old(self).wf(),
            routine.wf(),
            witness@.len() == routine.num_inputs,
            crate::poly::all_canonical(witness@),
        ensures
            final(self).wf(),
            final(self).witness == old(self).witness,
            r matches Ok(output) && {
                &&& output@.len() == routine.outputs@.len()
                &&& forall|k: int| 0 <= k < output@.len() ==> final(self).valid(#[trigger] output@[k])
                &&& final(self).witness ==> wire_values::<Emulator<Wired>>(output@)
                    == routine.values(1, crate::poly::values(witness@))
            },
    {
        let mut input: Vec<MaybeWired> = Vec::new();
        let mut k: usize = 0;
        while k < witness.len()
            invariant
                0 <= k <= witness@.len(),
                crate::poly::all_canonical(witness@),
                input@.len() == k,
                forall|j: int|
                    0 <= j < k ==> (#[trigger] input@[j]) == if self.witness {
                        MaybeWired::Arbitrary(Some(witness@[j]))
                    } else {
                        MaybeWired::Arbitrary(None)
                    },
            decreases witness@.len() - k,
        {
            if self.witness {
                input.push(MaybeWired::Arbitrary(Some(witness[k])));
            } else {
                input.push(MaybeWired::Arbitrary(None));
            }
            k += 1;
        }
        proof {
            lemma_ops_usage_unlimited(routine.ops@, Resources { paired: false, ..self.usage() });
            if self.witness {
                assert(wire_values::<Emulator<Wired>>(input@) =~= crate::poly::values(witness@));
            }
            assert forall|j: int| 0 <= j < input@.len() implies self.valid(#[trigger] input@[j]) by {
                assert(witness@[j].wf());
            }
        }
        crate::driver::routine(self, routine, &input)
    }

    /// Carries out a routine on a witness, on a fresh emulator whose wires
    /// carry values.
    pub fn emulate_wired(witness: &Vec<Fe>, routine: &Routine) -> (r: Result<
        Vec<MaybeWired>,
        Error,
    >)
        requires
            routine.wf(),
            witness@.len() == routine.num_inputs,
            crate::poly::all_canonical(witness@),
        ensures
            r matches Ok(output) && {
                &&& output@.len() == routine.outputs@.len()
                &&& forall|k: int|
                    0 <= k < output@.len() ==> (#[trigger] output@[k]).wf() && output@[k].known()
                &&& wire_values::<Emulator<Wired>>(output@) == routine.values(
                    1,
                    crate::poly::values(witness@),
                )
            },
    {
        let mut dr = Emulator::extractor();
        dr.with(witness, routine)
    }
}

impl Emulator<Wireless> {
    /// An emulator whose wires carry nothing.
    pub fn wireless(witness: bool) -> (r: Emulator<Wireless>)
        ensures
            r.wf(),
            r.witness == witness,
            r.usage() == unused(),
    {
        Emulator { witness, used: Ghost(unused()), mode: PhantomData }
    }

    /// An emulator whose wires carry nothing, for running a circuit on a
    /// witness that is known.
    pub fn execute() -> (r: Emulator<Wireless>)
        ensures
            r.wf(),
            r.witness,
            r.usage() == unused(),
    {
        Emulator::wireless(true)
    }

    /// An emulator whose wires carry nothing, for counting what a circuit
    /// asks for without a witness.
    pub fn counter() -> (r: Emulator<Wireless>)
        ensures
            r.wf(),
            !r.witness,
            r.usage() == unused(),
    {
        Emulator::wireless(false)
    }

    /// Takes a wire of any driver to the wire that stands for it here.
    pub fn convert_wire<D: Driver>(&mut self, wire: &D::Wire) -> (r: Result<NoWire, Error>)
        ensures
            r is Ok,
            *final(self) == *old(self),
    {
        Ok(NoWire)
    }

    /// Synthesizes a circuit on this emulator. Nothing can fail.
    pub fn just(&mut self, circuit: &Circuit) -> (r: Result<Vec<NoWire>, Error>)
        requires
            old(self).wf(),
            circuit.wf(),
        ensures
            final(self).wf(),
            Ok::<Resources, Error>(final(self).usage()) == circuit.usage(old(self).usage(), true),
            r matches Ok(output) && output@.len() == circuit.outputs@.len(),
    {
        proof {
            lemma_steps_usage_unlimited(circuit.steps@, self.usage(), true);
        }
        circuit.witness(self)
    }

    /// Hands the witness to a routine. The wires carry nothing, so only the
    /// number of values matters.
    pub fn with(&mut self, witness: &Vec<Fe>, routine: &Routine) -> (r: Result<Vec<NoWire>, Error>)
        requires
            old(self).wf(),
            routine.wf(),
            witness@.len() == routine.num_inputs,
        ensures
            final(self).wf(),
            r matches Ok(output) && output@.len() == routine.outputs@.len(),
    {
        let mut input: Vec<NoWire> = Vec::new();
        let mut k: usize = 0;
        while k < witness.len()
            invariant
                0 <= k <= witness@.len(),
                input@.len() == k,
            decreases witness@.len() - k,
        {
            input.push(NoWire);
            k += 1;
        }
        proof {
            lemma_ops_usage_unlimited(routine.ops@, Resources { paired: false, ..self.usage() });
        }
        crate::driver::routine(self, routine, &input)
    }

    /// Carries out a routine on a witness, on a fresh emulator whose wires
    /// carry nothing.
    pub fn emulate_wireless(witness: &Vec<Fe>, routine: &Routine) -> (r: Result<
        Vec<NoWire>,
        Error,
    >)
        requires
            routine.wf(),
            witness@.len() == routine.num_inputs,
        ensures
            r matches Ok(output) && output@.len() == routine.outputs@.len(),
    {
        let mut dr = Emulator::execute();
        dr.with(witness, routine)
    }
}

} // verus!
