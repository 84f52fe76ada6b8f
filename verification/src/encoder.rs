//! Headers as they enter a step.
//!
//! A header is known to a step as the circuit that encodes its data. The
//! step may have that circuit synthesized, and works on the gadget that
//! comes out; or it may ask for the encoding alone, which is the same
//! number of wires whatever the header is.

use crate::coeff::Coeff;
use crate::driver::{all_valid, wire_values, Circuit, Driver, Resources, Step};
use crate::emulator::{Emulator, Wired};
use crate::error::{Error, Reason};
use vstd::prelude::*;

verus! {

/// Holds the data of a header until a step encodes it.
#[derive(Debug)]
pub struct Encoder {
    /// The circuit that encodes the header. The wires of its output are
    /// the gadget of the header.
    pub witness: Circuit,
}

/// A header that was encoded: its gadget, or its encoding alone.
pub enum EncodedInner<D: Driver> {
    /// The gadget of the header.
    Gadget(Vec<D::Wire>),
    /// The encoding of the header, filled up to the size of a header.
    Raw(Vec<D::Wire>),
}

/// The result of encoding a header within a step.
pub struct Encoded<D: Driver> {
    /// What the encoding gave.
    pub inner: EncodedInner<D>,
}

/// A copy of the wires.
pub fn copy_wires<D: Driver>(wires: &Vec<D::Wire>) -> (r: Vec<D::Wire>)
    ensures
        r@ == wires@,
{
    let mut copy: Vec<D::Wire> = Vec::new();
    let mut k: usize = 0;
    while k < wires.len()
        invariant
            0 <= k <= wires@.len(),
            copy@ == wires@.take(k as int),
        decreases wires@.len() - k,
    {
        copy.push(wires[k]);
        proof {
            assert(wires@.take(k as int + 1) =~= wires@.take(k as int).push(wires@[k as int]));
        }
        k += 1;
    }
    proof {
        assert(wires@.take(k as int) =~= wires@);
    }
    copy
}

impl<D: Driver> Clone for EncodedInner<D> {
    /// A copy with the same wires.
    fn clone(&self) -> (r: Self)
        ensures
            match (*self, r) {
                (EncodedInner::Gadget(a), EncodedInner::Gadget(b)) => a@ == b@,
                (EncodedInner::Raw(a), EncodedInner::Raw(b)) => a@ == b@,
                _ => false,
            },
    {
        match self {
            EncodedInner::Gadget(gadget) => EncodedInner::Gadget(copy_wires::<D>(gadget)),
            EncodedInner::Raw(raw) => EncodedInner::Raw(copy_wires::<D>(raw)),
        }
    }
}

impl<D: Driver> Clone for Encoded<D> {
    /// A copy with the same wires.
    fn clone(&self) -> (r: Self)
        ensures
            match (self.inner, r.inner) {
                (EncodedInner::Gadget(a), EncodedInner::Gadget(b)) => a@ == b@,
                (EncodedInner::Raw(a), EncodedInner::Raw(b)) => a@ == b@,
                _ => false,
            },
    {
        Encoded { inner: self.inner.clone() }
    }
}

impl<D: Driver> Encoded<D> {
    /// The encoded header that holds the given gadget.
    pub fn from_gadget(gadget: Vec<D::Wire>) -> (r: Self)
        ensures
            r.inner matches EncodedInner::Gadget(g) && g == gadget,
    {
        Encoded { inner: EncodedInner::Gadget(gadget) }
    }

    /// The gadget of the header.
    pub fn as_gadget(&self) -> (r: &Vec<D::Wire>)
        requires
            self.inner is Gadget,
        ensures
            self.inner matches EncodedInner::Gadget(g) && *r == g,
    {
        match &self.inner {
            EncodedInner::Gadget(g) => g,
            EncodedInner::Raw(raw) => raw,
        }
    }

    /// Writes the header to the end of `buf`, as `header_size` wires. A
    /// gadget is filled up with wires that are the empty linear
    /// combination, that is zero; a gadget with more than `header_size`
    /// wires is refused with `InvalidWitness`. An encoding is written as
    /// it is.
    pub fn write(self, dr: &mut D, buf: &mut Vec<D::Wire>, header_size: usize) -> (r: Result<
        (),
        Error,
    >)
        requires
            old(dr).wf(),
            self.inner matches EncodedInner::Gadget(g) ==> all_valid(old(dr), g@),
        ensures
            final(dr).wf(),
            final(dr).tracks() == old(dr).tracks(),
            final(dr).predicts() == old(dr).predicts(),
            final(dr).usage() == old(dr).usage(),
            forall|w: D::Wire| old(dr).valid(w) ==> final(dr).valid(w),
            match self.inner {
                EncodedInner::Gadget(g) => if g@.len() > header_size {
                    r matches Err(e) && e == Error::InvalidWitness(Reason::HeaderTooLong) && final(buf)@ == old(buf)@
                } else {
                    &&& r is Ok
                    &&& final(buf)@.len() == old(buf)@.len() + header_size
                    &&& final(buf)@.subrange(0, (old(buf)@.len() + g@.len()) as int) == old(buf)@ + g@
                    &&& forall|k: int|
                        old(buf)@.len() + g@.len() <= k < final(buf)@.len() ==> final(dr).valid(
                            #[trigger] final(buf)@[k],
                        ) && (final(dr).tracks() ==> D::value_of(final(buf)@[k]) == 0)
                },
                EncodedInner::Raw(raw) => r is Ok && final(buf)@ == old(buf)@ + raw@,
            },
    {
        match self.inner {
            EncodedInner::Gadget(gadget) => {
                if gadget.len() > header_size {
                    return Err(Error::InvalidWitness(Reason::HeaderTooLong));
                }
                crate::driver::append::<D>(buf, &gadget);
                let ghost start = buf@;
                let mut k: usize = gadget.len();
                proof {
                    assert(buf@.subrange(0, (old(buf)@.len() + gadget@.len()) as int) =~= old(buf)@
                        + gadget@);
                }
                while k < header_size
                    invariant
                        gadget@.len() <= k <= header_size,
                        dr.wf(),
                        dr.tracks() == old(dr).tracks(),
                        dr.predicts() == old(dr).predicts(),
                        dr.usage() == old(dr).usage(),
                        forall|w: D::Wire| old(dr).valid(w) ==> dr.valid(w),
                        start == old(buf)@ + gadget@,
                        buf@.len() == old(buf)@.len() + k,
                        buf@.subrange(0, start.len() as int) == start,
                        forall|j: int|
                            start.len() <= j < buf@.len() ==> dr.valid(#[trigger] buf@[j]) && (
                            dr.tracks() ==> D::value_of(buf@[j]) == 0),
                    decreases header_size - k,
                {
                    let ghost before = buf@;
                    let empty: Vec<Step<D::Wire>> = Vec::new();
                    let zero = dr.add(&empty);
                    buf.push(zero);
                    proof {
                        assert(buf@.subrange(0, start.len() as int) =~= before.subrange(
                            0,
                            start.len() as int,
                        ));
                        assert forall|j: int| start.len() <= j < buf@.len() implies dr.valid(
                            #[trigger] buf@[j],
                        ) && (dr.tracks() ==> D::value_of(buf@[j]) == 0) by {
                            if j < before.len() {
                                assert(buf@[j] == before[j]);
                            }
                        }
                    }
                    k += 1;
                }
                Ok(())
            },
            EncodedInner::Raw(raw) => {
                crate::driver::append::<D>(buf, &raw);
                Ok(())
            },
        }
    }
}

impl Encoder {
    /// An encoder for the header that the circuit encodes.
    pub fn new(witness: Circuit) -> (r: Encoder)
        ensures
            r.witness == witness,
    {
        Encoder { witness }
    }

    /// Encodes the header on the driver: the circuit of the header is
    /// synthesized, and its output is the gadget of the header.
    pub fn encode<D: Driver>(self, dr: &mut D) -> (r: Result<Encoded<D>, Error>)
        requires
            old(dr).wf(),
            self.witness.wf(),
        ensures
            final(dr).wf(),
            final(dr).tracks() == old(dr).tracks(),
            final(dr).predicts() == old(dr).predicts(),
            forall|w: D::Wire| old(dr).valid(w) ==> final(dr).valid(w),
            match self.witness.usage(old(dr).usage(), old(dr).predicts()) {
                Ok(u) => r matches Ok(encoded) && encoded.inner matches EncodedInner::Gadget(
                    output,
                ) && {
                    &&& final(dr).usage() == u
                    &&& output@.len() == self.witness.outputs@.len()
                    &&& all_valid(final(dr), output@)
                    &&& final(dr).tracks() ==> wire_values::<D>(output@) == self.witness.values(1)
                },
                Err(e) => r matches Err(x) && x == e,
            },
    {
        Ok(Encoded::from_gadget(self.witness.witness(dr)?))
    }

    /// Encodes the header without synthesizing its circuit on the driver:
    /// the circuit runs on an emulator, and the values of its output,
    /// filled up with zeros to `header_size` values, become single wires
    /// of the driver. What the driver is asked for is the same for every
    /// header. A header with more than `header_size` values is refused
    /// with `InvalidWitness`, before the driver is touched.
    pub fn raw_encode<D: Driver>(self, dr: &mut D, header_size: usize) -> (r: Result<
        Encoded<D>,
        Error,
    >)
        requires
            old(dr).wf(),
            self.witness.wf(),
        ensures
            final(dr).wf(),
            final(dr).tracks() == old(dr).tracks(),
            final(dr).predicts() == old(dr).predicts(),
            forall|w: D::Wire| old(dr).valid(w) ==> final(dr).valid(w),
            if self.witness.outputs@.len() > header_size {
                r matches Err(e) && e == Error::InvalidWitness(Reason::HeaderTooLong) && final(dr).usage() == old(dr).usage()
            } else {
                match old(dr).usage().allocate_times(header_size as nat) {
                    Ok(u) => r matches Ok(encoded) && encoded.inner matches EncodedInner::Raw(raw)
                        && {
                        &&& final(dr).usage() == u
                        &&& raw@.len() == header_size
                        &&& all_valid(final(dr), raw@)
                        &&& final(dr).tracks() ==> wire_values::<D>(raw@) == padded(
                            self.witness.values(1),
                            header_size as nat,
                        )
                    },
                    Err(e) => r matches Err(x) && x == e,
                }
            },
    {
        let mut emulator = Emulator::<Wired>::extractor();
        let gadget = emulator.just(&self.witness)?;
        let values = emulator.always_wires(&gadget)?;
        if values.len() > header_size {
            return Err(Error::InvalidWitness(Reason::HeaderTooLong));
        }
        let ghost u0 = dr.usage();
        let ghost expected = padded(self.witness.values(1), header_size as nat);
        let mut raw: Vec<D::Wire> = Vec::new();
        let mut k: usize = 0;
        while k < header_size
            invariant
                0 <= k <= header_size,
                values@.len() <= header_size,
                values@.len() == self.witness.outputs@.len(),
                forall|j: int|
                    0 <= j < values@.len() ==> (#[trigger] values@[j]).wf() && values@[j]@
                        == self.witness.values(1)[j],
                expected == padded(self.witness.values(1), header_size as nat),
                dr.wf(),
                dr.tracks() == old(dr).tracks(),
                dr.predicts() == old(dr).predicts(),
                forall|w: D::Wire| old(dr).valid(w) ==> dr.valid(w),
                u0 == old(dr).usage(),
                u0.allocate_times(k as nat) == Ok::<Resources, Error>(dr.usage()),
                raw@.len() == k,
                all_valid(dr, raw@),
                dr.tracks() ==> wire_values::<D>(raw@) == expected.take(k as int),
            decreases header_size - k,
        {
            let ghost before = dr.usage();
            let ghost earlier = raw@;
            proof {
                assert(u0.allocate_times((k + 1) as nat) == before.allocate());
            }
            let value = if k < values.len() {
                Coeff::Arbitrary(values[k])
            } else {
                Coeff::Zero
            };
            match dr.allocate(value) {
                Ok(wire) => {
                    raw.push(wire);
                    proof {
                        if dr.tracks() {
                            assert(wire_values::<D>(raw@) =~= wire_values::<D>(earlier).push(
                                value.val(),
                            ));
                            assert(expected.take(k as int + 1) =~= expected.take(k as int).push(
                                expected[k as int],
                            ));
                        }
                    }
                },
                Err(e) => {
                    proof {
                        u0.lemma_allocate_times_prefix((k + 1) as nat, header_size as nat);
                    }
                    return Err(e);
                },
            }
            k += 1;
        }
        proof {
            assert(expected.take(k as int) =~= expected);
        }
        Ok(Encoded { inner: EncodedInner::Raw(raw) })
    }
}

/// The values, followed by zeros up to the length `size`.
pub open spec fn padded(values: Seq<nat>, size: nat) -> Seq<nat> {
    Seq::new(size, |k: int| if k < values.len() { values[k] } else { 0 })
}

} // verus!
