//! Witnesses in stages.
//!
//! A stage is a part of a witness that is committed to by itself. So that
//! all parties agree on which wires belong to which stage, the wires of
//! every stage are reserved before any value is known: the builder runs
//! the stage on an emulator that only counts, and allocates that many
//! wires on the driver. Later the guard of a stage computes the stage and
//! puts the reserved wires in the place of the wires that the computation
//! produced.

use crate::coeff::Coeff;
use crate::driver::{all_valid, enforce_equal, Circuit, Driver, Resources};
use crate::emulator::{Emulator, NoWire};
use crate::error::{Error, Reason};
use vstd::prelude::*;

verus! {

/// One part of a witness.
#[derive(Debug)]
pub struct Stage {
    /// The number that identifies the stage.
    pub id: usize,
    /// The stage that must have been added before this one, if any.
    pub parent: Option<usize>,
    /// The largest number of wires that the stage may need.
    pub values: usize,
    /// What computes the stage. The wires of its output are the wires of
    /// the stage, in their order.
    pub circuit: Circuit,
}

impl Stage {
    /// The witness logic of the stage is a circuit that can be synthesized.
    pub open spec fn wf(&self) -> bool {
        self.circuit.wf()
    }

    /// The number of wires that the stage needs.
    pub open spec fn wire_need(&self) -> nat {
        self.circuit.outputs@.len()
    }

    /// The largest number of wires that the stage may need.
    pub fn values(&self) -> (r: usize)
        ensures
            r == self.values,
    {
        self.values
    }

    /// The number of gates that hold the largest number of wires, two to a
    /// gate.
    pub fn num_multiplications(&self) -> (r: usize)
        ensures
            r == (self.values + 1) / 2,
    {
        self.values / 2 + self.values % 2
    }
}

/// The cursor over the stages of a witness. The builder holds the driver
/// from its first stage to its last: between reservations nothing else can
/// use the driver, and `finish` hands it back once the last stage has been
/// added.
pub struct StageBuilder<D: Driver> {
    driver: D,
    current: Option<usize>,
    target: usize,
}

/// Holds the wires that were reserved for a stage, until the stage is
/// computed.
#[must_use]
pub struct StageGuard<D: Driver> {
    /// The stage.
    pub stage: Stage,
    /// The wires that were reserved, in the order of the wires of the
    /// stage.
    pub stage_wires: Vec<D::Wire>,
}

/// Puts reserved wires in the place of the wires of a computed gadget, and
/// requires each computed wire to be equal to the wire that replaces it.
pub struct EnforcingInjector {
    /// The number of reserved wires that have been used.
    pub next: usize,
}

impl EnforcingInjector {
    /// The reserved wire that replaces a computed wire. The two are
    /// required to be equal.
    pub fn convert_wire<D: Driver>(
        &mut self,
        driver: &mut D,
        stage_wires: &Vec<D::Wire>,
        live_wire: &D::Wire,
    ) -> (r: Result<D::Wire, Error>)
        requires
            old(driver).wf(),
            old(driver).valid(*live_wire),
            all_valid(old(driver), stage_wires@),
        ensures
            final(driver).wf(),
            final(driver).tracks() == old(driver).tracks(),
            final(driver).predicts() == old(driver).predicts(),
            forall|w: D::Wire| old(driver).valid(w) ==> final(driver).valid(w),
            old(self).next >= stage_wires@.len() ==> {
                &&& r matches Err(e) && e == Error::InvalidWitness(Reason::NotEnoughStageWires)
                &&& final(driver).usage() == old(driver).usage()
                &&& *final(self) == *old(self)
            },
            old(self).next < stage_wires@.len() ==> final(self).next == old(self).next + 1
                && match old(driver).usage().enforce_zero() {
                Ok(u) => r matches Ok(w) && w == stage_wires@[old(self).next as int] && final(driver).usage() == u,
                Err(e) => r matches Err(x) && x == e && final(driver).usage() == old(driver).usage(),
            },
    {
        if self.next >= stage_wires.len() {
            return Err(Error::InvalidWitness(Reason::NotEnoughStageWires));
        }
        let stage_wire = stage_wires[self.next];
        self.next += 1;
        enforce_equal(driver, *live_wire, stage_wire)?;
        Ok(stage_wire)
    }
}

/// Puts reserved wires in the place of the wires of a gadget that was
/// computed on an emulator, without enforcing anything.
pub struct StageWireInjector {
    /// The number of reserved wires that have been used.
    pub next: usize,
}

impl StageWireInjector {
    /// The reserved wire that replaces a computed wire.
    pub fn convert_wire<D: Driver>(&mut self, stage_wires: &Vec<D::Wire>, computed: &NoWire) -> (r:
        Result<D::Wire, Error>)
        ensures
            old(self).next >= stage_wires@.len() ==> {
                &&& r matches Err(e) && e == Error::InvalidWitness(Reason::NotEnoughStageWires)
                &&& *final(self) == *old(self)
            },
            old(self).next < stage_wires@.len() ==> {
                &&& r matches Ok(w) && w == stage_wires@[old(self).next as int]
                &&& final(self).next == old(self).next + 1
            },
    {
        if self.next >= stage_wires.len() {
            return Err(Error::InvalidWitness(Reason::NotEnoughStageWires));
        }
        let stage_wire = stage_wires[self.next];
        self.next += 1;
        Ok(stage_wire)
    }
}

impl<D: Driver> StageGuard<D> {
    /// Computes the stage on the driver, so that whatever the stage
    /// enforces within itself is enforced, and requires each wire that the
    /// computation produced to be equal to the wire that was reserved for
    /// it: one constraint for each wire. The gadget that is returned is
    /// made of the reserved wires.
    ///
    /// The computation must produce as many wires as were reserved.
    /// Otherwise the call fails with `InvalidWitness`, after the
    /// constraints for the wires that have a counterpart.
    #[verifier::rlimit(100)]
    pub fn enforced(self, driver: &mut D) -> (r: Result<Vec<D::Wire>, Error>)
        requires
            old(driver).wf(),
            self.stage.wf(),
            all_valid(old(driver), self.stage_wires@),
        ensures
            final(driver).wf(),
            final(driver).tracks() == old(driver).tracks(),
            final(driver).predicts() == old(driver).predicts(),
            forall|w: D::Wire| old(driver).valid(w) ==> final(driver).valid(w),
            match self.stage.circuit.usage(old(driver).usage(), old(driver).predicts()) {
                Err(e) => r matches Err(x) && x == e,
                Ok(computed) => {
                    let live = self.stage.wire_need();
                    let reserved = self.stage_wires@.len();
                    let paired = if live < reserved {
                        live
                    } else {
                        reserved
                    };
                    match computed.enforce_times(paired) {
                        Err(e) => r matches Err(x) && x == e,
                        Ok(u) => if live != reserved {
                            r matches Err(x) && x == Error::InvalidWitness(if live > reserved { Reason::NotEnoughStageWires } else { Reason::TooManyStageWires }) && final(driver).usage()
                                == u
                        } else {
                            r matches Ok(gadget) && gadget@ == self.stage_wires@ && final(driver).usage() == u
                        },
                    }
                },
            },
    {
        let computed_gadget = self.stage.circuit.witness(driver)?;
        let ghost computed = driver.usage();
        let mut injector = EnforcingInjector { next: 0 };
        let mut gadget: Vec<D::Wire> = Vec::new();
        let mut k: usize = 0;
        while k < computed_gadget.len()
            invariant
                0 <= k <= computed_gadget@.len(),
                driver.wf(),
                driver.tracks() == old(driver).tracks(),
                driver.predicts() == old(driver).predicts(),
                forall|w: D::Wire| old(driver).valid(w) ==> driver.valid(w),
                all_valid(driver, computed_gadget@),
                all_valid(driver, self.stage_wires@),
                computed_gadget@.len() == self.stage.wire_need(),
                injector.next == k,
                k <= self.stage_wires@.len(),
                gadget@ == self.stage_wires@.take(k as int),
                self.stage.circuit.usage(old(driver).usage(), old(driver).predicts()) == Ok::<
                    Resources,
                    Error,
                >(computed),
                computed.enforce_times(k as nat) == Ok::<Resources, Error>(driver.usage()),
            decreases computed_gadget@.len() - k,
        {
            let ghost reserved = self.stage_wires@.len();
            proof {
                if k < reserved {
                    assert(computed.enforce_times((k + 1) as nat) == driver.usage().enforce_zero());
                    if driver.usage().enforce_zero() is Err {
                        let paired = if self.stage.wire_need() < reserved {
                            self.stage.wire_need()
                        } else {
                            reserved
                        };
                        computed.lemma_enforce_times_prefix((k + 1) as nat, paired);
                    }
                }
            }
            let wire = injector.convert_wire(driver, &self.stage_wires, &computed_gadget[k])?;
            gadget.push(wire);
            proof {
                assert(self.stage_wires@.take(k as int + 1) =~= self.stage_wires@.take(
                    k as int,
                ).push(self.stage_wires@[k as int]));
            }
            k += 1;
        }
        if injector.next != self.stage_wires.len() {
            return Err(Error::InvalidWitness(Reason::TooManyStageWires));
        }
        proof {
            assert(self.stage_wires@.take(k as int) =~= self.stage_wires@);
        }
        Ok(gadget)
    }

    /// Computes the stage on an emulator and returns the gadget made of
    /// the reserved wires. The driver is not used: no wire and no
    /// constraint is added.
    ///
    /// This is in order only for a stage that enforces nothing within
    /// itself. The computation must produce as many wires as were
    /// reserved; otherwise the call fails with `InvalidWitness`.
    pub fn unenforced(self, driver: &mut D) -> (r: Result<Vec<D::Wire>, Error>)
        requires
            self.stage.wf(),
        ensures
            *final(driver) == *old(driver),
            self.stage.wire_need() == self.stage_wires@.len() ==> (r matches Ok(gadget) && gadget@
                == self.stage_wires@),
            self.stage.wire_need() != self.stage_wires@.len() ==> (r matches Err(e) && e
                == Error::InvalidWitness(if self.stage.wire_need() > self.stage_wires@.len() { Reason::NotEnoughStageWires } else { Reason::TooManyStageWires })),
    {
        let mut emulator = Emulator::wireless(false);
        let computed_gadget = emulator.just(&self.stage.circuit)?;
        let mut injector = StageWireInjector { next: 0 };
        let mut gadget: Vec<D::Wire> = Vec::new();
        let mut k: usize = 0;
        while k < computed_gadget.len()
            invariant
                0 <= k <= computed_gadget@.len(),
                computed_gadget@.len() == self.stage.wire_need(),
                injector.next == k,
                k <= self.stage_wires@.len(),
                gadget@ == self.stage_wires@.take(k as int),
            decreases computed_gadget@.len() - k,
        {
            let wire = injector.convert_wire::<D>(&self.stage_wires, &computed_gadget[k])?;
            gadget.push(wire);
            proof {
                assert(self.stage_wires@.take(k as int + 1) =~= self.stage_wires@.take(
                    k as int,
                ).push(self.stage_wires@[k as int]));
            }
            k += 1;
        }
        if injector.next != self.stage_wires.len() {
            return Err(Error::InvalidWitness(Reason::TooManyStageWires));
        }
        proof {
            assert(self.stage_wires@.take(k as int) =~= self.stage_wires@);
        }
        Ok(gadget)
    }
}

/// The wires are as they are reserved: on a driver that gives wires
/// values, each of them holds zero.
pub open spec fn placeholders<D: Driver>(dr: &D, wires: Seq<D::Wire>) -> bool {
    dr.tracks() ==> forall|j: int| 0 <= j < wires.len() ==> D::value_of(#[trigger] wires[j]) == 0
}

/// The driver `after` is the driver `before` once a single wire with zero
/// in the place of its value was asked for and granted for each of
/// `wires`, in their order, and nothing else was asked of it.
pub open spec fn allocations<D: Driver>(before: D, after: D, wires: Seq<D::Wire>) -> bool
    decreases wires.len(),
{
    if wires.len() == 0 {
        after == before
    } else {
        exists|mid: D|
            allocations(before, mid, wires.drop_last()) && #[trigger] D::allocates(
                mid,
                Coeff::Zero,
                after,
                Ok::<D::Wire, Error>(wires.last()),
            )
    }
}

/// The driver `after` is the driver `before` once single wires with zero
/// were asked for, fewer than `most` were granted, and the next was
/// refused with the error `e`.
pub open spec fn refused<D: Driver>(before: D, after: D, most: nat, e: Error) -> bool {
    exists|mid: D, wires: Seq<D::Wire>| #[trigger]
        allocations(before, mid, wires) && wires.len() < most && D::allocates(
            mid,
            Coeff::Zero,
            after,
            Err::<D::Wire, Error>(e),
        )
}

impl<D: Driver> StageBuilder<D> {
    /// The driver that the builder holds.
    pub closed spec fn held(&self) -> D {
        self.driver
    }

    /// The stage that was added last, if any.
    pub closed spec fn marker(&self) -> Option<usize> {
        self.current
    }

    /// The stage after which the builder is finished.
    pub closed spec fn goal(&self) -> usize {
        self.target
    }

    /// The stage that was added last, if any.
    pub fn current(&self) -> (r: Option<usize>)
        ensures
            r == self.marker(),
    {
        self.current
    }

    /// The stage after which the builder is finished.
    pub fn target(&self) -> (r: usize)
        ensures
            r == self.goal(),
    {
        self.target
    }

    /// What adding a stage gives: with a stage that does not come next, or
    /// that needs more wires than it declares, the error and the driver as
    /// it was; else the driver after as many single wires as the stage
    /// needs, all of them allocated with zero, or the error of the driver.
    pub open spec fn reserved(
        self,
        stage: Stage,
        r: Result<(StageGuard<D>, StageBuilder<D>), (Error, D)>,
    ) -> bool {
        if stage.parent != self.marker() {
            r matches Err(failure) && failure.0 == Error::Initialization(Reason::StageOutOfOrder) && failure.1
                == self.held()
        } else if stage.wire_need() > stage.values {
            r matches Err(failure) && failure.0 == Error::MultiplicationBoundExceeded(
                ((stage.values + 1) / 2) as usize,
            ) && failure.1 == self.held()
        } else {
            match self.held().usage().allocate_times(stage.wire_need()) {
                Ok(u) => r matches Ok(pair) && {
                    &&& pair.1.held().usage() == u
                    &&& pair.0.stage == stage
                    &&& pair.0.stage_wires@.len() == stage.wire_need()
                    &&& allocations(self.held(), pair.1.held(), pair.0.stage_wires@)
                    &&& all_valid(&pair.1.held(), pair.0.stage_wires@)
                    &&& placeholders(&pair.1.held(), pair.0.stage_wires@)
                    &&& pair.1.marker() == Some(stage.id)
                    &&& pair.1.goal() == self.goal()
                    &&& self.kept(pair.1.held())
                },
                Err(e) => r matches Err(failure) && failure.0 == e && self.kept(failure.1)
                    && refused(self.held(), failure.1, stage.wire_need(), e),
            }
        }
    }

    /// What skipping a stage gives: what adding it gives, without the
    /// guard.
    pub open spec fn skipped(self, stage: Stage, r: Result<StageBuilder<D>, (Error, D)>) -> bool {
        if stage.parent != self.marker() {
            r matches Err(failure) && failure.0 == Error::Initialization(Reason::StageOutOfOrder)
                && failure.1 == self.held()
        } else if stage.wire_need() > stage.values {
            r matches Err(failure) && failure.0 == Error::MultiplicationBoundExceeded(
                ((stage.values + 1) / 2) as usize,
            ) && failure.1 == self.held()
        } else {
            match self.held().usage().allocate_times(stage.wire_need()) {
                Ok(u) => r matches Ok(builder) && {
                    &&& builder.held().usage() == u
                    &&& exists|wires: Seq<D::Wire>|
                        wires.len() == stage.wire_need() && #[trigger] allocations(
                            self.held(),
                            builder.held(),
                            wires,
                        )
                    &&& builder.marker() == Some(stage.id)
                    &&& builder.goal() == self.goal()
                    &&& self.kept(builder.held())
                },
                Err(e) => r matches Err(failure) && failure.0 == e && self.kept(failure.1)
                    && refused(self.held(), failure.1, stage.wire_need(), e),
            }
        }
    }

    /// The driver `after` is the driver of the builder some steps on: it
    /// is consistent, of the same kind, and accepts every wire that the
    /// driver of the builder accepts.
    pub open spec fn kept(self, after: D) -> bool {
        &&& after.wf()
        &&& after.tracks() == self.held().tracks()
        &&& after.predicts() == self.held().predicts()
        &&& forall|w: D::Wire| self.held().valid(w) ==> after.valid(w)
    }

    /// A builder before its first stage, which is finished after the
    /// stage `target`. The builder takes the driver.
    pub fn new(driver: D, target: usize) -> (r: StageBuilder<D>)
        ensures
            r.held() == driver,
            r.marker() is None,
            r.goal() == target,
    {
        StageBuilder { driver, current: None, target }
    }

    /// Adds the next stage: counts the wires that the stage needs by
    /// running it on an emulator that carries no values, and allocates
    /// that many single wires on the driver, with zero in the place of
    /// their values. The guard that is returned holds those wires.
    ///
    /// Fails with `Initialization` if the stage does not come next, and
    /// with `MultiplicationBoundExceeded` if the stage needs more wires
    /// than it declares; neither touches the driver. Fails where the
    /// driver refuses a wire. A failure hands the driver back with the
    /// error.
    pub fn configure_stage(self, stage: Stage) -> (r: Result<
        (StageGuard<D>, StageBuilder<D>),
        (Error, D),
    >)
        requires
            self.held().wf(),
            stage.wf(),
        ensures
            self.reserved(stage, r),
    {
        if !same_stage(stage.parent, self.current) {
            return Err((Error::Initialization(Reason::StageOutOfOrder), self.driver));
        }
        let mut emulator = Emulator::counter();
        let num_wires = match emulator.just(&stage.circuit) {
            Ok(gadget) => gadget.len(),
            Err(e) => {
                return Err((e, self.driver));
            },
        };
        if num_wires > stage.values() {
            return Err(
                (Error::MultiplicationBoundExceeded(stage.num_multiplications()), self.driver),
            );
        }
        let ghost start = self.driver;
        let ghost u0 = self.driver.usage();
        let target = self.target;
        let mut driver = self.driver;
        let mut wires: Vec<D::Wire> = Vec::new();
        let mut k: usize = 0;
        while k < num_wires
            invariant
                0 <= k <= num_wires,
                num_wires == stage.wire_need(),
                stage.parent == self.current,
                stage.wire_need() <= stage.values,
                start == self.held(),
                target == self.target,
                driver.wf(),
                driver.tracks() == start.tracks(),
                driver.predicts() == start.predicts(),
                forall|w: D::Wire| start.valid(w) ==> driver.valid(w),
                u0 == start.usage(),
                u0.allocate_times(k as nat) == Ok::<Resources, Error>(driver.usage()),
                wires@.len() == k,
                all_valid(&driver, wires@),
                placeholders(&driver, wires@),
                allocations(start, driver, wires@),
            decreases num_wires - k,
        {
            let ghost before = driver.usage();
            let ghost earlier = wires@;
            let ghost mid = driver;
            proof {
                assert(u0.allocate_times((k + 1) as nat) == before.allocate());
            }
            match driver.allocate(Coeff::Zero) {
                Ok(wire) => {
                    wires.push(wire);
                    proof {
                        assert(wires@.drop_last() =~= earlier);
                        assert(allocations(start, mid, wires@.drop_last()));
                        assert(D::allocates(
                            mid,
                            Coeff::Zero,
                            driver,
                            Ok::<D::Wire, Error>(wires@.last()),
                        ));
                        assert(wires@.len() > 0);
                        assert(allocations(start, driver, wires@));
                        if driver.tracks() {
                            assert forall|j: int| 0 <= j < wires@.len() implies D::value_of(
                                #[trigger] wires@[j],
                            ) == 0 by {
                                if j < earlier.len() {
                                    assert(wires@[j] == earlier[j]);
                                }
                            }
                        }
                    }
                },
                Err(e) => {
                    proof {
                        u0.lemma_allocate_times_prefix((k + 1) as nat, num_wires as nat);
                        assert(allocations(start, mid, earlier));
                        assert(refused(start, driver, num_wires as nat, e));
                    }
                    return Err((e, driver));
                },
            }
            k += 1;
        }
        let id = stage.id;
        Ok((StageGuard { stage, stage_wires: wires }, StageBuilder { driver, current: Some(id), target }))
    }

    /// Adds the next stage, as `configure_stage` does.
    pub fn add_stage(self, stage: Stage) -> (r: Result<
        (StageGuard<D>, StageBuilder<D>),
        (Error, D),
    >)
        requires
            self.held().wf(),
            stage.wf(),
        ensures
            self.reserved(stage, r),
    {
        self.configure_stage(stage)
    }

    /// Reserves the wires of the next stage without keeping a guard, for a
    /// stage whose output is not needed.
    pub fn skip_stage(self, stage: Stage) -> (r: Result<StageBuilder<D>, (Error, D)>)
        requires
            self.held().wf(),
            stage.wf(),
        ensures
            self.skipped(stage, r),
    {
        match self.add_stage(stage) {
            Ok((guard, builder)) => Ok(builder),
            Err(failure) => Err(failure),
        }
    }

    /// Ends the reservation and hands the driver back, as the reservations
    /// left it. Fails with `Initialization` unless the stage that was added
    /// last is the target; the driver comes back with the error.
    pub fn finish(self) -> (r: Result<D, (Error, D)>)
        ensures
            self.marker() == Some(self.goal()) ==> r == Ok::<D, (Error, D)>(self.held()),
            self.marker() != Some(self.goal()) ==> r == Err::<D, (Error, D)>(
                (Error::Initialization(Reason::StagesUnfinished), self.held()),
            ),
    {
        if same_stage(self.current, Some(self.target)) {
            Ok(self.driver)
        } else {
            Err((Error::Initialization(Reason::StagesUnfinished), self.driver))
        }
    }
}

/// Whether two stage markers are the same.
pub fn same_stage(a: Option<usize>, b: Option<usize>) -> (r: bool)
    ensures
        r == (a == b),
{
    match (a, b) {
        (None, None) => true,
        (Some(x), Some(y)) => x == y,
        _ => false,
    }
}

/// What reserving the wires of the stages uses, one stage after the other.
pub open spec fn reserve_usage(stages: Seq<Stage>, before: Resources) -> Result<Resources, Error>
    decreases stages.len(),
{
    if stages.len() == 0 {
        Ok(before)
    } else {
        match reserve_usage(stages.drop_last(), before) {
            Ok(u) => u.allocate_times(stages.last().wire_need()),
            Err(e) => Err(e),
        }
    }
}

/// The number of wires that the stages need in all.
pub open spec fn total_need(stages: Seq<Stage>) -> nat
    decreases stages.len(),
{
    if stages.len() == 0 {
        0
    } else {
        total_need(stages.drop_last()) + stages.last().wire_need()
    }
}

/// Reserving the wires of stages, one stage after the other, allocates as
/// many wires as the stages need in all.
pub proof fn lemma_reservation_conserves(stages: Seq<Stage>, before: Resources)
    ensures
        reserve_usage(stages, before) == before.allocate_times(total_need(stages)),
    decreases stages.len(),
{
    if stages.len() > 0 {
        lemma_reservation_conserves(stages.drop_last(), before);
        before.lemma_allocate_times_add(
            total_need(stages.drop_last()),
            stages.last().wire_need(),
        );
    }
}

} // verus!
