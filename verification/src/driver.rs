//! The interface between a circuit and what interprets it.
//!
//! A circuit is a list of instructions over numbered registers. Register 0
//! holds the wire that stands for the constant one; the inputs of a routine
//! follow it; every instruction that makes wires puts them into the next
//! free registers. A [`Driver`] gives the instructions their meaning.

use crate::coeff::Coeff;
use crate::error::Error;
use crate::field::modulus;
use vstd::prelude::*;

verus! {

/// One step in building a linear combination.
#[derive(Debug)]
pub enum Step<W> {
    /// Adds the wire, multiplied by the coefficient and by the gain that is
    /// in force.
    Term(W, Coeff),
    /// Multiplies the gain that the later terms are subject to.
    Gain(Coeff),
}

impl<W> Step<W> {
    /// The coefficient of the step is canonical.
    pub open spec fn wf(&self) -> bool {
        match *self {
            Step::Term(_, c) => c.wf(),
            Step::Gain(c) => c.wf(),
        }
    }
}

/// The gain that is in force after the steps.
pub open spec fn lc_gain<W>(steps: Seq<Step<W>>) -> nat
    decreases steps.len(),
{
    if steps.len() == 0 {
        1
    } else {
        let before = lc_gain(steps.drop_last());
        match steps.last() {
            Step::Term(_, _) => before,
            Step::Gain(c) => (before * c.val()) % modulus(),
        }
    }
}

/// The value of the linear combination that the steps build, where `val`
/// gives the value of each wire.
pub open spec fn lc_sum<W>(steps: Seq<Step<W>>, val: spec_fn(W) -> nat) -> nat
    decreases steps.len(),
{
    if steps.len() == 0 {
        0
    } else {
        let before = lc_sum(steps.drop_last(), val);
        match steps.last() {
            Step::Term(w, c) => (before + (val(w) * ((c.val() * lc_gain(steps.drop_last()))
                % modulus())) % modulus()) % modulus(),
            Step::Gain(_) => before,
        }
    }
}

/// An instruction that every driver carries out by itself.
#[derive(Debug)]
pub enum Op {
    /// Makes one wire with the given value.
    Alloc(Coeff),
    /// Makes the three wires of a multiplication gate, with the given
    /// values: left, right and output.
    Mul(Coeff, Coeff, Coeff),
    /// Makes a wire that is a linear combination of registers.
    Add(Vec<Step<usize>>),
    /// Requires a linear combination of registers to be zero.
    EnforceZero(Vec<Step<usize>>),
}

/// The steps are canonical and name registers below `regs`.
pub open spec fn steps_wf(steps: Seq<Step<usize>>, regs: nat) -> bool {
    forall|k: int|
        0 <= k < steps.len() ==> (#[trigger] steps[k]).wf() && (steps[k] matches Step::Term(r, _)
            ==> r < regs)
}

impl Op {
    /// The number of registers that the instruction fills.
    pub open spec fn makes(&self) -> nat {
        match *self {
            Op::Alloc(_) => 1,
            Op::Mul(_, _, _) => 3,
            Op::Add(_) => 1,
            Op::EnforceZero(_) => 0,
        }
    }

    /// The instruction can be carried out when `regs` registers are filled.
    pub open spec fn wf(&self, regs: nat) -> bool {
        match *self {
            Op::Alloc(v) => v.wf(),
            Op::Mul(a, b, c) => a.wf() && b.wf() && c.wf(),
            Op::Add(steps) => steps_wf(steps@, regs),
            Op::EnforceZero(steps) => steps_wf(steps@, regs),
        }
    }

    /// What the instruction does to the resources of a driver.
    pub open spec fn usage(&self, before: Resources) -> Result<Resources, Error> {
        match *self {
            Op::Alloc(_) => before.allocate(),
            Op::Mul(_, _, _) => before.mul(),
            Op::Add(_) => Ok(before),
            Op::EnforceZero(_) => before.enforce_zero(),
        }
    }

    /// The values of the registers after the instruction.
    pub open spec fn values(&self, before: Seq<nat>) -> Seq<nat> {
        match *self {
            Op::Alloc(v) => before.push(v.val()),
            Op::Mul(a, b, c) => before.push(a.val()).push(b.val()).push(c.val()),
            Op::Add(steps) => before.push(lc_sum(steps@, |r: usize| before[r as int])),
            Op::EnforceZero(_) => before,
        }
    }
}

/// The number of registers that the instructions fill.
pub open spec fn ops_make(ops: Seq<Op>) -> nat
    decreases ops.len(),
{
    if ops.len() == 0 {
        0
    } else {
        ops_make(ops.drop_last()) + ops.last().makes()
    }
}

/// Each instruction names only registers that are filled when its turn
/// comes, if `regs` registers are filled at the start.
pub open spec fn ops_wf(ops: Seq<Op>, regs: nat) -> bool {
    forall|k: int| 0 <= k < ops.len() ==> (#[trigger] ops[k]).wf(regs + ops_make(ops.take(k)))
}

/// What the instructions do to the resources of a driver: the resources
/// after the last of them, or the error of the first that fails.
pub open spec fn ops_usage(ops: Seq<Op>, before: Resources) -> Result<Resources, Error>
    decreases ops.len(),
{
    if ops.len() == 0 {
        Ok(before)
    } else {
        match ops_usage(ops.drop_last(), before) {
            Ok(u) => ops.last().usage(u),
            Err(e) => Err(e),
        }
    }
}

/// The values of the registers after the instructions.
pub open spec fn ops_values(ops: Seq<Op>, before: Seq<nat>) -> Seq<nat>
    decreases ops.len(),
{
    if ops.len() == 0 {
        before
    } else {
        ops.last().values(ops_values(ops.drop_last(), before))
    }
}

/// A sub-circuit that can be used again: it takes wires and gives wires.
#[derive(Debug)]
pub struct Routine {
    /// The number of wires that the routine takes. They fill the registers
    /// from 1 on.
    pub num_inputs: usize,
    /// The instructions.
    pub ops: Vec<Op>,
    /// The registers whose wires the routine gives back.
    pub outputs: Vec<usize>,
}

/// The registers are all below `regs`.
pub open spec fn outputs_wf(outputs: Seq<usize>, regs: nat) -> bool {
    forall|k: int| 0 <= k < outputs.len() ==> (#[trigger] outputs[k]) < regs
}

/// The instruction makes no wire of its own.
pub open spec fn op_is_linear(op: Op) -> bool {
    op is Add || op is EnforceZero
}

impl Routine {
    /// The routine names only registers that are filled.
    pub open spec fn wf(&self) -> bool {
        &&& ops_wf(self.ops@, 1 + self.num_inputs as nat)
        &&& outputs_wf(self.outputs@, 1 + self.num_inputs as nat + ops_make(self.ops@))
    }

    /// The output of the routine can be computed without allocating a
    /// wire: no instruction asks for one.
    pub open spec fn predictable(&self) -> bool {
        forall|k: int| 0 <= k < self.ops@.len() ==> op_is_linear(#[trigger] self.ops@[k])
    }

    /// What carrying out the routine does to the resources of a driver. An
    /// unused leg of a gate is put aside for the time of the routine and
    /// comes back after it.
    pub open spec fn usage(&self, before: Resources) -> Result<Resources, Error> {
        match ops_usage(self.ops@, Resources { paired: false, ..before }) {
            Ok(u) => Ok(Resources { paired: before.paired && before.pairing, ..u }),
            Err(e) => Err(e),
        }
    }

    /// The values of the wires that the routine gives back, where `one` is
    /// the value of the constant wire and `input` the values of the wires
    /// that it takes.
    pub open spec fn values(&self, one: nat, input: Seq<nat>) -> Seq<nat> {
        let regs = ops_values(self.ops@, seq![one] + input);
        Seq::new(self.outputs@.len(), |k: int| regs[self.outputs@[k] as int])
    }

    /// Whether the output of the routine can be computed without allocating
    /// a wire.
    pub fn predict(&self) -> (r: bool)
        ensures
            r == self.predictable(),
    {
        let mut k: usize = 0;
        while k < self.ops.len()
            invariant
                0 <= k <= self.ops@.len(),
                forall|j: int| 0 <= j < k ==> op_is_linear(#[trigger] self.ops@[j]),
            decreases self.ops@.len() - k,
        {
            match &self.ops[k] {
                Op::Alloc(_) => {
                    return false;
                },
                Op::Mul(_, _, _) => {
                    return false;
                },
                _ => {},
            }
            k += 1;
        }
        true
    }
}

/// One instruction of a circuit.
#[derive(Debug)]
pub enum Instruction {
    /// An instruction that the driver carries out by itself.
    Op(Op),
    /// Hands the wires in the given registers to a routine, whose outputs
    /// fill the next registers.
    Call(Routine, Vec<usize>),
    /// Gives up the wire in the given register, which is not the first:
    /// from then on the register stands for the constant one, as the
    /// first register does. A driver that counts the references to its
    /// wires can resolve the wire then, and need not wait for the end.
    Release(usize),
}

impl Instruction {
    /// The number of registers that the instruction fills.
    pub open spec fn makes(&self) -> nat {
        match *self {
            Instruction::Op(op) => op.makes(),
            Instruction::Call(routine, _) => routine.outputs@.len(),
            Instruction::Release(_) => 0,
        }
    }

    /// The instruction can be carried out when `regs` registers are filled.
    pub open spec fn wf(&self, regs: nat) -> bool {
        match *self {
            Instruction::Op(op) => op.wf(regs),
            Instruction::Call(routine, args) => {
                &&& routine.wf()
                &&& args@.len() == routine.num_inputs
                &&& outputs_wf(args@, regs)
            },
            Instruction::Release(r) => 1 <= r < regs,
        }
    }

    /// What the instruction does to the resources of a driver that
    /// substitutes predicted outputs, or of one that does not.
    pub open spec fn usage(&self, before: Resources, predicts: bool) -> Result<Resources, Error> {
        match *self {
            Instruction::Op(op) => op.usage(before),
            Instruction::Call(routine, _) => if predicts && routine.predictable() {
                Ok(before)
            } else {
                routine.usage(before)
            },
            Instruction::Release(_) => Ok(before),
        }
    }

    /// The values of the registers after the instruction.
    pub open spec fn values(&self, before: Seq<nat>) -> Seq<nat> {
        match *self {
            Instruction::Op(op) => op.values(before),
            Instruction::Call(routine, args) => before + routine.values(
                before[0],
                Seq::new(args@.len(), |k: int| before[args@[k] as int]),
            ),
            Instruction::Release(r) => before.update(r as int, before[0]),
        }
    }
}

/// The number of registers that the instructions fill.
pub open spec fn steps_make(steps: Seq<Instruction>) -> nat
    decreases steps.len(),
{
    if steps.len() == 0 {
        0
    } else {
        steps_make(steps.drop_last()) + steps.last().makes()
    }
}

/// What the instructions do to the resources of a driver.
pub open spec fn steps_usage(steps: Seq<Instruction>, before: Resources, predicts: bool) -> Result<
    Resources,
    Error,
>
    decreases steps.len(),
{
    if steps.len() == 0 {
        Ok(before)
    } else {
        match steps_usage(steps.drop_last(), before, predicts) {
            Ok(u) => steps.last().usage(u, predicts),
            Err(e) => Err(e),
        }
    }
}

/// The values of the registers after the instructions.
pub open spec fn steps_values(steps: Seq<Instruction>, before: Seq<nat>) -> Seq<nat>
    decreases steps.len(),
{
    if steps.len() == 0 {
        before
    } else {
        steps.last().values(steps_values(steps.drop_last(), before))
    }
}

/// A circuit: instructions, and the registers whose wires are its output.
#[derive(Debug)]
pub struct Circuit {
    /// The instructions, in the order in which they are carried out.
    pub steps: Vec<Instruction>,
    /// The registers whose wires the circuit gives back.
    pub outputs: Vec<usize>,
}

impl Circuit {
    /// The circuit names only registers that are filled.
    pub open spec fn wf(&self) -> bool {
        &&& forall|k: int|
            0 <= k < self.steps@.len() ==> (#[trigger] self.steps@[k]).wf(
                1 + steps_make(self.steps@.take(k)),
            )
        &&& outputs_wf(self.outputs@, 1 + steps_make(self.steps@))
    }

    /// What synthesizing the circuit does to the resources of a driver.
    pub open spec fn usage(&self, before: Resources, predicts: bool) -> Result<Resources, Error> {
        steps_usage(self.steps@, before, predicts)
    }

    /// The values of the wires that the circuit gives back.
    pub open spec fn values(&self, one: nat) -> Seq<nat> {
        let regs = steps_values(self.steps@, seq![one]);
        Seq::new(self.outputs@.len(), |k: int| regs[self.outputs@[k] as int])
    }
}

/// What a driver has used of its capacity, and what it may use.
pub struct Resources {
    /// The number of multiplication gates allocated.
    pub gates: nat,
    /// The largest number of gates, if there is a limit.
    pub gate_limit: Option<usize>,
    /// The number of linear constraints enforced.
    pub constraints: nat,
    /// The largest number of constraints, if there is a limit.
    pub constraint_limit: Option<usize>,
    /// Whether single wires share gates: two to a gate.
    pub pairing: bool,
    /// Whether a gate has a leg that the next single wire can take.
    pub paired: bool,
}

impl Resources {
    /// The resources after one more multiplication gate.
    pub open spec fn mul(self) -> Result<Resources, Error> {
        match self.gate_limit {
            Some(limit) if self.gates == limit => Err(Error::MultiplicationBoundExceeded(limit)),
            _ => Ok(Resources { gates: self.gates + 1, ..self }),
        }
    }

    /// The resources after one more single wire: it takes the unused leg of
    /// the last gate that was allocated for a single wire, or else a gate of
    /// its own, whose right leg the next single wire can take if wires
    /// share gates.
    pub open spec fn allocate(self) -> Result<Resources, Error> {
        if self.paired {
            Ok(Resources { paired: false, ..self })
        } else {
            match self.mul() {
                Ok(u) => Ok(Resources { paired: self.pairing, ..u }),
                Err(e) => Err(e),
            }
        }
    }

    /// The resources after one more linear constraint.
    pub open spec fn enforce_zero(self) -> Result<Resources, Error> {
        match self.constraint_limit {
            Some(limit) if self.constraints == limit => Err(Error::LinearBoundExceeded(limit)),
            _ => Ok(Resources { constraints: self.constraints + 1, ..self }),
        }
    }

    /// The resources after `n` more linear constraints.
    pub open spec fn enforce_times(self, n: nat) -> Result<Resources, Error>
        decreases n,
    {
        if n == 0 {
            Ok(self)
        } else {
            match self.enforce_times((n - 1) as nat) {
                Ok(u) => u.enforce_zero(),
                Err(e) => Err(e),
            }
        }
    }

    /// The resources after `n` more single wires.
    pub open spec fn allocate_times(self, n: nat) -> Result<Resources, Error>
        decreases n,
    {
        if n == 0 {
            Ok(self)
        } else {
            match self.allocate_times((n - 1) as nat) {
                Ok(u) => u.allocate(),
                Err(e) => Err(e),
            }
        }
    }

    /// Once a single wire has been refused, every longer run of single
    /// wires fails with the same error.
    pub proof fn lemma_allocate_times_prefix(self, k: nat, n: nat)
        requires
            k <= n,
            self.allocate_times(k) is Err,
        ensures
            self.allocate_times(n) == self.allocate_times(k),
        decreases n,
    {
        if k < n {
            self.lemma_allocate_times_prefix(k, (n - 1) as nat);
        }
    }

    /// Allocating `a` wires and then `b` wires is allocating `a + b`
    /// wires.
    pub proof fn lemma_allocate_times_add(self, a: nat, b: nat)
        ensures
            self.allocate_times(a + b) == match self.allocate_times(a) {
                Ok(u) => u.allocate_times(b),
                Err(e) => Err(e),
            },
        decreases b,
    {
        if b > 0 {
            self.lemma_allocate_times_add(a, (b - 1) as nat);
        }
    }

    /// The resources after `n` more multiplication gates.
    pub open spec fn mul_times(self, n: nat) -> Result<Resources, Error>
        decreases n,
    {
        if n == 0 {
            Ok(self)
        } else {
            match self.mul_times((n - 1) as nat) {
                Ok(u) => u.mul(),
                Err(e) => Err(e),
            }
        }
    }

    /// Once a constraint has failed, every longer run of constraints fails
    /// with the same error.
    pub proof fn lemma_enforce_times_prefix(self, k: nat, n: nat)
        requires
            k <= n,
            self.enforce_times(k) is Err,
        ensures
            self.enforce_times(n) == self.enforce_times(k),
        decreases n,
    {
        if k < n {
            self.lemma_enforce_times_prefix(k, (n - 1) as nat);
        }
    }

    /// With a limit of `n` gates and none allocated yet,
    /// each of the first `n` gates is granted, and the next is refused with
    /// the error that carries the limit.
    pub proof fn lemma_gate_bound(self, n: usize, k: nat)
        requires
            self.gates == 0,
            self.gate_limit == Some(n),
            k <= n,
        ensures
            self.mul_times(k) == Ok::<Resources, Error>(Resources { gates: k, ..self }),
            self.mul_times((n + 1) as nat) == Err::<Resources, Error>(
                Error::MultiplicationBoundExceeded(n),
            ),
        decreases n + 1 - k,
    {
        self.lemma_mul_times(n, k);
        self.lemma_mul_times(n, n as nat);
    }

    proof fn lemma_mul_times(self, n: usize, k: nat)
        requires
            self.gates == 0,
            self.gate_limit == Some(n),
            k <= n,
        ensures
            self.mul_times(k) == Ok::<Resources, Error>(Resources { gates: k, ..self }),
        decreases k,
    {
        if k > 0 {
            self.lemma_mul_times(n, (k - 1) as nat);
        }
    }
}

/// What every interpreter of circuits offers.
pub trait Driver: Sized {
    /// What stands for a wire.
    type Wire: Copy;

    /// The driver is in a consistent state.
    spec fn wf(&self) -> bool;

    /// What the driver has used so far, and its limits.
    spec fn usage(&self) -> Resources;

    /// The wire can be handed to this driver.
    spec fn valid(&self, wire: Self::Wire) -> bool;

    /// The driver gives each wire a value.
    spec fn tracks(&self) -> bool;

    /// The driver returns the predicted output of a routine without
    /// carrying the routine out.
    spec fn predicts(&self) -> bool;

    /// The value of a wire, for a driver that gives wires values.
    spec fn value_of(wire: Self::Wire) -> nat;

    /// The unused leg of a gate that the next single wire takes, if there
    /// is one.
    spec fn spare(&self) -> Option<Self::Wire>;

    /// What asking for one single wire does: `after` is the driver
    /// `before` once a wire with the value `value` was asked for, and `r`
    /// is what the driver answered.
    spec fn allocates(before: Self, value: Coeff, after: Self, r: Result<Self::Wire, Error>) -> bool;

    /// The wire that stands for the constant one.
    fn one(&self) -> (wire: Self::Wire)
        requires
            self.wf(),
        ensures
            self.valid(wire),
            self.tracks() ==> Self::value_of(wire) == 1,
    ;

    /// Makes one wire with the given value.
    fn allocate(&mut self, value: Coeff) -> (r: Result<Self::Wire, Error>)
        requires
            old(self).wf(),
            value.wf(),
        ensures
            final(self).wf(),
            final(self).tracks() == old(self).tracks(),
            final(self).predicts() == old(self).predicts(),
            forall|w: Self::Wire| old(self).valid(w) ==> final(self).valid(w),
            match old(self).usage().allocate() {
                Ok(u) => r matches Ok(w) && final(self).usage() == u && final(self).valid(w) && (
                final(self).tracks() ==> Self::value_of(w) == value.val()),
                Err(e) => r matches Err(x) && x == e && final(self).usage() == old(self).usage(),
            },
            Self::allocates(*old(self), value, *final(self), r),
    ;

    /// Makes the three wires of a multiplication gate, with the given
    /// values.
    fn mul(&mut self, a: Coeff, b: Coeff, c: Coeff) -> (r: Result<
        (Self::Wire, Self::Wire, Self::Wire),
        Error,
    >)
        requires
            old(self).wf(),
            a.wf(),
            b.wf(),
            c.wf(),
        ensures
            final(self).wf(),
            final(self).tracks() == old(self).tracks(),
            final(self).predicts() == old(self).predicts(),
            forall|w: Self::Wire| old(self).valid(w) ==> final(self).valid(w),
            match old(self).usage().mul() {
                Ok(u) => r matches Ok(w) && final(self).usage() == u && final(self).valid(w.0)
                    && final(self).valid(w.1) && final(self).valid(w.2) && (final(self).tracks()
                    ==> Self::value_of(w.0) == a.val() && Self::value_of(w.1) == b.val()
                    && Self::value_of(w.2) == c.val()),
                Err(e) => r matches Err(x) && x == e && final(self).usage() == old(self).usage(),
            },
    ;

    /// Makes a wire that is the linear combination that the steps build.
    fn add(&mut self, lc: &Vec<Step<Self::Wire>>) -> (wire: Self::Wire)
        requires
            old(self).wf(),
            forall|k: int|
                0 <= k < lc@.len() ==> (#[trigger] lc@[k]).wf() && (lc@[k] matches Step::Term(w, _)
                    ==> old(self).valid(w)),
        ensures
            final(self).wf(),
            final(self).tracks() == old(self).tracks(),
            final(self).predicts() == old(self).predicts(),
            forall|w: Self::Wire| old(self).valid(w) ==> final(self).valid(w),
            final(self).usage() == old(self).usage(),
            final(self).spare() == old(self).spare(),
            final(self).valid(wire),
            final(self).tracks() ==> Self::value_of(wire) == lc_sum(
                lc@,
                |w: Self::Wire| Self::value_of(w),
            ),
    ;

    /// Requires the linear combination that the steps build to be zero.
    fn enforce_zero(&mut self, lc: &Vec<Step<Self::Wire>>) -> (r: Result<(), Error>)
        requires
            old(self).wf(),
            forall|k: int|
                0 <= k < lc@.len() ==> (#[trigger] lc@[k]).wf() && (lc@[k] matches Step::Term(w, _)
                    ==> old(self).valid(w)),
        ensures
            final(self).wf(),
            final(self).tracks() == old(self).tracks(),
            final(self).predicts() == old(self).predicts(),
            forall|w: Self::Wire| old(self).valid(w) ==> final(self).valid(w),
            match old(self).usage().enforce_zero() {
                Ok(u) => r is Ok && final(self).usage() == u,
                Err(e) => r matches Err(x) && x == e && final(self).usage() == old(self).usage(),
            },
    ;

    /// Whether the driver returns the predicted output of a routine without
    /// carrying the routine out.
    fn predicting(&self) -> (r: bool)
        requires
            self.wf(),
        ensures
            r == self.predicts(),
    ;

    /// Puts aside the unused leg of a gate, if there is one, and returns
    /// it: the single wire that comes next takes a gate of its own.
    fn suspend(&mut self) -> (saved: Option<Self::Wire>)
        requires
            old(self).wf(),
        ensures
            final(self).wf(),
            final(self).tracks() == old(self).tracks(),
            final(self).predicts() == old(self).predicts(),
            forall|w: Self::Wire| old(self).valid(w) ==> final(self).valid(w),
            final(self).usage() == (Resources { paired: false, ..old(self).usage() }),
            saved is Some == old(self).usage().paired,
            saved matches Some(w) ==> final(self).valid(w),
            saved == old(self).spare(),
            saved is Some ==> old(self).usage().pairing,
            final(self).spare() is None,
    ;

    /// Takes back what `suspend` returned. An unused leg that was found in
    /// the meantime is dropped.
    fn resume(&mut self, saved: Option<Self::Wire>)
        requires
            old(self).wf(),
            saved matches Some(w) ==> old(self).valid(w),
        ensures
            final(self).wf(),
            final(self).tracks() == old(self).tracks(),
            final(self).predicts() == old(self).predicts(),
            forall|w: Self::Wire| old(self).valid(w) ==> final(self).valid(w),
            final(self).usage() == (Resources {
                paired: saved is Some && old(self).usage().pairing,
                ..old(self).usage()
            }),
            final(self).spare() == if old(self).usage().pairing {
                saved
            } else {
                None::<Self::Wire>
            },
    ;
}

/// The values that a driver gives to the wires.
pub open spec fn wire_values<D: Driver>(wires: Seq<D::Wire>) -> Seq<nat> {
    Seq::new(wires.len(), |k: int| D::value_of(wires[k]))
}

/// Every wire is one that the driver accepts.
pub open spec fn all_valid<D: Driver>(dr: &D, wires: Seq<D::Wire>) -> bool {
    forall|k: int| 0 <= k < wires.len() ==> dr.valid(#[trigger] wires[k])
}

/// Two lists of steps with the same coefficients, over wires with the same
/// values, build linear combinations with the same value.
pub proof fn lemma_lc_sum_related<A, B>(
    sa: Seq<Step<A>>,
    sb: Seq<Step<B>>,
    fa: spec_fn(A) -> nat,
    fb: spec_fn(B) -> nat,
)
    requires
        sa.len() == sb.len(),
        forall|k: int|
            0 <= k < sa.len() ==> match (#[trigger] sa[k], sb[k]) {
                (Step::Term(wa, ca), Step::Term(wb, cb)) => ca == cb && fa(wa) == fb(wb),
                (Step::Gain(ca), Step::Gain(cb)) => ca == cb,
                _ => false,
            },
    ensures
        lc_gain(sa) == lc_gain(sb),
        lc_sum(sa, fa) == lc_sum(sb, fb),
    decreases sa.len(),
{
    if sa.len() > 0 {
        let pa = sa.drop_last();
        let pb = sb.drop_last();
        assert forall|k: int| 0 <= k < pa.len() implies match (#[trigger] pa[k], pb[k]) {
            (Step::Term(wa, ca), Step::Term(wb, cb)) => ca == cb && fa(wa) == fb(wb),
            (Step::Gain(ca), Step::Gain(cb)) => ca == cb,
            _ => false,
        } by {
            assert(pa[k] == sa[k]);
            assert(pb[k] == sb[k]);
        }
        lemma_lc_sum_related(pa, pb, fa, fb);
        assert(sa.last() == sa[sa.len() - 1]);
        assert(sb.last() == sb[sb.len() - 1]);
    }
}

/// Instructions change what is used, never the limits.
pub proof fn lemma_ops_usage_limits(ops: Seq<Op>, before: Resources)
    ensures
        ops_usage(ops, before) matches Ok(u) ==> {
            &&& u.gate_limit == before.gate_limit
            &&& u.constraint_limit == before.constraint_limit
            &&& u.pairing == before.pairing
            &&& u.gates >= before.gates
            &&& u.constraints >= before.constraints
        },
    decreases ops.len(),
{
    if ops.len() > 0 {
        lemma_ops_usage_limits(ops.drop_last(), before);
    }
}

/// Once an instruction has failed, the whole list fails with its error.
pub proof fn lemma_ops_usage_prefix(ops: Seq<Op>, before: Resources, k: int)
    requires
        0 <= k <= ops.len(),
        ops_usage(ops.take(k), before) is Err,
    ensures
        ops_usage(ops, before) == ops_usage(ops.take(k), before),
    decreases ops.len() - k,
{
    if k < ops.len() {
        assert(ops.take(k + 1).drop_last() =~= ops.take(k));
        lemma_ops_usage_prefix(ops, before, k + 1);
    } else {
        assert(ops.take(k) =~= ops);
    }
}

/// Without limits no instruction fails.
pub proof fn lemma_ops_usage_unlimited(ops: Seq<Op>, before: Resources)
    requires
        before.gate_limit is None,
        before.constraint_limit is None,
    ensures
        ops_usage(ops, before) is Ok,
    decreases ops.len(),
{
    if ops.len() > 0 {
        lemma_ops_usage_unlimited(ops.drop_last(), before);
        lemma_ops_usage_limits(ops.drop_last(), before);
    }
}

/// Without limits no instruction of a circuit fails, and the limits stay
/// as they are.
pub proof fn lemma_steps_usage_unlimited(steps: Seq<Instruction>, before: Resources, predicts: bool)
    requires
        before.gate_limit is None,
        before.constraint_limit is None,
    ensures
        steps_usage(steps, before, predicts) matches Ok(u) && {
            &&& u.gate_limit is None
            &&& u.constraint_limit is None
            &&& u.pairing == before.pairing
        },
    decreases steps.len(),
{
    if steps.len() > 0 {
        lemma_steps_usage_unlimited(steps.drop_last(), before, predicts);
        let u = steps_usage(steps.drop_last(), before, predicts)->Ok_0;
        match steps.last() {
            Instruction::Op(op) => {},
            Instruction::Call(routine, _) => {
                lemma_ops_usage_unlimited(routine.ops@, Resources { paired: false, ..u });
                lemma_ops_usage_limits(routine.ops@, Resources { paired: false, ..u });
            },
            Instruction::Release(_) => {},
        }
    }
}

/// Once an instruction has failed, the whole list fails with its error.
pub proof fn lemma_steps_usage_prefix(
    steps: Seq<Instruction>,
    before: Resources,
    predicts: bool,
    k: int,
)
    requires
        0 <= k <= steps.len(),
        steps_usage(steps.take(k), before, predicts) is Err,
    ensures
        steps_usage(steps, before, predicts) == steps_usage(steps.take(k), before, predicts),
    decreases steps.len() - k,
{
    if k < steps.len() {
        assert(steps.take(k + 1).drop_last() =~= steps.take(k));
        lemma_steps_usage_prefix(steps, before, predicts, k + 1);
    } else {
        assert(steps.take(k) =~= steps);
    }
}

/// Replaces the registers in the steps by the wires that they hold.
pub fn map_steps<D: Driver>(steps: &Vec<Step<usize>>, env: &Vec<D::Wire>) -> (lc: Vec<
    Step<D::Wire>,
>)
    requires
        steps_wf(steps@, env@.len()),
    ensures
        lc@.len() == steps@.len(),
        forall|k: int|
            0 <= k < steps@.len() ==> (#[trigger] lc@[k]) == match steps@[k] {
                Step::Term(r, c) => Step::Term(env@[r as int], c),
                Step::Gain(c) => Step::<D::Wire>::Gain(c),
            },
{
    let mut lc: Vec<Step<D::Wire>> = Vec::new();
    let mut k: usize = 0;
    while k < steps.len()
        invariant
            0 <= k <= steps@.len(),
            steps_wf(steps@, env@.len()),
            lc@.len() == k,
            forall|j: int|
                0 <= j < k ==> (#[trigger] lc@[j]) == match steps@[j] {
                    Step::Term(r, c) => Step::Term(env@[r as int], c),
                    Step::Gain(c) => Step::<D::Wire>::Gain(c),
                },
        decreases steps@.len() - k,
    {
        proof {
            assert(steps@[k as int].wf());
        }
        match steps[k] {
            Step::Term(r, c) => {
                lc.push(Step::Term(env[r], c));
            },
            Step::Gain(c) => {
                lc.push(Step::Gain(c));
            },
        }
        k += 1;
    }
    lc
}

/// A wire that stands for a constant: the constant wire times the
/// coefficient.
pub fn constant<D: Driver>(dr: &mut D, coeff: Coeff) -> (wire: D::Wire)
    requires
        old(dr).wf(),
        coeff.wf(),
    ensures
        final(dr).wf(),
        final(dr).tracks() == old(dr).tracks(),
        final(dr).predicts() == old(dr).predicts(),
        final(dr).usage() == old(dr).usage(),
        forall|w: D::Wire| old(dr).valid(w) ==> final(dr).valid(w),
        final(dr).valid(wire),
        final(dr).tracks() ==> D::value_of(wire) == coeff.val(),
{
    let mut lc: Vec<Step<D::Wire>> = Vec::new();
    lc.push(Step::Term(dr.one(), coeff));
    let wire = dr.add(&lc);
    proof {
        if dr.tracks() {
            let val = |w: D::Wire| D::value_of(w);
            assert(lc@.drop_last() =~= Seq::<Step<D::Wire>>::empty());
            assert(lc_gain(lc@.drop_last()) == 1);
            assert(lc_sum(lc@.drop_last(), val) == 0);
            crate::coeff::lemma_val_canonical(coeff);
            assert(coeff.val() * 1 == coeff.val());
            assert(1 * coeff.val() == coeff.val());
            vstd::arithmetic::div_mod::lemma_small_mod(coeff.val(), modulus());
        }
    }
    wire
}

/// Requires two wires to be equal: their difference is enforced to be zero.
pub fn enforce_equal<D: Driver>(dr: &mut D, a: D::Wire, b: D::Wire) -> (r: Result<(), Error>)
    requires
        old(dr).wf(),
        old(dr).valid(a),
        old(dr).valid(b),
    ensures
        final(dr).wf(),
        final(dr).tracks() == old(dr).tracks(),
        final(dr).predicts() == old(dr).predicts(),
        forall|w: D::Wire| old(dr).valid(w) ==> final(dr).valid(w),
        match old(dr).usage().enforce_zero() {
            Ok(u) => r is Ok && final(dr).usage() == u,
            Err(e) => r matches Err(x) && x == e && final(dr).usage() == old(dr).usage(),
        },
{
    let mut lc: Vec<Step<D::Wire>> = Vec::new();
    lc.push(Step::Term(a, Coeff::One));
    lc.push(Step::Term(b, Coeff::NegativeOne));
    dr.enforce_zero(&lc)
}

impl Op {
    /// Carries out the instruction on a driver. The wires that it makes are
    /// put at the end of `env`, which holds the wires of the registers.
    pub fn synthesize<D: Driver>(&self, dr: &mut D, env: &mut Vec<D::Wire>) -> (r: Result<
        (),
        Error,
    >)
        requires
            old(dr).wf(),
            self.wf(old(env)@.len()),
            all_valid(old(dr), old(env)@),
        ensures
            final(dr).wf(),
            final(dr).tracks() == old(dr).tracks(),
            final(dr).predicts() == old(dr).predicts(),
            forall|w: D::Wire| old(dr).valid(w) ==> final(dr).valid(w),
            match self.usage(old(dr).usage()) {
                Ok(u) => {
                    &&& r is Ok
                    &&& final(dr).usage() == u
                    &&& final(env)@.len() == old(env)@.len() + self.makes()
                    &&& final(env)@.subrange(0, old(env)@.len() as int) == old(env)@
                    &&& all_valid(final(dr), final(env)@)
                    &&& final(dr).tracks() ==> wire_values::<D>(final(env)@) == self.values(
                        wire_values::<D>(old(env)@),
                    )
                },
                Err(e) => r matches Err(x) && x == e && final(dr).usage() == old(dr).usage()
                    && final(env)@ == old(env)@ && all_valid(final(dr), final(env)@),
            },
    {
        let ghost env0 = env@;
        match self {
            Op::Alloc(value) => {
                let wire = dr.allocate(*value)?;
                env.push(wire);
                proof {
                    assert(env@.subrange(0, env0.len() as int) =~= env0);
                    if dr.tracks() {
                        assert(wire_values::<D>(env@) =~= wire_values::<D>(env0).push(
                            value.val(),
                        ));
                    }
                }
            },
            Op::Mul(a, b, c) => {
                let (x, y, z) = dr.mul(*a, *b, *c)?;
                env.push(x);
                env.push(y);
                env.push(z);
                proof {
                    assert(env@.subrange(0, env0.len() as int) =~= env0);
                    if dr.tracks() {
                        assert(wire_values::<D>(env@) =~= wire_values::<D>(env0).push(
                            a.val(),
                        ).push(b.val()).push(c.val()));
                    }
                }
            },
            Op::Add(steps) => {
                let lc = map_steps::<D>(steps, env);
                let wire = dr.add(&lc);
                env.push(wire);
                proof {
                    assert(env@.subrange(0, env0.len() as int) =~= env0);
                    let vals = wire_values::<D>(env0);
                    lemma_lc_sum_related(
                        lc@,
                        steps@,
                        |w: D::Wire| D::value_of(w),
                        |r: usize| vals[r as int],
                    );
                    assert(wire_values::<D>(env@) =~= vals.push(D::value_of(wire)));
                }
            },
            Op::EnforceZero(steps) => {
                let lc = map_steps::<D>(steps, env);
                dr.enforce_zero(&lc)?;
                proof {
                    assert(env@.subrange(0, env0.len() as int) =~= env0);
                }
            },
        }
        Ok(())
    }
}

/// Carries out the instructions one after the other, until one fails.
pub fn synthesize_ops<D: Driver>(ops: &Vec<Op>, dr: &mut D, env: &mut Vec<D::Wire>) -> (r: Result<
    (),
    Error,
>)
    requires
        old(dr).wf(),
        ops_wf(ops@, old(env)@.len()),
        all_valid(old(dr), old(env)@),
    ensures
        final(dr).wf(),
        final(dr).tracks() == old(dr).tracks(),
        final(dr).predicts() == old(dr).predicts(),
        forall|w: D::Wire| old(dr).valid(w) ==> final(dr).valid(w),
        all_valid(final(dr), final(env)@),
        match ops_usage(ops@, old(dr).usage()) {
            Ok(u) => {
                &&& r is Ok
                &&& final(dr).usage() == u
                &&& final(env)@.len() == old(env)@.len() + ops_make(ops@)
                &&& final(env)@.subrange(0, old(env)@.len() as int) == old(env)@
                &&& final(dr).tracks() ==> wire_values::<D>(final(env)@) == ops_values(
                    ops@,
                    wire_values::<D>(old(env)@),
                )
            },
            Err(e) => r matches Err(x) && x == e,
        },
{
    let ghost env0 = env@;
    let ghost u0 = dr.usage();
    let mut k: usize = 0;
    proof {
        assert(ops@.take(0) =~= Seq::<Op>::empty());
        assert(env@.subrange(0, env0.len() as int) =~= env0);
    }
    while k < ops.len()
        invariant
            0 <= k <= ops@.len(),
            dr.wf(),
            dr.tracks() == old(dr).tracks(),
            dr.predicts() == old(dr).predicts(),
            forall|w: D::Wire| old(dr).valid(w) ==> dr.valid(w),
            ops_wf(ops@, env0.len()),
            all_valid(dr, env@),
            u0 == old(dr).usage(),
            env0 == old(env)@,
            ops_usage(ops@.take(k as int), u0) == Ok::<Resources, Error>(dr.usage()),
            env@.len() == env0.len() + ops_make(ops@.take(k as int)),
            env@.subrange(0, env0.len() as int) == env0,
            dr.tracks() ==> wire_values::<D>(env@) == ops_values(
                ops@.take(k as int),
                wire_values::<D>(env0),
            ),
        decreases ops@.len() - k,
    {
        let ghost before = env@;
        proof {
            assert(ops@.take(k as int + 1).drop_last() =~= ops@.take(k as int));
            assert(ops@.take(k as int + 1).last() == ops@[k as int]);
            assert(ops@[k as int].wf(env0.len() + ops_make(ops@.take(k as int))));
        }
        match ops[k].synthesize(dr, env) {
            Ok(()) => {},
            Err(e) => {
                proof {
                    lemma_ops_usage_prefix(ops@, u0, k as int + 1);
                }
                return Err(e);
            },
        }
        proof {
            assert(env@.subrange(0, env0.len() as int) =~= before.subrange(0, env0.len() as int));
        }
        k += 1;
    }
    proof {
        assert(ops@.take(k as int) =~= ops@);
    }
    Ok(())
}

/// The wires that the registers hold.
pub fn select<D: Driver>(registers: &Vec<usize>, env: &Vec<D::Wire>) -> (wires: Vec<D::Wire>)
    requires
        outputs_wf(registers@, env@.len()),
    ensures
        wires@.len() == registers@.len(),
        forall|k: int| 0 <= k < wires@.len() ==> (#[trigger] wires@[k]) == env@[registers@[k] as int],
{
    let mut wires: Vec<D::Wire> = Vec::new();
    let mut k: usize = 0;
    while k < registers.len()
        invariant
            0 <= k <= registers@.len(),
            outputs_wf(registers@, env@.len()),
            wires@.len() == k,
            forall|j: int| 0 <= j < k ==> (#[trigger] wires@[j]) == env@[registers@[j] as int],
        decreases registers@.len() - k,
    {
        wires.push(env[registers[k]]);
        k += 1;
    }
    wires
}

impl Routine {
    /// Carries out every instruction of the routine on a driver and
    /// returns the wires of its output registers.
    pub fn execute<D: Driver>(&self, dr: &mut D, input: &Vec<D::Wire>) -> (r: Result<
        Vec<D::Wire>,
        Error,
    >)
        requires
            old(dr).wf(),
            self.wf(),
            input@.len() == self.num_inputs,
            all_valid(old(dr), input@),
        ensures
            final(dr).wf(),
            final(dr).tracks() == old(dr).tracks(),
            final(dr).predicts() == old(dr).predicts(),
            forall|w: D::Wire| old(dr).valid(w) ==> final(dr).valid(w),
            match ops_usage(self.ops@, old(dr).usage()) {
                Ok(u) => r matches Ok(output) && {
                    &&& final(dr).usage() == u
                    &&& output@.len() == self.outputs@.len()
                    &&& all_valid(final(dr), output@)
                    &&& final(dr).tracks() ==> wire_values::<D>(output@) == self.values(
                        1,
                        wire_values::<D>(input@),
                    )
                },
                Err(e) => r matches Err(x) && x == e,
            },
    {
        let mut env: Vec<D::Wire> = Vec::new();
        env.push(dr.one());
        let mut k: usize = 0;
        while k < input.len()
            invariant
                0 <= k <= input@.len(),
                env@.len() == 1 + k,
                dr.valid(env@[0]),
                dr.tracks() ==> D::value_of(env@[0]) == 1,
                all_valid(dr, input@),
                forall|j: int| 0 <= j < k ==> (#[trigger] env@[1 + j]) == input@[j],
            decreases input@.len() - k,
        {
            env.push(input[k]);
            k += 1;
        }
        proof {
            if dr.tracks() {
                let left = wire_values::<D>(env@);
                let right = seq![1nat] + wire_values::<D>(input@);
                assert forall|j: int| 0 <= j < left.len() implies left[j] == right[j] by {
                    if j > 0 {
                        assert(env@[1 + (j - 1)] == input@[j - 1]);
                    }
                }
                assert(left =~= right);
            }
            assert forall|j: int| 0 <= j < env@.len() implies dr.valid(#[trigger] env@[j]) by {
                if j > 0 {
                    assert(env@[1 + (j - 1)] == input@[j - 1]);
                }
            }
        }
        synthesize_ops(&self.ops, dr, &mut env)?;
        let output = select::<D>(&self.outputs, &env);
        proof {
            assert(dr.tracks() ==> wire_values::<D>(output@) =~= self.values(
                1,
                wire_values::<D>(input@),
            ));
        }
        Ok(output)
    }
}

/// The values of the registers do not depend on the constraints: a
/// predictable routine gives the same values whether its constraints are
/// carried out or left out.
pub open spec fn linear_values(ops: Seq<Op>, before: Seq<nat>) -> Seq<nat>
    decreases ops.len(),
{
    if ops.len() == 0 {
        before
    } else {
        let env = linear_values(ops.drop_last(), before);
        match ops.last() {
            Op::Add(steps) => env.push(lc_sum(steps@, |r: usize| env[r as int])),
            _ => env,
        }
    }
}

/// For instructions that make no wire of their own, the values computed
/// from the linear combinations alone are those of the full execution.
pub proof fn lemma_linear_values(ops: Seq<Op>, before: Seq<nat>)
    requires
        forall|k: int| 0 <= k < ops.len() ==> op_is_linear(#[trigger] ops[k]),
    ensures
        linear_values(ops, before) == ops_values(ops, before),
    decreases ops.len(),
{
    if ops.len() > 0 {
        let rest = ops.drop_last();
        assert forall|k: int| 0 <= k < rest.len() implies op_is_linear(#[trigger] rest[k]) by {
            assert(rest[k] == ops[k]);
        }
        lemma_linear_values(rest, before);
        assert(op_is_linear(ops[ops.len() - 1]));
    }
}

impl Routine {
    /// Computes the output of a predictable routine without carrying the
    /// routine out: the linear combinations are built, and the constraints
    /// are left out.
    #[verifier::rlimit(50)]
    pub fn predicted<D: Driver>(&self, dr: &mut D, input: &Vec<D::Wire>) -> (output: Vec<D::Wire>)
        requires
            old(dr).wf(),
            self.wf(),
            self.predictable(),
            input@.len() == self.num_inputs,
            all_valid(old(dr), input@),
        ensures
            final(dr).wf(),
            final(dr).tracks() == old(dr).tracks(),
            final(dr).predicts() == old(dr).predicts(),
            forall|w: D::Wire| old(dr).valid(w) ==> final(dr).valid(w),
            final(dr).usage() == old(dr).usage(),
            final(dr).spare() == old(dr).spare(),
            output@.len() == self.outputs@.len(),
            all_valid(final(dr), output@),
            final(dr).tracks() ==> wire_values::<D>(output@) == self.values(
                1,
                wire_values::<D>(input@),
            ),
    {
        let mut env: Vec<D::Wire> = Vec::new();
        env.push(dr.one());
        let mut k: usize = 0;
        while k < input.len()
            invariant
                0 <= k <= input@.len(),
                env@.len() == 1 + k,
                dr.valid(env@[0]),
                dr.tracks() ==> D::value_of(env@[0]) == 1,
                all_valid(dr, input@),
                forall|j: int| 0 <= j < k ==> (#[trigger] env@[1 + j]) == input@[j],
            decreases input@.len() - k,
        {
            env.push(input[k]);
            k += 1;
        }
        let ghost env0 = env@;
        let ghost vals0 = wire_values::<D>(env0);
        proof {
            if dr.tracks() {
                let right = seq![1nat] + wire_values::<D>(input@);
                assert forall|j: int| 0 <= j < vals0.len() implies vals0[j] == right[j] by {
                    if j > 0 {
                        assert(env@[1 + (j - 1)] == input@[j - 1]);
                    }
                }
                assert(vals0 =~= right);
            }
            assert forall|j: int| 0 <= j < env@.len() implies dr.valid(#[trigger] env@[j]) by {
                if j > 0 {
                    assert(env@[1 + (j - 1)] == input@[j - 1]);
                }
            }
            assert(self.ops@.take(0) =~= Seq::<Op>::empty());
        }
        let mut k: usize = 0;
        while k < self.ops.len()
            invariant
                0 <= k <= self.ops@.len(),
                dr.wf(),
                self.wf(),
                self.predictable(),
                dr.tracks() == old(dr).tracks(),
                dr.predicts() == old(dr).predicts(),
                dr.usage() == old(dr).usage(),
                dr.spare() == old(dr).spare(),
                forall|w: D::Wire| old(dr).valid(w) ==> dr.valid(w),
                all_valid(dr, env@),
                env0.len() == 1 + self.num_inputs as nat,
                vals0 == wire_values::<D>(env0),
                env@.len() == env0.len() + ops_make(self.ops@.take(k as int)),
                dr.tracks() ==> wire_values::<D>(env@) == linear_values(
                    self.ops@.take(k as int),
                    vals0,
                ),
            decreases self.ops@.len() - k,
        {
            let ghost before = env@;
            proof {
                assert(self.ops@.take(k as int + 1).drop_last() =~= self.ops@.take(k as int));
                assert(self.ops@.take(k as int + 1).last() == self.ops@[k as int]);
                assert(self.ops@[k as int].wf(env0.len() + ops_make(self.ops@.take(k as int))));
                assert(op_is_linear(self.ops@[k as int]));
            }
            match &self.ops[k] {
                Op::Add(steps) => {
                    let lc = map_steps::<D>(steps, &env);
                    let wire = dr.add(&lc);
                    env.push(wire);
                    proof {
                        if dr.tracks() {
                            let vals = wire_values::<D>(before);
                            lemma_lc_sum_related(
                                lc@,
                                steps@,
                                |w: D::Wire| D::value_of(w),
                                |r: usize| vals[r as int],
                            );
                            assert(wire_values::<D>(env@) =~= vals.push(D::value_of(wire)));
                        }
                    }
                },
                _ => {},
            }
            k += 1;
        }
        proof {
            assert(self.ops@.take(k as int) =~= self.ops@);
            lemma_linear_values(self.ops@, vals0);
        }
        let output = select::<D>(&self.outputs, &env);
        proof {
            if dr.tracks() {
                assert(wire_values::<D>(output@) =~= self.values(1, wire_values::<D>(input@)));
            }
        }
        output
    }
}

/// Carries out a routine on the given wires and returns its output. A
/// driver that predicts returns the output of a predictable routine without
/// carrying the routine out; the values of the output are the same either
/// way. An unused leg of a gate is put aside for the time of the routine,
/// so that what the routine allocates does not depend on its caller: the
/// first single wire of the routine takes a gate of its own, the caller
/// finds the same leg again afterwards, and a leg that the routine left
/// unused is dropped.
pub fn routine<D: Driver>(dr: &mut D, callee: &Routine, input: &Vec<D::Wire>) -> (r: Result<
    Vec<D::Wire>,
    Error,
>)
    requires
        old(dr).wf(),
        callee.wf(),
        input@.len() == callee.num_inputs,
        all_valid(old(dr), input@),
    ensures
        final(dr).wf(),
        final(dr).tracks() == old(dr).tracks(),
        final(dr).predicts() == old(dr).predicts(),
        forall|w: D::Wire| old(dr).valid(w) ==> final(dr).valid(w),
        match (if old(dr).predicts() && callee.predictable() {
            Ok(old(dr).usage())
        } else {
            callee.usage(old(dr).usage())
        }) {
            Ok(u) => r matches Ok(output) && {
                &&& final(dr).usage() == u
                &&& final(dr).spare() == old(dr).spare()
                &&& output@.len() == callee.outputs@.len()
                &&& all_valid(final(dr), output@)
                &&& final(dr).tracks() ==> wire_values::<D>(output@) == callee.values(
                    1,
                    wire_values::<D>(input@),
                )
            },
            Err(e) => r matches Err(x) && x == e,
        },
{
    if dr.predicting() && callee.predict() {
        Ok(callee.predicted(dr, input))
    } else {
        proof {
            lemma_ops_usage_limits(
                callee.ops@,
                Resources { paired: false, ..dr.usage() },
            );
        }
        let saved = dr.suspend();
        let output = callee.execute(dr, input)?;
        dr.resume(saved);
        Ok(output)
    }
}

/// Puts the wires of `more` at the end of `env`.
pub fn append<D: Driver>(env: &mut Vec<D::Wire>, more: &Vec<D::Wire>)
    ensures
        final(env)@ == old(env)@ + more@,
{
    let mut k: usize = 0;
    while k < more.len()
        invariant
            0 <= k <= more@.len(),
            env@ == old(env)@ + more@.subrange(0, k as int),
        decreases more@.len() - k,
    {
        env.push(more[k]);
        proof {
            assert(env@ =~= old(env)@ + more@.subrange(0, k as int + 1));
        }
        k += 1;
    }
    proof {
        assert(more@.subrange(0, k as int) =~= more@);
    }
}

impl Circuit {
    /// Synthesizes the circuit on a driver and returns the wires of its
    /// output registers.
    pub fn witness<D: Driver>(&self, dr: &mut D) -> (r: Result<Vec<D::Wire>, Error>)
        requires
            old(dr).wf(),
            self.wf(),
        ensures
            final(dr).wf(),
            final(dr).tracks() == old(dr).tracks(),
            final(dr).predicts() == old(dr).predicts(),
            forall|w: D::Wire| old(dr).valid(w) ==> final(dr).valid(w),
            match self.usage(old(dr).usage(), old(dr).predicts()) {
                Ok(u) => r matches Ok(output) && {
                    &&& final(dr).usage() == u
                    &&& output@.len() == self.outputs@.len()
                    &&& all_valid(final(dr), output@)
                    &&& final(dr).tracks() ==> wire_values::<D>(output@) == self.values(1)
                },
                Err(e) => r matches Err(x) && x == e,
            },
    {
        let ghost u0 = dr.usage();
        let ghost predicts = dr.predicts();
        let mut env: Vec<D::Wire> = Vec::new();
        env.push(dr.one());
        let mut k: usize = 0;
        proof {
            assert(self.steps@.take(0) =~= Seq::<Instruction>::empty());
            if dr.tracks() {
                assert(wire_values::<D>(env@) =~= seq![1nat]);
            }
        }
        while k < self.steps.len()
            invariant
                0 <= k <= self.steps@.len(),
                dr.wf(),
                self.wf(),
                dr.tracks() == old(dr).tracks(),
                dr.predicts() == predicts,
                predicts == old(dr).predicts(),
                u0 == old(dr).usage(),
                forall|w: D::Wire| old(dr).valid(w) ==> dr.valid(w),
                all_valid(dr, env@),
                steps_usage(self.steps@.take(k as int), u0, predicts) == Ok::<Resources, Error>(
                    dr.usage(),
                ),
                env@.len() == 1 + steps_make(self.steps@.take(k as int)),
                dr.tracks() ==> D::value_of(env@[0]) == 1,
                dr.tracks() ==> wire_values::<D>(env@) == steps_values(
                    self.steps@.take(k as int),
                    seq![1nat],
                ),
            decreases self.steps@.len() - k,
        {
            let ghost before = env@;
            proof {
                assert(self.steps@.take(k as int + 1).drop_last() =~= self.steps@.take(k as int));
                assert(self.steps@.take(k as int + 1).last() == self.steps@[k as int]);
                assert(self.steps@[k as int].wf(1 + steps_make(self.steps@.take(k as int))));
            }
            match &self.steps[k] {
                Instruction::Op(op) => {
                    match op.synthesize(dr, &mut env) {
                        Ok(()) => {},
                        Err(e) => {
                            proof {
                                lemma_steps_usage_prefix(self.steps@, u0, predicts, k as int + 1);
                            }
                            return Err(e);
                        },
                    }
                    proof {
                        assert(env@[0] == env@.subrange(0, before.len() as int)[0]);
                    }
                },
                Instruction::Call(routine, args) => {
                    let input = select::<D>(args, &env);
                    match self::routine(dr, routine, &input) {
                        Ok(output) => {
                            append::<D>(&mut env, &output);
                            proof {
                                if dr.tracks() {
                                    let vals = wire_values::<D>(before);
                                    let ins = Seq::new(
                                        args@.len(),
                                        |j: int| vals[args@[j] as int],
                                    );
                                    assert(wire_values::<D>(input@) =~= ins);
                                    assert(wire_values::<D>(env@) =~= vals + routine.values(
                                        vals[0],
                                        ins,
                                    ));
                                }
                            }
                        },
                        Err(e) => {
                            proof {
                                lemma_steps_usage_prefix(self.steps@, u0, predicts, k as int + 1);
                            }
                            return Err(e);
                        },
                    }
                },
                Instruction::Release(r) => {
                    let first = env[0];
                    env.set(*r, first);
                    proof {
                        assert forall|j: int| 0 <= j < env@.len() implies dr.valid(
                            #[trigger] env@[j],
                        ) by {
                            if j != *r {
                                assert(env@[j] == before[j]);
                            } else {
                                assert(env@[j] == before[0]);
                            }
                        }
                        if dr.tracks() {
                            let vals = wire_values::<D>(before);
                            assert(wire_values::<D>(env@) =~= vals.update(*r as int, vals[0]));
                        }
                    }
                },
            }
            k += 1;
        }
        proof {
            assert(self.steps@.take(k as int) =~= self.steps@);
        }
        let output = select::<D>(&self.outputs, &env);
        proof {
            if dr.tracks() {
                assert(wire_values::<D>(output@) =~= self.values(1));
            }
        }
        Ok(output)
    }
}

/// Binds each wire to a coefficient of the public input polynomial: one
/// linear constraint per wire, in the order of the wires.
pub fn enforce_public_outputs<D: Driver>(dr: &mut D, outputs: &Vec<D::Wire>) -> (r: Result<
    (),
    Error,
>)
    requires
        old(dr).wf(),
        all_valid(old(dr), outputs@),
    ensures
        final(dr).wf(),
        final(dr).tracks() == old(dr).tracks(),
        final(dr).predicts() == old(dr).predicts(),
        forall|w: D::Wire| old(dr).valid(w) ==> final(dr).valid(w),
        match old(dr).usage().enforce_times(outputs@.len()) {
            Ok(u) => r is Ok && final(dr).usage() == u,
            Err(e) => r matches Err(x) && x == e,
        },
{
    let ghost u0 = dr.usage();
    let mut k: usize = 0;
    while k < outputs.len()
        invariant
            0 <= k <= outputs@.len(),
            dr.wf(),
            dr.tracks() == old(dr).tracks(),
            dr.predicts() == old(dr).predicts(),
            forall|w: D::Wire| old(dr).valid(w) ==> dr.valid(w),
            all_valid(old(dr), outputs@),
            u0 == old(dr).usage(),
            u0.enforce_times(k as nat) == Ok::<Resources, Error>(dr.usage()),
        decreases outputs@.len() - k,
    {
        let mut lc: Vec<Step<D::Wire>> = Vec::new();
        lc.push(Step::Term(outputs[k], Coeff::One));
        proof {
            assert(old(dr).valid(outputs@[k as int]));
        }
        match dr.enforce_zero(&lc) {
            Ok(()) => {},
            Err(e) => {
                proof {
                    u0.lemma_enforce_times_prefix((k + 1) as nat, outputs@.len());
                }
                return Err(e);
            },
        }
        k += 1;
    }
    Ok(())
}

/// Enforces the constraint on the constant wire, which is bound to the
/// constant term of the public input polynomial.
pub fn enforce_one<D: Driver>(dr: &mut D) -> (r: Result<(), Error>)
    requires
        old(dr).wf(),
    ensures
        final(dr).wf(),
        final(dr).tracks() == old(dr).tracks(),
        final(dr).predicts() == old(dr).predicts(),
        forall|w: D::Wire| old(dr).valid(w) ==> final(dr).valid(w),
        match old(dr).usage().enforce_zero() {
            Ok(u) => r is Ok && final(dr).usage() == u,
            Err(e) => r matches Err(x) && x == e && final(dr).usage() == old(dr).usage(),
        },
{
    let mut lc: Vec<Step<D::Wire>> = Vec::new();
    lc.push(Step::Term(dr.one(), Coeff::One));
    dr.enforce_zero(&lc)
}

} // verus!
