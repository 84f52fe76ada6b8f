//! Whether a circuit can be synthesized, decided by looking at it.
//!
//! The functions that synthesize a circuit ask that it name only registers
//! that are filled when they are named. The functions here find out
//! whether a circuit does, and count what it asks for, so that a caller
//! can make sure before it asks.

use crate::driver::{
    ops_make, ops_usage, ops_wf, outputs_wf, steps_make, steps_usage, steps_wf, Circuit,
    Instruction, Op, Resources, Routine, Step,
};
use crate::error::Error;
use crate::field::Fe;
use crate::poly::{Polynomial, Rank};
use crate::synthesis::{eval, eval_usage, evaluated};
use vstd::prelude::*;

verus! {

/// Whether the steps are canonical and name registers below `regs`.
pub fn check_steps(steps: &Vec<Step<usize>>, regs: u128) -> (r: bool)
    ensures
        r == steps_wf(steps@, regs as nat),
{
    let mut k: usize = 0;
    while k < steps.len()
        invariant
            0 <= k <= steps@.len(),
            forall|j: int|
                0 <= j < k ==> (#[trigger] steps@[j]).wf() && (steps@[j] matches Step::Term(r, _)
                    ==> r < regs),
        decreases steps@.len() - k,
    {
        let fine = match &steps[k] {
            Step::Term(r, c) => c.is_canonical() && (*r as u128) < regs,
            Step::Gain(c) => c.is_canonical(),
        };
        if !fine {
            return false;
        }
        k += 1;
    }
    true
}

/// Whether the registers are all below `regs`.
pub fn check_registers(registers: &Vec<usize>, regs: u128) -> (r: bool)
    ensures
        r == outputs_wf(registers@, regs as nat),
{
    let mut k: usize = 0;
    while k < registers.len()
        invariant
            0 <= k <= registers@.len(),
            forall|j: int| 0 <= j < k ==> (#[trigger] registers@[j]) < regs,
        decreases registers@.len() - k,
    {
        if registers[k] as u128 >= regs {
            return false;
        }
        k += 1;
    }
    true
}

impl Op {
    /// Whether the instruction can be carried out when `regs` registers
    /// are filled.
    pub fn check(&self, regs: u128) -> (r: bool)
        ensures
            r == self.wf(regs as nat),
    {
        match self {
            Op::Alloc(v) => v.is_canonical(),
            Op::Mul(a, b, c) => a.is_canonical() && b.is_canonical() && c.is_canonical(),
            Op::Add(steps) => check_steps(steps, regs),
            Op::EnforceZero(steps) => check_steps(steps, regs),
        }
    }

    /// The number of registers that the instruction fills.
    pub fn count(&self) -> (r: u128)
        ensures
            r == self.makes(),
    {
        match self {
            Op::Alloc(_) => 1,
            Op::Mul(_, _, _) => 3,
            Op::Add(_) => 1,
            Op::EnforceZero(_) => 0,
        }
    }
}

/// The number of constraints among the instructions.
pub open spec fn ops_constraints(ops: Seq<Op>) -> nat
    decreases ops.len(),
{
    if ops.len() == 0 {
        0
    } else {
        ops_constraints(ops.drop_last()) + if ops.last() is EnforceZero {
            1nat
        } else {
            0nat
        }
    }
}

impl Instruction {
    /// The number of constraints that the instruction enforces on a driver
    /// that carries out every routine.
    pub open spec fn constraints_spec(&self) -> nat {
        match *self {
            Instruction::Op(op) => if op is EnforceZero {
                1nat
            } else {
                0nat
            },
            Instruction::Call(routine, _) => ops_constraints(routine.ops@),
            Instruction::Release(_) => 0,
        }
    }
}

/// The number of constraints that synthesizing the instructions of a
/// circuit enforces on a driver that carries out every routine.
pub open spec fn steps_constraints(steps: Seq<Instruction>) -> nat
    decreases steps.len(),
{
    if steps.len() == 0 {
        0
    } else {
        steps_constraints(steps.drop_last()) + steps.last().constraints_spec()
    }
}

/// A count, as far as it matters: every count above the largest `usize`
/// is as good as the next.
pub open spec fn capped(n: nat) -> nat {
    if n > usize::MAX {
        (usize::MAX + 1) as nat
    } else {
        n
    }
}

/// The count after `more` have come, as far as it matters.
pub(crate) fn count_on(count: u128, more: u128, Ghost(n): Ghost<nat>) -> (r: u128)
    requires
        count == capped(n),
        more <= usize::MAX,
    ensures
        r == capped((n + more) as nat),
{
    let sum = count + more;
    if sum > usize::MAX as u128 {
        usize::MAX as u128 + 1
    } else {
        sum
    }
}

/// Where the instructions succeed, they enforce as many constraints as
/// there are among them.
pub proof fn lemma_ops_constraints(ops: Seq<Op>, before: Resources)
    ensures
        ops_usage(ops, before) matches Ok(u) ==> u.constraints == before.constraints
            + ops_constraints(ops),
        ops_constraints(ops) <= ops.len(),
    decreases ops.len(),
{
    if ops.len() > 0 {
        lemma_ops_constraints(ops.drop_last(), before);
    }
}

/// Where the instructions of a circuit succeed on a driver that carries
/// out every routine, they enforce as many constraints as there are among
/// them.
pub proof fn lemma_steps_constraints(steps: Seq<Instruction>, before: Resources)
    ensures
        steps_usage(steps, before, false) matches Ok(u) ==> u.constraints == before.constraints
            + steps_constraints(steps),
    decreases steps.len(),
{
    if steps.len() > 0 {
        lemma_steps_constraints(steps.drop_last(), before);
        if let Ok(u) = steps_usage(steps.drop_last(), before, false) {
            if let Instruction::Call(routine, _) = steps.last() {
                lemma_ops_constraints(routine.ops@, Resources { paired: false, ..u });
            }
        }
    }
}

/// Steps name registers by a `usize`, so that beyond the largest `usize`
/// the number of registers that are filled makes no difference.
pub proof fn lemma_steps_capped(steps: Seq<Step<usize>>, regs: nat)
    ensures
        steps_wf(steps, regs) == steps_wf(steps, capped(regs)),
{
    if steps_wf(steps, regs) {
        assert forall|k: int| 0 <= k < steps.len() implies (#[trigger] steps[k]).wf() && (
        steps[k] matches Step::Term(r, _) ==> r < capped(regs)) by {}
    }
    if steps_wf(steps, capped(regs)) {
        assert forall|k: int| 0 <= k < steps.len() implies (#[trigger] steps[k]).wf() && (
        steps[k] matches Step::Term(r, _) ==> r < regs) by {}
    }
}

/// Registers are named by a `usize`, so that beyond the largest `usize` the
/// number of registers that are filled makes no difference.
pub proof fn lemma_registers_capped(registers: Seq<usize>, regs: nat)
    ensures
        outputs_wf(registers, regs) == outputs_wf(registers, capped(regs)),
{
    if outputs_wf(registers, regs) {
        assert forall|k: int| 0 <= k < registers.len() implies (#[trigger] registers[k]) < capped(
            regs,
        ) by {}
    }
    if outputs_wf(registers, capped(regs)) {
        assert forall|k: int| 0 <= k < registers.len() implies (#[trigger] registers[k])
            < regs by {}
    }
}

impl Op {
    /// Whether the instruction can be carried out when `regs` registers
    /// are filled, where `count` is that number as far as it matters.
    pub(crate) fn fits(&self, count: u128, Ghost(regs): Ghost<nat>) -> (r: bool)
        requires
            count == capped(regs),
        ensures
            r == self.wf(regs),
    {
        proof {
            match self {
                Op::Add(steps) => lemma_steps_capped(steps@, regs),
                Op::EnforceZero(steps) => lemma_steps_capped(steps@, regs),
                _ => {},
            }
        }
        self.check(count)
    }
}

/// The instruction with the number `j` of a routine with `inputs` inputs
/// names only registers that are filled when its turn comes.
pub open spec fn op_fits(ops: Seq<Op>, inputs: nat, j: int) -> bool {
    ops[j].wf(1 + inputs + ops_make(ops.take(j)))
}

/// A routine can be carried out exactly if each of its instructions fits
/// and its outputs are registers that are filled.
pub proof fn lemma_routine_fits(routine: &Routine)
    ensures
        routine.wf() == ((forall|j: int|
            0 <= j < routine.ops@.len() ==> #[trigger] op_fits(
                routine.ops@,
                routine.num_inputs as nat,
                j,
            )) && outputs_wf(
            routine.outputs@,
            1 + routine.num_inputs as nat + ops_make(routine.ops@),
        )),
{
    let inputs = routine.num_inputs as nat;
    if routine.wf() {
        assert forall|j: int| 0 <= j < routine.ops@.len() implies #[trigger] op_fits(
            routine.ops@,
            inputs,
            j,
        ) by {
            assert(routine.ops@[j].wf(1 + inputs + ops_make(routine.ops@.take(j))));
        }
    }
    if (forall|j: int| 0 <= j < routine.ops@.len() ==> #[trigger] op_fits(routine.ops@, inputs, j))
        && outputs_wf(routine.outputs@, 1 + inputs + ops_make(routine.ops@)) {
        assert forall|j: int| 0 <= j < routine.ops@.len() implies (#[trigger] routine.ops@[j]).wf(
            1 + inputs + ops_make(routine.ops@.take(j)),
        ) by {
            assert(op_fits(routine.ops@, inputs, j));
        }
    }
}

/// The registers after one more instruction of a routine.
pub proof fn lemma_ops_make_next(ops: Seq<Op>, k: int)
    requires
        0 <= k < ops.len(),
    ensures
        ops_make(ops.take(k + 1)) == ops_make(ops.take(k)) + ops[k].makes(),
{
    assert(ops.take(k + 1).drop_last() =~= ops.take(k));
    assert(ops.take(k + 1).last() == ops[k]);
}

impl Routine {
    /// Whether the instructions of the routine name only registers that
    /// are filled, and how many registers they fill, as far as it matters.
    fn check_ops(&self) -> (r: (bool, u128))
        ensures
            r.0 == (forall|j: int|
                0 <= j < self.ops@.len() ==> #[trigger] op_fits(
                    self.ops@,
                    self.num_inputs as nat,
                    j,
                )),
            r.0 ==> r.1 == capped(1 + self.num_inputs as nat + ops_make(self.ops@)),
    {
        let mut count: u128 = count_on(1, self.num_inputs as u128, Ghost(1));
        let mut k: usize = 0;
        let ghost inputs = self.num_inputs as nat;
        proof {
            assert(self.ops@.take(0) =~= Seq::<Op>::empty());
            assert(capped(1) == 1);
        }
        while k < self.ops.len()
            invariant
                0 <= k <= self.ops@.len(),
                inputs == self.num_inputs,
                count == capped(1 + inputs + ops_make(self.ops@.take(k as int))),
                forall|j: int| 0 <= j < k ==> #[trigger] op_fits(self.ops@, inputs, j),
            decreases self.ops@.len() - k,
        {
            let ghost regs = 1 + inputs + ops_make(self.ops@.take(k as int));
            proof {
                lemma_ops_make_next(self.ops@, k as int);
            }
            if !self.ops[k].fits(count, Ghost(regs)) {
                proof {
                    assert(!op_fits(self.ops@, inputs, k as int));
                }
                return (false, count);
            }
            count = count_on(count, self.ops[k].count(), Ghost(regs));
            proof {
                assert(op_fits(self.ops@, inputs, k as int));
            }
            k += 1;
        }
        proof {
            assert(self.ops@.take(k as int) =~= self.ops@);
        }
        (true, count)
    }

    /// Whether the routine names only registers that are filled.
    pub fn check(&self) -> (r: bool)
        ensures
            r == self.wf(),
    {
        proof {
            lemma_routine_fits(self);
            lemma_registers_capped(
                self.outputs@,
                1 + self.num_inputs as nat + ops_make(self.ops@),
            );
        }
        let (fine, count) = self.check_ops();
        fine && check_registers(&self.outputs, count)
    }

    /// The number of constraints among the instructions of the routine.
    pub fn constraints(&self) -> (r: usize)
        ensures
            r == ops_constraints(self.ops@),
    {
        let mut count: usize = 0;
        let mut k: usize = 0;
        proof {
            assert(self.ops@.take(0) =~= Seq::<Op>::empty());
        }
        while k < self.ops.len()
            invariant
                0 <= k <= self.ops@.len(),
                count == ops_constraints(self.ops@.take(k as int)),
                count <= k,
            decreases self.ops@.len() - k,
        {
            proof {
                assert(self.ops@.take(k as int + 1).drop_last() =~= self.ops@.take(k as int));
                assert(self.ops@.take(k as int + 1).last() == self.ops@[k as int]);
            }
            if let Op::EnforceZero(_) = &self.ops[k] {
                count = count + 1;
            }
            k += 1;
        }
        proof {
            assert(self.ops@.take(k as int) =~= self.ops@);
        }
        count
    }
}

impl Instruction {
    /// Whether the instruction can be carried out when `regs` registers
    /// are filled, where `count` is that number as far as it matters.
    pub(crate) fn fits(&self, count: u128, Ghost(regs): Ghost<nat>) -> (r: bool)
        requires
            count == capped(regs),
        ensures
            r == self.wf(regs),
    {
        match self {
            Instruction::Op(op) => op.fits(count, Ghost(regs)),
            Instruction::Call(routine, args) => {
                proof {
                    lemma_registers_capped(args@, regs);
                }
                routine.check() && args.len() == routine.num_inputs && check_registers(args, count)
            },
            Instruction::Release(r) => {
                let place: usize = *r;
                1 <= place && (place as u128) < count
            },
        }
    }

    /// The number of registers that the instruction fills.
    pub fn count(&self) -> (r: u128)
        ensures
            r == self.makes(),
            r <= usize::MAX,
    {
        match self {
            Instruction::Op(op) => op.count(),
            Instruction::Call(routine, _) => routine.outputs.len() as u128,
            Instruction::Release(_) => 0,
        }
    }

    /// The number of constraints that the instruction enforces on a driver
    /// that carries out every routine.
    pub fn constraints(&self) -> (r: usize)
        ensures
            r == self.constraints_spec(),
    {
        match self {
            Instruction::Op(op) => {
                if let Op::EnforceZero(_) = op {
                    1
                } else {
                    0
                }
            },
            Instruction::Call(routine, _) => routine.constraints(),
            Instruction::Release(_) => 0,
        }
    }
}

/// The instruction with the number `j` names only registers that are
/// filled when its turn comes.
pub open spec fn step_fits(steps: Seq<Instruction>, j: int) -> bool {
    steps[j].wf(1 + steps_make(steps.take(j)))
}

/// A circuit can be synthesized exactly if each of its instructions fits
/// and its outputs are registers that are filled.
pub proof fn lemma_circuit_fits(circuit: &Circuit)
    ensures
        circuit.wf() == ((forall|j: int|
            0 <= j < circuit.steps@.len() ==> #[trigger] step_fits(circuit.steps@, j))
            && outputs_wf(circuit.outputs@, 1 + steps_make(circuit.steps@))),
{
    if circuit.wf() {
        assert forall|j: int| 0 <= j < circuit.steps@.len() implies #[trigger] step_fits(
            circuit.steps@,
            j,
        ) by {
            assert(circuit.steps@[j].wf(1 + steps_make(circuit.steps@.take(j))));
        }
    }
    if (forall|j: int| 0 <= j < circuit.steps@.len() ==> #[trigger] step_fits(circuit.steps@, j))
        && outputs_wf(circuit.outputs@, 1 + steps_make(circuit.steps@)) {
        assert forall|j: int| 0 <= j < circuit.steps@.len() implies (
        #[trigger] circuit.steps@[j]).wf(1 + steps_make(circuit.steps@.take(j))) by {
            assert(step_fits(circuit.steps@, j));
        }
    }
}

/// The registers after one more instruction.
pub proof fn lemma_steps_make_next(steps: Seq<Instruction>, k: int)
    requires
        0 <= k < steps.len(),
    ensures
        steps_make(steps.take(k + 1)) == steps_make(steps.take(k)) + steps[k].makes(),
{
    assert(steps.take(k + 1).drop_last() =~= steps.take(k));
    assert(steps.take(k + 1).last() == steps[k]);
}

impl Circuit {
    /// Whether the instructions of the circuit name only registers that
    /// are filled, and how many registers they fill, as far as it matters.
    fn check_steps(&self) -> (r: (bool, u128))
        ensures
            r.0 == (forall|j: int|
                0 <= j < self.steps@.len() ==> #[trigger] step_fits(self.steps@, j)),
            r.0 ==> r.1 == capped(1 + steps_make(self.steps@)),
    {
        let mut count: u128 = 1;
        let mut k: usize = 0;
        proof {
            assert(self.steps@.take(0) =~= Seq::<Instruction>::empty());
        }
        while k < self.steps.len()
            invariant
                0 <= k <= self.steps@.len(),
                count == capped(1 + steps_make(self.steps@.take(k as int))),
                forall|j: int| 0 <= j < k ==> #[trigger] step_fits(self.steps@, j),
            decreases self.steps@.len() - k,
        {
            let ghost regs = 1 + steps_make(self.steps@.take(k as int));
            proof {
                lemma_steps_make_next(self.steps@, k as int);
            }
            if !self.steps[k].fits(count, Ghost(regs)) {
                proof {
                    assert(!step_fits(self.steps@, k as int));
                }
                return (false, count);
            }
            count = count_on(count, self.steps[k].count(), Ghost(regs));
            proof {
                assert(step_fits(self.steps@, k as int));
            }
            k += 1;
        }
        proof {
            assert(self.steps@.take(k as int) =~= self.steps@);
        }
        (true, count)
    }

    /// Whether the circuit names only registers that are filled.
    pub fn check(&self) -> (r: bool)
        ensures
            r == self.wf(),
    {
        proof {
            lemma_circuit_fits(self);
            lemma_registers_capped(self.outputs@, 1 + steps_make(self.steps@));
        }
        let (fine, count) = self.check_steps();
        fine && check_registers(&self.outputs, count)
    }

    /// The number of constraints that synthesizing the circuit enforces on
    /// a driver that carries out every routine, or `None` if they are more
    /// than a `usize` can count.
    pub fn constraints(&self) -> (r: Option<usize>)
        ensures
            match r {
                Some(count) => count == steps_constraints(self.steps@),
                None => steps_constraints(self.steps@) > usize::MAX,
            },
    {
        let mut count: u128 = 0;
        let mut k: usize = 0;
        proof {
            assert(self.steps@.take(0) =~= Seq::<Instruction>::empty());
        }
        while k < self.steps.len()
            invariant
                0 <= k <= self.steps@.len(),
                count == capped(steps_constraints(self.steps@.take(k as int))),
            decreases self.steps@.len() - k,
        {
            let ghost before = steps_constraints(self.steps@.take(k as int));
            proof {
                assert(self.steps@.take(k as int + 1).drop_last() =~= self.steps@.take(k as int));
                assert(self.steps@.take(k as int + 1).last() == self.steps@[k as int]);
            }
            count = count_on(count, self.steps[k].constraints() as u128, Ghost(before));
            k += 1;
        }
        proof {
            assert(self.steps@.take(k as int) =~= self.steps@);
        }
        if count > usize::MAX as u128 {
            None
        } else {
            Some(count as usize)
        }
    }
}

/// The number of constraints that evaluating the circuit enforces in all:
/// the constraint that binds the key, those of the circuit, one for each
/// of its outputs, and the constraint on the constant wire.
pub open spec fn eval_constraints(circuit: &Circuit) -> nat {
    1 + steps_constraints(circuit.steps@) + circuit.outputs@.len() + 1
}

/// Where an evaluation succeeds, it enforces as many constraints as
/// `eval_constraints` says.
pub proof fn lemma_eval_constraints(circuit: &Circuit, rank: Rank)
    ensures
        eval_usage(circuit, rank) matches Ok(u) ==> u.constraints == eval_constraints(circuit),
{
    let start = crate::synthesis::unused(rank);
    if let Ok(first) = start.mul() {
        if let Ok(bound) = first.enforce_zero() {
            lemma_steps_constraints(circuit.steps@, bound);
            if let Ok(synthesized) = circuit.usage(bound, false) {
                lemma_enforce_times(synthesized, circuit.outputs@.len());
            }
        }
    }
}

/// Where a run of constraints succeeds, each of them counts.
pub proof fn lemma_enforce_times(before: Resources, n: nat)
    ensures
        before.enforce_times(n) matches Ok(u) ==> u.constraints == before.constraints + n,
    decreases n,
{
    if n > 0 {
        lemma_enforce_times(before, (n - 1) as nat);
    }
}

/// Evaluates the wiring polynomial of the circuit at the point `y`, as
/// [`eval`] does, for a circuit and field elements of which nothing is
/// known: `None` if the circuit names a register that is not filled or
/// holds a field element that is not canonical, and else what `eval` gives
/// for the number of constraints that the evaluation enforces. A circuit
/// with more constraints than can be counted in a `usize` gives `None`
/// too.
pub fn try_eval(circuit: &Circuit, y: Fe, key: Fe, rank: Rank) -> (r: Option<
    Result<Polynomial, Error>,
>)
    ensures
        r is Some <==> circuit.wf() && y.wf() && key.wf() && eval_constraints(circuit)
            <= usize::MAX,
        r matches Some(outcome) ==> evaluated(circuit, y@, key@, rank, outcome),
{
    if !circuit.check() || !y.is_canonical() || !key.is_canonical() {
        return None;
    }
    let count = match circuit.constraints() {
        Some(count) => count,
        None => {
            return None;
        },
    };
    proof {
        lemma_eval_constraints(circuit, rank);
    }
    let total = count as u128 + circuit.outputs.len() as u128 + 2;
    if total > usize::MAX as u128 {
        None
    } else {
        Some(eval(circuit, y, key, total as usize, rank))
    }
}

} // verus!
