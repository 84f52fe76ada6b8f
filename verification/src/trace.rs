//! What a circuit wires, stated outright.
//!
//! Synthesizing a circuit gives every register a weight on each wire of
//! a gate, and every constraint is a row of such weights. The wiring
//! polynomial at `y` holds, for each wire of a gate, the sum over the rows
//! of the weight of the wire in the row times the power of `y` that
//! belongs to the row. A [`Trace`] follows the instructions of a circuit
//! and keeps the rows as they are, without a table and without putting
//! anything off.

use crate::driver::{lc_gain, Instruction, Op, Routine, Step};
use crate::field::{modulus, pow_mod};
use crate::sy::WireIndex;
use vstd::prelude::*;

verus! {

/// The weight of one wire on every wire of a gate.
pub type Weights = spec_fn(WireIndex) -> int;

/// The weights of the wire `index` of a gate: one on itself.
pub open spec fn unit(index: WireIndex) -> Weights {
    |target: WireIndex|
        if index == target {
            1int
        } else {
            0int
        }
}

/// The weight that a linear combination of registers has on the wire
/// `target`: the sum over its terms of the coefficient, with the gain that
/// is in force, times the weight of the term's register.
pub open spec fn lc_trace(steps: Seq<Step<usize>>, regs: Seq<Weights>, target: WireIndex) -> int
    decreases steps.len(),
{
    if steps.len() == 0 {
        0
    } else {
        lc_trace(steps.drop_last(), regs, target) + match steps.last() {
            Step::Term(r, c) => ((c.val() * lc_gain(steps.drop_last())) % modulus()) * (
            regs[r as int])(target),
            Step::Gain(_) => 0,
        }
    }
}

/// The multiplier of the constraint with the number `j`, where the first
/// constraint has the multiplier `first` and each further one that of the
/// one before it, times `ratio`.
pub open spec fn powers(first: nat, ratio: nat, j: nat) -> nat
    decreases j,
{
    if j == 0 {
        first
    } else {
        (powers(first, ratio, (j - 1) as nat) * ratio) % modulus()
    }
}

/// What the rows give to the wire `target` in all: the sum over the rows
/// of the multiplier of the row times the weight of the wire in the row.
pub open spec fn combine(rows: Seq<Weights>, first: nat, ratio: nat, target: WireIndex) -> int
    decreases rows.len(),
{
    if rows.len() == 0 {
        0
    } else {
        combine(rows.drop_last(), first, ratio, target) + powers(
            first,
            ratio,
            (rows.len() - 1) as nat,
        ) * (rows.last())(target)
    }
}

/// The coefficient of the wire `target` in the wiring polynomial at `y`
/// of a circuit with the given rows: the row with the number `j` has the
/// multiplier `y` to the power `rows.len() - 1 - j`.
pub open spec fn wiring(rows: Seq<Weights>, y: nat, count: nat, target: WireIndex) -> int
    decreases count,
{
    if count == 0 {
        0
    } else {
        wiring(rows, y, (count - 1) as nat, target) + pow_mod(y, (rows.len() - count) as nat) * (
        rows[count - 1])(target)
    }
}

/// The wiring that synthesis has produced so far.
pub struct Trace {
    /// The number of gates.
    pub gates: usize,
    /// The unused right leg that the next single wire takes, if any.
    pub spare: Option<WireIndex>,
    /// The weights of the registers.
    pub regs: Seq<Weights>,
    /// The rows: the weights of the constraints, in their order.
    pub rows: Seq<Weights>,
}

impl Trace {
    /// The trace after an instruction.
    pub open spec fn op(self, op: Op) -> Trace {
        match op {
            Op::Alloc(_) => match self.spare {
                Some(leg) => Trace { spare: None, regs: self.regs.push(unit(leg)), ..self },
                None => Trace {
                    gates: (self.gates + 1) as usize,
                    spare: Some(WireIndex::B(self.gates)),
                    regs: self.regs.push(unit(WireIndex::A(self.gates))),
                    ..self
                },
            },
            Op::Mul(_, _, _) => Trace {
                gates: (self.gates + 1) as usize,
                regs: self.regs.push(unit(WireIndex::A(self.gates))).push(
                    unit(WireIndex::B(self.gates)),
                ).push(unit(WireIndex::C(self.gates))),
                ..self
            },
            Op::Add(steps) => Trace {
                regs: self.regs.push(|target: WireIndex| lc_trace(steps@, self.regs, target)),
                ..self
            },
            Op::EnforceZero(steps) => Trace {
                rows: self.rows.push(|target: WireIndex| lc_trace(steps@, self.regs, target)),
                ..self
            },
        }
    }

    /// The trace after a list of instructions.
    pub open spec fn ops(self, ops: Seq<Op>) -> Trace
        decreases ops.len(),
    {
        if ops.len() == 0 {
            self
        } else {
            self.ops(ops.drop_last()).op(ops.last())
        }
    }

    /// The trace with which a routine starts: its registers are the
    /// constant wire and the inputs, and no leg is left to it.
    pub open spec fn enter(self, input: Seq<Weights>) -> Trace {
        Trace { spare: None, regs: seq![unit(WireIndex::C(0))] + input, ..self }
    }

    /// The trace of the caller after a routine: the leg that the caller
    /// had put aside is back, and the outputs of the routine follow the
    /// registers of the caller.
    pub open spec fn leave(self, inner: Trace, outputs: Seq<usize>) -> Trace {
        Trace {
            spare: self.spare,
            regs: self.regs + Seq::new(outputs.len(), |k: int| inner.regs[outputs[k] as int]),
            ..inner
        }
    }

    /// The trace after a routine was carried out on the registers `args`.
    pub open spec fn call(self, routine: Routine, args: Seq<usize>) -> Trace {
        let input = Seq::new(args.len(), |k: int| self.regs[args[k] as int]);
        self.leave(self.enter(input).ops(routine.ops@), routine.outputs@)
    }

    /// The trace after an instruction of a circuit.
    pub open spec fn step(self, instruction: Instruction) -> Trace {
        match instruction {
            Instruction::Op(op) => self.op(op),
            Instruction::Call(routine, args) => self.call(routine, args@),
            Instruction::Release(r) => Trace {
                regs: self.regs.update(r as int, self.regs[0]),
                ..self
            },
        }
    }

    /// The trace after the instructions of a circuit.
    pub open spec fn steps(self, steps: Seq<Instruction>) -> Trace
        decreases steps.len(),
    {
        if steps.len() == 0 {
            self
        } else {
            self.steps(steps.drop_last()).step(steps.last())
        }
    }

    /// The trace after one constraint on each of the registers, in their
    /// order: the row of such a constraint is the weights of the register.
    pub open spec fn publish(self, outputs: Seq<usize>) -> Trace
        decreases outputs.len(),
    {
        if outputs.len() == 0 {
            self
        } else {
            let before = self.publish(outputs.drop_last());
            Trace { rows: before.rows.push(before.regs[outputs.last() as int]), ..before }
        }
    }
}

} // verus!
