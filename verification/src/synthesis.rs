//! Synthesis on the evaluator, followed row by row.
//!
//! The functions here carry out the instructions of a circuit on an
//! [`Evaluator`] as the functions of [`crate::driver`] do on any driver,
//! and keep account of what the evaluator has recorded: after each
//! instruction, the weights of the registers and the rows of the
//! constraints are those of the [`Trace`] of the instructions.

use crate::coeff::Coeff;
use crate::driver::{
    all_valid, lc_gain, lemma_ops_usage_limits, lemma_ops_usage_prefix, lemma_steps_usage_prefix,
    map_steps, ops_make, ops_usage, ops_wf, outputs_wf, select, steps_make, steps_usage, Circuit,
    Driver, Instruction, Op, Resources, Routine, Step,
};
use crate::error::Error;
use crate::field::{modulus, neg_mod, pow_mod, Fe};
use crate::poly::{Polynomial, Rank};
use crate::sy::{refcount_sum, slot_of, Evaluator, Wire, WireIndex};
use crate::trace::{combine, lc_trace, powers, unit, wiring, Trace, Weights};
use crate::wiring::cong;
use vstd::prelude::*;

verus! {

/// The weight of the register `r` on the wire `target`.
pub open spec fn reg(regs: Seq<Weights>, r: int, target: WireIndex) -> int {
    (regs[r])(target)
}

/// The virtual wires in the registers from `from` on were made after the
/// state `before`: the evaluator did not accept them then, and each of
/// them stands in one register only.
pub open spec fn made(before: Evaluator, env: Seq<Wire>, from: int) -> bool {
    forall|j: int|
        from <= j < env.len() && (#[trigger] env[j]).index is Virtual ==> {
            &&& !before.valid(env[j])
            &&& forall|i: int| 0 <= i < env.len() && i != j ==> #[trigger] env[i] != env[j]
        }
}

/// Each virtual wire in the registers from `from` on stands in one
/// register only.
pub open spec fn single(env: Seq<Wire>, from: int) -> bool {
    forall|j: int|
        from <= j < env.len() && (#[trigger] env[j]).index is Virtual ==> forall|i: int|
            0 <= i < env.len() && i != j ==> #[trigger] env[i] != env[j]
}

/// A register from `from` on that is not among `outputs` holds the
/// virtual wire of the slot `slot`.
pub open spec fn retired(env: Seq<Wire>, from: int, outputs: Seq<usize>, slot: int) -> bool {
    exists|j: int|
        from <= j < env.len() && !outputs.contains(j as usize) && slot_of((#[trigger] env[j]).index)
            == slot && slot >= 0
}

/// A register other than `place` holds the wire `wire`.
pub open spec fn holds_twice(env: Seq<Wire>, place: int, wire: Wire) -> bool {
    exists|j: int| 0 <= j < env.len() && j != place && (#[trigger] env[j]) == wire
}

impl Evaluator {
    /// The state of the evaluator is what the trace says: the gates and
    /// the unused leg, the weights of the wires in `env`, which are the
    /// registers, and the rows.
    pub open spec fn follows(&self, env: Seq<Wire>, trace: Trace) -> bool {
        &&& self.multiplication_constraints == trace.gates
        &&& match self.available_b {
            Some(w) => trace.spare == Some(w.index) && !(w.index is Virtual),
            None => trace.spare is None,
        }
        &&& env.len() == trace.regs.len()
        &&& forall|r: int, target: WireIndex|
            0 <= r < env.len() ==> #[trigger] self.weight(env[r], target) == reg(
                trace.regs,
                r,
                target,
            )
        &&& self.rows@.len() == trace.rows.len()
        &&& forall|j: int, target: WireIndex|
            0 <= j < trace.rows.len() ==> #[trigger] reg(self.rows@, j, target) == reg(
                trace.rows,
                j,
                target,
            )
    }

    /// A linear combination of registers weighs what the linear
    /// combination of the wires in the registers weighs.
    pub proof fn lemma_lc_follows(
        self,
        env: Seq<Wire>,
        regs: Seq<Weights>,
        steps: Seq<Step<usize>>,
        lc: Seq<Step<Wire>>,
        target: WireIndex,
    )
        requires
            env.len() == regs.len(),
            forall|r: int| 0 <= r < env.len() ==> self.weight(#[trigger] env[r], target) == reg(
                regs,
                r,
                target,
            ),
            lc.len() == steps.len(),
            forall|k: int|
                0 <= k < steps.len() ==> (#[trigger] lc[k]) == match steps[k] {
                    Step::Term(r, c) => Step::Term(env[r as int], c),
                    Step::Gain(c) => Step::<Wire>::Gain(c),
                },
            forall|k: int|
                0 <= k < steps.len() ==> ((#[trigger] steps[k]) matches Step::Term(r, _) ==> r
                    < env.len()),
        ensures
            self.lc_weight(lc, target) == lc_trace(steps, regs, target),
            lc_gain(lc) == lc_gain(steps),
        decreases steps.len(),
    {
        if steps.len() > 0 {
            let ps = steps.drop_last();
            let pl = lc.drop_last();
            assert forall|k: int| 0 <= k < ps.len() implies (#[trigger] pl[k]) == match ps[k] {
                Step::Term(r, c) => Step::Term(env[r as int], c),
                Step::Gain(c) => Step::<Wire>::Gain(c),
            } by {
                assert(pl[k] == lc[k]);
                assert(ps[k] == steps[k]);
            }
            assert forall|k: int| 0 <= k < ps.len() implies ((#[trigger] ps[k]) matches Step::Term(
                r,
                _,
            ) ==> r < env.len()) by {
                assert(ps[k] == steps[k]);
            }
            self.lemma_lc_follows(env, regs, ps, pl, target);
            assert(steps.last() == steps[steps.len() - 1]);
            assert(lc.last() == lc[lc.len() - 1]);
        }
    }

    /// Carries out one instruction, as [`Op::synthesize`] does, and follows
    /// the trace.
    pub(crate) fn apply(&mut self, op: &Op, env: &mut Vec<Wire>, Ghost(trace): Ghost<Trace>) -> (r: Result<
        (),
        Error,
    >)
        requires
            old(self).wf(),
            op.wf(old(env)@.len()),
            all_valid(old(self), old(env)@),
            old(self).follows(old(env)@, trace),
        ensures
            final(self).wf(),
            final(self).start == old(self).start,
            final(self).y_inv == old(self).y_inv,
            final(self).rank == old(self).rank,
            forall|w: Wire| old(self).valid(w) ==> final(self).valid(w),
            forall|w: Wire, target: WireIndex|
                old(self).valid(w) ==> #[trigger] final(self).weight(w, target) == old(self).weight(
                    w,
                    target,
                ),
            match op.usage(old(self).usage()) {
                Ok(u) => {
                    &&& r is Ok
                    &&& final(self).usage() == u
                    &&& final(env)@.len() == old(env)@.len() + op.makes()
                    &&& final(env)@.subrange(0, old(env)@.len() as int) == old(env)@
                    &&& all_valid(final(self), final(env)@)
                    &&& final(self).follows(final(env)@, trace.op(*op))
                    &&& forall|j: int|
                        old(env)@.len() <= j < final(env)@.len() && (#[trigger] final(env)@[j]).index is Virtual
                            ==> !old(self).valid(final(env)@[j]) && final(env)@.len() == old(env)@.len()
                            + 1
                },
                Err(e) => r matches Err(x) && x == e && *final(self) == *old(self) && final(env)@
                    == old(env)@,
            },
    {
        let ghost before = *self;
        let ghost env0 = env@;
        match op {
            Op::Alloc(value) => {
                let wire = self.allocate(*value)?;
                env.push(wire);
                proof {
                    assert(env@.subrange(0, env0.len() as int) =~= env0);
                    let after = trace.op(*op);
                    assert forall|r: int, target: WireIndex| 0 <= r < env@.len() implies #[trigger] self.weight(
                        env@[r],
                        target,
                    ) == reg(after.regs, r, target) by {
                        if r < env0.len() {
                            assert(before.valid(env0[r]));
                            assert(self.weight(env0[r], target) == before.weight(env0[r], target));
                        }
                    }
                    assert forall|j: int, target: WireIndex|
                        0 <= j < after.rows.len() implies #[trigger] reg(self.rows@, j, target)
                        == reg(after.rows, j, target) by {
                        assert(reg(before.rows@, j, target) == reg(trace.rows, j, target));
                    }
                }
            },
            Op::Mul(a, b, c) => {
                let (x, y, z) = self.mul(*a, *b, *c)?;
                env.push(x);
                env.push(y);
                env.push(z);
                proof {
                    assert(env@.subrange(0, env0.len() as int) =~= env0);
                    let after = trace.op(*op);
                    assert forall|r: int, target: WireIndex| 0 <= r < env@.len() implies #[trigger] self.weight(
                        env@[r],
                        target,
                    ) == reg(after.regs, r, target) by {
                        if r < env0.len() {
                            assert(before.valid(env0[r]));
                            assert(self.weight(env0[r], target) == before.weight(env0[r], target));
                        }
                    }
                    assert forall|j: int, target: WireIndex|
                        0 <= j < after.rows.len() implies #[trigger] reg(self.rows@, j, target)
                        == reg(after.rows, j, target) by {
                        assert(reg(before.rows@, j, target) == reg(trace.rows, j, target));
                    }
                }
            },
            Op::Add(steps) => {
                let lc = map_steps::<Evaluator>(steps, env);
                let wire = self.add(&lc);
                env.push(wire);
                proof {
                    assert(env@.subrange(0, env0.len() as int) =~= env0);
                    let after = trace.op(*op);
                    assert forall|r: int, target: WireIndex| 0 <= r < env@.len() implies #[trigger] self.weight(
                        env@[r],
                        target,
                    ) == reg(after.regs, r, target) by {
                        if r < env0.len() {
                            assert(before.valid(env0[r]));
                            assert(self.weight(env0[r], target) == before.weight(env0[r], target));
                        } else {
                            assert forall|q: int| 0 <= q < env0.len() implies before.weight(
                                #[trigger] env0[q],
                                target,
                            ) == reg(trace.regs, q, target) by {}
                            before.lemma_lc_follows(env0, trace.regs, steps@, lc@, target);
                        }
                    }
                    assert forall|j: int, target: WireIndex|
                        0 <= j < after.rows.len() implies #[trigger] reg(self.rows@, j, target)
                        == reg(after.rows, j, target) by {
                        assert(reg(before.rows@, j, target) == reg(trace.rows, j, target));
                    }
                }
            },
            Op::EnforceZero(steps) => {
                let lc = map_steps::<Evaluator>(steps, env);
                self.enforce_zero(&lc)?;
                proof {
                    assert(env@.subrange(0, env0.len() as int) =~= env0);
                    let after = trace.op(*op);
                    assert forall|r: int, target: WireIndex| 0 <= r < env@.len() implies #[trigger] self.weight(
                        env@[r],
                        target,
                    ) == reg(after.regs, r, target) by {
                        assert(before.valid(env0[r]));
                        assert(self.weight(env0[r], target) == before.weight(env0[r], target));
                    }
                    assert forall|j: int, target: WireIndex|
                        0 <= j < after.rows.len() implies #[trigger] reg(self.rows@, j, target)
                        == reg(after.rows, j, target) by {
                        if j < trace.rows.len() {
                            assert(self.rows@[j] == self.rows@.drop_last()[j]);
                            assert(reg(before.rows@, j, target) == reg(trace.rows, j, target));
                        } else {
                            assert forall|q: int| 0 <= q < env0.len() implies before.weight(
                                #[trigger] env0[q],
                                target,
                            ) == reg(trace.regs, q, target) by {}
                            before.lemma_lc_follows(env0, trace.regs, steps@, lc@, target);
                            assert((self.rows@.last())(target) == before.lc_weight(lc@, target));
                        }
                    }
                }
            },
        }
        Ok(())
    }

    /// Carries out the instructions one after the other, as
    /// [`crate::driver::synthesize_ops`] does, and follows the trace.
    pub(crate) fn run(&mut self, ops: &Vec<Op>, env: &mut Vec<Wire>, Ghost(trace): Ghost<Trace>) -> (r:
        Result<(), Error>)
        requires
            old(self).wf(),
            ops_wf(ops@, old(env)@.len()),
            all_valid(old(self), old(env)@),
            old(self).follows(old(env)@, trace),
        ensures
            final(self).wf(),
            final(self).start == old(self).start,
            final(self).y_inv == old(self).y_inv,
            final(self).rank == old(self).rank,
            forall|w: Wire| old(self).valid(w) ==> final(self).valid(w),
            forall|w: Wire, target: WireIndex|
                old(self).valid(w) ==> #[trigger] final(self).weight(w, target) == old(self).weight(
                    w,
                    target,
                ),
            all_valid(final(self), final(env)@),
            match ops_usage(ops@, old(self).usage()) {
                Ok(u) => {
                    &&& r is Ok
                    &&& final(self).usage() == u
                    &&& final(env)@.len() == old(env)@.len() + ops_make(ops@)
                    &&& final(env)@.subrange(0, old(env)@.len() as int) == old(env)@
                    &&& final(self).follows(final(env)@, trace.ops(ops@))
                    &&& made(*old(self), final(env)@, old(env)@.len() as int)
                },
                Err(e) => r matches Err(x) && x == e,
            },
    {
        let ghost env0 = env@;
        let ghost u0 = self.usage();
        let mut k: usize = 0;
        proof {
            assert(ops@.take(0) =~= Seq::<Op>::empty());
            assert(env@.subrange(0, env0.len() as int) =~= env0);
        }
        while k < ops.len()
            invariant
                0 <= k <= ops@.len(),
                self.wf(),
                self.start == old(self).start,
                self.y_inv == old(self).y_inv,
                self.rank == old(self).rank,
                forall|w: Wire| old(self).valid(w) ==> self.valid(w),
                forall|w: Wire, target: WireIndex|
                    old(self).valid(w) ==> #[trigger] self.weight(w, target) == old(self).weight(
                        w,
                        target,
                    ),
                ops_wf(ops@, env0.len()),
                all_valid(self, env@),
                u0 == old(self).usage(),
                env0 == old(env)@,
                ops_usage(ops@.take(k as int), u0) == Ok::<Resources, Error>(self.usage()),
                env@.len() == env0.len() + ops_make(ops@.take(k as int)),
                env@.subrange(0, env0.len() as int) == env0,
                self.follows(env@, trace.ops(ops@.take(k as int))),
                made(*old(self), env@, env0.len() as int),
            decreases ops@.len() - k,
        {
            let ghost before = env@;
            let ghost state = *self;
            proof {
                assert(ops@.take(k as int + 1).drop_last() =~= ops@.take(k as int));
                assert(ops@.take(k as int + 1).last() == ops@[k as int]);
                assert(ops@[k as int].wf(env0.len() + ops_make(ops@.take(k as int))));
            }
            match self.apply(&ops[k], env, Ghost(trace.ops(ops@.take(k as int)))) {
                Ok(()) => {},
                Err(e) => {
                    proof {
                        lemma_ops_usage_prefix(ops@, u0, k as int + 1);
                    }
                    return Err(e);
                },
            }
            proof {
                assert(env@.subrange(0, env0.len() as int) =~= before.subrange(0, env0.len() as int));
                assert forall|w: Wire, target: WireIndex| old(self).valid(w) implies #[trigger] self.weight(
                    w,
                    target,
                ) == old(self).weight(w, target) by {
                    assert(state.valid(w));
                    assert(state.weight(w, target) == old(self).weight(w, target));
                }
                assert forall|j: int|
                    env0.len() <= j < env@.len() && (#[trigger] env@[j]).index is Virtual implies {
                    &&& !old(self).valid(env@[j])
                    &&& forall|i: int| 0 <= i < env@.len() && i != j ==> #[trigger] env@[i] != env@[j]
                } by {
                    assert forall|i: int| 0 <= i < before.len() implies #[trigger] env@[i]
                        == before[i] by {
                        assert(env@.subrange(0, before.len() as int)[i] == env@[i]);
                    }
                    if j < before.len() {
                        assert(env@[j] == before[j]);
                        assert(state.valid(before[j]));
                        assert forall|i: int| 0 <= i < env@.len() && i != j implies #[trigger] env@[i]
                            != env@[j] by {
                            if i < before.len() {
                                assert(env@[i] == before[i]);
                            }
                        }
                    } else {
                        assert(!state.valid(env@[j]));
                        assert forall|i: int| 0 <= i < env@.len() && i != j implies #[trigger] env@[i]
                            != env@[j] by {
                            assert(i < before.len());
                            assert(env@[i] == before[i]);
                            assert(state.valid(before[i]));
                        }
                    }
                }
            }
            k += 1;
        }
        proof {
            assert(ops@.take(k as int) =~= ops@);
        }
        Ok(())
    }

    /// Carries out a routine on the wires in the registers `args`, as
    /// [`crate::driver::routine`] does on an evaluator, and follows the
    /// trace: the outputs of the routine fill the next registers. When
    /// the routine returns, the virtual wires that it made and does not
    /// hand out are given up.
    pub(crate) fn call(
        &mut self,
        callee: &Routine,
        args: &Vec<usize>,
        env: &mut Vec<Wire>,
        Ghost(trace): Ghost<Trace>,
    ) -> (r: Result<(), Error>)
        requires
            old(self).wf(),
            callee.wf(),
            args@.len() == callee.num_inputs,
            outputs_wf(args@, old(env)@.len()),
            all_valid(old(self), old(env)@),
            old(self).follows(old(env)@, trace),
        ensures
            final(self).wf(),
            final(self).start == old(self).start,
            final(self).y_inv == old(self).y_inv,
            final(self).rank == old(self).rank,
            forall|w: Wire| old(self).valid(w) ==> final(self).valid(w),
            forall|w: Wire, target: WireIndex|
                old(self).valid(w) ==> #[trigger] final(self).weight(w, target) == old(self).weight(
                    w,
                    target,
                ),
            all_valid(final(self), final(env)@),
            match callee.usage(old(self).usage()) {
                Ok(u) => {
                    &&& r is Ok
                    &&& final(self).usage() == u
                    &&& final(env)@.len() == old(env)@.len() + callee.outputs@.len()
                    &&& final(env)@.subrange(0, old(env)@.len() as int) == old(env)@
                    &&& final(self).follows(final(env)@, trace.call(*callee, args@))
                },
                Err(e) => r matches Err(x) && x == e,
            },
    {
        let ghost before = *self;
        let ghost env0 = env@;
        let input = select::<Evaluator>(args, env);
        let ghost given = Seq::new(args@.len(), |k: int| trace.regs[args@[k] as int]);
        let ghost entered = trace.enter(given);
        let saved = self.suspend();
        let mut inner: Vec<Wire> = Vec::new();
        inner.push(self.one());
        crate::driver::append::<Evaluator>(&mut inner, &input);
        proof {
            lemma_ops_usage_limits(callee.ops@, Resources { paired: false, ..before.usage() });
            assert forall|w: Wire, target: WireIndex| before.valid(w) implies #[trigger] self.weight(
                w,
                target,
            ) == before.weight(w, target) by {}
            assert forall|j: int| 0 <= j < inner@.len() implies self.valid(#[trigger] inner@[j]) by {
                if j > 0 {
                    assert(inner@[j] == input@[j - 1]);
                    assert(before.valid(env0[args@[j - 1] as int]));
                }
            }
            assert forall|r: int, target: WireIndex| 0 <= r < inner@.len() implies #[trigger] self.weight(
                inner@[r],
                target,
            ) == reg(entered.regs, r, target) by {
                if r > 0 {
                    assert(inner@[r] == input@[r - 1]);
                    let a = args@[r - 1] as int;
                    assert(before.valid(env0[a]));
                    assert(before.weight(env0[a], target) == reg(trace.regs, a, target));
                    assert(entered.regs[r] == given[r - 1]);
                }
            }
            assert forall|j: int, target: WireIndex|
                0 <= j < entered.rows.len() implies #[trigger] reg(self.rows@, j, target) == reg(
                entered.rows,
                j,
                target,
            ) by {
                assert(reg(before.rows@, j, target) == reg(trace.rows, j, target));
            }
        }
        let ghost started = *self;
        let from = inner.len();
        self.run(&callee.ops, &mut inner, Ghost(entered))?;
        let ghost ran = *self;
        let ghost finished = entered.ops(callee.ops@);
        self.resume(saved);
        let output = select::<Evaluator>(&callee.outputs, &inner);
        crate::driver::append::<Evaluator>(env, &output);
        proof {
            let after = trace.call(*callee, args@);
            assert(env@.subrange(0, env0.len() as int) =~= env0);
            assert forall|w: Wire, target: WireIndex| before.valid(w) implies #[trigger] self.weight(
                w,
                target,
            ) == before.weight(w, target) by {
                assert(started.valid(w));
                assert(ran.weight(w, target) == started.weight(w, target));
                assert(started.weight(w, target) == before.weight(w, target));
            }
            assert forall|j: int| 0 <= j < env@.len() implies self.valid(#[trigger] env@[j]) by {
                if j < env0.len() {
                    assert(before.valid(env0[j]));
                } else {
                    assert(env@[j] == output@[j - env0.len()]);
                    assert(ran.valid(inner@[callee.outputs@[j - env0.len()] as int]));
                }
            }
            assert forall|r: int, target: WireIndex| 0 <= r < env@.len() implies #[trigger] self.weight(
                env@[r],
                target,
            ) == reg(after.regs, r, target) by {
                if r < env0.len() {
                    assert(before.valid(env0[r]));
                    assert(before.weight(env0[r], target) == reg(trace.regs, r, target));
                } else {
                    let o = callee.outputs@[r - env0.len()] as int;
                    assert(env@[r] == output@[r - env0.len()]);
                    assert(ran.weight(inner@[o], target) == reg(finished.regs, o, target));
                }
            }
            assert forall|j: int, target: WireIndex|
                0 <= j < after.rows.len() implies #[trigger] reg(self.rows@, j, target) == reg(
                after.rows,
                j,
                target,
            ) by {
                assert(reg(ran.rows@, j, target) == reg(finished.rows, j, target));
            }
            assert forall|w: Wire| started.valid(w) implies self.valid(w) by {
                assert(ran.valid(w));
            }
            assert forall|j: int| 0 <= j < inner@.len() implies self.valid(#[trigger] inner@[j]) by {
                assert(ran.valid(inner@[j]));
            }
        }
        let ghost returned = *self;
        self.retire(&inner, from, &callee.outputs);
        proof {
            let after = trace.call(*callee, args@);
            assert forall|w: Wire| before.valid(w) implies self.valid(w) by {
                assert(started.valid(w));
                assert(returned.valid(w));
                if let WireIndex::Virtual(i) = w.index {
                    let s = i as int;
                    if retired(inner@, from as int, callee.outputs@, s) {
                        let j = choose|j: int|
                            from <= j < inner@.len() && !callee.outputs@.contains(j as usize)
                                && slot_of((#[trigger] inner@[j]).index) == s && s >= 0;
                        assert(inner@[j].index is Virtual);
                        assert(inner@[j] == w);
                        assert(!started.valid(inner@[j]));
                    }
                    assert(self.virtual_table.wires@[s].handles
                        == returned.virtual_table.wires@[s].handles);
                }
            }
            assert forall|w: Wire, target: WireIndex| before.valid(w) implies #[trigger] self.weight(
                w,
                target,
            ) == before.weight(w, target) by {
                assert(self.valid(w));
                assert(returned.weight(w, target) == before.weight(w, target));
            }
            assert forall|j: int| 0 <= j < env@.len() implies self.valid(#[trigger] env@[j]) by {
                if j < env0.len() {
                    assert(before.valid(env0[j]));
                } else {
                    let o = j - env0.len();
                    assert(env@[j] == output@[o]);
                    assert(self.valid(inner@[callee.outputs@[o] as int]));
                }
            }
            assert forall|r: int, target: WireIndex| 0 <= r < env@.len() implies #[trigger] self.weight(
                env@[r],
                target,
            ) == reg(after.regs, r, target) by {
                assert(self.valid(env@[r]));
                assert(returned.weight(env@[r], target) == reg(after.regs, r, target));
            }
        }
        Ok(())
    }

    /// Whether the register `place` is among `outputs`.
    pub fn named(outputs: &Vec<usize>, place: usize) -> (r: bool)
        ensures
            r == outputs@.contains(place),
    {
        let mut k: usize = 0;
        while k < outputs.len()
            invariant
                0 <= k <= outputs@.len(),
                forall|j: int| 0 <= j < k ==> (#[trigger] outputs@[j]) != place,
            decreases outputs@.len() - k,
        {
            if outputs[k] == place {
                return true;
            }
            k += 1;
        }
        false
    }

    /// Gives up the handles that a routine leaves behind when it returns:
    /// the handle of each virtual wire that the routine made, in the
    /// registers from `from` on, and does not hand out among `outputs`.
    /// Such a wire resolves then, unless a stored term still names it.
    /// The other wires keep their handles, and what any wire weighs is
    /// not changed.
    pub fn retire(&mut self, inner: &Vec<Wire>, from: usize, outputs: &Vec<usize>)
        requires
            old(self).wf(),
            from <= inner@.len(),
            all_valid(old(self), inner@),
            outputs_wf(outputs@, inner@.len()),
            single(inner@, from as int),
            old(self).available_b matches Some(w) ==> !(w.index is Virtual),
        ensures
            final(self).wf(),
            final(self).start == old(self).start,
            final(self).y_inv == old(self).y_inv,
            final(self).rank == old(self).rank,
            final(self).rows == old(self).rows,
            final(self).usage() == old(self).usage(),
            final(self).available_b == old(self).available_b,
            final(self).virtual_table.wires@.len() == old(self).virtual_table.wires@.len(),
            forall|k: int|
                0 <= k < outputs@.len() ==> final(self).valid(inner@[(#[trigger] outputs@[k]) as int]),
            forall|w: Wire, target: WireIndex|
                final(self).valid(w) ==> #[trigger] final(self).weight(w, target) == old(self).weight(
                    w,
                    target,
                ),
            forall|s: int|
                0 <= s < old(self).virtual_table.wires@.len() ==> (#[trigger] final(self).virtual_table.wires@[s]).handles
                    == old(self).virtual_table.wires@[s].handles - if retired(
                    inner@,
                    from as int,
                    outputs@,
                    s,
                ) {
                    1int
                } else {
                    0int
                },
    {
        let mut j: usize = from;
        while j < inner.len()
            invariant
                from <= j <= inner@.len(),
                self.wf(),
                self.start == old(self).start,
                self.y_inv == old(self).y_inv,
                self.rank == old(self).rank,
                self.rows == old(self).rows,
                self.usage() == old(self).usage(),
                self.available_b == old(self).available_b,
                self.available_b matches Some(w) ==> !(w.index is Virtual),
                self.virtual_table.wires@.len() == old(self).virtual_table.wires@.len(),
                outputs_wf(outputs@, inner@.len()),
                single(inner@, from as int),
                forall|w: Wire| self.valid(w) ==> old(self).valid(w),
                forall|w: Wire, target: WireIndex|
                    self.valid(w) ==> #[trigger] self.weight(w, target) == old(self).weight(
                        w,
                        target,
                    ),
                forall|i: int|
                    0 <= i < inner@.len() && (i < from || i >= j || outputs@.contains(i as usize)
                        || !(inner@[i].index is Virtual)) ==> self.valid(#[trigger] inner@[i]),
                forall|s: int|
                    0 <= s < old(self).virtual_table.wires@.len() ==> (#[trigger] self.virtual_table.wires@[s]).handles
                        == old(self).virtual_table.wires@[s].handles - if retired(
                        inner@.take(j as int),
                        from as int,
                        outputs@,
                        s,
                    ) {
                        1int
                    } else {
                        0int
                    },
            decreases inner@.len() - j,
        {
            let ghost state = *self;
            let wire = inner[j];
            let handed = Self::named(outputs, j);
            let mut gone = false;
            if !handed {
                if let WireIndex::Virtual(_) = wire.index {
                    self.drop_wire(wire);
                    gone = true;
                }
            }
            proof {
                let now = inner@.take(j as int + 1);
                let then = inner@.take(j as int);
                assert forall|w: Wire, target: WireIndex| self.valid(w) implies #[trigger] self.weight(
                    w,
                    target,
                ) == old(self).weight(w, target) by {
                    assert(state.valid(w));
                    assert(state.weight(w, target) == old(self).weight(w, target));
                }
                assert forall|i: int|
                    0 <= i < inner@.len() && (i < from || i >= j + 1 || outputs@.contains(i as usize)
                        || !(inner@[i].index is Virtual)) implies self.valid(
                    #[trigger] inner@[i],
                ) by {
                    if i != j {
                        assert(state.valid(inner@[i]));
                        if gone {
                            assert(inner@[i] != inner@[j as int]);
                        }
                    } else {
                        assert(state.valid(inner@[i]));
                    }
                }
                assert forall|s: int| 0 <= s < old(self).virtual_table.wires@.len() implies (
                #[trigger] self.virtual_table.wires@[s]).handles == old(
                    self,
                ).virtual_table.wires@[s].handles - if retired(now, from as int, outputs@, s) {
                    1int
                } else {
                    0int
                } by {
                    assert(now[j as int] == inner@[j as int]);
                    if retired(then, from as int, outputs@, s) {
                        let i = choose|i: int|
                            from <= i < then.len() && !outputs@.contains(i as usize) && slot_of(
                                (#[trigger] then[i]).index,
                            ) == s && s >= 0;
                        assert(now[i] == then[i]);
                        assert(then[i] == inner@[i]);
                        assert(inner@[i] != inner@[j as int]);
                    } else if retired(now, from as int, outputs@, s) {
                        let i = choose|i: int|
                            from <= i < now.len() && !outputs@.contains(i as usize) && slot_of(
                                (#[trigger] now[i]).index,
                            ) == s && s >= 0;
                        if i < j {
                            assert(then[i] == now[i]);
                            assert(false);
                        }
                    } else {
                        if gone && slot_of(wire.index) == s {
                            assert(slot_of(now[j as int].index) == s);
                            assert(false);
                        }
                    }
                }
            }
            j += 1;
        }
        proof {
            assert(inner@.take(j as int) =~= inner@);
            assert forall|k: int| 0 <= k < outputs@.len() implies self.valid(
                inner@[(#[trigger] outputs@[k]) as int],
            ) by {
                let i = outputs@[k] as int;
                assert(outputs@.contains(i as usize));
            }
        }
    }

    /// Whether a register other than `place` holds the wire `wire`.
    pub fn shared(env: &Vec<Wire>, place: usize, wire: Wire) -> (r: bool)
        ensures
            r == holds_twice(env@, place as int, wire),
    {
        let mut k: usize = 0;
        while k < env.len()
            invariant
                0 <= k <= env@.len(),
                forall|j: int| 0 <= j < k && j != place ==> (#[trigger] env@[j]) != wire,
            decreases env@.len() - k,
        {
            if k != place && env[k].index == wire.index {
                return true;
            }
            k += 1;
        }
        false
    }

    /// Gives up the wire in the register `place`, which is not the first
    /// register: the register holds the wire of the first register
    /// afterwards, the constant wire. The handle of the wire is given up,
    /// as [`Evaluator::drop_wire`] does, unless another register holds the
    /// wire too: the handle is that register's then, and the evaluator
    /// stays as it is. What the wires in the registers weigh is not
    /// changed.
    pub fn release_register(&mut self, place: usize, env: &mut Vec<Wire>)
        requires
            old(self).wf(),
            1 <= place < old(env)@.len(),
            all_valid(old(self), old(env)@),
            !(old(env)@[place as int].index is Virtual && old(self).available_b == Some(
                old(env)@[place as int],
            )),
        ensures
            final(self).wf(),
            final(self).start == old(self).start,
            final(self).y_inv == old(self).y_inv,
            final(self).rank == old(self).rank,
            final(self).rows == old(self).rows,
            final(self).usage() == old(self).usage(),
            final(self).available_b == old(self).available_b,
            final(self).current_y == old(self).current_y,
            all_valid(final(self), final(env)@),
            final(env)@ == old(env)@.update(place as int, old(env)@[0]),
            forall|r: int, target: WireIndex|
                0 <= r < final(env)@.len() ==> #[trigger] final(self).weight(
                    final(env)@[r],
                    target,
                ) == old(self).weight(final(env)@[r], target),
            forall|target: WireIndex|
                cong(#[trigger] final(self).pending(target), old(self).pending(target)),
            ({
                let wire = old(env)@[place as int];
                if holds_twice(old(env)@, place as int, wire) || !(wire.index is Virtual) {
                    *final(self) == *old(self)
                } else {
                    final(self).virtual_table.model() == old(self).virtual_table.model().unhanded(
                        slot_of(wire.index),
                    ).freed(wire.index, refcount_sum(old(self).virtual_table.wires@))
                }
            }),
    {
        let ghost before = *self;
        let ghost env0 = env@;
        let wire = env[place];
        let first = env[0];
        let kept = Self::shared(env, place, wire);
        env.set(place, first);
        if !kept {
            self.drop_wire(wire);
        }
        proof {
            assert forall|j: int| 0 <= j < env@.len() implies self.valid(#[trigger] env@[j]) by {
                let source = if j == place {
                    0
                } else {
                    j
                };
                assert(env@[j] == env0[source]);
                assert(before.valid(env0[source]));
                if !kept {
                    assert(env0[source] != wire);
                }
            }
            assert forall|r: int, target: WireIndex| 0 <= r < env@.len() implies #[trigger]
                self.weight(env@[r], target) == before.weight(env@[r], target) by {
                assert(self.valid(env@[r]));
            }
            assert forall|target: WireIndex|
                cong(#[trigger] self.pending(target), before.pending(target)) by {
            }
        }
    }

    /// Gives up the wire in a register, as [`Evaluator::release_register`]
    /// does, and follows the trace.
    pub(crate) fn give_up(&mut self, place: usize, env: &mut Vec<Wire>, Ghost(trace): Ghost<Trace>)
        requires
            old(self).wf(),
            1 <= place < old(env)@.len(),
            all_valid(old(self), old(env)@),
            old(self).follows(old(env)@, trace),
        ensures
            final(self).wf(),
            final(self).start == old(self).start,
            final(self).y_inv == old(self).y_inv,
            final(self).rank == old(self).rank,
            final(self).usage() == old(self).usage(),
            all_valid(final(self), final(env)@),
            final(env)@ == old(env)@.update(place as int, old(env)@[0]),
            final(self).follows(
                final(env)@,
                Trace { regs: trace.regs.update(place as int, trace.regs[0]), ..trace },
            ),
    {
        let ghost before = *self;
        let ghost env0 = env@;
        self.release_register(place, env);
        proof {
            let after = Trace { regs: trace.regs.update(place as int, trace.regs[0]), ..trace };
            assert forall|r: int, target: WireIndex| 0 <= r < env@.len() implies #[trigger]
                self.weight(env@[r], target) == reg(after.regs, r, target) by {
                let source = if r == place {
                    0
                } else {
                    r
                };
                assert(env@[r] == env0[source]);
                assert(before.weight(env0[source], target) == reg(trace.regs, source, target));
            }
        }
    }

    /// Carries out the instructions of a circuit one after the other, as
    /// [`Circuit::witness`] does, and follows the trace.
    pub(crate) fn steps(
        &mut self,
        steps: &Vec<Instruction>,
        env: &mut Vec<Wire>,
        Ghost(trace): Ghost<Trace>,
    ) -> (r: Result<(), Error>)
        requires
            old(self).wf(),
            forall|k: int|
                0 <= k < steps@.len() ==> (#[trigger] steps@[k]).wf(
                    old(env)@.len() + steps_make(steps@.take(k)),
                ),
            all_valid(old(self), old(env)@),
            old(self).follows(old(env)@, trace),
        ensures
            final(self).wf(),
            final(self).start == old(self).start,
            final(self).y_inv == old(self).y_inv,
            final(self).rank == old(self).rank,
            all_valid(final(self), final(env)@),
            match steps_usage(steps@, old(self).usage(), false) {
                Ok(u) => {
                    &&& r is Ok
                    &&& final(self).usage() == u
                    &&& final(env)@.len() == old(env)@.len() + steps_make(steps@)
                    &&& final(self).follows(final(env)@, trace.steps(steps@))
                },
                Err(e) => r matches Err(x) && x == e,
            },
    {
        let ghost env0 = env@;
        let ghost u0 = self.usage();
        let mut k: usize = 0;
        proof {
            assert(steps@.take(0) =~= Seq::<Instruction>::empty());
        }
        while k < steps.len()
            invariant
                0 <= k <= steps@.len(),
                self.wf(),
                self.start == old(self).start,
                self.y_inv == old(self).y_inv,
                self.rank == old(self).rank,
                forall|j: int|
                    0 <= j < steps@.len() ==> (#[trigger] steps@[j]).wf(
                        env0.len() + steps_make(steps@.take(j)),
                    ),
                all_valid(self, env@),
                u0 == old(self).usage(),
                env0 == old(env)@,
                steps_usage(steps@.take(k as int), u0, false) == Ok::<Resources, Error>(
                    self.usage(),
                ),
                env@.len() == env0.len() + steps_make(steps@.take(k as int)),
                self.follows(env@, trace.steps(steps@.take(k as int))),
            decreases steps@.len() - k,
        {
            let ghost current = trace.steps(steps@.take(k as int));
            proof {
                assert(steps@.take(k as int + 1).drop_last() =~= steps@.take(k as int));
                assert(steps@.take(k as int + 1).last() == steps@[k as int]);
                assert(steps@[k as int].wf(env0.len() + steps_make(steps@.take(k as int))));
            }
            let outcome = match &steps[k] {
                Instruction::Op(op) => self.apply(op, env, Ghost(current)),
                Instruction::Call(callee, args) => self.call(callee, args, env, Ghost(current)),
                Instruction::Release(place) => {
                    self.give_up(*place, env, Ghost(current));
                    Ok(())
                },
            };
            match outcome {
                Ok(()) => {},
                Err(e) => {
                    proof {
                        lemma_steps_usage_prefix(steps@, u0, false, k as int + 1);
                    }
                    return Err(e);
                },
            }
            k += 1;
        }
        proof {
            assert(steps@.take(k as int) =~= steps@);
        }
        Ok(())
    }

    /// Binds the wire in each of the registers to a coefficient of the
    /// public input polynomial, as [`crate::driver::enforce_public_outputs`]
    /// does, and follows the trace: one row for each register.
    pub(crate) fn publish(&mut self, outputs: &Vec<usize>, env: &Vec<Wire>, Ghost(trace): Ghost<Trace>) -> (r:
        Result<(), Error>)
        requires
            old(self).wf(),
            outputs_wf(outputs@, env@.len()),
            all_valid(old(self), env@),
            old(self).follows(env@, trace),
        ensures
            final(self).wf(),
            final(self).start == old(self).start,
            final(self).y_inv == old(self).y_inv,
            final(self).rank == old(self).rank,
            all_valid(final(self), env@),
            match old(self).usage().enforce_times(outputs@.len()) {
                Ok(u) => {
                    &&& r is Ok
                    &&& final(self).usage() == u
                    &&& final(self).follows(env@, trace.publish(outputs@))
                },
                Err(e) => r matches Err(x) && x == e,
            },
    {
        let ghost u0 = self.usage();
        let mut k: usize = 0;
        proof {
            assert(outputs@.take(0) =~= Seq::<usize>::empty());
            crate::field::lemma_modulus_large();
        }
        while k < outputs.len()
            invariant
                0 <= k <= outputs@.len(),
                self.wf(),
                self.start == old(self).start,
                self.y_inv == old(self).y_inv,
                self.rank == old(self).rank,
                outputs_wf(outputs@, env@.len()),
                all_valid(self, env@),
                u0 == old(self).usage(),
                u0.enforce_times(k as nat) == Ok::<Resources, Error>(self.usage()),
                self.follows(env@, trace.publish(outputs@.take(k as int))),
                modulus() > 1,
            decreases outputs@.len() - k,
        {
            let ghost before = *self;
            let ghost current = trace.publish(outputs@.take(k as int));
            let wire = env[outputs[k]];
            let mut lc: Vec<Step<Wire>> = Vec::new();
            lc.push(Step::Term(wire, Coeff::One));
            proof {
                assert(outputs@.take(k as int + 1).drop_last() =~= outputs@.take(k as int));
                assert(outputs@.take(k as int + 1).last() == outputs@[k as int]);
                assert(self.valid(env@[outputs@[k as int] as int]));
            }
            match self.enforce_zero(&lc) {
                Ok(()) => {},
                Err(e) => {
                    proof {
                        u0.lemma_enforce_times_prefix((k + 1) as nat, outputs@.len());
                    }
                    return Err(e);
                },
            }
            proof {
                let after = trace.publish(outputs@.take(k as int + 1));
                assert forall|r: int, target: WireIndex| 0 <= r < env@.len() implies #[trigger] self.weight(
                    env@[r],
                    target,
                ) == reg(after.regs, r, target) by {
                    assert(before.valid(env@[r]));
                    assert(before.weight(env@[r], target) == reg(current.regs, r, target));
                }
                assert forall|j: int, target: WireIndex|
                    0 <= j < after.rows.len() implies #[trigger] reg(self.rows@, j, target) == reg(
                    after.rows,
                    j,
                    target,
                ) by {
                    if j < current.rows.len() {
                        assert(self.rows@[j] == self.rows@.drop_last()[j]);
                        assert(reg(before.rows@, j, target) == reg(current.rows, j, target));
                    } else {
                        assert((self.rows@.last())(target) == before.lc_weight(lc@, target));
                        assert(lc@.drop_last() =~= Seq::<Step<Wire>>::empty());
                        assert(before.lc_weight(lc@.drop_last(), target) == 0);
                        assert(lc_gain(lc@.drop_last()) == 1);
                        vstd::arithmetic::div_mod::lemma_small_mod(1, modulus());
                        assert((1nat * 1nat) % modulus() == 1);
                        assert(before.lc_weight(lc@, target) == 1 * before.weight(wire, target));
                        assert(before.weight(wire, target) == reg(
                            current.regs,
                            outputs@[k as int] as int,
                            target,
                        ));
                    }
                }
            }
            k += 1;
        }
        proof {
            assert(outputs@.take(k as int) =~= outputs@);
        }
        Ok(())
    }
}

/// A power in the field is canonical.
pub proof fn lemma_pow_mod_canonical(base: nat, exp: nat)
    ensures
        pow_mod(base, exp) < modulus(),
{
    crate::field::lemma_modulus_large();
    if exp > 0 {
        vstd::arithmetic::div_mod::lemma_mod_bound(
            (base * pow_mod(base, (exp - 1) as nat)) as int,
            modulus() as int,
        );
    }
}

/// Where `inverse` is the inverse of `y`, the multipliers that start at
/// `y` to the power `n` and go on by the ratio `inverse` are the powers of
/// `y` from `n` downwards.
pub proof fn lemma_powers(y: nat, inverse: nat, n: nat, j: nat)
    requires
        (y * inverse) % modulus() == 1,
        j <= n,
    ensures
        powers(pow_mod(y, n), inverse, j) == pow_mod(y, (n - j) as nat),
    decreases j,
{
    if j > 0 {
        lemma_powers(y, inverse, n, (j - 1) as nat);
        let p = modulus() as int;
        let x = pow_mod(y, (n - j) as nat) as int;
        crate::field::lemma_modulus_large();
        lemma_pow_mod_canonical(y, (n - j) as nat);
        // ((y * x) % p * inverse) % p == x
        vstd::arithmetic::div_mod::lemma_mul_mod_noop_general(y * x, inverse as int, p);
        assert((y * x) * inverse == (y * inverse) * x) by (nonlinear_arith);
        vstd::arithmetic::div_mod::lemma_mul_mod_noop_general((y * inverse) as int, x, p);
        assert(1 * x == x);
        vstd::arithmetic::div_mod::lemma_small_mod(x as nat, modulus());
        assert(pow_mod(y, (n - j + 1) as nat) == (y * pow_mod(y, (n - j) as nat)) % modulus());
    }
}

/// Rows with the same weights give the same in all.
pub proof fn lemma_combine_same(
    a: Seq<Weights>,
    b: Seq<Weights>,
    first: nat,
    ratio: nat,
    target: WireIndex,
)
    requires
        a.len() == b.len(),
        forall|j: int| 0 <= j < a.len() ==> #[trigger] reg(a, j, target) == reg(b, j, target),
    ensures
        combine(a, first, ratio, target) == combine(b, first, ratio, target),
    decreases a.len(),
{
    if a.len() > 0 {
        assert forall|j: int| 0 <= j < a.drop_last().len() implies #[trigger] reg(
            a.drop_last(),
            j,
            target,
        ) == reg(b.drop_last(), j, target) by {
            assert(reg(a, j, target) == reg(b, j, target));
        }
        lemma_combine_same(a.drop_last(), b.drop_last(), first, ratio, target);
        assert(reg(a, a.len() - 1, target) == reg(b, a.len() - 1, target));
    }
}

/// Where the first multiplier is `y` to the power `rows.len() - 1` and the
/// ratio is the inverse of `y`, what the rows give in all is the
/// coefficient of the wiring polynomial at `y`.
pub proof fn lemma_combine_wiring(
    rows: Seq<Weights>,
    y: nat,
    inverse: nat,
    count: nat,
    target: WireIndex,
)
    requires
        (y * inverse) % modulus() == 1,
        count <= rows.len(),
    ensures
        combine(rows.take(count as int), pow_mod(y, (rows.len() - 1) as nat), inverse, target)
            == wiring(rows, y, count, target),
    decreases count,
{
    if count > 0 {
        lemma_combine_wiring(rows, y, inverse, (count - 1) as nat, target);
        assert(rows.take(count as int).drop_last() =~= rows.take(count - 1));
        assert(rows.take(count as int).last() == rows[count - 1]);
        lemma_powers(y, inverse, (rows.len() - 1) as nat, (count - 1) as nat);
    }
}

/// The row of the constraint that binds the key: the left leg of the
/// first gate, less the key times the constant wire.
pub open spec fn key_row(key: nat) -> Weights {
    |target: WireIndex|
        (if target == WireIndex::A(0) {
            1int
        } else {
            0int
        }) + neg_mod(key) * (if target == WireIndex::C(0) {
            1int
        } else {
            0int
        })
}

/// The trace of an evaluation: the first gate, whose left leg holds the
/// key and whose output leg is the constant wire; the row that binds the
/// key; the circuit itself; one row for each of its outputs; and the row
/// of the constant wire.
pub open spec fn eval_trace(circuit: &Circuit, key: nat) -> Trace {
    let start = Trace {
        gates: 1,
        spare: None,
        regs: seq![unit(WireIndex::C(0))],
        rows: seq![key_row(key)],
    };
    let synthesized = start.steps(circuit.steps@).publish(circuit.outputs@);
    Trace { rows: synthesized.rows.push(unit(WireIndex::C(0))), ..synthesized }
}

/// What evaluating a circuit uses: the first gate; the constraint that
/// binds the key; the circuit itself; one constraint for each of its
/// outputs; and the constraint on the constant wire.
pub open spec fn eval_usage(circuit: &Circuit, rank: Rank) -> Result<Resources, Error> {
    let start = Resources {
        gates: 0,
        gate_limit: Some(rank.n),
        constraints: 0,
        constraint_limit: Some(rank.num_coeffs),
        pairing: true,
        paired: false,
    };
    match start.mul() {
        Err(e) => Err(e),
        Ok(first) => match first.enforce_zero() {
            Err(e) => Err(e),
            Ok(bound) => match circuit.usage(bound, false) {
                Err(e) => Err(e),
                Ok(synthesized) => match synthesized.enforce_times(circuit.outputs@.len()) {
                    Err(e) => Err(e),
                    Ok(public) => public.enforce_zero(),
                },
            },
        },
    }
}

/// The trace after the constraint that binds the key.
pub open spec fn bound_trace(key: nat) -> Trace {
    Trace { gates: 1, spare: None, regs: seq![unit(WireIndex::C(0))], rows: seq![key_row(key)] }
}

/// The resources of an evaluator that has not been used.
pub open spec fn unused(rank: Rank) -> Resources {
    Resources {
        gates: 0,
        gate_limit: Some(rank.n),
        constraints: 0,
        constraint_limit: Some(rank.num_coeffs),
        pairing: true,
        paired: false,
    }
}

impl Evaluator {
    /// An evaluator at the point `y` on which the key has been bound: the
    /// first gate is allocated, and the first constraint requires its
    /// left leg to be the key times the constant wire.
    pub fn begin(rank: Rank, y: &Fe, key: &Fe, num_linear_constraints: usize) -> (r: Result<
        Evaluator,
        Error,
    >)
        requires
            y.wf(),
            key.wf(),
            y@ != 0,
            num_linear_constraints >= 1,
        ensures
            match unused(rank).mul() {
                Err(e) => r matches Err(x) && x == e,
                Ok(first) => match first.enforce_zero() {
                    Err(e) => r matches Err(x) && x == e,
                    Ok(u) => r matches Ok(ev) && {
                        &&& ev.wf()
                        &&& ev.rank == rank
                        &&& ev.usage() == u
                        &&& ev.follows(seq![Wire { index: WireIndex::C(0) }], bound_trace(key@))
                        &&& ev.start@ == pow_mod(y@, (num_linear_constraints - 1) as nat)
                        &&& (y@ * ev.y_inv@) % modulus() == 1
                    },
                },
            },
    {
        let mut evaluator = Evaluator::new(rank, y, num_linear_constraints)?;
        let key_wire = Wire { index: WireIndex::A(0) };
        let one = evaluator.one();
        let mut lc: Vec<Step<Wire>> = Vec::new();
        lc.push(Step::Term(key_wire, Coeff::One));
        lc.push(Step::Term(one, Coeff::NegativeArbitrary(*key)));
        let ghost fresh = evaluator;
        evaluator.enforce_zero(&lc)?;
        proof {
            let bound = bound_trace(key@);
            let env = seq![Wire { index: WireIndex::C(0) }];
            crate::field::lemma_modulus_large();
            assert forall|j: int, target: WireIndex|
                0 <= j < bound.rows.len() implies #[trigger] reg(evaluator.rows@, j, target)
                == reg(bound.rows, j, target) by {
                let first = lc@.drop_last();
                assert(first.drop_last() =~= Seq::<Step<Wire>>::empty());
                assert(first.last() == lc@[0]);
                assert(lc@.last() == lc@[1]);
                assert(lc_gain(first.drop_last()) == 1);
                assert(lc_gain(first) == 1);
                vstd::arithmetic::div_mod::lemma_small_mod(1, modulus());
                crate::coeff::lemma_val_canonical(Coeff::NegativeArbitrary(*key));
                vstd::arithmetic::div_mod::lemma_small_mod(neg_mod(key@), modulus());
                assert((1nat * 1nat) % modulus() == 1);
                assert((neg_mod(key@) * 1) % modulus() == neg_mod(key@));
                assert(fresh.lc_weight(first.drop_last(), target) == 0);
                assert(fresh.lc_weight(first, target) == 0 + 1 * fresh.weight(key_wire, target));
                assert(fresh.lc_weight(lc@, target) == fresh.lc_weight(first, target) + neg_mod(
                    key@,
                ) * fresh.weight(one, target));
                assert((evaluator.rows@.last())(target) == fresh.lc_weight(lc@, target));
            }
            assert forall|r: int, target: WireIndex| 0 <= r < env.len() implies #[trigger] evaluator.weight(
                env[r],
                target,
            ) == reg(bound.regs, r, target) by {}
        }
        Ok(evaluator)
    }

    /// Enforces the constraint on the constant wire, which is the last
    /// constraint of an evaluation, and follows the trace: the row of this
    /// constraint is the constant wire alone.
    pub(crate) fn close(&mut self, Ghost(env): Ghost<Seq<Wire>>, Ghost(trace): Ghost<Trace>) -> (r: Result<
        (),
        Error,
    >)
        requires
            old(self).wf(),
            old(self).follows(env, trace),
        ensures
            final(self).wf(),
            final(self).start == old(self).start,
            final(self).y_inv == old(self).y_inv,
            final(self).rank == old(self).rank,
            match old(self).usage().enforce_zero() {
                Ok(u) => {
                    &&& r is Ok
                    &&& final(self).usage() == u
                    &&& final(self).rows@.len() == trace.rows.len() + 1
                    &&& forall|j: int, target: WireIndex|
                        0 <= j < trace.rows.len() + 1 ==> #[trigger] reg(
                            final(self).rows@,
                            j,
                            target,
                        ) == reg(trace.rows.push(unit(WireIndex::C(0))), j, target)
                },
                Err(e) => r matches Err(x) && x == e,
            },
    {
        let ghost before = *self;
        let one = self.one();
        let mut last: Vec<Step<Wire>> = Vec::new();
        last.push(Step::Term(one, Coeff::One));
        self.enforce_zero(&last)?;
        proof {
            let rows = trace.rows.push(unit(WireIndex::C(0)));
            crate::field::lemma_modulus_large();
            assert forall|j: int, target: WireIndex| 0 <= j < rows.len() implies #[trigger] reg(
                self.rows@,
                j,
                target,
            ) == reg(rows, j, target) by {
                if j < trace.rows.len() {
                    assert(self.rows@[j] == self.rows@.drop_last()[j]);
                    assert(reg(before.rows@, j, target) == reg(trace.rows, j, target));
                } else {
                    assert(last@.drop_last() =~= Seq::<Step<Wire>>::empty());
                    assert(before.lc_weight(last@.drop_last(), target) == 0);
                    assert(lc_gain(last@.drop_last()) == 1);
                    vstd::arithmetic::div_mod::lemma_small_mod(1, modulus());
                    assert((1nat * 1nat) % modulus() == 1);
                    assert(before.lc_weight(last@, target) == 1 * before.weight(one, target));
                    assert((self.rows@.last())(target) == before.lc_weight(last@, target));
                }
            }
        }
        Ok(())
    }

    /// Once every virtual wire has resolved, the polynomial holds the
    /// wiring polynomial of the rows.
    pub proof fn lemma_resolved(self, rows: Seq<Weights>, y: nat, i: int)
        requires
            self.wf(),
            forall|target: WireIndex| #[trigger]
                self.pending(target) == self.virtual_table.coefficient(target),
            rows.len() == self.rows@.len(),
            rows.len() >= 1,
            forall|j: int, target: WireIndex|
                0 <= j < rows.len() ==> #[trigger] reg(self.rows@, j, target) == reg(
                    rows,
                    j,
                    target,
                ),
            self.start@ == pow_mod(y, (rows.len() - 1) as nat),
            (y * self.y_inv@) % modulus() == 1,
            0 <= i < self.multiplication_constraints,
        ensures
            self.virtual_table.sy.a@[i]@ == wiring(rows, y, rows.len(), WireIndex::A(i as usize))
                % (modulus() as int),
            self.virtual_table.sy.b@[i]@ == wiring(rows, y, rows.len(), WireIndex::B(i as usize))
                % (modulus() as int),
            self.virtual_table.sy.c@[i]@ == wiring(rows, y, rows.len(), WireIndex::C(i as usize))
                % (modulus() as int),
    {
        let p = modulus() as int;
        let q = rows.len();
        let sy = self.virtual_table.sy;
        assert(rows.take(q as int) =~= rows);
        assert forall|target: WireIndex|
            self.virtual_table.coefficient(target) % p == #[trigger] wiring(rows, y, q, target)
                % p by {
            assert(self.pending(target) == self.virtual_table.coefficient(target));
            assert(cong(
                self.pending(target),
                combine(self.rows@, self.start@, self.y_inv@, target),
            ));
            lemma_combine_same(self.rows@, rows, self.start@, self.y_inv@, target);
            lemma_combine_wiring(rows, y, self.y_inv@, q, target);
        }
        assert(sy.a@[i].wf() && sy.b@[i].wf() && sy.c@[i].wf());
        vstd::arithmetic::div_mod::lemma_small_mod(sy.a@[i]@, modulus());
        vstd::arithmetic::div_mod::lemma_small_mod(sy.b@[i]@, modulus());
        vstd::arithmetic::div_mod::lemma_small_mod(sy.c@[i]@, modulus());
        assert(self.virtual_table.coefficient(WireIndex::A(i as usize)) == sy.a@[i]@);
        assert(self.virtual_table.coefficient(WireIndex::B(i as usize)) == sy.b@[i]@);
        assert(self.virtual_table.coefficient(WireIndex::C(i as usize)) == sy.c@[i]@);
    }
}

/// The coefficients that the polynomial holds for the three wires of the
/// gate `i` are those of the wiring polynomial at `y` of a circuit with the
/// given rows.
pub open spec fn coefficients_are(sy: Polynomial, rows: Seq<Weights>, y: nat, i: int) -> bool {
    &&& sy.a@[i]@ == wiring(rows, y, rows.len(), WireIndex::A(i as usize)) % (modulus() as int)
    &&& sy.b@[i]@ == wiring(rows, y, rows.len(), WireIndex::B(i as usize)) % (modulus() as int)
    &&& sy.c@[i]@ == wiring(rows, y, rows.len(), WireIndex::C(i as usize)) % (modulus() as int)
}

/// The polynomial is the wiring polynomial at `y` of a circuit with the
/// given rows: each coefficient is the sum over the rows of the weight of
/// its wire in the row, times the power of `y` that belongs to the row.
pub open spec fn is_wiring(sy: Polynomial, rows: Seq<Weights>, y: nat) -> bool {
    forall|i: int| 0 <= i < sy.a@.len() ==> #[trigger] coefficients_are(sy, rows, y, i)
}

/// What an evaluation of the circuit at the point `y` with the key `key`
/// gives.
///
/// At `y = 0` it is the polynomial with the single coefficient one, on
/// the constant wire. Elsewhere it is the error of the first gate or
/// constraint beyond the bounds of `rank`, if there is one, and else the
/// wiring polynomial at `y` of the rows of the circuit, with as many
/// coefficients for each leg as the evaluation has gates.
pub open spec fn evaluated(
    circuit: &Circuit,
    y: nat,
    key: nat,
    rank: Rank,
    r: Result<Polynomial, Error>,
) -> bool {
    if y == 0 {
        r matches Ok(sy) && {
            &&& sy.a@.len() == 0
            &&& sy.b@.len() == 0
            &&& sy.c@.len() == 1
            &&& sy.c@[0]@ == 1
        }
    } else {
        match eval_usage(circuit, rank) {
            Ok(u) => r matches Ok(sy) && {
                &&& sy.wf()
                &&& sy.a@.len() == u.gates
                &&& sy.b@.len() == u.gates
                &&& sy.c@.len() == u.gates
                &&& is_wiring(sy, eval_trace(circuit, key).rows, y)
            },
            Err(e) => r matches Err(x) && x == e,
        }
    }
}

/// Evaluates the wiring polynomial of the circuit at the point `y`, with
/// the key `key`.
///
/// At `y = 0` the polynomial is the single coefficient one, on the
/// constant wire, whatever the circuit is. Elsewhere the circuit is
/// synthesized on an [`Evaluator`] and fails where the evaluator fails: on
/// the first gate or constraint beyond the bounds of `rank`. Where it
/// succeeds, the coefficient of each wire of a gate is the sum over the
/// constraints of the weight of the wire in the constraint, times the
/// power of `y` that belongs to the constraint: the first constraint has
/// the highest power, the last constraint the power zero.
/// `num_linear_constraints` is the number of constraints that the
/// evaluation enforces in all.
///
/// A virtual wire is given up as soon as the circuit lets go of it: when
/// an instruction releases its register, or when the routine that made
/// it returns without handing it out. The handles that are left then are
/// given up together once the outputs are bound. None of this shows in
/// the result.
#[verifier::rlimit(60)]
pub fn eval(circuit: &Circuit, y: Fe, key: Fe, num_linear_constraints: usize, rank: Rank) -> (r:
    Result<Polynomial, Error>)
    requires
        circuit.wf(),
        y.wf(),
        key.wf(),
        y@ != 0 ==> num_linear_constraints >= 1,
        y@ != 0 ==> (eval_usage(circuit, rank) matches Ok(u) ==> u.constraints
            == num_linear_constraints),
    ensures
        evaluated(circuit, y@, key@, rank, r),
        y@ != 0 && r is Ok ==> eval_trace(circuit, key@).rows.len() == num_linear_constraints,
{
    if y.is_zero() {
        let mut sy = Polynomial::new();
        sy.c.push(Fe::one());
        return Ok(sy);
    }
    let mut evaluator = Evaluator::begin(rank, &y, &key, num_linear_constraints)?;
    let mut env: Vec<Wire> = Vec::new();
    env.push(evaluator.one());
    let ghost bound = bound_trace(key@);
    proof {
        assert(env@ =~= seq![Wire { index: WireIndex::C(0) }]);
    }
    evaluator.steps(&circuit.steps, &mut env, Ghost(bound))?;
    let ghost synthesized = bound.steps(circuit.steps@);
    evaluator.publish(&circuit.outputs, &env, Ghost(synthesized))?;
    let ghost public = synthesized.publish(circuit.outputs@);
    evaluator.close(Ghost(env@), Ghost(public))?;
    let ghost rows = eval_trace(circuit, key@).rows;
    evaluator.release_all();
    let ghost resolved = evaluator;
    let sy = evaluator.finish();
    proof {
        assert(is_wiring(sy, rows, y@)) by {
            assert forall|i: int| 0 <= i < sy.a@.len() implies #[trigger] coefficients_are(
                sy,
                rows,
                y@,
                i,
            ) by {
                resolved.lemma_resolved(rows, y@, i);
            }
        }
    }
    Ok(sy)
}

} // verus!
