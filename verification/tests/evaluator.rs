use ragu::coeff::Coeff;
use ragu::driver::{Circuit, Driver, Instruction, Op, Routine, Step};
use ragu::error::Error;
use ragu::field::Fe;
use ragu::poly::Rank;
use ragu::sy::{Evaluator, VirtualTable, Wire, WireIndex};
use ragu::synthesis::eval;
use ragu::wellformed::try_eval;

fn fe(value: u64) -> Fe {
    Fe::from_u64(value)
}

fn term(wire: Wire, coeff: Coeff) -> Step<Wire> {
    Step::Term(wire, coeff)
}

#[test]
fn two_gates_combined_and_enforced_across_three_constraints() {
    let y = fe(5);
    let mut ev = Evaluator::new(Rank::new(2, 3), &y, 3).unwrap();
    let first = ev.one();
    let (_, _, second) = ev.mul(Coeff::Zero, Coeff::Zero, Coeff::Zero).unwrap();
    assert_eq!(first.index, WireIndex::C(0));
    assert_eq!(second.index, WireIndex::C(1));

    let combined = ev.add(&vec![
        term(first, Coeff::One),
        term(second, Coeff::NegativeOne),
    ]);
    assert_eq!(combined.index, WireIndex::Virtual(0));
    for _ in 0..3 {
        ev.enforce_zero(&vec![term(combined, Coeff::One)]).unwrap();
    }
    assert_eq!(
        ev.enforce_zero(&vec![term(combined, Coeff::One)]),
        Err(Error::LinearBoundExceeded(3))
    );

    ev.drop_wire(combined);
    assert_eq!(ev.virtual_table.free.len(), ev.virtual_table.wires.len());
    assert_eq!(ev.virtual_table.wires.len(), 1);
    assert_eq!(ev.linear_constraints, 3);

    let sy = ev.finish();
    // y^2 + y + 1 at y = 5
    let sum = fe(31);
    assert_eq!(sy.a.len(), 2);
    assert_eq!(sy.b.len(), 2);
    assert_eq!(sy.c.len(), 2);
    assert!(sy.c[0].equals(&sum));
    assert!(sy.c[1].equals(&sum.neg()));
    for i in 0..2 {
        assert!(sy.a[i].is_zero());
        assert!(sy.b[i].is_zero());
    }
}

#[test]
fn evaluation_at_zero_is_the_constant_term_alone() {
    let circuit = Circuit {
        steps: vec![
            Instruction::Op(Op::Mul(Coeff::One, Coeff::One, Coeff::One)),
            Instruction::Op(Op::EnforceZero(vec![Step::Term(1, Coeff::One)])),
        ],
        outputs: vec![3],
    };
    let sy = eval(&circuit, Fe::zero(), fe(77), 5, Rank::new(4, 16)).unwrap();
    assert_eq!(sy.a.len(), 0);
    assert_eq!(sy.b.len(), 0);
    assert_eq!(sy.c.len(), 1);
    assert!(sy.c[0].equals(&Fe::one()));

    let empty = Circuit { steps: vec![], outputs: vec![] };
    let sy = eval(&empty, Fe::zero(), fe(1), 2, Rank::new(0, 0)).unwrap();
    assert_eq!(sy.c.len(), 1);
    assert!(sy.c[0].equals(&Fe::one()));
    assert!(sy.a.is_empty() && sy.b.is_empty());
}

#[test]
fn the_gate_after_the_last_is_refused_and_the_earlier_ones_stay() {
    let y = fe(2);
    let n = 3;
    let mut ev = Evaluator::new(Rank::new(n, 8), &y, 1).unwrap();
    let mut made = vec![];
    for gate in 1..n {
        let (a, b, c) = ev.mul(Coeff::Zero, Coeff::Zero, Coeff::Zero).unwrap();
        assert_eq!(a.index, WireIndex::A(gate));
        assert_eq!(b.index, WireIndex::B(gate));
        assert_eq!(c.index, WireIndex::C(gate));
        made.push((a, b, c));
    }
    assert_eq!(
        ev.mul(Coeff::Zero, Coeff::Zero, Coeff::Zero),
        Err(Error::MultiplicationBoundExceeded(n))
    );
    assert_eq!(
        ev.mul(Coeff::Zero, Coeff::Zero, Coeff::Zero),
        Err(Error::MultiplicationBoundExceeded(n))
    );
    assert_eq!(ev.multiplication_constraints, n);
    // the wires that were made can still be used
    ev.enforce_zero(&vec![term(made[1].2, Coeff::One)]).unwrap();
    let sy = ev.finish();
    assert_eq!(sy.c.len(), n);
    assert!(sy.c[2].equals(&Fe::one()));
}

#[test]
fn no_gate_at_all_is_refused_at_once() {
    assert!(matches!(
        Evaluator::new(Rank::new(0, 8), &fe(2), 1),
        Err(Error::MultiplicationBoundExceeded(0))
    ));
    let empty = Circuit { steps: vec![], outputs: vec![] };
    assert!(matches!(
        eval(&empty, fe(2), fe(3), 2, Rank::new(0, 8)),
        Err(Error::MultiplicationBoundExceeded(0))
    ));
}

#[test]
fn single_wires_share_gates() {
    let mut ev = Evaluator::new(Rank::new(3, 8), &fe(2), 1).unwrap();
    let first = ev.allocate(Coeff::Zero).unwrap();
    let second = ev.allocate(Coeff::Zero).unwrap();
    let third = ev.allocate(Coeff::Zero).unwrap();
    assert_eq!(first.index, WireIndex::A(1));
    assert_eq!(second.index, WireIndex::B(1));
    assert_eq!(third.index, WireIndex::A(2));
    assert_eq!(ev.multiplication_constraints, 3);
    // the right leg of the last gate is still to be had
    let fourth = ev.allocate(Coeff::Zero).unwrap();
    assert_eq!(fourth.index, WireIndex::B(2));
    assert_eq!(
        ev.allocate(Coeff::Zero),
        Err(Error::MultiplicationBoundExceeded(3))
    );
}

#[test]
fn reference_counts_follow_handles_and_stored_terms() {
    let mut ev = Evaluator::new(Rank::new(2, 8), &fe(3), 2).unwrap();
    let one = ev.one();
    let inner = ev.add(&vec![term(one, Coeff::Two)]);
    assert_eq!(ev.virtual_table.wires[0].refcount, 1);
    assert_eq!(ev.virtual_table.wires[0].handles, 1);

    let copy = ev.clone_wire(&inner);
    assert_eq!(ev.virtual_table.wires[0].refcount, 2);
    assert_eq!(ev.virtual_table.wires[0].handles, 2);

    let outer = ev.add(&vec![term(inner, Coeff::One), term(inner, Coeff::One)]);
    assert_eq!(outer.index, WireIndex::Virtual(1));
    assert_eq!(ev.virtual_table.wires[0].refcount, 4);
    assert_eq!(ev.virtual_table.wires[0].handles, 2);
    assert_eq!(ev.virtual_table.wires[1].refcount, 1);

    ev.drop_wire(copy);
    ev.drop_wire(inner);
    // two stored terms still name the inner wire
    assert_eq!(ev.virtual_table.wires[0].refcount, 2);
    assert_eq!(ev.virtual_table.wires[0].handles, 0);
    assert!(ev.virtual_table.free.is_empty());

    ev.enforce_zero(&vec![term(outer, Coeff::One)]).unwrap();
    ev.drop_wire(outer);
    // the outer wire resolved first, and took the inner one with it
    assert_eq!(ev.virtual_table.free, vec![0, 1]);
    assert_eq!(ev.virtual_table.wires[0].refcount, 0);
    assert_eq!(ev.virtual_table.wires[1].refcount, 0);
    assert!(ev.virtual_table.wires[0].terms.is_empty());
    assert!(ev.virtual_table.wires[1].terms.is_empty());

    // y^1 for the one constraint, twice through the inner wire, times two
    let sy = ev.finish();
    assert!(sy.c[0].equals(&fe(12)));
}

#[test]
fn a_freed_slot_is_used_again() {
    let mut ev = Evaluator::new(Rank::new(2, 8), &fe(3), 1).unwrap();
    let one = ev.one();
    let first = ev.add(&vec![term(one, Coeff::One)]);
    let second = ev.add(&vec![term(one, Coeff::One)]);
    assert_eq!(first.index, WireIndex::Virtual(0));
    assert_eq!(second.index, WireIndex::Virtual(1));
    ev.drop_wire(first);
    assert_eq!(ev.virtual_table.free, vec![0]);
    let third = ev.add(&vec![term(second, Coeff::One)]);
    assert_eq!(third.index, WireIndex::Virtual(0));
    assert!(ev.virtual_table.free.is_empty());
    assert_eq!(ev.virtual_table.wires.len(), 2);
    ev.release_all();
    assert_eq!(ev.virtual_table.free.len(), 2);
}

#[test]
fn gains_multiply_the_coefficients_that_follow() {
    let y = fe(2);
    let mut ev = Evaluator::new(Rank::new(1, 8), &y, 1).unwrap();
    let one = ev.one();
    let key = Wire { index: WireIndex::A(0) };
    ev.enforce_zero(&vec![
        term(one, Coeff::Arbitrary(fe(3))),
        Step::Gain(Coeff::Arbitrary(fe(5))),
        term(key, Coeff::Two),
        Step::Gain(Coeff::Two),
        term(one, Coeff::One),
    ])
    .unwrap();
    let sy = ev.finish();
    // 3 + 5 * 2 * 1 on the constant wire, 5 * 2 on the key wire
    assert!(sy.c[0].equals(&fe(13)));
    assert!(sy.a[0].equals(&fe(10)));
    assert!(sy.b[0].is_zero());
}

#[test]
fn collected_values_pass_through_nested_virtual_wires() {
    let y = fe(3);
    let mut ev = Evaluator::new(Rank::new(2, 8), &y, 2).unwrap();
    let one = ev.one();
    let (a, b, _) = ev.mul(Coeff::Zero, Coeff::Zero, Coeff::Zero).unwrap();
    // inner = 2a + b, outer = 5 * inner + 1
    let inner = ev.add(&vec![term(a, Coeff::Two), term(b, Coeff::One)]);
    let outer = ev.add(&vec![
        term(inner, Coeff::Arbitrary(fe(5))),
        term(one, Coeff::One),
    ]);
    // constraints with y^1 and y^0
    ev.enforce_zero(&vec![term(outer, Coeff::One)]).unwrap();
    ev.enforce_zero(&vec![term(inner, Coeff::One), term(outer, Coeff::Two)])
        .unwrap();
    ev.release_all();
    assert_eq!(ev.virtual_table.free.len(), 2);
    let sy = ev.finish();
    // outer collects 3 + 2 = 5, inner collects 1 + 5 * 5 = 26
    assert!(sy.c[0].equals(&fe(5)));
    assert!(sy.a[1].equals(&fe(52)));
    assert!(sy.b[1].equals(&fe(26)));
    assert!(sy.c[1].is_zero());
    assert!(sy.a[0].is_zero());
}

fn two_gate_circuit() -> Circuit {
    // registers: 0 one; 1, 2, 3 first gate; 4, 5, 6 second gate; 7 difference
    Circuit {
        steps: vec![
            Instruction::Op(Op::Mul(Coeff::Two, Coeff::Two, Coeff::Arbitrary(fe(4)))),
            Instruction::Op(Op::Mul(Coeff::Two, Coeff::Two, Coeff::Arbitrary(fe(4)))),
            Instruction::Op(Op::Add(vec![
                Step::Term(3, Coeff::One),
                Step::Term(6, Coeff::NegativeOne),
            ])),
            Instruction::Op(Op::EnforceZero(vec![Step::Term(7, Coeff::One)])),
        ],
        outputs: vec![3],
    }
}

#[test]
fn a_circuit_is_evaluated_with_its_key_and_its_outputs() {
    let y = fe(2);
    let key = fe(7);
    // the key, the circuit's own constraint, one output, the constant wire
    let sy = eval(&two_gate_circuit(), y, key, 4, Rank::new(3, 4)).unwrap();
    assert_eq!(sy.a.len(), 3);
    // key wire: y^3
    assert!(sy.a[0].equals(&fe(8)));
    // constant wire: -key * y^3 + y^0
    assert!(sy.c[0].equals(&fe(1).add(&fe(56).neg())));
    // output of the first gate: y^2 from the circuit, y^1 as an output
    assert!(sy.c[1].equals(&fe(6)));
    // output of the second gate: -y^2
    assert!(sy.c[2].equals(&fe(4).neg()));
    assert!(sy.b[0].is_zero() && sy.b[1].is_zero() && sy.b[2].is_zero());
    assert!(sy.a[1].is_zero() && sy.a[2].is_zero());
}

#[test]
fn a_circuit_beyond_the_bounds_fails_with_the_bound() {
    assert!(matches!(
        eval(&two_gate_circuit(), fe(2), fe(7), 4, Rank::new(2, 4)),
        Err(Error::MultiplicationBoundExceeded(2))
    ));
    assert!(matches!(
        eval(&two_gate_circuit(), fe(2), fe(7), 4, Rank::new(3, 3)),
        Err(Error::LinearBoundExceeded(3))
    ));
    assert!(matches!(
        eval(&two_gate_circuit(), fe(2), fe(7), 4, Rank::new(3, 1)),
        Err(Error::LinearBoundExceeded(1))
    ));
}

#[test]
fn a_routine_does_not_take_the_leg_that_its_caller_left() {
    let body = Routine {
        num_inputs: 1,
        ops: vec![
            Op::Alloc(Coeff::One),
            Op::EnforceZero(vec![Step::Term(1, Coeff::One), Step::Term(2, Coeff::NegativeOne)]),
        ],
        outputs: vec![2],
    };
    let mut ev = Evaluator::new(Rank::new(4, 8), &fe(2), 1).unwrap();
    let first = ev.allocate(Coeff::Zero).unwrap();
    assert_eq!(first.index, WireIndex::A(1));
    let output = ragu::driver::routine(&mut ev, &body, &vec![first]).unwrap();
    // the routine took a gate of its own
    assert_eq!(output[0].index, WireIndex::A(2));
    // and the caller still finds its right leg
    let second = ev.allocate(Coeff::Zero).unwrap();
    assert_eq!(second.index, WireIndex::B(1));
    assert_eq!(ev.multiplication_constraints, 3);
    assert_eq!(ev.linear_constraints, 1);
}

#[test]
fn an_empty_table_is_consistent() {
    let table = VirtualTable::new();
    assert!(table.wires.is_empty());
    assert!(table.free.is_empty());
    assert!(table.sy.a.is_empty());
}

#[test]
fn a_circuit_with_a_routine_is_evaluated() {
    // registers: 0 one; 1 single wire; 2 output of the routine; 3 single wire
    let body = Routine {
        num_inputs: 1,
        ops: vec![
            Op::Alloc(Coeff::One),
            Op::Add(vec![Step::Term(1, Coeff::Two), Step::Term(2, Coeff::One)]),
            Op::EnforceZero(vec![Step::Term(3, Coeff::One)]),
        ],
        outputs: vec![3],
    };
    let circuit = Circuit {
        steps: vec![
            Instruction::Op(Op::Alloc(Coeff::One)),
            Instruction::Call(body, vec![1]),
            Instruction::Op(Op::Alloc(Coeff::One)),
        ],
        outputs: vec![2],
    };
    // constraints: key, the routine's, one output, the constant wire
    let sy = eval(&circuit, fe(3), fe(5), 4, Rank::new(3, 4)).unwrap();
    assert_eq!(sy.a.len(), 3);
    // first single wire A(1): twice in the routine's sum, which is enforced
    // with y^2 inside the routine and with y as the output
    assert!(sy.a[1].equals(&fe(2 * 9 + 2 * 3)));
    // the routine's own wire takes a gate of its own: A(2)
    assert!(sy.a[2].equals(&fe(9 + 3)));
    // the last single wire finds the leg that the first one left: B(1)
    assert!(sy.b[1].is_zero());
    assert!(sy.b[2].is_zero());
    assert!(sy.a[0].equals(&fe(27)));
    assert!(sy.c[0].equals(&fe(1).add(&fe(5 * 27).neg())));
}

#[test]
fn evaluation_begins_with_the_key() {
    let ev = Evaluator::begin(Rank::new(1, 2), &fe(2), &fe(9), 2).unwrap();
    assert_eq!(ev.multiplication_constraints, 1);
    assert_eq!(ev.linear_constraints, 1);
    let sy = ev.finish();
    assert!(sy.a[0].equals(&fe(2)));
    assert!(sy.c[0].equals(&fe(18).neg()));
    assert!(matches!(
        Evaluator::begin(Rank::new(1, 0), &fe(2), &fe(9), 2),
        Err(Error::LinearBoundExceeded(0))
    ));
    assert!(matches!(
        Evaluator::begin(Rank::new(0, 0), &fe(2), &fe(9), 2),
        Err(Error::MultiplicationBoundExceeded(0))
    ));
}

#[test]
fn a_circuit_is_looked_at_before_it_is_evaluated() {
    let circuit = two_gate_circuit();
    assert!(circuit.check());
    assert_eq!(circuit.constraints(), Some(1));
    let sy = try_eval(&circuit, fe(2), fe(7), Rank::new(3, 4)).unwrap().unwrap();
    assert!(sy.c[1].equals(&fe(6)));
    assert!(matches!(
        try_eval(&circuit, fe(2), fe(7), Rank::new(3, 3)),
        Some(Err(Error::LinearBoundExceeded(3)))
    ));

    // a register that is not filled yet
    let early = Circuit {
        steps: vec![Instruction::Op(Op::Add(vec![Step::Term(1, Coeff::One)]))],
        outputs: vec![],
    };
    assert!(!early.check());
    assert!(try_eval(&early, fe(2), fe(7), Rank::new(3, 4)).is_none());
    // an output beyond the registers
    let beyond = Circuit { steps: vec![], outputs: vec![1] };
    assert!(!beyond.check());
    // a routine that is handed too few wires
    let body = Routine { num_inputs: 2, ops: vec![], outputs: vec![2] };
    assert!(body.check());
    assert_eq!(body.constraints(), 0);
    let short = Circuit {
        steps: vec![Instruction::Call(body, vec![0])],
        outputs: vec![0],
    };
    assert!(!short.check());
    let inner = Routine {
        num_inputs: 0,
        ops: vec![Op::EnforceZero(vec![Step::Term(1, Coeff::One)])],
        outputs: vec![],
    };
    assert!(!inner.check());
}

#[test]
fn handles_are_made_for_places() {
    assert_eq!(Wire::new(WireIndex::B(3)).index, WireIndex::B(3));
    let mut ev = Evaluator::new(Rank::new(2, 4), &fe(2), 1).unwrap();
    let five = ragu::driver::constant(&mut ev, Coeff::Arbitrary(fe(5)));
    assert_eq!(five.index, WireIndex::Virtual(0));
    ev.enforce_zero(&vec![term(five, Coeff::One)]).unwrap();
    ev.release_all();
    assert!(ev.finish().c[0].equals(&fe(5)));
}

#[test]
fn constraints_on_a_virtual_wire_gather_in_its_slot_until_it_goes() {
    let y = fe(5);
    let mut ev = Evaluator::new(Rank::new(2, 3), &y, 3).unwrap();
    let first = ev.one();
    let (_, _, second) = ev.mul(Coeff::Zero, Coeff::Zero, Coeff::Zero).unwrap();
    let combined = ev.add(&vec![
        term(first, Coeff::One),
        term(second, Coeff::NegativeOne),
    ]);
    // a new slot: one handle, nothing gathered, the terms as they were given
    assert_eq!(ev.virtual_table.wires[0].refcount, 1);
    assert!(ev.virtual_table.wires[0].value.is_zero());
    assert_eq!(ev.virtual_table.wires[0].terms.len(), 2);
    assert_eq!(ev.virtual_table.wires[0].terms[0].0, WireIndex::C(0));
    assert_eq!(ev.virtual_table.wires[0].terms[1].0, WireIndex::C(1));
    assert!(ev.virtual_table.wires[0].terms[0].1.value().equals(&fe(1)));
    assert!(ev.virtual_table.wires[0].terms[1].1.value().equals(&fe(1).neg()));

    // the weights of the three constraints are 25, 5 and 1
    let gathered = [fe(25), fe(30), fe(31)];
    let weights = [fe(5), fe(1)];
    for k in 0..3 {
        ev.enforce_zero(&vec![term(combined, Coeff::One)]).unwrap();
        assert!(ev.virtual_table.wires[0].value.value().equals(&gathered[k]));
        if k < 2 {
            assert!(ev.current_y.equals(&weights[k]));
        }
        assert_eq!(ev.linear_constraints, k + 1);
        assert_eq!(ev.virtual_table.wires[0].refcount, 1);
        assert_eq!(ev.virtual_table.wires[0].terms.len(), 2);
        // nothing has reached a gate yet
        assert!(ev.virtual_table.sy.a.iter().all(|v| v.is_zero()));
        assert!(ev.virtual_table.sy.b.iter().all(|v| v.is_zero()));
        assert!(ev.virtual_table.sy.c.iter().all(|v| v.is_zero()));
    }
    assert_eq!(
        ev.enforce_zero(&vec![term(combined, Coeff::One)]),
        Err(Error::LinearBoundExceeded(3))
    );
    assert!(ev.virtual_table.wires[0].value.value().equals(&fe(31)));
    assert!(ev.virtual_table.sy.c.iter().all(|v| v.is_zero()));

    ev.drop_wire(combined);
    assert!(ev.virtual_table.sy.c[0].equals(&fe(31)));
    assert!(ev.virtual_table.sy.c[1].equals(&fe(31).neg()));
}

#[test]
fn a_constraint_reaches_the_gates_that_its_terms_name() {
    let y = fe(3);
    let mut ev = Evaluator::new(Rank::new(4, 8), &y, 2).unwrap();
    let (a, b, c) = ev
        .mul(Coeff::Zero, Coeff::Zero, Coeff::Zero)
        .unwrap();
    // the first of two constraints weighs y
    ev.enforce_zero(&vec![
        term(a, Coeff::Two),
        term(b, Coeff::NegativeOne),
        term(c, Coeff::One),
        term(a, Coeff::One),
    ])
    .unwrap();
    assert!(ev.virtual_table.sy.a[1].equals(&fe(9)));
    assert!(ev.virtual_table.sy.b[1].equals(&fe(3).neg()));
    assert!(ev.virtual_table.sy.c[1].equals(&fe(3)));
    assert!(ev.virtual_table.sy.c[0].is_zero());
    // the second weighs one
    ev.enforce_zero(&vec![term(c, Coeff::Two)]).unwrap();
    assert!(ev.virtual_table.sy.c[1].equals(&fe(5)));
    assert!(ev.virtual_table.sy.a[1].equals(&fe(9)));
    assert!(ev.virtual_table.sy.b[1].equals(&fe(3).neg()));
}

#[test]
fn handles_of_gate_wires_leave_the_table_alone() {
    let mut ev = Evaluator::new(Rank::new(4, 8), &fe(3), 1).unwrap();
    let one = ev.one();
    let held = ev.add(&vec![term(one, Coeff::One)]);
    let (a, _, _) = ev.mul(Coeff::Zero, Coeff::Zero, Coeff::Zero).unwrap();
    let copy = ev.clone_wire(&a);
    assert_eq!(copy.index, a.index);
    assert_eq!(ev.virtual_table.wires.len(), 1);
    assert_eq!(ev.virtual_table.wires[0].refcount, 1);
    ev.drop_wire(copy);
    ev.drop_wire(a);
    assert_eq!(ev.virtual_table.wires[0].refcount, 1);
    assert_eq!(ev.virtual_table.wires[0].handles, 1);
    assert!(ev.virtual_table.free.is_empty());
    assert_eq!(ev.multiplication_constraints, 2);
    ev.drop_wire(held);
    assert_eq!(ev.virtual_table.free, vec![0]);
}

#[test]
fn a_routine_leaves_the_leg_of_its_caller_where_it_was() {
    let body = Routine {
        num_inputs: 0,
        ops: vec![Op::Alloc(Coeff::One), Op::Alloc(Coeff::One), Op::Alloc(Coeff::One)],
        outputs: vec![1, 2, 3],
    };
    let mut ev = Evaluator::new(Rank::new(8, 8), &fe(2), 1).unwrap();
    ev.allocate(Coeff::Zero).unwrap();
    assert_eq!(ev.available_b.map(|w| w.index), Some(WireIndex::B(1)));
    let output = ragu::driver::routine(&mut ev, &body, &vec![]).unwrap();
    assert_eq!(
        output.iter().map(|w| w.index).collect::<Vec<_>>(),
        vec![WireIndex::A(2), WireIndex::B(2), WireIndex::A(3)]
    );
    // the leg that the routine left over is gone, the caller's is back
    assert_eq!(ev.available_b.map(|w| w.index), Some(WireIndex::B(1)));
}

#[test]
fn a_register_that_is_given_up_frees_its_slot_at_once() {
    let mut ev = Evaluator::new(Rank::new(2, 8), &fe(3), 2).unwrap();
    let one = ev.one();
    let held = ev.add(&vec![term(one, Coeff::Two)]);
    ev.enforce_zero(&vec![term(held, Coeff::One)]).unwrap();
    let mut env = vec![one, held];
    assert!(!Evaluator::shared(&env, 1, held));
    ev.release_register(1, &mut env);
    // the register reads as the constant, and the slot has resolved
    assert_eq!(env[1].index, WireIndex::C(0));
    assert_eq!(env[0].index, WireIndex::C(0));
    assert_eq!(ev.virtual_table.free, vec![0]);
    assert_eq!(ev.virtual_table.wires[0].refcount, 0);
    assert!(ev.virtual_table.sy.c[0].equals(&fe(6)));
    // the next virtual wire takes the slot
    let next = ev.add(&vec![term(one, Coeff::One)]);
    assert_eq!(next.index, WireIndex::Virtual(0));
    assert_eq!(ev.virtual_table.wires.len(), 1);
}

#[test]
fn a_wire_in_two_registers_goes_with_the_second_of_them() {
    let mut ev = Evaluator::new(Rank::new(2, 8), &fe(3), 1).unwrap();
    let one = ev.one();
    let held = ev.add(&vec![term(one, Coeff::One)]);
    let mut env = vec![one, held, held];
    assert!(Evaluator::shared(&env, 1, held));
    ev.release_register(1, &mut env);
    assert_eq!(env[1].index, WireIndex::C(0));
    assert_eq!(env[2].index, WireIndex::Virtual(0));
    assert_eq!(ev.virtual_table.wires[0].refcount, 1);
    assert_eq!(ev.virtual_table.wires[0].handles, 1);
    assert!(ev.virtual_table.free.is_empty());
    ev.release_register(2, &mut env);
    assert_eq!(env[2].index, WireIndex::C(0));
    assert_eq!(ev.virtual_table.free, vec![0]);
    // a gate wire has nothing to give up
    let (a, _, _) = ev.mul(Coeff::Zero, Coeff::Zero, Coeff::Zero).unwrap();
    let mut env = vec![one, a];
    ev.release_register(1, &mut env);
    assert_eq!(env[1].index, WireIndex::C(0));
    assert_eq!(ev.virtual_table.free, vec![0]);
    assert_eq!(ev.multiplication_constraints, 2);
}

#[test]
fn giving_registers_up_early_does_not_change_the_polynomial() {
    let mut released = two_gate_circuit();
    released.steps.push(Instruction::Release(7));
    released.steps.push(Instruction::Op(Op::Add(vec![
        Step::Term(1, Coeff::Two),
        Step::Term(0, Coeff::One),
    ])));
    released.steps.push(Instruction::Op(Op::EnforceZero(vec![Step::Term(8, Coeff::One)])));
    released.steps.push(Instruction::Release(8));
    let mut kept = two_gate_circuit();
    kept.steps.push(Instruction::Op(Op::Add(vec![
        Step::Term(1, Coeff::Two),
        Step::Term(0, Coeff::One),
    ])));
    kept.steps.push(Instruction::Op(Op::EnforceZero(vec![Step::Term(8, Coeff::One)])));
    assert!(released.check());
    assert_eq!(released.constraints(), Some(2));
    let early = eval(&released, fe(2), fe(7), 5, Rank::new(3, 5)).unwrap();
    let late = eval(&kept, fe(2), fe(7), 5, Rank::new(3, 5)).unwrap();
    for i in 0..3 {
        assert!(early.a[i].equals(&late.a[i]));
        assert!(early.b[i].equals(&late.b[i]));
        assert!(early.c[i].equals(&late.c[i]));
    }
    // the left leg of the first gate: twice y^2, from the second constraint
    assert!(early.a[1].equals(&fe(8)));
}

#[test]
fn a_register_that_was_given_up_reads_as_the_constant() {
    // the register that was given up is enforced: the constant wire takes the weight
    let circuit = Circuit {
        steps: vec![
            Instruction::Op(Op::Add(vec![Step::Term(0, Coeff::Two)])),
            Instruction::Release(1),
            Instruction::Op(Op::EnforceZero(vec![Step::Term(1, Coeff::One)])),
        ],
        outputs: vec![],
    };
    let same = Circuit {
        steps: vec![
            Instruction::Op(Op::Add(vec![Step::Term(0, Coeff::Two)])),
            Instruction::Op(Op::EnforceZero(vec![Step::Term(0, Coeff::One)])),
        ],
        outputs: vec![],
    };
    let left = eval(&circuit, fe(2), fe(7), 3, Rank::new(2, 3)).unwrap();
    let right = eval(&same, fe(2), fe(7), 3, Rank::new(2, 3)).unwrap();
    assert!(left.c[0].equals(&right.c[0]));
    assert!(left.a[0].equals(&right.a[0]));
}

#[test]
fn the_first_register_and_registers_to_come_cannot_be_given_up() {
    let first = Circuit { steps: vec![Instruction::Release(0)], outputs: vec![] };
    assert!(!first.check());
    let beyond = Circuit {
        steps: vec![Instruction::Op(Op::Alloc(Coeff::One)), Instruction::Release(2)],
        outputs: vec![],
    };
    assert!(!beyond.check());
    let fine = Circuit {
        steps: vec![Instruction::Op(Op::Alloc(Coeff::One)), Instruction::Release(1)],
        outputs: vec![1],
    };
    assert!(fine.check());
    assert_eq!(fine.constraints(), Some(0));
}

#[test]
fn a_routine_gives_up_what_it_made_and_does_not_hand_out() {
    let mut ev = Evaluator::new(Rank::new(2, 8), &fe(3), 1).unwrap();
    let one = ev.one();
    let input = ev.add(&vec![term(one, Coeff::One)]);
    let local = ev.add(&vec![term(one, Coeff::Two)]);
    let output = ev.add(&vec![term(local, Coeff::One)]);
    let unused = ev.add(&vec![term(one, Coeff::One)]);
    let (a, _, _) = ev.mul(Coeff::Zero, Coeff::Zero, Coeff::Zero).unwrap();
    // the registers of the routine: the constant, its input, and what it made
    let inner = vec![one, input, local, output, unused, a];
    assert!(Evaluator::named(&vec![3, 1], 3));
    assert!(!Evaluator::named(&vec![3, 1], 2));
    ev.retire(&inner, 2, &vec![3]);
    // the input is the caller's
    assert_eq!(ev.virtual_table.wires[0].handles, 1);
    assert_eq!(ev.virtual_table.wires[0].refcount, 1);
    // the local wire has lost its handle, and the output still names it
    assert_eq!(ev.virtual_table.wires[1].handles, 0);
    assert_eq!(ev.virtual_table.wires[1].refcount, 1);
    // the output is handed out
    assert_eq!(ev.virtual_table.wires[2].handles, 1);
    // the wire that nothing names has resolved
    assert_eq!(ev.virtual_table.wires[3].refcount, 0);
    assert_eq!(ev.virtual_table.free, vec![3]);
    assert_eq!(ev.multiplication_constraints, 2);
    // when the output goes, the local wire goes with it
    ev.drop_wire(output);
    assert_eq!(ev.virtual_table.free, vec![3, 1, 2]);
}

#[test]
fn a_routine_that_makes_wires_of_its_own_leaves_the_polynomial_as_it_is() {
    // the routine adds its input to the constant, enforces the sum, and hands out the input
    let body = Routine {
        num_inputs: 1,
        ops: vec![
            Op::Add(vec![Step::Term(1, Coeff::One), Step::Term(0, Coeff::One)]),
            Op::EnforceZero(vec![Step::Term(2, Coeff::One)]),
        ],
        outputs: vec![1],
    };
    let through = Circuit {
        steps: vec![
            Instruction::Op(Op::Mul(Coeff::Zero, Coeff::Zero, Coeff::Zero)),
            Instruction::Call(body, vec![1]),
        ],
        outputs: vec![],
    };
    let plain = Circuit {
        steps: vec![
            Instruction::Op(Op::Mul(Coeff::Zero, Coeff::Zero, Coeff::Zero)),
            Instruction::Op(Op::Add(vec![
                Step::Term(1, Coeff::One),
                Step::Term(0, Coeff::One),
            ])),
            Instruction::Op(Op::EnforceZero(vec![Step::Term(4, Coeff::One)])),
        ],
        outputs: vec![],
    };
    let left = eval(&through, fe(2), fe(7), 3, Rank::new(2, 3)).unwrap();
    let right = eval(&plain, fe(2), fe(7), 3, Rank::new(2, 3)).unwrap();
    for i in 0..2 {
        assert!(left.a[i].equals(&right.a[i]));
        assert!(left.b[i].equals(&right.b[i]));
        assert!(left.c[i].equals(&right.c[i]));
    }
    // the one constraint of the circuit weighs y: on the left leg, and on the constant
    assert!(left.a[1].equals(&fe(2)));
}
