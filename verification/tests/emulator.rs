use ragu::coeff::Coeff;
use ragu::common::{WireEval, WireEvalSum};
use ragu::driver::{
    enforce_equal, enforce_one, enforce_public_outputs, routine, Circuit, Driver, Instruction, Op,
    Routine, Step,
};
use ragu::simulator::Simulator;
use ragu::emulator::{DirectSum, Emulator, MaybeDirectSum, MaybeWired, NoWire, Wired, Wireless};
use ragu::field::Fe;

fn fe(value: u64) -> Fe {
    Fe::from_u64(value)
}

fn known(wire: &MaybeWired, expected: u64) -> bool {
    wire.value().equals(&fe(expected))
}

fn circuit() -> Circuit {
    // registers: 0 one; 1 x = 3; 2, 3, 4 gate 3 * 4 = 12; 5 = 2x + 5 * (c - 1)
    Circuit {
        steps: vec![
            Instruction::Op(Op::Alloc(Coeff::Arbitrary(fe(3)))),
            Instruction::Op(Op::Mul(
                Coeff::Arbitrary(fe(3)),
                Coeff::Arbitrary(fe(4)),
                Coeff::Arbitrary(fe(12)),
            )),
            Instruction::Op(Op::Add(vec![
                Step::Term(1, Coeff::Two),
                Step::Gain(Coeff::Arbitrary(fe(5))),
                Step::Term(4, Coeff::One),
                Step::Term(0, Coeff::NegativeOne),
            ])),
            Instruction::Op(Op::EnforceZero(vec![Step::Term(5, Coeff::One)])),
        ],
        outputs: vec![5, 4, 0, 1],
    }
}

#[test]
fn wired_emulator_computes_the_values_of_the_wires() {
    let mut dr = Emulator::<Wired>::extractor();
    let output = dr.just(&circuit()).unwrap();
    assert_eq!(output.len(), 4);
    // 2 * 3 + 5 * (12 - 1)
    assert!(known(&output[0], 61));
    assert!(known(&output[1], 12));
    assert!(matches!(output[2], MaybeWired::One));
    assert!(known(&output[2], 1));
    assert!(known(&output[3], 3));

    let values = dr.always_wires(&output).unwrap();
    assert_eq!(values.len(), 4);
    assert!(values[0].equals(&fe(61)));
    assert!(values[2].equals(&fe(1)));
    let wires = dr.wires(&output).unwrap();
    assert_eq!(wires.len(), 4);
    assert!(known(&wires[1], 12));
}

#[test]
fn wired_emulator_enforces_nothing() {
    let mut dr = Emulator::<Wired>::extractor();
    // a gate whose output is not the product, and a constraint that does not hold
    let (a, b, c) = dr
        .mul(Coeff::Two, Coeff::Two, Coeff::Arbitrary(fe(5)))
        .unwrap();
    assert!(known(&a, 2) && known(&b, 2) && known(&c, 5));
    assert!(dr.enforce_zero(&vec![Step::Term(c, Coeff::One)]).is_ok());
}

#[test]
fn wired_emulator_without_a_witness_knows_no_value() {
    let mut dr = Emulator::<Wired>::wired(false);
    let output = dr.just(&circuit()).unwrap();
    assert!(matches!(output[0], MaybeWired::Arbitrary(None)));
    assert!(matches!(output[1], MaybeWired::Arbitrary(None)));
    assert!(matches!(output[2], MaybeWired::One));
    assert_eq!(dr.wires(&output).unwrap().len(), 4);
}

#[test]
fn wireless_emulator_keeps_the_shape_alone() {
    let mut dr = Emulator::<Wireless>::execute();
    let output = dr.just(&circuit()).unwrap();
    assert_eq!(output, vec![NoWire, NoWire, NoWire, NoWire]);
    let mut counter = Emulator::<Wireless>::counter();
    assert_eq!(counter.just(&circuit()).unwrap().len(), 4);
    assert_eq!(counter.allocate(Coeff::One), Ok(NoWire));
    assert_eq!(counter.add(&vec![]), NoWire);
    assert!(matches!(
        counter.convert_wire::<Emulator<Wired>>(&MaybeWired::One),
        Ok(NoWire)
    ));
}

fn doubling() -> Routine {
    // registers: 0 one; 1 input; 2 = 2 * input + 1
    Routine {
        num_inputs: 1,
        ops: vec![
            Op::Add(vec![Step::Term(1, Coeff::Two), Step::Term(0, Coeff::One)]),
            Op::EnforceZero(vec![Step::Term(2, Coeff::One)]),
        ],
        outputs: vec![2, 1],
    }
}

fn squaring() -> Routine {
    // registers: 0 one; 1 input; 2, 3, 4 gate; 5 = output + input
    Routine {
        num_inputs: 1,
        ops: vec![
            Op::Mul(
                Coeff::Arbitrary(fe(6)),
                Coeff::Arbitrary(fe(6)),
                Coeff::Arbitrary(fe(36)),
            ),
            Op::Add(vec![Step::Term(4, Coeff::One), Step::Term(1, Coeff::One)]),
        ],
        outputs: vec![5],
    }
}

#[test]
fn a_routine_is_predictable_when_it_makes_no_wire() {
    assert!(doubling().predict());
    assert!(!squaring().predict());
    assert!(Routine { num_inputs: 0, ops: vec![], outputs: vec![0] }.predict());
}

#[test]
fn predicted_output_has_the_values_of_the_executed_routine() {
    let input = vec![MaybeWired::Arbitrary(Some(fe(6)))];
    let mut dr = Emulator::<Wired>::extractor();
    let predicted = doubling().predicted(&mut dr, &input);
    let executed = doubling().execute(&mut dr, &input).unwrap();
    let through_driver = routine(&mut dr, &doubling(), &input).unwrap();
    assert_eq!(predicted.len(), 2);
    for k in 0..2 {
        assert!(predicted[k].value().equals(&executed[k].value()));
        assert!(through_driver[k].value().equals(&executed[k].value()));
    }
    assert!(known(&predicted[0], 13));
    assert!(known(&predicted[1], 6));
}

#[test]
fn a_routine_that_allocates_is_carried_out() {
    let input = vec![MaybeWired::Arbitrary(Some(fe(6)))];
    let mut dr = Emulator::<Wired>::extractor();
    let output = routine(&mut dr, &squaring(), &input).unwrap();
    assert_eq!(output.len(), 1);
    assert!(known(&output[0], 42));
}

#[test]
fn a_witness_is_handed_to_a_routine() {
    let output = Emulator::<Wired>::emulate_wired(&vec![fe(10)], &doubling()).unwrap();
    assert!(known(&output[0], 21));
    assert!(known(&output[1], 10));
    let output = Emulator::<Wireless>::emulate_wireless(&vec![fe(10)], &doubling()).unwrap();
    assert_eq!(output, vec![NoWire, NoWire]);
    let mut dr = Emulator::<Wired>::wired(false);
    let output = dr.with(&vec![fe(10)], &squaring()).unwrap();
    assert!(matches!(output[0], MaybeWired::Arbitrary(None)));
}

#[test]
fn a_circuit_calls_a_routine() {
    let circuit = Circuit {
        steps: vec![
            Instruction::Op(Op::Alloc(Coeff::Arbitrary(fe(4)))),
            Instruction::Call(doubling(), vec![1]),
            Instruction::Call(squaring(), vec![2]),
        ],
        outputs: vec![2, 3, 4],
    };
    let mut dr = Emulator::<Wired>::extractor();
    let output = dr.just(&circuit).unwrap();
    // doubling gives 9 and 4, squaring of 9 gives 36 + 9
    assert!(known(&output[0], 9));
    assert!(known(&output[1], 4));
    assert!(known(&output[2], 45));
}

#[test]
fn maybe_wired_values() {
    assert!(MaybeWired::One.value().equals(&Fe::one()));
    assert!(MaybeWired::Arbitrary(Some(fe(9))).value().equals(&fe(9)));
    let one = fe(1);
    let wire = MaybeWired::Arbitrary(Some(fe(9)));
    assert!(wire.snag(&one).equals(&fe(9)));
    assert!(MaybeWired::One.snag(&one).equals(&fe(1)));
    let copy = wire.clone();
    assert!(copy.value().equals(&fe(9)));
}

#[test]
fn direct_sums_follow_terms_and_gains() {
    let sum = DirectSum::new()
        .add_term(&fe(3), Coeff::Two)
        .gain(Coeff::Arbitrary(fe(10)))
        .add_term(&fe(4), Coeff::One)
        .gain(Coeff::Two)
        .add_term(&fe(1), Coeff::Two);
    // 3 * 2 + 10 * 4 + 20 * 2
    assert!(sum.value.equals(&fe(86)));
    assert!(sum.gain.value().equals(&fe(20)));

    let wire = MaybeWired::Arbitrary(Some(fe(7)));
    let sum = MaybeDirectSum::new(true)
        .add(&wire)
        .add(&MaybeWired::One)
        .sub(&MaybeWired::Arbitrary(Some(fe(2))))
        .gain(Coeff::Two)
        .add_term(&wire, Coeff::Two)
        .extend(&vec![(MaybeWired::One, Coeff::One), (wire, Coeff::Zero)]);
    // 7 + 1 - 2 + 2 * 2 * 7 + 2 * 1
    assert!(sum.sum.unwrap().value.equals(&fe(36)));
    let none = MaybeDirectSum::new(false)
        .add(&MaybeWired::Arbitrary(None))
        .gain(Coeff::Two)
        .extend(&vec![(MaybeWired::Arbitrary(None), Coeff::One)]);
    assert!(none.sum.is_none());
}

#[test]
fn evaluated_wires_are_summed_with_the_value_of_the_constant_wire() {
    let sum = WireEvalSum::new(fe(100))
        .add_term(&WireEval::Value(fe(3)), Coeff::Two)
        .add_term(&WireEval::One, Coeff::One)
        .gain(Coeff::Arbitrary(fe(3)))
        .add_term(&WireEval::One, Coeff::NegativeOne)
        .add_term(&WireEval::Value(fe(1)), Coeff::Two);
    // 6 + 100 - 300 + 6
    assert!(sum.value.add(&fe(188)).is_zero());
    assert!(sum.one.equals(&fe(100)));
}

#[test]
fn outputs_are_bound_one_constraint_each() {
    let mut sim = Simulator::new();
    let zero = sim.add(&vec![]);
    enforce_public_outputs(&mut sim, &vec![zero, zero, zero]).unwrap();
    assert_eq!(sim.num_linear_constraints(), 3);
    assert!(sim.is_satisfied());
    enforce_equal(&mut sim, zero, zero).unwrap();
    assert!(sim.is_satisfied());
    // the constant wire is not zero
    enforce_one(&mut sim).unwrap();
    assert_eq!(sim.num_linear_constraints(), 5);
    assert!(!sim.is_satisfied());
    let mut sim = Simulator::new();
    enforce_equal(&mut sim, fe(3), fe(4)).unwrap();
    assert!(!sim.is_satisfied());
}

#[test]
fn a_constant_is_the_constant_wire_times_the_coefficient() {
    let mut sim = Simulator::new();
    let seven = ragu::driver::constant(&mut sim, Coeff::Arbitrary(fe(7)));
    assert!(seven.equals(&fe(7)));
    assert_eq!(sim.num_multiplications(), 0);
    let mut dr = Emulator::<Wired>::extractor();
    let minus = ragu::driver::constant(&mut dr, Coeff::NegativeOne);
    assert!(minus.value().add(&fe(1)).is_zero());
}

#[test]
fn a_released_register_holds_the_constant_on_every_driver() {
    let circuit = Circuit {
        steps: vec![
            Instruction::Op(Op::Alloc(Coeff::Arbitrary(fe(5)))),
            Instruction::Release(1),
            Instruction::Op(Op::Add(vec![
                Step::Term(1, Coeff::Two),
                Step::Term(0, Coeff::One),
            ])),
        ],
        outputs: vec![1, 2],
    };
    let mut dr = Emulator::<Wired>::extractor();
    let output = circuit.witness(&mut dr).unwrap();
    assert!(output[0].value().equals(&fe(1)));
    assert!(output[1].value().equals(&fe(3)));
}
