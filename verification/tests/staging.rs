use ragu::coeff::Coeff;
use ragu::driver::{Circuit, Driver, Instruction, Op, Step};
use ragu::emulator::{Emulator, MaybeWired, Wired};
use ragu::encoder::{Encoded, EncodedInner, Encoder};
use ragu::error::{reason_message, Error, Reason};
use ragu::field::Fe;
use ragu::internal_circuits::{InternalCircuitIndex, ProofHeaders, NUM_REVDOT_CLAIMS};
use ragu::nested::InternalCircuitIndex as Nested;
use ragu::poly::Rank;
use ragu::staging::{EnforcingInjector, Stage, StageBuilder, StageGuard, StageWireInjector};
use ragu::sy::{Evaluator, Wire, WireIndex};

fn fe(value: u64) -> Fe {
    Fe::from_u64(value)
}

fn elements(count: usize) -> Circuit {
    let mut steps = vec![];
    let mut outputs = vec![];
    for k in 0..count {
        steps.push(Instruction::Op(Op::Alloc(Coeff::Arbitrary(fe(10 + k as u64)))));
        outputs.push(1 + k);
    }
    Circuit { steps, outputs }
}

fn checked_pair() -> Circuit {
    // two wires and a constraint between them, with a wire in between that is no output
    Circuit {
        steps: vec![
            Instruction::Op(Op::Alloc(Coeff::Arbitrary(fe(5)))),
            Instruction::Op(Op::Alloc(Coeff::Arbitrary(fe(6)))),
            Instruction::Op(Op::Alloc(Coeff::Arbitrary(fe(5)))),
            Instruction::Op(Op::EnforceZero(vec![
                Step::Term(1, Coeff::One),
                Step::Term(3, Coeff::NegativeOne),
            ])),
        ],
        outputs: vec![1, 3],
    }
}

fn stage(id: usize, parent: Option<usize>, values: usize, circuit: Circuit) -> Stage {
    Stage { id, parent, values, circuit }
}

fn evaluator(n: usize, num_coeffs: usize) -> Evaluator {
    Evaluator::new(Rank::new(n, num_coeffs), &fe(2), 1).unwrap()
}

#[test]
fn reservation_allocates_what_the_stages_need() {
    let builder = StageBuilder::new(evaluator(8, 8), 2);
    let (first, builder) = builder.add_stage(stage(1, None, 3, elements(3))).ok().unwrap();
    assert_eq!(first.stage_wires.len(), 3);
    assert_eq!(
        first.stage_wires.iter().map(|w| w.index).collect::<Vec<_>>(),
        vec![WireIndex::A(1), WireIndex::B(1), WireIndex::A(2)]
    );
    assert_eq!(builder.current(), Some(1));
    assert_eq!(builder.target(), 2);
    let (second, builder) = builder
        .configure_stage(stage(2, Some(1), 4, checked_pair()))
        .ok()
        .unwrap();
    assert_eq!(
        second.stage_wires.iter().map(|w| w.index).collect::<Vec<_>>(),
        vec![WireIndex::B(2), WireIndex::A(3)]
    );
    let mut dr = builder.finish().ok().unwrap();
    // five wires in all: two gates and a half beyond the first
    assert_eq!(dr.multiplication_constraints, 4);
    assert_eq!(dr.linear_constraints, 0);
    assert!(dr.virtual_table.wires.is_empty());

    // the first stage adds nothing, the second its own wires and constraint, and two equalities
    let gadget = first.unenforced(&mut dr).unwrap();
    assert_eq!(gadget.len(), 3);
    assert_eq!(gadget[2].index, WireIndex::A(2));
    assert_eq!(dr.multiplication_constraints, 4);
    assert_eq!(dr.linear_constraints, 0);

    let gadget = second.enforced(&mut dr).unwrap();
    assert_eq!(
        gadget.iter().map(|w| w.index).collect::<Vec<_>>(),
        vec![WireIndex::B(2), WireIndex::A(3)]
    );
    assert_eq!(dr.linear_constraints, 3);
    // three wires of its own: the leg that was left, and one gate more
    assert_eq!(dr.multiplication_constraints, 5);
}

#[test]
fn stages_out_of_order_are_refused() {
    let builder = StageBuilder::new(evaluator(8, 8), 2);
    let (error, dr) = builder
        .add_stage(stage(2, Some(1), 3, elements(3)))
        .err()
        .unwrap();
    assert_eq!(error, Error::Initialization(Reason::StageOutOfOrder));
    assert_eq!(dr.multiplication_constraints, 1);

    let (error, dr) = StageBuilder::new(dr, 2).finish().err().unwrap();
    assert_eq!(error, Error::Initialization(Reason::StagesUnfinished));
    let builder = StageBuilder::new(dr, 2)
        .skip_stage(stage(1, None, 3, elements(3)))
        .ok()
        .unwrap();
    assert_eq!(builder.current(), Some(1));
    let (error, dr) = builder
        .skip_stage(stage(3, None, 3, elements(3)))
        .err()
        .unwrap();
    assert_eq!(error, Error::Initialization(Reason::StageOutOfOrder));
    // the stage that was skipped has its wires all the same
    assert_eq!(dr.multiplication_constraints, 3);
    let builder = StageBuilder::new(dr, 1)
        .skip_stage(stage(1, None, 0, elements(0)))
        .ok()
        .unwrap();
    assert_eq!(builder.finish().ok().unwrap().multiplication_constraints, 3);
}

#[test]
fn a_stage_that_needs_more_than_it_declares_is_refused() {
    let result = StageBuilder::new(evaluator(8, 8), 1).add_stage(stage(1, None, 5, elements(6)));
    let (error, dr) = result.err().unwrap();
    assert_eq!(error, Error::MultiplicationBoundExceeded(3));
    assert_eq!(dr.multiplication_constraints, 1);
    assert_eq!(stage(1, None, 5, elements(0)).num_multiplications(), 3);
    assert_eq!(stage(1, None, 6, elements(0)).num_multiplications(), 3);
    assert_eq!(stage(1, None, 0, elements(0)).num_multiplications(), 0);
    assert_eq!(stage(1, None, 7, elements(0)).values(), 7);
}

#[test]
fn reservation_fails_where_the_driver_has_no_gate_left() {
    let result = StageBuilder::new(evaluator(2, 8), 1).add_stage(stage(1, None, 3, elements(3)));
    let (error, dr) = result.err().unwrap();
    assert_eq!(error, Error::MultiplicationBoundExceeded(2));
    // the two wires that were granted stay allocated
    assert_eq!(dr.multiplication_constraints, 2);
}

#[test]
fn a_guard_with_the_wrong_number_of_wires_is_an_invalid_witness() {
    let mut dr = evaluator(8, 8);
    let wire = Wire { index: WireIndex::C(0) };
    let few: StageGuard<Evaluator> = StageGuard {
        stage: stage(1, None, 3, elements(3)),
        stage_wires: vec![wire, wire],
    };
    assert_eq!(
        few.enforced(&mut dr),
        Err(Error::InvalidWitness(Reason::NotEnoughStageWires))
    );
    // two equalities were enforced before the third wire found no counterpart
    assert_eq!(dr.linear_constraints, 2);
    let many: StageGuard<Evaluator> = StageGuard {
        stage: stage(1, None, 3, elements(1)),
        stage_wires: vec![wire, wire],
    };
    assert_eq!(
        many.enforced(&mut dr),
        Err(Error::InvalidWitness(Reason::TooManyStageWires))
    );
    let few: StageGuard<Evaluator> = StageGuard {
        stage: stage(1, None, 3, elements(3)),
        stage_wires: vec![wire, wire],
    };
    assert_eq!(
        few.unenforced(&mut dr),
        Err(Error::InvalidWitness(Reason::NotEnoughStageWires))
    );
    let many: StageGuard<Evaluator> = StageGuard {
        stage: stage(1, None, 3, elements(1)),
        stage_wires: vec![wire, wire],
    };
    assert_eq!(
        many.unenforced(&mut dr),
        Err(Error::InvalidWitness(Reason::TooManyStageWires))
    );
}

#[test]
fn enforcing_fails_where_the_driver_has_no_constraint_left() {
    let (guard, builder) = StageBuilder::new(evaluator(8, 2), 1)
        .add_stage(stage(1, None, 2, checked_pair()))
        .ok()
        .unwrap();
    let mut dr = builder.finish().ok().unwrap();
    assert_eq!(guard.enforced(&mut dr), Err(Error::LinearBoundExceeded(2)));
}

#[test]
fn injectors_hand_out_the_reserved_wires_in_order() {
    let mut dr = evaluator(8, 8);
    let reserved = vec![Wire { index: WireIndex::A(0) }, Wire { index: WireIndex::C(0) }];
    let live = Wire { index: WireIndex::B(0) };
    let mut injector = EnforcingInjector { next: 0 };
    assert_eq!(
        injector.convert_wire(&mut dr, &reserved, &live).unwrap().index,
        WireIndex::A(0)
    );
    assert_eq!(
        injector.convert_wire(&mut dr, &reserved, &live).unwrap().index,
        WireIndex::C(0)
    );
    assert_eq!(
        injector.convert_wire(&mut dr, &reserved, &live),
        Err(Error::InvalidWitness(Reason::NotEnoughStageWires))
    );
    assert_eq!(dr.linear_constraints, 2);
    let mut injector = StageWireInjector { next: 1 };
    assert_eq!(
        injector
            .convert_wire::<Evaluator>(&reserved, &ragu::emulator::NoWire)
            .unwrap()
            .index,
        WireIndex::C(0)
    );
    assert_eq!(
        injector.convert_wire::<Evaluator>(&reserved, &ragu::emulator::NoWire),
        Err(Error::InvalidWitness(Reason::NotEnoughStageWires))
    );
}

#[test]
fn stages_on_an_emulator_carry_the_placeholder_values() {
    let (guard, builder) = StageBuilder::new(Emulator::<Wired>::extractor(), 1)
        .add_stage(stage(1, None, 2, checked_pair()))
        .ok()
        .unwrap();
    // the wires that were reserved hold zero
    assert!(guard.stage_wires[0].value().is_zero());
    assert!(guard.stage_wires[1].value().is_zero());
    let mut dr = builder.finish().ok().unwrap();
    let gadget = guard.enforced(&mut dr).unwrap();
    assert_eq!(gadget.len(), 2);
    assert!(gadget[0].value().is_zero());
    assert!(gadget[1].value().is_zero());
}

#[test]
fn headers_are_encoded_as_gadgets_or_as_values() {
    let mut dr = evaluator(16, 8);
    let encoded = Encoder::new(checked_pair()).encode(&mut dr).unwrap();
    assert_eq!(dr.multiplication_constraints, 3);
    assert_eq!(dr.linear_constraints, 1);
    assert_eq!(
        encoded.as_gadget().iter().map(|w| w.index).collect::<Vec<_>>(),
        vec![WireIndex::A(1), WireIndex::A(2)]
    );
    let copy = encoded.clone();
    assert_eq!(copy.as_gadget().len(), 2);

    let mut buf = vec![];
    encoded.write(&mut dr, &mut buf, 4).unwrap();
    assert_eq!(
        buf.iter().map(|w| w.index).collect::<Vec<_>>(),
        vec![
            WireIndex::A(1),
            WireIndex::A(2),
            WireIndex::Virtual(0),
            WireIndex::Virtual(1)
        ]
    );
    assert_eq!(copy.write(&mut dr, &mut buf, 1), Err(Error::InvalidWitness(Reason::HeaderTooLong)));
    assert_eq!(buf.len(), 4);

    // the encoding alone takes as many wires as a header has, whatever the header
    let before = dr.multiplication_constraints;
    let raw = Encoder::new(checked_pair()).raw_encode(&mut dr, 6).unwrap();
    assert_eq!(dr.multiplication_constraints, before + 3);
    assert_eq!(dr.linear_constraints, 1);
    assert!(matches!(&raw.inner, EncodedInner::Raw(wires) if wires.len() == 6));
    raw.write(&mut dr, &mut buf, 6).unwrap();
    assert_eq!(buf.len(), 10);
    assert!(matches!(
        Encoder::new(elements(3)).raw_encode(&mut dr, 2),
        Err(Error::InvalidWitness(Reason::HeaderTooLong))
    ));
    let from: Encoded<Evaluator> = Encoded::from_gadget(vec![Wire { index: WireIndex::C(0) }]);
    assert_eq!(from.as_gadget()[0].index, WireIndex::C(0));
}

#[test]
fn raw_encoding_carries_the_values_of_the_header() {
    let mut dr = Emulator::<Wired>::extractor();
    let raw = Encoder::new(checked_pair()).raw_encode(&mut dr, 4).unwrap();
    match raw.inner {
        EncodedInner::Raw(wires) => {
            assert!(wires[0].value().equals(&fe(5)));
            assert!(wires[1].value().equals(&fe(5)));
            assert!(wires[2].value().is_zero());
            assert!(wires[3].value().is_zero());
        }
        EncodedInner::Gadget(_) => panic!("an encoding was asked for"),
    }
    let mut buf: Vec<MaybeWired> = vec![];
    let encoded = Encoder::new(elements(1)).encode(&mut dr).unwrap();
    encoded.write(&mut dr, &mut buf, 3).unwrap();
    assert!(buf[0].value().equals(&fe(10)));
    assert!(buf[1].value().is_zero());
    assert!(buf[2].value().is_zero());
}

#[test]
fn internal_circuits_follow_the_steps() {
    assert_eq!(NUM_REVDOT_CLAIMS, 3);
    assert_eq!(InternalCircuitIndex::DummyCircuit.circuit_index(10).index, 11);
    assert_eq!(InternalCircuitIndex::ClaimStage.circuit_index(10).index, 12);
    assert_eq!(InternalCircuitIndex::ClaimCircuit.circuit_index(10).index, 13);
    assert_eq!(InternalCircuitIndex::PreambleStage.circuit_index(0).index, 4);
    assert_eq!(Nested::EndoscalarStage.circuit_index().index, 0);
    assert_eq!(Nested::PointsStage.circuit_index().index, 1);
    assert_eq!(Nested::PointsFinalStaged.circuit_index().index, 2);
    assert_eq!(Nested::EndoscalingStep(0).circuit_index().index, 3);
    assert_eq!(Nested::EndoscalingStep(5).circuit_index().index, 8);
    let headers = ProofHeaders::<2> {
        right_header: [fe(1), fe(2)],
        left_header: [fe(3), fe(4)],
        output_header: [fe(5), fe(6)],
    };
    assert!(headers.left_header[1].equals(&fe(4)));
}

#[test]
fn each_reason_has_its_words() {
    assert_eq!(reason_message(Reason::NotEnoughStageWires), "not enough stage wires");
    assert_eq!(reason_message(Reason::TooManyStageWires), "too many stage wires");
    assert_eq!(
        reason_message(Reason::StepIndexOutOfRange),
        "attempted to use application Step index that exceeds Application registered steps"
    );
    assert_eq!(
        reason_message(Reason::StepOutOfSequence),
        "steps must be registered in sequential order"
    );
    assert_eq!(
        reason_message(Reason::HeaderTooLong),
        "header does not fit the header size"
    );
    assert_eq!(
        reason_message(Reason::StageOutOfOrder),
        "stages must be added in their declared order"
    );
    assert_eq!(
        reason_message(Reason::StagesUnfinished),
        "stages must all be added before the driver is taken back"
    );
}
