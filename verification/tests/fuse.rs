use ragu::field::Fe;
use ragu::fuse::{compute_p, evaluate, Committed, Fusion, Proof};
use ragu::internal_circuits::{
    preamble_stage, preamble_values, register_all, InternalCircuitIndex, ProofHeaders, Registered,
    Witness,
};
use ragu::mesh::MeshBuilder;
use ragu::nested;
use ragu::poly::Rank;
use ragu::staging::StageBuilder;
use ragu::sy::{Evaluator, WireIndex};

fn fe(value: u64) -> Fe {
    Fe::from_u64(value)
}

fn term(seed: u64) -> Committed<u64> {
    Committed {
        poly: vec![fe(seed), fe(seed + 1)],
        blind: fe(100 + seed),
        commitment: seed,
    }
}

fn proof_of(seed: u64) -> Proof<u64> {
    Proof {
        application: term(seed),
        preamble: term(seed + 1),
        error_n: term(seed + 2),
        error_m: term(seed + 3),
        a: term(seed + 4),
        b: term(seed + 5),
        query: term(seed + 6),
        mesh_xy: term(seed + 7),
        eval: term(seed + 8),
        p: term(seed + 9),
        hashes_1: term(seed + 10),
        hashes_2: term(seed + 11),
        partial_collapse: term(seed + 12),
        full_collapse: term(seed + 13),
        compute_v: term(seed + 14),
    }
}

fn fusion() -> Fusion<u64> {
    Fusion {
        mesh_wx0: term(30),
        mesh_wx1: term(31),
        mesh_wy: term(32),
        a: term(33),
        b: term(34),
        mesh_xy: term(35),
        f: term(1000),
    }
}

#[test]
fn the_terms_are_folded_with_powers_of_beta() {
    let beta = fe(3);
    let u = fe(7);
    let result = compute_p(&beta, &u, &proof_of(0), &proof_of(15), &fusion());

    // the bases are the commitments in the order of the fold, and f last
    let mut expected: Vec<u64> = (0..36).collect();
    expected.push(1000);
    assert_eq!(result.bases, expected);

    // the term with the number k has the weight beta^(35 - k), and f beta^36
    assert_eq!(result.scalars.len(), 37);
    assert!(result.scalars[35].equals(&fe(1)));
    assert!(result.scalars[34].equals(&fe(3)));
    assert!(result.scalars[33].equals(&fe(9)));
    assert!(result.scalars[0].equals(&beta.pow(35)));
    assert!(result.scalars[36].equals(&beta.pow(36)));

    // the polynomial, the blinding factor and the scalars go together
    let mut constant = Fe::zero();
    let mut linear = Fe::zero();
    let mut blind = Fe::zero();
    for k in 0..37 {
        let seed = result.bases[k];
        constant = constant.add(&result.scalars[k].mul(&fe(seed)));
        linear = linear.add(&result.scalars[k].mul(&fe(seed + 1)));
        blind = blind.add(&result.scalars[k].mul(&fe(100 + seed)));
    }
    assert!(result.poly[0].equals(&constant));
    assert!(result.poly[1].equals(&linear));
    assert!(result.blind.equals(&blind));
    assert!(result.v.equals(&constant.add(&linear.mul(&u))));
}

#[test]
fn a_polynomial_is_evaluated_at_a_point() {
    // 5 + 2x + 3x^2 at 10
    assert!(evaluate(&vec![fe(5), fe(2), fe(3)], &fe(10)).equals(&fe(325)));
    assert!(evaluate(&vec![], &fe(10)).is_zero());
    assert!(evaluate(&vec![fe(9)], &fe(0)).equals(&fe(9)));
}

#[test]
fn internal_circuits_are_registered_at_their_indices() {
    let mut mesh = MeshBuilder::new();
    for step in 0..6 {
        mesh = mesh.register_circuit(Registered::Step(step)).unwrap();
    }
    // five steps of the application and one internal step
    let mesh = register_all(mesh).unwrap();
    assert_eq!(mesh.circuits.len(), 10);
    for which in [
        InternalCircuitIndex::DummyCircuit,
        InternalCircuitIndex::ClaimStage,
        InternalCircuitIndex::ClaimCircuit,
        InternalCircuitIndex::PreambleStage,
    ] {
        assert_eq!(
            mesh.circuits[which.circuit_index(5).index],
            Registered::Internal(which)
        );
    }
    assert_eq!(mesh.circuits[2], Registered::Step(2));

    let mesh = nested::register_all(MeshBuilder::new(), 4).unwrap();
    assert_eq!(mesh.circuits.len(), 7);
    for which in [
        nested::InternalCircuitIndex::EndoscalarStage,
        nested::InternalCircuitIndex::PointsStage,
        nested::InternalCircuitIndex::PointsFinalStaged,
        nested::InternalCircuitIndex::EndoscalingStep(0),
        nested::InternalCircuitIndex::EndoscalingStep(3),
    ] {
        assert_eq!(mesh.circuits[which.circuit_index().index], which);
    }
}

#[test]
fn the_preamble_stage_takes_a_wire_for_each_element() {
    let headers = |seed: u64| ProofHeaders::<2> {
        right_header: [fe(seed), fe(seed + 1)],
        left_header: [fe(seed + 2), fe(seed + 3)],
        output_header: [fe(seed + 4), fe(seed + 5)],
    };
    let witness = Witness { left: headers(10), right: headers(20) };
    assert_eq!(preamble_values(2), 12);
    assert!(witness.header(4)[1].equals(&fe(23)));
    let stage = preamble_stage(7, &witness);
    assert_eq!(stage.id, 7);
    assert_eq!(stage.parent, None);
    assert_eq!(stage.values, 12);
    assert_eq!(stage.circuit.outputs, (1..=12).collect::<Vec<usize>>());

    let mut dr = ragu::emulator::Emulator::<ragu::emulator::Wired>::extractor();
    let values = dr.just(&stage.circuit).unwrap();
    let expected = [10, 11, 12, 13, 14, 15, 20, 21, 22, 23, 24, 25];
    for k in 0..12 {
        assert!(values[k].value().equals(&fe(expected[k])));
    }

    let ev = Evaluator::new(Rank::new(8, 8), &fe(2), 1).unwrap();
    let (guard, builder) = StageBuilder::new(ev, 7)
        .add_stage(preamble_stage(7, &witness))
        .ok()
        .unwrap();
    let mut ev = builder.finish().ok().unwrap();
    assert_eq!(guard.stage_wires.len(), 12);
    assert_eq!(guard.stage_wires[11].index, WireIndex::B(6));
    assert_eq!(guard.unenforced(&mut ev).unwrap().len(), 12);
}
