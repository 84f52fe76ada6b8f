use ragu::coeff::Coeff;
use ragu::comparison::{is_equal, is_one};
use ragu::driver::{Driver, Step};
use ragu::emulator::{Emulator, Wired, Wireless};
use ragu::error::Error;
use ragu::field::Fe;
use ragu::poly::Rank;
use ragu::primitives::{Boolean, Element};
use ragu::simulator::Simulator;
use ragu::sy::Evaluator;

fn fe(value: u64) -> Fe {
    Fe::from_u64(value)
}

#[test]
fn test_is_equal_same() {
    let mut sim = Simulator::new();
    let a = Element::allocate(&mut sim, Some(fe(123))).unwrap();
    let b = Element::allocate(&mut sim, Some(fe(123))).unwrap();

    sim.reset();
    let eq = is_equal(&mut sim, &a, &b).unwrap();

    assert!(eq.value.unwrap(), "Expected a == b");
    assert!(sim.is_satisfied());

    assert_eq!(sim.num_multiplications(), 2);
    assert_eq!(sim.num_linear_constraints(), 4);
}

#[test]
fn test_is_not_equal() {
    let mut sim = Simulator::new();
    let a = Element::allocate(&mut sim, Some(fe(1))).unwrap();
    let b = Element::allocate(&mut sim, Some(fe(123))).unwrap();

    sim.reset();
    let eq = is_equal(&mut sim, &a, &b).unwrap();

    assert!(!eq.value.unwrap(), "Expected a != b");
    assert!(sim.is_satisfied());
}

#[test]
fn test_is_equal_one() {
    let mut sim = Simulator::new();
    let a = Element::allocate(&mut sim, Some(Fe::one())).unwrap();

    sim.reset();
    let eq = is_one(&mut sim, &a).unwrap();

    assert!(eq.value.unwrap(), "Expected a == ONE");
    assert!(sim.is_satisfied());
}

#[test]
fn test_is_equal_zero() {
    let mut sim = Simulator::new();
    let a = Element::allocate(&mut sim, Some(Fe::zero())).unwrap();
    let b = Element::allocate(&mut sim, Some(Fe::zero())).unwrap();

    sim.reset();
    let eq = is_equal(&mut sim, &a, &b).unwrap();

    assert!(eq.value.unwrap(), "Expected 0 == 0");
    assert!(sim.is_satisfied());
}

#[test]
fn the_answer_is_a_wire_that_holds_one_or_zero() {
    let mut sim = Simulator::new();
    let a = Element::allocate(&mut sim, Some(fe(7))).unwrap();
    let b = Element::allocate(&mut sim, Some(fe(8))).unwrap();
    let same = is_equal(&mut sim, &a, &a).unwrap();
    let other = is_equal(&mut sim, &a, &b).unwrap();
    assert!(same.wire.equals(&Fe::one()));
    assert!(other.wire.is_zero());
    assert!(!is_one(&mut sim, &a).unwrap().value.unwrap());
    let nothing = a.sub(&mut sim, &a);
    assert!(Boolean::is_zero(&mut sim, &nothing).unwrap().value.unwrap());
    assert!(sim.is_satisfied());
    assert_eq!(sim.num_multiplications(), 2 + 4 * 2);
    assert_eq!(sim.num_linear_constraints(), 4 * 4);
}

#[test]
fn the_simulator_notices_what_does_not_hold() {
    let mut sim = Simulator::new();
    let (_, _, c) = sim.mul(Coeff::Two, Coeff::Two, Coeff::Arbitrary(fe(4))).unwrap();
    assert!(sim.is_satisfied());
    sim.enforce_zero(&vec![
        Step::Term(c, Coeff::One),
        Step::Term(Fe::one(), Coeff::Arbitrary(fe(4)).mul(&Coeff::NegativeOne)),
    ])
    .unwrap();
    assert!(sim.is_satisfied());
    sim.enforce_zero(&vec![Step::Term(c, Coeff::One)]).unwrap();
    assert!(!sim.is_satisfied());
    let mut sim = Simulator::new();
    sim.mul(Coeff::Two, Coeff::Two, Coeff::Arbitrary(fe(5))).unwrap();
    assert!(!sim.is_satisfied());
    sim.reset();
    assert_eq!(sim.num_multiplications(), 0);
    assert!(!sim.is_satisfied());
}

#[test]
fn comparisons_on_drivers_without_values() {
    let mut dr = Emulator::<Wireless>::counter();
    let a = Element::allocate(&mut dr, None).unwrap();
    let b = Element::allocate(&mut dr, None).unwrap();
    assert!(is_equal(&mut dr, &a, &b).unwrap().value.is_none());

    let mut dr = Emulator::<Wired>::extractor();
    let a = Element::allocate(&mut dr, Some(fe(5))).unwrap();
    let b = Element::allocate(&mut dr, Some(fe(5))).unwrap();
    let eq = is_equal(&mut dr, &a, &b).unwrap();
    assert!(eq.value.unwrap());
    assert!(eq.wire.value().equals(&Fe::one()));

    let mut ev = Evaluator::new(Rank::new(3, 8), &fe(2), 1).unwrap();
    let a = Element::allocate(&mut ev, None).unwrap();
    let b = Element::allocate(&mut ev, None).unwrap();
    assert!(matches!(
        is_equal(&mut ev, &a, &b),
        Err(Error::MultiplicationBoundExceeded(3))
    ));
    let mut ev = Evaluator::new(Rank::new(4, 3), &fe(2), 1).unwrap();
    let a = Element::allocate(&mut ev, None).unwrap();
    assert!(matches!(
        is_one(&mut ev, &a),
        Err(Error::LinearBoundExceeded(3))
    ));
    assert_eq!(ev.multiplication_constraints, 4);
}
