use ragu::coeff::Coeff;
use ragu::field::Fe;
use ragu::sy::{TermCollector, TermEnforcer, VirtualTable, Wire, WireIndex};

fn fe(value: u64) -> Fe {
    Fe::from_u64(value)
}

fn table_with_a_gate() -> VirtualTable {
    let mut table = VirtualTable::new();
    table.push_gate();
    table
}

#[test]
fn a_gate_starts_with_zero_coefficients() {
    let table = table_with_a_gate();
    assert_eq!(table.sy.a.len(), 1);
    assert!(table.sy.a[0].is_zero() && table.sy.b[0].is_zero() && table.sy.c[0].is_zero());
}

#[test]
fn values_are_added_to_coefficients_and_to_slots() {
    let mut table = table_with_a_gate();
    table.add(WireIndex::A(0), Coeff::Two);
    table.add(WireIndex::A(0), Coeff::Arbitrary(fe(5)));
    table.add(WireIndex::B(0), Coeff::NegativeOne);
    table.add(WireIndex::C(0), Coeff::One);
    assert!(table.sy.a[0].equals(&fe(7)));
    assert!(table.sy.b[0].add(&fe(1)).is_zero());
    assert!(table.sy.c[0].equals(&fe(1)));

    let slot = table.allocate();
    assert_eq!(slot, WireIndex::Virtual(0));
    table.add(slot, Coeff::Two);
    table.add(slot, Coeff::Two);
    assert!(table.wires[0].value.value().equals(&fe(4)));
    assert!(table.sy.a[0].equals(&fe(7)));
}

#[test]
fn a_slot_holds_its_terms_until_the_last_reference_goes() {
    let mut table = table_with_a_gate();
    let a = Wire::new(WireIndex::A(0));
    let c = Wire::new(WireIndex::C(0));

    let inner = table.allocate();
    let collector = TermCollector::new()
        .add_term(&mut table, &a, Coeff::Two)
        .gain(Coeff::Arbitrary(fe(3)))
        .add_term(&mut table, &c, Coeff::One);
    assert_eq!(collector.terms.len(), 2);
    assert!(collector.terms[1].1.value().equals(&fe(3)));
    table.update(inner, collector.terms);

    let outer = table.allocate();
    assert_eq!(outer, WireIndex::Virtual(1));
    let collector = TermCollector::new().add_term(&mut table, &Wire::new(inner), Coeff::Two);
    assert_eq!(table.wires[0].refcount, 2);
    table.update(outer, collector.terms);

    // ten for the outer wire, one for the inner wire itself
    let enforcer = TermEnforcer { gain: Coeff::Arbitrary(fe(5)) }
        .add_term(&mut table, &Wire::new(outer), Coeff::Two)
        .gain(Coeff::Zero);
    assert!(enforcer.gain.is_zero());
    TermEnforcer { gain: Coeff::One }.add_term(&mut table, &Wire::new(inner), Coeff::One);
    assert!(table.wires[1].value.value().equals(&fe(10)));
    assert!(table.wires[0].value.value().equals(&fe(1)));

    // the handle of the inner wire goes: the outer wire still refers to it
    table.release(0);
    assert_eq!(table.wires[0].refcount, 1);
    assert_eq!(table.wires[0].handles, 0);
    assert!(table.free.is_empty());
    assert!(table.sy.a[0].is_zero());

    // the handle of the outer wire goes: both resolve
    table.release(1);
    assert_eq!(table.free, vec![0, 1]);
    assert!(matches!(table.wires[0].value, Coeff::Zero));
    assert!(matches!(table.wires[1].value, Coeff::Zero));
    // the inner wire has collected 1 + 2 * 10
    assert!(table.sy.a[0].equals(&fe(42)));
    assert!(table.sy.c[0].equals(&fe(63)));
    assert!(table.sy.b[0].is_zero());
}

#[test]
fn handles_are_counted() {
    let mut table = table_with_a_gate();
    let slot = table.allocate();
    table.update(slot, vec![]);
    table.retain(0);
    table.retain(0);
    assert_eq!(table.wires[0].handles, 3);
    assert_eq!(table.wires[0].refcount, 3);
    table.increment_refcount(WireIndex::A(0));
    table.release(0);
    table.release(0);
    assert!(table.free.is_empty());
    table.release(0);
    assert_eq!(table.free, vec![0]);
    assert_eq!(table.allocate(), WireIndex::Virtual(0));
    assert_eq!(table.allocate(), WireIndex::Virtual(1));
}

#[test]
fn giving_up_a_stored_reference_frees_what_it_pointed_to() {
    let mut table = table_with_a_gate();
    let slot = table.allocate();
    table.update(slot, vec![]);
    // a reference that is counted but held outside the table
    table.increment_refcount(slot);
    table.wires[0].handles = 0;
    table.wires[0].refcount = 1;
    table.free(slot);
    assert_eq!(table.free, vec![0]);
    // a wire of a gate counts nothing
    table.free(WireIndex::C(0));
    assert_eq!(table.free, vec![0]);
}
