use ragu::coeff::Coeff;
use ragu::field::Fe;

fn fe(value: u64) -> Fe {
    Fe::from_u64(value)
}

#[test]
fn small_integers_are_told_apart() {
    assert!(fe(7).equals(&fe(7)));
    assert!(!fe(7).equals(&fe(8)));
    assert!(Fe::zero().equals(&fe(0)));
    assert!(Fe::one().equals(&fe(1)));
    assert!(!Fe::zero().equals(&Fe::one()));
}

#[test]
fn addition_and_multiplication_of_small_integers() {
    assert!(fe(3).add(&fe(4)).equals(&fe(7)));
    assert!(!fe(3).add(&fe(4)).equals(&fe(3)));
    assert!(fe(3).mul(&fe(4)).equals(&fe(12)));
    assert!(!fe(3).mul(&fe(4)).equals(&fe(3)));
    assert!(fe(5).sub_via_neg(&fe(2)).equals(&fe(3)));
}

trait SubViaNeg {
    fn sub_via_neg(&self, rhs: &Fe) -> Fe;
}

impl SubViaNeg for Fe {
    fn sub_via_neg(&self, rhs: &Fe) -> Fe {
        self.add(&rhs.neg())
    }
}

#[test]
fn negation_sums_to_zero() {
    let x = fe(123);
    let minus = x.neg();
    assert!(!minus.equals(&x));
    assert!(x.add(&minus).is_zero());
    assert!(Fe::zero().neg().is_zero());
}

#[test]
fn inverse_multiplies_to_one() {
    let x = fe(123);
    let inverse = x.invert().unwrap();
    assert!(!inverse.equals(&x));
    assert!(x.mul(&inverse).equals(&Fe::one()));
    assert!(Fe::zero().invert().is_none());
    assert!(Fe::one().invert().unwrap().equals(&Fe::one()));
}

#[test]
fn powers_are_repeated_products() {
    let x = fe(3);
    assert!(x.pow(0).equals(&Fe::one()));
    assert!(x.pow(1).equals(&x));
    assert!(x.pow(4).equals(&fe(81)));
    assert!(fe(2).pow(10).equals(&fe(1024)));
}

#[test]
fn is_zero_only_for_zero() {
    assert!(Fe::zero().is_zero());
    assert!(!Fe::one().is_zero());
    assert!(fe(5).add(&fe(5).neg()).is_zero());
}

#[test]
fn coefficient_values() {
    assert!(Coeff::Zero.value().is_zero());
    assert!(Coeff::One.value().equals(&fe(1)));
    assert!(Coeff::Two.value().equals(&fe(2)));
    assert!(Coeff::NegativeOne.value().add(&fe(1)).is_zero());
    assert!(Coeff::Arbitrary(fe(9)).value().equals(&fe(9)));
    assert!(Coeff::NegativeArbitrary(fe(9)).value().add(&fe(9)).is_zero());
}

#[test]
fn coefficient_products_keep_the_tags_of_zero_and_one() {
    assert!(matches!(Coeff::Zero.mul(&Coeff::Arbitrary(fe(5))), Coeff::Zero));
    assert!(matches!(Coeff::Arbitrary(fe(5)).mul(&Coeff::Zero), Coeff::Zero));
    assert!(matches!(Coeff::One.mul(&Coeff::Two), Coeff::Two));
    assert!(matches!(Coeff::NegativeOne.mul(&Coeff::One), Coeff::NegativeOne));
    let product = Coeff::Arbitrary(fe(5)).mul(&Coeff::Two);
    assert!(product.value().equals(&fe(10)));
    let negative = Coeff::NegativeOne.mul(&Coeff::Arbitrary(fe(5)));
    assert!(negative.value().add(&fe(5)).is_zero());
}

#[test]
fn coefficient_sums() {
    assert!(matches!(Coeff::Zero.add(&Coeff::Two), Coeff::Two));
    assert!(matches!(Coeff::NegativeOne.add(&Coeff::Zero), Coeff::NegativeOne));
    assert!(Coeff::One.add(&Coeff::Two).value().equals(&fe(3)));
    assert!(Coeff::One.add(&Coeff::NegativeOne).is_zero());
    assert!(!Coeff::One.is_zero());
    assert!(Coeff::Arbitrary(fe(0)).is_zero());
}

#[test]
fn encodings_are_little_endian_and_canonical() {
    let mut repr = [0u8; 32];
    repr[0] = 5;
    repr[1] = 1;
    let element = Fe::from_repr(repr).unwrap();
    assert!(element.equals(&fe(261)));
    assert_eq!(element.to_repr(), repr);
    assert_eq!(fe(261).to_repr(), repr);
    assert_eq!(Fe::zero().to_repr(), [0u8; 32]);
    // the modulus itself and everything above it is refused
    assert!(Fe::from_repr([0xff; 32]).is_none());
    let modulus = [
        0x01, 0x00, 0x00, 0x00, 0xed, 0x30, 0x2d, 0x99, 0x1b, 0xf9, 0x4c, 0x09, 0xfc, 0x98,
        0x46, 0x22, 0x00, 0x00, 0x00, 0x00, 0x00, 0x00, 0x00, 0x00, 0x00, 0x00, 0x00, 0x00,
        0x00, 0x00, 0x00, 0x40,
    ];
    assert!(Fe::from_repr(modulus).is_none());
    let mut below = modulus;
    below[0] = 0;
    let largest = Fe::from_repr(below).unwrap();
    assert!(largest.add(&Fe::one()).is_zero());
    assert!(largest.equals(&Fe::one().neg()));
}
