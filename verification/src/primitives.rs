//! Wires together with their values.

use crate::coeff::Coeff;
use crate::driver::{lc_gain, lc_sum, Driver, Resources, Step};
use crate::emulator::DirectSum;
use crate::error::Error;
use crate::field::{modulus, neg_mod, Fe};
use vstd::prelude::*;

verus! {

/// A wire that stands for a field element, with the element if it is
/// known.
pub struct Element<D: Driver> {
    /// The wire.
    pub wire: D::Wire,
    /// The value of the wire, if it is known.
    pub value: Option<Fe>,
}

/// A wire that stands for zero or one, with the truth value if it is
/// known.
pub struct Boolean<D: Driver> {
    /// The wire.
    pub wire: D::Wire,
    /// Whether the wire stands for one, if that is known.
    pub value: Option<bool>,
}

/// The value of `a - b` as a linear combination computes it.
pub open spec fn difference(a: nat, b: nat) -> nat {
    ((0 + (a * ((1 * 1) % modulus())) % modulus()) % modulus() + (b * ((neg_mod(1) * 1)
        % modulus())) % modulus()) % modulus()
}

/// The difference of two elements is zero exactly if they are the same.
pub proof fn lemma_difference(a: nat, b: nat)
    requires
        a < modulus(),
        b < modulus(),
    ensures
        difference(a, b) == 0 <==> a == b,
{
    crate::field::lemma_modulus_large();
    let p = modulus() as int;
    vstd::arithmetic::div_mod::lemma_small_mod(1, modulus());
    vstd::arithmetic::div_mod::lemma_small_mod(a, modulus());
    assert(neg_mod(1) == p - 1) by {
        vstd::arithmetic::div_mod::lemma_small_mod((p - 1) as nat, modulus());
    }
    vstd::arithmetic::div_mod::lemma_small_mod((p - 1) as nat, modulus());
    assert((neg_mod(1) * 1) % modulus() == p - 1);
    assert(a * 1 == a);
    // b * (p - 1) is -b, up to a multiple of p
    assert(b * (p - 1) == p * b + (-(b as int))) by (nonlinear_arith);
    vstd::arithmetic::div_mod::lemma_mod_multiples_vanish(b as int, -(b as int), p);
    let nb = (b * (p - 1)) % p;
    assert(nb == (-(b as int)) % p);
    if b == 0 {
        assert(b * (p - 1) == 0);
        vstd::arithmetic::div_mod::lemma_small_mod(0, modulus());
        assert(nb == 0);
    } else {
        vstd::arithmetic::div_mod::lemma_mod_add_multiples_vanish(-(b as int), p);
        vstd::arithmetic::div_mod::lemma_small_mod((p - b) as nat, modulus());
        assert(nb == p - b);
        if a >= b {
            vstd::arithmetic::div_mod::lemma_mod_add_multiples_vanish(a - b, p);
            vstd::arithmetic::div_mod::lemma_small_mod((a - b) as nat, modulus());
        } else {
            vstd::arithmetic::div_mod::lemma_small_mod((a + p - b) as nat, modulus());
        }
    }
}

impl<D: Driver> Element<D> {
    /// The wire is one of the driver, the value is canonical, and a driver
    /// that gives wires values has given the wire this value.
    pub open spec fn wf(&self, dr: &D) -> bool {
        &&& dr.valid(self.wire)
        &&& (self.value matches Some(v) ==> v.wf())
        &&& (dr.tracks() ==> (self.value matches Some(v) && D::value_of(self.wire) == v@))
    }

    /// A new single wire with the given value. Without a value the wire
    /// is allocated with zero in its place.
    pub fn allocate(dr: &mut D, value: Option<Fe>) -> (r: Result<Element<D>, Error>)
        requires
            old(dr).wf(),
            value matches Some(v) ==> v.wf(),
            old(dr).tracks() ==> value is Some,
        ensures
            final(dr).wf(),
            final(dr).tracks() == old(dr).tracks(),
            final(dr).predicts() == old(dr).predicts(),
            forall|w: D::Wire| old(dr).valid(w) ==> final(dr).valid(w),
            match old(dr).usage().allocate() {
                Ok(u) => r matches Ok(e) && final(dr).usage() == u && e.wf(final(dr)) && e.value
                    == value,
                Err(e) => r matches Err(x) && x == e && final(dr).usage() == old(dr).usage(),
            },
    {
        let coeff = match value {
            Some(v) => Coeff::Arbitrary(v),
            None => Coeff::Zero,
        };
        let wire = dr.allocate(coeff)?;
        Ok(Element { wire, value })
    }

    /// The element that stands for the constant one.
    pub fn one(dr: &D) -> (r: Element<D>)
        requires
            dr.wf(),
        ensures
            r.wf(dr),
            r.value matches Some(v) && v@ == 1,
    {
        Element { wire: dr.one(), value: Some(Fe::one()) }
    }

    /// The difference of two elements, as a new wire.
    pub fn sub(&self, dr: &mut D, other: &Element<D>) -> (r: Element<D>)
        requires
            old(dr).wf(),
            self.wf(old(dr)),
            other.wf(old(dr)),
        ensures
            final(dr).wf(),
            final(dr).tracks() == old(dr).tracks(),
            final(dr).predicts() == old(dr).predicts(),
            final(dr).usage() == old(dr).usage(),
            forall|w: D::Wire| old(dr).valid(w) ==> final(dr).valid(w),
            r.wf(final(dr)),
            match (self.value, other.value) {
                (Some(a), Some(b)) => r.value matches Some(v) && v@ == difference(a@, b@),
                _ => r.value is None,
            },
    {
        let mut lc: Vec<Step<D::Wire>> = Vec::new();
        lc.push(Step::Term(self.wire, Coeff::One));
        lc.push(Step::Term(other.wire, Coeff::NegativeOne));
        let wire = dr.add(&lc);
        let value = match (self.value, other.value) {
            (Some(a), Some(b)) => {
                let sum = DirectSum::new().add_term(&a, Coeff::One).add_term(
                    &b,
                    Coeff::NegativeOne,
                );
                Some(sum.value)
            },
            _ => None,
        };
        proof {
            if dr.tracks() {
                let val = |w: D::Wire| D::value_of(w);
                let first = lc@.drop_last();
                assert(first.drop_last() =~= Seq::<Step<D::Wire>>::empty());
                assert(first.last() == lc@[0]);
                assert(lc@.last() == lc@[1]);
                assert(lc_gain(first.drop_last()) == 1);
                assert(lc_gain(first) == 1);
                assert(lc_sum(first.drop_last(), val) == 0);
                assert(lc_sum(first, val) == (0 + (D::value_of(self.wire) * ((1 * 1)
                    % modulus())) % modulus()) % modulus());
                assert(lc_sum(lc@, val) == difference(
                    D::value_of(self.wire),
                    D::value_of(other.wire),
                ));
            }
        }
        Element { wire, value }
    }
}

/// What it takes to tell whether an element is zero: two gates, and after
/// them four constraints.
pub open spec fn zero_test_usage(before: Resources) -> Result<Resources, Error> {
    match before.mul_times(2) {
        Ok(u) => u.enforce_times(4),
        Err(e) => Err(e),
    }
}

impl<D: Driver> Boolean<D> {
    /// The wire is one of the driver, and a driver that gives wires values
    /// has given the wire one or zero, as the truth value says.
    pub open spec fn wf(&self, dr: &D) -> bool {
        &&& dr.valid(self.wire)
        &&& (dr.tracks() ==> (self.value matches Some(b) && D::value_of(self.wire) == if b {
            1nat
        } else {
            0nat
        }))
    }

    /// Whether the element is zero.
    ///
    /// With `x` the element, `z` the answer and `w` a witness, the gates
    /// are `x * w = 1 - z` and `x * z = 0`: if `x` is zero the first gate
    /// makes `z` one, and if not the second makes it zero. Four
    /// constraints tie the legs of the two gates to `x`, to one another
    /// and to zero.
    pub fn is_zero(dr: &mut D, x: &Element<D>) -> (r: Result<Boolean<D>, Error>)
        requires
            old(dr).wf(),
            x.wf(old(dr)),
        ensures
            final(dr).wf(),
            final(dr).tracks() == old(dr).tracks(),
            final(dr).predicts() == old(dr).predicts(),
            forall|w: D::Wire| old(dr).valid(w) ==> final(dr).valid(w),
            match zero_test_usage(old(dr).usage()) {
                Ok(u) => r matches Ok(b) && {
                    &&& final(dr).usage() == u
                    &&& b.wf(final(dr))
                    &&& b.value == match x.value {
                        Some(v) => Some(v@ == 0),
                        None => None::<bool>,
                    }
                },
                Err(e) => r matches Err(x) && x == e,
            },
    {
        let ghost u0 = dr.usage();
        let (value, inverse, product, answer, flag) = match x.value {
            Some(v) => {
                let inverse = match v.invert() {
                    Some(inv) => inv,
                    None => Fe::zero(),
                };
                let zero = v.is_zero();
                let flag = if zero {
                    Coeff::One
                } else {
                    Coeff::Zero
                };
                (
                    Coeff::Arbitrary(v),
                    Coeff::Arbitrary(inverse),
                    Coeff::Arbitrary(v.mul(&inverse)),
                    Some(zero),
                    flag,
                )
            },
            None => (Coeff::Zero, Coeff::Zero, Coeff::Zero, None, Coeff::Zero),
        };
        proof {
            assert(u0.mul_times(0) == Ok::<Resources, Error>(u0));
            assert(u0.mul_times(1) == u0.mul());
            assert(u0.mul_times(2) == match u0.mul() {
                Ok(u) => u.mul(),
                Err(e) => Err(e),
            });
        }
        let (x_first, _, one_less) = dr.mul(value, inverse, product)?;
        let (x_second, result, nothing) = dr.mul(value, flag, Coeff::Zero)?;
        let ghost u2 = dr.usage();
        proof {
            assert(u2.enforce_times(0) == Ok::<Resources, Error>(u2));
            assert(u2.enforce_times(1) == u2.enforce_zero());
            assert(u2.enforce_times(2) == match u2.enforce_times(1) {
                Ok(u) => u.enforce_zero(),
                Err(e) => Err(e),
            });
            assert(u2.enforce_times(3) == match u2.enforce_times(2) {
                Ok(u) => u.enforce_zero(),
                Err(e) => Err(e),
            });
            assert(u2.enforce_times(4) == match u2.enforce_times(3) {
                Ok(u) => u.enforce_zero(),
                Err(e) => Err(e),
            });
        }
        let mut first: Vec<Step<D::Wire>> = Vec::new();
        first.push(Step::Term(x_first, Coeff::One));
        first.push(Step::Term(x.wire, Coeff::NegativeOne));
        dr.enforce_zero(&first)?;
        let mut sum: Vec<Step<D::Wire>> = Vec::new();
        sum.push(Step::Term(one_less, Coeff::One));
        sum.push(Step::Term(result, Coeff::One));
        sum.push(Step::Term(dr.one(), Coeff::NegativeOne));
        dr.enforce_zero(&sum)?;
        let mut second: Vec<Step<D::Wire>> = Vec::new();
        second.push(Step::Term(x_second, Coeff::One));
        second.push(Step::Term(x.wire, Coeff::NegativeOne));
        dr.enforce_zero(&second)?;
        let mut zero: Vec<Step<D::Wire>> = Vec::new();
        zero.push(Step::Term(nothing, Coeff::One));
        dr.enforce_zero(&zero)?;
        Ok(Boolean { wire: result, value: answer })
    }

    /// Whether two elements are equal: whether their difference is zero.
    pub fn is_equal(dr: &mut D, a: &Element<D>, b: &Element<D>) -> (r: Result<Boolean<D>, Error>)
        requires
            old(dr).wf(),
            a.wf(old(dr)),
            b.wf(old(dr)),
        ensures
            final(dr).wf(),
            final(dr).tracks() == old(dr).tracks(),
            final(dr).predicts() == old(dr).predicts(),
            forall|w: D::Wire| old(dr).valid(w) ==> final(dr).valid(w),
            match zero_test_usage(old(dr).usage()) {
                Ok(u) => r matches Ok(answer) && {
                    &&& final(dr).usage() == u
                    &&& answer.wf(final(dr))
                    &&& answer.value == match (a.value, b.value) {
                        (Some(x), Some(y)) => Some(x@ == y@),
                        _ => None::<bool>,
                    }
                },
                Err(e) => r matches Err(x) && x == e,
            },
    {
        let diff = a.sub(dr, b);
        proof {
            if let (Some(x), Some(y)) = (a.value, b.value) {
                lemma_difference(x@, y@);
            }
        }
        Boolean::is_zero(dr, &diff)
    }

    /// Whether an element is one: whether it is equal to the constant one.
    pub fn is_one(dr: &mut D, a: &Element<D>) -> (r: Result<Boolean<D>, Error>)
        requires
            old(dr).wf(),
            a.wf(old(dr)),
        ensures
            final(dr).wf(),
            final(dr).tracks() == old(dr).tracks(),
            final(dr).predicts() == old(dr).predicts(),
            forall|w: D::Wire| old(dr).valid(w) ==> final(dr).valid(w),
            match zero_test_usage(old(dr).usage()) {
                Ok(u) => r matches Ok(answer) && {
                    &&& final(dr).usage() == u
                    &&& answer.wf(final(dr))
                    &&& answer.value == match a.value {
                        Some(x) => Some(x@ == 1),
                        None => None::<bool>,
                    }
                },
                Err(e) => r matches Err(x) && x == e,
            },
    {
        let one = Element::one(dr);
        Boolean::is_equal(dr, a, &one)
    }
}

} // verus!
