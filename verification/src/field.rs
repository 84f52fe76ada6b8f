//! Elements of the Pallas base field.
//!
//! An [`Fe`] holds the canonical little-endian encoding of a field element,
//! and its view is the integer that the encoding stands for. The arithmetic
//! itself is done by `pasta_curves`; the functions here that call it state
//! what the field operation is, and Verus takes their word for it.

use ff::Field;
use ff::PrimeField;
use pasta_curves::Fp;
use vstd::prelude::*;

verus! {

/// Two to the power 64.
pub open spec fn two_64() -> nat {
    0x1_0000_0000_0000_0000
}

/// The order of the field:
/// `0x40000000000000000000000000000000224698fc094cf91b992d30ed00000001`.
pub open spec fn modulus() -> nat {
    0x4000_0000_0000_0000 * two_64() * two_64() * two_64()
        + 0x2246_98fc_094c_f91b * two_64()
        + 0x992d_30ed_0000_0001
}

/// The integer that a little-endian byte string stands for.
pub open spec fn le_value(bytes: Seq<u8>) -> nat
    decreases bytes.len(),
{
    if bytes.len() == 0 {
        0
    } else {
        bytes[0] as nat + 256 * le_value(bytes.drop_first())
    }
}

/// `base` to the power `exp` in the field.
pub open spec fn pow_mod(base: nat, exp: nat) -> nat
    decreases exp,
{
    if exp == 0 {
        1
    } else {
        (base * pow_mod(base, (exp - 1) as nat)) % modulus()
    }
}

/// The additive inverse of `a` in the field.
pub open spec fn neg_mod(a: nat) -> nat {
    ((modulus() - a % modulus()) % (modulus() as int)) as nat
}

/// A field element, held as its canonical 32-byte little-endian encoding.
#[derive(Clone, Copy, Debug)]
pub struct Fe {
    repr: [u8; 32],
}

impl View for Fe {
    type V = nat;

    closed spec fn view(&self) -> nat {
        le_value(self.repr@)
    }
}

impl Fe {
    /// The encoding is canonical: it stands for an integer below the modulus.
    pub open spec fn wf(&self) -> bool {
        self@ < modulus()
    }

    /// The additive identity.
    pub fn zero() -> (r: Fe)
        ensures
            r.wf(),
            r@ == 0,
    {
        fp_from_u64(0)
    }

    /// The multiplicative identity.
    pub fn one() -> (r: Fe)
        ensures
            r.wf(),
            r@ == 1,
    {
        fp_from_u64(1)
    }

    /// The field element for a small integer.
    pub fn from_u64(value: u64) -> (r: Fe)
        ensures
            r.wf(),
            r@ == value as nat,
    {
        fp_from_u64(value)
    }

    /// The sum of two elements.
    pub fn add(&self, rhs: &Fe) -> (r: Fe)
        requires
            self.wf(),
            rhs.wf(),
        ensures
            r.wf(),
            r@ == (self@ + rhs@) % modulus(),
    {
        fp_add(self, rhs)
    }

    /// The product of two elements.
    pub fn mul(&self, rhs: &Fe) -> (r: Fe)
        requires
            self.wf(),
            rhs.wf(),
        ensures
            r.wf(),
            r@ == (self@ * rhs@) % modulus(),
    {
        fp_mul(self, rhs)
    }

    /// The additive inverse of an element.
    pub fn neg(&self) -> (r: Fe)
        requires
            self.wf(),
        ensures
            r.wf(),
            r@ == neg_mod(self@),
    {
        fp_neg(self)
    }

    /// The multiplicative inverse of an element, or `None` for zero.
    pub fn invert(&self) -> (r: Option<Fe>)
        requires
            self.wf(),
        ensures
            self@ == 0 <==> r is None,
            r matches Some(inv) ==> inv.wf() && (self@ * inv@) % modulus() == 1,
    {
        if self.is_zero() {
            None
        } else {
            fp_invert(self)
        }
    }

    /// An element raised to a power.
    pub fn pow(&self, exp: u64) -> (r: Fe)
        requires
            self.wf(),
        ensures
            r.wf(),
            r@ == pow_mod(self@, exp as nat),
    {
        fp_pow(self, exp)
    }

    /// Whether two elements are the same element of the field.
    pub fn equals(&self, rhs: &Fe) -> (r: bool)
        requires
            self.wf(),
            rhs.wf(),
        ensures
            r == (self@ == rhs@),
    {
        fp_eq(self, rhs)
    }

    /// The canonical little-endian encoding of the element.
    pub fn to_repr(&self) -> (r: [u8; 32])
        ensures
            le_value(r@) == self@,
    {
        self.repr
    }

    /// The element with the given little-endian encoding, or `None` if the
    /// encoding is not canonical: if it stands for an integer that is not
    /// below the modulus.
    pub fn from_repr(repr: [u8; 32]) -> (r: Option<Fe>)
        ensures
            r is Some <==> le_value(repr@) < modulus(),
            r matches Some(element) ==> element.wf() && element@ == le_value(repr@),
    {
        fp_from_repr(repr)
    }

    /// Whether the encoding that this value holds is canonical.
    pub fn is_canonical(&self) -> (r: bool)
        ensures
            r == self.wf(),
    {
        fp_from_repr(self.repr).is_some()
    }

    /// Whether this is the additive identity.
    pub fn is_zero(&self) -> (r: bool)
        requires
            self.wf(),
        ensures
            r == (self@ == 0),
    {
        let zero = Fe::zero();
        fp_eq(self, &zero)
    }
}

/// Calls `Fp::from(u64)`, which maps an integer to the element congruent to
/// it, and `to_repr`, which gives that element's canonical encoding. Every
/// `u64` is below the modulus, so the element stands for `value` itself.
#[verifier::external_body]
fn fp_from_u64(value: u64) -> (r: Fe)
    ensures
        r.wf(),
        r@ == value as nat,
{
    Fe { repr: Fp::from(value).to_repr() }
}

/// Calls `PrimeField::from_repr`, which takes a little-endian encoding and
/// fails exactly if the encoding is not canonical, that is, if it does not
/// stand for an integer below the modulus. The encoding itself is kept.
#[verifier::external_body]
fn fp_from_repr(repr: [u8; 32]) -> (r: Option<Fe>)
    ensures
        r is Some <==> le_value(repr@) < modulus(),
        r is Some ==> r.unwrap().repr == repr,
{
    Option::from(Fp::from_repr(repr)).map(|_element: Fp| Fe { repr })
}

/// Calls `Add::add` of `Fp`: addition in the field, on the elements that the
/// two canonical encodings stand for.
#[verifier::external_body]
fn fp_add(lhs: &Fe, rhs: &Fe) -> (r: Fe)
    requires
        lhs.wf(),
        rhs.wf(),
    ensures
        r.wf(),
        r@ == (lhs@ + rhs@) % modulus(),
{
    let a = Fp::from_repr(lhs.repr).unwrap();
    let b = Fp::from_repr(rhs.repr).unwrap();
    Fe { repr: (a + b).to_repr() }
}

/// Calls `Mul::mul` of `Fp`: multiplication in the field.
#[verifier::external_body]
fn fp_mul(lhs: &Fe, rhs: &Fe) -> (r: Fe)
    requires
        lhs.wf(),
        rhs.wf(),
    ensures
        r.wf(),
        r@ == (lhs@ * rhs@) % modulus(),
{
    let a = Fp::from_repr(lhs.repr).unwrap();
    let b = Fp::from_repr(rhs.repr).unwrap();
    Fe { repr: (a * b).to_repr() }
}

/// Calls `Neg::neg` of `Fp`: the element that sums with the given one to
/// zero.
#[verifier::external_body]
fn fp_neg(x: &Fe) -> (r: Fe)
    requires
        x.wf(),
    ensures
        r.wf(),
        r@ == neg_mod(x@),
{
    let a = Fp::from_repr(x.repr).unwrap();
    Fe { repr: (-a).to_repr() }
}

/// Calls `Field::invert`, which computes the multiplicative inverse and
/// fails only on zero; the contract speaks of nonzero elements alone.
#[verifier::external_body]
fn fp_invert(x: &Fe) -> (r: Option<Fe>)
    requires
        x.wf(),
        x@ != 0,
    ensures
        r is Some,
        r.unwrap().wf(),
        (x@ * r.unwrap()@) % modulus() == 1,
{
    let a = Fp::from_repr(x.repr).unwrap();
    Option::from(a.invert()).map(|inv: Fp| Fe { repr: inv.to_repr() })
}

/// Calls `Field::pow_vartime` with the exponent as a single little-endian
/// limb: repeated multiplication in the field.
#[verifier::external_body]
fn fp_pow(x: &Fe, exp: u64) -> (r: Fe)
    requires
        x.wf(),
    ensures
        r.wf(),
        r@ == pow_mod(x@, exp as nat),
{
    let a = Fp::from_repr(x.repr).unwrap();
    Fe { repr: a.pow_vartime([exp]).to_repr() }
}

/// Calls `PartialEq::eq` of `Fp`: two canonical encodings stand for the same
/// element exactly when they stand for the same integer.
#[verifier::external_body]
fn fp_eq(lhs: &Fe, rhs: &Fe) -> (r: bool)
    requires
        lhs.wf(),
        rhs.wf(),
    ensures
        r == (lhs@ == rhs@),
{
    let a = Fp::from_repr(lhs.repr).unwrap();
    let b = Fp::from_repr(rhs.repr).unwrap();
    a == b
}

/// The modulus is larger than every 64-bit integer.
pub proof fn lemma_modulus_large()
    ensures
        modulus() > 0xffff_ffff_ffff_ffff,
{
    assert(two_64() * two_64() * two_64() >= 1) by (nonlinear_arith)
        requires
            two_64() >= 1,
    ;
}

} // verus!
