//! The accumulated polynomial of a fused proof.
//!
//! When two proofs are fused, every polynomial that they and the fusion
//! commit to is folded into one polynomial `p`, with powers of a challenge
//! `beta` as weights, and `p` is evaluated at a point `u`. Commitments are
//! additive, so the commitment to `p` is the same combination of the
//! commitments to the terms; what is computed here are its scalars, and the
//! bases in their order. The sum of scalars times bases is left to whoever
//! knows the curve.

use crate::field::{modulus, Fe};
use crate::poly::all_canonical;
use vstd::prelude::*;

verus! {

/// A polynomial together with what commits to it. `C` is the type of a
/// commitment, which is carried along and not looked into.
#[derive(Debug)]
pub struct Committed<C> {
    /// The coefficients of the polynomial.
    pub poly: Vec<Fe>,
    /// The blinding factor of the commitment.
    pub blind: Fe,
    /// The commitment.
    pub commitment: C,
}

/// The committed polynomials of one proof, in the order in which they are
/// folded.
#[derive(Debug)]
pub struct Proof<C> {
    /// The witness of the application circuit.
    pub application: Committed<C>,
    /// The stage of the preamble.
    pub preamble: Committed<C>,
    /// The second stage of error terms.
    pub error_n: Committed<C>,
    /// The first stage of error terms.
    pub error_m: Committed<C>,
    /// The polynomial `a` of the folded claim.
    pub a: Committed<C>,
    /// The polynomial `b` of the folded claim.
    pub b: Committed<C>,
    /// The stage of the queries.
    pub query: Committed<C>,
    /// The mesh polynomial at the two challenges of the queries.
    pub mesh_xy: Committed<C>,
    /// The stage of the evaluations.
    pub eval: Committed<C>,
    /// The accumulated polynomial of the proof itself.
    pub p: Committed<C>,
    /// The circuit of the first hashes.
    pub hashes_1: Committed<C>,
    /// The circuit of the second hashes.
    pub hashes_2: Committed<C>,
    /// The circuit of the partial collapse.
    pub partial_collapse: Committed<C>,
    /// The circuit of the full collapse.
    pub full_collapse: Committed<C>,
    /// The circuit that computes the evaluation.
    pub compute_v: Committed<C>,
}

/// The committed polynomials of the fusion itself, in the order in which
/// they are folded, and the polynomial that the fold starts from.
#[derive(Debug)]
pub struct Fusion<C> {
    /// The first mesh polynomial of the stage `s'`.
    pub mesh_wx0: Committed<C>,
    /// The second mesh polynomial of the stage `s'`.
    pub mesh_wx1: Committed<C>,
    /// The mesh polynomial of the first stage of error terms.
    pub mesh_wy: Committed<C>,
    /// The polynomial `a` of the folded claim.
    pub a: Committed<C>,
    /// The polynomial `b` of the folded claim.
    pub b: Committed<C>,
    /// The mesh polynomial of the stage of the queries.
    pub mesh_xy: Committed<C>,
    /// The polynomial `f`, with which the fold starts.
    pub f: Committed<C>,
}

/// The accumulated polynomial, with what its commitment is made of.
#[derive(Debug)]
pub struct Accumulated<C> {
    /// The coefficients of the accumulated polynomial.
    pub poly: Vec<Fe>,
    /// The blinding factor of its commitment.
    pub blind: Fe,
    /// The scalars of its commitment: one for each base.
    pub scalars: Vec<Fe>,
    /// The bases of its commitment: the commitments to the terms in the
    /// order in which they were folded, and last the commitment to `f`.
    pub bases: Vec<C>,
    /// The value of the accumulated polynomial at `u`.
    pub v: Fe,
}

/// `beta` to the power `k`.
pub open spec fn beta_power(beta: nat, k: nat) -> nat
    decreases k,
{
    if k == 0 {
        1
    } else {
        (beta_power(beta, (k - 1) as nat) * beta) % modulus()
    }
}

/// The fold of the values: the start, times `beta`, plus the first value;
/// that, times `beta`, plus the second value; and so on.
pub open spec fn fold(start: nat, values: Seq<nat>, beta: nat) -> nat
    decreases values.len(),
{
    if values.len() == 0 {
        start
    } else {
        ((beta * fold(start, values.drop_last(), beta)) % modulus() + values.last()) % modulus()
    }
}

/// The value of the polynomial with the given coefficients at `u`.
pub open spec fn value_at(coeffs: Seq<Fe>, u: nat) -> nat
    decreases coeffs.len(),
{
    if coeffs.len() == 0 {
        0
    } else {
        ((u * value_at(coeffs.drop_first(), u)) % modulus() + coeffs[0]@) % modulus()
    }
}

impl<C> Committed<C> {
    /// The coefficients and the blinding factor are canonical, and the
    /// polynomial has `size` coefficients.
    pub open spec fn wf(&self, size: nat) -> bool {
        &&& self.poly@.len() == size
        &&& all_canonical(self.poly@)
        &&& self.blind.wf()
    }
}

impl<C> Proof<C> {
    /// Every polynomial of the proof is in order.
    pub open spec fn wf(&self, size: nat) -> bool {
        forall|k: int| 0 <= k < 15 ==> (#[trigger] self.terms()[k]).wf(size)
    }

    /// The committed polynomials of the proof in the order in which they
    /// are folded.
    pub open spec fn terms(&self) -> Seq<Committed<C>> {
        seq![
            self.application,
            self.preamble,
            self.error_n,
            self.error_m,
            self.a,
            self.b,
            self.query,
            self.mesh_xy,
            self.eval,
            self.p,
            self.hashes_1,
            self.hashes_2,
            self.partial_collapse,
            self.full_collapse,
            self.compute_v,
        ]
    }
}

impl<C> Fusion<C> {
    /// The committed polynomials of the fusion in the order in which they
    /// are folded, without `f`.
    pub open spec fn terms(&self) -> Seq<Committed<C>> {
        seq![self.mesh_wx0, self.mesh_wx1, self.mesh_wy, self.a, self.b, self.mesh_xy]
    }

    /// Every polynomial of the fusion is in order.
    pub open spec fn wf(&self, size: nat) -> bool {
        &&& forall|k: int| 0 <= k < 6 ==> (#[trigger] self.terms()[k]).wf(size)
        &&& self.f.wf(size)
    }
}

/// All the terms in the order in which they are folded: those of the left
/// proof, those of the right proof, and those of the fusion.
pub open spec fn folded<C>(left: &Proof<C>, right: &Proof<C>, fusion: &Fusion<C>) -> Seq<
    Committed<C>,
> {
    left.terms() + right.terms() + fusion.terms()
}

/// The references to the committed polynomials of a proof, in the order
/// in which they are folded, at the end of `order`.
pub fn proof_terms<'a, C>(order: &mut Vec<&'a Committed<C>>, proof: &'a Proof<C>)
    ensures
        final(order)@.len() == old(order)@.len() + 15,
        final(order)@.subrange(0, old(order)@.len() as int) == old(order)@,
        forall|k: int|
            0 <= k < 15 ==> *(#[trigger] final(order)@[old(order)@.len() + k]) == proof.terms()[k],
{
    order.push(&proof.application);
    order.push(&proof.preamble);
    order.push(&proof.error_n);
    order.push(&proof.error_m);
    order.push(&proof.a);
    order.push(&proof.b);
    order.push(&proof.query);
    order.push(&proof.mesh_xy);
    order.push(&proof.eval);
    order.push(&proof.p);
    order.push(&proof.hashes_1);
    order.push(&proof.hashes_2);
    order.push(&proof.partial_collapse);
    order.push(&proof.full_collapse);
    order.push(&proof.compute_v);
    proof {
        assert(order@.subrange(0, old(order)@.len() as int) =~= old(order)@);
    }
}

/// The value of a polynomial at `u`.
pub fn evaluate(coeffs: &Vec<Fe>, u: &Fe) -> (r: Fe)
    requires
        all_canonical(coeffs@),
        u.wf(),
    ensures
        r.wf(),
        r@ == value_at(coeffs@, u@),
{
    let mut acc = Fe::zero();
    let mut i: usize = coeffs.len();
    proof {
        assert(coeffs@.skip(i as int) =~= Seq::<Fe>::empty());
    }
    while i > 0
        invariant
            0 <= i <= coeffs@.len(),
            all_canonical(coeffs@),
            u.wf(),
            acc.wf(),
            acc@ == value_at(coeffs@.skip(i as int), u@),
        decreases i,
    {
        i -= 1;
        proof {
            assert(coeffs@.skip(i as int).drop_first() =~= coeffs@.skip(i as int + 1));
            assert(coeffs@.skip(i as int)[0] == coeffs@[i as int]);
            assert(coeffs@[i as int].wf());
        }
        acc = u.mul(&acc).add(&coeffs[i]);
    }
    proof {
        assert(coeffs@.skip(0) =~= coeffs@);
    }
    acc
}

/// The blinding factors of the terms.
pub open spec fn blinds<C>(terms: Seq<Committed<C>>) -> Seq<nat> {
    Seq::new(terms.len(), |k: int| terms[k].blind@)
}

/// The coefficients with the number `i` of the terms.
pub open spec fn coefficients<C>(terms: Seq<Committed<C>>, i: int) -> Seq<nat> {
    Seq::new(terms.len(), |k: int| terms[k].poly@[i]@)
}

/// Folds the committed polynomials of two proofs and of their fusion into
/// the accumulated polynomial, and evaluates it at `u`.
///
/// The fold starts from `f`. With `m` terms, the term with the number `k`
/// ends up with the weight `beta` to the power `m - 1 - k`, and `f` with
/// the weight `beta` to the power `m`; the scalars are these weights, in
/// the order of the bases.
pub fn compute_p<C: Copy>(
    beta: &Fe,
    u: &Fe,
    left: &Proof<C>,
    right: &Proof<C>,
    fusion: &Fusion<C>,
) -> (r: Accumulated<C>)
    requires
        beta.wf(),
        u.wf(),
        left.wf(fusion.f.poly@.len()),
        right.wf(fusion.f.poly@.len()),
        fusion.wf(fusion.f.poly@.len()),
    ensures
        ({
            let terms = folded(left, right, fusion);
            let m = terms.len();
            &&& m == 36
            &&& r.blind.wf()
            &&& r.blind@ == fold(fusion.f.blind@, blinds(terms), beta@)
            &&& r.poly@.len() == fusion.f.poly@.len()
            &&& all_canonical(r.poly@)
            &&& forall|i: int|
                0 <= i < r.poly@.len() ==> (#[trigger] r.poly@[i])@ == fold(
                    fusion.f.poly@[i]@,
                    coefficients(terms, i),
                    beta@,
                )
            &&& r.scalars@.len() == m + 1
            &&& all_canonical(r.scalars@)
            &&& forall|k: int|
                0 <= k < m ==> (#[trigger] r.scalars@[k])@ == beta_power(beta@, (m - 1 - k) as nat)
            &&& r.scalars@[m as int]@ == beta_power(beta@, m)
            &&& r.bases@.len() == m + 1
            &&& forall|k: int| 0 <= k < m ==> (#[trigger] r.bases@[k]) == terms[k].commitment
            &&& r.bases@[m as int] == fusion.f.commitment
            &&& r.v.wf()
            &&& r.v@ == value_at(r.poly@, u@)
        }),
{
    let ghost terms = folded(left, right, fusion);
    let ghost size = fusion.f.poly@.len();
    let mut order: Vec<&Committed<C>> = Vec::new();
    proof_terms(&mut order, left);
    let ghost first = order@;
    proof_terms(&mut order, right);
    let ghost second = order@;
    order.push(&fusion.mesh_wx0);
    order.push(&fusion.mesh_wx1);
    order.push(&fusion.mesh_wy);
    order.push(&fusion.a);
    order.push(&fusion.b);
    order.push(&fusion.mesh_xy);
    proof {
        assert(order@.len() == 36);
        assert forall|k: int| 0 <= k < 36 implies *(#[trigger] order@[k]) == terms[k]
            && terms[k].wf(size) by {
            if k < 15 {
                assert(order@[k] == second[k]);
                assert(second[k] == second.subrange(0, 15)[k]);
                assert(*first[0 + k] == left.terms()[k]);
                assert(left.terms()[k].wf(size));
            } else if k < 30 {
                assert(order@[k] == second[k]);
                assert(*second[15 + (k - 15)] == right.terms()[k - 15]);
                assert(right.terms()[k - 15].wf(size));
            } else {
                assert(fusion.terms()[k - 30].wf(size));
            }
        }
    }
    let count = order.len();
    let mut poly: Vec<Fe> = Vec::new();
    let mut i: usize = 0;
    while i < fusion.f.poly.len()
        invariant
            0 <= i <= fusion.f.poly@.len(),
            fusion.f.wf(size),
            poly@.len() == i,
            forall|j: int| 0 <= j < i ==> (#[trigger] poly@[j]) == fusion.f.poly@[j],
        decreases fusion.f.poly@.len() - i,
    {
        poly.push(fusion.f.poly[i]);
        i += 1;
    }
    let mut blind = fusion.f.blind;
    let mut powers: Vec<Fe> = Vec::new();
    let mut bases: Vec<C> = Vec::new();
    let mut power = Fe::one();
    let mut k: usize = 0;
    proof {
        assert(blinds(terms).take(0) =~= Seq::<nat>::empty());
        assert forall|j: int| 0 <= j < size implies (#[trigger] poly@[j])@ == fold(
            fusion.f.poly@[j]@,
            coefficients(terms, j).take(0),
            beta@,
        ) by {
            assert(coefficients(terms, j).take(0) =~= Seq::<nat>::empty());
        }
    }
    while k < count
        invariant
            0 <= k <= count,
            count == 36,
            terms.len() == 36,
            size == fusion.f.poly@.len(),
            beta.wf(),
            order@.len() == count,
            forall|j: int| 0 <= j < 36 ==> *(#[trigger] order@[j]) == terms[j] && terms[j].wf(size),
            blind.wf(),
            blind@ == fold(fusion.f.blind@, blinds(terms).take(k as int), beta@),
            poly@.len() == size,
            all_canonical(poly@),
            forall|j: int|
                0 <= j < size ==> (#[trigger] poly@[j])@ == fold(
                    fusion.f.poly@[j]@,
                    coefficients(terms, j).take(k as int),
                    beta@,
                ),
            power.wf(),
            power@ == beta_power(beta@, k as nat),
            powers@.len() == k,
            all_canonical(powers@),
            forall|j: int| 0 <= j < k ==> (#[trigger] powers@[j])@ == beta_power(beta@, j as nat),
            bases@.len() == k,
            forall|j: int| 0 <= j < k ==> (#[trigger] bases@[j]) == terms[j].commitment,
        decreases count - k,
    {
        let term = order[k];
        proof {
            assert(*order@[k as int] == terms[k as int]);
            assert(terms[k as int].wf(size));
            assert(blinds(terms).take(k as int + 1).drop_last() =~= blinds(terms).take(k as int));
        }
        let mut i: usize = 0;
        let ghost before = poly@;
        while i < poly.len()
            invariant
                0 <= i <= poly@.len(),
                poly@.len() == size,
                before.len() == size,
                size == fusion.f.poly@.len(),
                beta.wf(),
                term.wf(size),
                *term == terms[k as int],
                0 <= k < 36,
                terms.len() == 36,
                all_canonical(before),
                all_canonical(poly@),
                forall|j: int| i <= j < size ==> (#[trigger] poly@[j]) == before[j],
                forall|j: int|
                    0 <= j < size ==> (#[trigger] before[j])@ == fold(
                        fusion.f.poly@[j]@,
                        coefficients(terms, j).take(k as int),
                        beta@,
                    ),
                forall|j: int|
                    0 <= j < i ==> (#[trigger] poly@[j])@ == fold(
                        fusion.f.poly@[j]@,
                        coefficients(terms, j).take(k as int + 1),
                        beta@,
                    ),
            decreases poly@.len() - i,
        {
            proof {
                assert(poly@[i as int] == before[i as int]);
                assert(before[i as int].wf());
                assert(term.poly@[i as int].wf());
                assert(coefficients(terms, i as int).take(k as int + 1).drop_last()
                    =~= coefficients(terms, i as int).take(k as int));
            }
            let folded = beta.mul(&poly[i]).add(&term.poly[i]);
            poly[i] = folded;
            i += 1;
        }
        blind = beta.mul(&blind).add(&term.blind);
        powers.push(power);
        bases.push(term.commitment);
        power = power.mul(beta);
        k += 1;
    }
    proof {
        assert(blinds(terms).take(36) =~= blinds(terms));
        assert forall|j: int| 0 <= j < size implies (#[trigger] poly@[j])@ == fold(
            fusion.f.poly@[j]@,
            coefficients(terms, j),
            beta@,
        ) by {
            assert(coefficients(terms, j).take(36) =~= coefficients(terms, j));
        }
    }
    let mut scalars: Vec<Fe> = Vec::new();
    let mut k: usize = 0;
    while k < count
        invariant
            0 <= k <= count,
            count == 36,
            powers@.len() == count,
            all_canonical(powers@),
            forall|j: int|
                0 <= j < count ==> (#[trigger] powers@[j])@ == beta_power(beta@, j as nat),
            scalars@.len() == k,
            all_canonical(scalars@),
            forall|j: int|
                0 <= j < k ==> (#[trigger] scalars@[j])@ == beta_power(
                    beta@,
                    (count - 1 - j) as nat,
                ),
        decreases count - k,
    {
        proof {
            assert(powers@[count - 1 - k].wf());
        }
        scalars.push(powers[count - 1 - k]);
        k += 1;
    }
    scalars.push(power);
    bases.push(fusion.f.commitment);
    let v = evaluate(&poly, u);
    Accumulated { poly, blind, scalars, bases, v }
}

} // verus!
