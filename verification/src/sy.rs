//! Evaluation of the wiring polynomial at a fixed second argument.
//!
//! The coefficient that belongs to a wire depends on every linear constraint
//! of the circuit, so it cannot be written down while the circuit is still
//! being synthesized. Linear combinations therefore become *virtual wires*:
//! slots of a table that remember their terms and collect what the
//! constraints contribute to them. A slot counts the references to it. When
//! the last one is given up the slot *resolves*: what it collected is handed
//! on to its terms, and in the end reaches the coefficients of the wires
//! of the gates.

use crate::coeff::Coeff;
use crate::driver::{Driver, Resources, Step};
use crate::error::Error;
use crate::field::Fe;
use crate::poly::{values, Polynomial, Rank};
use crate::resolution::{Slot, Table};
use crate::driver::lc_gain;
use crate::field::modulus;
use crate::trace::{combine, powers, Weights};
use crate::wiring::{all_but, cong, kept, referred, slot_weight, terms_weight, within};
use vstd::prelude::*;

verus! {

/// Where a wire lives: in one of the three legs of a gate, or in a slot of
/// the table of virtual wires.
#[derive(Clone, Copy, Debug, PartialEq, Eq, Structural)]
pub enum WireIndex {
    /// The left leg of a gate, by the number of that gate.
    A(usize),
    /// The right leg of a gate, by the number of that gate.
    B(usize),
    /// The output leg of a gate, by the number of that gate.
    C(usize),
    /// The slot with this number.
    Virtual(usize),
}

/// One term of a linear combination: a wire and what multiplies it.
pub type Term = (WireIndex, Coeff);

/// A linear combination that waits for the constraints to be known.
#[derive(Debug)]
pub struct VirtualWire {
    /// The number of references to this slot: handles and stored terms.
    pub refcount: u128,
    /// How many of those references are handles.
    pub handles: usize,
    /// The terms of the linear combination. Each term that names a slot is
    /// one reference to that slot.
    pub terms: Vec<Term>,
    /// What the constraints have contributed to this wire so far.
    pub value: Coeff,
}

/// The slots of the virtual wires, the list of the slots that are free, and
/// the polynomial that the resolved values are written to.
pub struct VirtualTable {
    /// The slots.
    pub wires: Vec<VirtualWire>,
    /// The numbers of the slots that can be used again.
    pub free: Vec<usize>,
    /// The polynomial under construction.
    pub sy: Polynomial,
    /// For each slot, a bound on the length of the chains of terms below
    /// it: a term always names a slot with a smaller bound.
    pub depth: Ghost<Seq<nat>>,
}

/// The number of the slot that `index` names, or -1 if it names none.
pub open spec fn slot_of(index: WireIndex) -> int {
    match index {
        WireIndex::Virtual(i) => i as int,
        _ => -1,
    }
}

/// The number of a gate, if `index` names its left leg, or -1.
pub open spec fn left_of(index: WireIndex) -> int {
    match index {
        WireIndex::A(i) => i as int,
        _ => -1,
    }
}

/// The number of a gate, if `index` names its right leg, or -1.
pub open spec fn right_of(index: WireIndex) -> int {
    match index {
        WireIndex::B(i) => i as int,
        _ => -1,
    }
}

/// The number of a gate, if `index` names its output leg, or -1.
pub open spec fn output_of(index: WireIndex) -> int {
    match index {
        WireIndex::C(i) => i as int,
        _ => -1,
    }
}

/// The list names the slot `i`.
pub open spec fn listed(free: Seq<usize>, i: int) -> bool {
    exists|k: int| 0 <= k < free.len() && #[trigger] free[k] == i
}

/// How many of the terms name the slot `target`.
pub open spec fn count_refs(terms: Seq<Term>, target: int) -> nat
    decreases terms.len(),
{
    if terms.len() == 0 {
        0
    } else {
        count_refs(terms.drop_last(), target) + if slot_of(terms.last().0) == target {
            1nat
        } else {
            0nat
        }
    }
}

/// How many terms stored in the slots name the slot `target`.
pub open spec fn term_refs(wires: Seq<VirtualWire>, target: int) -> nat
    decreases wires.len(),
{
    if wires.len() == 0 {
        0
    } else {
        term_refs(wires.drop_last(), target) + count_refs(wires.last().terms@, target)
    }
}

/// The sum of the reference counts of all slots.
pub open spec fn refcount_sum(wires: Seq<VirtualWire>) -> nat
    decreases wires.len(),
{
    if wires.len() == 0 {
        0
    } else {
        refcount_sum(wires.drop_last()) + wires.last().refcount as nat
    }
}

/// A number greater than the depth of every slot that the terms name.
pub open spec fn depth_above(depth: Seq<nat>, terms: Seq<Term>) -> nat
    decreases terms.len(),
{
    if terms.len() == 0 {
        0
    } else {
        let rest = depth_above(depth, terms.drop_last());
        match terms.last().0 {
            WireIndex::Virtual(j) => if j < depth.len() && depth[j as int] >= rest {
                depth[j as int] + 1
            } else {
                rest
            },
            _ => rest,
        }
    }
}

/// No reference held outside the table.
pub open spec fn no_extra(n: nat) -> Seq<nat> {
    Seq::new(n, |i: int| 0nat)
}

/// One reference to `index` held outside the table, if `index` is a slot.
pub open spec fn one_extra(n: nat, index: WireIndex) -> Seq<nat> {
    Seq::new(n, |i: int| if slot_of(index) == i { 1nat } else { 0nat })
}

/// The references that a list of terms holds, slot by slot.
pub open spec fn terms_extra(n: nat, terms: Seq<Term>) -> Seq<nat> {
    Seq::new(n, |i: int| count_refs(terms, i))
}

pub proof fn lemma_count_refs_bound(terms: Seq<Term>, target: int)
    ensures
        count_refs(terms, target) <= terms.len(),
    decreases terms.len(),
{
    if terms.len() > 0 {
        lemma_count_refs_bound(terms.drop_last(), target);
    }
}

pub proof fn lemma_count_refs_push(terms: Seq<Term>, term: Term, target: int)
    ensures
        count_refs(terms.push(term), target) == count_refs(terms, target) + if slot_of(term.0) == target {
            1nat
        } else {
            0nat
        },
{
    assert(terms.push(term).drop_last() =~= terms);
}

pub proof fn lemma_count_refs_first(terms: Seq<Term>, target: int)
    requires
        terms.len() > 0,
    ensures
        count_refs(terms, target) == count_refs(terms.drop_first(), target) + if slot_of(terms[0].0) == target {
            1nat
        } else {
            0nat
        },
    decreases terms.len(),
{
    if terms.len() == 1 {
        assert(terms.drop_last() =~= Seq::<Term>::empty());
        assert(terms.drop_first() =~= Seq::<Term>::empty());
    } else {
        lemma_count_refs_first(terms.drop_last(), target);
        assert(terms.drop_last().drop_first() =~= terms.drop_first().drop_last());
    }
}

/// A term that names a slot is counted.
pub proof fn lemma_count_refs_member(terms: Seq<Term>, k: int, target: int)
    requires
        0 <= k < terms.len(),
        slot_of(terms[k].0) == target,
    ensures
        count_refs(terms, target) >= 1,
    decreases terms.len(),
{
    if k < terms.len() - 1 {
        lemma_count_refs_member(terms.drop_last(), k, target);
    }
}

/// Terms that name no slot from `n` on hold no reference to such a slot.
pub proof fn lemma_count_refs_none(terms: Seq<Term>, target: int)
    requires
        forall|k: int|
            0 <= k < terms.len() ==> slot_of((#[trigger] terms[k]).0) != target,
    ensures
        count_refs(terms, target) == 0,
    decreases terms.len(),
{
    if terms.len() > 0 {
        lemma_count_refs_none(terms.drop_last(), target);
    }
}

pub proof fn lemma_term_refs_update(wires: Seq<VirtualWire>, j: int, w: VirtualWire, target: int)
    requires
        0 <= j < wires.len(),
    ensures
        term_refs(wires.update(j, w), target) + count_refs(wires[j].terms@, target) == term_refs(
            wires,
            target,
        ) + count_refs(w.terms@, target),
    decreases wires.len(),
{
    if j == wires.len() - 1 {
        assert(wires.update(j, w).drop_last() =~= wires.drop_last());
    } else {
        lemma_term_refs_update(wires.drop_last(), j, w, target);
        assert(wires.update(j, w).drop_last() =~= wires.drop_last().update(j, w));
    }
}

pub proof fn lemma_term_refs_push(wires: Seq<VirtualWire>, w: VirtualWire, target: int)
    ensures
        term_refs(wires.push(w), target) == term_refs(wires, target) + count_refs(
            w.terms@,
            target,
        ),
{
    assert(wires.push(w).drop_last() =~= wires);
}

/// A slot that is named by a stored term is counted.
pub proof fn lemma_term_refs_member(wires: Seq<VirtualWire>, j: int, k: int, target: int)
    requires
        0 <= j < wires.len(),
        0 <= k < wires[j].terms@.len(),
        slot_of(wires[j].terms@[k].0) == target,
    ensures
        term_refs(wires, target) >= 1,
    decreases wires.len(),
{
    if j == wires.len() - 1 {
        lemma_count_refs_member(wires[j].terms@, k, target);
    } else {
        lemma_term_refs_member(wires.drop_last(), j, k, target);
    }
}

/// If no stored term names `target`, no reference to it is stored.
pub proof fn lemma_term_refs_none(wires: Seq<VirtualWire>, target: int)
    requires
        forall|j: int, k: int|
            0 <= j < wires.len() && 0 <= k < wires[j].terms@.len() ==> slot_of((#[trigger] wires[j].terms@[k]).0) != target,
    ensures
        term_refs(wires, target) == 0,
    decreases wires.len(),
{
    if wires.len() > 0 {
        let rest = wires.drop_last();
        assert forall|j: int, k: int|
            0 <= j < rest.len() && 0 <= k < rest[j].terms@.len() implies slot_of((#[trigger] rest[j].terms@[k]).0) != target by {
            assert(rest[j] == wires[j]);
        }
        lemma_term_refs_none(rest, target);
        let last = wires.last().terms@;
        assert forall|k: int| 0 <= k < last.len() implies slot_of((#[trigger] last[k]).0) != target by {
            assert(last[k] == wires[wires.len() - 1].terms@[k]);
        }
        lemma_count_refs_none(last, target);
    }
}

/// If a stored reference to `target` exists, some stored term names it.
pub proof fn lemma_term_refs_witness(wires: Seq<VirtualWire>, target: int) -> (r: (int, int))
    requires
        term_refs(wires, target) > 0,
    ensures
        0 <= r.0 < wires.len(),
        0 <= r.1 < wires[r.0].terms@.len(),
        slot_of(wires[r.0].terms@[r.1].0) == target,
{
    if forall|j: int, k: int|
        0 <= j < wires.len() && 0 <= k < wires[j].terms@.len() ==> slot_of((#[trigger] wires[j].terms@[k]).0) != target {
        lemma_term_refs_none(wires, target);
        (0, 0)
    } else {
        choose|j: int, k: int|
            0 <= j < wires.len() && 0 <= k < wires[j].terms@.len() && slot_of((#[trigger] wires[j].terms@[k]).0) == target
    }
}

/// The stored references to one slot are no more than the terms that the
/// table can hold.
pub proof fn lemma_term_refs_bound(wires: Seq<VirtualWire>, target: int)
    requires
        forall|j: int| 0 <= j < wires.len() ==> (#[trigger] wires[j]).terms@.len() <= usize::MAX,
    ensures
        term_refs(wires, target) <= wires.len() * usize::MAX,
    decreases wires.len(),
{
    if wires.len() > 0 {
        let rest = wires.drop_last();
        assert forall|j: int| 0 <= j < rest.len() implies (#[trigger] rest[j]).terms@.len()
            <= usize::MAX by {
            assert(rest[j] == wires[j]);
        }
        lemma_term_refs_bound(rest, target);
        lemma_count_refs_bound(wires.last().terms@, target);
        assert(wires.last() == wires[wires.len() - 1]);
        assert(rest.len() * usize::MAX + usize::MAX == wires.len() * usize::MAX)
            by (nonlinear_arith)
            requires
                rest.len() + 1 == wires.len(),
        ;
    }
}

pub proof fn lemma_refcount_sum_update(wires: Seq<VirtualWire>, j: int, w: VirtualWire)
    requires
        0 <= j < wires.len(),
    ensures
        refcount_sum(wires.update(j, w)) + wires[j].refcount == refcount_sum(wires) + w.refcount,
    decreases wires.len(),
{
    if j == wires.len() - 1 {
        assert(wires.update(j, w).drop_last() =~= wires.drop_last());
    } else {
        lemma_refcount_sum_update(wires.drop_last(), j, w);
        assert(wires.update(j, w).drop_last() =~= wires.drop_last().update(j, w));
    }
}

/// `depth_above` is greater than the depth of every slot that the terms
/// name.
pub proof fn lemma_depth_above(depth: Seq<nat>, terms: Seq<Term>, k: int)
    requires
        0 <= k < terms.len(),
    ensures
        terms[k].0 matches WireIndex::Virtual(j) ==> j < depth.len() ==> depth[j as int]
            < depth_above(depth, terms),
        depth_above(depth, terms.drop_last()) <= depth_above(depth, terms),
    decreases terms.len(),
{
    if k < terms.len() - 1 {
        lemma_depth_above(depth, terms.drop_last(), k);
    }
}

/// Slots that differ in nothing but counts and values store the same
/// references.
pub proof fn lemma_term_refs_same(before: Seq<VirtualWire>, after: Seq<VirtualWire>, target: int)
    requires
        before.len() == after.len(),
        forall|j: int| 0 <= j < before.len() ==> (#[trigger] after[j]).terms@ == before[j].terms@,
    ensures
        term_refs(after, target) == term_refs(before, target),
    decreases before.len(),
{
    if before.len() > 0 {
        let b = before.drop_last();
        let a = after.drop_last();
        assert forall|j: int| 0 <= j < b.len() implies (#[trigger] a[j]).terms@ == b[j].terms@ by {
            assert(a[j] == after[j]);
            assert(b[j] == before[j]);
        }
        lemma_term_refs_same(b, a, target);
        assert(after.last() == after[after.len() - 1]);
    }
}

/// Slots with the same counts have the same sum of counts.
pub proof fn lemma_refcount_sum_same(before: Seq<VirtualWire>, after: Seq<VirtualWire>)
    requires
        before.len() == after.len(),
        forall|j: int| 0 <= j < before.len() ==> (#[trigger] after[j]).refcount == before[j].refcount,
    ensures
        refcount_sum(after) == refcount_sum(before),
    decreases before.len(),
{
    if before.len() > 0 {
        let b = before.drop_last();
        let a = after.drop_last();
        assert forall|j: int| 0 <= j < b.len() implies (#[trigger] a[j]).refcount
            == b[j].refcount by {
            assert(a[j] == after[j]);
            assert(b[j] == before[j]);
        }
        lemma_refcount_sum_same(b, a);
        assert(after.last() == after[after.len() - 1]);
    }
}

/// The references held outside the table after one reference to `index` has
/// been given up.
pub open spec fn released(extra: Seq<nat>, index: WireIndex) -> Seq<nat> {
    Seq::new(
        extra.len(),
        |i: int|
            if slot_of(index) == i && extra[i] >= 1 {
                (extra[i] - 1) as nat
            } else {
                extra[i]
            },
    )
}

impl VirtualTable {
    /// The wire exists: its gate has been allocated, or its slot is in the
    /// table.
    pub open spec fn in_range(&self, index: WireIndex) -> bool {
        match index {
            WireIndex::A(i) => i < self.sy.a@.len(),
            WireIndex::B(i) => i < self.sy.b@.len(),
            WireIndex::C(i) => i < self.sy.c@.len(),
            WireIndex::Virtual(i) => i < self.wires@.len(),
        }
    }

    /// Every term names a wire that exists and has a canonical coefficient.
    pub open spec fn terms_ok(&self, terms: Seq<Term>) -> bool {
        forall|k: int|
            0 <= k < terms.len() ==> self.in_range((#[trigger] terms[k]).0) && terms[k].1.wf()
    }

    /// Every slot that the terms name has a depth below `bound`.
    pub open spec fn below(&self, terms: Seq<Term>, bound: nat) -> bool {
        forall|k: int|
            0 <= k < terms.len() ==> ((#[trigger] terms[k]).0 matches WireIndex::Virtual(j)
                ==> j < self.depth@.len() && self.depth@[j as int] < bound)
    }

    /// What holds of the slot `i`, where `pending` are the slots that are
    /// being resolved and `extra` counts the references held outside the
    /// table.
    pub open spec fn slot_ok(&self, i: int, pending: Set<int>, extra: Seq<nat>) -> bool {
        let w = self.wires@[i];
        &&& w.refcount == w.handles + term_refs(self.wires@, i) + extra[i]
        &&& w.terms@.len() <= usize::MAX
        &&& self.terms_ok(w.terms@)
        &&& self.below(w.terms@, self.depth@[i])
        &&& w.value.wf()
        &&& (w.refcount == 0 ==> w.terms@.len() == 0)
        &&& (w.refcount == 0 && !pending.contains(i) ==> w.value is Zero && listed(self.free@, i))
        &&& (pending.contains(i) ==> w.refcount == 0)
    }

    /// The free list names each free slot once, and nothing else.
    pub open spec fn free_ok(&self, pending: Set<int>) -> bool {
        &&& self.free@.no_duplicates()
        &&& forall|k: int|
            0 <= k < self.free@.len() ==> {
                let i = #[trigger] self.free@[k];
                &&& i < self.wires@.len()
                &&& self.wires@[i as int].refcount == 0
                &&& !pending.contains(i as int)
            }
    }

    /// The table is consistent, but for the slots in `pending`, which are
    /// being resolved, and the references in `extra`, which are counted but
    /// held outside the table.
    pub open spec fn inv(&self, pending: Set<int>, extra: Seq<nat>) -> bool {
        &&& self.depth@.len() == self.wires@.len()
        &&& extra.len() == self.wires@.len()
        &&& self.sy.wf()
        &&& self.sy.a@.len() == self.sy.b@.len()
        &&& self.sy.b@.len() == self.sy.c@.len()
        &&& forall|i: int|
            0 <= i < self.wires@.len() ==> #[trigger] self.slot_ok(i, pending, extra)
        &&& self.free_ok(pending)
    }

    /// The table is consistent: each slot counts its handles and the stored
    /// terms that name it, and the free list holds exactly the slots that
    /// nothing refers to, each of them cleared.
    pub open spec fn wf(&self) -> bool {
        self.inv(Set::empty(), no_extra(self.wires@.len()))
    }

    /// The number of gates whose coefficients the polynomial holds.
    pub open spec fn gates(&self) -> nat {
        self.sy.a@.len()
    }

    /// Changing the collected value of a slot that is referred to, or a
    /// coefficient of the polynomial, keeps the table consistent.
    pub proof fn lemma_inv_after_value(
        before: VirtualTable,
        after: VirtualTable,
        pending: Set<int>,
        extra: Seq<nat>,
    )
        requires
            before.inv(pending, extra),
            after.depth == before.depth,
            after.free == before.free,
            after.wires@.len() == before.wires@.len(),
            after.sy.wf(),
            after.sy.a@.len() == before.sy.a@.len(),
            after.sy.b@.len() == before.sy.b@.len(),
            after.sy.c@.len() == before.sy.c@.len(),
            forall|j: int|
                0 <= j < before.wires@.len() ==> {
                    &&& (#[trigger] after.wires@[j]).refcount == before.wires@[j].refcount
                    &&& after.wires@[j].handles == before.wires@[j].handles
                    &&& after.wires@[j].terms@ == before.wires@[j].terms@
                    &&& (after.wires@[j].value != before.wires@[j].value
                        ==> before.wires@[j].refcount > 0 && after.wires@[j].value.wf())
                },
        ensures
            after.inv(pending, extra),
    {
        assert forall|i: int| 0 <= i < after.wires@.len() implies #[trigger] after.slot_ok(
            i,
            pending,
            extra,
        ) by {
            assert(before.slot_ok(i, pending, extra));
            lemma_term_refs_same(before.wires@, after.wires@, i);
            assert(after.wires@[i].terms@ == before.wires@[i].terms@);
        }
        assert forall|k: int| 0 <= k < after.free@.len() implies {
            let i = #[trigger] after.free@[k];
            &&& i < after.wires@.len()
            &&& after.wires@[i as int].refcount == 0
            &&& !pending.contains(i as int)
        } by {
            let i = before.free@[k];
            assert(after.wires@[i as int].refcount == before.wires@[i as int].refcount);
        }
    }

    /// Adds `value` to what the wire has collected: to its coefficient in
    /// the polynomial, or to the running value of its slot.
    pub fn add(&mut self, index: WireIndex, value: Coeff)
        requires
            old(self).in_range(index),
            value.wf(),
            old(self).sy.wf(),
            index matches WireIndex::Virtual(i) ==> old(self).wires@[i as int].value.wf(),
        ensures
            final(self).depth == old(self).depth,
            final(self).free == old(self).free,
            final(self).wires@.len() == old(self).wires@.len(),
            final(self).sy.wf(),
            final(self).sy.a@.len() == old(self).sy.a@.len(),
            final(self).sy.b@.len() == old(self).sy.b@.len(),
            final(self).sy.c@.len() == old(self).sy.c@.len(),
            forall|j: int|
                0 <= j < old(self).wires@.len() && slot_of(index) != j ==> (
                #[trigger] final(self).wires@[j]) == old(self).wires@[j],
            forall|j: int|
                0 <= j < old(self).sy.a@.len() && left_of(index) != j ==> (
                #[trigger] final(self).sy.a@[j]) == old(self).sy.a@[j],
            forall|j: int|
                0 <= j < old(self).sy.b@.len() && right_of(index) != j ==> (
                #[trigger] final(self).sy.b@[j]) == old(self).sy.b@[j],
            forall|j: int|
                0 <= j < old(self).sy.c@.len() && output_of(index) != j ==> (
                #[trigger] final(self).sy.c@[j]) == old(self).sy.c@[j],
            match index {
                WireIndex::A(i) => final(self).sy.a@[i as int]@ == (old(self).sy.a@[i as int]@
                    + value.val()) % crate::field::modulus(),
                WireIndex::B(i) => final(self).sy.b@[i as int]@ == (old(self).sy.b@[i as int]@
                    + value.val()) % crate::field::modulus(),
                WireIndex::C(i) => final(self).sy.c@[i as int]@ == (old(self).sy.c@[i as int]@
                    + value.val()) % crate::field::modulus(),
                WireIndex::Virtual(i) => {
                    let before = old(self).wires@[i as int];
                    let after = final(self).wires@[i as int];
                    &&& after.refcount == before.refcount
                    &&& after.handles == before.handles
                    &&& after.terms == before.terms
                    &&& after.value.wf()
                    &&& after.value.val() == (before.value.val() + value.val())
                        % crate::field::modulus()
                },
            },
            Self::added(*old(self), *final(self), index, value.val()),
    {
        let ghost before = *self;
        match index {
            WireIndex::A(i) => {
                let sum = self.sy.a[i].add(&value.value());
                self.sy.a[i] = sum;
            },
            WireIndex::B(i) => {
                let sum = self.sy.b[i].add(&value.value());
                self.sy.b[i] = sum;
            },
            WireIndex::C(i) => {
                let sum = self.sy.c[i].add(&value.value());
                self.sy.c[i] = sum;
            },
            WireIndex::Virtual(i) => {
                let sum = self.wires[i].value.add(&value);
                self.wires[i].value = sum;
            },
        }
        proof {
            let after = *self;
            assert forall|place: Place| before.has(place) implies #[trigger] after.holds(place)
                == if at(index, place) {
                (before.holds(place) + value.val()) % modulus()
            } else {
                before.holds(place)
            } by {
                match place {
                    Place::A(j) => {
                        if left_of(index) != j {
                            assert(after.sy.a@[j] == before.sy.a@[j]);
                        }
                    },
                    Place::B(j) => {
                        if right_of(index) != j {
                            assert(after.sy.b@[j] == before.sy.b@[j]);
                        }
                    },
                    Place::C(j) => {
                        if output_of(index) != j {
                            assert(after.sy.c@[j] == before.sy.c@[j]);
                        }
                    },
                    Place::Slot(j) => {
                        if slot_of(index) != j {
                            assert(after.wires@[j] == before.wires@[j]);
                        }
                    },
                }
            }
        }
    }

    /// Takes a slot for a new virtual wire: the free slot that was given
    /// back last, or a new slot if none is free. The slot starts with one
    /// handle, which the caller now holds, and with no terms.
    pub fn allocate(&mut self) -> (index: WireIndex)
        requires
            old(self).wf(),
        ensures
            final(self).wf(),
            final(self).sy == old(self).sy,
            final(self).depth == old(self).depth || final(self).depth@ == old(self).depth@.push(0),
            index matches WireIndex::Virtual(i) && {
                &&& i < final(self).wires@.len()
                &&& final(self).wires@[i as int].refcount == 1
                &&& final(self).wires@[i as int].handles == 1
                &&& final(self).wires@[i as int].terms@.len() == 0
                &&& final(self).wires@[i as int].value is Zero
                &&& forall|j: int|
                    0 <= j < old(self).wires@.len() && j != i ==> (#[trigger] final(self).wires@[j]) == old(self).wires@[j]
                &&& if old(self).free@.len() > 0 {
                    &&& i == old(self).free@.last()
                    &&& old(self).wires@[i as int].handles == 0
                    &&& old(self).wires@[i as int].refcount == 0
                    &&& final(self).free@ == old(self).free@.drop_last()
                    &&& final(self).wires@.len() == old(self).wires@.len()
                } else {
                    &&& i == old(self).wires@.len()
                    &&& final(self).free@ == old(self).free@
                    &&& final(self).wires@.len() == old(self).wires@.len() + 1
                }
            },
    {
        let ghost before = *self;
        let ghost n = self.wires@.len();
        match self.free.pop() {
            Some(index) => {
                proof {
                    assert(before.free@[before.free@.len() - 1] == index);
                    assert(before.slot_ok(index as int, Set::empty(), no_extra(n)));
                }
                self.wires[index].refcount = 1;
                self.wires[index].handles = 1;
                proof {
                    let after = *self;
                    assert forall|i: int| 0 <= i < n implies #[trigger] after.slot_ok(
                        i,
                        Set::empty(),
                        no_extra(n),
                    ) by {
                        assert(before.slot_ok(i, Set::empty(), no_extra(n)));
                        lemma_term_refs_same(before.wires@, after.wires@, i);
                        if i != index && after.wires@[i].refcount == 0 {
                            let k = choose|k: int|
                                0 <= k < before.free@.len() && #[trigger] before.free@[k] == i;
                            assert(k != before.free@.len() - 1);
                            assert(after.free@[k] == i);
                        }
                    }
                    assert forall|k: int| 0 <= k < after.free@.len() implies {
                        let i = #[trigger] after.free@[k];
                        &&& i < after.wires@.len()
                        &&& after.wires@[i as int].refcount == 0
                    } by {
                        assert(before.free@[k] == after.free@[k]);
                        assert(before.free@[k] != before.free@[before.free@.len() - 1]);
                    }
                }
                WireIndex::Virtual(index)
            },
            None => {
                let index = self.wires.len();
                self.wires.push(
                    VirtualWire { refcount: 1, handles: 1, terms: Vec::new(), value: Coeff::Zero },
                );
                self.depth = Ghost(self.depth@.push(0));
                proof {
                    let after = *self;
                    assert(after.wires@.drop_last() =~= before.wires@);
                    assert forall|j: int, k: int|
                        0 <= j < after.wires@.len() && 0 <= k < after.wires@[j].terms@.len() implies (
                    #[trigger] after.wires@[j].terms@[k]).0 != WireIndex::Virtual(index) by {
                        assert(before.slot_ok(j, Set::empty(), no_extra(n)));
                        assert(before.in_range(before.wires@[j].terms@[k].0));
                    }
                    lemma_term_refs_none(after.wires@, index as int);
                    assert forall|i: int| 0 <= i < n + 1 implies #[trigger] after.slot_ok(
                        i,
                        Set::empty(),
                        no_extra(n + 1),
                    ) by {
                        if i < n {
                            assert(before.slot_ok(i, Set::empty(), no_extra(n)));
                            lemma_term_refs_push(before.wires@, after.wires@[n as int], i);
                            assert(after.wires@ =~= before.wires@.push(after.wires@[n as int]));
                            assert(before.terms_ok(before.wires@[i].terms@));
                            assert(before.below(before.wires@[i].terms@, before.depth@[i]));
                        }
                    }
                }
                WireIndex::Virtual(index)
            },
        }
    }

    /// Counts one more reference to the wire, if it is a slot.
    pub fn increment_refcount(&mut self, index: WireIndex)
        requires
            old(self).in_range(index),
            index matches WireIndex::Virtual(i) ==> old(self).wires@[i as int].refcount
                < u128::MAX,
        ensures
            final(self).depth == old(self).depth,
            final(self).free == old(self).free,
            final(self).sy == old(self).sy,
            final(self).wires@.len() == old(self).wires@.len(),
            forall|j: int|
                0 <= j < old(self).wires@.len() && slot_of(index) != j ==> (
                #[trigger] final(self).wires@[j]) == old(self).wires@[j],
            index matches WireIndex::Virtual(i) ==> {
                let before = old(self).wires@[i as int];
                let after = final(self).wires@[i as int];
                &&& after.refcount == before.refcount + 1
                &&& after.handles == before.handles
                &&& after.terms == before.terms
                &&& after.value == before.value
            },
    {
        if let WireIndex::Virtual(i) = index {
            self.wires[i].refcount += 1;
        }
    }

    /// Counting a reference that is held outside the table keeps the table
    /// consistent.
    pub proof fn lemma_inv_after_increment(
        before: VirtualTable,
        after: VirtualTable,
        pending: Set<int>,
        extra: Seq<nat>,
        i: int,
    )
        requires
            before.inv(pending, extra),
            0 <= i < before.wires@.len(),
            before.wires@[i].refcount > 0,
            after.depth == before.depth,
            after.free == before.free,
            after.sy == before.sy,
            after.wires@.len() == before.wires@.len(),
            forall|j: int|
                0 <= j < before.wires@.len() && j != i ==> (#[trigger] after.wires@[j])
                    == before.wires@[j],
            after.wires@[i].refcount == before.wires@[i].refcount + 1,
            after.wires@[i].handles == before.wires@[i].handles,
            after.wires@[i].terms == before.wires@[i].terms,
            after.wires@[i].value == before.wires@[i].value,
        ensures
            after.inv(pending, extra.update(i, extra[i] + 1)),
    {
        let extra2 = extra.update(i, extra[i] + 1);
        assert forall|k: int| 0 <= k < after.wires@.len() implies #[trigger] after.slot_ok(
            k,
            pending,
            extra2,
        ) by {
            assert(before.slot_ok(k, pending, extra));
            lemma_term_refs_same(before.wires@, after.wires@, k);
        }
        assert forall|k: int| 0 <= k < after.free@.len() implies {
            let f = #[trigger] after.free@[k];
            &&& f < after.wires@.len()
            &&& after.wires@[f as int].refcount == 0
            &&& !pending.contains(f as int)
        } by {
            let f = before.free@[k];
            assert(f != i);
        }
    }

    /// Stores the terms of a virtual wire that was just allocated. The
    /// references that the terms hold have been counted already.
    pub fn update(&mut self, index: WireIndex, terms: Vec<Term>)
        requires
            index matches WireIndex::Virtual(i) && {
                &&& i < old(self).wires@.len()
                &&& old(self).wires@[i as int].terms@.len() == 0
                &&& old(self).wires@[i as int].refcount == old(self).wires@[i as int].handles
                &&& old(self).wires@[i as int].refcount > 0
            },
            old(self).inv(Set::empty(), terms_extra(old(self).wires@.len(), terms@)),
            old(self).terms_ok(terms@),
        ensures
            final(self).wf(),
            final(self).sy == old(self).sy,
            final(self).free == old(self).free,
            final(self).wires@.len() == old(self).wires@.len(),
            final(self).depth@.len() == old(self).depth@.len(),
            index matches WireIndex::Virtual(i) && {
                &&& final(self).wires@[i as int].terms == terms
                &&& final(self).wires@[i as int].refcount == old(self).wires@[i as int].refcount
                &&& final(self).wires@[i as int].handles == old(self).wires@[i as int].handles
                &&& final(self).wires@[i as int].value == old(self).wires@[i as int].value
                &&& forall|j: int|
                    0 <= j < old(self).wires@.len() && j != i ==> (#[trigger] final(self).wires@[j]) == old(self).wires@[j] && final(self).depth@[j] == old(self).depth@[j]
            },
    {
        let ghost before = *self;
        let ghost n = self.wires@.len();
        let ghost extra = terms_extra(n, terms@);
        let length = terms.len();
        match index {
            WireIndex::Virtual(i) => {
                proof {
                    assert(before.slot_ok(i as int, Set::empty(), extra));
                }
                self.depth = Ghost(self.depth@.update(i as int, depth_above(self.depth@, terms@)));
                self.wires[i].terms = terms;
                proof {
                    let after = *self;
                    assert forall|k: int| 0 <= k < n implies #[trigger] after.slot_ok(
                        k,
                        Set::empty(),
                        no_extra(n),
                    ) by {
                        assert(before.slot_ok(k, Set::empty(), extra));
                        lemma_term_refs_update(before.wires@, i as int, after.wires@[i as int], k);
                        assert(after.wires@ =~= before.wires@.update(
                            i as int,
                            after.wires@[i as int],
                        ));
                        lemma_count_refs_none(before.wires@[i as int].terms@, k);
                        let ts = after.wires@[k].terms@;
                        assert forall|m: int| 0 <= m < ts.len() implies after.in_range(
                            (#[trigger] ts[m]).0,
                        ) && ts[m].1.wf() by {
                            if k != i {
                                assert(before.terms_ok(before.wires@[k].terms@));
                            }
                        }
                        assert forall|m: int| 0 <= m < ts.len() implies ((
                        #[trigger] ts[m]).0 matches WireIndex::Virtual(j) ==> j
                            < after.depth@.len() && after.depth@[j as int] < after.depth@[k]) by {
                            if let WireIndex::Virtual(j) = ts[m].0 {
                                if k == i {
                                    lemma_depth_above(before.depth@, terms@, m);
                                    // the terms do not name the slot itself
                                    lemma_count_refs_member(terms@, m, j as int);
                                    assert(extra[j as int] >= 1);
                                    assert(before.slot_ok(j as int, Set::empty(), extra));
                                } else {
                                    assert(before.below(
                                        before.wires@[k].terms@,
                                        before.depth@[k],
                                    ));
                                    // nothing stored names the slot `i`
                                    lemma_term_refs_member(before.wires@, k, m, j as int);
                                }
                            }
                        }
                    }
                    assert forall|k: int| 0 <= k < after.free@.len() implies {
                        let f = #[trigger] after.free@[k];
                        &&& f < after.wires@.len()
                        &&& after.wires@[f as int].refcount == 0
                    } by {
                        let f = before.free@[k];
                        assert(f != i);
                    }
                }
            },
            _ => {},
        }
    }

    /// Gives up one reference to the wire. If it was the last one, the slot
    /// resolves: what it collected is handed on to each of its terms, whose
    /// references are given up in turn, and the cleared slot goes to the
    /// free list. While other references are left, nothing but the count
    /// changes; for a wire of a gate nothing changes at all.
    ///
    /// The reference that is given up must be one that is counted and
    /// held outside the table: a slot that nothing refers to cannot be
    /// freed.
    pub fn free(&mut self, index: WireIndex)
        requires
            old(self).in_range(index),
            old(self).inv(Set::empty(), one_extra(old(self).wires@.len(), index)),
        ensures
            final(self).wf(),
            final(self).depth == old(self).depth,
            final(self).wires@.len() == old(self).wires@.len(),
            final(self).sy.a@.len() == old(self).sy.a@.len(),
            final(self).free@.len() >= old(self).free@.len(),
            refcount_sum(final(self).wires@) <= refcount_sum(old(self).wires@),
            forall|j: int|
                0 <= j < old(self).wires@.len() ==> (#[trigger] final(self).wires@[j]).handles
                    == old(self).wires@[j].handles,
            kept(old(self).wires@, final(self).wires@),
            forall|target: WireIndex|
                cong(#[trigger] final(self).pending(target), old(self).pending(target)),
            !(index is Virtual) ==> *final(self) == *old(self),
            index is Virtual && old(self).wires@[slot_of(index)].refcount > 1 ==> Self::recounted(
                *old(self),
                *final(self),
                slot_of(index),
                0,
                -1,
            ),
            index is Virtual && old(self).wires@[slot_of(index)].refcount == 1 ==> {
                let after = final(self).wires@[slot_of(index)];
                &&& after.refcount == 0
                &&& after.terms@.len() == 0
                &&& after.value is Zero
                &&& final(self).free@.last() == slot_of(index)
            },
            final(self).model() == old(self).model().freed(index, refcount_sum(old(self).wires@)),
    {
        let ghost n = self.wires@.len();
        self.free_inner(
            index,
            Ghost(Set::empty()),
            Ghost(one_extra(n, index)),
            Ghost(refcount_sum(self.wires@)),
        );
        proof {
            assert(released(one_extra(n, index), index) =~= no_extra(n));
        }
    }

    #[verifier::rlimit(100)]
    fn free_inner(
        &mut self,
        index: WireIndex,
        Ghost(pending): Ghost<Set<int>>,
        Ghost(extra): Ghost<Seq<nat>>,
        Ghost(fuel): Ghost<nat>,
    )
        requires
            old(self).in_range(index),
            old(self).inv(pending, extra),
            index matches WireIndex::Virtual(i) ==> extra[i as int] >= 1,
            fuel >= refcount_sum(old(self).wires@),
        ensures
            final(self).model() == old(self).model().freed(index, fuel),
            final(self).inv(pending, released(extra, index)),
            final(self).depth == old(self).depth,
            final(self).wires@.len() == old(self).wires@.len(),
            final(self).sy.a@.len() == old(self).sy.a@.len(),
            final(self).free@.len() >= old(self).free@.len(),
            refcount_sum(final(self).wires@) <= refcount_sum(old(self).wires@),
            index is Virtual ==> refcount_sum(final(self).wires@) < refcount_sum(
                old(self).wires@,
            ),
            forall|j: int|
                0 <= j < old(self).wires@.len() ==> (#[trigger] final(self).wires@[j]).handles
                    == old(self).wires@[j].handles,
            kept(old(self).wires@, final(self).wires@),
            forall|target: WireIndex|
                cong(#[trigger] final(self).pending(target), old(self).pending(target)),
            !(index is Virtual) ==> *final(self) == *old(self),
            index is Virtual && old(self).wires@[slot_of(index)].refcount > 1 ==> Self::recounted(
                *old(self),
                *final(self),
                slot_of(index),
                0,
                -1,
            ),
            index is Virtual && old(self).wires@[slot_of(index)].refcount == 1 ==> {
                let after = final(self).wires@[slot_of(index)];
                &&& after.refcount == 0
                &&& after.terms@.len() == 0
                &&& after.value is Zero
                &&& final(self).free@.last() == slot_of(index)
            },
        decreases refcount_sum(old(self).wires@),
    {
        let ghost n = self.wires@.len();
        let ghost entry = *self;
        let ghost extra0 = released(extra, index);
        if let WireIndex::Virtual(index) = index {
            let ghost bound0 = entry.depth@[index as int];
            proof {
                assert(entry.slot_ok(index as int, pending, extra));
            }
            self.wires[index].refcount -= 1;
            proof {
                let after = *self;
                lemma_refcount_sum_update(entry.wires@, index as int, after.wires@[index as int]);
                assert(after.wires@ =~= entry.wires@.update(
                    index as int,
                    after.wires@[index as int],
                ));
                assert forall|i: int| 0 <= i < n implies {
                    &&& term_refs(after.wires@, i) == term_refs(entry.wires@, i)
                    &&& after.terms_ok(after.wires@[i].terms@)
                    &&& after.below(after.wires@[i].terms@, after.depth@[i])
                } by {
                    assert(entry.slot_ok(i, pending, extra));
                    lemma_term_refs_same(entry.wires@, after.wires@, i);
                }
            }
            if self.wires[index].refcount == 0 {
                let ghost pending2 = pending.insert(index as int);
                let ghost middle = *self;
                let mut terms: Vec<Term> = Vec::new();
                core::mem::swap(&mut terms, &mut self.wires[index].terms);
                let value = self.wires[index].value;
                let length = terms.len();
                proof {
                    let after = *self;
                    assert(after.wires@ =~= middle.wires@.update(
                        index as int,
                        after.wires@[index as int],
                    ));
                    lemma_refcount_sum_update(
                        middle.wires@,
                        index as int,
                        after.wires@[index as int],
                    );
                    assert(terms@.subrange(0, length as int) =~= terms@);
                    let cur = Seq::new(n, |i: int| extra0[i] + count_refs(terms@, i));
                    assert forall|i: int| 0 <= i < n implies #[trigger] after.slot_ok(
                        i,
                        pending2,
                        cur,
                    ) by {
                        assert(entry.slot_ok(i, pending, extra));
                        lemma_term_refs_update(
                            middle.wires@,
                            index as int,
                            after.wires@[index as int],
                            i,
                        );
                    }
                    assert forall|k: int| 0 <= k < after.free@.len() implies {
                        let f = #[trigger] after.free@[k];
                        &&& f < after.wires@.len()
                        &&& after.wires@[f as int].refcount == 0
                        &&& !pending2.contains(f as int)
                    } by {
                        let f = entry.free@[k];
                        assert(f != index);
                    }
                }
                proof {
                    let after = *self;
                    crate::wiring::lemma_within_all_but(entry, pending, extra, index as int);
                    assert(terms@ == entry.wires@[index as int].terms@);
                    assert(entry.below(terms@, bound0));
                    assert forall|target: WireIndex|
                        cong(
                            #[trigger] after.pending(target) + value.val() * after.weights(
                                terms@.subrange(0, length as int),
                                bound0,
                                target,
                            ),
                            entry.pending(target),
                        ) by {
                        Self::lemma_pending_take(
                            entry,
                            after,
                            pending,
                            extra,
                            index as int,
                            terms@,
                            bound0,
                            target,
                        );
                    }
                }
                let ghost taken = *self;
                let ghost goal = taken.model().handed(terms@, value.val(), (fuel - 1) as nat);
                proof {
                    let slot = entry.model().slots[index as int];
                    let want = Table {
                        slots: entry.model().slots.update(
                            index as int,
                            Slot { refcount: 0, terms: Seq::empty(), ..slot },
                        ),
                        ..entry.model()
                    };
                    assert(taken.wires@[index as int].terms@ =~= Seq::<Term>::empty());
                    assert forall|j: int| 0 <= j < n implies #[trigger] taken.slot(j)
                        == want.slots[j] by {
                        if j != index {
                            assert(taken.wires@[j] == entry.wires@[j]);
                        }
                    }
                    Self::lemma_model_same(taken, want);
                    assert(terms@.subrange(0, length as int) =~= terms@);
                    assert(fuel >= 1);
                }
                let mut k: usize = 0;
                while k < length
                    invariant
                        0 <= k <= length,
                        length == terms@.len(),
                        index < n,
                        fuel >= 1,
                        fuel - 1 >= refcount_sum(self.wires@),
                        self.model().handed(
                            terms@.subrange(k as int, length as int),
                            value.val(),
                            (fuel - 1) as nat,
                        ) == goal,
                        entry == *old(self),
                        entry.wires@.len() == n,
                        bound0 == entry.depth@[index as int],
                        kept(entry.wires@, self.wires@),
                        self.below(terms@, bound0),
                        forall|target: WireIndex|
                            cong(
                                #[trigger] self.pending(target) + value.val() * self.weights(
                                    terms@.subrange(k as int, length as int),
                                    bound0,
                                    target,
                                ),
                                entry.pending(target),
                            ),
                        n == self.wires@.len(),
                        extra0.len() == n,
                        pending2 == pending.insert(index as int),
                        !pending.contains(index as int),
                        value.wf(),
                        self.terms_ok(terms@),
                        self.inv(
                            pending2,
                            Seq::new(
                                n,
                                |i: int| extra0[i] + count_refs(terms@.subrange(k as int, length as int), i),
                            ),
                        ),
                        self.depth == entry.depth,
                        self.sy.a@.len() == entry.sy.a@.len(),
                        self.free@.len() >= entry.free@.len(),
                        refcount_sum(self.wires@) < refcount_sum(entry.wires@),
                        forall|j: int|
                            0 <= j < n ==> (#[trigger] self.wires@[j]).handles
                                == entry.wires@[j].handles,
                    decreases length - k,
                {
                    let ghost cur = Seq::new(
                        n,
                        |i: int| extra0[i] + count_refs(terms@.subrange(k as int, length as int), i),
                    );
                    let ghost rest = terms@.subrange(k as int, length as int);
                    let ghost before = *self;
                    let (wire, coeff) = terms[k];
                    proof {
                        assert(rest[0] == terms@[k as int]);
                        assert(self.in_range(terms@[k as int].0));
                        assert(before.slot_ok(index as int, pending2, cur));
                        if let WireIndex::Virtual(t) = wire {
                            lemma_count_refs_first(rest, t as int);
                            assert(before.slot_ok(t as int, pending2, cur));
                        }
                    }
                    let share = value.mul(&coeff);
                    self.add(wire, share);
                    let ghost mid = *self;
                    proof {
                        Self::lemma_inv_after_value(before, *self, pending2, cur);
                        lemma_refcount_sum_same(before.wires@, self.wires@);
                    }
                    self.free_inner(wire, Ghost(pending2), Ghost(cur), Ghost((fuel - 1) as nat));
                    proof {
                        Self::lemma_model_put(before, mid, wire, share.val());
                        assert(rest.drop_first() =~= terms@.subrange(k as int + 1, length as int));
                        assert(rest[0] == terms@[k as int]);
                        assert(before.model().handed(rest, value.val(), (fuel - 1) as nat)
                            == before.model().put(wire, share.val()).freed(
                            wire,
                            (fuel - 1) as nat,
                        ).handed(rest.drop_first(), value.val(), (fuel - 1) as nat));
                    }
                    proof {
                        let next = Seq::new(
                            n,
                            |i: int|
                                extra0[i] + count_refs(
                                    terms@.subrange(k as int + 1, length as int),
                                    i,
                                ),
                        );
                        assert(rest.drop_first() =~= terms@.subrange(k as int + 1, length as int));
                        assert forall|i: int| 0 <= i < n implies released(cur, wire)[i]
                            == next[i] by {
                            lemma_count_refs_first(rest, i);
                        }
                        assert(released(cur, wire) =~= next);
                        assert(self.slot_ok(index as int, pending2, next));
                        assert forall|m: int| 0 <= m < terms@.len() implies self.in_range(
                            (#[trigger] terms@[m]).0,
                        ) && terms@[m].1.wf() by {
                            assert(before.in_range(terms@[m].0));
                        }
                    }
                    proof {
                        let after = *self;
                        let next = Seq::new(
                            n,
                            |i: int|
                                extra0[i] + count_refs(
                                    terms@.subrange(k as int + 1, length as int),
                                    i,
                                ),
                        );
                        let later = terms@.subrange(k as int + 1, length as int);
                        assert(rest.drop_first() =~= later);
                        assert(before.terms_ok(later)) by {
                            assert forall|m: int| 0 <= m < later.len() implies before.in_range(
                                (#[trigger] later[m]).0,
                            ) && later[m].1.wf() by {
                                assert(later[m] == terms@[k as int + 1 + m]);
                            }
                        }
                        assert(within(later, referred(after.wires@))) by {
                            assert forall|m: int|
                                0 <= m < later.len() && (#[trigger] later[m]).0
                                    is Virtual implies referred(after.wires@).contains(
                                slot_of(later[m].0),
                            ) by {
                                assert(later[m] == terms@[k as int + 1 + m]);
                                assert(before.in_range(terms@[k as int + 1 + m].0));
                                let j = slot_of(later[m].0);
                                lemma_count_refs_member(later, m, j);
                                assert(after.slot_ok(j, pending2, next));
                            }
                        }
                        assert(terms@[k as int].0 matches WireIndex::Virtual(j) ==> j < n
                            && before.depth@[j as int] < bound0);
                        assert(kept(entry.wires@, after.wires@)) by {
                            assert forall|j: int| 0 <= j < n implies {
                                &&& (#[trigger] after.wires@[j]).refcount <= entry.wires@[j].refcount
                                &&& (after.wires@[j].refcount > 0 ==> after.wires@[j].terms@
                                    == entry.wires@[j].terms@)
                            } by {
                                assert(mid.wires@[j].refcount == before.wires@[j].refcount);
                                assert(mid.wires@[j].terms@ == before.wires@[j].terms@);
                            }
                        }
                        assert forall|target: WireIndex|
                            cong(
                                #[trigger] after.pending(target) + value.val() * after.weights(
                                    later,
                                    bound0,
                                    target,
                                ),
                                entry.pending(target),
                            ) by {
                            crate::wiring::lemma_flat_terms_first(
                                before.wires@,
                                before.depth@,
                                rest,
                                bound0,
                                target,
                            );
                            Self::lemma_pending_add(
                                before,
                                mid,
                                pending2,
                                cur,
                                wire,
                                share,
                                target,
                            );
                            Self::lemma_weights_same(
                                before,
                                mid,
                                pending2,
                                cur,
                                later,
                                bound0,
                                target,
                            );
                            Self::lemma_weights_kept(
                                mid,
                                after,
                                pending2,
                                next,
                                later,
                                bound0,
                                target,
                            );
                            let v = value.val() as int;
                            let c = coeff.val() as int;
                            let s = share.val() as int;
                            let f = before.weight(wire, target);
                            let x = before.weights(later, bound0, target);
                            let pb = before.pending(target);
                            crate::wiring::lemma_cong_mod(v * c);
                            crate::wiring::lemma_cong_mul(s, v * c, f, f);
                            crate::wiring::lemma_cong_add(pb, pb, s * f, (v * c) * f);
                            crate::wiring::lemma_cong_add(
                                after.pending(target),
                                pb + (v * c) * f,
                                v * x,
                                v * x,
                            );
                            assert(pb + (v * c) * f + v * x == pb + v * (x + c * f))
                                by (nonlinear_arith);
                        }
                    }
                    k += 1;
                }
                let ghost done = *self;
                proof {
                    assert(terms@.subrange(length as int, length as int) =~= Seq::<Term>::empty());
                    assert(Seq::new(
                        n,
                        |i: int|
                            extra0[i] + count_refs(
                                terms@.subrange(length as int, length as int),
                                i,
                            ),
                    ) =~= extra0);
                    assert(done.slot_ok(index as int, pending2, extra0));
                }
                self.wires[index].value = Coeff::Zero;
                self.free.push(index);
                proof {
                    let after = *self;
                    let none = terms@.subrange(length as int, length as int);
                    assert(none =~= Seq::<Term>::empty());
                    assert(done.model() == goal);
                    let want = entry.model().freed(WireIndex::Virtual(index), fuel);
                    assert forall|j: int| 0 <= j < n implies #[trigger] after.slot(j)
                        == want.slots[j] by {
                        if j != index {
                            assert(after.wires@[j] == done.wires@[j]);
                            assert(done.slot(j) == done.model().slots[j]);
                        } else {
                            assert(done.slot(j) == done.model().slots[j]);
                        }
                    }
                    assert(values(after.sy.a@) =~= values(done.sy.a@));
                    Self::lemma_model_same(after, want);
                }
                proof {
                    let after = *self;
                    assert forall|target: WireIndex|
                        cong(#[trigger] after.pending(target), entry.pending(target)) by {
                        Self::lemma_pending_value(
                            done,
                            after,
                            pending2,
                            extra0,
                            index as int,
                            target,
                        );
                        assert(done.wires@[index as int].terms@ =~= Seq::<Term>::empty());
                        let sw = slot_weight(done.wires@, done.depth@, index as int, target);
                        assert(sw == 0);
                        assert(done.wires@[index as int].value.val() * sw == 0)
                            by (nonlinear_arith)
                            requires
                                sw == 0,
                        ;
                        assert(after.wires@[index as int].value.val() * sw == 0)
                            by (nonlinear_arith)
                            requires
                                sw == 0,
                        ;
                        assert(after.pending(target) == done.pending(target));
                        let none = terms@.subrange(length as int, length as int);
                        assert(none =~= Seq::<Term>::empty());
                        let nw = done.weights(none, bound0, target);
                        assert(nw == 0);
                        assert(value.val() * nw == 0) by (nonlinear_arith)
                            requires
                                nw == 0,
                        ;
                    }
                }
                proof {
                    let after = *self;
                    lemma_refcount_sum_same(done.wires@, after.wires@);
                    assert forall|i: int| 0 <= i < n implies #[trigger] after.slot_ok(
                        i,
                        pending,
                        extra0,
                    ) by {
                        assert(done.slot_ok(i, pending2, extra0));
                        lemma_term_refs_same(done.wires@, after.wires@, i);
                        if i == index {
                            assert(after.free@[after.free@.len() - 1] == index);
                        } else if after.wires@[i].refcount == 0 && !pending.contains(i) {
                            let m = choose|m: int|
                                0 <= m < done.free@.len() && #[trigger] done.free@[m] == i;
                            assert(after.free@[m] == i);
                        }
                    }
                    assert forall|m: int| 0 <= m < after.free@.len() implies {
                        let f = #[trigger] after.free@[m];
                        &&& f < after.wires@.len()
                        &&& after.wires@[f as int].refcount == 0
                        &&& !pending.contains(f as int)
                    } by {
                        if m < done.free@.len() {
                            let f = done.free@[m];
                            assert(f != index);
                        }
                    }
                    assert forall|a: int, b: int|
                        0 <= a < after.free@.len() && 0 <= b < after.free@.len() && a
                            != b implies after.free@[a] != after.free@[b] by {
                        if a < done.free@.len() {
                            assert(done.free@[a] != index);
                        }
                        if b < done.free@.len() {
                            assert(done.free@[b] != index);
                        }
                    }
                }
            } else {
                proof {
                    let after = *self;
                    assert(values(after.sy.a@) =~= values(entry.sy.a@));
                    Self::lemma_model_same(after, entry.model().freed(WireIndex::Virtual(index), fuel));
                }
                proof {
                    let after = *self;
                    assert forall|target: WireIndex|
                        cong(#[trigger] after.pending(target), entry.pending(target)) by {
                        Self::lemma_pending_value(entry, after, pending, extra, -1, target);
                    }
                    assert forall|i: int| 0 <= i < n implies #[trigger] after.slot_ok(
                        i,
                        pending,
                        extra0,
                    ) by {
                        assert(entry.slot_ok(i, pending, extra));
                    }
                    assert forall|m: int| 0 <= m < after.free@.len() implies {
                        let f = #[trigger] after.free@[m];
                        &&& f < after.wires@.len()
                        &&& after.wires@[f as int].refcount == 0
                        &&& !pending.contains(f as int)
                    } by {
                        let f = entry.free@[m];
                        assert(f != index);
                    }
                }
            }
        } else {
            proof {
                assert(extra0 =~= extra);
            }
        }
    }
}

/// A sequence that names each number below `n` once, and nothing else, has
/// `n` entries.
pub proof fn lemma_listing_len(list: Seq<usize>, n: nat)
    requires
        list.no_duplicates(),
        forall|k: int| 0 <= k < list.len() ==> (#[trigger] list[k]) < n,
        forall|i: int| 0 <= i < n ==> listed(list, i),
    ensures
        list.len() == n,
    decreases n,
{
    if n == 0 {
        if list.len() > 0 {
            assert(list[0] < n);
        }
    } else {
        assert(listed(list, n - 1));
        let p = choose|p: int| 0 <= p < list.len() && #[trigger] list[p] == n - 1;
        let rest = list.remove(p);
        assert forall|k: int| 0 <= k < rest.len() implies (#[trigger] rest[k]) < n - 1 by {
            if k < p {
                assert(rest[k] == list[k]);
            } else {
                assert(rest[k] == list[k + 1]);
            }
        }
        assert forall|i: int| 0 <= i < n - 1 implies listed(rest, i) by {
            assert(listed(list, i));
            let q = choose|q: int| 0 <= q < list.len() && #[trigger] list[q] == i;
            if q < p {
                assert(rest[q] == i);
            } else {
                assert(rest[q - 1] == i);
            }
        }
        assert forall|a: int, b: int|
            0 <= a < rest.len() && 0 <= b < rest.len() && a != b implies rest[a] != rest[b] by {
            let a2 = if a < p { a } else { a + 1 };
            let b2 = if b < p { b } else { b + 1 };
            assert(rest[a] == list[a2]);
            assert(rest[b] == list[b2]);
        }
        lemma_listing_len(rest, (n - 1) as nat);
    }
}

impl VirtualTable {
    /// A bound on the depth of every slot.
    pub open spec fn depth_bound(depth: Seq<nat>) -> nat
        decreases depth.len(),
    {
        if depth.len() == 0 {
            0
        } else {
            let rest = Self::depth_bound(depth.drop_last());
            if depth.last() >= rest {
                depth.last() + 1
            } else {
                rest
            }
        }
    }

    proof fn lemma_depth_bound(depth: Seq<nat>, i: int)
        requires
            0 <= i < depth.len(),
        ensures
            depth[i] < Self::depth_bound(depth),
        decreases depth.len(),
    {
        if i < depth.len() - 1 {
            Self::lemma_depth_bound(depth.drop_last(), i);
        }
    }

    proof fn lemma_unreferenced(self, i: int, fuel: nat)
        requires
            self.wf(),
            0 <= i < self.wires@.len(),
            forall|j: int| 0 <= j < self.wires@.len() ==> (#[trigger] self.wires@[j]).handles == 0,
            Self::depth_bound(self.depth@) - self.depth@[i] <= fuel,
        ensures
            self.wires@[i].refcount == 0,
        decreases fuel,
    {
        let n = self.wires@.len();
        assert(self.slot_ok(i, Set::empty(), no_extra(n)));
        if self.wires@[i].refcount > 0 {
            let (j, k) = lemma_term_refs_witness(self.wires@, i);
            assert(self.slot_ok(j, Set::empty(), no_extra(n)));
            assert(self.below(self.wires@[j].terms@, self.depth@[j]));
            assert(self.wires@[j].terms@[k].0 matches WireIndex::Virtual(t) && t == i);
            Self::lemma_depth_bound(self.depth@, j);
            self.lemma_unreferenced(j, (fuel - 1) as nat);
        }
    }

    /// Once no handle is left, every slot is on the free list.
    pub proof fn lemma_zero_leak(self)
        requires
            self.wf(),
            forall|j: int| 0 <= j < self.wires@.len() ==> (#[trigger] self.wires@[j]).handles == 0,
        ensures
            self.free@.len() == self.wires@.len(),
            forall|j: int| 0 <= j < self.wires@.len() ==> (#[trigger] self.wires@[j]).refcount == 0,
    {
        let n = self.wires@.len();
        assert forall|j: int| 0 <= j < n implies (#[trigger] self.wires@[j]).refcount == 0 by {
            Self::lemma_depth_bound(self.depth@, j);
            self.lemma_unreferenced(j, Self::depth_bound(self.depth@));
        }
        assert forall|i: int| 0 <= i < n implies listed(self.free@, i) by {
            assert(self.slot_ok(i, Set::empty(), no_extra(n)));
        }
        lemma_listing_len(self.free@, n);
    }

    /// The count of a slot is exactly the number of its
    /// handles plus the number of stored terms that name it.
    pub proof fn lemma_refcount_exact(self, i: int)
        requires
            self.wf(),
            0 <= i < self.wires@.len(),
        ensures
            self.wires@[i].refcount == self.wires@[i].handles + term_refs(self.wires@, i),
    {
        assert(self.slot_ok(i, Set::empty(), no_extra(self.wires@.len())));
    }

    /// A slot that has a handle is counted, and is not on the free list:
    /// giving up a reference to it never brings its count below zero.
    pub proof fn lemma_refcount_positive(self, i: int)
        requires
            self.wf(),
            0 <= i < self.wires@.len(),
            self.wires@[i].handles >= 1,
        ensures
            self.wires@[i].refcount >= 1,
            !listed(self.free@, i),
    {
        assert(self.slot_ok(i, Set::empty(), no_extra(self.wires@.len())));
    }

    /// While the stored terms stay as they are, the count of a slot moves
    /// with its handles alone: between two consistent tables that differ
    /// in the counts of one slot only, the count of that slot has changed
    /// by as much as the number of its handles.
    pub proof fn lemma_refcount_follows_handles(
        before: VirtualTable,
        after: VirtualTable,
        slot: int,
        handles: int,
        references: int,
    )
        requires
            before.wf(),
            after.wf(),
            Self::recounted(before, after, slot, handles, references),
        ensures
            references == handles,
    {
        let n = before.wires@.len();
        assert(before.slot_ok(slot, Set::empty(), no_extra(n)));
        assert(after.slot_ok(slot, Set::empty(), no_extra(n)));
        assert forall|j: int| 0 <= j < n implies (#[trigger] after.wires@[j]).terms@
            == before.wires@[j].terms@ by {}
        lemma_term_refs_same(before.wires@, after.wires@, slot);
    }

    /// A table without slots, over a polynomial without coefficients.
    pub fn new() -> (table: VirtualTable)
        ensures
            table.wf(),
            table.wires@.len() == 0,
            table.free@.len() == 0,
            table.gates() == 0,
    {
        VirtualTable {
            wires: Vec::new(),
            free: Vec::new(),
            sy: Polynomial::new(),
            depth: Ghost(Seq::empty()),
        }
    }

    /// Makes room for the coefficients of one more gate; they start at
    /// zero.
    pub fn push_gate(&mut self)
        requires
            old(self).wf(),
        ensures
            final(self).wf(),
            final(self).wires == old(self).wires,
            final(self).free == old(self).free,
            final(self).depth == old(self).depth,
            final(self).gates() == old(self).gates() + 1,
            final(self).sy.a@ == old(self).sy.a@.push(final(self).sy.a@.last()),
            final(self).sy.b@ == old(self).sy.b@.push(final(self).sy.b@.last()),
            final(self).sy.c@ == old(self).sy.c@.push(final(self).sy.c@.last()),
            final(self).sy.a@.last()@ == 0,
            final(self).sy.b@.last()@ == 0,
            final(self).sy.c@.last()@ == 0,
    {
        let ghost before = *self;
        let ghost n = self.wires@.len();
        self.sy.a.push(Fe::zero());
        self.sy.b.push(Fe::zero());
        self.sy.c.push(Fe::zero());
        proof {
            let after = *self;
            assert forall|i: int| 0 <= i < n implies #[trigger] after.slot_ok(
                i,
                Set::empty(),
                no_extra(n),
            ) by {
                assert(before.slot_ok(i, Set::empty(), no_extra(n)));
                let ts = after.wires@[i].terms@;
                assert forall|m: int| 0 <= m < ts.len() implies after.in_range(
                    (#[trigger] ts[m]).0,
                ) && ts[m].1.wf() by {
                    assert(before.in_range(ts[m].0));
                }
            }
        }
    }

    /// A handle gives up its reference to the slot.
    pub fn release(&mut self, slot: usize)
        requires
            old(self).wf(),
            slot < old(self).wires@.len(),
            old(self).wires@[slot as int].handles >= 1,
        ensures
            final(self).wf(),
            final(self).depth == old(self).depth,
            final(self).wires@.len() == old(self).wires@.len(),
            final(self).gates() == old(self).gates(),
            final(self).free@.len() >= old(self).free@.len(),
            forall|j: int|
                0 <= j < old(self).wires@.len() ==> (#[trigger] final(self).wires@[j]).handles
                    == old(self).wires@[j].handles - if j == slot {
                    1int
                } else {
                    0int
                },
            kept(old(self).wires@, final(self).wires@),
            forall|target: WireIndex|
                cong(#[trigger] final(self).pending(target), old(self).pending(target)),
            old(self).wires@[slot as int].refcount > 1 ==> Self::recounted(
                *old(self),
                *final(self),
                slot as int,
                -1,
                -1,
            ),
            final(self).model() == old(self).model().unhanded(slot as int).freed(
                WireIndex::Virtual(slot),
                refcount_sum(old(self).wires@),
            ),
    {
        let ghost before = *self;
        let ghost n = self.wires@.len();
        self.wires[slot].handles -= 1;
        let ghost middle = *self;
        proof {
            lemma_refcount_sum_same(before.wires@, middle.wires@);
            assert(values(middle.sy.a@) =~= values(before.sy.a@));
            assert forall|j: int| 0 <= j < n implies #[trigger] middle.slot(j)
                == before.model().unhanded(slot as int).slots[j] by {
                if j != slot {
                    assert(middle.wires@[j] == before.wires@[j]);
                }
            }
            Self::lemma_model_same(middle, before.model().unhanded(slot as int));
        }
        proof {
            assert forall|target: WireIndex| #[trigger]
                middle.pending(target) == before.pending(target) by {
                Self::lemma_pending_value(before, middle, Set::empty(), no_extra(n), -1, target);
            }
        }
        proof {
            let after = *self;
            let extra = one_extra(n, WireIndex::Virtual(slot));
            assert forall|i: int| 0 <= i < n implies #[trigger] after.slot_ok(
                i,
                Set::empty(),
                extra,
            ) by {
                assert(before.slot_ok(i, Set::empty(), no_extra(n)));
                lemma_term_refs_same(before.wires@, after.wires@, i);
            }
            assert forall|k: int| 0 <= k < after.free@.len() implies {
                let f = #[trigger] after.free@[k];
                &&& f < after.wires@.len()
                &&& after.wires@[f as int].refcount == 0
            } by {
                let f = before.free@[k];
                assert(before.wires@[f as int].refcount == 0);
            }
        }
        self.free(WireIndex::Virtual(slot));
    }

    /// A handle is copied: the slot counts one more reference.
    pub fn retain(&mut self, slot: usize)
        requires
            old(self).wf(),
            slot < old(self).wires@.len(),
            1 <= old(self).wires@[slot as int].handles < usize::MAX,
        ensures
            final(self).wf(),
            final(self).depth == old(self).depth,
            final(self).free == old(self).free,
            final(self).sy == old(self).sy,
            final(self).wires@.len() == old(self).wires@.len(),
            forall|j: int|
                0 <= j < old(self).wires@.len() ==> (#[trigger] final(self).wires@[j]).handles
                    == old(self).wires@[j].handles + if j == slot {
                    1int
                } else {
                    0int
                },
            forall|j: int|
                0 <= j < old(self).wires@.len() ==> (#[trigger] final(self).wires@[j]).terms
                    == old(self).wires@[j].terms && final(self).wires@[j].value == old(self).wires@[j].value,
            Self::recounted(*old(self), *final(self), slot as int, 1, 1),
    {
        let ghost before = *self;
        let ghost n = self.wires@.len();
        let count = self.wires.len();
        proof {
            assert(before.slot_ok(slot as int, Set::empty(), no_extra(n)));
            assert forall|j: int| 0 <= j < n implies (#[trigger] before.wires@[j]).terms@.len()
                <= usize::MAX by {
                assert(before.slot_ok(j, Set::empty(), no_extra(n)));
            }
            lemma_term_refs_bound(before.wires@, slot as int);
            assert(n * usize::MAX <= usize::MAX * usize::MAX) by (nonlinear_arith)
                requires
                    n <= usize::MAX,
            ;
            assert(usize::MAX * usize::MAX + usize::MAX < u128::MAX) by (nonlinear_arith)
                requires
                    usize::MAX <= 0xffff_ffff_ffff_ffff,
                    u128::MAX == 0xffff_ffff_ffff_ffff_ffff_ffff_ffff_ffff,
            ;
        }
        self.wires[slot].handles += 1;
        self.wires[slot].refcount += 1;
        proof {
            let after = *self;
            assert forall|i: int| 0 <= i < n implies #[trigger] after.slot_ok(
                i,
                Set::empty(),
                no_extra(n),
            ) by {
                assert(before.slot_ok(i, Set::empty(), no_extra(n)));
                lemma_term_refs_same(before.wires@, after.wires@, i);
            }
            assert forall|k: int| 0 <= k < after.free@.len() implies {
                let f = #[trigger] after.free@[k];
                &&& f < after.wires@.len()
                &&& after.wires@[f as int].refcount == 0
            } by {
                let f = before.free@[k];
                assert(f != slot);
            }
        }
    }
}

/// A handle to a wire of the evaluator.
#[derive(Clone, Copy, Debug, PartialEq, Eq, Structural)]
pub struct Wire {
    /// Where the wire lives.
    pub index: WireIndex,
}

impl Wire {
    /// The handle to the wire at the given place.
    pub fn new(index: WireIndex) -> (r: Wire)
        ensures
            r.index == index,
    {
        Wire { index }
    }
}

/// Collects the terms of a linear combination that becomes a virtual wire.
pub struct TermCollector {
    /// The terms so far, each with the gain that was in force when it came.
    pub terms: Vec<Term>,
    /// The gain that multiplies the coefficients of the terms to come.
    pub gain: Coeff,
}

impl TermCollector {
    /// A collector without terms, with gain one.
    pub fn new() -> (r: TermCollector)
        ensures
            r.terms@.len() == 0,
            r.gain is One,
    {
        TermCollector { terms: Vec::new(), gain: Coeff::One }
    }

    /// Takes one more term. The term is one more reference to the wire.
    pub fn add_term(self, table: &mut VirtualTable, wire: &Wire, coeff: Coeff) -> (r:
        TermCollector)
        requires
            old(table).inv(Set::empty(), terms_extra(old(table).wires@.len(), self.terms@)),
            old(table).terms_ok(self.terms@),
            old(table).in_range(wire.index),
            wire.index matches WireIndex::Virtual(t) ==> old(table).wires@[t as int].refcount > 0,
            coeff.wf(),
            self.gain.wf(),
        ensures
            final(table).inv(Set::empty(), terms_extra(old(table).wires@.len(), r.terms@)),
            final(table).terms_ok(r.terms@),
            r.gain == self.gain,
            r.terms@.len() == self.terms@.len() + 1,
            r.terms@.drop_last() == self.terms@,
            r.terms@.last().0 == wire.index,
            r.terms@.last().1.wf(),
            r.terms@.last().1.val() == (coeff.val() * self.gain.val()) % crate::field::modulus(),
            final(table).depth == old(table).depth,
            final(table).free == old(table).free,
            final(table).sy == old(table).sy,
            final(table).wires@.len() == old(table).wires@.len(),
            forall|j: int|
                0 <= j < old(table).wires@.len() && slot_of(wire.index) != j ==> (
                #[trigger] final(table).wires@[j]) == old(table).wires@[j],
            wire.index matches WireIndex::Virtual(t) ==> {
                let before = old(table).wires@[t as int];
                let after = final(table).wires@[t as int];
                &&& after.refcount == before.refcount + 1
                &&& after.handles == before.handles
                &&& after.terms == before.terms
                &&& after.value == before.value
            },
    {
        let ghost before = *table;
        let ghost n = table.wires@.len();
        let ghost extra = terms_extra(n, self.terms@);
        let mut this = self;
        let count = table.wires.len();
        this.terms.push((wire.index, coeff.mul(&this.gain)));
        let length = this.terms.len();
        proof {
            assert(this.terms@.drop_last() =~= self.terms@);
            if let WireIndex::Virtual(t) = wire.index {
                assert(before.slot_ok(t as int, Set::empty(), extra));
                assert forall|j: int| 0 <= j < n implies (#[trigger] before.wires@[j]).terms@.len()
                    <= usize::MAX by {
                    assert(before.slot_ok(j, Set::empty(), extra));
                }
                lemma_term_refs_bound(before.wires@, t as int);
                lemma_count_refs_bound(self.terms@, t as int);
                assert(n * usize::MAX <= usize::MAX * usize::MAX) by (nonlinear_arith)
                    requires
                        n <= usize::MAX,
                ;
                assert(usize::MAX * usize::MAX + usize::MAX + usize::MAX <= u128::MAX)
                    by (nonlinear_arith)
                    requires
                        usize::MAX <= 0xffff_ffff_ffff_ffff,
                        u128::MAX == 0xffff_ffff_ffff_ffff_ffff_ffff_ffff_ffff,
                ;
            }
        }
        table.increment_refcount(wire.index);
        proof {
            let after = *table;
            let extra2 = terms_extra(n, this.terms@);
            if let WireIndex::Virtual(t) = wire.index {
                VirtualTable::lemma_inv_after_increment(
                    before,
                    after,
                    Set::empty(),
                    extra,
                    t as int,
                );
                assert forall|i: int| 0 <= i < n implies extra2[i] == extra.update(
                    t as int,
                    extra[t as int] + 1,
                )[i] by {
                    lemma_count_refs_push(self.terms@, this.terms@.last(), i);
                    assert(this.terms@ =~= self.terms@.push(this.terms@.last()));
                }
                assert(extra2 =~= extra.update(t as int, extra[t as int] + 1));
            } else {
                assert forall|i: int| 0 <= i < n implies extra2[i] == extra[i] by {
                    lemma_count_refs_push(self.terms@, this.terms@.last(), i);
                    assert(this.terms@ =~= self.terms@.push(this.terms@.last()));
                }
                assert(extra2 =~= extra);
                assert(after.wires@ =~= before.wires@);
                VirtualTable::lemma_inv_after_value(before, after, Set::empty(), extra);
            }
            assert forall|m: int| 0 <= m < this.terms@.len() implies after.in_range(
                (#[trigger] this.terms@[m]).0,
            ) && this.terms@[m].1.wf() by {
                if m < self.terms@.len() {
                    assert(this.terms@[m] == self.terms@[m]);
                    assert(before.in_range(self.terms@[m].0));
                }
            }
        }
        this
    }

    /// Multiplies the gain that the terms to come are subject to.
    pub fn gain(self, coeff: Coeff) -> (r: TermCollector)
        requires
            coeff.wf(),
            self.gain.wf(),
        ensures
            r.terms == self.terms,
            r.gain.wf(),
            r.gain.val() == (self.gain.val() * coeff.val()) % crate::field::modulus(),
    {
        let mut this = self;
        this.gain = this.gain.mul(&coeff);
        this
    }
}

/// The terms as they are stored, each with the integer that its
/// coefficient stands for.
pub open spec fn term_views(terms: Seq<Term>) -> Seq<(WireIndex, nat)> {
    Seq::new(terms.len(), |k: int| (terms[k].0, terms[k].1.val()))
}

/// The terms that a linear combination stores in its slot: one for each
/// term of the combination, in their order, with the coefficient times the
/// gain that was in force when the term came.
pub open spec fn collected(lc: Seq<Step<Wire>>) -> Seq<(WireIndex, nat)>
    decreases lc.len(),
{
    if lc.len() == 0 {
        Seq::empty()
    } else {
        match lc.last() {
            Step::Term(w, c) => collected(lc.drop_last()).push(
                (w.index, (c.val() * lc_gain(lc.drop_last())) % modulus()),
            ),
            Step::Gain(_) => collected(lc.drop_last()),
        }
    }
}

impl VirtualTable {
    /// The second table is the first with one more virtual wire, whose
    /// terms are `terms`: the slot is the free slot that was given back
    /// last, or a new one; it has one handle and no other reference, and
    /// has collected nothing; every slot that the terms name has one more
    /// reference for each term that names it; and nothing else has
    /// changed.
    pub open spec fn grown(before: VirtualTable, after: VirtualTable, terms: Seq<Term>) -> bool {
        let n = before.wires@.len();
        let slot: int = if before.free@.len() > 0 {
            before.free@.last() as int
        } else {
            n as int
        };
        &&& after.sy == before.sy
        &&& if before.free@.len() > 0 {
            after.free@ == before.free@.drop_last() && after.wires@.len() == n
        } else {
            after.free@ == before.free@ && after.wires@.len() == n + 1
        }
        &&& after.wires@[slot].refcount == 1
        &&& after.wires@[slot].handles == 1
        &&& after.wires@[slot].value is Zero
        &&& after.wires@[slot].terms@ == terms
        &&& forall|j: int|
            0 <= j < n && j != slot ==> {
                &&& (#[trigger] after.wires@[j]).handles == before.wires@[j].handles
                &&& after.wires@[j].terms@ == before.wires@[j].terms@
                &&& after.wires@[j].value == before.wires@[j].value
                &&& after.wires@[j].refcount == before.wires@[j].refcount + count_refs(terms, j)
            }
    }
}

/// A place that holds a value: the coefficient of a leg of a gate, by
/// that gate's number, or what a slot has collected, by that slot's
/// number.
pub enum Place {
    /// The coefficient of the left leg of a gate.
    A(int),
    /// The coefficient of the right leg of a gate.
    B(int),
    /// The coefficient of the output leg of a gate.
    C(int),
    /// What a slot has collected.
    Slot(int),
}

/// The wire lives at the place.
pub open spec fn at(index: WireIndex, place: Place) -> bool {
    match place {
        Place::A(j) => left_of(index) == j,
        Place::B(j) => right_of(index) == j,
        Place::C(j) => output_of(index) == j,
        Place::Slot(j) => slot_of(index) == j,
    }
}

/// The gain that an enforcer holds after the steps of a constraint, where
/// `y` is the multiplier of the constraint.
pub open spec fn enforcer_gain(lc: Seq<Step<Wire>>, y: nat) -> nat
    decreases lc.len(),
{
    if lc.len() == 0 {
        y
    } else {
        match lc.last() {
            Step::Term(_, _) => enforcer_gain(lc.drop_last(), y),
            Step::Gain(c) => (enforcer_gain(lc.drop_last(), y) * c.val()) % modulus(),
        }
    }
}

/// What a place holds after the steps of a constraint with the multiplier
/// `y`, if it held `start` before: each term on the wire that lives at the
/// place has added its coefficient times the gain in force, and no other
/// step has changed it.
pub open spec fn landed(lc: Seq<Step<Wire>>, y: nat, start: nat, place: Place) -> nat
    decreases lc.len(),
{
    if lc.len() == 0 {
        start
    } else {
        let before = landed(lc.drop_last(), y, start, place);
        match lc.last() {
            Step::Term(w, c) => if at(w.index, place) {
                (before + (c.val() * enforcer_gain(lc.drop_last(), y)) % modulus()) % modulus()
            } else {
                before
            },
            Step::Gain(_) => before,
        }
    }
}

impl VirtualTable {
    /// The second table is the first with the coefficients of one more
    /// gate, each of them zero.
    pub open spec fn gated(before: VirtualTable, after: VirtualTable) -> bool {
        &&& after.wires == before.wires
        &&& after.free == before.free
        &&& after.depth == before.depth
        &&& after.sy.a@ == before.sy.a@.push(after.sy.a@.last())
        &&& after.sy.b@ == before.sy.b@.push(after.sy.b@.last())
        &&& after.sy.c@ == before.sy.c@.push(after.sy.c@.last())
        &&& after.sy.a@.last()@ == 0
        &&& after.sy.b@.last()@ == 0
        &&& after.sy.c@.last()@ == 0
    }

    /// The second table is the first but for the counts of the slot
    /// `slot`, which has `handles` more handles and `references` more
    /// references: the terms and the value of the slot, every other slot,
    /// the free list and the polynomial are as they were.
    pub open spec fn recounted(
        before: VirtualTable,
        after: VirtualTable,
        slot: int,
        handles: int,
        references: int,
    ) -> bool {
        &&& after.depth == before.depth
        &&& after.free == before.free
        &&& after.sy == before.sy
        &&& after.wires@.len() == before.wires@.len()
        &&& forall|j: int|
            0 <= j < before.wires@.len() && j != slot ==> (#[trigger] after.wires@[j])
                == before.wires@[j]
        &&& 0 <= slot < before.wires@.len()
        &&& after.wires@[slot].handles == before.wires@[slot].handles + handles
        &&& after.wires@[slot].refcount == before.wires@[slot].refcount + references
        &&& after.wires@[slot].terms == before.wires@[slot].terms
        &&& after.wires@[slot].value == before.wires@[slot].value
    }

    /// The place exists.
    pub open spec fn has(&self, place: Place) -> bool {
        match place {
            Place::A(j) => 0 <= j < self.sy.a@.len(),
            Place::B(j) => 0 <= j < self.sy.b@.len(),
            Place::C(j) => 0 <= j < self.sy.c@.len(),
            Place::Slot(j) => 0 <= j < self.wires@.len(),
        }
    }

    /// What the place holds.
    pub open spec fn holds(&self, place: Place) -> nat {
        match place {
            Place::A(j) => self.sy.a@[j]@,
            Place::B(j) => self.sy.b@[j]@,
            Place::C(j) => self.sy.c@[j]@,
            Place::Slot(j) => self.wires@[j].value.val(),
        }
    }

    /// The two tables have the same places, free list and depths, and
    /// each slot has the same counts and terms in both: they differ in
    /// nothing but in what the places hold.
    pub open spec fn same_shape(before: VirtualTable, after: VirtualTable) -> bool {
        &&& after.depth == before.depth
        &&& after.free == before.free
        &&& after.wires@.len() == before.wires@.len()
        &&& after.sy.a@.len() == before.sy.a@.len()
        &&& after.sy.b@.len() == before.sy.b@.len()
        &&& after.sy.c@.len() == before.sy.c@.len()
        &&& forall|j: int|
            0 <= j < before.wires@.len() ==> {
                &&& (#[trigger] after.wires@[j]).handles == before.wires@[j].handles
                &&& after.wires@[j].refcount == before.wires@[j].refcount
                &&& after.wires@[j].terms == before.wires@[j].terms
            }
    }

    /// The second table is the first after `amount` was added to what the
    /// wire `index` has collected: the place where the wire lives holds
    /// that much more, and nothing else has changed. The terms of a
    /// virtual wire are not followed.
    pub open spec fn added(
        before: VirtualTable,
        after: VirtualTable,
        index: WireIndex,
        amount: nat,
    ) -> bool {
        &&& Self::same_shape(before, after)
        &&& forall|place: Place|
            before.has(place) ==> #[trigger] after.holds(place) == if at(index, place) {
                (before.holds(place) + amount) % modulus()
            } else {
                before.holds(place)
            }
    }

    /// The second table is the first after the terms of a constraint with
    /// the multiplier `y` were handed to the wires that they name: each
    /// place holds what `landed` says, and nothing else has changed.
    pub open spec fn enforced(
        before: VirtualTable,
        after: VirtualTable,
        lc: Seq<Step<Wire>>,
        y: nat,
    ) -> bool {
        &&& Self::same_shape(before, after)
        &&& forall|place: Place|
            before.has(place) ==> #[trigger] after.holds(place) == landed(
                lc,
                y,
                before.holds(place),
                place,
            )
    }
}

/// Hands the terms of a constraint to the wires that they name.
pub struct TermEnforcer {
    /// What multiplies the coefficient of each term: the power of the
    /// evaluation point that belongs to the constraint, and the gain.
    pub gain: Coeff,
}

impl TermEnforcer {
    /// Adds the coefficient of the term, multiplied by the gain, to what
    /// the wire has collected.
    pub fn add_term(self, table: &mut VirtualTable, wire: &Wire, coeff: Coeff) -> (r:
        TermEnforcer)
        requires
            old(table).wf(),
            old(table).in_range(wire.index),
            wire.index matches WireIndex::Virtual(t) ==> old(table).wires@[t as int].refcount > 0,
            coeff.wf(),
            self.gain.wf(),
        ensures
            final(table).wf(),
            r.gain == self.gain,
            final(table).depth == old(table).depth,
            final(table).free == old(table).free,
            final(table).wires@.len() == old(table).wires@.len(),
            final(table).gates() == old(table).gates(),
            forall|j: int|
                0 <= j < old(table).wires@.len() ==> {
                    &&& (#[trigger] final(table).wires@[j]).handles == old(table).wires@[j].handles
                    &&& final(table).wires@[j].refcount == old(table).wires@[j].refcount
                    &&& final(table).wires@[j].terms == old(table).wires@[j].terms
                },
            forall|target: WireIndex|
                cong(
                    #[trigger] final(table).pending(target),
                    old(table).pending(target) + ((coeff.val() * self.gain.val()) % modulus())
                        * old(table).weight(wire.index, target),
                ),
            VirtualTable::added(
                *old(table),
                *final(table),
                wire.index,
                (coeff.val() * self.gain.val()) % modulus(),
            ),
    {
        let ghost before = *table;
        proof {
            if let WireIndex::Virtual(t) = wire.index {
                assert(before.slot_ok(
                    t as int,
                    Set::empty(),
                    no_extra(before.wires@.len()),
                ));
            }
        }
        let amount = coeff.mul(&self.gain);
        table.add(wire.index, amount);
        proof {
            VirtualTable::lemma_inv_after_value(
                before,
                *table,
                Set::empty(),
                no_extra(before.wires@.len()),
            );
            assert forall|target: WireIndex|
                cong(
                    #[trigger] table.pending(target),
                    before.pending(target) + ((coeff.val() * self.gain.val()) % modulus())
                        * before.weight(wire.index, target),
                ) by {
                VirtualTable::lemma_pending_add(
                    before,
                    *table,
                    Set::empty(),
                    no_extra(before.wires@.len()),
                    wire.index,
                    amount,
                    target,
                );
            }
        }
        self
    }

    /// Multiplies the gain that the terms to come are subject to.
    pub fn gain(self, coeff: Coeff) -> (r: TermEnforcer)
        requires
            coeff.wf(),
            self.gain.wf(),
        ensures
            r.gain.wf(),
            r.gain.val() == (self.gain.val() * coeff.val()) % crate::field::modulus(),
    {
        TermEnforcer { gain: self.gain.mul(&coeff) }
    }
}

/// The driver that computes the wiring polynomial at a fixed point `y`.
pub struct Evaluator {
    /// The number of multiplication gates allocated.
    pub multiplication_constraints: usize,
    /// The number of linear constraints enforced.
    pub linear_constraints: usize,
    /// The inverse of `y`.
    pub y_inv: Fe,
    /// The power of `y` that belongs to the next constraint.
    pub current_y: Fe,
    /// The virtual wires and the polynomial.
    pub virtual_table: VirtualTable,
    /// The right leg of the last gate that was allocated for a single wire,
    /// while it is unused.
    pub available_b: Option<Wire>,
    /// The bounds on gates and constraints.
    pub rank: Rank,
    /// The power of `y` that belongs to the first constraint.
    pub start: Ghost<nat>,
    /// The rows: for each constraint so far, the weight that it gives to
    /// each wire of a gate.
    pub rows: Ghost<Seq<Weights>>,
}

impl Evaluator {
    /// The table is consistent, the counts are within the bounds, and the
    /// wires that the evaluator holds exist.
    pub open spec fn structure(&self) -> bool {
        &&& self.virtual_table.wf()
        &&& self.virtual_table.gates() == self.multiplication_constraints
        &&& 1 <= self.multiplication_constraints <= self.rank.n
        &&& self.linear_constraints <= self.rank.num_coeffs
        &&& self.y_inv.wf()
        &&& self.current_y.wf()
        &&& (self.available_b matches Some(w) ==> self.virtual_table.in_range(w.index) && (
        w.index matches WireIndex::Virtual(i) ==> self.virtual_table.wires@[i as int].handles >= 1))
    }

    /// What is pending is what the rows give: for each wire of a gate, the
    /// sum over the constraints so far of the multiplier of the constraint
    /// times the weight of the wire in the constraint.
    pub open spec fn wiring(&self) -> bool {
        &&& self.rows@.len() == self.linear_constraints
        &&& self.current_y@ == powers(self.start@, self.y_inv@, self.linear_constraints as nat)
        &&& forall|target: WireIndex|
            cong(
                #[trigger] self.pending(target),
                combine(self.rows@, self.start@, self.y_inv@, target),
            )
    }

    /// A state with the same rows and multipliers, in which as much is
    /// pending as before, is consistent with its rows too.
    pub proof fn lemma_wiring_kept(before: Evaluator, after: Evaluator)
        requires
            before.wiring(),
            after.rows == before.rows,
            after.start == before.start,
            after.y_inv == before.y_inv,
            after.current_y == before.current_y,
            after.linear_constraints == before.linear_constraints,
            forall|target: WireIndex|
                cong(#[trigger] after.pending(target), before.pending(target)),
        ensures
            after.wiring(),
    {
        assert forall|target: WireIndex|
            cong(
                #[trigger] after.pending(target),
                combine(after.rows@, after.start@, after.y_inv@, target),
            ) by {
            assert(cong(after.pending(target), before.pending(target)));
            assert(cong(
                before.pending(target),
                combine(before.rows@, before.start@, before.y_inv@, target),
            ));
        }
    }

    /// What the finished polynomial will hold for the wire `target` of a
    /// gate, once every virtual wire has resolved.
    pub open spec fn pending(&self, target: WireIndex) -> int {
        self.virtual_table.pending(target)
    }

    /// The weight that a wire gives to the wire `target` of a gate: one
    /// if they are the same wire, and for a virtual wire the weight of the
    /// linear combination that it stands for.
    pub open spec fn weight(&self, wire: Wire, target: WireIndex) -> int {
        self.virtual_table.weight(wire.index, target)
    }

    /// The weight that a linear combination gives to the wire `target` of
    /// a gate: the sum over its terms of the coefficient, with the gain
    /// that is in force, times the weight of the term's wire.
    pub open spec fn lc_weight(&self, lc: Seq<Step<Wire>>, target: WireIndex) -> int
        decreases lc.len(),
    {
        if lc.len() == 0 {
            0
        } else {
            self.lc_weight(lc.drop_last(), target) + match lc.last() {
                Step::Term(w, c) => ((c.val() * lc_gain(lc.drop_last())) % modulus())
                    * self.weight(w, target),
                Step::Gain(_) => 0,
            }
        }
    }
}

impl Driver for Evaluator {
    type Wire = Wire;

    open spec fn wf(&self) -> bool {
        &&& self.structure()
        &&& self.wiring()
    }

    open spec fn usage(&self) -> Resources {
        Resources {
            gates: self.multiplication_constraints as nat,
            gate_limit: Some(self.rank.n),
            constraints: self.linear_constraints as nat,
            constraint_limit: Some(self.rank.num_coeffs),
            pairing: true,
            paired: self.available_b is Some,
        }
    }

    open spec fn valid(&self, wire: Wire) -> bool {
        &&& self.virtual_table.in_range(wire.index)
        &&& (wire.index matches WireIndex::Virtual(i) ==> self.virtual_table.wires@[i as int].handles
            >= 1)
    }

    open spec fn tracks(&self) -> bool {
        false
    }

    open spec fn predicts(&self) -> bool {
        false
    }

    open spec fn spare(&self) -> Option<Wire> {
        self.available_b
    }

    /// Where a leg is left unused, the wire is that leg, and nothing else
    /// changes. Otherwise the wire is the left leg of a new gate, whose
    /// right leg is left for the next single wire and whose coefficients
    /// are zero; where no gate is left, nothing changes.
    open spec fn allocates(before: Evaluator, value: Coeff, after: Evaluator, r: Result<Wire, Error>) -> bool {
        match before.usage().allocate() {
            Err(e) => r == Err::<Wire, Error>(e) && after == before,
            Ok(u) => {
                &&& after.usage() == u
                &&& after.rank == before.rank
                &&& after.rows == before.rows
                &&& after.start == before.start
                &&& after.y_inv == before.y_inv
                &&& after.current_y == before.current_y
                &&& match before.available_b {
                    Some(leg) => {
                        &&& r == Ok::<Wire, Error>(leg)
                        &&& after.available_b is None
                        &&& after.virtual_table == before.virtual_table
                    },
                    None => {
                        &&& r == Ok::<Wire, Error>(
                            Wire { index: WireIndex::A(before.multiplication_constraints) },
                        )
                        &&& after.available_b == Some(
                            Wire { index: WireIndex::B(before.multiplication_constraints) },
                        )
                        &&& VirtualTable::gated(before.virtual_table, after.virtual_table)
                    },
                }
            },
        }
    }

    open spec fn value_of(wire: Wire) -> nat {
        0
    }

    /// The constant wire is the output leg of the first gate.
    fn one(&self) -> (wire: Wire)
        ensures
            wire.index == WireIndex::C(0),
    {
        Wire { index: WireIndex::C(0) }
    }

    /// A single wire takes the right leg that the single wire before it
    /// left unused, or else the left leg of a new gate. The value is not
    /// looked at.
    fn allocate(&mut self, value: Coeff) -> (r: Result<Wire, Error>)
        ensures
            final(self).virtual_table.wires == old(self).virtual_table.wires,
            final(self).virtual_table.free == old(self).virtual_table.free,
            final(self).linear_constraints == old(self).linear_constraints,
            final(self).rank == old(self).rank,
            final(self).rows == old(self).rows,
            final(self).start == old(self).start,
            r matches Ok(w) ==> w.index == match old(self).available_b {
                Some(b) => b.index,
                None => WireIndex::A(old(self).multiplication_constraints),
            },
            r is Ok ==> final(self).available_b == match old(self).available_b {
                Some(b) => None::<Wire>,
                None => Some(Wire { index: WireIndex::B(old(self).multiplication_constraints) }),
            },
            r is Err ==> *final(self) == *old(self),
            final(self).y_inv == old(self).y_inv,
            final(self).current_y == old(self).current_y,
            final(self).virtual_table.depth == old(self).virtual_table.depth,
            forall|target: WireIndex| #[trigger] final(self).pending(target) == old(self).pending(target),
    {
        let ghost before = *self;
        let saved = self.available_b;
        self.available_b = None;
        match saved {
            Some(wire) => {
                proof {
                    assert forall|target: WireIndex| #[trigger]
                        self.pending(target) == before.pending(target) by {
                        assert(self.virtual_table.pending(target)
                            == before.virtual_table.pending(target));
                    }
                    Self::lemma_wiring_kept(before, *self);
                }
                Ok(wire)
            },
            None => {
                let (a, b, _) = self.mul(Coeff::Zero, Coeff::Zero, Coeff::Zero)?;
                let ghost made = *self;
                self.available_b = Some(b);
                proof {
                    assert forall|target: WireIndex| #[trigger]
                        self.pending(target) == before.pending(target) by {
                        assert(made.pending(target) == before.pending(target));
                    }
                    Self::lemma_wiring_kept(before, *self);
                }
                Ok(a)
            },
        }
    }

    /// A gate takes the next coefficient of each of the three arrays of
    /// the polynomial. The values are not looked at.
    fn mul(&mut self, a: Coeff, b: Coeff, c: Coeff) -> (r: Result<(Wire, Wire, Wire), Error>)
        ensures
            final(self).virtual_table.wires == old(self).virtual_table.wires,
            final(self).virtual_table.free == old(self).virtual_table.free,
            final(self).linear_constraints == old(self).linear_constraints,
            final(self).available_b == old(self).available_b,
            final(self).rank == old(self).rank,
            final(self).rows == old(self).rows,
            final(self).start == old(self).start,
            r matches Ok(w) ==> {
                &&& w.0.index == WireIndex::A(old(self).multiplication_constraints)
                &&& w.1.index == WireIndex::B(old(self).multiplication_constraints)
                &&& w.2.index == WireIndex::C(old(self).multiplication_constraints)
            },
            r is Ok ==> VirtualTable::gated(old(self).virtual_table, final(self).virtual_table),
            r is Err ==> *final(self) == *old(self),
            final(self).y_inv == old(self).y_inv,
            final(self).current_y == old(self).current_y,
            final(self).virtual_table.depth == old(self).virtual_table.depth,
            forall|target: WireIndex| #[trigger] final(self).pending(target) == old(self).pending(target),
    {
        let index = self.multiplication_constraints;
        if index == self.rank.n {
            return Err(Error::MultiplicationBoundExceeded(self.rank.n));
        }
        let ghost before = *self;
        self.multiplication_constraints += 1;
        self.virtual_table.push_gate();
        proof {
            assert forall|target: WireIndex| #[trigger]
                self.pending(target) == before.pending(target) by {
                assert(self.virtual_table.wires@ == before.virtual_table.wires@);
                assert(self.virtual_table.coefficient(target)
                    == before.virtual_table.coefficient(target));
            }
            Self::lemma_wiring_kept(before, *self);
        }
        Ok(
            (
                Wire { index: WireIndex::A(index) },
                Wire { index: WireIndex::B(index) },
                Wire { index: WireIndex::C(index) },
            ),
        )
    }

    /// A linear combination becomes a virtual wire: a slot of the table
    /// that stores the terms. Each term that names a slot is one more
    /// reference to that slot; the wire that is returned is the one handle
    /// of the new slot.
    fn add(&mut self, lc: &Vec<Step<Wire>>) -> (wire: Wire)
        ensures
            wire.index is Virtual,
            !old(self).valid(wire),
            final(self).virtual_table.gates() == old(self).virtual_table.gates(),
            final(self).virtual_table.sy == old(self).virtual_table.sy,
            final(self).linear_constraints == old(self).linear_constraints,
            final(self).available_b == old(self).available_b,
            final(self).rank == old(self).rank,
            final(self).rows == old(self).rows,
            final(self).start == old(self).start,
            final(self).y_inv == old(self).y_inv,
            final(self).current_y == old(self).current_y,
            final(self).virtual_table.wires@[slot_of(wire.index)].handles == 1,
            forall|target: WireIndex| #[trigger] final(self).pending(target) == old(self).pending(target),
            forall|target: WireIndex| #[trigger]
                final(self).weight(wire, target) == old(self).lc_weight(lc@, target),
            forall|w: Wire, target: WireIndex|
                old(self).valid(w) ==> #[trigger] final(self).weight(w, target) == old(self).weight(
                    w,
                    target,
                ),
            final(self).multiplication_constraints == old(self).multiplication_constraints,
            slot_of(wire.index) == if old(self).virtual_table.free@.len() > 0 {
                old(self).virtual_table.free@.last() as int
            } else {
                old(self).virtual_table.wires@.len() as int
            },
            VirtualTable::grown(
                old(self).virtual_table,
                final(self).virtual_table,
                final(self).virtual_table.wires@[slot_of(wire.index)].terms@,
            ),
            term_views(final(self).virtual_table.wires@[slot_of(wire.index)].terms@) == collected(
                lc@,
            ),
    {
        let ghost before = *self;
        let index = self.virtual_table.allocate();
        let ghost slot = slot_of(index);
        let ghost n = self.virtual_table.wires@.len();
        let ghost start = self.virtual_table;
        let mut collector = TermCollector::new();
        proof {
            assert(terms_extra(n, collector.terms@) =~= no_extra(n));
            assert(lc@.take(0) =~= Seq::<Step<Wire>>::empty());
            assert(term_views(collector.terms@) =~= collected(lc@.take(0)));
            if slot < before.virtual_table.wires@.len() {
                assert(before.virtual_table.free@[before.virtual_table.free@.len() - 1] == slot);
            }
        }
        let mut k: usize = 0;
        while k < lc.len()
            invariant
                0 <= k <= lc@.len(),
                0 <= slot < n,
                index == WireIndex::Virtual(slot as usize),
                slot < before.virtual_table.wires@.len()
                    ==> before.virtual_table.wires@[slot].refcount == 0,
                start.wires@[slot].value is Zero,
                start.depth@.len() == n,
                forall|j: int|
                    0 <= j < before.virtual_table.wires@.len() ==> (#[trigger] start.depth@[j])
                        == before.virtual_table.depth@[j],
                forall|j: int|
                    0 <= j < n ==> {
                        &&& (#[trigger] self.virtual_table.wires@[j]).terms@
                            == start.wires@[j].terms@
                        &&& self.virtual_table.wires@[j].value == start.wires@[j].value
                    },
                forall|target: WireIndex| #[trigger]
                    terms_weight(
                        before.virtual_table.wires@,
                        before.virtual_table.depth@,
                        collector.terms@,
                        target,
                    ) == before.lc_weight(lc@.take(k as int), target),
                collector.gain.val() == lc_gain(lc@.take(k as int)),
                term_views(collector.terms@) == collected(lc@.take(k as int)),
                if before.virtual_table.free@.len() > 0 {
                    &&& start.free@ == before.virtual_table.free@.drop_last()
                    &&& slot == before.virtual_table.free@.last()
                    &&& n == before.virtual_table.wires@.len()
                } else {
                    &&& start.free@ == before.virtual_table.free@
                    &&& slot == before.virtual_table.wires@.len()
                    &&& n == before.virtual_table.wires@.len() + 1
                },
                start.wires@[slot].refcount == 1,
                start.wires@[slot].handles == 1,
                before.virtual_table.terms_ok(collector.terms@),
                forall|m: int|
                    0 <= m < collector.terms@.len() ==> slot_of((#[trigger] collector.terms@[m]).0)
                        != slot,
                n == self.virtual_table.wires@.len(),
                n == start.wires@.len(),
                start.wf(),
                before.wf(),
                forall|j: int|
                    0 <= j < lc@.len() ==> (#[trigger] lc@[j]).wf() && (lc@[j] matches Step::Term(
                        w,
                        _,
                    ) ==> before.valid(w)),
                forall|j: int|
                    0 <= j < before.virtual_table.wires@.len() && j != slot ==> (
                    #[trigger] start.wires@[j]) == before.virtual_table.wires@[j],
                slot < before.virtual_table.wires@.len()
                    ==> before.virtual_table.wires@[slot].handles == 0,
                n == before.virtual_table.wires@.len() || (n == before.virtual_table.wires@.len()
                    + 1 && slot == n - 1),
                start.sy == before.virtual_table.sy,
                self.virtual_table.inv(Set::empty(), terms_extra(n, collector.terms@)),
                self.virtual_table.terms_ok(collector.terms@),
                collector.gain.wf(),
                self.virtual_table.sy == start.sy,
                self.virtual_table.depth == start.depth,
                self.virtual_table.free == start.free,
                self.virtual_table.wires@[slot] == start.wires@[slot],
                forall|j: int|
                    0 <= j < n ==> {
                        &&& (#[trigger] self.virtual_table.wires@[j]).handles
                            == start.wires@[j].handles
                        &&& self.virtual_table.wires@[j].refcount >= start.wires@[j].refcount
                    },
                self.multiplication_constraints == before.multiplication_constraints,
                self.linear_constraints == before.linear_constraints,
                self.y_inv == before.y_inv,
                self.current_y == before.current_y,
                self.available_b == before.available_b,
                self.rank == before.rank,
                self.rows == before.rows,
                self.start == before.start,
            decreases lc@.len() - k,
        {
            proof {
                assert(lc@[k as int].wf());
            }
            let ghost earlier = collector.terms@;
            proof {
                assert(lc@.take(k as int + 1).drop_last() =~= lc@.take(k as int));
                assert(lc@.take(k as int + 1).last() == lc@[k as int]);
            }
            match lc[k] {
                Step::Term(w, c) => {
                    proof {
                        assert(before.valid(w));
                        if let WireIndex::Virtual(t) = w.index {
                            assert(t != slot);
                            assert(start.wires@[t as int] == before.virtual_table.wires@[t as int]);
                            assert(start.slot_ok(t as int, Set::empty(), no_extra(n)));
                        }
                    }
                    let ghost gain = collector.gain;
                    collector = collector.add_term(&mut self.virtual_table, &w, c);
                    proof {
                        assert(term_views(collector.terms@) =~= term_views(earlier).push(
                            (w.index, (c.val() * gain.val()) % modulus()),
                        )) by {
                            assert(collector.terms@.drop_last() == earlier);
                            assert forall|m: int| 0 <= m < earlier.len() implies collector.terms@[m]
                                == earlier[m] by {
                                assert(collector.terms@.drop_last()[m] == collector.terms@[m]);
                            }
                        }
                    }
                    proof {
                        assert forall|target: WireIndex| #[trigger]
                            terms_weight(
                                before.virtual_table.wires@,
                                before.virtual_table.depth@,
                                collector.terms@,
                                target,
                            ) == before.lc_weight(lc@.take(k as int + 1), target) by {
                            assert(collector.terms@.drop_last() == earlier);
                            assert(before.lc_weight(lc@.take(k as int + 1), target)
                                == before.lc_weight(lc@.take(k as int), target) + ((c.val()
                                * lc_gain(lc@.take(k as int))) % modulus()) * before.weight(
                                w,
                                target,
                            ));
                            assert(terms_weight(
                                before.virtual_table.wires@,
                                before.virtual_table.depth@,
                                earlier,
                                target,
                            ) == before.lc_weight(lc@.take(k as int), target));
                        }
                        assert(collector.terms@ =~= earlier.push(collector.terms@.last()));
                        assert forall|m: int| 0 <= m < collector.terms@.len() implies slot_of(
                            (#[trigger] collector.terms@[m]).0,
                        ) != slot && before.virtual_table.in_range(collector.terms@[m].0)
                            && collector.terms@[m].1.wf() by {
                            if m < earlier.len() {
                                assert(collector.terms@[m] == earlier[m]);
                                assert(before.virtual_table.in_range(earlier[m].0));
                            }
                        }
                    }
                },
                Step::Gain(c) => {
                    collector = collector.gain(c);
                    proof {
                        assert forall|target: WireIndex| #[trigger]
                            terms_weight(
                                before.virtual_table.wires@,
                                before.virtual_table.depth@,
                                collector.terms@,
                                target,
                            ) == before.lc_weight(lc@.take(k as int + 1), target) by {
                            assert(before.lc_weight(lc@.take(k as int + 1), target)
                                == before.lc_weight(lc@.take(k as int), target) + 0);
                            assert(terms_weight(
                                before.virtual_table.wires@,
                                before.virtual_table.depth@,
                                earlier,
                                target,
                            ) == before.lc_weight(lc@.take(k as int), target));
                        }
                    }
                },
            }
            k += 1;
        }
        let ghost terms = collector.terms@;
        let ghost filled = self.virtual_table;
        proof {
            assert(lc@.take(k as int) =~= lc@);
        }
        self.virtual_table.update(index, collector.terms);
        proof {
            let t0 = before.virtual_table;
            let t3 = self.virtual_table;
            assert(VirtualTable::with_new_wire(t0, t3, slot, terms));
            assert forall|target: WireIndex| #[trigger]
                self.pending(target) == before.pending(target) by {
                VirtualTable::lemma_new_wire_pending(t0, t3, slot, terms, target);
            }
            assert forall|target: WireIndex| #[trigger]
                self.weight(Wire { index }, target) == before.lc_weight(lc@, target) by {
                VirtualTable::lemma_new_wire_weight(t0, t3, slot, terms, target);
            }
            assert forall|w: Wire, target: WireIndex| before.valid(w) implies #[trigger] self.weight(
                w,
                target,
            ) == before.weight(w, target) by {
                VirtualTable::lemma_new_wire_frame(t0, t3, slot, terms, w.index, target);
            }
            Self::lemma_wiring_kept(before, *self);
            assert forall|j: int| 0 <= j < t0.wires@.len() && j != slot implies (
            #[trigger] t3.wires@[j]).refcount == t0.wires@[j].refcount + count_refs(terms, j) by {
                assert(t0.slot_ok(j, Set::empty(), no_extra(t0.wires@.len())));
                assert(filled.slot_ok(j, Set::empty(), terms_extra(n, terms)));
                assert(start.slot_ok(j, Set::empty(), no_extra(n)));
                lemma_term_refs_same(start.wires@, filled.wires@, j);
            }
            assert forall|j: int| 0 <= j < t0.wires@.len() && j != slot implies {
                &&& (#[trigger] t3.wires@[j]).handles == t0.wires@[j].handles
                &&& t3.wires@[j].terms@ == t0.wires@[j].terms@
                &&& t3.wires@[j].value == t0.wires@[j].value
            } by {
                assert(t3.wires@[j] == filled.wires@[j]);
                assert(start.wires@[j] == t0.wires@[j]);
                assert(filled.wires@[j].terms@ == start.wires@[j].terms@);
            }
            assert(t3.wires@[slot].terms@ == terms);
            assert(t3.free@ == start.free@);
            assert(VirtualTable::grown(t0, t3, terms));
        }
        Wire { index }
    }

    /// Each term of the constraint is handed to the wire that it names:
    /// its coefficient, multiplied by the power of `y` that belongs to this
    /// constraint, is added to what the wire has collected.
    fn enforce_zero(&mut self, lc: &Vec<Step<Wire>>) -> (r: Result<(), Error>)
        ensures
            final(self).virtual_table.wires@.len() == old(self).virtual_table.wires@.len(),
            final(self).virtual_table.free == old(self).virtual_table.free,
            final(self).virtual_table.gates() == old(self).virtual_table.gates(),
            final(self).available_b == old(self).available_b,
            final(self).rank == old(self).rank,
            final(self).start == old(self).start,
            r is Err ==> final(self).rows == old(self).rows,
            r is Ok ==> final(self).rows@.len() == old(self).rows@.len() + 1 && final(self).rows@.drop_last() == old(self).rows@ && (forall|target: WireIndex| #[trigger] (final(self).rows@.last())(target) == old(self).lc_weight(lc@, target)),
            final(self).y_inv == old(self).y_inv,
            forall|j: int|
                0 <= j < old(self).virtual_table.wires@.len() ==> {
                    &&& (#[trigger] final(self).virtual_table.wires@[j]).handles == old(self).virtual_table.wires@[j].handles
                    &&& final(self).virtual_table.wires@[j].refcount == old(self).virtual_table.wires@[j].refcount
                    &&& final(self).virtual_table.wires@[j].terms == old(self).virtual_table.wires@[j].terms
                },
            r is Ok ==> final(self).current_y@ == (old(self).current_y@ * old(self).y_inv@)
                % crate::field::modulus(),
            r is Err ==> *final(self) == *old(self),
            final(self).virtual_table.depth == old(self).virtual_table.depth,
            r is Ok ==> forall|target: WireIndex|
                cong(
                    #[trigger] final(self).pending(target),
                    old(self).pending(target) + old(self).current_y@ * old(self).lc_weight(
                        lc@,
                        target,
                    ),
                ),
            forall|w: Wire, target: WireIndex|
                old(self).valid(w) ==> #[trigger] final(self).weight(w, target) == old(self).weight(
                    w,
                    target,
                ),
            r is Ok ==> VirtualTable::enforced(
                old(self).virtual_table,
                final(self).virtual_table,
                lc@,
                old(self).current_y@,
            ),
            r is Ok ==> final(self).linear_constraints == old(self).linear_constraints + 1,
            final(self).multiplication_constraints == old(self).multiplication_constraints,
    {
        let ghost before = *self;
        let q = self.linear_constraints;
        if q == self.rank.num_coeffs {
            return Err(Error::LinearBoundExceeded(self.rank.num_coeffs));
        }
        self.linear_constraints += 1;
        let mut enforcer = TermEnforcer { gain: Coeff::Arbitrary(self.current_y) };
        let ghost n = self.virtual_table.wires@.len();
        let ghost y = before.current_y@ as int;
        let mut k: usize = 0;
        proof {
            assert(lc@.take(0) =~= Seq::<Step<Wire>>::empty());
            assert(y * 1 == y);
            assert forall|target: WireIndex|
                cong(
                    #[trigger] self.pending(target),
                    before.pending(target) + y * before.lc_weight(lc@.take(0), target),
                ) by {
                assert(y * 0 == 0);
            }
        }
        while k < lc.len()
            invariant
                0 <= k <= lc@.len(),
                before.wf(),
                y == before.current_y@,
                cong(enforcer.gain.val() as int, y * lc_gain(lc@.take(k as int))),
                enforcer.gain.val() == enforcer_gain(lc@.take(k as int), before.current_y@),
                VirtualTable::enforced(
                    before.virtual_table,
                    self.virtual_table,
                    lc@.take(k as int),
                    before.current_y@,
                ),
                forall|target: WireIndex|
                    cong(
                        #[trigger] self.pending(target),
                        before.pending(target) + y * before.lc_weight(lc@.take(k as int), target),
                    ),
                forall|j: int|
                    0 <= j < lc@.len() ==> (#[trigger] lc@[j]).wf() && (lc@[j] matches Step::Term(
                        w,
                        _,
                    ) ==> before.valid(w)),
                n == before.virtual_table.wires@.len(),
                self.virtual_table.wf(),
                enforcer.gain.wf(),
                self.virtual_table.wires@.len() == n,
                self.virtual_table.free == before.virtual_table.free,
                self.virtual_table.depth == before.virtual_table.depth,
                self.virtual_table.gates() == before.virtual_table.gates(),
                self.virtual_table.sy.b@.len() == before.virtual_table.sy.b@.len(),
                self.virtual_table.sy.c@.len() == before.virtual_table.sy.c@.len(),
                forall|j: int|
                    0 <= j < n ==> {
                        &&& (#[trigger] self.virtual_table.wires@[j]).handles
                            == before.virtual_table.wires@[j].handles
                        &&& self.virtual_table.wires@[j].refcount
                            == before.virtual_table.wires@[j].refcount
                        &&& self.virtual_table.wires@[j].terms
                            == before.virtual_table.wires@[j].terms
                    },
                self.multiplication_constraints == before.multiplication_constraints,
                self.linear_constraints == before.linear_constraints + 1,
                self.y_inv == before.y_inv,
                self.current_y == before.current_y,
                self.available_b == before.available_b,
                self.rank == before.rank,
                self.rows == before.rows,
                self.start == before.start,
            decreases lc@.len() - k,
        {
            proof {
                assert(lc@[k as int].wf());
            }
            let ghost cur = *self;
            let ghost ge = enforcer.gain.val() as int;
            let ghost g = lc_gain(lc@.take(k as int)) as int;
            proof {
                assert(lc@.take(k as int + 1).drop_last() =~= lc@.take(k as int));
                assert(lc@.take(k as int + 1).last() == lc@[k as int]);
                before.virtual_table.lemma_within_slots(Set::empty(), no_extra(n));
                assert(crate::wiring::agree(
                    before.virtual_table.wires@,
                    before.virtual_table.depth@,
                    cur.virtual_table.wires@,
                    cur.virtual_table.depth@,
                    before.virtual_table.slots(),
                ));
            }
            match lc[k] {
                Step::Term(w, c) => {
                    proof {
                        assert(before.valid(w));
                        if let WireIndex::Virtual(t) = w.index {
                            assert(before.virtual_table.slot_ok(
                                t as int,
                                Set::empty(),
                                no_extra(n),
                            ));
                        }
                    }
                    enforcer = enforcer.add_term(&mut self.virtual_table, &w, c);
                    proof {
                        let next = self.virtual_table;
                        assert forall|place: Place|
                            before.virtual_table.has(place) implies #[trigger] next.holds(place)
                            == landed(
                            lc@.take(k as int + 1),
                            before.current_y@,
                            before.virtual_table.holds(place),
                            place,
                        ) by {
                            assert(cur.virtual_table.has(place));
                            assert(cur.virtual_table.holds(place) == landed(
                                lc@.take(k as int),
                                before.current_y@,
                                before.virtual_table.holds(place),
                                place,
                            ));
                        }
                    }
                    proof {
                        let cv = c.val() as int;
                        let a1 = ((c.val() * ge) % (modulus() as int)) as int;
                        let cg = ((c.val() * g) % (modulus() as int)) as int;
                        crate::wiring::lemma_cong_mod(cv * ge);
                        crate::wiring::lemma_cong_mul(cv, cv, ge, y * g);
                        assert(cv * (y * g) == y * (cv * g)) by (nonlinear_arith);
                        crate::wiring::lemma_cong_mod(cv * g);
                        crate::wiring::lemma_cong_mul(y, y, cv * g, cg);
                        assert(cong(a1, y * cg));
                        assert forall|target: WireIndex|
                            cong(
                                #[trigger] self.pending(target),
                                before.pending(target) + y * before.lc_weight(
                                    lc@.take(k as int + 1),
                                    target,
                                ),
                            ) by {
                            crate::wiring::lemma_flat_frame(
                                before.virtual_table.wires@,
                                before.virtual_table.depth@,
                                cur.virtual_table.wires@,
                                cur.virtual_table.depth@,
                                w.index,
                                target,
                                before.virtual_table.slots(),
                            );
                            let wt = before.weight(w, target);
                            let l = before.lc_weight(lc@.take(k as int), target);
                            let pb = before.pending(target);
                            assert(before.lc_weight(lc@.take(k as int + 1), target) == l + cg * wt);
                            crate::wiring::lemma_cong_mul(a1, y * cg, wt, wt);
                            crate::wiring::lemma_cong_add(
                                cur.pending(target),
                                pb + y * l,
                                a1 * wt,
                                (y * cg) * wt,
                            );
                            assert((pb + y * l) + (y * cg) * wt == pb + y * (l + cg * wt))
                                by (nonlinear_arith);
                        }
                    }
                },
                Step::Gain(c) => {
                    enforcer = enforcer.gain(c);
                    proof {
                        let next = self.virtual_table;
                        assert forall|place: Place|
                            before.virtual_table.has(place) implies #[trigger] next.holds(place)
                            == landed(
                            lc@.take(k as int + 1),
                            before.current_y@,
                            before.virtual_table.holds(place),
                            place,
                        ) by {
                            assert(cur.virtual_table.holds(place) == landed(
                                lc@.take(k as int),
                                before.current_y@,
                                before.virtual_table.holds(place),
                                place,
                            ));
                        }
                    }
                    proof {
                        let cv = c.val() as int;
                        crate::wiring::lemma_cong_mod(ge * cv);
                        crate::wiring::lemma_cong_mul(ge, y * g, cv, cv);
                        assert((y * g) * cv == y * (g * cv)) by (nonlinear_arith);
                        crate::wiring::lemma_cong_mod(g * cv);
                        crate::wiring::lemma_cong_mul(
                            y,
                            y,
                            g * cv,
                            ((g * cv) % (modulus() as int)) as int,
                        );
                        assert forall|target: WireIndex|
                            cong(
                                #[trigger] self.pending(target),
                                before.pending(target) + y * before.lc_weight(
                                    lc@.take(k as int + 1),
                                    target,
                                ),
                            ) by {
                            assert(before.lc_weight(lc@.take(k as int + 1), target)
                                == before.lc_weight(lc@.take(k as int), target) + 0);
                        }
                    }
                },
            }
            k += 1;
        }
        let ghost done = *self;
        self.current_y = self.current_y.mul(&self.y_inv);
        self.rows = Ghost(self.rows@.push(|target: WireIndex| before.lc_weight(lc@, target)));
        proof {
            assert(self.rows@.drop_last() =~= before.rows@);
            assert(lc@.take(k as int) =~= lc@);
            assert forall|target: WireIndex|
                cong(
                    #[trigger] self.pending(target),
                    combine(self.rows@, self.start@, self.y_inv@, target),
                ) by {
                assert(self.pending(target) == done.pending(target));
                assert(cong(
                    done.pending(target),
                    before.pending(target) + y * before.lc_weight(lc@.take(k as int), target),
                ));
                assert(cong(
                    before.pending(target),
                    combine(before.rows@, before.start@, before.y_inv@, target),
                ));
                crate::wiring::lemma_cong_add(
                    before.pending(target),
                    combine(before.rows@, before.start@, before.y_inv@, target),
                    y * before.lc_weight(lc@, target),
                    y * before.lc_weight(lc@, target),
                );
                assert((self.rows@.last())(target) == before.lc_weight(lc@, target));
            }
            assert forall|target: WireIndex|
                cong(
                    #[trigger] self.pending(target),
                    before.pending(target) + before.current_y@ * before.lc_weight(lc@, target),
                ) by {
                assert(self.pending(target) == done.pending(target));
            }
            before.virtual_table.lemma_within_slots(Set::empty(), no_extra(n));
            assert(crate::wiring::agree(
                before.virtual_table.wires@,
                before.virtual_table.depth@,
                self.virtual_table.wires@,
                self.virtual_table.depth@,
                before.virtual_table.slots(),
            ));
            assert forall|w: Wire, target: WireIndex| before.valid(w) implies #[trigger] self.weight(
                w,
                target,
            ) == before.weight(w, target) by {
                crate::wiring::lemma_flat_frame(
                    before.virtual_table.wires@,
                    before.virtual_table.depth@,
                    self.virtual_table.wires@,
                    self.virtual_table.depth@,
                    w.index,
                    target,
                    before.virtual_table.slots(),
                );
            }
        }
        Ok(())
    }

    fn predicting(&self) -> (r: bool) {
        false
    }

    /// The unused right leg is put aside.
    fn suspend(&mut self) -> (saved: Option<Wire>)
        ensures
            saved == old(self).available_b,
            final(self).available_b is None,
            final(self).virtual_table == old(self).virtual_table,
            final(self).rows == old(self).rows,
            final(self).start == old(self).start,
            final(self).y_inv == old(self).y_inv,
            final(self).current_y == old(self).current_y,
            final(self).rank == old(self).rank,
            final(self).multiplication_constraints == old(self).multiplication_constraints,
            final(self).linear_constraints == old(self).linear_constraints,
    {
        let ghost before = *self;
        let saved = self.available_b;
        self.available_b = None;
        proof {
            assert forall|target: WireIndex|
                cong(#[trigger] self.pending(target), before.pending(target)) by {
                assert(self.virtual_table.pending(target) == before.virtual_table.pending(target));
            }
            Self::lemma_wiring_kept(before, *self);
        }
        saved
    }

    /// The unused right leg comes back.
    fn resume(&mut self, saved: Option<Wire>)
        ensures
            final(self).available_b == saved,
            final(self).virtual_table == old(self).virtual_table,
            final(self).rows == old(self).rows,
            final(self).start == old(self).start,
            final(self).y_inv == old(self).y_inv,
            final(self).current_y == old(self).current_y,
            final(self).rank == old(self).rank,
            final(self).multiplication_constraints == old(self).multiplication_constraints,
            final(self).linear_constraints == old(self).linear_constraints,
    {
        let ghost before = *self;
        self.available_b = saved;
        proof {
            assert forall|target: WireIndex|
                cong(#[trigger] self.pending(target), before.pending(target)) by {
                assert(self.virtual_table.pending(target) == before.virtual_table.pending(target));
            }
            Self::lemma_wiring_kept(before, *self);
        }
    }
}

impl Evaluator {
    /// An evaluator at the point `y`, for a circuit with
    /// `num_linear_constraints` constraints in all. Its first gate is
    /// allocated already: the output leg of that gate is the constant wire.
    pub fn new(rank: Rank, y: &Fe, num_linear_constraints: usize) -> (r: Result<Evaluator, Error>)
        requires
            y.wf(),
            y@ != 0,
            num_linear_constraints >= 1,
        ensures
            rank.n == 0 ==> (r matches Err(e) && e == Error::MultiplicationBoundExceeded(0)),
            rank.n != 0 ==> (r matches Ok(ev) && {
                &&& ev.wf()
                &&& ev.rank == rank
                &&& ev.multiplication_constraints == 1
                &&& ev.linear_constraints == 0
                &&& ev.available_b is None
                &&& ev.virtual_table.wires@.len() == 0
                &&& ev.virtual_table.free@.len() == 0
                &&& (y@ * ev.y_inv@) % crate::field::modulus() == 1
                &&& ev.current_y@ == crate::field::pow_mod(
                    y@,
                    (num_linear_constraints - 1) as nat,
                )
                &&& ev.start@ == ev.current_y@
                &&& ev.rows@.len() == 0
            }),
    {
        if rank.n == 0 {
            return Err(Error::MultiplicationBoundExceeded(rank.n));
        }
        let y_inv = y.invert().unwrap();
        let current_y = y.pow((num_linear_constraints - 1) as u64);
        let mut virtual_table = VirtualTable::new();
        virtual_table.push_gate();
        let ev = Evaluator {
            multiplication_constraints: 1,
            linear_constraints: 0,
            y_inv,
            current_y,
            virtual_table,
            available_b: None,
            rank,
            start: Ghost(current_y@),
            rows: Ghost(Seq::empty()),
        };
        proof {
            assert forall|target: WireIndex|
                cong(#[trigger] ev.pending(target), combine(ev.rows@, ev.start@, ev.y_inv@, target)) by {
                assert(ev.virtual_table.coefficient(target) == 0);
            }
        }
        Ok(ev)
    }

    /// Makes a second handle to the wire. A virtual wire counts one more
    /// reference.
    pub fn clone_wire(&mut self, wire: &Wire) -> (copy: Wire)
        requires
            old(self).wf(),
            old(self).valid(*wire),
            wire.index matches WireIndex::Virtual(i) ==> old(self).virtual_table.wires@[i as int].handles
                < usize::MAX,
        ensures
            final(self).wf(),
            copy == *wire,
            final(self).usage() == old(self).usage(),
            final(self).start == old(self).start,
            final(self).y_inv == old(self).y_inv,
            final(self).rows == old(self).rows,
            final(self).rank == old(self).rank,
            forall|w: Wire| old(self).valid(w) ==> final(self).valid(w),
            final(self).virtual_table.wires@.len() == old(self).virtual_table.wires@.len(),
            forall|j: int|
                0 <= j < old(self).virtual_table.wires@.len() ==> (#[trigger] final(self).virtual_table.wires@[j]).handles == old(self).virtual_table.wires@[j].handles
                    + if slot_of(wire.index) == j {
                    1int
                } else {
                    0int
                },
            forall|target: WireIndex| #[trigger] final(self).pending(target) == old(self).pending(target),
            forall|w: Wire, target: WireIndex|
                old(self).valid(w) ==> #[trigger] final(self).weight(w, target) == old(self).weight(
                    w,
                    target,
                ),
            !(wire.index is Virtual) ==> *final(self) == *old(self),
            wire.index is Virtual ==> VirtualTable::recounted(
                old(self).virtual_table,
                final(self).virtual_table,
                slot_of(wire.index),
                1,
                1,
            ),
            final(self).available_b == old(self).available_b,
            final(self).current_y == old(self).current_y,
    {
        let ghost before = *self;
        if let WireIndex::Virtual(i) = wire.index {
            self.virtual_table.retain(i);
        }
        proof {
            let n = before.virtual_table.wires@.len();
            let none = no_extra(n);
            before.virtual_table.lemma_within_slots(Set::empty(), none);
            assert(crate::wiring::agree(
                before.virtual_table.wires@,
                before.virtual_table.depth@,
                self.virtual_table.wires@,
                self.virtual_table.depth@,
                before.virtual_table.slots(),
            ));
            assert forall|target: WireIndex| #[trigger]
                self.pending(target) == before.pending(target) by {
                VirtualTable::lemma_pending_value(
                    before.virtual_table,
                    self.virtual_table,
                    Set::empty(),
                    none,
                    -1,
                    target,
                );
            }
            assert forall|w: Wire, target: WireIndex| before.valid(w) implies #[trigger] self.weight(
                w,
                target,
            ) == before.weight(w, target) by {
                crate::wiring::lemma_flat_frame(
                    before.virtual_table.wires@,
                    before.virtual_table.depth@,
                    self.virtual_table.wires@,
                    self.virtual_table.depth@,
                    w.index,
                    target,
                    before.virtual_table.slots(),
                );
            }
            Self::lemma_wiring_kept(before, *self);
        }
        Wire { index: wire.index }
    }

    /// Gives up a handle. A virtual wire loses one reference, and resolves
    /// if that was the last one.
    pub fn drop_wire(&mut self, wire: Wire)
        requires
            old(self).wf(),
            old(self).valid(wire),
            !(wire.index is Virtual && old(self).available_b == Some(wire)),
        ensures
            final(self).wf(),
            final(self).usage() == old(self).usage(),
            final(self).start == old(self).start,
            final(self).y_inv == old(self).y_inv,
            final(self).rows == old(self).rows,
            final(self).rank == old(self).rank,
            final(self).virtual_table.wires@.len() == old(self).virtual_table.wires@.len(),
            final(self).virtual_table.free@.len() >= old(self).virtual_table.free@.len(),
            forall|j: int|
                0 <= j < old(self).virtual_table.wires@.len() ==> (#[trigger] final(self).virtual_table.wires@[j]).handles == old(self).virtual_table.wires@[j].handles
                    - if slot_of(wire.index) == j {
                    1int
                } else {
                    0int
                },
            forall|target: WireIndex|
                cong(#[trigger] final(self).pending(target), old(self).pending(target)),
            forall|w: Wire, target: WireIndex|
                final(self).valid(w) ==> #[trigger] final(self).weight(w, target) == old(self).weight(w, target),
            !(wire.index is Virtual) ==> *final(self) == *old(self),
            wire.index is Virtual ==> final(self).virtual_table.model() == old(self).virtual_table.model().unhanded(slot_of(wire.index)).freed(
                wire.index,
                refcount_sum(old(self).virtual_table.wires@),
            ),
            final(self).multiplication_constraints == old(self).multiplication_constraints,
            final(self).linear_constraints == old(self).linear_constraints,
            wire.index is Virtual && old(self).virtual_table.wires@[slot_of(wire.index)].refcount
                > 1 ==> VirtualTable::recounted(
                old(self).virtual_table,
                final(self).virtual_table,
                slot_of(wire.index),
                -1,
                -1,
            ),
            final(self).available_b == old(self).available_b,
            final(self).current_y == old(self).current_y,
    {
        let ghost before = *self;
        if let WireIndex::Virtual(i) = wire.index {
            self.virtual_table.release(i);
        }
        proof {
            assert forall|w: Wire, target: WireIndex| self.valid(w) implies #[trigger] self.weight(
                w,
                target,
            ) == before.weight(w, target) by {
                if let WireIndex::Virtual(j) = w.index {
                    assert(self.virtual_table.slot_ok(
                        j as int,
                        Set::empty(),
                        no_extra(self.virtual_table.wires@.len()),
                    ));
                }
                if wire.index is Virtual {
                    VirtualTable::lemma_weight_kept(
                        before.virtual_table,
                        self.virtual_table,
                        w.index,
                        target,
                    );
                }
            }
            assert forall|target: WireIndex|
                cong(#[trigger] self.pending(target), before.pending(target)) by {
                assert(cong(
                    self.virtual_table.pending(target),
                    before.virtual_table.pending(target),
                ));
            }
            Self::lemma_wiring_kept(before, *self);
        }
    }

    /// Gives up every handle that is still held, as happens when the
    /// circuit has been synthesized and its wires go out of use. After
    /// that every slot has resolved and is on the free list. An unused leg
    /// of a gate is given up too.
    pub fn release_all(&mut self)
        requires
            old(self).wf(),
        ensures
            final(self).wf(),
            final(self).usage() == (Resources { paired: false, ..old(self).usage() }),
            final(self).start == old(self).start,
            final(self).y_inv == old(self).y_inv,
            final(self).rows == old(self).rows,
            final(self).rank == old(self).rank,
            final(self).virtual_table.wires@.len() == old(self).virtual_table.wires@.len(),
            final(self).virtual_table.free@.len() == final(self).virtual_table.wires@.len(),
            forall|j: int|
                0 <= j < final(self).virtual_table.wires@.len() ==> {
                    &&& (#[trigger] final(self).virtual_table.wires@[j]).handles == 0
                    &&& final(self).virtual_table.wires@[j].refcount == 0
                },
            forall|target: WireIndex|
                cong(#[trigger] final(self).pending(target), old(self).pending(target)),
            forall|target: WireIndex| #[trigger]
                final(self).pending(target) == final(self).virtual_table.coefficient(target),
    {
        let ghost entry = *self;
        self.available_b = None;
        let ghost before = *self;
        proof {
            assert forall|target: WireIndex|
                cong(#[trigger] before.pending(target), entry.pending(target)) by {
                assert(before.virtual_table.pending(target) == entry.virtual_table.pending(target));
            }
            Self::lemma_wiring_kept(entry, before);
        }
        let count = self.virtual_table.wires.len();
        let mut slot: usize = 0;
        while slot < count
            invariant
                0 <= slot <= count,
                count == self.virtual_table.wires@.len(),
                count == before.virtual_table.wires@.len(),
                self.virtual_table.wf(),
                self.virtual_table.gates() == before.virtual_table.gates(),
                forall|target: WireIndex|
                    cong(#[trigger] self.pending(target), before.pending(target)),
                forall|j: int|
                    0 <= j < slot ==> (#[trigger] self.virtual_table.wires@[j]).handles == 0,
                self.multiplication_constraints == before.multiplication_constraints,
                self.linear_constraints == before.linear_constraints,
                self.y_inv == before.y_inv,
                self.current_y == before.current_y,
                self.available_b == before.available_b,
                self.rank == before.rank,
                self.rows == before.rows,
                self.start == before.start,
            decreases count - slot,
        {
            while self.virtual_table.wires[slot].handles > 0
                invariant
                    0 <= slot < count,
                    count == self.virtual_table.wires@.len(),
                    self.virtual_table.wf(),
                    self.virtual_table.gates() == before.virtual_table.gates(),
                    forall|target: WireIndex|
                        cong(#[trigger] self.pending(target), before.pending(target)),
                    forall|j: int|
                        0 <= j < slot ==> (#[trigger] self.virtual_table.wires@[j]).handles == 0,
                    self.multiplication_constraints == before.multiplication_constraints,
                    self.linear_constraints == before.linear_constraints,
                    self.y_inv == before.y_inv,
                    self.current_y == before.current_y,
                    self.available_b == before.available_b,
                    self.rank == before.rank,
                    self.rows == before.rows,
                    self.start == before.start,
                self.rows == before.rows,
                self.start == before.start,
                decreases self.virtual_table.wires@[slot as int].handles,
            {
                let ghost earlier = *self;
                self.virtual_table.release(slot);
                proof {
                    assert forall|target: WireIndex|
                        cong(#[trigger] self.pending(target), before.pending(target)) by {
                        assert(cong(
                            self.virtual_table.pending(target),
                            earlier.virtual_table.pending(target),
                        ));
                        assert(cong(earlier.pending(target), before.pending(target)));
                    }
                }
            }
            slot += 1;
        }
        proof {
            Self::lemma_wiring_kept(before, *self);
            self.virtual_table.lemma_zero_leak();
            assert forall|target: WireIndex| #[trigger]
                self.pending(target) == self.virtual_table.coefficient(target) by {
                assert forall|j: int| 0 <= j < count implies (
                #[trigger] self.virtual_table.wires@[j]).value is Zero by {
                    assert(self.virtual_table.slot_ok(j, Set::empty(), no_extra(count as nat)));
                }
                self.virtual_table.lemma_nothing_owed(count as nat, target);
            }
        }
    }

    /// Ends the evaluation and hands out the polynomial.
    pub fn finish(self) -> (sy: Polynomial)
        requires
            self.wf(),
        ensures
            sy == self.virtual_table.sy,
            sy.wf(),
            sy.a@.len() == self.multiplication_constraints,
            sy.b@.len() == self.multiplication_constraints,
            sy.c@.len() == self.multiplication_constraints,
    {
        self.virtual_table.sy
    }
}

} // verus!
