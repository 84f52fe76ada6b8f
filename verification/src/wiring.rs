//! What the table of virtual wires stands for.
//!
//! A virtual wire is a linear combination of wires, which may be virtual
//! themselves. Followed down to the wires of the gates, it gives each of
//! them a *weight*. What a slot has collected is owed to those wires in
//! proportion to their weights; the coefficient of a wire of a gate in the
//! finished polynomial is what it holds already plus what the slots still
//! owe to it. No operation of the table but a constraint changes that sum.

use crate::coeff::Coeff;
use crate::field::modulus;
use crate::sy::{slot_of, term_refs, Term, VirtualTable, VirtualWire, WireIndex};
use vstd::prelude::*;

verus! {

/// The two integers stand for the same element of the field.
pub open spec fn cong(a: int, b: int) -> bool {
    a % (modulus() as int) == b % (modulus() as int)
}

pub proof fn lemma_cong_add(a: int, b: int, c: int, d: int)
    requires
        cong(a, b),
        cong(c, d),
    ensures
        cong(a + c, b + d),
{
    crate::field::lemma_modulus_large();
    vstd::arithmetic::div_mod::lemma_add_mod_noop(a, c, modulus() as int);
    vstd::arithmetic::div_mod::lemma_add_mod_noop(b, d, modulus() as int);
}

pub proof fn lemma_cong_mul(a: int, b: int, c: int, d: int)
    requires
        cong(a, b),
        cong(c, d),
    ensures
        cong(a * c, b * d),
{
    crate::field::lemma_modulus_large();
    vstd::arithmetic::div_mod::lemma_mul_mod_noop(a, c, modulus() as int);
    vstd::arithmetic::div_mod::lemma_mul_mod_noop(b, d, modulus() as int);
}

pub proof fn lemma_cong_mod(a: int)
    ensures
        cong(a % (modulus() as int), a),
{
    crate::field::lemma_modulus_large();
    vstd::arithmetic::div_mod::lemma_mod_twice(a, modulus() as int);
}

/// The weight that a list of terms gives to the wire `target` of a gate:
/// each term contributes its coefficient, times the weight that its wire
/// gives to `target`. A term that names a slot is followed into the terms
/// of that slot, as long as the depth of the slot is below `bound`.
pub open spec fn flat_terms(
    wires: Seq<VirtualWire>,
    depth: Seq<nat>,
    terms: Seq<Term>,
    bound: nat,
    target: WireIndex,
) -> int
    decreases bound, terms.len(),
{
    if terms.len() == 0 {
        0
    } else {
        flat_terms(wires, depth, terms.drop_last(), bound, target) + terms.last().1.val()
            * match terms.last().0 {
            WireIndex::Virtual(j) => if j < wires.len() && j < depth.len() && depth[j as int]
                < bound {
                flat_terms(wires, depth, wires[j as int].terms@, depth[j as int], target)
            } else {
                0
            },
            other => if other == target {
                1
            } else {
                0
            },
        }
    }
}

/// The weight that the wire `index` gives to the wire `target` of a gate.
pub open spec fn flat(
    wires: Seq<VirtualWire>,
    depth: Seq<nat>,
    index: WireIndex,
    target: WireIndex,
) -> int {
    match index {
        WireIndex::Virtual(j) => if j < wires.len() && j < depth.len() {
            flat_terms(wires, depth, wires[j as int].terms@, depth[j as int], target)
        } else {
            0
        },
        other => if other == target {
            1
        } else {
            0
        },
    }
}

/// The weight that the slot `i` gives to the wire `target` of a gate.
pub open spec fn slot_weight(
    wires: Seq<VirtualWire>,
    depth: Seq<nat>,
    i: int,
    target: WireIndex,
) -> int {
    flat_terms(wires, depth, wires[i].terms@, depth[i], target)
}

/// What the slot `i` owes to the wire `target`: what it has collected,
/// times the weight that it gives to `target`.
pub open spec fn contribution(
    wires: Seq<VirtualWire>,
    depth: Seq<nat>,
    i: int,
    target: WireIndex,
) -> int {
    wires[i].value.val() * slot_weight(wires, depth, i, target)
}

/// What the first `count` slots owe to the wire `target`.
pub open spec fn virtual_sum(
    wires: Seq<VirtualWire>,
    depth: Seq<nat>,
    count: nat,
    target: WireIndex,
) -> int
    decreases count,
{
    if count == 0 {
        0
    } else {
        virtual_sum(wires, depth, (count - 1) as nat, target) + contribution(
            wires,
            depth,
            count - 1,
            target,
        )
    }
}

/// Every slot that the terms name is in `good`.
pub open spec fn within(terms: Seq<Term>, good: Set<int>) -> bool {
    forall|k: int|
        0 <= k < terms.len() ==> ((#[trigger] terms[k]).0 is Virtual ==> good.contains(
            slot_of(terms[k].0),
        ))
}

/// The two tables agree on the slots in `good`, whose terms name slots in
/// `good` only.
pub open spec fn agree(
    a_wires: Seq<VirtualWire>,
    a_depth: Seq<nat>,
    b_wires: Seq<VirtualWire>,
    b_depth: Seq<nat>,
    good: Set<int>,
) -> bool {
    forall|j: int| #[trigger]
        good.contains(j) ==> {
            &&& 0 <= j < a_wires.len()
            &&& j < b_wires.len()
            &&& j < a_depth.len()
            &&& j < b_depth.len()
            &&& b_wires[j].terms@ == a_wires[j].terms@
            &&& b_depth[j] == a_depth[j]
            &&& within(a_wires[j].terms@, good)
        }
}

/// Two tables that agree on a set of slots which is closed under the terms
/// give the same weights through terms that name slots in that set.
pub proof fn lemma_flat_terms_frame(
    a_wires: Seq<VirtualWire>,
    a_depth: Seq<nat>,
    b_wires: Seq<VirtualWire>,
    b_depth: Seq<nat>,
    terms: Seq<Term>,
    bound: nat,
    target: WireIndex,
    good: Set<int>,
)
    requires
        agree(a_wires, a_depth, b_wires, b_depth, good),
        within(terms, good),
    ensures
        flat_terms(a_wires, a_depth, terms, bound, target) == flat_terms(
            b_wires,
            b_depth,
            terms,
            bound,
            target,
        ),
    decreases bound, terms.len(),
{
    if terms.len() > 0 {
        let rest = terms.drop_last();
        assert forall|k: int| 0 <= k < rest.len() && (#[trigger] rest[k]).0 is Virtual implies good.contains(slot_of(rest[k].0)) by {
            assert(rest[k] == terms[k]);
        }
        lemma_flat_terms_frame(a_wires, a_depth, b_wires, b_depth, rest, bound, target, good);
        assert(terms.last() == terms[terms.len() - 1]);
        if let WireIndex::Virtual(j) = terms.last().0 {
            assert(slot_of(terms[terms.len() - 1].0) == j);
            assert(good.contains(j as int));
            if a_depth[j as int] < bound {
                lemma_flat_terms_frame(
                    a_wires,
                    a_depth,
                    b_wires,
                    b_depth,
                    a_wires[j as int].terms@,
                    a_depth[j as int],
                    target,
                    good,
                );
            }
        }
    }
}

/// The contribution of the first term.
pub proof fn lemma_flat_terms_first(
    wires: Seq<VirtualWire>,
    depth: Seq<nat>,
    terms: Seq<Term>,
    bound: nat,
    target: WireIndex,
)
    requires
        terms.len() > 0,
        terms[0].0 matches WireIndex::Virtual(j) ==> j < wires.len() && j < depth.len()
            && depth[j as int] < bound,
    ensures
        flat_terms(wires, depth, terms, bound, target) == flat_terms(
            wires,
            depth,
            terms.drop_first(),
            bound,
            target,
        ) + terms[0].1.val() * flat(wires, depth, terms[0].0, target),
    decreases terms.len(),
{
    if terms.len() == 1 {
        assert(terms.drop_last() =~= Seq::<Term>::empty());
        assert(terms.drop_first() =~= Seq::<Term>::empty());
    } else {
        lemma_flat_terms_first(wires, depth, terms.drop_last(), bound, target);
        assert(terms.drop_last().drop_first() =~= terms.drop_first().drop_last());
        assert(terms.drop_first().last() == terms.last());
    }
}

/// Slots that owe the same, one by one, owe the same in all; a slot that
/// owes something else makes that difference.
pub proof fn lemma_virtual_sum_change(
    a_wires: Seq<VirtualWire>,
    a_depth: Seq<nat>,
    b_wires: Seq<VirtualWire>,
    b_depth: Seq<nat>,
    count: nat,
    target: WireIndex,
    changed: int,
)
    requires
        forall|i: int|
            0 <= i < count && i != changed ==> #[trigger] contribution(b_wires, b_depth, i, target)
                == contribution(a_wires, a_depth, i, target),
    ensures
        virtual_sum(b_wires, b_depth, count, target) + (if 0 <= changed < count {
            contribution(a_wires, a_depth, changed, target)
        } else {
            0
        }) == virtual_sum(a_wires, a_depth, count, target) + (if 0 <= changed < count {
            contribution(b_wires, b_depth, changed, target)
        } else {
            0
        }),
    decreases count,
{
    if count > 0 {
        lemma_virtual_sum_change(
            a_wires,
            a_depth,
            b_wires,
            b_depth,
            (count - 1) as nat,
            target,
            changed,
        );
        if changed != count - 1 {
            assert(contribution(b_wires, b_depth, count - 1, target) == contribution(
                a_wires,
                a_depth,
                count - 1,
                target,
            ));
        }
    }
}

/// The slots of a table other than `skip`.
pub open spec fn all_but(n: nat, skip: int) -> Set<int> {
    Set::new(|j: int| 0 <= j < n && j != skip)
}

/// The slots of a table to which something refers.
pub open spec fn referred(wires: Seq<VirtualWire>) -> Set<int> {
    Set::new(|j: int| 0 <= j < wires.len() && wires[j].refcount > 0)
}

/// Where nothing refers to the slot `skip`, the terms of every slot name
/// other slots only.
pub proof fn lemma_within_all_but(
    table: VirtualTable,
    pending: Set<int>,
    extra: Seq<nat>,
    skip: int,
)
    requires
        table.inv(pending, extra),
        0 <= skip < table.wires@.len() ==> term_refs(table.wires@, skip) == 0,
    ensures
        forall|j: int|
            0 <= j < table.wires@.len() ==> within(
                (#[trigger] table.wires@[j]).terms@,
                all_but(table.wires@.len(), skip),
            ),
{
    let n = table.wires@.len();
    let good = all_but(n, skip);
    assert forall|j: int| 0 <= j < n implies within((#[trigger] table.wires@[j]).terms@, good) by {
        let ts = table.wires@[j].terms@;
        assert(table.slot_ok(j, pending, extra));
        assert forall|k: int| 0 <= k < ts.len() && (#[trigger] ts[k]).0 is Virtual implies good.contains(slot_of(ts[k].0)) by {
            assert(table.in_range(ts[k].0));
            if ts[k].0 is Virtual && slot_of(ts[k].0) == skip {
                crate::sy::lemma_term_refs_member(table.wires@, j, k, skip);
            }
        }
    }
}

/// The terms of every slot name slots to which something refers.
pub proof fn lemma_within_referred(table: VirtualTable, pending: Set<int>, extra: Seq<nat>)
    requires
        table.inv(pending, extra),
    ensures
        forall|j: int|
            0 <= j < table.wires@.len() ==> within(
                (#[trigger] table.wires@[j]).terms@,
                referred(table.wires@),
            ),
{
    let n = table.wires@.len();
    let good = referred(table.wires@);
    assert forall|j: int| 0 <= j < n implies within((#[trigger] table.wires@[j]).terms@, good) by {
        let ts = table.wires@[j].terms@;
        assert(table.slot_ok(j, pending, extra));
        assert forall|k: int| 0 <= k < ts.len() && (#[trigger] ts[k]).0 is Virtual implies good.contains(slot_of(ts[k].0)) by {
            assert(table.in_range(ts[k].0));
            if let WireIndex::Virtual(m) = ts[k].0 {
                crate::sy::lemma_term_refs_member(table.wires@, j, k, m as int);
                assert(table.slot_ok(m as int, pending, extra));
            }
        }
    }
}

impl VirtualTable {
    /// The coefficient that the polynomial holds for a wire of a gate.
    pub open spec fn coefficient(&self, target: WireIndex) -> int {
        match target {
            WireIndex::A(i) => if i < self.sy.a@.len() {
                self.sy.a@[i as int]@ as int
            } else {
                0
            },
            WireIndex::B(i) => if i < self.sy.b@.len() {
                self.sy.b@[i as int]@ as int
            } else {
                0
            },
            WireIndex::C(i) => if i < self.sy.c@.len() {
                self.sy.c@[i as int]@ as int
            } else {
                0
            },
            WireIndex::Virtual(_) => 0,
        }
    }

    /// The weight that the wire `index` gives to the wire `target` of a
    /// gate: one if they are the same wire, and for a virtual wire the sum
    /// over its terms of the coefficient times the weight of the term's
    /// wire.
    pub open spec fn weight(&self, index: WireIndex, target: WireIndex) -> int {
        flat(self.wires@, self.depth@, index, target)
    }

    /// What the finished polynomial will hold for the wire `target` of a
    /// gate, once every slot has resolved: what it holds now, plus what
    /// the slots owe.
    pub open spec fn pending(&self, target: WireIndex) -> int {
        self.coefficient(target) + virtual_sum(
            self.wires@,
            self.depth@,
            self.wires@.len(),
            target,
        )
    }
}

/// The slots of the second table hold no more references than those of the
/// first, and each slot to which something still refers has kept its
/// terms.
pub open spec fn kept(before: Seq<VirtualWire>, after: Seq<VirtualWire>) -> bool {
    &&& after.len() == before.len()
    &&& forall|j: int|
        0 <= j < before.len() ==> {
            &&& (#[trigger] after[j]).refcount <= before[j].refcount
            &&& (after[j].refcount > 0 ==> after[j].terms@ == before[j].terms@)
        }
}

impl VirtualTable {
    /// The slots in range.
    pub open spec fn slots(&self) -> Set<int> {
        Set::new(|m: int| 0 <= m < self.wires@.len())
    }

    /// The weights through a list of terms, with the slots followed up to
    /// the depth `bound`.
    pub open spec fn weights(&self, terms: Seq<Term>, bound: nat, target: WireIndex) -> int {
        flat_terms(self.wires@, self.depth@, terms, bound, target)
    }

    /// The terms of every slot of a consistent table name slots in range.
    pub proof fn lemma_within_slots(self, pending: Set<int>, extra: Seq<nat>)
        requires
            self.inv(pending, extra),
        ensures
            forall|j: int|
                0 <= j < self.wires@.len() ==> within(
                    (#[trigger] self.wires@[j]).terms@,
                    self.slots(),
                ),
    {
        let good = self.slots();
        assert forall|j: int| 0 <= j < self.wires@.len() implies within(
            (#[trigger] self.wires@[j]).terms@,
            good,
        ) by {
            let ts = self.wires@[j].terms@;
            assert(self.slot_ok(j, pending, extra));
            assert forall|k: int| 0 <= k < ts.len() && (#[trigger] ts[k]).0 is Virtual implies good.contains(slot_of(ts[k].0)) by {
                assert(self.in_range(ts[k].0));
            }
        }
    }

    /// Terms that name wires in range name slots in range.
    pub proof fn lemma_terms_within(self, terms: Seq<Term>)
        requires
            self.terms_ok(terms),
        ensures
            within(terms, self.slots()),
    {
        assert forall|k: int| 0 <= k < terms.len() && (#[trigger] terms[k]).0 is Virtual implies self.slots().contains(slot_of(terms[k].0)) by {
            assert(self.in_range(terms[k].0));
        }
    }

    /// When only what the slot `slot` has collected changes, what is
    /// pending changes by what that slot owes, and no weight changes.
    pub proof fn lemma_pending_value(
        before: VirtualTable,
        after: VirtualTable,
        pending: Set<int>,
        extra: Seq<nat>,
        slot: int,
        target: WireIndex,
    )
        requires
            before.inv(pending, extra),
            after.depth == before.depth,
            after.sy == before.sy,
            after.wires@.len() == before.wires@.len(),
            forall|j: int|
                0 <= j < before.wires@.len() ==> (#[trigger] after.wires@[j]).terms@
                    == before.wires@[j].terms@ && (j != slot ==> after.wires@[j].value
                    == before.wires@[j].value),
        ensures
            after.pending(target) + (if 0 <= slot < before.wires@.len() {
                before.wires@[slot].value.val() * slot_weight(
                    before.wires@,
                    before.depth@,
                    slot,
                    target,
                )
            } else {
                0
            }) == before.pending(target) + (if 0 <= slot < before.wires@.len() {
                after.wires@[slot].value.val() * slot_weight(
                    before.wires@,
                    before.depth@,
                    slot,
                    target,
                )
            } else {
                0
            }),
    {
        let n = before.wires@.len();
        let good = before.slots();
        before.lemma_within_slots(pending, extra);
        assert(agree(before.wires@, before.depth@, after.wires@, after.depth@, good));
        assert forall|i: int| 0 <= i < n implies flat_terms(
            after.wires@,
            after.depth@,
            after.wires@[i].terms@,
            after.depth@[i],
            target,
        ) == flat_terms(
            before.wires@,
            before.depth@,
            before.wires@[i].terms@,
            before.depth@[i],
            target,
        ) by {
            assert(after.wires@[i].terms@ == before.wires@[i].terms@);
            lemma_flat_terms_frame(
                before.wires@,
                before.depth@,
                after.wires@,
                after.depth@,
                before.wires@[i].terms@,
                before.depth@[i],
                target,
                good,
            );
        }
        assert forall|i: int| 0 <= i < n && i != slot implies #[trigger] contribution(
            after.wires@,
            after.depth@,
            i,
            target,
        ) == contribution(before.wires@, before.depth@, i, target) by {
            assert(after.wires@[i].value == before.wires@[i].value);
        }
        lemma_virtual_sum_change(
            before.wires@,
            before.depth@,
            after.wires@,
            after.depth@,
            n,
            target,
            slot,
        );
    }

    /// When tables agree on terms and depths, weights are the same.
    pub proof fn lemma_weights_same(
        before: VirtualTable,
        after: VirtualTable,
        pending: Set<int>,
        extra: Seq<nat>,
        terms: Seq<Term>,
        bound: nat,
        target: WireIndex,
    )
        requires
            before.inv(pending, extra),
            after.depth == before.depth,
            after.wires@.len() == before.wires@.len(),
            forall|j: int|
                0 <= j < before.wires@.len() ==> (#[trigger] after.wires@[j]).terms@
                    == before.wires@[j].terms@,
            before.terms_ok(terms),
        ensures
            after.weights(terms, bound, target) == before.weights(terms, bound, target),
    {
        let good = before.slots();
        before.lemma_within_slots(pending, extra);
        before.lemma_terms_within(terms);
        assert(agree(before.wires@, before.depth@, after.wires@, after.depth@, good));
        lemma_flat_terms_frame(
            before.wires@,
            before.depth@,
            after.wires@,
            after.depth@,
            terms,
            bound,
            target,
            good,
        );
    }

    /// What `add` does to what is pending: the wire `target` is owed more
    /// by the amount that was added, times the weight that it has from the
    /// wire that the amount was added to.
    pub proof fn lemma_pending_add(
        before: VirtualTable,
        after: VirtualTable,
        pending: Set<int>,
        extra: Seq<nat>,
        index: WireIndex,
        amount: Coeff,
        target: WireIndex,
    )
        requires
            before.inv(pending, extra),
            before.in_range(index),
            after.depth == before.depth,
            after.wires@.len() == before.wires@.len(),
            after.sy.a@.len() == before.sy.a@.len(),
            after.sy.b@.len() == before.sy.b@.len(),
            after.sy.c@.len() == before.sy.c@.len(),
            forall|j: int|
                0 <= j < before.wires@.len() && slot_of(index) != j ==> (
                #[trigger] after.wires@[j]) == before.wires@[j],
            forall|j: int|
                0 <= j < before.sy.a@.len() && crate::sy::left_of(index) != j ==> (
                #[trigger] after.sy.a@[j]) == before.sy.a@[j],
            forall|j: int|
                0 <= j < before.sy.b@.len() && crate::sy::right_of(index) != j ==> (
                #[trigger] after.sy.b@[j]) == before.sy.b@[j],
            forall|j: int|
                0 <= j < before.sy.c@.len() && crate::sy::output_of(index) != j ==> (
                #[trigger] after.sy.c@[j]) == before.sy.c@[j],
            match index {
                WireIndex::A(i) => after.sy.a@[i as int]@ == (before.sy.a@[i as int]@
                    + amount.val()) % modulus(),
                WireIndex::B(i) => after.sy.b@[i as int]@ == (before.sy.b@[i as int]@
                    + amount.val()) % modulus(),
                WireIndex::C(i) => after.sy.c@[i as int]@ == (before.sy.c@[i as int]@
                    + amount.val()) % modulus(),
                WireIndex::Virtual(i) => {
                    &&& after.wires@[i as int].terms == before.wires@[i as int].terms
                    &&& after.wires@[i as int].value.val() == (
                    before.wires@[i as int].value.val() + amount.val()) % modulus()
                },
            },
        ensures
            cong(
                after.pending(target),
                before.pending(target) + amount.val() * before.weight(index, target),
            ),
    {
        let n = before.wires@.len();
        let p = modulus() as int;
        crate::field::lemma_modulus_large();
        match index {
            WireIndex::Virtual(i) => {
                let copy = VirtualTable { sy: before.sy, ..after };
                assert forall|j: int| 0 <= j < n implies (#[trigger] copy.wires@[j]).terms@
                    == before.wires@[j].terms@ && (j != i ==> copy.wires@[j].value
                    == before.wires@[j].value) by {
                    if j != i {
                        assert(after.wires@[j] == before.wires@[j]);
                    }
                }
                Self::lemma_pending_value(before, copy, pending, extra, i as int, target);
                assert(copy.coefficient(target) == after.coefficient(target)) by {
                    assert(after.sy.a@ =~= before.sy.a@);
                    assert(after.sy.b@ =~= before.sy.b@);
                    assert(after.sy.c@ =~= before.sy.c@);
                }
                let w = before.weight(index, target);
                let old_v = before.wires@[i as int].value.val() as int;
                let new_v = after.wires@[i as int].value.val() as int;
                // after.pending + old_v * w == before.pending + new_v * w
                lemma_cong_mod(old_v + amount.val());
                lemma_cong_mul(new_v, old_v + amount.val(), w, w);
                assert((old_v + amount.val()) * w == old_v * w + amount.val() * w)
                    by (nonlinear_arith);
                lemma_cong_add(
                    before.pending(target) - old_v * w,
                    before.pending(target) - old_v * w,
                    new_v * w,
                    old_v * w + amount.val() * w,
                );
            },
            _ => {
                let copy = VirtualTable { sy: before.sy, ..after };
                assert forall|j: int| 0 <= j < n implies (#[trigger] copy.wires@[j]).terms@
                    == before.wires@[j].terms@ && copy.wires@[j].value
                    == before.wires@[j].value by {
                    assert(after.wires@[j] == before.wires@[j]);
                }
                Self::lemma_pending_value(before, copy, pending, extra, -1, target);
                assert(virtual_sum(after.wires@, after.depth@, n, target) == virtual_sum(
                    before.wires@,
                    before.depth@,
                    n,
                    target,
                ));
                if index == target {
                    lemma_cong_mod(before.coefficient(target) + amount.val());
                    lemma_cong_add(
                        after.coefficient(target),
                        before.coefficient(target) + amount.val(),
                        virtual_sum(before.wires@, before.depth@, n, target),
                        virtual_sum(before.wires@, before.depth@, n, target),
                    );
                    assert(amount.val() * 1 == amount.val());
                } else {
                    assert(after.coefficient(target) == before.coefficient(target));
                    assert(amount.val() * 0 == 0);
                }
            },
        }
    }

    /// When the terms of the slot `slot`, to which nothing refers, are
    /// taken out, what is pending goes down by what that slot owed, and
    /// the weights through terms that do not name the slot stay.
    pub proof fn lemma_pending_take(
        before: VirtualTable,
        after: VirtualTable,
        pending: Set<int>,
        extra: Seq<nat>,
        slot: int,
        terms: Seq<Term>,
        bound: nat,
        target: WireIndex,
    )
        requires
            before.inv(pending, extra),
            0 <= slot < before.wires@.len(),
            term_refs(before.wires@, slot) == 0,
            after.depth == before.depth,
            after.sy == before.sy,
            after.wires@.len() == before.wires@.len(),
            forall|j: int|
                0 <= j < before.wires@.len() && j != slot ==> (#[trigger] after.wires@[j]).terms@
                    == before.wires@[j].terms@ && after.wires@[j].value == before.wires@[j].value,
            after.wires@[slot].terms@.len() == 0,
            within(terms, all_but(before.wires@.len(), slot)),
        ensures
            after.pending(target) + contribution(before.wires@, before.depth@, slot, target)
                == before.pending(target),
            after.weights(terms, bound, target) == before.weights(terms, bound, target),
    {
        let n = before.wires@.len();
        let good = all_but(n, slot);
        lemma_within_all_but(before, pending, extra, slot);
        assert(agree(before.wires@, before.depth@, after.wires@, after.depth@, good));
        lemma_flat_terms_frame(
            before.wires@,
            before.depth@,
            after.wires@,
            after.depth@,
            terms,
            bound,
            target,
            good,
        );
        assert forall|i: int| 0 <= i < n && i != slot implies #[trigger] contribution(
            after.wires@,
            after.depth@,
            i,
            target,
        ) == contribution(before.wires@, before.depth@, i, target) by {
            assert(after.wires@[i].terms@ == before.wires@[i].terms@);
            lemma_flat_terms_frame(
                before.wires@,
                before.depth@,
                after.wires@,
                after.depth@,
                before.wires@[i].terms@,
                before.depth@[i],
                target,
                good,
            );
        }
        lemma_virtual_sum_change(
            before.wires@,
            before.depth@,
            after.wires@,
            after.depth@,
            n,
            target,
            slot,
        );
        assert(contribution(after.wires@, after.depth@, slot, target) == 0) by {
            assert(after.wires@[slot].terms@ =~= Seq::<Term>::empty());
            assert(after.wires@[slot].value.val() * 0 == 0);
        }
    }

    /// The weights through terms that name slots to which something
    /// refers are kept, where every such slot has kept its terms.
    pub proof fn lemma_weights_kept(
        before: VirtualTable,
        after: VirtualTable,
        pending: Set<int>,
        extra: Seq<nat>,
        terms: Seq<Term>,
        bound: nat,
        target: WireIndex,
    )
        requires
            after.inv(pending, extra),
            after.depth == before.depth,
            before.depth@.len() == before.wires@.len(),
            kept(before.wires@, after.wires@),
            within(terms, referred(after.wires@)),
        ensures
            after.weights(terms, bound, target) == before.weights(terms, bound, target),
    {
        let good = referred(after.wires@);
        lemma_within_referred(after, pending, extra);
        assert forall|j: int| #[trigger] good.contains(j) implies {
            &&& 0 <= j < before.wires@.len()
            &&& j < after.wires@.len()
            &&& j < before.depth@.len()
            &&& j < after.depth@.len()
            &&& after.wires@[j].terms@ == before.wires@[j].terms@
            &&& after.depth@[j] == before.depth@[j]
            &&& within(before.wires@[j].terms@, good)
        } by {
            assert(after.wires@[j].refcount > 0);
            assert(within(after.wires@[j].terms@, good));
        }
        lemma_flat_terms_frame(
            before.wires@,
            before.depth@,
            after.wires@,
            after.depth@,
            terms,
            bound,
            target,
            good,
        );
    }
}

/// The weight that a list of terms gives to the wire `target` of a gate:
/// the sum over the terms of the coefficient times the weight of the
/// term's wire.
pub open spec fn terms_weight(
    wires: Seq<VirtualWire>,
    depth: Seq<nat>,
    terms: Seq<Term>,
    target: WireIndex,
) -> int
    decreases terms.len(),
{
    if terms.len() == 0 {
        0
    } else {
        terms_weight(wires, depth, terms.drop_last(), target) + terms.last().1.val() * flat(
            wires,
            depth,
            terms.last().0,
            target,
        )
    }
}

/// Where every slot that the terms name is less deep than `bound`, the
/// weights through the terms are the sum over the terms.
pub proof fn lemma_flat_terms_below(
    wires: Seq<VirtualWire>,
    depth: Seq<nat>,
    terms: Seq<Term>,
    bound: nat,
    target: WireIndex,
)
    requires
        forall|k: int|
            0 <= k < terms.len() && (#[trigger] terms[k]).0 is Virtual ==> 0 <= slot_of(terms[k].0)
                < wires.len() && slot_of(terms[k].0) < depth.len() && depth[slot_of(terms[k].0)]
                < bound,
    ensures
        flat_terms(wires, depth, terms, bound, target) == terms_weight(wires, depth, terms, target),
    decreases terms.len(),
{
    if terms.len() > 0 {
        let rest = terms.drop_last();
        assert forall|k: int| 0 <= k < rest.len() && (#[trigger] rest[k]).0 is Virtual implies 0
            <= slot_of(rest[k].0) < wires.len() && slot_of(rest[k].0) < depth.len()
            && depth[slot_of(rest[k].0)] < bound by {
            assert(rest[k] == terms[k]);
        }
        lemma_flat_terms_below(wires, depth, rest, bound, target);
        assert(terms.last() == terms[terms.len() - 1]);
    }
}

/// Terms whose wires have the same weights in two tables have the same
/// weight in both.
pub proof fn lemma_terms_weight_same(
    a_wires: Seq<VirtualWire>,
    a_depth: Seq<nat>,
    b_wires: Seq<VirtualWire>,
    b_depth: Seq<nat>,
    terms: Seq<Term>,
    target: WireIndex,
)
    requires
        forall|k: int|
            0 <= k < terms.len() ==> flat(a_wires, a_depth, (#[trigger] terms[k]).0, target)
                == flat(b_wires, b_depth, terms[k].0, target),
    ensures
        terms_weight(a_wires, a_depth, terms, target) == terms_weight(
            b_wires,
            b_depth,
            terms,
            target,
        ),
    decreases terms.len(),
{
    if terms.len() > 0 {
        let rest = terms.drop_last();
        assert forall|k: int| 0 <= k < rest.len() implies flat(
            a_wires,
            a_depth,
            (#[trigger] rest[k]).0,
            target,
        ) == flat(b_wires, b_depth, rest[k].0, target) by {
            assert(rest[k] == terms[k]);
        }
        lemma_terms_weight_same(a_wires, a_depth, b_wires, b_depth, rest, target);
        assert(terms.last() == terms[terms.len() - 1]);
    }
}

/// Two tables that agree on a set of slots which is closed under the terms
/// give the same weight to a wire that is no slot, or a slot in that set.
pub proof fn lemma_flat_frame(
    a_wires: Seq<VirtualWire>,
    a_depth: Seq<nat>,
    b_wires: Seq<VirtualWire>,
    b_depth: Seq<nat>,
    index: WireIndex,
    target: WireIndex,
    good: Set<int>,
)
    requires
        agree(a_wires, a_depth, b_wires, b_depth, good),
        index is Virtual ==> good.contains(slot_of(index)),
    ensures
        flat(a_wires, a_depth, index, target) == flat(b_wires, b_depth, index, target),
{
    if let WireIndex::Virtual(j) = index {
        assert(good.contains(j as int));
        lemma_flat_terms_frame(
            a_wires,
            a_depth,
            b_wires,
            b_depth,
            a_wires[j as int].terms@,
            a_depth[j as int],
            target,
            good,
        );
    }
}

impl VirtualTable {
    /// A slot that was free or did not exist holds a new virtual wire
    /// with the terms `terms`, and nothing else has changed.
    pub open spec fn with_new_wire(
        before: VirtualTable,
        after: VirtualTable,
        slot: int,
        terms: Seq<Term>,
    ) -> bool {
        let n = before.wires@.len();
        &&& before.wf()
        &&& after.wf()
        &&& after.sy == before.sy
        &&& 0 <= slot < after.wires@.len()
        &&& if slot < n {
            after.wires@.len() == n && before.wires@[slot].refcount == 0
        } else {
            after.wires@.len() == n + 1
        }
        &&& forall|j: int|
            0 <= j < n && j != slot ==> {
                &&& (#[trigger] after.wires@[j]).terms@ == before.wires@[j].terms@
                &&& after.wires@[j].value == before.wires@[j].value
                &&& after.depth@[j] == before.depth@[j]
            }
        &&& after.wires@[slot].value is Zero
        &&& after.wires@[slot].terms@ == terms
        &&& before.terms_ok(terms)
    }

    /// A new virtual wire changes nothing of what is pending.
    pub proof fn lemma_new_wire_pending(
        before: VirtualTable,
        after: VirtualTable,
        slot: int,
        terms: Seq<Term>,
        target: WireIndex,
    )
        requires
            Self::with_new_wire(before, after, slot, terms),
        ensures
            after.pending(target) == before.pending(target),
    {
        let n = before.wires@.len();
        let good = all_but(n, slot);
        let none = crate::sy::no_extra(n);
        if slot < n {
            assert(before.slot_ok(slot, Set::empty(), none));
        }
        lemma_within_all_but(before, Set::empty(), none, slot);
        assert(agree(before.wires@, before.depth@, after.wires@, after.depth@, good));
        assert forall|i: int| 0 <= i < n && i != slot implies #[trigger] contribution(
            after.wires@,
            after.depth@,
            i,
            target,
        ) == contribution(before.wires@, before.depth@, i, target) by {
            assert(after.wires@[i].terms@ == before.wires@[i].terms@);
            lemma_flat_terms_frame(
                before.wires@,
                before.depth@,
                after.wires@,
                after.depth@,
                before.wires@[i].terms@,
                before.depth@[i],
                target,
                good,
            );
        }
        lemma_virtual_sum_change(
            before.wires@,
            before.depth@,
            after.wires@,
            after.depth@,
            n,
            target,
            slot,
        );
        assert(contribution(after.wires@, after.depth@, slot, target) == 0) by {
            assert(0 * slot_weight(after.wires@, after.depth@, slot, target) == 0);
        }
        if slot < n {
            assert(contribution(before.wires@, before.depth@, slot, target) == 0) by {
                assert(0 * slot_weight(before.wires@, before.depth@, slot, target) == 0);
            }
        }
    }

    /// A new virtual wire changes no weight of a wire that was there.
    pub proof fn lemma_new_wire_frame(
        before: VirtualTable,
        after: VirtualTable,
        slot: int,
        terms: Seq<Term>,
        index: WireIndex,
        target: WireIndex,
    )
        requires
            Self::with_new_wire(before, after, slot, terms),
            before.in_range(index),
            slot_of(index) != slot,
        ensures
            after.weight(index, target) == before.weight(index, target),
    {
        let n = before.wires@.len();
        let good = all_but(n, slot);
        let none = crate::sy::no_extra(n);
        if slot < n {
            assert(before.slot_ok(slot, Set::empty(), none));
        }
        lemma_within_all_but(before, Set::empty(), none, slot);
        assert(agree(before.wires@, before.depth@, after.wires@, after.depth@, good));
        lemma_flat_frame(
            before.wires@,
            before.depth@,
            after.wires@,
            after.depth@,
            index,
            target,
            good,
        );
    }

    /// The weight of a new virtual wire is the weight of its terms.
    pub proof fn lemma_new_wire_weight(
        before: VirtualTable,
        after: VirtualTable,
        slot: int,
        terms: Seq<Term>,
        target: WireIndex,
    )
        requires
            Self::with_new_wire(before, after, slot, terms),
            forall|k: int| 0 <= k < terms.len() ==> slot_of((#[trigger] terms[k]).0) != slot,
        ensures
            slot_weight(after.wires@, after.depth@, slot, target) == terms_weight(
                before.wires@,
                before.depth@,
                terms,
                target,
            ),
    {
        let n = after.wires@.len();
        assert(after.slot_ok(slot, Set::empty(), crate::sy::no_extra(n)));
        assert(after.below(terms, after.depth@[slot]));
        assert forall|k: int| 0 <= k < terms.len() && (#[trigger] terms[k]).0 is Virtual implies 0
            <= slot_of(terms[k].0) < after.wires@.len() && slot_of(terms[k].0) < after.depth@.len()
            && after.depth@[slot_of(terms[k].0)] < after.depth@[slot] by {
            assert(after.in_range(terms[k].0));
        }
        lemma_flat_terms_below(after.wires@, after.depth@, terms, after.depth@[slot], target);
        assert forall|k: int| 0 <= k < terms.len() implies flat(
            after.wires@,
            after.depth@,
            (#[trigger] terms[k]).0,
            target,
        ) == flat(before.wires@, before.depth@, terms[k].0, target) by {
            assert(before.in_range(terms[k].0));
            Self::lemma_new_wire_frame(before, after, slot, terms, terms[k].0, target);
        }
        lemma_terms_weight_same(
            after.wires@,
            after.depth@,
            before.wires@,
            before.depth@,
            terms,
            target,
        );
    }
}

impl VirtualTable {
    /// A wire to which something still refers has kept its weight, where
    /// every slot in that case has kept its terms.
    pub proof fn lemma_weight_kept(
        before: VirtualTable,
        after: VirtualTable,
        index: WireIndex,
        target: WireIndex,
    )
        requires
            after.wf(),
            after.depth == before.depth,
            before.depth@.len() == before.wires@.len(),
            kept(before.wires@, after.wires@),
            index matches WireIndex::Virtual(j) ==> j < after.wires@.len()
                && after.wires@[j as int].refcount > 0,
        ensures
            after.weight(index, target) == before.weight(index, target),
    {
        if let WireIndex::Virtual(j) = index {
            let none = crate::sy::no_extra(after.wires@.len());
            lemma_within_referred(after, Set::empty(), none);
            assert(after.wires@[j as int].terms@ == before.wires@[j as int].terms@);
            Self::lemma_weights_kept(
                before,
                after,
                Set::empty(),
                none,
                after.wires@[j as int].terms@,
                after.depth@[j as int],
                target,
            );
        }
    }

    /// Slots that have collected nothing owe nothing.
    pub proof fn lemma_nothing_owed(self, count: nat, target: WireIndex)
        requires
            count <= self.wires@.len(),
            forall|j: int| 0 <= j < self.wires@.len() ==> (#[trigger] self.wires@[j]).value is Zero,
        ensures
            virtual_sum(self.wires@, self.depth@, count, target) == 0,
        decreases count,
    {
        if count > 0 {
            self.lemma_nothing_owed((count - 1) as nat, target);
            assert(self.wires@[count - 1].value is Zero);
            assert(0 * slot_weight(self.wires@, self.depth@, count - 1, target) == 0);
        }
    }
}

} // verus!
