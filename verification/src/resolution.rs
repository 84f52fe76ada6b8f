//! What giving up a reference does to the table, step by step.
//!
//! The table is taken as plain values: for each slot its counts, its terms
//! and the integer that it has collected, the free list, and the integers
//! that the polynomial holds. On these values `freed` says what giving up
//! one reference comes to: the count goes down by one, and at zero the
//! slot hands what it has collected to its terms, one after the other, and
//! gives up its reference to each of them in turn.

use crate::field::modulus;
use crate::poly::values;
use crate::sy::{Term, VirtualTable, WireIndex};
use vstd::prelude::*;

verus! {

/// A slot of the table, as plain values.
pub struct Slot {
    /// The number of references to the slot.
    pub refcount: nat,
    /// How many of them are handles.
    pub handles: nat,
    /// The terms that the slot stores.
    pub terms: Seq<Term>,
    /// The integer that the slot has collected.
    pub value: nat,
}

/// The table, as plain values.
pub struct Table {
    /// The slots.
    pub slots: Seq<Slot>,
    /// The free list.
    pub free: Seq<usize>,
    /// The coefficients of the left legs.
    pub a: Seq<nat>,
    /// The coefficients of the right legs.
    pub b: Seq<nat>,
    /// The coefficients of the output legs.
    pub c: Seq<nat>,
}

impl Table {
    /// The table after `amount` was added to what the wire `index` has
    /// collected: to its coefficient, or to the value of its slot.
    pub open spec fn put(self, index: WireIndex, amount: nat) -> Table {
        match index {
            WireIndex::A(i) => if i < self.a.len() {
                Table { a: self.a.update(i as int, (self.a[i as int] + amount) % modulus()), ..self }
            } else {
                self
            },
            WireIndex::B(i) => if i < self.b.len() {
                Table { b: self.b.update(i as int, (self.b[i as int] + amount) % modulus()), ..self }
            } else {
                self
            },
            WireIndex::C(i) => if i < self.c.len() {
                Table { c: self.c.update(i as int, (self.c[i as int] + amount) % modulus()), ..self }
            } else {
                self
            },
            WireIndex::Virtual(i) => if i < self.slots.len() {
                let slot = self.slots[i as int];
                Table {
                    slots: self.slots.update(
                        i as int,
                        Slot { value: (slot.value + amount) % modulus(), ..slot },
                    ),
                    ..self
                }
            } else {
                self
            },
        }
    }

    /// The table after a handle to the slot was taken away, before the
    /// reference that the handle held is given up.
    pub open spec fn unhanded(self, slot: int) -> Table {
        if 0 <= slot < self.slots.len() && self.slots[slot].handles > 0 {
            let s = self.slots[slot];
            Table {
                slots: self.slots.update(slot, Slot { handles: (s.handles - 1) as nat, ..s }),
                ..self
            }
        } else {
            self
        }
    }

    /// The table after one reference to the wire `index` was given up.
    ///
    /// A wire of a gate counts no references: nothing changes. The count
    /// of a slot goes down by one. If it stays above zero, nothing else
    /// changes. If it reaches zero, the slot resolves: its terms are taken
    /// out and handed what it has collected, as `handed` says; then the
    /// slot holds nothing and joins the free list.
    ///
    /// `fuel` bounds how deep slots resolve within slots; the sum of the
    /// counts of all slots is always enough.
    pub open spec fn freed(self, index: WireIndex, fuel: nat) -> Table
        decreases fuel, 0nat,
    {
        match index {
            WireIndex::Virtual(i) => if i < self.slots.len() && self.slots[i as int].refcount > 0
                && fuel > 0 {
                let slot = self.slots[i as int];
                if slot.refcount > 1 {
                    Table {
                        slots: self.slots.update(
                            i as int,
                            Slot { refcount: (slot.refcount - 1) as nat, ..slot },
                        ),
                        ..self
                    }
                } else {
                    let taken = Table {
                        slots: self.slots.update(
                            i as int,
                            Slot { refcount: 0, terms: Seq::empty(), ..slot },
                        ),
                        ..self
                    };
                    let done = taken.handed(slot.terms, slot.value, (fuel - 1) as nat);
                    Table {
                        slots: done.slots.update(i as int, Slot { value: 0, ..done.slots[i as int] }),
                        free: done.free.push(i),
                        ..done
                    }
                }
            } else {
                self
            },
            _ => self,
        }
    }

    /// The table after a resolving slot that has collected `value` has
    /// dealt with its terms, in their order: the wire of each term is
    /// handed `value` times the coefficient of the term, and then one
    /// reference to it is given up, which may resolve it in turn, before
    /// the next term is looked at.
    pub open spec fn handed(self, terms: Seq<Term>, value: nat, fuel: nat) -> Table
        decreases fuel, 1 + terms.len(),
    {
        if terms.len() == 0 {
            self
        } else {
            let amount = (value * terms[0].1.val()) % modulus();
            self.put(terms[0].0, amount).freed(terms[0].0, fuel).handed(
                terms.drop_first(),
                value,
                fuel,
            )
        }
    }
}

impl VirtualTable {
    /// The slot `j` as plain values.
    pub open spec fn slot(&self, j: int) -> Slot {
        Slot {
            refcount: self.wires@[j].refcount as nat,
            handles: self.wires@[j].handles as nat,
            terms: self.wires@[j].terms@,
            value: self.wires@[j].value.val(),
        }
    }

    /// The table as plain values.
    pub open spec fn model(&self) -> Table {
        Table {
            slots: Seq::new(self.wires@.len(), |j: int| self.slot(j)),
            free: self.free@,
            a: values(self.sy.a@),
            b: values(self.sy.b@),
            c: values(self.sy.c@),
        }
    }

    /// Two tables whose slots, free lists and coefficients are the same as
    /// plain values are the same as plain values.
    pub proof fn lemma_model_same(a: VirtualTable, b: Table)
        requires
            a.wires@.len() == b.slots.len(),
            forall|j: int| 0 <= j < b.slots.len() ==> #[trigger] a.slot(j) == b.slots[j],
            a.free@ == b.free,
            values(a.sy.a@) =~= b.a,
            values(a.sy.b@) =~= b.b,
            values(a.sy.c@) =~= b.c,
        ensures
            a.model() == b,
    {
        assert(a.model().slots =~= b.slots);
    }

    /// What `add` does, on plain values.
    pub proof fn lemma_model_put(
        before: VirtualTable,
        after: VirtualTable,
        index: WireIndex,
        amount: nat,
    )
        requires
            before.in_range(index),
            Self::added(before, after, index, amount),
        ensures
            after.model() == before.model().put(index, amount),
    {
        let want = before.model().put(index, amount);
        assert forall|j: int| 0 <= j < want.slots.len() implies #[trigger] after.slot(j)
            == want.slots[j] by {
            assert(before.has(crate::sy::Place::Slot(j)));
            assert(after.holds(crate::sy::Place::Slot(j)) == after.wires@[j].value.val());
            assert(after.wires@[j].terms@ == before.wires@[j].terms@);
        }
        assert forall|j: int| 0 <= j < want.a.len() implies values(after.sy.a@)[j] == want.a[j] by {
            assert(before.has(crate::sy::Place::A(j)));
            assert(after.holds(crate::sy::Place::A(j)) == after.sy.a@[j]@);
        }
        assert forall|j: int| 0 <= j < want.b.len() implies values(after.sy.b@)[j] == want.b[j] by {
            assert(before.has(crate::sy::Place::B(j)));
            assert(after.holds(crate::sy::Place::B(j)) == after.sy.b@[j]@);
        }
        assert forall|j: int| 0 <= j < want.c.len() implies values(after.sy.c@)[j] == want.c[j] by {
            assert(before.has(crate::sy::Place::C(j)));
            assert(after.holds(crate::sy::Place::C(j)) == after.sy.c@[j]@);
        }
        Self::lemma_model_same(after, want);
    }
}

} // verus!
