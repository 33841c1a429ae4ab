//! The order arena: the one owner of every order record of a book.
//!
//! Records are kept in arrival order and never leave. The position of a
//! record, its slot, is what the ladders refer to; an index by id finds the
//! slot of an order.
use crate::types::{EngineError, Order, OrderState, OrderView};
use vstd::hash_map::StringHashMap;
use vstd::prelude::*;

verus! {

/// Some record of `orders` has this id.
pub open spec fn has_id(orders: Seq<OrderView>, id: Seq<char>) -> bool {
    exists|i: int| 0 <= i < orders.len() && (#[trigger] orders[i]).id == id
}

/// The slot of the record with this id, where there is one.
pub open spec fn slot_of(orders: Seq<OrderView>, id: Seq<char>) -> int {
    choose|i: int| 0 <= i < orders.len() && (#[trigger] orders[i]).id == id
}

/// No two records share an id.
pub open spec fn distinct_ids(orders: Seq<OrderView>) -> bool {
    forall|i: int, j: int|
        #![trigger orders[i], orders[j]]
        0 <= i < j < orders.len() ==> orders[i].id != orders[j].id
}

/// Where ids are distinct, the record at a slot is the one its id finds.
pub proof fn lemma_slot_of(orders: Seq<OrderView>, slot: int)
    requires
        distinct_ids(orders),
        0 <= slot < orders.len(),
    ensures
        has_id(orders, orders[slot].id),
        slot_of(orders, orders[slot].id) == slot,
{
    let found = slot_of(orders, orders[slot].id);
    if found < slot {
        assert(orders[found].id != orders[slot].id);
    } else if slot < found {
        assert(orders[slot].id != orders[found].id);
    }
}

/// The store of all order records.
pub struct Arena {
    orders: Vec<Order>,
    index: StringHashMap<usize>,
}

impl View for Arena {
    type V = Seq<OrderView>;

    closed spec fn view(&self) -> Seq<OrderView> {
        self.orders@.map_values(|o: Order| o@)
    }
}

impl Arena {
    /// The index by id names every record, and nothing else.
    pub closed spec fn indexed(&self) -> bool {
        &&& forall|i: int|
            0 <= i < self.orders.len() ==> self.index@.contains_key(
                (#[trigger] self.orders[i]).id@,
            ) && self.index@[self.orders[i].id@] == i
        &&& forall|id: Seq<char>| #[trigger]
            self.index@.contains_key(id) ==> self.index@[id] < self.orders.len()
                && self.orders[self.index@[id] as int].id@ == id
    }

    /// Validity of the arena.
    pub open spec fn wf(&self) -> bool {
        &&& self.indexed()
        &&& distinct_ids(self@)
    }

    /// An empty arena.
    pub fn new() -> (arena: Arena)
        ensures
            arena@ == Seq::<OrderView>::empty(),
            arena.wf(),
    {
        let arena = Arena { orders: Vec::new(), index: StringHashMap::new() };
        assert(arena@ =~= Seq::<OrderView>::empty());
        arena
    }

    /// Number of records.
    pub fn len(&self) -> (n: usize)
        ensures
            n == self@.len(),
    {
        self.orders.len()
    }

    /// The slot of the order with this id, if the arena has it.
    pub fn find(&self, id: &str) -> (found: Option<usize>)
        requires
            self.wf(),
        ensures
            match found {
                Some(slot) => has_id(self@, id@) && slot == slot_of(self@, id@),
                None => !has_id(self@, id@),
            },
    {
        match self.index.get(id) {
            Some(slot) => {
                proof {
                    assert(self@[*slot as int].id == id@);
                    lemma_slot_of(self@, *slot as int);
                }
                Some(*slot)
            },
            None => {
                proof {
                    if has_id(self@, id@) {
                        let i = slot_of(self@, id@);
                        assert(self.orders[i].id@ == id@);
                    }
                }
                None
            },
        }
    }

    /// The record at a slot.
    pub fn at(&self, slot: usize) -> (order: &Order)
        requires
            slot < self@.len(),
        ensures
            order@ == self@[slot as int],
    {
        &self.orders[slot]
    }

    /// The record of the order with this id. Fails with `OrderNotFound` where
    /// the arena has none.
    pub fn get(&self, id: &str) -> (r: Result<&Order, EngineError>)
        requires
            self.wf(),
        ensures
            match r {
                Ok(order) => has_id(self@, id@) && order@ == self@[slot_of(self@, id@)],
                Err(e) => e == EngineError::OrderNotFound && !has_id(self@, id@),
            },
    {
        match self.find(id) {
            Some(slot) => Ok(self.at(slot)),
            None => Err(EngineError::OrderNotFound),
        }
    }

    /// Adds a record under an id the arena does not have yet, at the next
    /// slot, and returns the slot.
    pub fn push(&mut self, order: Order) -> (slot: usize)
        requires
            old(self).wf(),
            !has_id(old(self)@, order@.id),
        ensures
            final(self).wf(),
            slot == old(self)@.len(),
            final(self)@ == old(self)@.push(order@),
    {
        let ghost before = self@;
        let ghost before_orders = self.orders@;
        let ghost before_index = self.index@;
        let slot = self.orders.len();
        let key = order.id.clone();
        self.index.insert(key, slot);
        self.orders.push(order);
        proof {
            assert(self@ =~= before.push(order@));
            assert forall|i: int| 0 <= i < self.orders.len() implies self.index@.contains_key(
                (#[trigger] self.orders[i]).id@,
            ) && self.index@[self.orders[i].id@] == i by {
                if i < before.len() {
                    assert(before[i].id == before_orders[i].id@);
                    assert(before_index.contains_key(before_orders[i].id@));
                }
            }
            assert forall|id: Seq<char>| #[trigger]
                self.index@.contains_key(id) implies self.index@[id] < self.orders.len()
                && self.orders[self.index@[id] as int].id@ == id by {
                if id != order@.id {
                    assert(before_index.contains_key(id));
                }
            }
            assert forall|i: int, j: int|
                #![trigger self@[i], self@[j]]
                0 <= i < j < self@.len() implies self@[i].id != self@[j].id by {
                if j < before.len() {
                    assert(before[i].id != before[j].id);
                } else {
                    assert(before[i].id == self@[i].id);
                }
            }
        }
        slot
    }

    /// Adds a record at the next slot and returns the slot. Fails with
    /// `DuplicateOrderId`, and changes nothing, where the id is taken.
    pub fn insert(&mut self, order: Order) -> (r: Result<usize, EngineError>)
        requires
            old(self).wf(),
        ensures
            final(self).wf(),
            match r {
                Ok(slot) => !has_id(old(self)@, order@.id) && slot == old(self)@.len()
                    && final(self)@ == old(self)@.push(order@),
                Err(e) => e == EngineError::DuplicateOrderId && has_id(old(self)@, order@.id)
                    && final(self)@ == old(self)@,
            },
    {
        match self.find(order.id.as_str()) {
            Some(_) => Err(EngineError::DuplicateOrderId),
            None => Ok(self.push(order)),
        }
    }

    /// Books a trade of `qty` at `price` against the order `against` on the
    /// record at `slot`.
    pub fn fill(&mut self, slot: usize, qty: u16, price: u16, against: String)
        requires
            old(self).wf(),
            slot < old(self)@.len(),
            qty <= old(self)@[slot as int].qty_open,
            old(self)@[slot as int].qty_filled + qty <= u16::MAX,
        ensures
            final(self).wf(),
            final(self)@ == old(self)@.update(
                slot as int,
                old(self)@[slot as int].filled(qty as int, price as int, against@),
            ),
    {
        let ghost before = self@;
        let ghost before_orders = self.orders@;
        let order = &mut self.orders[slot];
        order.record_fill(qty, price, against);
        proof {
            assert forall|i: int| 0 <= i < self.orders.len() implies (#[trigger] self.orders[i]).id@
                == before_orders[i].id@ by {}
            assert(self@ =~= before.update(
                slot as int,
                before[slot as int].filled(qty as int, price as int, against@),
            ));
            assert forall|i: int, j: int|
                #![trigger self@[i], self@[j]]
                0 <= i < j < self@.len() implies self@[i].id != self@[j].id by {
                assert(before[i].id != before[j].id);
            }
        }
    }

    /// Marks the open record at `slot` as cancelled. Quantities stay as they
    /// are.
    pub fn cancel(&mut self, slot: usize)
        requires
            old(self).wf(),
            slot < old(self)@.len(),
            old(self)@[slot as int].state == OrderState::Open,
        ensures
            final(self).wf(),
            final(self)@ == old(self)@.update(slot as int, old(self)@[slot as int].cancelled()),
    {
        let ghost before = self@;
        let ghost before_orders = self.orders@;
        let order = &mut self.orders[slot];
        order.state = OrderState::Cancelled;
        proof {
            assert forall|i: int| 0 <= i < self.orders.len() implies (#[trigger] self.orders[i]).id@
                == before_orders[i].id@ by {}
            assert(self@ =~= before.update(slot as int, before[slot as int].cancelled()));
            assert forall|i: int, j: int|
                #![trigger self@[i], self@[j]]
                0 <= i < j < self@.len() implies self@[i].id != self@[j].id by {
                assert(before[i].id != before[j].id);
            }
        }
    }
}

} // verus!
