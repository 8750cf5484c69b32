//! One side of the book: the ordered collection of resting orders together
//! with its id index, kept in correspondence at every step.
//!
//! The ordered collection is a vector kept sorted by the side's priority
//! order, with sortedness stated as the invariant; the index is a hash map
//! from id to the resting order.

use vstd::prelude::*;
use vstd::pervasive::VecAdditionalExecFns;
use std::collections::HashMap;
use core::cmp::Ordering;
use crate::order::{order_valid, side_before, Order, OrderType};
use crate::model::{
    distinct_ids, find_order_id, has_order_id, index_matches, insert_pos, insert_sorted,
    lemma_drop_first_side, lemma_insert_pos, lemma_insert_sorted, lemma_remove_id,
    lemma_replace_head, side_positive, side_typed, sorted_side,
};

verus! {

broadcast use vstd::std_specs::hash::group_hash_axioms;

pub(crate) struct Side {
    pub(crate) kind: OrderType,
    pub(crate) orders: Vec<Order>,
    pub(crate) index: HashMap<u128, Order>,
}

impl Side {
    /// The side's invariant: sorted by priority, one side, positive orders,
    /// unique ids, and an index that mirrors the collection exactly.
    pub(crate) open spec fn inv(&self) -> bool {
        &&& sorted_side(self.kind, self.orders@)
        &&& side_typed(self.kind, self.orders@)
        &&& side_positive(self.orders@)
        &&& distinct_ids(self.orders@)
        &&& index_matches(self.index@, self.orders@)
    }

    pub(crate) fn new(kind: OrderType) -> (side: Side)
        ensures
            side.inv(),
            side.kind == kind,
            side.orders@ == Seq::<Order>::empty(),
            side.index@ == Map::<u128, Order>::empty(),
    {
        Side { kind, orders: Vec::new(), index: HashMap::new() }
    }

    pub(crate) fn len(&self) -> (n: usize)
        ensures
            n == self.orders@.len(),
    {
        self.orders.len()
    }

    /// A copy of the best (head) order; the side must be non-empty.
    pub(crate) fn head(&self) -> (o: Order)
        requires
            self.orders@.len() > 0,
        ensures
            o == self.orders@[0],
    {
        self.orders[0]
    }

    /// Whether an order with this id rests on the side, answered by the index.
    pub(crate) fn contains(&self, id: u128) -> (r: bool)
        requires
            self.inv(),
        ensures
            r == has_order_id(self.orders@, id),
    {
        let r = self.index.contains_key(&id);
        proof {
            if has_order_id(self.orders@, id) {
                let i = choose|i: int|
                    0 <= i < self.orders@.len() && self.orders@[i].id == id;
                assert(self.index@.contains_key(self.orders@[i].id));
            }
        }
        r
    }

    /// Insert a new order at its priority position, in the collection and the
    /// index together.
    pub(crate) fn insert(&mut self, o: Order)
        requires
            old(self).inv(),
            o.order_type == old(self).kind,
            order_valid(o),
            !has_order_id(old(self).orders@, o.id),
        ensures
            final(self).inv(),
            final(self).kind == old(self).kind,
            final(self).orders@ == insert_sorted(old(self).kind, old(self).orders@, o),
            final(self).index@ == old(self).index@.insert(o.id, o),
    {
        let ghost s0 = self.orders@;
        let ghost kind0 = self.kind;
        let ghost idx0 = self.index@;
        proof {
            lemma_insert_pos(kind0, s0, o);
        }
        let mut i: usize = 0;
        loop
            invariant_except_break
                self.kind == kind0,
                self.orders@ == s0,
                self.index@ == idx0,
                o.order_type == kind0,
                0 <= i <= s0.len(),
                forall|k: int| 0 <= k < i ==> !side_before(kind0, o, s0[k]),
            ensures
                self.kind == kind0,
                self.orders@ == s0,
                self.index@ == idx0,
                0 <= i <= s0.len(),
                forall|k: int| 0 <= k < i ==> !side_before(kind0, o, s0[k]),
                i == s0.len() || side_before(kind0, o, s0[i as int]),
            decreases s0.len() - i,
        {
            if i == self.orders.len() {
                break;
            }
            let c = o.cmp(&self.orders[i]);
            if matches!(c, Ordering::Less) {
                break;
            }
            i = i + 1;
        }
        proof {
            let p = insert_pos(kind0, s0, o);
            if (i as int) < p {
                assert(side_before(kind0, o, s0[i as int]));
                assert(!side_before(kind0, o, s0[i as int]));
            }
            if (i as int) > p {
                assert(side_before(kind0, o, s0[p]));
                assert(!side_before(kind0, o, s0[p]));
            }
            assert(i as int == p);
        }
        self.orders.insert(i, o);
        self.index.insert(o.id, o);
        proof {
            lemma_insert_sorted(kind0, s0, o);
            let r = insert_sorted(kind0, s0, o);
            let p = insert_pos(kind0, s0, o);
            assert forall|id: u128| #[trigger] self.index@.contains_key(id) implies has_order_id(
                self.orders@,
                id,
            ) by {
                if id == o.id {
                    assert(r[p].id == id);
                } else {
                    assert(idx0.contains_key(id));
                }
            }
            assert forall|k: int| 0 <= k < r.len() implies self.index@.contains_key(
                (#[trigger] r[k]).id,
            ) && self.index@[r[k].id] == r[k] by {
                if k < p {
                    assert(r[k] == s0[k]);
                    assert(s0[k].id != o.id);
                } else if k == p {
                } else {
                    assert(r[k] == s0[k - 1]);
                    assert(s0[k - 1].id != o.id);
                }
            }
        }
    }

    /// Remove the best (head) order, from the collection and the index together.
    pub(crate) fn remove_head(&mut self)
        requires
            old(self).inv(),
            old(self).orders@.len() > 0,
        ensures
            final(self).inv(),
            final(self).kind == old(self).kind,
            final(self).orders@ == old(self).orders@.drop_first(),
            final(self).index@ == old(self).index@.remove(old(self).orders@[0].id),
    {
        let ghost s0 = self.orders@;
        let ghost kind0 = self.kind;
        let head = self.orders.remove(0);
        self.index.remove(&head.id);
        proof {
            assert(self.orders@ =~= s0.drop_first());
            lemma_drop_first_side(kind0, s0);
            let r = self.orders@;
            assert forall|id: u128| #[trigger] self.index@.contains_key(id) implies has_order_id(
                r,
                id,
            ) by {
                let i = choose|i: int| 0 <= i < s0.len() && s0[i].id == id;
                assert(i != 0);
                assert(r[i - 1].id == id);
            }
            assert forall|k: int| 0 <= k < r.len() implies self.index@.contains_key(
                (#[trigger] r[k]).id,
            ) && self.index@[r[k].id] == r[k] by {
                assert(r[k] == s0[k + 1]);
                assert(s0[k + 1].id != s0[0].id);
            }
        }
    }

    /// Replace the head by a copy with a new quantity (same id, timestamp,
    /// side and price), in the collection and the index together.
    pub(crate) fn replace_head(&mut self, o: Order)
        requires
            old(self).inv(),
            old(self).orders@.len() > 0,
            o.id == old(self).orders@[0].id,
            o.ts == old(self).orders@[0].ts,
            o.price == old(self).orders@[0].price,
            o.order_type == old(self).orders@[0].order_type,
            o.quantity >= 1,
        ensures
            final(self).inv(),
            final(self).kind == old(self).kind,
            final(self).orders@ == old(self).orders@.update(0, o),
            final(self).index@ == old(self).index@.insert(o.id, o),
    {
        let ghost s0 = self.orders@;
        let ghost kind0 = self.kind;
        self.orders.set(0, o);
        self.index.insert(o.id, o);
        proof {
            lemma_replace_head(kind0, s0, o);
            let r = self.orders@;
            assert forall|id: u128| #[trigger] self.index@.contains_key(id) implies has_order_id(
                r,
                id,
            ) by {
                if id == o.id {
                    assert(r[0].id == id);
                } else {
                    let i = choose|i: int| 0 <= i < s0.len() && s0[i].id == id;
                    assert(i != 0);
                    assert(r[i].id == id);
                }
            }
            assert forall|k: int| 0 <= k < r.len() implies self.index@.contains_key(
                (#[trigger] r[k]).id,
            ) && self.index@[r[k].id] == r[k] by {
                if k != 0 {
                    assert(r[k] == s0[k]);
                    assert(s0[k].id != s0[0].id);
                }
            }
        }
    }

    /// Remove the order with this id, from the collection and the index
    /// together, and hand it back.
    pub(crate) fn remove_id(&mut self, id: u128) -> (removed: Order)
        requires
            old(self).inv(),
            has_order_id(old(self).orders@, id),
        ensures
            final(self).inv(),
            final(self).kind == old(self).kind,
            removed == old(self).orders@[find_order_id(old(self).orders@, id)],
            final(self).orders@ == old(self).orders@.remove(
                find_order_id(old(self).orders@, id),
            ),
            final(self).index@ == old(self).index@.remove(id),
    {
        let ghost s0 = self.orders@;
        let ghost kind0 = self.kind;
        proof {
            lemma_remove_id(kind0, s0, id);
        }
        let ghost f = find_order_id(s0, id);
        proof {
            assert(0 <= f < s0.len() && s0[f].id == id);
        }
        let n = self.orders.len();
        let mut j: usize = 0;
        loop
            invariant_except_break
                self.kind == kind0,
                self.orders@ == s0,
                s0.len() == n,
                0 <= f < s0.len(),
                s0[f].id == id,
                distinct_ids(s0),
                0 <= j <= f,
                forall|k: int| 0 <= k < j ==> s0[k].id != id,
            ensures
                self.orders@ == s0,
                self.kind == kind0,
                0 <= j < s0.len(),
                j as int == f,
            decreases s0.len() - j,
        {
            if self.orders[j].id == id {
                proof {
                    if j as int != f {
                        assert(distinct_ids(s0));
                    }
                }
                break;
            }
            proof {
                assert(j as int != f);
            }
            j = j + 1;
        }
        let removed = self.orders.remove(j);
        self.index.remove(&id);
        proof {
            let r = self.orders@;
            assert forall|x: u128| #[trigger] self.index@.contains_key(x) implies has_order_id(
                r,
                x,
            ) by {
                assert(has_order_id(s0, x) && x != id);
            }
            assert forall|k: int| 0 <= k < r.len() implies self.index@.contains_key(
                (#[trigger] r[k]).id,
            ) && self.index@[r[k].id] == r[k] by {
                if k < f {
                    assert(r[k] == s0[k]);
                    assert(s0[k].id != id);
                } else {
                    assert(r[k] == s0[k + 1]);
                    assert(s0[k + 1].id != id);
                }
            }
        }
        removed
    }

    /// A copy of the side's orders in priority order.
    pub(crate) fn snapshot(&self) -> (v: Vec<Order>)
        ensures
            v@ == self.orders@,
    {
        let mut v: Vec<Order> = Vec::new();
        let mut i: usize = 0;
        while i < self.orders.len()
            invariant
                0 <= i <= self.orders@.len(),
                v@ == self.orders@.take(i as int),
            decreases self.orders@.len() - i,
        {
            v.push(self.orders[i]);
            i = i + 1;
            proof {
                assert(v@ =~= self.orders@.take(i as int));
            }
        }
        proof {
            assert(v@ =~= self.orders@);
        }
        v
    }
}

} // verus!
