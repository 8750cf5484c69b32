//! The order entity and the per-side priority orders.
//!
//! An order has a stable 128-bit id, a side, an acceptance timestamp in UTC
//! milliseconds, a positive quantity and a positive price. The price is an
//! exact fixed-point integer: a count of ticks of a known size, so that no
//! binary-float rounding can occur.

use vstd::prelude::*;
use core::cmp::Ordering;

verus! {

#[derive(Debug, PartialEq, Eq, Clone, Copy, Structural)]
pub enum OrderType {
    Sell,
    Buy,
}

#[derive(Debug, PartialEq, Eq, Clone, Copy, Structural)]
pub struct Order {
    pub order_type: OrderType,
    pub id: u128,
    pub ts: i64,
    pub quantity: u32,
    pub price: u64,
}

/// Quantity and price are strictly positive at creation and stay so in the book.
pub open spec fn order_valid(o: Order) -> bool {
    o.quantity >= 1 && o.price >= 1
}

/// The sell-side total order: ascending price, then earlier timestamp, then id
/// as a stable tiebreaker so that distinct orders are never treated as equal.
pub open spec fn sell_before(a: Order, b: Order) -> bool {
    ||| a.price < b.price
    ||| (a.price == b.price && a.ts < b.ts)
    ||| (a.price == b.price && a.ts == b.ts && a.id < b.id)
}

/// The buy-side total order: descending price, then earlier timestamp, then id.
pub open spec fn buy_before(a: Order, b: Order) -> bool {
    ||| a.price > b.price
    ||| (a.price == b.price && a.ts < b.ts)
    ||| (a.price == b.price && a.ts == b.ts && a.id < b.id)
}

/// Priority on the side named by `side`: the order that comes first is served first.
pub open spec fn side_before(side: OrderType, a: Order, b: Order) -> bool {
    match side {
        OrderType::Sell => sell_before(a, b),
        OrderType::Buy => buy_before(a, b),
    }
}

/// The direction-aware crossing predicate: the aggressor's price is at least
/// as good for the counterpart as the price of the head of the opposite side.
pub open spec fn crosses(incoming: Order, head: Order) -> bool {
    match incoming.order_type {
        OrderType::Buy => incoming.price >= head.price,
        OrderType::Sell => incoming.price <= head.price,
    }
}

/// The opposite side, the one an aggressor matches against.
pub open spec fn opposite(side: OrderType) -> OrderType {
    match side {
        OrderType::Sell => OrderType::Buy,
        OrderType::Buy => OrderType::Sell,
    }
}

/// A copy of an order with a new quantity: partial fills replace an order by
/// such a copy, keeping id, timestamp, side and price.
pub open spec fn with_quantity(o: Order, quantity: u32) -> Order {
    Order { quantity, ..o }
}

impl Order {
    /// Mint a sell order with a fresh random id.
    pub fn sell(ts: i64, quantity: u32, price: u64) -> (o: Order)
        ensures
            o.order_type == OrderType::Sell,
            o.ts == ts,
            o.quantity == quantity,
            o.price == price,
    {
        Order { id: crate::trusted::fresh_id(), order_type: OrderType::Sell, ts, quantity, price }
    }

    /// Mint a buy order with a fresh random id.
    pub fn buy(ts: i64, quantity: u32, price: u64) -> (o: Order)
        ensures
            o.order_type == OrderType::Buy,
            o.ts == ts,
            o.quantity == quantity,
            o.price == price,
    {
        Order { id: crate::trusted::fresh_id(), order_type: OrderType::Buy, ts, quantity, price }
    }

    /// The per-side comparator. Both operands are expected on `self`'s side,
    /// which is exactly how the ordered side collections compare them.
    pub fn cmp(&self, other: &Order) -> (r: Ordering)
        ensures
            (r == Ordering::Less) <==> side_before(self.order_type, *self, *other),
            (r == Ordering::Greater) <==> side_before(self.order_type, *other, *self),
            (r == Ordering::Equal) <==> (self.price == other.price && self.ts == other.ts
                && self.id == other.id),
    {
        let (price_lt, price_gt): (bool, bool) = match self.order_type {
            OrderType::Sell => (self.price < other.price, self.price > other.price),
            OrderType::Buy => (self.price > other.price, self.price < other.price),
        };
        if price_lt {
            Ordering::Less
        } else if price_gt {
            Ordering::Greater
        } else if self.ts < other.ts {
            Ordering::Less
        } else if self.ts > other.ts {
            Ordering::Greater
        } else if self.id < other.id {
            Ordering::Less
        } else if self.id > other.id {
            Ordering::Greater
        } else {
            Ordering::Equal
        }
    }
}

} // verus!
