//! What the durable event sink stores: the row each event maps to, and the
//! persistence filter. `State` and `Rejected` events are transient and map to
//! no row; `Accepted`, `Filled` and `Canceled` must be persisted.

use vstd::prelude::*;
use crate::order::OrderType;
use crate::events::{events_view, Event, EventV};

verus! {

/// The type tag a persisted event row carries: "buy" or "sell" for an
/// acceptance depending on the order's side, "fill" and "cancel" for the rest.
#[derive(Debug, PartialEq, Eq, Clone, Copy, Structural)]
pub enum EventType {
    Buy,
    Sell,
    Fill,
    Cancel,
}

impl EventType {
    pub fn as_str(&self) -> (s: &'static str)
        ensures
            s@ == (match self {
                EventType::Buy => "buy"@,
                EventType::Sell => "sell"@,
                EventType::Fill => "fill"@,
                EventType::Cancel => "cancel"@,
            }),
    {
        match self {
            EventType::Buy => "buy",
            EventType::Sell => "sell",
            EventType::Fill => "fill",
            EventType::Cancel => "cancel",
        }
    }
}

/// One persisted row: timestamp, type tag, the order's id, quantity and
/// price, and for fills the counterpart's id, quantity and price. Prices
/// stay exact fixed-point ticks.
#[derive(Debug, PartialEq, Eq, Clone, Copy, Structural)]
pub struct EventRow {
    pub ts: i64,
    pub event_type: EventType,
    pub order_id: u128,
    pub order_quantity: Option<u32>,
    pub order_price: Option<u64>,
    pub counterpart_id: Option<u128>,
    pub counterpart_quantity: Option<u32>,
    pub counterpart_price: Option<u64>,
}

/// The row an event maps to: `None` exactly for the transient events.
pub open spec fn row_of_event(e: EventV) -> Option<EventRow> {
    match e {
        EventV::Filled { ts, order, counterpart } => Some(
            EventRow {
                ts,
                event_type: EventType::Fill,
                order_id: order.id,
                order_quantity: Some(order.quantity),
                order_price: Some(order.price),
                counterpart_id: Some(counterpart.id),
                counterpart_quantity: Some(counterpart.quantity),
                counterpart_price: Some(counterpart.price),
            },
        ),
        EventV::Accepted { ts, order } => Some(
            EventRow {
                ts,
                event_type: match order.order_type {
                    OrderType::Sell => EventType::Sell,
                    OrderType::Buy => EventType::Buy,
                },
                order_id: order.id,
                order_quantity: Some(order.quantity),
                order_price: Some(order.price),
                counterpart_id: None,
                counterpart_quantity: None,
                counterpart_price: None,
            },
        ),
        EventV::Canceled { ts, order } => Some(
            EventRow {
                ts,
                event_type: EventType::Cancel,
                order_id: order.id,
                order_quantity: Some(order.quantity),
                order_price: Some(order.price),
                counterpart_id: None,
                counterpart_quantity: None,
                counterpart_price: None,
            },
        ),
        EventV::Rejected { .. } => None,
        EventV::State { .. } => None,
    }
}

/// The rows of a batch, in order, with the transient events filtered out.
pub open spec fn rows_of(events: Seq<EventV>) -> Seq<EventRow>
    decreases events.len(),
{
    if events.len() == 0 {
        Seq::<EventRow>::empty()
    } else {
        rows_of(events.drop_last()) + (match row_of_event(events.last()) {
            Some(row) => seq![row],
            None => Seq::<EventRow>::empty(),
        })
    }
}

/// The row one event maps to; `None` exactly for `Rejected` and `State`.
pub fn event_row(e: &Event) -> (r: Option<EventRow>)
    ensures
        r == row_of_event(e@),
{
    match e {
        Event::Filled { ts, order, counterpart } => Some(
            EventRow {
                ts: *ts,
                event_type: EventType::Fill,
                order_id: order.id,
                order_quantity: Some(order.quantity),
                order_price: Some(order.price),
                counterpart_id: Some(counterpart.id),
                counterpart_quantity: Some(counterpart.quantity),
                counterpart_price: Some(counterpart.price),
            },
        ),
        Event::Accepted { ts, order } => {
            let event_type = match order.order_type {
                OrderType::Sell => EventType::Sell,
                OrderType::Buy => EventType::Buy,
            };
            Some(
                EventRow {
                    ts: *ts,
                    event_type,
                    order_id: order.id,
                    order_quantity: Some(order.quantity),
                    order_price: Some(order.price),
                    counterpart_id: None,
                    counterpart_quantity: None,
                    counterpart_price: None,
                },
            )
        },
        Event::Canceled { ts, order } => Some(
            EventRow {
                ts: *ts,
                event_type: EventType::Cancel,
                order_id: order.id,
                order_quantity: Some(order.quantity),
                order_price: Some(order.price),
                counterpart_id: None,
                counterpart_quantity: None,
                counterpart_price: None,
            },
        ),
        Event::Rejected { .. } => None,
        Event::State { .. } => None,
    }
}

/// The rows to persist for a batch: every `Accepted`, `Filled` and `Canceled`
/// event in order, nothing for `Rejected` and `State`.
pub fn rows_of_events(events: &Vec<Event>) -> (rows: Vec<EventRow>)
    ensures
        rows@ == rows_of(events_view(events@)),
{
    let mut rows: Vec<EventRow> = Vec::new();
    let mut i: usize = 0;
    proof {
        assert(events_view(events@.take(0)) =~= Seq::<EventV>::empty());
    }
    while i < events.len()
        invariant
            0 <= i <= events@.len(),
            rows@ == rows_of(events_view(events@.take(i as int))),
        decreases events@.len() - i,
    {
        let row = event_row(&events[i]);
        proof {
            let pre = events_view(events@.take(i as int));
            let post = events_view(events@.take(i as int + 1));
            assert(post.drop_last() =~= pre);
            assert(post.last() == events@[i as int]@);
        }
        match row {
            Some(r) => {
                rows.push(r);
            },
            None => {},
        }
        i = i + 1;
        proof {
            assert(rows@ =~= rows_of(events_view(events@.take(i as int))));
        }
    }
    proof {
        assert(events@.take(events@.len() as int) =~= events@);
    }
    rows
}

} // verus!
