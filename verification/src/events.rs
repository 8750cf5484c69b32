//! Commands into the engine and the events it emits, with their abstract values.

use vstd::prelude::*;
use crate::order::{Order, OrderType};

verus! {

/// A command for the single serialized entry point of the engine.
#[derive(Debug, Clone, Copy)]
pub enum Command {
    Buy { quantity: u32, price: u64 },
    Sell { quantity: u32, price: u64 },
    Cancel { id: u128 },
    Update { id: u128, new_quantity: u32, new_price: u64 },
    GetState,
}

/// A consistent copy of both side sequences, each in priority order.
#[derive(Debug, Clone, PartialEq, Eq)]
pub struct OrderBookState {
    pub buy: Vec<Order>,
    pub sell: Vec<Order>,
}

/// One event of the ordered stream a command produces. In a `Filled` event,
/// `order` records the consumed portion of the aggressor (its id, timestamp,
/// side and price, with quantity equal to what this match consumed) and
/// `counterpart` records the resting order as it stood before the match.
#[derive(Debug)]
pub enum Event {
    Filled { ts: i64, order: Order, counterpart: Order },
    Accepted { ts: i64, order: Order },
    Canceled { ts: i64, order: Order },
    Rejected { ts: i64, reason: String },
    State { state: OrderBookState },
}

/// The abstract value of an event, over mathematical sequences.
pub enum EventV {
    Filled { ts: i64, order: Order, counterpart: Order },
    Accepted { ts: i64, order: Order },
    Canceled { ts: i64, order: Order },
    Rejected { ts: i64, reason: Seq<char> },
    State { buy: Seq<Order>, sell: Seq<Order> },
}

impl View for Event {
    type V = EventV;

    open spec fn view(&self) -> EventV {
        match self {
            Event::Filled { ts, order, counterpart } => EventV::Filled {
                ts: *ts,
                order: *order,
                counterpart: *counterpart,
            },
            Event::Accepted { ts, order } => EventV::Accepted { ts: *ts, order: *order },
            Event::Canceled { ts, order } => EventV::Canceled { ts: *ts, order: *order },
            Event::Rejected { ts, reason } => EventV::Rejected { ts: *ts, reason: reason@ },
            Event::State { state } => EventV::State { buy: state.buy@, sell: state.sell@ },
        }
    }
}

/// The abstract values of a sequence of events.
pub open spec fn events_view(s: Seq<Event>) -> Seq<EventV> {
    s.map_values(|e: Event| e@)
}

/// Appending an event appends its abstract value.
pub broadcast proof fn lemma_events_view_push(s: Seq<Event>, e: Event)
    ensures
        #[trigger] events_view(s.push(e)) == events_view(s).push(e@),
{
    assert(events_view(s.push(e)) =~= events_view(s).push(e@));
}

/// Commands carrying quantities and prices carry strictly positive ones.
pub open spec fn command_valid(c: Command) -> bool {
    match c {
        Command::Buy { quantity, price } => quantity >= 1 && price >= 1,
        Command::Sell { quantity, price } => quantity >= 1 && price >= 1,
        Command::Update { id: _, new_quantity, new_price } => new_quantity >= 1 && new_price >= 1,
        _ => true,
    }
}

/// Whether a command mints a fresh order id when applied.
pub open spec fn command_needs_id(c: Command) -> bool {
    c is Buy || c is Sell || c is Update
}

} // verus!
