//! A verified single-instrument limit order book.
//!
//! The matching engine accepts buy, sell, cancel and update commands for one
//! ticker symbol, matches crossing orders under strict price-time priority,
//! and emits an ordered event stream. The book's invariants (no crossing
//! resting pair, price-time sortedness, index/collection correspondence) and
//! the matching semantics are stated as contracts and proved.

use vstd::prelude::*;

pub mod events;
pub mod laws;
pub mod model;
pub mod order;
pub mod order_book;
pub mod sink;
mod side;
mod trusted;

verus! {

/// Environment-driven configuration: where the durable event sink lives.
pub struct Config {
    pub database_file: String,
}

/// Client-facing errors outside the event stream: a business-level rejection
/// carried out of a `Rejected` event, or an internal failure of the plumbing
/// around the engine.
pub enum Error {
    EventRejection { ts: i64, reason: String },
    ApplicationError { reason: String },
}

impl Error {
    pub fn event_rejection(ts: i64, reason: String) -> (e: Error)
        ensures
            e == (Error::EventRejection { ts, reason }),
    {
        Error::EventRejection { ts, reason }
    }

    pub fn application_error(reason: String) -> (e: Error)
        ensures
            e == (Error::ApplicationError { reason }),
    {
        Error::ApplicationError { reason }
    }
}

} // verus!
