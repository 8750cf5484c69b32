//! Concrete instances of the book's laws and the literal scenarios, plus the
//! persistence filter and the error constructors. Prices are ticks of one
//! tenth: 2 is written 20, 5.5 is written 55.

use orderbook_api_rs::events::{Command, Event, OrderBookState};
use orderbook_api_rs::order::{Order, OrderType};
use orderbook_api_rs::order_book::OrderBook;
use orderbook_api_rs::sink::{event_row, rows_of_events, EventRow, EventType};
use orderbook_api_rs::Error;

fn get_state(order_book: &mut OrderBook) -> OrderBookState {
    let mut events = order_book.process(Command::GetState);
    match (events.len(), events.pop()) {
        (1, Some(Event::State { state })) => state,
        _ => panic!("expected a single state event"),
    }
}

fn accepted_order(events: &[Event], at: usize) -> Order {
    match &events[at] {
        Event::Accepted { order, .. } => *order,
        other => panic!("expected an acceptance, got {:?}", other),
    }
}

#[test]
fn scenario_insert_buy_no_match() {
    let mut book = OrderBook::new("test");
    let events = book.process(Command::Buy { quantity: 5, price: 20 });
    assert_eq!(events.len(), 1);
    let order = accepted_order(&events, 0);
    assert_eq!(order.order_type, OrderType::Buy);
    assert_eq!(order.quantity, 5);
    assert_eq!(order.price, 20);
    let state = get_state(&mut book);
    assert_eq!(state.buy.len(), 1);
    assert_eq!(state.buy[0], order);
    assert!(state.sell.is_empty());
}

#[test]
fn scenario_cancel_unknown() {
    let mut book = OrderBook::new("test");
    let events = book.process(Command::Cancel { id: 0xDEAD_BEEF });
    assert_eq!(events.len(), 1);
    match &events[0] {
        Event::Rejected { reason, .. } => assert!(reason.contains("not found")),
        other => panic!("expected a rejection, got {:?}", other),
    }
}

#[test]
fn scenario_exact_fill() {
    let mut book = OrderBook::new("test");
    let events = book.process(Command::Buy { quantity: 5, price: 20 });
    let buy = accepted_order(&events, 0);
    let events = book.process(Command::Sell { quantity: 5, price: 20 });
    assert_eq!(events.len(), 2);
    let sell = accepted_order(&events, 0);
    assert_eq!(sell.order_type, OrderType::Sell);
    assert_eq!((sell.quantity, sell.price), (5, 20));
    match &events[1] {
        Event::Filled { order, counterpart, .. } => {
            assert_eq!(order.id, sell.id);
            assert_eq!((order.quantity, order.price), (5, 20));
            assert_eq!(counterpart.id, buy.id);
            assert_eq!((counterpart.quantity, counterpart.price), (5, 20));
        }
        other => panic!("expected a fill, got {:?}", other),
    }
    let state = get_state(&mut book);
    assert!(state.buy.is_empty());
    assert!(state.sell.is_empty());
}

#[test]
fn scenario_aggressor_partially_eats_resting_and_rests() {
    let mut book = OrderBook::new("test");
    let events = book.process(Command::Sell { quantity: 5, price: 20 });
    let sell = accepted_order(&events, 0);
    let events = book.process(Command::Buy { quantity: 10, price: 20 });
    assert_eq!(events.len(), 3);
    let buy = accepted_order(&events, 0);
    assert_eq!((buy.order_type, buy.quantity, buy.price), (OrderType::Buy, 10, 20));
    match &events[1] {
        Event::Filled { order, counterpart, .. } => {
            assert_eq!(order.id, buy.id);
            assert_eq!(order.quantity, 5);
            assert_eq!(counterpart.id, sell.id);
            assert_eq!((counterpart.quantity, counterpart.price), (5, 20));
        }
        other => panic!("expected a fill, got {:?}", other),
    }
    let remainder = accepted_order(&events, 2);
    assert_eq!(remainder.id, buy.id);
    assert_eq!((remainder.order_type, remainder.quantity, remainder.price), (OrderType::Buy, 5, 20));
    let state = get_state(&mut book);
    assert_eq!(state.buy.len(), 1);
    assert_eq!(state.buy[0], remainder);
    assert!(state.sell.is_empty());
}

#[test]
fn scenario_aggressor_absorbed_by_larger_resting() {
    let mut book = OrderBook::new("test");
    let events = book.process(Command::Buy { quantity: 10, price: 30 });
    let buy = accepted_order(&events, 0);
    let events = book.process(Command::Sell { quantity: 4, price: 30 });
    assert_eq!(events.len(), 2);
    let sell = accepted_order(&events, 0);
    assert_eq!((sell.order_type, sell.quantity, sell.price), (OrderType::Sell, 4, 30));
    match &events[1] {
        Event::Filled { order, counterpart, .. } => {
            assert_eq!(order.id, sell.id);
            assert_eq!((order.quantity, order.price), (4, 30));
            assert_eq!(counterpart.id, buy.id);
            // the counterpart is recorded as it stood before the match
            assert_eq!((counterpart.quantity, counterpart.price), (10, 30));
        }
        other => panic!("expected a fill, got {:?}", other),
    }
    let state = get_state(&mut book);
    assert_eq!(state.buy.len(), 1);
    assert_eq!(state.buy[0].id, buy.id);
    assert_eq!(state.buy[0].ts, buy.ts);
    assert_eq!(state.buy[0].quantity, 6);
    assert_eq!(state.buy[0].price, 30);
    assert!(state.sell.is_empty());
}

#[test]
fn scenario_update_cancels_then_reinserts_with_new_id() {
    let mut book = OrderBook::new("test");
    let events = book.process(Command::Buy { quantity: 5, price: 20 });
    let first = accepted_order(&events, 0);
    let events = book.process(Command::Update { id: first.id, new_quantity: 10, new_price: 55 });
    assert_eq!(events.len(), 2);
    match &events[0] {
        Event::Canceled { order, .. } => assert_eq!(order.id, first.id),
        other => panic!("expected a cancellation, got {:?}", other),
    }
    let updated = accepted_order(&events, 1);
    assert_ne!(updated.id, first.id);
    assert_eq!((updated.quantity, updated.price), (10, 55));
    let state = get_state(&mut book);
    assert_eq!(state.buy.len(), 1);
    assert_eq!(state.buy[0], updated);
}

#[test]
fn no_id_rests_on_both_sides() {
    let mut book = OrderBook::new("test");
    book.process(Command::Buy { quantity: 5, price: 20 });
    book.process(Command::Buy { quantity: 3, price: 25 });
    book.process(Command::Sell { quantity: 2, price: 40 });
    book.process(Command::Sell { quantity: 7, price: 25 });
    let state = get_state(&mut book);
    for buy in &state.buy {
        for sell in &state.sell {
            assert_ne!(buy.id, sell.id);
        }
    }
}

#[test]
fn index_resolves_every_resting_id() {
    let mut book = OrderBook::new("test");
    book.process(Command::Buy { quantity: 5, price: 20 });
    book.process(Command::Sell { quantity: 2, price: 40 });
    book.process(Command::Buy { quantity: 1, price: 15 });
    let state = get_state(&mut book);
    assert_eq!(state.buy.len(), 2);
    assert_eq!(state.sell.len(), 1);
    for order in state.buy.iter().chain(state.sell.iter()) {
        assert!(book.contains_order(order.id));
    }
    assert!(!book.contains_order(0x5151_5151));
}

#[test]
fn best_buy_stays_below_best_sell() {
    let mut book = OrderBook::new("test");
    book.process(Command::Buy { quantity: 5, price: 20 });
    book.process(Command::Sell { quantity: 5, price: 30 });
    book.process(Command::Buy { quantity: 5, price: 25 });
    book.process(Command::Sell { quantity: 5, price: 26 });
    let state = get_state(&mut book);
    assert!(!state.buy.is_empty() && !state.sell.is_empty());
    assert!(state.buy[0].price < state.sell[0].price);
}

#[test]
fn priority_order_prefers_better_price() {
    let mut book = OrderBook::new("test");
    book.process(Command::Buy { quantity: 1, price: 20 });
    book.process(Command::Buy { quantity: 1, price: 30 });
    book.process(Command::Sell { quantity: 1, price: 50 });
    book.process(Command::Sell { quantity: 1, price: 40 });
    let state = get_state(&mut book);
    assert_eq!(state.buy[0].price, 30);
    assert_eq!(state.buy[1].price, 20);
    assert_eq!(state.sell[0].price, 40);
    assert_eq!(state.sell[1].price, 50);
}

#[test]
fn quantity_is_conserved_across_a_sweep() {
    let mut book = OrderBook::new("test");
    book.process(Command::Sell { quantity: 5, price: 20 });
    book.process(Command::Sell { quantity: 7, price: 20 });
    let events = book.process(Command::Buy { quantity: 20, price: 20 });
    // consumed portions recorded on the aggressor side of each fill
    let mut consumed: u64 = 0;
    for event in &events {
        if let Event::Filled { order, .. } = event {
            consumed += u64::from(order.quantity);
        }
    }
    let state = get_state(&mut book);
    let resting: u64 = state.buy.iter().map(|o| u64::from(o.quantity)).sum();
    assert_eq!(consumed, 12);
    assert_eq!(resting, 8);
    assert_eq!(consumed + resting, 20);
    assert!(state.sell.is_empty());
}

#[test]
fn cancel_is_idempotent_in_effect() {
    let mut book = OrderBook::new("test");
    let events = book.process(Command::Buy { quantity: 5, price: 20 });
    let order = accepted_order(&events, 0);
    let first = book.process(Command::Cancel { id: order.id });
    assert_eq!(first.len(), 1);
    assert!(matches!(first[0], Event::Canceled { .. }));
    let second = book.process(Command::Cancel { id: order.id });
    assert_eq!(second.len(), 1);
    assert!(matches!(second[0], Event::Rejected { .. }));
}

#[test]
fn get_state_lists_sides_in_priority_order() {
    let mut book = OrderBook::new("test");
    book.process(Command::Sell { quantity: 1, price: 41 });
    book.process(Command::Sell { quantity: 1, price: 40 });
    book.process(Command::Sell { quantity: 1, price: 42 });
    book.process(Command::Buy { quantity: 1, price: 22 });
    book.process(Command::Buy { quantity: 1, price: 21 });
    book.process(Command::Buy { quantity: 1, price: 23 });
    let state = get_state(&mut book);
    for pair in state.sell.windows(2) {
        assert!(pair[0].price <= pair[1].price);
    }
    for pair in state.buy.windows(2) {
        assert!(pair[0].price >= pair[1].price);
    }
    for order in state.buy.iter().chain(state.sell.iter()) {
        assert!(book.contains_order(order.id));
    }
}

#[test]
fn rejection_reason_names_the_missing_order() {
    let mut book = OrderBook::new("test");
    let events = book.process(Command::Cancel { id: 71 });
    match &events[0] {
        Event::Rejected { reason, .. } => {
            assert!(reason.contains("not found"));
            assert_eq!(reason, "Order 71 not found in sell or buy side");
        }
        other => panic!("expected a rejection, got {:?}", other),
    }
    let events = book.process(Command::Update { id: 340_282_366_920, new_quantity: 1, new_price: 1 });
    match &events[0] {
        Event::Rejected { reason, .. } => {
            assert_eq!(reason, "Order 340282366920 not found in sell or buy side");
        }
        other => panic!("expected a rejection, got {:?}", other),
    }
}

#[test]
fn event_rows_keep_fills_and_drop_transients() {
    let mut book = OrderBook::new("test");
    book.process(Command::Sell { quantity: 5, price: 20 });
    let mut events = book.process(Command::Buy { quantity: 10, price: 20 });
    // a transient rejection and a state snapshot must not be persisted
    let mut tail = book.process(Command::Cancel { id: 1 });
    events.append(&mut tail);
    let mut tail = book.process(Command::GetState);
    events.append(&mut tail);
    assert_eq!(events.len(), 5);
    let rows = rows_of_events(&events);
    assert_eq!(rows.len(), 3);
    assert_eq!(rows[0].event_type, EventType::Buy);
    assert_eq!(rows[0].order_quantity, Some(10));
    assert_eq!(rows[0].order_price, Some(20));
    assert_eq!(rows[1].event_type, EventType::Fill);
    assert_eq!(rows[1].order_quantity, Some(5));
    assert_eq!(rows[1].counterpart_quantity, Some(5));
    assert_eq!(rows[1].counterpart_price, Some(20));
    assert_eq!(rows[2].event_type, EventType::Buy);
    assert_eq!(rows[2].order_quantity, Some(5));
}

#[test]
fn event_row_shapes_per_variant() {
    let ts: i64 = 77;
    let order = Order { order_type: OrderType::Sell, id: 3, ts, quantity: 4, price: 9 };
    let counterpart = Order { order_type: OrderType::Buy, id: 8, ts, quantity: 4, price: 9 };
    let accepted = event_row(&Event::Accepted { ts, order }).unwrap();
    assert_eq!(
        accepted,
        EventRow {
            ts,
            event_type: EventType::Sell,
            order_id: 3,
            order_quantity: Some(4),
            order_price: Some(9),
            counterpart_id: None,
            counterpart_quantity: None,
            counterpart_price: None,
        }
    );
    let filled = event_row(&Event::Filled { ts, order, counterpart }).unwrap();
    assert_eq!(filled.event_type, EventType::Fill);
    assert_eq!(filled.counterpart_id, Some(8));
    let canceled = event_row(&Event::Canceled { ts, order }).unwrap();
    assert_eq!(canceled.event_type, EventType::Cancel);
    assert_eq!(canceled.order_id, 3);
    assert_eq!(canceled.order_quantity, Some(4));
    assert_eq!(canceled.order_price, Some(9));
    assert_eq!(canceled.counterpart_id, None);
    assert!(event_row(&Event::Rejected { ts, reason: "nope".to_owned() }).is_none());
    assert!(event_row(&Event::State {
        state: OrderBookState { buy: vec![], sell: vec![] }
    })
    .is_none());
    assert_eq!(EventType::Buy.as_str(), "buy");
    assert_eq!(EventType::Sell.as_str(), "sell");
    assert_eq!(EventType::Fill.as_str(), "fill");
    assert_eq!(EventType::Cancel.as_str(), "cancel");
}

#[test]
fn error_constructors_carry_their_fields() {
    match Error::event_rejection(5, "unknown id".to_owned()) {
        Error::EventRejection { ts, reason } => {
            assert_eq!(ts, 5);
            assert_eq!(reason, "unknown id");
        }
        _ => panic!("wrong variant"),
    }
    match Error::application_error("queue closed".to_owned()) {
        Error::ApplicationError { reason } => assert_eq!(reason, "queue closed"),
        _ => panic!("wrong variant"),
    }
}

#[test]
fn minted_constructors_set_their_side() {
    let buy = Order::buy(12, 3, 40);
    assert_eq!((buy.order_type, buy.ts, buy.quantity, buy.price), (OrderType::Buy, 12, 3, 40));
    let sell = Order::sell(12, 3, 40);
    assert_eq!(
        (sell.order_type, sell.ts, sell.quantity, sell.price),
        (OrderType::Sell, 12, 3, 40)
    );
    assert_ne!(buy.id, sell.id);
}
