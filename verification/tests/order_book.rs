//! The engine's behaviour seen from outside: insertion, cancellation,
//! update, and partial fills. Prices are fixed-point ticks; these tests use
//! a tick of one tenth, so a price of 2 is written 20 and 5.5 is written 55.

use std::cmp::Ordering;

use orderbook_api_rs::events::{Command, Event, OrderBookState};
use orderbook_api_rs::order::{Order, OrderType};
use orderbook_api_rs::order_book::OrderBook;

fn get_state(order_book: &mut OrderBook) -> OrderBookState {
    let mut events = order_book.process(Command::GetState);
    match (events.len(), events.pop()) {
        (1, Some(Event::State { state })) => state,
        _ => panic!("expected a single state event"),
    }
}

#[test]
fn test_order_on_same_price_should_be_ordered_by_earliest() {
    let ts: i64 = 1_700_000_000_000;
    {
        let order1 = Order::buy(ts, 10, 10);
        let order2 = Order::buy(ts + 1, 10, 10);
        assert_eq!(order1.cmp(&order2), Ordering::Less);
    }
    {
        let order1 = Order::sell(ts, 10, 10);
        let order2 = Order::sell(ts + 1, 10, 10);
        assert_eq!(order1.cmp(&order2), Ordering::Less);
    }
}

#[test]
fn test_insert_buy() {
    let mut order_book = OrderBook::new("test");
    let events = order_book.process(Command::Buy { quantity: 5, price: 20 });
    let [Event::Accepted {
        ts: _,
        order: Order { order_type: OrderType::Buy, id: _, ts: _, quantity: 5, price },
    }] = &events[..]
    else {
        panic!("Wrong event type, events={:?}", events);
    };
    assert_eq!(price, &20);
    let state = get_state(&mut order_book);
    assert_eq!(state.buy.len(), 1);
    assert!(state.sell.is_empty());
}

#[test]
fn test_insert_sell() {
    let mut order_book = OrderBook::new("test");
    let events = order_book.process(Command::Sell { quantity: 5, price: 20 });
    let [Event::Accepted {
        ts: _,
        order: Order { order_type: OrderType::Sell, id: _, ts: _, quantity: 5, price },
    }] = &events[..]
    else {
        panic!("Wrong event type, events={:?}", events);
    };
    assert_eq!(price, &20);
    let state = get_state(&mut order_book);
    assert_eq!(state.sell.len(), 1);
    assert!(state.buy.is_empty());
}

#[test]
fn test_reject_cancel_of_non_existing_order() {
    let mut order_book = OrderBook::new("test");
    let events = order_book.process(Command::Cancel { id: 0x4242_4242 });
    assert_eq!(events.len(), 1);
    assert!(matches!(events.first().unwrap(), Event::Rejected { .. }));
}

#[test]
fn test_cancel_order() {
    let mut order_book = OrderBook::new("test");
    let events = order_book.process(Command::Buy { quantity: 5, price: 20 });
    let [Event::Accepted {
        ts: _,
        order: Order { order_type: OrderType::Buy, id, ts: _, quantity: _, price: _ },
    }] = &events[..]
    else {
        panic!("Wrong event type, events={:?}", events);
    };
    let events = order_book.process(Command::Cancel { id: *id });
    assert_eq!(events.len(), 1);
    assert!(matches!(events.first().unwrap(), Event::Canceled { .. }));
    let state = get_state(&mut order_book);
    assert!(state.buy.is_empty());
}

#[test]
fn test_update_order() {
    let mut order_book = OrderBook::new("test");
    let events = order_book.process(Command::Buy { quantity: 5, price: 20 });
    let [Event::Accepted { ts: _, order: first_order }] = &events[..] else {
        panic!("Wrong event type, events={:?}", events);
    };
    let first_id = first_order.id;
    let events = order_book.process(Command::Update {
        id: first_id,
        new_quantity: 10,
        new_price: 55,
    });
    let [Event::Canceled { ts: _, order: canceled_order }, Event::Accepted {
        ts: _,
        order: updated_order,
    }] = &events[..]
    else {
        panic!("Wrong events={:?}", events);
    };
    assert_eq!(canceled_order.id, first_id);
    assert_ne!(canceled_order.id, updated_order.id);
    assert_eq!(updated_order.quantity, 10);
    assert_eq!(updated_order.price, 55);
    let state = get_state(&mut order_book);
    assert_eq!(state.buy.len(), 1);
}

#[test]
fn test_fill_buy_order_leaving_leftovers() {
    let mut order_book = OrderBook::new("test");
    let events = order_book.process(Command::Buy { quantity: 5, price: 20 });
    let [Event::Accepted { ts: _, order: buy_order }] = &events[..] else {
        panic!("Wrong events={:?}", events);
    };
    assert_eq!(buy_order.order_type, OrderType::Buy);
    let buy_id = buy_order.id;
    let events = order_book.process(Command::Sell { quantity: 10, price: 20 });
    let [Event::Accepted { ts: _, order: sell_order }, Event::Filled {
        ts: _,
        order: filled_order,
        counterpart,
    }, Event::Accepted { ts: _, order: updated_sell_order }] = &events[..]
    else {
        panic!("Wrong events={:?}", events);
    };
    assert_eq!(filled_order.id, sell_order.id);
    assert_eq!(updated_sell_order.id, sell_order.id);
    assert_eq!(buy_id, counterpart.id);
    let state = get_state(&mut order_book);
    assert_eq!(state.sell.len(), 1);
}

#[test]
fn test_fill_sell_order_leaving_leftovers() {
    let mut order_book = OrderBook::new("test");
    let events = order_book.process(Command::Sell { quantity: 5, price: 20 });
    let [Event::Accepted { ts: _, order: sell_order }] = &events[..] else {
        panic!("Wrong events={:?}", events);
    };
    assert_eq!(sell_order.order_type, OrderType::Sell);
    let sell_id = sell_order.id;
    let events = order_book.process(Command::Buy { quantity: 10, price: 20 });
    let [Event::Accepted { ts: _, order: buy_order }, Event::Filled {
        ts: _,
        order: filled_order,
        counterpart,
    }, Event::Accepted { ts: _, order: updated_buy_order }] = &events[..]
    else {
        panic!("Wrong events={:?}", events);
    };
    assert_eq!(filled_order.id, buy_order.id);
    assert_eq!(updated_buy_order.id, buy_order.id);
    assert_eq!(sell_id, counterpart.id);
    let state = get_state(&mut order_book);
    assert_eq!(state.buy.len(), 1);
}
