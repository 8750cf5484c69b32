//! The matching engine: the sole owner of one instrument's book state. Every
//! mutation flows through `process`, whose meaning is the `step` function of
//! the abstract model, and every command leaves the book well-formed.

use vstd::prelude::*;
use vstd::set_lib::{lemma_int_range, lemma_len_subset, lemma_len_union, set_int_range};
use crate::order::{opposite, order_valid, side_before, Order, OrderType};
use crate::events::{
    command_needs_id, command_valid, events_view, Command, Event, EventV, OrderBookState,
};
use crate::model::{
    disjoint_ids, find_order_id, has_order_id, insert_sorted, lemma_disjoint_sym,
    lemma_drop_first_side, lemma_insert_sorted, lemma_remove_id, lemma_replace_head,
    new_order_events, no_cross,
    price_no_worse, sides_no_cross, step, step_cancel, step_new_order,
    step_update, match_rec, BookV, wf_book,
};
use crate::side::Side;

verus! {

broadcast use {crate::events::lemma_events_view_push, vstd::seq_lib::seq_to_set_is_finite};

pub struct OrderBook {
    pub ticker: String,
    ts: i64,
    sell: Side,
    buy: Side,
}

impl View for OrderBook {
    type V = BookV;

    closed spec fn view(&self) -> BookV {
        BookV {
            ticker: self.ticker@,
            ts: self.ts,
            buys: self.buy.orders@,
            sells: self.sell.orders@,
            buy_index: self.buy.index@,
            sell_index: self.sell.index@,
        }
    }
}

/// Accept a new order, match it against the opposite side while it crosses,
/// and let any remainder rest on its own side.
#[verifier::loop_isolation(false)]
fn match_and_rest(ts: i64, events: &mut Vec<Event>, order: Order, opp: &mut Side, own: &mut Side)
    requires
        old(opp).inv(),
        old(own).inv(),
        old(own).kind == order.order_type,
        old(opp).kind == opposite(order.order_type),
        order_valid(order),
        !has_order_id(old(opp).orders@, order.id),
        !has_order_id(old(own).orders@, order.id),
        disjoint_ids(old(opp).orders@, old(own).orders@),
        sides_no_cross(order.order_type, old(own).orders@, old(opp).orders@),
    ensures
        final(opp).inv(),
        final(own).inv(),
        final(own).kind == old(own).kind,
        final(opp).kind == old(opp).kind,
        disjoint_ids(final(opp).orders@, final(own).orders@),
        sides_no_cross(order.order_type, final(own).orders@, final(opp).orders@),
        ({
            let m = match_rec(order, old(opp).orders@, ts);
            &&& final(opp).orders@ == m.opp
            &&& final(own).orders@ == (match m.rest {
                Some(r) => insert_sorted(order.order_type, old(own).orders@, r),
                None => old(own).orders@,
            })
            &&& events_view(final(events)@) == events_view(old(events)@) + new_order_events(
                order,
                m,
                ts,
            )
        }),
{
    events.push(Event::Accepted { ts, order });
    let ghost opp0 = *opp;
    let ghost own0 = *own;
    let ghost e1 = events@;
    let ghost m = match_rec(order, opp.orders@, ts);
    let mut incoming = order;
    let ghost mut fills_done = Seq::<EventV>::empty();
    proof {
        assert(events_view(e1) =~= events_view(old(events)@) + seq![
            EventV::Accepted { ts, order },
        ]);
        assert(events_view(events@) =~= events_view(e1) + fills_done);
        assert(m.fills =~= Seq::<EventV>::empty() + m.fills);
    }
    loop
        invariant
            opp.inv(),
            own.inv(),
            opp.kind == opp0.kind,
            own.kind == own0.kind,
            own.orders@ == own0.orders@,
            own.index@ == own0.index@,
            incoming.order_type == order.order_type,
            incoming.id == order.id,
            incoming.ts == order.ts,
            incoming.price == order.price,
            1 <= incoming.quantity <= order.quantity,
            (incoming.quantity < order.quantity) <==> fills_done.len() > 0,
            match_rec(incoming, opp.orders@, ts).opp == m.opp,
            match_rec(incoming, opp.orders@, ts).rest == m.rest,
            m.fills == fills_done + match_rec(incoming, opp.orders@, ts).fills,
            events_view(events@) == events_view(e1) + fills_done,
            !has_order_id(opp.orders@, incoming.id),
            forall|x: u128| has_order_id(opp.orders@, x) ==> has_order_id(opp0.orders@, x),
            opp.orders@.len() > 0 ==> opp0.orders@.len() > 0 && price_no_worse(
                order.order_type,
                opp0.orders@[0],
                opp.orders@[0],
            ),
        decreases opp.orders@.len(),
    {
        let ghost opp_pre = opp.orders@;
        let no_counterpart = opp.len() == 0;
        let mut rest_here = no_counterpart;
        let mut head = incoming;
        if !no_counterpart {
            head = opp.head();
            let cross = match incoming.order_type {
                OrderType::Buy => incoming.price >= head.price,
                OrderType::Sell => incoming.price <= head.price,
            };
            rest_here = !cross;
        }
        if rest_here {
            // no counterpart, or the best counterpart does not cross: rest
            own.insert(incoming);
            if incoming.quantity < order.quantity {
                events.push(Event::Accepted { ts, order: incoming });
            }
            proof {
                let mc = match_rec(incoming, opp_pre, ts);
                assert(mc.opp == opp_pre && mc.rest == Some(incoming) && mc.fills
                    == Seq::<EventV>::empty());
                assert(m.fills =~= fills_done);
                lemma_insert_sorted(own0.kind, own0.orders@, incoming);
                let fw = own.orders@;
                let fo = opp_pre;
                assert forall|i: int, j: int|
                    0 <= i < fo.len() && 0 <= j < fw.len() implies fo[i].id != fw[j].id by {
                    if fo[i].id == fw[j].id {
                        let x = fo[i].id;
                        assert(has_order_id(fo, x));
                        assert(has_order_id(opp0.orders@, x));
                        assert(has_order_id(fw, x));
                        assert(x == incoming.id || has_order_id(own0.orders@, x));
                        if x != incoming.id {
                            let a = choose|a: int|
                                0 <= a < opp0.orders@.len() && opp0.orders@[a].id == x;
                            let b = choose|b: int|
                                0 <= b < own0.orders@.len() && own0.orders@[b].id == x;
                            assert(opp0.orders@[a].id != own0.orders@[b].id);
                        }
                    }
                }
                assert(sides_no_cross(order.order_type, fw, fo)) by {
                    if fw.len() > 0 && fo.len() > 0 {
                        if fw[0] == incoming {
                        } else {
                            assert(fw[0] == own0.orders@[0]);
                        }
                    }
                }
                assert(events_view(events@) =~= events_view(old(events)@) + new_order_events(
                    order,
                    m,
                    ts,
                ));
            }
            return;
        }
        if incoming.quantity < head.quantity {
            // the head absorbs the whole aggressor and stays, reduced
            let reduced = Order {
                order_type: head.order_type,
                id: head.id,
                ts: head.ts,
                price: head.price,
                quantity: head.quantity - incoming.quantity,
            };
            proof {
                lemma_replace_head(opp0.kind, opp_pre, reduced);
            }
            opp.replace_head(reduced);
            events.push(Event::Filled { ts, order: incoming, counterpart: head });
            proof {
                let mc = match_rec(incoming, opp_pre, ts);
                let f = EventV::Filled { ts, order: incoming, counterpart: head };
                assert(mc.opp == opp_pre.update(0, reduced) && mc.rest == Option::<Order>::None
                    && mc.fills == seq![f]);
                assert(m.fills =~= fills_done.push(f));
                assert(events_view(events@) =~= events_view(old(events)@) + new_order_events(
                    order,
                    m,
                    ts,
                ));
                let fo = opp.orders@;
                let fw = own0.orders@;
                assert forall|i: int, j: int|
                    0 <= i < fo.len() && 0 <= j < fw.len() implies fo[i].id != fw[j].id by {
                    if fo[i].id == fw[j].id {
                        let x = fo[i].id;
                        assert(has_order_id(opp_pre, x));
                        assert(has_order_id(opp0.orders@, x));
                        let a = choose|a: int|
                            0 <= a < opp0.orders@.len() && opp0.orders@[a].id == x;
                        assert(opp0.orders@[a].id != own0.orders@[j].id);
                    }
                }
                assert(sides_no_cross(order.order_type, fw, fo)) by {
                    if fw.len() > 0 {
                        assert(fo[0].price == opp_pre[0].price);
                    }
                }
            }
            return;
        } else if incoming.quantity == head.quantity {
            // exact fill: the head leaves with the aggressor
            proof {
                lemma_drop_first_side(opp0.kind, opp_pre);
            }
            opp.remove_head();
            events.push(Event::Filled { ts, order: incoming, counterpart: head });
            proof {
                let mc = match_rec(incoming, opp_pre, ts);
                let f = EventV::Filled { ts, order: incoming, counterpart: head };
                assert(mc.opp == opp_pre.drop_first() && mc.rest == Option::<Order>::None
                    && mc.fills == seq![f]);
                assert(m.fills =~= fills_done.push(f));
                assert(events_view(events@) =~= events_view(old(events)@) + new_order_events(
                    order,
                    m,
                    ts,
                ));
                let fo = opp.orders@;
                let fw = own0.orders@;
                assert forall|i: int, j: int|
                    0 <= i < fo.len() && 0 <= j < fw.len() implies fo[i].id != fw[j].id by {
                    if fo[i].id == fw[j].id {
                        let x = fo[i].id;
                        assert(has_order_id(opp_pre, x));
                        assert(has_order_id(opp0.orders@, x));
                        let a = choose|a: int|
                            0 <= a < opp0.orders@.len() && opp0.orders@[a].id == x;
                        assert(opp0.orders@[a].id != own0.orders@[j].id);
                    }
                }
                assert(sides_no_cross(order.order_type, fw, fo)) by {
                    if fw.len() > 0 && fo.len() > 0 {
                        assert(fo[0] == opp_pre[1]);
                        assert(side_before(opp0.kind, opp_pre[0], opp_pre[1]));
                        assert(opp0.orders@.len() > 0 && price_no_worse(
                            order.order_type,
                            opp0.orders@[0],
                            opp_pre[0],
                        ));
                    }
                }
            }
            return;
        } else {
            // the head is consumed whole; the remainder keeps matching
            proof {
                lemma_drop_first_side(opp0.kind, opp_pre);
            }
            opp.remove_head();
            let consumed = Order {
                order_type: incoming.order_type,
                id: incoming.id,
                ts: incoming.ts,
                price: incoming.price,
                quantity: head.quantity,
            };
            events.push(Event::Filled { ts, order: consumed, counterpart: head });
            let next = Order {
                order_type: incoming.order_type,
                id: incoming.id,
                ts: incoming.ts,
                price: incoming.price,
                quantity: incoming.quantity - head.quantity,
            };
            proof {
                let f = EventV::Filled { ts, order: consumed, counterpart: head };
                let mc = match_rec(incoming, opp_pre, ts);
                let sub = match_rec(next, opp_pre.drop_first(), ts);
                assert(mc.opp == sub.opp && mc.rest == sub.rest && mc.fills == seq![f]
                    + sub.fills);
                fills_done = fills_done.push(f);
                assert(m.fills =~= fills_done + sub.fills);
                assert(events_view(events@) =~= events_view(e1) + fills_done);
            }
            proof {
                if opp.orders@.len() > 0 {
                    assert(opp.orders@[0] == opp_pre[1]);
                    assert(side_before(opp0.kind, opp_pre[0], opp_pre[1]));
                }
            }
            incoming = next;
        }
    }
}

impl OrderBook {
    /// The engine's invariant: each concrete side carries its tag and the
    /// abstract book is well-formed.
    pub closed spec fn inv(&self) -> bool {
        &&& self.buy.kind == OrderType::Buy
        &&& self.sell.kind == OrderType::Sell
        &&& wf_book(self@)
    }

    /// A well-formed engine holds a well-formed abstract book.
    pub proof fn inv_implies_wf(&self)
        requires
            self.inv(),
        ensures
            wf_book(self@),
    {
    }

    pub fn new(ticker: &str) -> (book: OrderBook)
        ensures
            book.inv(),
            book@.buys == Seq::<Order>::empty(),
            book@.sells == Seq::<Order>::empty(),
            book@.ticker == ticker@,
    {
        let book = OrderBook {
            ticker: ticker.to_owned(),
            ts: crate::trusted::now_millis(),
            sell: Side::new(OrderType::Sell),
            buy: Side::new(OrderType::Buy),
        };
        book
    }

    /// Whether an order with this id rests on either side.
    pub fn contains_order(&self, id: u128) -> (r: bool)
        requires
            self.inv(),
        ensures
            r == self@.has_id(id),
    {
        proof {
            assert(self.buy.inv() && self.sell.inv());
        }
        self.buy.contains(id) || self.sell.contains(id)
    }

    /// An id that no resting order carries. Fresh random ids are drawn first;
    /// if they all collide, the smallest unused small id is taken: among any
    /// n + 1 candidate ids at most n can rest in a book of n orders.
    fn mint_fresh_id(&self) -> (id: u128)
        requires
            self.inv(),
        ensures
            !self@.has_id(id),
    {
        let id = crate::trusted::fresh_id();
        if !self.contains_order(id) {
            return id;
        }
        let total: u128 = (self.buy.len() as u128) + (self.sell.len() as u128);
        let mut c: u128 = 0;
        #[verifier::loop_isolation(false)]
        while c <= total
            invariant
                c <= total + 1,
                forall|x: u128| x < c ==> self@.has_id(x),
            decreases total + 1 - c,
        {
            if !self.contains_order(c) {
                return c;
            }
            c = c + 1;
        }
        proof {
            // among the ids 0 ..= total at least one is free: at most
            // buys.len() + sells.len() distinct ids rest in the book
            let buys = self@.buys;
            let sells = self@.sells;
            let buy_ids = buys.map_values(|o: Order| o.id as int);
            let sell_ids = sells.map_values(|o: Order| o.id as int);
            buy_ids.lemma_cardinality_of_set();
            sell_ids.lemma_cardinality_of_set();
            let ids = buy_ids.to_set().union(sell_ids.to_set());
            lemma_len_union(buy_ids.to_set(), sell_ids.to_set());
            let candidates = set_int_range(0, total as int + 1);
            lemma_int_range(0, total as int + 1);
            assert forall|x: int| candidates.contains(x) implies ids.contains(x) by {
                let xu = x as u128;
                assert(xu <= total);
                assert(self@.has_id(xu));
                if has_order_id(buys, xu) {
                    let i = choose|i: int| 0 <= i < buys.len() && buys[i].id == xu;
                    assert(buy_ids[i] == x);
                    assert(buy_ids.to_set().contains(x));
                } else {
                    assert(has_order_id(sells, xu));
                    let i = choose|i: int| 0 <= i < sells.len() && sells[i].id == xu;
                    assert(sell_ids[i] == x);
                    assert(sell_ids.to_set().contains(x));
                }
            }
            lemma_len_subset(candidates, ids);
        }
        vstd::pervasive::unreached()
    }

    /// Accept a buy order: match it against the sell side, rest any remainder.
    fn process_buy_order(&mut self, ts: i64, events: &mut Vec<Event>, order: Order)
        requires
            old(self).inv(),
            order.order_type == OrderType::Buy,
            order_valid(order),
            !old(self)@.has_id(order.id),
        ensures
            final(self).inv(),
            final(self)@.ticker == old(self)@.ticker,
            final(self)@.ts == old(self)@.ts,
            ({
                let r = step_new_order(old(self)@.buys, old(self)@.sells, order, ts);
                &&& final(self)@.buys == r.buys
                &&& final(self)@.sells == r.sells
                &&& events_view(final(events)@) == events_view(old(events)@) + r.events
            }),
    {
        proof {
            assert(self.sell.inv() && self.buy.inv());
            lemma_disjoint_sym(self@.buys, self@.sells);
        }
        match_and_rest(ts, events, order, &mut self.sell, &mut self.buy);
        proof {
            lemma_disjoint_sym(self@.sells, self@.buys);
            assert(no_cross(self@.buys, self@.sells));
            assert(wf_book(self@));
        }
    }

    /// Accept a sell order: match it against the buy side, rest any remainder.
    fn process_sell_order(&mut self, ts: i64, events: &mut Vec<Event>, order: Order)
        requires
            old(self).inv(),
            order.order_type == OrderType::Sell,
            order_valid(order),
            !old(self)@.has_id(order.id),
        ensures
            final(self).inv(),
            final(self)@.ticker == old(self)@.ticker,
            final(self)@.ts == old(self)@.ts,
            ({
                let r = step_new_order(old(self)@.buys, old(self)@.sells, order, ts);
                &&& final(self)@.buys == r.buys
                &&& final(self)@.sells == r.sells
                &&& events_view(final(events)@) == events_view(old(events)@) + r.events
            }),
    {
        proof {
            assert(self.sell.inv() && self.buy.inv());
        }
        match_and_rest(ts, events, order, &mut self.buy, &mut self.sell);
        proof {
            assert(no_cross(self@.buys, self@.sells));
            assert(wf_book(self@));
        }
    }

    /// Cancel the order with this id on whichever side holds it; an unknown
    /// id is rejected.
    fn process_cancel_order(&mut self, ts: i64, id: u128) -> (events: Vec<Event>)
        requires
            old(self).inv(),
        ensures
            final(self).inv(),
            final(self)@.ticker == old(self)@.ticker,
            final(self)@.ts == old(self)@.ts,
            ({
                let r = step_cancel(old(self)@.buys, old(self)@.sells, ts, id);
                &&& final(self)@.buys == r.buys
                &&& final(self)@.sells == r.sells
                &&& events_view(events@) == r.events
            }),
    {
        let mut events: Vec<Event> = Vec::new();
        proof {
            assert(self.sell.inv() && self.buy.inv());
        }
        let ghost b0 = self@;
        if self.sell.contains(id) {
            proof {
                lemma_remove_id(OrderType::Sell, b0.sells, id);
            }
            let removed = self.sell.remove_id(id);
            events.push(Event::Canceled { ts, order: removed });
            proof {
                let f = find_order_id(b0.sells, id);
                assert forall|i: int, j: int|
                    0 <= i < self@.buys.len() && 0 <= j < self@.sells.len() implies
                    self@.buys[i].id != self@.sells[j].id by {
                    assert(has_order_id(b0.sells, self@.sells[j].id));
                    let k = choose|k: int|
                        0 <= k < b0.sells.len() && b0.sells[k].id == self@.sells[j].id;
                    assert(b0.buys[i].id != b0.sells[k].id);
                }
                assert(no_cross(self@.buys, self@.sells)) by {
                    if self@.sells.len() > 0 && self@.buys.len() > 0 {
                        if f == 0 {
                            assert(self@.sells[0] == b0.sells[1]);
                            assert(side_before(OrderType::Sell, b0.sells[0], b0.sells[1]));
                        } else {
                            assert(self@.sells[0] == b0.sells[0]);
                        }
                    }
                }
                assert(wf_book(self@));
                assert(events_view(events@) =~= step_cancel(b0.buys, b0.sells, ts, id).events);
            }
            events
        } else if self.buy.contains(id) {
            proof {
                lemma_remove_id(OrderType::Buy, b0.buys, id);
            }
            let removed = self.buy.remove_id(id);
            events.push(Event::Canceled { ts, order: removed });
            proof {
                let f = find_order_id(b0.buys, id);
                assert forall|i: int, j: int|
                    0 <= i < self@.buys.len() && 0 <= j < self@.sells.len() implies
                    self@.buys[i].id != self@.sells[j].id by {
                    assert(has_order_id(b0.buys, self@.buys[i].id));
                    let k = choose|k: int|
                        0 <= k < b0.buys.len() && b0.buys[k].id == self@.buys[i].id;
                    assert(b0.buys[k].id != b0.sells[j].id);
                }
                assert(no_cross(self@.buys, self@.sells)) by {
                    if self@.sells.len() > 0 && self@.buys.len() > 0 {
                        if f == 0 {
                            assert(self@.buys[0] == b0.buys[1]);
                            assert(side_before(OrderType::Buy, b0.buys[0], b0.buys[1]));
                        } else {
                            assert(self@.buys[0] == b0.buys[0]);
                        }
                    }
                }
                assert(wf_book(self@));
                assert(events_view(events@) =~= step_cancel(b0.buys, b0.sells, ts, id).events);
            }
            events
        } else {
            events.push(Event::Rejected { ts, reason: crate::trusted::render_not_found(id) });
            proof {
                assert(events_view(events@) =~= step_cancel(b0.buys, b0.sells, ts, id).events);
            }
            events
        }
    }

    /// Update: cancel the order with this id, then insert a fresh order with
    /// the new id, quantity and price on the same side, matching in full; an
    /// unknown id is rejected.
    fn process_update_order(
        &mut self,
        ts: i64,
        id: u128,
        new_id: u128,
        new_quantity: u32,
        new_price: u64,
    ) -> (events: Vec<Event>)
        requires
            old(self).inv(),
            new_quantity >= 1,
            new_price >= 1,
            !old(self)@.has_id(new_id),
        ensures
            final(self).inv(),
            final(self)@.ticker == old(self)@.ticker,
            final(self)@.ts == old(self)@.ts,
            ({
                let r = step_update(
                    old(self)@.buys,
                    old(self)@.sells,
                    ts,
                    id,
                    new_id,
                    new_quantity,
                    new_price,
                );
                &&& final(self)@.buys == r.buys
                &&& final(self)@.sells == r.sells
                &&& events_view(events@) == r.events
            }),
    {
        proof {
            assert(self.sell.inv() && self.buy.inv());
        }
        let ghost b0 = self@;
        let on_sell_side = self.sell.contains(id);
        let on_buy_side = self.buy.contains(id);
        if on_sell_side || on_buy_side {
            let mut events = self.process_cancel_order(ts, id);
            let ghost c = step_cancel(b0.buys, b0.sells, ts, id);
            let order = if on_sell_side {
                Order {
                    order_type: OrderType::Sell,
                    id: new_id,
                    ts,
                    quantity: new_quantity,
                    price: new_price,
                }
            } else {
                Order {
                    order_type: OrderType::Buy,
                    id: new_id,
                    ts,
                    quantity: new_quantity,
                    price: new_price,
                }
            };
            proof {
                if on_sell_side {
                    lemma_remove_id(OrderType::Sell, b0.sells, id);
                } else {
                    lemma_remove_id(OrderType::Buy, b0.buys, id);
                }
                assert(!has_order_id(self@.buys, new_id) && !has_order_id(self@.sells, new_id));
            }
            let ghost e_cancel = events@;
            if on_sell_side {
                self.process_sell_order(ts, &mut events, order);
            } else {
                self.process_buy_order(ts, &mut events, order);
            }
            proof {
                let n = step_new_order(c.buys, c.sells, order, ts);
                let r = step_update(b0.buys, b0.sells, ts, id, new_id, new_quantity, new_price);
                assert(r.events =~= c.events + n.events);
                assert(events_view(events@) =~= events_view(e_cancel) + n.events);
                assert(events_view(events@) =~= r.events);
            }
            events
        } else {
            let mut events: Vec<Event> = Vec::new();
            events.push(Event::Rejected { ts, reason: crate::trusted::render_not_found(id) });
            proof {
                assert(events_view(events@) =~= step_update(
                    b0.buys,
                    b0.sells,
                    ts,
                    id,
                    new_id,
                    new_quantity,
                    new_price,
                ).events);
            }
            events
        }
    }

    /// Apply one command at a given timestamp with a given fresh id: the
    /// deterministic core of `process`. The result is exactly `step`.
    pub fn process_at(&mut self, ts: i64, id: u128, command: Command) -> (events: Vec<Event>)
        requires
            old(self).inv(),
            command_valid(command),
            command_needs_id(command) ==> !old(self)@.has_id(id),
        ensures
            final(self).inv(),
            final(self)@.ticker == old(self)@.ticker,
            final(self)@.ts == (if command is GetState {
                old(self)@.ts
            } else {
                ts
            }),
            ({
                let r = step(old(self)@, ts, id, command);
                &&& final(self)@.buys == r.buys
                &&& final(self)@.sells == r.sells
                &&& events_view(events@) == r.events
            }),
    {
        let ghost b0 = self@;
        match command {
            Command::Buy { quantity, price } => {
                let order = Order { order_type: OrderType::Buy, id, ts, quantity, price };
                let mut events: Vec<Event> = Vec::new();
                self.process_buy_order(ts, &mut events, order);
                self.ts = ts;
                proof {
                    assert(events_view(events@) =~= step(b0, ts, id, command).events);
                }
                events
            }
            Command::Sell { quantity, price } => {
                let order = Order { order_type: OrderType::Sell, id, ts, quantity, price };
                let mut events: Vec<Event> = Vec::new();
                self.process_sell_order(ts, &mut events, order);
                self.ts = ts;
                proof {
                    assert(events_view(events@) =~= step(b0, ts, id, command).events);
                }
                events
            }
            Command::Cancel { id: cancel_id } => {
                let events = self.process_cancel_order(ts, cancel_id);
                self.ts = ts;
                events
            }
            Command::Update { id: update_id, new_quantity, new_price } => {
                let events = self.process_update_order(ts, update_id, id, new_quantity, new_price);
                self.ts = ts;
                events
            }
            Command::GetState => {
                let state = OrderBookState {
                    buy: self.buy.snapshot(),
                    sell: self.sell.snapshot(),
                };
                let mut events: Vec<Event> = Vec::new();
                events.push(Event::State { state });
                proof {
                    assert(events_view(events@) =~= step(b0, ts, id, command).events);
                }
                events
            }
        }
    }

    /// Apply one command: sample the clock once, mint a fresh id if the
    /// command needs one, and run the deterministic core. The result is
    /// `step` for the sampled timestamp and minted id.
    pub fn process(&mut self, command: Command) -> (events: Vec<Event>)
        requires
            old(self).inv(),
            command_valid(command),
        ensures
            final(self).inv(),
            final(self)@.ticker == old(self)@.ticker,
            exists|ts: i64, id: u128|
                {
                    let r = #[trigger] step(old(self)@, ts, id, command);
                    &&& (command_needs_id(command) ==> !old(self)@.has_id(id))
                    &&& final(self)@.buys == r.buys
                    &&& final(self)@.sells == r.sells
                    &&& final(self)@.ts == (if command is GetState {
                        old(self)@.ts
                    } else {
                        ts
                    })
                    &&& events_view(events@) == r.events
                },
    {
        let ts = crate::trusted::now_millis();
        let needs_id = matches!(
            command,
            Command::Buy { .. } | Command::Sell { .. } | Command::Update { .. }
        );
        let id: u128 = if needs_id {
            self.mint_fresh_id()
        } else {
            0
        };
        let events = self.process_at(ts, id, command);
        events
    }
}

} // verus!
