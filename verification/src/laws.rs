//! The laws of the book, each proved of the abstract model: what holds after
//! every command follows from these together with the engine's contracts,
//! which state that `process` preserves well-formedness and means `step`.

use vstd::prelude::*;
use crate::order::{side_before, Order, OrderType};
use crate::events::{command_valid, Command, EventV};
use crate::model::{
    ends_in_partial_fill, find_order_id, has_order_id, insert_sorted, lemma_insert_sorted,
    lemma_remove_id, match_rec, not_found_reason, side_positive, sorted_side, step, step_cancel,
    wf_book, BookV,
};

verus! {

/// No id appears on both sides of a well-formed book; since every command
/// leaves the book well-formed, none appears on both sides after any command.
pub proof fn law_no_id_on_both_sides(b: BookV, id: u128)
    requires
        wf_book(b),
    ensures
        !(has_order_id(b.buys, id) && has_order_id(b.sells, id)),
{
    if has_order_id(b.buys, id) && has_order_id(b.sells, id) {
        let i = choose|i: int| 0 <= i < b.buys.len() && b.buys[i].id == id;
        let j = choose|j: int| 0 <= j < b.sells.len() && b.sells[j].id == id;
        assert(b.buys[i].id != b.sells[j].id);
    }
}

/// Each side index is exactly as large as its side collection, and every
/// indexed id resolves to the order resting in the collection, field for field.
pub proof fn law_index_corresponds(b: BookV)
    requires
        wf_book(b),
    ensures
        b.buy_index.dom().len() == b.buys.len(),
        b.sell_index.dom().len() == b.sells.len(),
        forall|id: u128| #[trigger]
            b.buy_index.contains_key(id) ==> has_order_id(b.buys, id) && b.buy_index[id]
                == b.buys[find_order_id(b.buys, id)],
        forall|id: u128| #[trigger]
            b.sell_index.contains_key(id) ==> has_order_id(b.sells, id) && b.sell_index[id]
                == b.sells[find_order_id(b.sells, id)],
{
    lemma_index_side(b.buy_index, b.buys);
    lemma_index_side(b.sell_index, b.sells);
}

/// The index of one side mirrors it exactly.
proof fn lemma_index_side(index: Map<u128, Order>, s: Seq<Order>)
    requires
        crate::model::index_matches(index, s),
        crate::model::distinct_ids(s),
    ensures
        index.dom().len() == s.len(),
        forall|id: u128| #[trigger]
            index.contains_key(id) ==> has_order_id(s, id) && index[id] == s[find_order_id(
                s,
                id,
            )],
{
    broadcast use vstd::seq_lib::seq_to_set_is_finite;

    let ids = s.map_values(|o: Order| o.id);
    assert(ids.no_duplicates()) by {
        assert forall|i: int, j: int|
            0 <= i < ids.len() && 0 <= j < ids.len() && i != j implies ids[i] != ids[j] by {
            assert(s[i].id != s[j].id);
        }
    }
    ids.unique_seq_to_set();
    assert(index.dom() =~= ids.to_set()) by {
        assert forall|id: u128| #[trigger] index.dom().contains(id) implies ids.to_set().contains(
            id,
        ) by {
            let i = choose|i: int| 0 <= i < s.len() && s[i].id == id;
            assert(ids[i] == id);
        }
        assert forall|id: u128| #[trigger] ids.to_set().contains(id) implies index.dom().contains(
            id,
        ) by {
            let i = choose|i: int| 0 <= i < ids.len() && ids[i] == id;
            assert(s[i].id == id);
        }
    }
    assert forall|id: u128| #[trigger] index.contains_key(id) implies has_order_id(s, id)
        && index[id] == s[find_order_id(s, id)] by {
        let f = find_order_id(s, id);
        assert(0 <= f < s.len() && s[f].id == id);
        assert(index[s[f].id] == s[f]);
    }
}

/// After every command the best buy price is strictly below the best sell
/// price, or one side is empty: the book never holds a crossing pair.
pub proof fn law_no_crossing(b: BookV)
    requires
        wf_book(b),
    ensures
        b.buys.len() == 0 || b.sells.len() == 0 || b.buys[0].price < b.sells[0].price,
{
}

/// Price-time priority: of two resting orders on one side with equal price,
/// the one standing earlier in priority order carries the earlier timestamp.
pub proof fn law_time_priority(side: OrderType, s: Seq<Order>, i: int, j: int)
    requires
        sorted_side(side, s),
        0 <= i < j < s.len(),
        s[i].price == s[j].price,
    ensures
        s[i].ts <= s[j].ts,
{
    assert(side_before(side, s[i], s[j]));
}

/// Total quantity consumed from the aggressor over an event batch, as the
/// `order` field of each `Filled` event records it.
pub open spec fn fills_order_quantity(events: Seq<EventV>) -> int
    decreases events.len(),
{
    if events.len() == 0 {
        0
    } else {
        (match events[0] {
            EventV::Filled { order, .. } => order.quantity as int,
            _ => 0,
        }) + fills_order_quantity(events.drop_first())
    }
}

/// Total counterpart quantity over an event batch, as the `counterpart`
/// field of each `Filled` event records it (the resting order as it stood).
pub open spec fn fills_counterpart_quantity(events: Seq<EventV>) -> int
    decreases events.len(),
{
    if events.len() == 0 {
        0
    } else {
        (match events[0] {
            EventV::Filled { counterpart, .. } => counterpart.quantity as int,
            _ => 0,
        }) + fills_counterpart_quantity(events.drop_first())
    }
}

/// The quantity resting in a side under a given id, zero if the id is absent.
pub open spec fn resting_quantity(s: Seq<Order>, id: u128) -> int {
    if has_order_id(s, id) {
        s[find_order_id(s, id)].quantity as int
    } else {
        0
    }
}

proof fn lemma_fills_quantity_add(a: Seq<EventV>, b: Seq<EventV>)
    ensures
        fills_order_quantity(a + b) == fills_order_quantity(a) + fills_order_quantity(b),
        fills_counterpart_quantity(a + b) == fills_counterpart_quantity(a)
            + fills_counterpart_quantity(b),
    decreases a.len(),
{
    if a.len() == 0 {
        assert(a + b =~= b);
    } else {
        assert((a + b).drop_first() =~= a.drop_first() + b);
        assert((a + b)[0] == a[0]);
        lemma_fills_quantity_add(a.drop_first(), b);
    }
}

proof fn lemma_fills_quantity_empty()
    ensures
        fills_order_quantity(Seq::<EventV>::empty()) == 0,
        fills_counterpart_quantity(Seq::<EventV>::empty()) == 0,
{
}

proof fn lemma_fills_quantity_singleton(f: EventV)
    ensures
        fills_order_quantity(seq![f]) == (match f {
            EventV::Filled { order, .. } => order.quantity as int,
            _ => 0,
        }),
        fills_counterpart_quantity(seq![f]) == (match f {
            EventV::Filled { counterpart, .. } => counterpart.quantity as int,
            _ => 0,
        }),
{
    assert(seq![f].drop_first() =~= Seq::<EventV>::empty());
    lemma_fills_quantity_empty();
}

/// Conservation over the matching procedure: what the fills record as
/// consumed from the aggressor plus the remainder equals its quantity; and
/// when no fill ends by consuming a head only in part, the counterpart
/// quantities conserve too. The remaining opposite side holds no new id.
proof fn lemma_match_conservation(incoming: Order, opp: Seq<Order>, ts: i64)
    requires
        side_positive(opp),
        incoming.quantity >= 1,
    ensures
        ({
            let m = match_rec(incoming, opp, ts);
            &&& fills_order_quantity(m.fills) + (match m.rest {
                Some(r) => r.quantity as int,
                None => 0,
            }) == incoming.quantity as int
            &&& (!ends_in_partial_fill(incoming, opp) ==> fills_counterpart_quantity(m.fills)
                == fills_order_quantity(m.fills))
            &&& (match m.rest {
                Some(r) => r.id == incoming.id && r.quantity >= 1,
                None => true,
            })
            &&& (forall|x: u128| has_order_id(m.opp, x) ==> has_order_id(opp, x))
        }),
    decreases opp.len(),
{
    let m = match_rec(incoming, opp, ts);
    if opp.len() == 0 || !crate::order::crosses(incoming, opp[0]) {
        assert(m.fills.len() == 0);
    } else {
        let head = opp[0];
        if incoming.quantity < head.quantity {
            let f = EventV::Filled { ts, order: incoming, counterpart: head };
            assert(m.fills == seq![f]);
            lemma_fills_quantity_singleton(f);
            assert forall|x: u128| has_order_id(m.opp, x) implies has_order_id(opp, x) by {
                let i = choose|i: int| 0 <= i < m.opp.len() && m.opp[i].id == x;
                assert(opp[i].id == x);
            }
        } else if incoming.quantity == head.quantity {
            let f = EventV::Filled { ts, order: incoming, counterpart: head };
            assert(m.fills == seq![f]);
            lemma_fills_quantity_singleton(f);
            assert forall|x: u128| has_order_id(m.opp, x) implies has_order_id(opp, x) by {
                let i = choose|i: int| 0 <= i < m.opp.len() && m.opp[i].id == x;
                assert(opp[i + 1].id == x);
            }
        } else {
            let consumed = crate::order::with_quantity(incoming, head.quantity);
            let remainder = crate::order::with_quantity(
                incoming,
                (incoming.quantity - head.quantity) as u32,
            );
            let f = EventV::Filled { ts, order: consumed, counterpart: head };
            let rest_opp = opp.drop_first();
            assert forall|k: int| 0 <= k < rest_opp.len() implies crate::order::order_valid(
                #[trigger] rest_opp[k],
            ) by {
                assert(crate::order::order_valid(opp[k + 1]));
            }
            lemma_match_conservation(remainder, rest_opp, ts);
            let sub = match_rec(remainder, rest_opp, ts);
            lemma_fills_quantity_add(seq![f], sub.fills);
            assert(m.fills == seq![f] + sub.fills);
            lemma_fills_quantity_singleton(f);
            assert forall|x: u128| has_order_id(m.opp, x) implies has_order_id(opp, x) by {
                assert(has_order_id(rest_opp, x));
                let i = choose|i: int| 0 <= i < rest_opp.len() && rest_opp[i].id == x;
                assert(opp[i + 1].id == x);
            }
        }
    }
}

/// The quantity of a Buy or Sell command, and the side its aggressor matches
/// against.
pub open spec fn command_quantity(cmd: Command) -> int {
    match cmd {
        Command::Buy { quantity, .. } => quantity as int,
        Command::Sell { quantity, .. } => quantity as int,
        _ => 0,
    }
}

/// The fresh order a Buy or Sell command mints.
pub open spec fn command_order(cmd: Command, id: u128, ts: i64) -> Order {
    match cmd {
        Command::Buy { quantity, price } => Order {
            order_type: OrderType::Buy,
            id,
            ts,
            quantity,
            price,
        },
        Command::Sell { quantity, price } => Order {
            order_type: OrderType::Sell,
            id,
            ts,
            quantity,
            price,
        },
        _ => Order { order_type: OrderType::Buy, id, ts, quantity: 0, price: 0 },
    }
}

/// The opposite side a Buy or Sell command matches against.
pub open spec fn command_opposite_side(b: BookV, cmd: Command) -> Seq<Order> {
    if cmd is Buy {
        b.sells
    } else {
        b.buys
    }
}

/// Quantity conservation per Buy or Sell command: the consumed portions that
/// the `order` field of each emitted `Filled` event records, plus the
/// quantity resting in the book under the fresh id, equal the command's
/// quantity.
pub proof fn law_quantity_conservation(b: BookV, ts: i64, id: u128, cmd: Command)
    requires
        wf_book(b),
        command_valid(cmd),
        cmd is Buy || cmd is Sell,
        !b.has_id(id),
    ensures
        ({
            let r = step(b, ts, id, cmd);
            fills_order_quantity(r.events) + resting_quantity(r.buys, id) + resting_quantity(
                r.sells,
                id,
            ) == command_quantity(cmd)
        }),
{
    lemma_new_order_conservation(b, ts, id, cmd);
}

/// Conservation in the counterpart quantities. It holds whenever the
/// matching does not end by consuming a resting
/// head only in part; in that one case the final `Filled` event's counterpart
/// records the head's full pre-trade quantity, which exceeds what the
/// aggressor consumed, and the sum overshoots.
pub proof fn law_counterpart_conservation(b: BookV, ts: i64, id: u128, cmd: Command)
    requires
        wf_book(b),
        command_valid(cmd),
        cmd is Buy || cmd is Sell,
        !b.has_id(id),
        !ends_in_partial_fill(command_order(cmd, id, ts), command_opposite_side(b, cmd)),
    ensures
        ({
            let r = step(b, ts, id, cmd);
            fills_counterpart_quantity(r.events) + resting_quantity(r.buys, id)
                + resting_quantity(r.sells, id) == command_quantity(cmd)
        }),
{
    lemma_new_order_conservation(b, ts, id, cmd);
}

/// The shared body of the two conservation laws.
proof fn lemma_new_order_conservation(b: BookV, ts: i64, id: u128, cmd: Command)
    requires
        wf_book(b),
        command_valid(cmd),
        cmd is Buy || cmd is Sell,
        !b.has_id(id),
    ensures
        ({
            let r = step(b, ts, id, cmd);
            &&& fills_order_quantity(r.events) + resting_quantity(r.buys, id) + resting_quantity(
                r.sells,
                id,
            ) == command_quantity(cmd)
            &&& (!ends_in_partial_fill(command_order(cmd, id, ts), command_opposite_side(b, cmd))
                ==> fills_counterpart_quantity(r.events) + resting_quantity(r.buys, id)
                + resting_quantity(r.sells, id) == command_quantity(cmd))
        }),
{
    let o = command_order(cmd, id, ts);
    let opp = command_opposite_side(b, cmd);
    let own = if cmd is Buy {
        b.buys
    } else {
        b.sells
    };
    let own_side = o.order_type;
    let m = match_rec(o, opp, ts);
    let r = step(b, ts, id, cmd);
    lemma_match_conservation(o, opp, ts);
    let acc = seq![EventV::Accepted { ts, order: o }];
    let extra = match m.rest {
        Some(rr) => if m.fills.len() > 0 {
            seq![EventV::Accepted { ts, order: rr }]
        } else {
            Seq::<EventV>::empty()
        },
        None => Seq::<EventV>::empty(),
    };
    assert(r.events == acc + m.fills + extra);
    lemma_fills_quantity_add(acc, m.fills);
    lemma_fills_quantity_add(acc + m.fills, extra);
    lemma_fills_quantity_empty();
    assert(fills_order_quantity(acc) == 0 && fills_counterpart_quantity(acc) == 0) by {
        lemma_fills_quantity_singleton(acc[0]);
        assert(acc =~= seq![acc[0]]);
    }
    assert(fills_order_quantity(extra) == 0 && fills_counterpart_quantity(extra) == 0) by {
        if extra.len() > 0 {
            lemma_fills_quantity_singleton(extra[0]);
            assert(extra =~= seq![extra[0]]);
        }
    }
    assert(fills_order_quantity(r.events) == fills_order_quantity(m.fills));
    // the fresh id rests exactly where the remainder was inserted
    assert(!has_order_id(m.opp, id));
    let own2 = match m.rest {
        Some(rr) => insert_sorted(own_side, own, rr),
        None => own,
    };
    match m.rest {
        Some(rr) => {
            lemma_insert_sorted(own_side, own, rr);
            crate::model::lemma_insert_pos(own_side, own, rr);
            let p = crate::model::insert_pos(own_side, own, rr);
            assert(has_order_id(own2, id)) by {
                assert(own2[p].id == id);
            }
            let f = find_order_id(own2, id);
            assert(own2[f].id == id);
            if f != p {
                assert(own2[f].id != own2[p].id);
            }
            assert(resting_quantity(own2, id) == rr.quantity as int);
        },
        None => {
            assert(resting_quantity(own2, id) == 0);
        },
    }
    assert(resting_quantity(m.opp, id) == 0);
    if cmd is Buy {
        assert(r.buys == own2 && r.sells == m.opp);
    } else {
        assert(r.sells == own2 && r.buys == m.opp);
    }
}

/// Cancel is idempotent in effect: cancelling a resting id yields exactly one
/// `Canceled` event for that order, and cancelling it again yields exactly
/// one `Rejected` event and changes nothing.
pub proof fn law_cancel_idempotent(b: BookV, ts1: i64, ts2: i64, id: u128)
    requires
        wf_book(b),
        b.has_id(id),
    ensures
        ({
            let r1 = step_cancel(b.buys, b.sells, ts1, id);
            let r2 = step_cancel(r1.buys, r1.sells, ts2, id);
            &&& r1.events.len() == 1
            &&& (match r1.events[0] {
                EventV::Canceled { ts, order } => ts == ts1 && order.id == id,
                _ => false,
            })
            &&& r2.buys == r1.buys
            &&& r2.sells == r1.sells
            &&& r2.events == seq![EventV::Rejected { ts: ts2, reason: not_found_reason(id) }]
        }),
{
    law_no_id_on_both_sides(b, id);
    if has_order_id(b.sells, id) {
        lemma_remove_id(OrderType::Sell, b.sells, id);
        let f = find_order_id(b.sells, id);
        assert(b.sells[f].id == id);
    } else {
        lemma_remove_id(OrderType::Buy, b.buys, id);
        let f = find_order_id(b.buys, id);
        assert(b.buys[f].id == id);
    }
}

/// The GetState round trip: the snapshot lists both sides in priority order,
/// contains exactly the ids of the respective indices, and the command
/// mutates nothing.
pub proof fn law_get_state_round_trip(b: BookV, ts: i64, id: u128)
    requires
        wf_book(b),
    ensures
        ({
            let r = step(b, ts, id, Command::GetState);
            &&& r.buys == b.buys
            &&& r.sells == b.sells
            &&& r.events == seq![EventV::State { buy: b.buys, sell: b.sells }]
        }),
        sorted_side(OrderType::Buy, b.buys),
        sorted_side(OrderType::Sell, b.sells),
        forall|x: u128| #[trigger] b.buy_index.contains_key(x) <==> has_order_id(b.buys, x),
        forall|x: u128| #[trigger] b.sell_index.contains_key(x) <==> has_order_id(b.sells, x),
{
    assert forall|x: u128| has_order_id(b.buys, x) implies b.buy_index.contains_key(x) by {
        let i = choose|i: int| 0 <= i < b.buys.len() && b.buys[i].id == x;
        assert(b.buy_index.contains_key(b.buys[i].id));
    }
    assert forall|x: u128| has_order_id(b.sells, x) implies b.sell_index.contains_key(x) by {
        let i = choose|i: int| 0 <= i < b.sells.len() && b.sells[i].id == x;
        assert(b.sell_index.contains_key(b.sells[i].id));
    }
}

} // verus!
