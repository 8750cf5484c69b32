//! The abstract state of the book, its invariants, and the meaning of each
//! command as a function from state to state and event sequence.

use vstd::prelude::*;
use crate::order::{
    crosses, side_before, with_quantity, Order, OrderType,
};
use crate::events::{Command, EventV};
use crate::order::order_valid;

verus! {

/// The abstract state of the order book: the ticker, the timestamp watermark,
/// both sides in priority order, and the two id indices.
pub struct BookV {
    pub ticker: Seq<char>,
    pub ts: i64,
    pub buys: Seq<Order>,
    pub sells: Seq<Order>,
    pub buy_index: Map<u128, Order>,
    pub sell_index: Map<u128, Order>,
}

/// Strictly sorted by the side's priority order.
pub open spec fn sorted_side(side: OrderType, s: Seq<Order>) -> bool {
    forall|i: int, j: int| 0 <= i < j < s.len() ==> side_before(side, s[i], s[j])
}

/// Every order in the sequence belongs to the side `side`.
pub open spec fn side_typed(side: OrderType, s: Seq<Order>) -> bool {
    forall|i: int| 0 <= i < s.len() ==> (#[trigger] s[i]).order_type == side
}

/// Every order in the sequence has positive quantity and price.
pub open spec fn side_positive(s: Seq<Order>) -> bool {
    forall|i: int| 0 <= i < s.len() ==> order_valid(#[trigger] s[i])
}

/// No id occurs twice in the sequence.
pub open spec fn distinct_ids(s: Seq<Order>) -> bool {
    forall|i: int, j: int| 0 <= i < j < s.len() ==> s[i].id != s[j].id
}

/// No id occurs in both sequences.
pub open spec fn disjoint_ids(a: Seq<Order>, b: Seq<Order>) -> bool {
    forall|i: int, j: int| 0 <= i < a.len() && 0 <= j < b.len() ==> a[i].id != b[j].id
}

/// Some order in the sequence carries the id.
pub open spec fn has_order_id(s: Seq<Order>, id: u128) -> bool {
    exists|i: int| 0 <= i < s.len() && s[i].id == id
}

/// The position of the order carrying the id.
pub open spec fn find_order_id(s: Seq<Order>, id: u128) -> int {
    choose|i: int| 0 <= i < s.len() && s[i].id == id
}

/// The index holds exactly the ids of the side sequence, each resolving to
/// the order as it stands there.
pub open spec fn index_matches(index: Map<u128, Order>, s: Seq<Order>) -> bool {
    &&& forall|id: u128| #[trigger] index.contains_key(id) ==> has_order_id(s, id)
    &&& forall|i: int|
        0 <= i < s.len() ==> index.contains_key((#[trigger] s[i]).id) && index[s[i].id] == s[i]
}

/// No resting pair crosses: the best buy price is strictly below the best
/// sell price, unless one side is empty.
pub open spec fn no_cross(buys: Seq<Order>, sells: Seq<Order>) -> bool {
    buys.len() > 0 && sells.len() > 0 ==> buys[0].price < sells[0].price
}

/// Well-formedness of the whole book.
pub open spec fn wf_book(b: BookV) -> bool {
    &&& sorted_side(OrderType::Buy, b.buys)
    &&& sorted_side(OrderType::Sell, b.sells)
    &&& side_typed(OrderType::Buy, b.buys)
    &&& side_typed(OrderType::Sell, b.sells)
    &&& side_positive(b.buys)
    &&& side_positive(b.sells)
    &&& distinct_ids(b.buys)
    &&& distinct_ids(b.sells)
    &&& disjoint_ids(b.buys, b.sells)
    &&& index_matches(b.buy_index, b.buys)
    &&& index_matches(b.sell_index, b.sells)
    &&& no_cross(b.buys, b.sells)
}

impl BookV {
    /// Some resting order, on either side, carries the id.
    pub open spec fn has_id(self, id: u128) -> bool {
        has_order_id(self.buys, id) || has_order_id(self.sells, id)
    }
}

/// Where a new order sorts into a side sequence: before the first element it
/// precedes, after every element that precedes it.
pub open spec fn insert_pos(side: OrderType, s: Seq<Order>, o: Order) -> int
    decreases s.len(),
{
    if s.len() == 0 {
        0
    } else if side_before(side, o, s[0]) {
        0
    } else {
        1 + insert_pos(side, s.drop_first(), o)
    }
}

/// A side sequence with a new order inserted at its priority position.
pub open spec fn insert_sorted(side: OrderType, s: Seq<Order>, o: Order) -> Seq<Order> {
    s.insert(insert_pos(side, s, o), o)
}

/// The outcome of matching an aggressor against the opposite side: the
/// opposite side as it remains, the portion of the aggressor that is left to
/// rest (if any), and the `Filled` events in order.
pub struct MatchR {
    pub opp: Seq<Order>,
    pub rest: Option<Order>,
    pub fills: Seq<EventV>,
}

/// The recursive matching procedure. The head of the opposite side is the
/// best counterpart; while the aggressor crosses it, the head is consumed,
/// wholly or in part, and a `Filled` event records the consumed portion of
/// the aggressor together with the head as it stood.
pub open spec fn match_rec(incoming: Order, opp: Seq<Order>, ts: i64) -> MatchR
    decreases opp.len(),
{
    if opp.len() == 0 || !crosses(incoming, opp[0]) {
        MatchR { opp, rest: Some(incoming), fills: Seq::<EventV>::empty() }
    } else {
        let head = opp[0];
        if incoming.quantity < head.quantity {
            MatchR {
                opp: opp.update(0, with_quantity(head, (head.quantity - incoming.quantity) as u32)),
                rest: None,
                fills: seq![EventV::Filled { ts, order: incoming, counterpart: head }],
            }
        } else if incoming.quantity == head.quantity {
            MatchR {
                opp: opp.drop_first(),
                rest: None,
                fills: seq![EventV::Filled { ts, order: incoming, counterpart: head }],
            }
        } else {
            let consumed = with_quantity(incoming, head.quantity);
            let remainder = with_quantity(incoming, (incoming.quantity - head.quantity) as u32);
            let sub = match_rec(remainder, opp.drop_first(), ts);
            MatchR {
                opp: sub.opp,
                rest: sub.rest,
                fills: seq![EventV::Filled { ts, order: consumed, counterpart: head }] + sub.fills,
            }
        }
    }
}

/// Whether the matching procedure ends by consuming only part of a resting
/// head. In that one case the final `Filled` event's counterpart records the
/// head's full pre-trade quantity, more than the aggressor consumed from it.
pub open spec fn ends_in_partial_fill(incoming: Order, opp: Seq<Order>) -> bool
    decreases opp.len(),
{
    if opp.len() == 0 || !crosses(incoming, opp[0]) {
        false
    } else if incoming.quantity < opp[0].quantity {
        true
    } else if incoming.quantity == opp[0].quantity {
        false
    } else {
        ends_in_partial_fill(
            with_quantity(incoming, (incoming.quantity - opp[0].quantity) as u32),
            opp.drop_first(),
        )
    }
}

/// The event batch of a new order: `Accepted` for the original up front, the
/// fills in order, and one more `Accepted` for a resting remainder smaller
/// than the original.
pub open spec fn new_order_events(o: Order, m: MatchR, ts: i64) -> Seq<EventV> {
    seq![EventV::Accepted { ts, order: o }] + m.fills + (match m.rest {
        Some(r) => if m.fills.len() > 0 {
            seq![EventV::Accepted { ts, order: r }]
        } else {
            Seq::<EventV>::empty()
        },
        None => Seq::<EventV>::empty(),
    })
}

/// No crossing pair between an aggressor's own side and the opposite side,
/// whichever way round the aggressor sits.
pub open spec fn sides_no_cross(own_kind: OrderType, own: Seq<Order>, opp: Seq<Order>) -> bool {
    match own_kind {
        OrderType::Buy => no_cross(own, opp),
        OrderType::Sell => no_cross(opp, own),
    }
}

/// From the aggressor's standpoint the head of the opposite side only gets
/// worse as heads are consumed: a later sell head asks at least as much, a
/// later buy head bids at most as much.
pub open spec fn price_no_worse(aggressor: OrderType, first: Order, later: Order) -> bool {
    match aggressor {
        OrderType::Buy => first.price <= later.price,
        OrderType::Sell => first.price >= later.price,
    }
}

/// The new state and events of one command.
pub struct StepR {
    pub buys: Seq<Order>,
    pub sells: Seq<Order>,
    pub events: Seq<EventV>,
}

/// A new order is accepted, matched against the opposite side, and any
/// remainder rests on its own side. An `Accepted` event for the original
/// order opens the batch; a second `Accepted` event records a resting
/// remainder that is smaller than the original.
pub open spec fn step_new_order(buys: Seq<Order>, sells: Seq<Order>, o: Order, ts: i64) -> StepR {
    let opp = if o.order_type is Buy { sells } else { buys };
    let own = if o.order_type is Buy { buys } else { sells };
    let m = match_rec(o, opp, ts);
    let own2 = match m.rest {
        Some(r) => insert_sorted(o.order_type, own, r),
        None => own,
    };
    let events = new_order_events(o, m, ts);
    if o.order_type is Buy {
        StepR { buys: own2, sells: m.opp, events }
    } else {
        StepR { buys: m.opp, sells: own2, events }
    }
}

/// One decimal digit as its character.
pub open spec fn decimal_digit(d: u128) -> char {
    ((48 + (d % 10)) as u8) as char
}

/// A number rendered as its decimal digits, most significant first, with no
/// leading zeros or sign.
pub open spec fn decimal_digits(n: u128) -> Seq<char>
    decreases n,
{
    if n < 10 {
        seq![decimal_digit(n)]
    } else {
        decimal_digits(n / 10).push(decimal_digit(n % 10))
    }
}

/// The reason a cancel or update of an unknown id is rejected with: it names
/// the id that was not found.
pub open spec fn not_found_reason(id: u128) -> Seq<char> {
    "Order "@ + decimal_digits(id) + " not found in sell or buy side"@
}

/// Cancel removes the order carrying the id from the one side that holds it;
/// an unknown id is rejected.
pub open spec fn step_cancel(buys: Seq<Order>, sells: Seq<Order>, ts: i64, id: u128) -> StepR {
    if has_order_id(sells, id) {
        let i = find_order_id(sells, id);
        StepR {
            buys,
            sells: sells.remove(i),
            events: seq![EventV::Canceled { ts, order: sells[i] }],
        }
    } else if has_order_id(buys, id) {
        let i = find_order_id(buys, id);
        StepR {
            buys: buys.remove(i),
            sells,
            events: seq![EventV::Canceled { ts, order: buys[i] }],
        }
    } else {
        StepR {
            buys,
            sells,
            events: seq![EventV::Rejected { ts, reason: not_found_reason(id) }],
        }
    }
}

/// Update cancels the order and re-inserts a fresh order with a new id and
/// the new quantity and price on the same side, driving the full matching
/// procedure; the fresh timestamp demotes it in time priority.
pub open spec fn step_update(
    buys: Seq<Order>,
    sells: Seq<Order>,
    ts: i64,
    id: u128,
    new_id: u128,
    new_quantity: u32,
    new_price: u64,
) -> StepR {
    if has_order_id(sells, id) || has_order_id(buys, id) {
        let side = if has_order_id(sells, id) {
            OrderType::Sell
        } else {
            OrderType::Buy
        };
        let c = step_cancel(buys, sells, ts, id);
        let o = Order {
            order_type: side,
            id: new_id,
            ts,
            quantity: new_quantity,
            price: new_price,
        };
        let n = step_new_order(c.buys, c.sells, o, ts);
        StepR { buys: n.buys, sells: n.sells, events: c.events + n.events }
    } else {
        StepR {
            buys,
            sells,
            events: seq![EventV::Rejected { ts, reason: not_found_reason(id) }],
        }
    }
}

/// Two orders with distinct ids never tie: the id tiebreaker makes each
/// side's priority order total, so equality is identity.
pub proof fn lemma_side_total(side: OrderType, a: Order, b: Order)
    requires
        a.id != b.id,
    ensures
        side_before(side, a, b) || side_before(side, b, a),
        !(side_before(side, a, b) && side_before(side, b, a)),
{
}

/// `insert_pos` is the first position whose order the new order precedes.
pub proof fn lemma_insert_pos(side: OrderType, s: Seq<Order>, o: Order)
    ensures
        0 <= insert_pos(side, s, o) <= s.len(),
        forall|k: int| 0 <= k < insert_pos(side, s, o) ==> !side_before(side, o, s[k]),
        insert_pos(side, s, o) < s.len() ==> side_before(side, o, s[insert_pos(side, s, o)]),
    decreases s.len(),
{
    if s.len() == 0 {
    } else if side_before(side, o, s[0]) {
    } else {
        lemma_insert_pos(side, s.drop_first(), o);
        let p = insert_pos(side, s, o);
        assert(p == 1 + insert_pos(side, s.drop_first(), o));
        assert forall|k: int| 0 <= k < p implies !side_before(side, o, s[k]) by {
            if k > 0 {
                assert(s.drop_first()[k - 1] == s[k]);
            }
        }
        if p < s.len() {
            assert(s.drop_first()[p - 1] == s[p]);
        }
    }
}

/// Inserting at the priority position keeps the side sorted and adds exactly
/// the one order; positions shift accordingly.
pub proof fn lemma_insert_sorted(side: OrderType, s: Seq<Order>, o: Order)
    requires
        sorted_side(side, s),
        distinct_ids(s),
        !has_order_id(s, o.id),
    ensures
        ({
            let p = insert_pos(side, s, o);
            let r = insert_sorted(side, s, o);
            &&& r.len() == s.len() + 1
            &&& (forall|i: int| 0 <= i < p ==> r[i] == s[i])
            &&& r[p] == o
            &&& (forall|i: int| p < i < r.len() ==> r[i] == s[i - 1])
            &&& sorted_side(side, r)
            &&& distinct_ids(r)
            &&& (forall|id: u128|
                has_order_id(r, id) <==> (id == o.id || has_order_id(s, id)))
            &&& r[0] == (if s.len() == 0 || side_before(side, o, s[0]) {
                o
            } else {
                s[0]
            })
            &&& (side_typed(side, s) && o.order_type == side ==> side_typed(side, r))
            &&& (side_positive(s) && order_valid(o) ==> side_positive(r))
        }),
{
    lemma_insert_pos(side, s, o);
    let p = insert_pos(side, s, o);
    let r = insert_sorted(side, s, o);
    s.insert_ensures(p, o);
    assert forall|i: int| 0 <= i < s.len() implies s[i].id != o.id by {
        assert(!has_order_id(s, o.id));
    }
    assert forall|i: int, j: int| 0 <= i < j < r.len() implies side_before(side, r[i], r[j]) by {
        if j < p {
            assert(r[i] == s[i] && r[j] == s[j]);
        } else if i == p {
            assert(r[i] == o && r[j] == s[j - 1] && p <= j - 1 < s.len());
            assert(side_before(side, o, s[p]));
            if j - 1 > p {
                assert(side_before(side, s[p], s[j - 1]));
            }
        } else if j == p {
            assert(r[i] == s[i] && r[j] == o && !side_before(side, o, s[i]));
            lemma_side_total(side, s[i], o);
        } else if i < p {
            assert(r[i] == s[i] && r[j] == s[j - 1] && i < j - 1);
        } else {
            assert(r[i] == s[i - 1] && r[j] == s[j - 1]);
        }
    }
    assert forall|id: u128|
        has_order_id(r, id) <==> (id == o.id || has_order_id(s, id)) by {
        if has_order_id(r, id) {
            let i = choose|i: int| 0 <= i < r.len() && r[i].id == id;
            if i < p {
                assert(s[i].id == id);
            } else if i > p {
                assert(s[i - 1].id == id);
            }
        }
        if id == o.id {
            assert(r[p].id == id);
        } else if has_order_id(s, id) {
            let i = choose|i: int| 0 <= i < s.len() && s[i].id == id;
            if i < p {
                assert(r[i].id == id);
            } else {
                assert(r[i + 1].id == id);
            }
        }
    }
    assert(distinct_ids(r)) by {
        assert forall|i: int, j: int| 0 <= i < j < r.len() implies r[i].id != r[j].id by {
            lemma_side_total(side, r[i], r[j]);
        }
    }
    if p == 0 {
        assert(r[0] == o);
    } else {
        assert(r[0] == s[0]);
    }
}

/// Removing the order that carries an id keeps the side sorted and removes
/// exactly that id.
pub proof fn lemma_remove_id(side: OrderType, s: Seq<Order>, id: u128)
    requires
        sorted_side(side, s),
        distinct_ids(s),
        has_order_id(s, id),
    ensures
        ({
            let i = find_order_id(s, id);
            let r = s.remove(i);
            &&& 0 <= i < s.len() && s[i].id == id
            &&& r.len() == s.len() - 1
            &&& (forall|k: int| 0 <= k < i ==> r[k] == s[k])
            &&& (forall|k: int| i <= k < r.len() ==> r[k] == s[k + 1])
            &&& sorted_side(side, r)
            &&& distinct_ids(r)
            &&& (forall|x: u128| has_order_id(r, x) <==> (has_order_id(s, x) && x != id))
            &&& (side_typed(side, s) ==> side_typed(side, r))
            &&& (side_positive(s) ==> side_positive(r))
        }),
{
    let i = find_order_id(s, id);
    assert(0 <= i < s.len() && s[i].id == id);
    let r = s.remove(i);
    s.remove_ensures(i);
    assert forall|k: int| 0 <= k < i implies r[k] == s[k] by {}
    assert forall|k: int| i <= k < r.len() implies r[k] == s[k + 1] by {}
    assert forall|x: u128|
        has_order_id(r, x) <==> (has_order_id(s, x) && x != id) by {
        if has_order_id(r, x) {
            let k = choose|k: int| 0 <= k < r.len() && r[k].id == x;
            if k < i {
                assert(s[k].id == x);
            } else {
                assert(s[k + 1].id == x);
            }
        }
        if has_order_id(s, x) && x != id {
            let k = choose|k: int| 0 <= k < s.len() && s[k].id == x;
            if k < i {
                assert(r[k].id == x);
            } else {
                assert(k > i);
                assert(r[k - 1].id == x);
            }
        }
    }
}

/// Id disjointness of two sides is symmetric.
pub proof fn lemma_disjoint_sym(a: Seq<Order>, b: Seq<Order>)
    requires
        disjoint_ids(a, b),
    ensures
        disjoint_ids(b, a),
{
    assert forall|i: int, j: int|
        0 <= i < b.len() && 0 <= j < a.len() implies b[i].id != a[j].id by {
        assert(a[j].id != b[i].id);
    }
}

/// Dropping the head keeps a side well-formed and removes exactly its id.
pub proof fn lemma_drop_first_side(side: OrderType, s: Seq<Order>)
    requires
        sorted_side(side, s),
        side_typed(side, s),
        side_positive(s),
        distinct_ids(s),
        s.len() > 0,
    ensures
        ({
            let r = s.drop_first();
            &&& sorted_side(side, r)
            &&& side_typed(side, r)
            &&& side_positive(r)
            &&& distinct_ids(r)
            &&& (forall|x: u128| has_order_id(r, x) <==> (has_order_id(s, x) && x != s[0].id))
        }),
{
    let r = s.drop_first();
    assert forall|k: int| 0 <= k < r.len() implies r[k] == s[k + 1] by {}
    assert forall|i: int, j: int| 0 <= i < j < r.len() implies side_before(side, r[i], r[j]) by {
        assert(side_before(side, s[i + 1], s[j + 1]));
    }
    assert forall|k: int| 0 <= k < r.len() implies (#[trigger] r[k]).order_type == side by {
        assert(s[k + 1].order_type == side);
    }
    assert forall|k: int| 0 <= k < r.len() implies order_valid(#[trigger] r[k]) by {
        assert(order_valid(s[k + 1]));
    }
    assert forall|x: u128| has_order_id(r, x) <==> (has_order_id(s, x) && x != s[0].id) by {
        if has_order_id(r, x) {
            let k = choose|k: int| 0 <= k < r.len() && r[k].id == x;
            assert(s[k + 1].id == x);
        }
        if has_order_id(s, x) && x != s[0].id {
            let k = choose|k: int| 0 <= k < s.len() && s[k].id == x;
            assert(k != 0);
            assert(r[k - 1].id == x);
        }
    }
}

/// Replacing the head by a copy with a new quantity (same id, timestamp,
/// side and price) keeps a side well-formed and its ids unchanged.
pub proof fn lemma_replace_head(side: OrderType, s: Seq<Order>, o: Order)
    requires
        sorted_side(side, s),
        side_typed(side, s),
        side_positive(s),
        distinct_ids(s),
        s.len() > 0,
        o.id == s[0].id,
        o.ts == s[0].ts,
        o.price == s[0].price,
        o.order_type == s[0].order_type,
        o.quantity >= 1,
    ensures
        ({
            let r = s.update(0, o);
            &&& sorted_side(side, r)
            &&& side_typed(side, r)
            &&& side_positive(r)
            &&& distinct_ids(r)
            &&& (forall|x: u128| has_order_id(r, x) <==> has_order_id(s, x))
        }),
{
    let r = s.update(0, o);
    assert forall|i: int, j: int| 0 <= i < j < r.len() implies side_before(side, r[i], r[j]) by {
        assert(side_before(side, s[i], s[j]));
    }
    assert forall|k: int| 0 <= k < r.len() implies (#[trigger] r[k]).order_type == side by {
        assert(s[k].order_type == side);
    }
    assert forall|k: int| 0 <= k < r.len() implies order_valid(#[trigger] r[k]) by {
        assert(order_valid(s[k]));
    }
    assert forall|x: u128| has_order_id(r, x) <==> has_order_id(s, x) by {
        if has_order_id(r, x) {
            let k = choose|k: int| 0 <= k < r.len() && r[k].id == x;
            assert(s[k].id == x);
        }
        if has_order_id(s, x) {
            let k = choose|k: int| 0 <= k < s.len() && s[k].id == x;
            assert(r[k].id == x);
        }
    }
}

/// The meaning of one command against a book state: the new side sequences
/// and the emitted events. `ts` is the timestamp sampled once for the
/// command; `id` is the fresh id minted for it, unused by commands that mint
/// none.
pub open spec fn step(b: BookV, ts: i64, id: u128, cmd: Command) -> StepR {
    match cmd {
        Command::Buy { quantity, price } => step_new_order(
            b.buys,
            b.sells,
            Order { order_type: OrderType::Buy, id, ts, quantity, price },
            ts,
        ),
        Command::Sell { quantity, price } => step_new_order(
            b.buys,
            b.sells,
            Order { order_type: OrderType::Sell, id, ts, quantity, price },
            ts,
        ),
        Command::Cancel { id: cancel_id } => step_cancel(b.buys, b.sells, ts, cancel_id),
        Command::Update { id: update_id, new_quantity, new_price } => step_update(
            b.buys,
            b.sells,
            ts,
            update_id,
            id,
            new_quantity,
            new_price,
        ),
        Command::GetState => StepR {
            buys: b.buys,
            sells: b.sells,
            events: seq![EventV::State { buy: b.buys, sell: b.sells }],
        },
    }
}

} // verus!
