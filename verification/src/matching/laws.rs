use vstd::prelude::*;

use crate::matching::depth::{levels_volume, lemma_levels_volume_empty, lemma_levels_volume_subset};
use crate::matching::market_manager::{
    aon_fillable, aon_round, fill_link, side_total, front_of, incoming_run, market_fills, modified_orders, traded, whole_or_nothing,
    MarketState,
};
use crate::matching::order::{trailing_parameters_valid, Order, OrderId};
use crate::matching::order_book::{best_key, BookSide, BookState};
use crate::matching::types::OrderTimeInForce;

verus! {

// ---------------------------------------------------------------------------
//  Laws of the matching engine, stated over the inputs and results of its steps
// ---------------------------------------------------------------------------

/// Over the fills of an incoming order that is neither fill-or-kill nor all-or-none, a resting
/// all-or-none order is never partly taken: an all-or-none order held at the start that is
/// still held at the end is exactly as it was.
pub proof fn law_incoming_spares_all_or_none(
    states: Seq<MarketState>,
    rems: Seq<u64>,
    start: MarketState,
    end: MarketState,
    sym: int,
    is_buy: bool,
    limit: Option<u64>,
    id: OrderId,
)
    requires
        incoming_run(states, rems, start, end, sym, is_buy, limit, true),
        start.orders.contains_key(id),
        start.orders[id].time_in_force == OrderTimeInForce::Aon,
        end.orders.contains_key(id),
    ensures
        end.orders[id] == start.orders[id],
{
    lemma_spared_upto(states, rems, sym, !is_buy, limit, id, (states.len() - 1) as int);
}

/// Up to state `i` of such a run, the all-or-none order `id` is either gone or unchanged.
proof fn lemma_spared_upto(
    states: Seq<MarketState>,
    rems: Seq<u64>,
    sym: int,
    bid_side: bool,
    limit: Option<u64>,
    id: OrderId,
    i: int,
)
    requires
        0 <= i < states.len(),
        states.len() == rems.len(),
        forall|j: int| 0 <= j < states.len() - 1 ==> #[trigger] fill_link(states, rems, sym, bid_side, limit, None, true, j),
        states[0].orders.contains_key(id),
        states[0].orders[id].time_in_force == OrderTimeInForce::Aon,
    ensures
        states[i].orders.contains_key(id) ==> states[i].orders[id] == states[0].orders[id],
    decreases i,
{
    if i > 0 {
        lemma_spared_upto(states, rems, sym, bid_side, limit, id, i - 1);
        let j = i - 1;
        assert(fill_link(states, rems, sym, bid_side, limit, None, true, j));
        let before = states[j];
        let after = states[i];
        if after.orders.contains_key(id) && !(rems[j + 1] == rems[j] && after == before) {
            let f = front_of(before, sym, bid_side).unwrap();
            let q = (rems[j] - rems[j + 1]) as u64;
            assert(after.orders == traded(before.orders, f, q));
            if f == id {
                assert(before.orders[id] == states[0].orders[id]);
                assert(!after.orders.contains_key(id));
            } else {
                assert(before.orders.contains_key(id));
                assert(after.orders[id] == before.orders[id]);
            }
        }
    }
}

/// A crossing round with an all-or-none front order runs only when that order can be filled
/// whole: its remaining quantity is at most the total volume of the other side of the book
/// (whose levels, as in every book, are finitely many).
pub proof fn law_aon_round_fills_whole(before: MarketState, after: MarketState, sym: int)
    requires
        aon_round(before, after, sym),
        before.book_of(sym) is Some ==> before.book_of(sym).unwrap().bids.dom().finite()
            && before.book_of(sym).unwrap().asks.dom().finite(),
    ensures
        ({
            let b = before.book_of(sym).unwrap();
            let bo = before.orders[front_of(before, sym, true).unwrap()];
            let ao = before.orders[front_of(before, sym, false).unwrap()];
            &&& bo.time_in_force == OrderTimeInForce::Aon ==> bo.leaves_quantity <= levels_volume(b.asks, b.asks.dom())
            &&& ao.time_in_force == OrderTimeInForce::Aon ==> ao.leaves_quantity <= levels_volume(b.bids, b.bids.dom())
        }),
{
    let b = before.book_of(sym).unwrap();
    let x = front_of(before, sym, true).unwrap();
    let y = front_of(before, sym, false).unwrap();
    assert(aon_fillable(before, sym));
    let va = levels_volume(b.asks, b.asks.dom());
    let vb = levels_volume(b.bids, b.bids.dom());
    lemma_levels_volume_subset(b.asks, Set::empty(), b.asks.dom());
    lemma_levels_volume_subset(b.bids, Set::empty(), b.bids.dom());
    lemma_levels_volume_empty(b.asks);
    lemma_levels_volume_empty(b.bids);
}

/// A market order that is neither fill-or-kill nor all-or-none and finds an opposing level
/// takes from the opposing side up to its best price moved by its slippage (saturating): when
/// its fills end, it is filled, the opposing side is empty, the opposing best price is beyond
/// that limit, or the front order there is all-or-none and wants more than is left.
pub proof fn law_market_fills_reach_slippage(
    fills: Seq<MarketState>,
    rems: Seq<u64>,
    start: MarketState,
    sym: int,
    o: Order,
)
    requires
        market_fills(fills, rems, start, sym, o),
        !whole_or_nothing(o.time_in_force),
        start.book_of(sym) is Some,
        !(if o.spec_is_buy() { start.book_of(sym).unwrap().asks } else { start.book_of(sym).unwrap().bids }).dom().is_empty(),
    ensures
        ({
            let b0 = start.book_of(sym).unwrap();
            let lim: int = if o.spec_is_buy() {
                let p = best_key(b0.asks, false) + o.slippage;
                if p > u64::MAX { u64::MAX as int } else { p }
            } else {
                let p = best_key(b0.bids, true) - o.slippage;
                if p < 0 { 0 } else { p }
            };
            let end = fills.last();
            ||| rems.last() == 0
            ||| front_of(end, sym, !o.spec_is_buy()) is None
            ||| (o.spec_is_buy() && best_key(end.book_of(sym).unwrap().asks, false) > lim)
            ||| (!o.spec_is_buy() && best_key(end.book_of(sym).unwrap().bids, true) < lim)
            ||| ({
                let f = end.orders[front_of(end, sym, !o.spec_is_buy()).unwrap()];
                f.time_in_force == OrderTimeInForce::Aon && f.leaves_quantity > rems.last()
            })
        }),
{
}

/// Modifying a held order to a positive quantity keeps it held with that quantity as both its
/// quantity and its remaining quantity, at its new price, whatever it has executed.
pub proof fn law_modify_sets_quantity(orders: Map<OrderId, Order>, id: OrderId, new_price: u64, new_quantity: u64)
    requires
        orders.contains_key(id),
        new_quantity > 0,
    ensures
        ({
            let m = modified_orders(orders, id, new_price, new_quantity, false);
            &&& m.contains_key(id)
            &&& m[id].leaves_quantity == new_quantity
            &&& m[id].quantity == new_quantity
            &&& m[id].price == new_price
            &&& m[id].executed_quantity == orders[id].executed_quantity
        }),
{
}

/// Mitigating a held order counts what it has executed: it keeps the new quantity less the
/// executed quantity as its remaining quantity, and leaves when nothing would remain.
pub proof fn law_mitigate_counts_executed(orders: Map<OrderId, Order>, id: OrderId, new_price: u64, new_quantity: u64)
    requires
        orders.contains_key(id),
    ensures
        ({
            let m = modified_orders(orders, id, new_price, new_quantity, true);
            let e = orders[id].executed_quantity;
            &&& new_quantity > e ==> m.contains_key(id) && m[id].leaves_quantity == new_quantity - e
                && m[id].quantity == new_quantity && m[id].price == new_price
            &&& new_quantity <= e ==> !m.contains_key(id)
        }),
{
}

/// Where a trailing stop order moves, in whole numbers. A buy stop follows the higher of the
/// last ask price and the best ask (`u64::MAX` without asks), a sell stop the lower of the last
/// bid price and the best bid (0 without bids). Its distance and step are absolute, or, when
/// the distance is negative, hundredths of a percent of that market price (rounded down). A buy stop moves down to the market price plus the distance (saturating),
/// and a sell stop up to the market price less the distance (at least 0), when that tightens
/// it by at least the step; otherwise it stays. Without a market price it stays.
pub proof fn law_trailing_stop_price(b: BookState, o: Order)
    requires
        b.trailing_stop_price_defined(o),
        trailing_parameters_valid(o.trailing_distance, o.trailing_step),
    ensures
        ({
            let ask = b.best_price_or(BookSide::Asks, u64::MAX);
            let bid = b.best_price_or(BookSide::Bids, 0);
            let mp: int = if o.spec_is_buy() {
                if b.last_ask_price >= ask { b.last_ask_price as int } else { ask as int }
            } else {
                if b.last_bid_price <= bid { b.last_bid_price as int } else { bid as int }
            };
            let d = o.trailing_distance as int;
            let s = o.trailing_step as int;
            let distance: int = if d < 0 { (-d) * mp / 10000 } else { d };
            let step: int = if d < 0 { (-s) * mp / 10000 } else { s };
            let old = o.stop_price as int;
            b.trailing_stop_price(o) as int == (if mp == u64::MAX || mp == 0 {
                old
            } else if o.spec_is_buy() {
                let np: int = if mp + distance > u64::MAX { u64::MAX as int } else { mp + distance };
                if np < old && old - np >= step { np } else { old }
            } else {
                let np: int = if mp - distance < 0 { 0 } else { mp - distance };
                if np > old && np - old >= step { np } else { old }
            })
        }),
{
    let mp = b.trailing_market_price(o);
    if mp != u64::MAX && mp != 0 && o.trailing_distance < 0 {
        let dd = (-o.trailing_distance) as u64;
        let ss = (-o.trailing_step) as u64;
        assert(dd * mp <= u64::MAX);
        assert(ss * mp <= u64::MAX);
        assert(0 <= ss * mp);
        assert(((dd * mp) as u64 / 10000) as int == (-(o.trailing_distance as int)) * (mp as int) / 10000);
        assert(((ss * mp) as u64 / 10000) as int == (-(o.trailing_step as int)) * (mp as int) / 10000);
        assert((dd * mp) as u64 / 10000 <= u64::MAX / 10000);
        assert((ss * mp) as u64 / 10000 <= u64::MAX / 10000);
    }
}

} // verus!
