use vstd::prelude::*;

use crate::matching::consistency::{
    book_consistent, keyed_by_id, lemma_sum_prefix, level_consistent, queue_sum, rests_at, VolumePart, lemma_book_add, lemma_book_delete, lemma_book_frame, lemma_book_reduce,
    lemma_book_same_parts,
    queued_in, resting_key, resting_side, same_place,
};
use crate::matching::depth::{
    depth, opposing, within, lemma_levels_volume_insert, lemma_levels_volume_subset, lemma_prefix_keys,
    lemma_suffix_keys, levels_volume, within_keys,
};
use crate::matching::error::{ErrorCode, Result};
use crate::matching::external::{
    table_contains, table_contents, table_entries, table_get, table_insert, table_len, table_new, table_remove,
    OrderTable,
};
use crate::matching::level::{Level, LevelUpdate};
use crate::matching::market_handler::{MarketHandler, NoOpHandler};
use crate::matching::order::{Order, OrderId};
use crate::matching::order_book::{
    added_level, best_key, best_level, can_add, stop_side, trailing_side, empty_book, highest, limit_side, side_level_type, is_highest, is_lowest, level_prices, level_states, lowest, remove_from_side,
    BookSide, BookState, LevelData, OrderBook,
};
use crate::matching::symbol::Symbol;
use crate::matching::types::{LevelType, OrderTimeInForce, OrderType, UpdateType};

verus! {

// ---------------------------------------------------------------------------
//  Model
// ---------------------------------------------------------------------------

/// The model of a market manager.
pub struct MarketState {
    /// Registered symbols, by id.
    pub symbols: Seq<Option<Symbol>>,
    /// Order books, by symbol id.
    pub books: Seq<Option<BookState>>,
    /// Resting orders, by id.
    pub orders: Map<OrderId, Order>,
    /// Whether automatic matching is enabled.
    pub matching: bool,
}

/// The entry at `i`, or `None` past the end.
pub open spec fn slot<T>(s: Seq<Option<T>>, i: int) -> Option<T> {
    if 0 <= i < s.len() {
        s[i]
    } else {
        None
    }
}

/// A held order still has something to trade and is not a market order.
pub open spec fn order_ok(o: Order) -> bool {
    o.leaves_quantity > 0 && o.order_type != OrderType::Market && o.id != 0
}

/// A trailing order moved to a new stop price; a trailing stop-limit order keeps the
/// distance between its limit price and its stop price.
pub open spec fn trailed(o: Order, new_stop: u64) -> Order {
    if o.order_type == OrderType::TrailingStopLimit {
        Order {
            stop_price: new_stop,
            price: vstd::wrapping::u64_specs::wrapping_add_signed(
                new_stop,
                vstd::wrapping::i64_specs::wrapping_sub(o.price as i64, o.stop_price as i64),
            ),
            ..o
        }
    } else {
        Order { stop_price: new_stop, ..o }
    }
}

/// A book after an execution of `o` at `price`: the last and the matching price of the
/// order's side become that price.
pub open spec fn priced_book(b: BookState, o: Order, price: u64) -> BookState {
    priced_side(b, o.spec_is_buy(), price)
}

/// A book after an execution on the buy side (or sell side) at `price`: the last and the
/// matching price of that side become that price.
pub open spec fn priced_side(b: BookState, buy: bool, price: u64) -> BookState {
    if buy {
        BookState { last_bid_price: price, matching_bid_price: price, ..b }
    } else {
        BookState { last_ask_price: price, matching_ask_price: price, ..b }
    }
}

/// The state after an execution on the buy side (or sell side) of the book of `sym`, where
/// there is one, at `price`: see `priced_side`.
pub open spec fn priced_at(st: MarketState, sym: int, buy: bool, price: u64) -> MarketState {
    match st.book_of(sym) {
        Some(b) => MarketState { books: st.books.update(sym, Some(priced_side(b, buy, price))), ..st },
        None => st,
    }
}

/// The state with the matching prices of the book of `sym`, where there is one, cleared.
pub open spec fn unmatched_at(st: MarketState, sym: int) -> MarketState {
    MarketState { books: reset_books(st.books, sym), ..st }
}

/// The books after `q` (at most all) of the remaining quantity of held order `id` leaves it:
/// where it is queued, its level gives up that volume, split into its hidden and visible
/// parts, and loses the order when nothing is left of it.
pub open spec fn shrunk_books(st: MarketState, id: OrderId, q: u64) -> Seq<Option<BookState>> {
    let o = st.orders[id];
    let rest = Order { leaves_quantity: (o.leaves_quantity - q) as u64, ..o };
    let sym = o.symbol_id as int;
    if st.is_queued(o) {
        st.books.update(
            sym,
            Some(
                st.book_of(sym).unwrap().after_remove(
                    resting_side(o).unwrap(),
                    resting_key(o),
                    id,
                    q,
                    (o.hidden() - rest.hidden()) as u64,
                    (o.visible() - rest.visible()) as u64,
                    rest.leaves_quantity == 0,
                ),
            ),
        )
    } else {
        st.books
    }
}

/// The state after held order `id` executes `q` (at most all of its remaining quantity) at
/// `price` in the book of `sym`: the last and matching price of its side become `price`, its
/// executed quantity grows and its remaining quantity falls (see `traded`), and its level
/// gives up that volume (see `shrunk_books`).
pub open spec fn executed_at(st: MarketState, sym: int, id: OrderId, q: u64, price: u64) -> MarketState {
    let p = priced_at(st, sym, st.orders[id].spec_is_buy(), price);
    MarketState { orders: traded(p.orders, id, q), books: shrunk_books(p, id, q), ..p }
}

/// The state after held order `id` gives up `quantity` (at most all of its remaining
/// quantity), staying in place: see `reduced_orders` and `shrunk_books`.
pub open spec fn reduced_at(st: MarketState, id: OrderId, quantity: u64) -> MarketState {
    let o = st.orders[id];
    let q = if quantity < o.leaves_quantity { quantity } else { o.leaves_quantity };
    MarketState { orders: reduced_orders(st.orders, id, quantity), books: shrunk_books(st, id, q), ..st }
}

/// `e` grown by `d`, saturating at `u64::MAX`.
pub open spec fn grown(e: u64, d: int) -> u64 {
    if e + d > u64::MAX {
        u64::MAX
    } else {
        (e + d) as u64
    }
}

/// A book whose matching prices are cleared.
pub open spec fn unmatched_book(b: BookState) -> BookState {
    BookState { matching_bid_price: 0, matching_ask_price: u64::MAX, ..b }
}

/// The price at which a market order enters the book of `sym`: the best opposing price,
/// moved against the order by its slippage (saturating); `None` when there is no opposing
/// level.
pub open spec fn market_entry_price(st: MarketState, sym: int, o: Order) -> Option<u64> {
    match st.book_of(sym) {
        Some(b) => {
            let m = if o.spec_is_buy() { b.asks } else { b.bids };
            if m.dom().is_empty() {
                None
            } else {
                let p = best_key(m, !o.spec_is_buy());
                Some(if o.spec_is_buy() {
                    if p + o.slippage > u64::MAX { u64::MAX } else { (p + o.slippage) as u64 }
                } else {
                    if p >= o.slippage { (p - o.slippage) as u64 } else { 0 }
                })
            }
        },
        None => None,
    }
}

/// The level update that queuing limit order `o` in book `b` reports: a new level or a
/// changed one, the level as it becomes, and whether it is the top of its side.
pub open spec fn limit_update(b: BookState, o: Order) -> LevelUpdate {
    LevelUpdate {
        update_type: if b.side(limit_side(o.spec_is_buy())).contains_key(o.price) {
            UpdateType::Update
        } else {
            UpdateType::Add
        },
        level: added_level(b.side(limit_side(o.spec_is_buy())), side_level_type(limit_side(o.spec_is_buy())), o.price, o).level,
        top: b.top(o),
    }
}

/// The stop collection that holds buy or sell, plain or trailing stop orders.
pub open spec fn stop_collection(is_buy: bool, trailing: bool) -> BookSide {
    if trailing {
        trailing_side(is_buy)
    } else {
        stop_side(is_buy)
    }
}

/// The ids queued at the best level of a stop collection of the book of `sym` (the lowest
/// buy stop, the highest sell stop), when the market price has reached that level: at or
/// above a bid-typed level, at or below an ask-typed one.
pub open spec fn triggered(st: MarketState, sym: int, is_buy: bool, trailing: bool, market_price: u64) -> Option<
    Seq<OrderId>,
> {
    match st.book_of(sym) {
        Some(b) => match best_level(b.side(stop_collection(is_buy, trailing)), !is_buy) {
            Some(l) => if (if l.level.level_type == LevelType::Bid {
                market_price >= l.level.price
            } else {
                market_price <= l.level.price
            }) {
                Some(l.queue)
            } else {
                None
            },
            None => None,
        },
        None => None,
    }
}

/// The trailing collection that follows the market on one side: the trailing buy stops
/// follow the ask side, the trailing sell stops the bid side.
pub open spec fn trailing_collection(level_type: LevelType) -> BookSide {
    match level_type {
        LevelType::Ask => BookSide::TrailingBuyStop,
        LevelType::Bid => BookSide::TrailingSellStop,
    }
}

/// Where held order `id`, queued in the trailing collection of `level_type` of the book of
/// `sym`, moves its stop price to: the book's trailing stop price for it, when that is
/// computable and differs from its current stop price.
pub open spec fn trailing_move(st: MarketState, sym: int, level_type: LevelType, id: OrderId) -> Option<u64> {
    match st.book_of(sym) {
        Some(b) => {
            let m = b.side(trailing_collection(level_type));
            if st.orders.contains_key(id) && (exists|k: u64| #[trigger] m.contains_key(k) && m[k].queue.contains(id))
                && b.trailing_stop_price_defined(st.orders[id]) && b.trailing_stop_price(st.orders[id])
                != st.orders[id].stop_price {
                Some(b.trailing_stop_price(st.orders[id]))
            } else {
                None
            }
        },
        None => None,
    }
}

/// Every book is as it was, but for collection `s` of the book of `sym`.
pub open spec fn only_side_changed(after: MarketState, before: MarketState, sym: int, s: BookSide) -> bool {
    &&& after.books.len() == before.books.len()
    &&& forall|j: int|
        0 <= j < before.books.len() ==> #[trigger] after.books[j] == (if j == sym && before.books[j] is Some {
            Some(before.books[j].unwrap().with_side(s, after.books[j].unwrap().side(s)))
        } else {
            before.books[j]
        })
}

/// The held orders after `q` (at most all) of order `id` trades: its executed quantity grows
/// (saturating) by `q` and its remaining quantity falls by `q`; an order left with nothing is
/// no longer held.
pub open spec fn traded(orders: Map<OrderId, Order>, id: OrderId, q: u64) -> Map<OrderId, Order> {
    let o = orders[id];
    if q < o.leaves_quantity {
        orders.insert(
            id,
            Order {
                executed_quantity: if o.executed_quantity + q > u64::MAX {
                    u64::MAX
                } else {
                    (o.executed_quantity + q) as u64
                },
                leaves_quantity: (o.leaves_quantity - q) as u64,
                ..o
            },
        )
    } else {
        orders.remove(id)
    }
}

/// One fill from the best level of the bid side (or ask side) of the book of `sym`: the order
/// at the front of that level, whose price is within `limit` where there is one, trades `q`,
/// the smaller of its remaining quantity and the `remaining` quantity still wanted. It
/// executes at `chain_price` where one is given, and otherwise at the level's price; see
/// `executed_at`. An incoming order's fill (no `chain_price`) then sets the last and matching
/// price of the incoming side to that price, after clearing the book's matching prices when
/// `reset` holds. `reset` marks the fills of an incoming order that is neither fill-or-kill
/// nor all-or-none: such an order never takes part of an all-or-none front order.
pub open spec fn fill_step(
    before: MarketState,
    after: MarketState,
    sym: int,
    bid_side: bool,
    limit: Option<u64>,
    remaining: u64,
    q: u64,
    chain_price: Option<u64>,
    reset: bool,
) -> bool {
    match front_of(before, sym, bid_side) {
        Some(id) => {
            let b = before.book_of(sym).unwrap();
            let m = if bid_side { b.bids } else { b.asks };
            let price = match chain_price {
                Some(p) => p,
                None => best_key(m, bid_side),
            };
            let done = executed_at(before, sym, id, q, price);
            &&& (limit matches Some(p) ==> within(!bid_side, p, best_key(m, bid_side)))
            &&& before.orders.contains_key(id)
            &&& (chain_price is None && reset && before.orders[id].time_in_force == OrderTimeInForce::Aon
                ==> before.orders[id].leaves_quantity <= remaining)
            &&& q > 0
            &&& q == (if before.orders[id].leaves_quantity < remaining {
                before.orders[id].leaves_quantity
            } else {
                remaining
            })
            &&& after == (match chain_price {
                Some(_) => done,
                None => priced_at(if reset { unmatched_at(done, sym) } else { done }, sym, !bid_side, price),
            })
        },
        None => false,
    }
}

/// Link `i` of a run of fills: from state `i` to state `i + 1`, what is wanted falls from
/// `rems[i]` to `rems[i + 1]` by one fill, or nothing is taken and nothing changes.
pub open spec fn fill_link(
    states: Seq<MarketState>,
    rems: Seq<u64>,
    sym: int,
    bid_side: bool,
    limit: Option<u64>,
    chain_price: Option<u64>,
    reset: bool,
    i: int,
) -> bool {
    ||| rems[i + 1] <= rems[i] && fill_step(
        states[i],
        states[i + 1],
        sym,
        bid_side,
        limit,
        rems[i],
        (rems[i] - rems[i + 1]) as u64,
        chain_price,
        reset,
    )
    ||| rems[i + 1] == rems[i] && states[i + 1] == states[i]
}

/// A run of fills from state `start` to state `end`, with the quantity still wanted before
/// each fill and after the last one: each fill takes the front order of the best level of
/// the side as that state holds it, in price-time order, and leaves the state that
/// `fill_step` gives.
pub open spec fn fill_run(
    states: Seq<MarketState>,
    rems: Seq<u64>,
    start: MarketState,
    end: MarketState,
    sym: int,
    bid_side: bool,
    limit: Option<u64>,
    chain_price: Option<u64>,
    reset: bool,
) -> bool {
    &&& states.len() > 0
    &&& states.len() == rems.len()
    &&& states[0] == start
    &&& states.last() == end
    &&& forall|i: int|
        0 <= i < states.len() - 1 ==> #[trigger] fill_link(states, rems, sym, bid_side, limit, chain_price, reset, i)
}

/// The form in which a stop order enters the market: a trailing order first follows the
/// market of its book, when the book exists and the computation stays in machine integers.
pub open spec fn entry_form(st: MarketState, o: Order) -> Order {
    match st.book_of(o.symbol_id as int) {
        Some(b) => if o.spec_is_trailing() && b.trailing_stop_price_defined(o) {
            trailed(o, b.trailing_stop_price(o))
        } else {
            o
        },
        None => o,
    }
}

/// Without matching, whether an accepted order rests: everything but market orders and
/// immediate-or-cancel or fill-or-kill limit orders.
pub open spec fn rests_unmatched(o: Order) -> bool {
    o.order_type != OrderType::Market && !(o.order_type == OrderType::Limit && (o.time_in_force
        == OrderTimeInForce::Ioc || o.time_in_force == OrderTimeInForce::Fok))
}

/// A fill-or-kill or all-or-none order trades its whole quantity at once or not at all.
pub open spec fn whole_or_nothing(tif: OrderTimeInForce) -> bool {
    tif == OrderTimeInForce::Fok || tif == OrderTimeInForce::Aon
}

/// The fills of an incoming order clear the book's matching prices between them: all but
/// those of a fill-or-kill or all-or-none order, which fill as one matching chain.
pub open spec fn resets_matching(tif: OrderTimeInForce) -> bool {
    !whole_or_nothing(tif)
}

/// The opposing levels within the order's limit price hold its whole remaining quantity.
pub open spec fn fills_at_once(st: MarketState, sym: int, o: Order) -> bool {
    match st.book_of(sym) {
        Some(b) => depth(b, o.spec_is_buy(), o.price) >= o.leaves_quantity,
        None => false,
    }
}

/// A step of the engine: the invariant holds after it, the registry is the same, and no
/// order is held that was not held before; held orders keep their time in force and their
/// symbol.
pub open spec fn carries(after: MarketState, before: MarketState) -> bool {
    &&& after.wf()
    &&& after.same_registry(before)
    &&& forall|id: OrderId| #[trigger] after.orders.contains_key(id) ==> before.orders.contains_key(id)
        && after.orders[id].time_in_force == before.orders[id].time_in_force
        && after.orders[id].symbol_id == before.orders[id].symbol_id
        && (is_stop_kind(after.orders[id]) ==> is_stop_kind(before.orders[id]))
}

/// A stop, stop-limit, trailing-stop or trailing-stop-limit order.
pub open spec fn is_stop_kind(o: Order) -> bool {
    o.order_type != OrderType::Market && o.order_type != OrderType::Limit
}

/// The held orders that wait for their stop price.
pub open spec fn stop_held(orders: Map<OrderId, Order>) -> Set<OrderId> {
    orders.dom().filter(|id: OrderId| is_stop_kind(orders[id]))
}

/// No held order but those of `except` gained remaining quantity or lost executed quantity.
pub open spec fn gives_nothing_back(after: MarketState, before: MarketState, except: Set<OrderId>) -> bool {
    forall|id: OrderId|
        #[trigger] after.orders.contains_key(id) && before.orders.contains_key(id) && !except.contains(id)
            ==> after.orders[id].leaves_quantity <= before.orders[id].leaves_quantity
            && after.orders[id].executed_quantity >= before.orders[id].executed_quantity
}

/// A step of matching: a step of the engine in which no held order gains remaining quantity
/// or loses executed quantity.
pub open spec fn evolves(after: MarketState, before: MarketState) -> bool {
    &&& carries(after, before)
    &&& gives_nothing_back(after, before, Set::empty())
}

/// No bid price of the book reaches any of its ask prices.
pub open spec fn uncrossed(b: BookState) -> bool {
    forall|p: u64, q: u64| #[trigger] b.bids.contains_key(p) && #[trigger] b.asks.contains_key(q) ==> p < q
}

/// The book of `sym`, where there is one, is uncrossed.
pub open spec fn uncrossed_at(st: MarketState, sym: int) -> bool {
    match st.book_of(sym) {
        Some(b) => uncrossed(b),
        None => true,
    }
}

/// No held order is all-or-none.
pub open spec fn aon_free(orders: Map<OrderId, Order>) -> bool {
    forall|id: OrderId| #[trigger] orders.contains_key(id) ==> orders[id].time_in_force != OrderTimeInForce::Aon
}

/// Every bid and ask level of `after` was already a level of `before`, book by book; a
/// limit order `extra`, when given, may have opened the level at its own price.
pub open spec fn limits_within(after: MarketState, before: MarketState, extra: Option<Order>) -> bool {
    forall|j: int| #[trigger] after.book_of(j) is Some ==> before.book_of(j) is Some && {
        let a = after.book_of(j).unwrap();
        let b = before.book_of(j).unwrap();
        let opens = |buy: bool, k: u64| match extra {
            Some(o) => o.order_type == OrderType::Limit && o.spec_is_buy() == buy && o.symbol_id == j && o.price == k,
            None => false,
        };
        &&& forall|k: u64| #[trigger] a.bids.contains_key(k) ==> b.bids.contains_key(k) || opens(true, k)
        &&& forall|k: u64| #[trigger] a.asks.contains_key(k) ==> b.asks.contains_key(k) || opens(false, k)
    }
}

/// A limit order at its price reaches no level of the opposing side of the book of `sym`.
pub open spec fn clears_opposing(st: MarketState, sym: int, o: Order) -> bool {
    match st.book_of(sym) {
        Some(b) => if o.spec_is_buy() {
            forall|q: u64| #[trigger] b.asks.contains_key(q) ==> o.price < q
        } else {
            forall|p: u64| #[trigger] b.bids.contains_key(p) ==> p < o.price
        },
        None => true,
    }
}

/// The market ask price of the book of `sym`, `u64::MAX` without a book.
pub open spec fn market_ask_of(st: MarketState, sym: int) -> u64 {
    match st.book_of(sym) {
        Some(b) => b.market_price_ask(),
        None => u64::MAX,
    }
}

/// The market bid price of the book of `sym`, 0 without a book.
pub open spec fn market_bid_of(st: MarketState, sym: int) -> u64 {
    match st.book_of(sym) {
        Some(b) => b.market_price_bid(),
        None => 0,
    }
}

/// Collection `s` of every book is as it was.
pub open spec fn side_unchanged(after: MarketState, before: MarketState, s: BookSide) -> bool {
    forall|j: int| #[trigger] after.book_of(j) is Some ==> before.book_of(j) is Some
        && after.book_of(j).unwrap().side(s) == before.book_of(j).unwrap().side(s)
}

/// The order at the front of the best bid level (or ask level) of the book of `sym`.
pub open spec fn front_of(st: MarketState, sym: int, bid_side: bool) -> Option<OrderId> {
    match st.book_of(sym) {
        Some(b) => {
            let m = if bid_side { b.bids } else { b.asks };
            if m.dom().is_empty() {
                None
            } else {
                Some(m[best_key(m, bid_side)].queue[0])
            }
        },
        None => None,
    }
}

/// Both best levels of the book of `sym` have a front order, held and resting on its side,
/// and `volume` takes all of one of them and no more than the other.
pub open spec fn takes_a_front(st: MarketState, sym: int, volume: u64) -> bool {
    match (front_of(st, sym, true), front_of(st, sym, false)) {
        (Some(b), Some(a)) => {
            &&& st.orders.contains_key(b) && resting_side(st.orders[b]) == Some(BookSide::Bids)
            &&& st.orders.contains_key(a) && resting_side(st.orders[a]) == Some(BookSide::Asks)
            &&& volume <= st.orders[b].leaves_quantity
            &&& volume <= st.orders[a].leaves_quantity
            &&& (volume == st.orders[b].leaves_quantity || volume == st.orders[a].leaves_quantity)
        },
        _ => false,
    }
}

/// Books that were uncrossed stay uncrossed, when no held order was all-or-none.
pub open spec fn keeps_uncrossed(after: MarketState, before: MarketState) -> bool {
    aon_free(before.orders) ==> forall|j: int| uncrossed_at(before, j) ==> #[trigger] uncrossed_at(after, j)
}

/// The orders after `quantity` (at most all of it) leaves order `id`; an order left with
/// nothing is no longer held.
pub open spec fn reduced_orders(orders: Map<OrderId, Order>, id: OrderId, quantity: u64) -> Map<OrderId, Order> {
    let o = orders[id];
    let q = if quantity < o.leaves_quantity { quantity } else { o.leaves_quantity };
    if q < o.leaves_quantity {
        orders.insert(id, Order { leaves_quantity: (o.leaves_quantity - q) as u64, ..o })
    } else {
        orders.remove(id)
    }
}

/// The orders after order `id` executes `quantity` (at most all of it): the executed
/// quantity grows (saturating) by what the remaining quantity loses.
pub open spec fn executed_orders(orders: Map<OrderId, Order>, id: OrderId, quantity: u64) -> Map<OrderId, Order> {
    let o = orders[id];
    let q = if quantity < o.leaves_quantity { quantity } else { o.leaves_quantity };
    let executed = if o.executed_quantity + q > u64::MAX { u64::MAX } else { (o.executed_quantity + q) as u64 };
    if q < o.leaves_quantity {
        orders.insert(id, Order { executed_quantity: executed, leaves_quantity: (o.leaves_quantity - q) as u64, ..o })
    } else {
        orders.remove(id)
    }
}

/// The order `id` with a new price and quantity; its remaining quantity becomes the new
/// quantity, or, when mitigating, what the new quantity leaves after the executed quantity.
pub open spec fn modified_order(o: Order, new_price: u64, new_quantity: u64, mitigate: bool) -> Order {
    let leaves = if mitigate {
        if new_quantity > o.executed_quantity { (new_quantity - o.executed_quantity) as u64 } else { 0 }
    } else {
        new_quantity
    };
    Order { price: new_price, quantity: new_quantity, leaves_quantity: leaves, ..o }
}

pub open spec fn modified_orders(orders: Map<OrderId, Order>, id: OrderId, new_price: u64, new_quantity: u64, mitigate: bool) -> Map<OrderId, Order> {
    let m = modified_order(orders[id], new_price, new_quantity, mitigate);
    if m.leaves_quantity > 0 {
        orders.insert(id, m)
    } else {
        orders.remove(id)
    }
}

/// The limit order that replaces order `id`: a new id, price and quantity, nothing executed.
pub open spec fn replacement(o: Order, new_id: OrderId, new_price: u64, new_quantity: u64) -> Order {
    Order {
        id: new_id,
        price: new_price,
        quantity: new_quantity,
        executed_quantity: 0,
        leaves_quantity: new_quantity,
        ..o
    }
}

/// The outcome of a modification's checks.
pub open spec fn modify_result(st: MarketState, id: OrderId, new_quantity: u64) -> Result<()> {
    if id == 0 {
        Err(ErrorCode::OrderIdInvalid)
    } else if new_quantity == 0 {
        Err(ErrorCode::OrderQuantityInvalid)
    } else if !st.orders.contains_key(id) {
        Err(ErrorCode::OrderNotFound)
    } else {
        Ok(())
    }
}

/// The outcome of a replacement's checks.
pub open spec fn replace_result(st: MarketState, id: OrderId, new_id: OrderId, new_quantity: u64) -> Result<()> {
    if id == 0 || new_id == 0 {
        Err(ErrorCode::OrderIdInvalid)
    } else if new_quantity == 0 {
        Err(ErrorCode::OrderQuantityInvalid)
    } else if !st.orders.contains_key(id) {
        Err(ErrorCode::OrderNotFound)
    } else if st.orders[id].order_type != OrderType::Limit {
        Err(ErrorCode::OrderTypeInvalid)
    } else if new_id != id && st.orders.contains_key(new_id) {
        Err(ErrorCode::OrderDuplicate)
    } else {
        Ok(())
    }
}

/// The outcome of an execution's checks.
pub open spec fn execute_result(st: MarketState, id: OrderId, quantity: u64) -> Result<()> {
    if id == 0 {
        Err(ErrorCode::OrderIdInvalid)
    } else if quantity == 0 {
        Err(ErrorCode::OrderQuantityInvalid)
    } else if !st.orders.contains_key(id) {
        Err(ErrorCode::OrderNotFound)
    } else {
        Ok(())
    }
}

/// No order is held afterwards that was not held before, but for `extra`.
pub open spec fn no_new_orders(after: MarketState, before: MarketState, extra: Set<OrderId>) -> bool {
    forall|id: OrderId| #[trigger] after.orders.contains_key(id) ==> before.orders.contains_key(id) || extra.contains(id)
}

pub open spec fn book_views(v: Seq<Option<OrderBook>>) -> Seq<Option<BookState>> {
    Seq::new(v.len(), |i: int| match v[i] {
        Some(b) => Some(b@),
        None => None,
    })
}

impl MarketState {
    pub open spec fn book_of(self, sym: int) -> Option<BookState> {
        slot(self.books, sym)
    }

    /// The order is queued at its own level of its symbol's book.
    pub open spec fn is_queued(self, o: Order) -> bool {
        match self.book_of(o.symbol_id as int) {
            Some(b) => queued_in(b, o),
            None => false,
        }
    }

    /// The manager's invariant: held orders are keyed by id, live and not market orders;
    /// symbols and books sit at their own id; every level of every book agrees with the
    /// orders it queues.
    pub open spec fn wf(self) -> bool {
        &&& self.orders.dom().finite()
        &&& keyed_by_id(self.orders)
        &&& forall|id: OrderId| #[trigger] self.orders.contains_key(id) ==> order_ok(self.orders[id])
        &&& self.symbols.len() <= 0x1_0000_0000
        &&& self.books.len() <= 0x1_0000_0000
        &&& forall|i: int| 0 <= i < self.symbols.len() && #[trigger] self.symbols[i] is Some ==> self.symbols[i].unwrap().id == i
        &&& forall|i: int|
            0 <= i < self.books.len() && #[trigger] self.books[i] is Some ==> self.books[i].unwrap().symbol.id == i
                && book_consistent(self.books[i].unwrap(), i, self.orders)
    }

    /// Same symbols, same set of books with the same symbols, same matching mode.
    pub open spec fn same_registry(self, other: MarketState) -> bool {
        &&& self.symbols == other.symbols
        &&& self.books.len() == other.books.len()
        &&& forall|i: int| 0 <= i < self.books.len() ==> (#[trigger] self.books[i] is Some) == (other.books[i] is Some)
        &&& forall|i: int|
            0 <= i < self.books.len() && #[trigger] self.books[i] is Some ==> self.books[i].unwrap().symbol
                == other.books[i].unwrap().symbol
        &&& self.matching == other.matching
    }
}

// ---------------------------------------------------------------------------
//  Preservation lemmas
// ---------------------------------------------------------------------------

/// The invariant survives a change of the orders that keeps every queued order's record.
proof fn lemma_orders_change(st: MarketState, orders: Map<OrderId, Order>)
    requires
        st.wf(),
        orders.dom().finite(),
        keyed_by_id(orders),
        forall|id: OrderId| #[trigger] orders.contains_key(id) ==> order_ok(orders[id]),
        forall|id: OrderId|
            st.orders.contains_key(id) && #[trigger] st.is_queued(st.orders[id]) ==> orders.contains_key(id)
                && orders[id] == st.orders[id],
    ensures
        (MarketState { orders, ..st }).wf(),
{
    assert forall|i: int| 0 <= i < st.books.len() && #[trigger] st.books[i] is Some implies book_consistent(
        st.books[i].unwrap(),
        i,
        orders,
    ) by {
        let b = st.books[i].unwrap();
        assert forall|id: OrderId|
            st.orders.contains_key(id) && st.orders[id].symbol_id == i && #[trigger] queued_in(b, st.orders[id]) implies orders.contains_key(id)
                && orders[id] == st.orders[id] by {
            assert(st.book_of(st.orders[id].symbol_id as int) == Some(b));
            assert(st.is_queued(st.orders[id]));
        }
        lemma_book_frame(b, i, st.orders, orders);
    }
}

/// The invariant survives replacing one book by a consistent book with the same symbol.
proof fn lemma_book_change(st: MarketState, i: int, nb: BookState)
    requires
        st.wf(),
        0 <= i < st.books.len(),
        st.books[i] is Some,
        nb.symbol == st.books[i].unwrap().symbol,
        book_consistent(nb, i, st.orders),
    ensures
        (MarketState { books: st.books.update(i, Some(nb)), ..st }).wf(),
        (MarketState { books: st.books.update(i, Some(nb)), ..st }).same_registry(st),
{
}

/// After a queued order gives up volume in its book, the manager with the new record is
/// consistent.
proof fn lemma_reduce_step(st: MarketState, o1: Order, o: Order, idx: int, nb: BookState)
    requires
        st.wf(),
        st.orders.contains_key(o1.id),
        st.orders[o1.id] == o1,
        same_place(o1, o),
        o.leaves_quantity <= o1.leaves_quantity,
        o.hidden() <= o1.hidden(),
        o.visible() <= o1.visible(),
        idx == o1.symbol_id,
        0 <= idx < st.books.len(),
        st.books[idx] is Some,
        queued_in(st.books[idx].unwrap(), o1),
        nb == st.books[idx].unwrap().after_remove(resting_side(o1).unwrap(), resting_key(o1), o1.id,
            (o1.leaves_quantity - o.leaves_quantity) as u64, (o1.hidden() - o.hidden()) as u64,
            (o1.visible() - o.visible()) as u64, o.leaves_quantity == 0),
    ensures
        ({
            let st2 = MarketState { books: st.books.update(idx, Some(nb)), orders: st.orders.insert(o1.id, o), ..st };
            &&& (o.leaves_quantity > 0 ==> st2.wf())
            &&& st2.same_registry(st)
            &&& (o.leaves_quantity == 0 ==> !st2.is_queued(o))
            &&& (o.leaves_quantity == 0 ==> (MarketState { orders: st2.orders.remove(o1.id), ..st2 }).wf())
        }),
{
    let b = st.books[idx].unwrap();
    let no = st.orders.insert(o1.id, o);
    lemma_book_reduce(b, idx, st.orders, o1, o);
    let st2 = MarketState { books: st.books.update(idx, Some(nb)), orders: no, ..st };
    assert(keyed_by_id(no));
    assert forall|i: int| 0 <= i < st2.books.len() && #[trigger] st2.books[i] is Some implies book_consistent(
        st2.books[i].unwrap(),
        i,
        no,
    ) by {
        if i != idx {
            let bi = st.books[i].unwrap();
            assert forall|x: OrderId|
                st.orders.contains_key(x) && st.orders[x].symbol_id == i && #[trigger] queued_in(bi, st.orders[x]) implies no.contains_key(x)
                    && no[x] == st.orders[x] by {
                if x == o1.id {
                    assert(st.orders[x].symbol_id == idx);
                }
            }
            lemma_book_frame(bi, i, st.orders, no);
        }
    }
    if o.leaves_quantity == 0 {
        assert(st2.book_of(o.symbol_id as int) == Some(nb));
        let no2 = no.remove(o1.id);
        assert forall|id: OrderId| #[trigger] no2.contains_key(id) implies order_ok(no2[id]) by {
            assert(no2[id] == st.orders[id]);
        }
        assert forall|id: OrderId| #[trigger] no.contains_key(id) && id != o1.id implies order_ok(no[id]) by {
            assert(no[id] == st.orders[id]);
        }
        assert forall|id: OrderId|
            no.contains_key(id) && #[trigger] st2.is_queued(no[id]) implies no2.contains_key(id) && no2[id] == no[id] by {
            if id == o1.id {
                assert(no[id] == o);
            }
        }
        lemma_orders_change_books(st2, no2);
    } else {
        assert forall|id: OrderId| #[trigger] no.contains_key(id) implies order_ok(no[id]) by {
            if id != o1.id {
                assert(no[id] == st.orders[id]);
            }
        }
    }
}

/// Like `lemma_orders_change`, for a state whose books are consistent but whose orders
/// need not all be live.
proof fn lemma_orders_change_books(st: MarketState, orders: Map<OrderId, Order>)
    requires
        st.orders.dom().finite(),
        keyed_by_id(st.orders),
        st.symbols.len() <= 0x1_0000_0000,
        st.books.len() <= 0x1_0000_0000,
        forall|i: int| 0 <= i < st.symbols.len() && #[trigger] st.symbols[i] is Some ==> st.symbols[i].unwrap().id == i,
        forall|i: int|
            0 <= i < st.books.len() && #[trigger] st.books[i] is Some ==> st.books[i].unwrap().symbol.id == i
                && book_consistent(st.books[i].unwrap(), i, st.orders),
        orders.dom().finite(),
        keyed_by_id(orders),
        forall|id: OrderId| #[trigger] orders.contains_key(id) ==> order_ok(orders[id]),
        forall|id: OrderId|
            st.orders.contains_key(id) && #[trigger] st.is_queued(st.orders[id]) ==> orders.contains_key(id)
                && orders[id] == st.orders[id],
    ensures
        (MarketState { orders, ..st }).wf(),
{
    assert forall|i: int| 0 <= i < st.books.len() && #[trigger] st.books[i] is Some implies book_consistent(
        st.books[i].unwrap(),
        i,
        orders,
    ) by {
        let b = st.books[i].unwrap();
        assert forall|id: OrderId|
            st.orders.contains_key(id) && st.orders[id].symbol_id == i && #[trigger] queued_in(b, st.orders[id]) implies orders.contains_key(id)
                && orders[id] == st.orders[id] by {
            assert(st.book_of(st.orders[id].symbol_id as int) == Some(b));
            assert(st.is_queued(st.orders[id]));
        }
        lemma_book_frame(b, i, st.orders, orders);
    }
}

/// Two books with the same levels are consistent together.
proof fn lemma_same_levels_consistent(b: BookState, nb: BookState, sym: int, orders: Map<OrderId, Order>)
    requires
        book_consistent(b, sym, orders),
        nb.bids == b.bids,
        nb.asks == b.asks,
        nb.buy_stop == b.buy_stop,
        nb.sell_stop == b.sell_stop,
        nb.trailing_buy_stop == b.trailing_buy_stop,
        nb.trailing_sell_stop == b.trailing_sell_stop,
    ensures
        book_consistent(nb, sym, orders),
{
    assert forall|s: BookSide| #[trigger] nb.side(s) == b.side(s) by {
    }
}

/// An order that is not held is not queued.
proof fn lemma_not_held_not_queued(st: MarketState, o: Order)
    requires
        st.wf(),
        !st.orders.contains_key(o.id),
    ensures
        !st.is_queued(o),
{
    if st.is_queued(o) {
        let b = st.book_of(o.symbol_id as int).unwrap();
        let s = resting_side(o).unwrap();
        let k = resting_key(o);
        assert(b.side(s).contains_key(k));
        assert(book_consistent(b, o.symbol_id as int, st.orders));
        let l = b.side(s)[k];
        let j = choose|j: int| 0 <= j < l.queue.len() && l.queue[j] == o.id;
        assert(crate::matching::consistency::rests_at(st.orders, l.queue[j], s, k, o.symbol_id as int));
    }
}

/// A held order that is not queued at its own level is queued nowhere: no record of any
/// book's queue names it.
proof fn lemma_not_queued_anywhere(st: MarketState, id: OrderId)
    requires
        st.wf(),
        st.orders.contains_key(id),
        !st.is_queued(st.orders[id]),
    ensures
        forall|x: OrderId| st.orders.contains_key(x) && #[trigger] st.is_queued(st.orders[x]) ==> x != id,
{
}

proof fn lemma_book_views_update(v: Seq<Option<OrderBook>>, i: int, b: Option<OrderBook>)
    requires
        0 <= i < v.len(),
    ensures
        book_views(v.update(i, b)) == book_views(v).update(i, match b {
            Some(x) => Some(x@),
            None => None,
        }),
{
    assert(book_views(v.update(i, b)) =~= book_views(v).update(i, match b {
        Some(x) => Some(x@),
        None => None,
    }));
}

/// Setting a collection of a book to what it already holds gives the book back.
proof fn lemma_with_own_side(b: BookState, s: BookSide)
    ensures
        b.with_side(s, b.side(s)) == b,
{
}

/// Changes confined to one collection of one book compose.
proof fn lemma_only_side_trans(c: MarketState, b: MarketState, a: MarketState, sym: int, s: BookSide)
    requires
        only_side_changed(c, b, sym, s),
        only_side_changed(b, a, sym, s),
    ensures
        only_side_changed(c, a, sym, s),
{
    assert forall|j: int| 0 <= j < a.books.len() implies #[trigger] c.books[j] == (if j == sym && a.books[j] is Some {
        Some(a.books[j].unwrap().with_side(s, c.books[j].unwrap().side(s)))
    } else {
        a.books[j]
    }) by {
        assert(b.books[j] == (if j == sym && a.books[j] is Some {
            Some(a.books[j].unwrap().with_side(s, b.books[j].unwrap().side(s)))
        } else {
            a.books[j]
        }));
        assert(c.books[j] == (if j == sym && b.books[j] is Some {
            Some(b.books[j].unwrap().with_side(s, c.books[j].unwrap().side(s)))
        } else {
            b.books[j]
        }));
    }
}

/// A change confined to a trailing collection of a book leaves its plain stop triggers and
/// its market prices as they were.
proof fn lemma_trailing_change_keeps_triggers(after: MarketState, before: MarketState, sym: int, s: BookSide)
    requires
        only_side_changed(after, before, sym, s),
        s == BookSide::TrailingBuyStop || s == BookSide::TrailingSellStop,
    ensures
        forall|is_buy: bool, p: u64| #[trigger] triggered(after, sym, is_buy, false, p) == triggered(before, sym, is_buy, false, p),
        market_ask_of(after, sym) == market_ask_of(before, sym),
        market_bid_of(after, sym) == market_bid_of(before, sym),
{
    if 0 <= sym < before.books.len() {
        assert(after.books[sym] == (if before.books[sym] is Some {
            Some(before.books[sym].unwrap().with_side(s, after.books[sym].unwrap().side(s)))
        } else {
            before.books[sym]
        }));
        if before.books[sym] is Some {
            let a = after.books[sym].unwrap();
            let b = before.books[sym].unwrap();
            assert(a.bids == b.bids && a.asks == b.asks && a.buy_stop == b.buy_stop && a.sell_stop == b.sell_stop);
            assert forall|is_buy: bool, p: u64| #[trigger] triggered(after, sym, is_buy, false, p) == triggered(
                before,
                sym,
                is_buy,
                false,
                p,
            ) by {
                assert(a.side(stop_collection(is_buy, false)) == b.side(stop_collection(is_buy, false)));
            }
        }
    }
}

/// Orders that keep their ids and their types keep the set of waiting stop orders.
proof fn lemma_same_types_stop_held(after: Map<OrderId, Order>, before: Map<OrderId, Order>)
    requires
        after.dom() == before.dom(),
        forall|id: OrderId| #[trigger] after.contains_key(id) ==> after[id].order_type == before[id].order_type,
    ensures
        stop_held(after) == stop_held(before),
{
    assert(stop_held(after) =~= stop_held(before));
}

/// A run of fills of an incoming buy order (or sell order) from the opposing side, each at
/// the price of the level it takes from; `reset`: see `fill_step`.
pub open spec fn incoming_run(
    states: Seq<MarketState>,
    rems: Seq<u64>,
    start: MarketState,
    end: MarketState,
    sym: int,
    is_buy: bool,
    limit: Option<u64>,
    reset: bool,
) -> bool {
    fill_run(states, rems, start, end, sym, !is_buy, limit, None, reset)
}

/// The two runs of a matching chain of `volume` in the book of `sym`: `volume` is taken from
/// the bid side front by front, then `volume` from the ask side, each side until the volume is
/// taken or the side is empty, every fill at `price`.
pub open spec fn chain_runs(
    s1: Seq<MarketState>,
    r1: Seq<u64>,
    s2: Seq<MarketState>,
    r2: Seq<u64>,
    start: MarketState,
    end: MarketState,
    sym: int,
    volume: u64,
    price: u64,
) -> bool {
    &&& s2.len() > 0
    &&& fill_run(s1, r1, start, s2[0], sym, true, None, Some(price), false)
    &&& fill_run(s2, r2, s2[0], end, sym, false, None, Some(price), false)
    &&& r1[0] == volume && r2[0] == volume
    &&& (r1.last() == 0 || front_of(s2[0], sym, true) is None)
    &&& (r2.last() == 0 || front_of(end, sym, false) is None)
}

/// The state after the front bid and the front ask of the book of `sym` cross: the order with
/// the smaller remaining quantity (the bid on a tie) executes all of it at its own price and
/// leaves; then the other executes the same quantity at that price and gives it up in place;
/// each execution sets the last and matching price of its side, and the book's matching
/// prices are cleared at the end.
pub open spec fn crossed_at(st: MarketState, sym: int) -> MarketState {
    let x = front_of(st, sym, true).unwrap();
    let y = front_of(st, sym, false).unwrap();
    let bo = st.orders[x];
    let ao = st.orders[y];
    let e = if bo.leaves_quantity > ao.leaves_quantity { ao } else { bo };
    let rid = if bo.leaves_quantity > ao.leaves_quantity { x } else { y };
    let s1 = priced_at(st, sym, e.spec_is_buy(), e.price);
    let s2 = MarketState { orders: s1.orders.remove(e.id), books: unbooked_books(s1, e.id), ..s1 };
    let s3 = priced_at(s2, sym, s2.orders[rid].spec_is_buy(), e.price);
    unmatched_at(reduced_at(s3, rid, e.leaves_quantity), sym)
}

/// A crossing round of the book of `sym` between two orders that are not all-or-none: the
/// front bid and the front ask of the best levels, whose prices cross, trade the smaller of
/// their remaining quantities; the order with the smaller one (the bid on a tie) trades all of
/// it and is no longer held, the other loses the same quantity. The state after it is
/// `crossed_at`.
pub open spec fn cross_round(before: MarketState, after: MarketState, sym: int) -> bool {
    match (front_of(before, sym, true), front_of(before, sym, false)) {
        (Some(x), Some(y)) => {
            let b = before.book_of(sym).unwrap();
            let bo = before.orders[x];
            let ao = before.orders[y];
            &&& best_key(b.bids, true) >= best_key(b.asks, false)
            &&& before.orders.contains_key(x) && before.orders.contains_key(y)
            &&& bo.time_in_force != OrderTimeInForce::Aon && ao.time_in_force != OrderTimeInForce::Aon
            &&& after.orders == (if bo.leaves_quantity > ao.leaves_quantity {
                reduced_orders(before.orders.remove(y), x, ao.leaves_quantity)
            } else {
                reduced_orders(before.orders.remove(x), y, bo.leaves_quantity)
            })
            &&& after == crossed_at(before, sym)
        },
        _ => false,
    }
}

/// The smaller of the remaining quantities of the front bid and the front ask of the book of
/// `sym`.
pub open spec fn fronts_volume(st: MarketState, sym: int) -> u64 {
    let bq = st.orders[front_of(st, sym, true).unwrap()].leaves_quantity;
    let aq = st.orders[front_of(st, sym, false).unwrap()].leaves_quantity;
    if bq < aq {
        bq
    } else {
        aq
    }
}

/// A crossing round of the book of `sym` with an all-or-none order at a front that can be
/// filled (see `aon_fillable`): a matching chain of the smaller of the two front orders'
/// remaining quantities runs.
pub open spec fn aon_round(before: MarketState, after: MarketState, sym: int) -> bool {
    &&& (match (front_of(before, sym, true), front_of(before, sym, false)) {
        (Some(x), Some(y)) => {
            let b = before.book_of(sym).unwrap();
            &&& best_key(b.bids, true) >= best_key(b.asks, false)
            &&& (before.orders[x].time_in_force == OrderTimeInForce::Aon || before.orders[y].time_in_force
                == OrderTimeInForce::Aon)
            &&& aon_fillable(before, sym)
        },
        _ => false,
    })
    &&& exists|s1: Seq<MarketState>, r1: Seq<u64>, s2: Seq<MarketState>, r2: Seq<u64>|
        #[trigger] chain_runs(
            s1,
            r1,
            s2,
            r2,
            before,
            after,
            sym,
            fronts_volume(before, sym),
            best_key(before.book_of(sym).unwrap().bids, true),
        )
}

/// The fills of a market order `o` from state `start`: without an opposing level nothing
/// trades; otherwise it takes from the opposing side, front by front in price-time order,
/// within the price `market_entry_price` gives, until `fills_end` lets it stop.
pub open spec fn market_fills(fills: Seq<MarketState>, rems: Seq<u64>, start: MarketState, sym: int, o: Order) -> bool {
    match market_entry_price(start, sym, o) {
        None => fills.len() == 1 && fills[0] == start,
        Some(p) => {
            &&& incoming_run(fills, rems, start, fills.last(), sym, o.spec_is_buy(), Some(p), resets_matching(o.time_in_force))
            &&& rems[0] == o.leaves_quantity
            &&& fills_end(fills, rems, start, sym, o, p)
        },
    }
}

/// The fills of a limit order `o` from state `start`: it takes from the opposing side, front
/// by front in price-time order, within its limit price, until `fills_end` lets it stop.
pub open spec fn limit_fills(fills: Seq<MarketState>, rems: Seq<u64>, start: MarketState, sym: int, o: Order) -> bool {
    &&& incoming_run(fills, rems, start, fills.last(), sym, o.spec_is_buy(), Some(o.price), resets_matching(o.time_in_force))
    &&& rems[0] == o.leaves_quantity
    &&& fills_end(fills, rems, start, sym, o, o.price)
}

/// Order `o` after its fills leave `left` of it: what it traded is added to its executed
/// quantity (saturating).
pub open spec fn rest_form(o: Order, left: u64) -> Order {
    Order { leaves_quantity: left, executed_quantity: grown(o.executed_quantity, o.leaves_quantity - left), ..o }
}

/// The state after order `o`, not held, comes to rest: it is held and, where its book can take
/// it, queued at its level.
pub open spec fn rested_at(st: MarketState, o: Order) -> MarketState {
    MarketState { orders: st.orders.insert(o.id, o), books: placed_books(st, o), ..st }
}

/// What is left of limit order `o` after its fills (state `matched`, with `left` remaining)
/// rests, unless nothing is or it is immediate-or-cancel or fill-or-kill: see `rested_at`.
pub open spec fn limit_rest(rested: MarketState, matched: MarketState, o: Order, left: u64) -> bool {
    if left > 0 && o.time_in_force != OrderTimeInForce::Ioc && o.time_in_force != OrderTimeInForce::Fok {
        rested == rested_at(matched, rest_form(o, left))
    } else {
        rested == matched
    }
}

/// The activation of held stop order `id` of the book of `sym` (state `removed`: it has
/// left its book and the held orders): a stop order trades as a market order, a stop-limit
/// order as a limit order whose remainder then rests.
pub open spec fn activation_at(
    removed: MarketState,
    fills: Seq<MarketState>,
    rems: Seq<u64>,
    before: MarketState,
    after: MarketState,
    sym: int,
    id: OrderId,
) -> bool {
    let o = before.orders[id];
    &&& removed.orders == before.orders.remove(id)
    &&& removed.books == unbooked_books(before, id)
    &&& if o.order_type == OrderType::Stop || o.order_type == OrderType::TrailingStop {
        market_fills(fills, rems, removed, sym, as_market(o)) && after == fills.last()
    } else {
        limit_fills(fills, rems, removed, sym, as_limit(o)) && limit_rest(after, fills.last(), as_limit(o), rems.last())
    }
}

/// Order `id` is activated from `before` to `after`: nothing happens unless it is a held stop
/// order; see `activation_at`.
pub open spec fn activation(before: MarketState, after: MarketState, sym: int, id: OrderId) -> bool {
    if before.orders.contains_key(id) && is_stop_kind(before.orders[id]) {
        exists|removed: MarketState, fills: Seq<MarketState>, rems: Seq<u64>|
            #[trigger] activation_at(removed, fills, rems, before, after, sym, id)
    } else {
        after == before
    }
}

/// Link `i` of a run of activations: order `ids[i]` is activated.
pub open spec fn activation_link(states: Seq<MarketState>, ids: Seq<OrderId>, sym: int, i: int) -> bool {
    activation(states[i], states[i + 1], sym, ids[i])
}

/// The orders `ids` are activated one after the other, from `start` to `end`.
pub open spec fn activations(states: Seq<MarketState>, ids: Seq<OrderId>, start: MarketState, end: MarketState, sym: int) -> bool {
    &&& states.len() == ids.len() + 1
    &&& states[0] == start
    &&& states.last() == end
    &&& forall|i: int| 0 <= i < ids.len() ==> #[trigger] activation_link(states, ids, sym, i)
}

/// A batch of activations: when the best level of a stop collection is reached by market
/// price `p` (see `triggered`), its queued orders are activated in queue order; otherwise
/// nothing happens.
pub open spec fn batch(before: MarketState, after: MarketState, sym: int, is_buy: bool, trailing: bool, p: u64) -> bool {
    &&& triggered(before, sym, is_buy, trailing, p) is None ==> after == before
    &&& triggered(before, sym, is_buy, trailing, p) is Some ==> exists|states: Seq<MarketState>|
        #[trigger] activations(states, triggered(before, sym, is_buy, trailing, p).unwrap(), before, after, sym)
}

/// The trailing stops of one side of the book of `sym` move as `trailing_move` gives, and
/// nothing else changes but that collection; when none moves, nothing changes.
pub open spec fn recalc_effect(before: MarketState, after: MarketState, sym: int, level_type: LevelType) -> bool {
    &&& after.orders.dom() == before.orders.dom()
    &&& forall|id: OrderId| #[trigger]
        after.orders.contains_key(id) ==> after.orders[id] == (match trailing_move(before, sym, level_type, id) {
            Some(p) => trailed(before.orders[id], p),
            None => before.orders[id],
        })
    &&& only_side_changed(after, before, sym, trailing_collection(level_type))
    &&& after.symbols == before.symbols && after.matching == before.matching
    &&& (forall|id: OrderId| #[trigger] trailing_move(before, sym, level_type, id) is None) ==> after == before
}

/// One round of stop activation of the book of `sym` from `s0`: the buy stops and then the
/// trailing buy stops reached by the market ask price of `s0` are activated, the trailing buy
/// stops move, the sell stops and the trailing sell stops reached by the market bid price of
/// `s0` are activated, and the trailing sell stops move.
pub open spec fn round_at(
    s1: MarketState,
    s2: MarketState,
    s3: MarketState,
    s4: MarketState,
    s5: MarketState,
    s0: MarketState,
    s6: MarketState,
    sym: int,
) -> bool {
    let ask = market_ask_of(s0, sym);
    let bid = market_bid_of(s0, sym);
    &&& batch(s0, s1, sym, true, false, ask)
    &&& batch(s1, s2, sym, true, true, ask)
    &&& recalc_effect(s2, s3, sym, LevelType::Ask)
    &&& batch(s3, s4, sym, false, false, bid)
    &&& batch(s4, s5, sym, false, true, bid)
    &&& recalc_effect(s5, s6, sym, LevelType::Bid)
}

/// See `round_at`.
pub open spec fn round_step(before: MarketState, after: MarketState, sym: int) -> bool {
    exists|s1: MarketState, s2: MarketState, s3: MarketState, s4: MarketState, s5: MarketState|
        #[trigger] round_at(s1, s2, s3, s4, s5, before, after, sym)
}

/// Link `i` of a run of rounds of stop activation.
pub open spec fn round_link(states: Seq<MarketState>, sym: int, i: int) -> bool {
    round_step(states[i], states[i + 1], sym)
}

/// Step `i` of a run activates some stop order: fewer stop orders are held after it.
pub open spec fn activates(states: Seq<MarketState>, i: int) -> bool {
    stop_held(states[i + 1].orders).len() < stop_held(states[i].orders).len()
}

/// Rounds of stop activation from `start` to `end`: every round but the last activates some
/// stop order, and the last activates none.
pub open spec fn rounds(states: Seq<MarketState>, start: MarketState, end: MarketState, sym: int) -> bool {
    &&& states.len() > 1
    &&& states[0] == start
    &&& states.last() == end
    &&& forall|i: int| 0 <= i < states.len() - 1 ==> #[trigger] round_link(states, sym, i)
    &&& forall|i: int| 0 <= i < states.len() - 2 ==> #[trigger] activates(states, i)
    &&& stop_held(end.orders) == stop_held(states[states.len() - 2].orders)
}

/// A plain stop activation of the book of `sym` from `before`: the buy stops reached by its
/// market ask price, then the sell stops reached by its market bid price, are activated.
pub open spec fn plain_round(before: MarketState, after: MarketState, sym: int) -> bool {
    exists|mid: MarketState|
        #[trigger] batch(before, mid, sym, true, false, market_ask_of(before, sym)) && batch(
            mid,
            after,
            sym,
            false,
            false,
            market_bid_of(before, sym),
        )
}

/// A stop step of the book of `sym`: a plain stop activation (`plain_round`), or rounds of
/// stop activation until one activates nothing (`rounds`).
pub open spec fn stop_step(before: MarketState, after: MarketState, sym: int) -> bool {
    &&& evolves(after, before)
    &&& (plain_round(before, after, sym) || exists|states: Seq<MarketState>| #[trigger] rounds(states, before, after, sym))
}

/// Link `i` of a run of the book matching of `sym`.
pub open spec fn book_link(states: Seq<MarketState>, sym: int, i: int) -> bool {
    ||| cross_round(states[i], states[i + 1], sym)
    ||| aon_round(states[i], states[i + 1], sym)
    ||| stop_step(states[i], states[i + 1], sym)
}

/// A run of the book matching of `sym` from `start` to `end`: crossing rounds and stop steps.
pub open spec fn book_run(states: Seq<MarketState>, start: MarketState, end: MarketState, sym: int) -> bool {
    &&& states.len() > 0
    &&& states[0] == start
    &&& states.last() == end
    &&& forall|i: int| 0 <= i < states.len() - 1 ==> #[trigger] book_link(states, sym, i)
}

/// The side totals that an all-or-none front needs: the total volume of the bid levels (or
/// ask levels) of the book, capped at `u64::MAX`.
pub open spec fn side_total(b: BookState, bid_side: bool) -> u64 {
    let m = if bid_side { b.bids } else { b.asks };
    let v = levels_volume(m, m.dom());
    if v > u64::MAX { u64::MAX } else { v as u64 }
}

/// An all-or-none front of the book of `sym` can be filled: each all-or-none front order's
/// remaining quantity is within the total volume of the other side.
pub open spec fn aon_fillable(st: MarketState, sym: int) -> bool {
    let b = st.book_of(sym).unwrap();
    let bo = st.orders[front_of(st, sym, true).unwrap()];
    let ao = st.orders[front_of(st, sym, false).unwrap()];
    let bid_aon = bo.time_in_force == OrderTimeInForce::Aon;
    let ask_aon = ao.time_in_force == OrderTimeInForce::Aon;
    if bid_aon && ask_aon {
        bo.leaves_quantity <= side_total(b, false) && ao.leaves_quantity <= side_total(b, true)
    } else if bid_aon {
        bo.leaves_quantity <= side_total(b, false)
    } else {
        ao.leaves_quantity <= side_total(b, true)
    }
}

/// No crossing round applies to the book of `sym`: a side is empty, the best bid is below the
/// best ask, or an all-or-none front cannot be filled.
pub open spec fn cross_settled(st: MarketState, sym: int) -> bool {
    match (front_of(st, sym, true), front_of(st, sym, false)) {
        (Some(x), Some(y)) => {
            let b = st.book_of(sym).unwrap();
            ||| best_key(b.bids, true) < best_key(b.asks, false)
            ||| (st.orders[x].time_in_force == OrderTimeInForce::Aon || st.orders[y].time_in_force
                == OrderTimeInForce::Aon) && !aon_fillable(st, sym)
        },
        _ => true,
    }
}

/// Link `i` of a run of the book matching is a stop step.
pub open spec fn stop_link(states: Seq<MarketState>, sym: int, i: int) -> bool {
    stop_step(states[i], states[i + 1], sym)
}

/// Link `i` of the first phase of a book matching: a crossing round (`cross_round` or
/// `aon_round`) at even steps, each followed by a plain stop activation (`plain_round`).
pub open spec fn phase_link(states: Seq<MarketState>, sym: int, i: int) -> bool {
    if i % 2 == 0 {
        cross_round(states[i], states[i + 1], sym) || aon_round(states[i], states[i + 1], sym)
    } else {
        plain_round(states[i], states[i + 1], sym)
    }
}

/// Link `i` of the second phase of a book matching: rounds of stop activation.
pub open spec fn rounds_link(states: Seq<MarketState>, sym: int, i: int) -> bool {
    exists|rs: Seq<MarketState>| #[trigger] rounds(rs, states[i], states[i + 1], sym)
}

/// A run of the book matching of `sym` that ends settled. In its first phase, up to state `k`,
/// crossing rounds alternate with plain stop activations (`phase_link`); state `k` is the
/// first state of an even step where no crossing round applies (`cross_settled`). In its
/// second phase, rounds of stop activation follow (`rounds_link`), every one but the last
/// activating some stop order, until one activates none; at the end no plain stop level is
/// reached by the market (see `triggered`).
pub open spec fn book_settled(states: Seq<MarketState>, k: int, start: MarketState, end: MarketState, sym: int) -> bool {
    &&& book_run(states, start, end, sym)
    &&& 0 <= k < states.len() - 1
    &&& k % 2 == 0
    &&& forall|i: int| 0 <= i < k ==> #[trigger] phase_link(states, sym, i)
    &&& cross_settled(states[k], sym)
    &&& forall|i: int| k <= i < states.len() - 1 ==> #[trigger] stop_link(states, sym, i)
    &&& forall|i: int| k <= i < states.len() - 1 ==> #[trigger] rounds_link(states, sym, i)
    &&& forall|i: int| k <= i < states.len() - 2 ==> #[trigger] activates(states, i)
    &&& stop_held(end.orders) == stop_held(states[states.len() - 2].orders)
    &&& triggered(end, sym, true, false, market_ask_of(end, sym)) is None
    &&& triggered(end, sym, false, false, market_bid_of(end, sym)) is None
}

/// See `book_settled`.
pub open spec fn settled_run(states: Seq<MarketState>, start: MarketState, end: MarketState, sym: int) -> bool {
    exists|k: int| #[trigger] book_settled(states, k, start, end, sym)
}

/// A run of the book matching grows by one link.
proof fn lemma_book_run_extend(states: Seq<MarketState>, start: MarketState, mid: MarketState, end: MarketState, sym: int)
    requires
        book_run(states, start, mid, sym),
        cross_round(mid, end, sym) || aon_round(mid, end, sym) || stop_step(mid, end, sym),
    ensures
        book_run(states.push(end), start, end, sym),
{
    let s2 = states.push(end);
    assert forall|i: int| 0 <= i < s2.len() - 1 implies #[trigger] book_link(s2, sym, i) by {
        if i < states.len() - 1 {
            assert(book_link(states, sym, i));
            assert(s2[i] == states[i] && s2[i + 1] == states[i + 1]);
        } else {
            assert(s2[i] == mid && s2[i + 1] == end);
        }
    }
}

/// The run of the book matching of symbol `j`: nothing happens where there is no book, and
/// otherwise a run that ends settled (see `settled_run`).
pub open spec fn book_matched(run: Seq<MarketState>, j: int) -> bool {
    if run.len() > 0 && run[0].book_of(j) is None {
        run.len() == 1
    } else {
        settled_run(run, run[0], run.last(), j)
    }
}

/// Link `j` of a matching of every book: the run of book `j` ends where that of book `j + 1`
/// starts.
pub open spec fn books_link(runs: Seq<Seq<MarketState>>, j: int) -> bool {
    runs[j].last() == runs[j + 1][0]
}

/// A matching of every book of `start`, one book after the other in the order of their
/// symbols, from `start` to `end`.
pub open spec fn books_run(runs: Seq<Seq<MarketState>>, start: MarketState, end: MarketState) -> bool {
    &&& runs.len() == start.books.len()
    &&& forall|j: int| 0 <= j < runs.len() ==> #[trigger] book_matched(runs[j], j)
    &&& forall|j: int| 0 <= j < runs.len() - 1 ==> #[trigger] books_link(runs, j)
    &&& runs.len() == 0 ==> end == start
    &&& runs.len() > 0 ==> runs[0][0] == start && runs.last().last() == end
}

/// The state with matching switched on.
pub open spec fn matching_on(st: MarketState) -> MarketState {
    MarketState { matching: true, ..st }
}

/// The book of the order's symbol exists and its level for the order can take it.
pub open spec fn placeable(st: MarketState, o: Order) -> bool {
    match st.book_of(o.symbol_id as int) {
        Some(b) => can_add(b.side(resting_side(o).unwrap()), resting_key(o), o),
        None => false,
    }
}

/// A book matching of `sym` from state `from` (see `settled_run`), after which the book's
/// matching prices are cleared, giving `end`.
pub open spec fn book_match(run: Seq<MarketState>, from: MarketState, end: MarketState, sym: int) -> bool {
    &&& settled_run(run, from, run.last(), sym)
    &&& end == unmatched_at(run.last(), sym)
}

/// How the fills of an incoming order `o` at limit price `limit` end: the run stops only where
/// `incoming_done` allows, and a fill-or-kill or all-or-none order either fills completely,
/// when the opposing levels within its limit hold its remaining quantity, or takes nothing.
pub open spec fn fills_end(fills: Seq<MarketState>, rems: Seq<u64>, start: MarketState, sym: int, o: Order, limit: u64) -> bool {
    let po = Order { price: limit, ..o };
    &&& incoming_done(fills.last(), sym, po, limit, rems.last())
    &&& whole_or_nothing(o.time_in_force) && o.leaves_quantity > 0 ==> if fills_at_once(start, sym, po) {
        rems.last() == 0
    } else {
        fills.last() == start && rems.last() == o.leaves_quantity
    }
}

/// How a limit order `o` enters a market with matching, from `start` to `end`, answering `r`:
/// it first takes from the opposing side, front by front in price-time order, within its
/// limit price (state `fills.last()`, with `rems.last()` left), until `fills_end` lets it
/// stop. What is left of it, unless nothing is or it is immediate-or-cancel or fill-or-kill,
/// then rests: when its id is already held, the answer is `OrderDuplicate` and nothing more
/// happens; otherwise it is held with that remaining quantity and queued at its price where
/// its book can take it (state `rested`). Then the book is matched (`run`).
pub open spec fn limit_entry_at(
    fills: Seq<MarketState>,
    rems: Seq<u64>,
    rested: MarketState,
    run: Seq<MarketState>,
    start: MarketState,
    end: MarketState,
    o: Order,
    r: Result<()>,
) -> bool {
    let sym = o.symbol_id as int;
    let matched = fills.last();
    &&& incoming_run(fills, rems, start, matched, sym, o.spec_is_buy(), Some(o.price), resets_matching(o.time_in_force))
    &&& rems[0] == o.leaves_quantity
    &&& fills_end(fills, rems, start, sym, o, o.price)
    &&& if rems.last() > 0 && o.time_in_force != OrderTimeInForce::Ioc && o.time_in_force != OrderTimeInForce::Fok {
        if matched.orders.contains_key(o.id) {
            r == Err::<(), ErrorCode>(ErrorCode::OrderDuplicate) && end == matched
        } else {
            &&& r is Ok
            &&& rested == rested_at(matched, rest_form(o, rems.last()))
            &&& book_match(run, rested, end, sym)
        }
    } else {
        &&& r is Ok
        &&& rested == matched
        &&& book_match(run, rested, end, sym)
    }
}

/// A limit order enters a market with matching: see `limit_entry_at`.
pub open spec fn limit_entry(start: MarketState, end: MarketState, o: Order, r: Result<()>) -> bool {
    exists|fills: Seq<MarketState>, rems: Seq<u64>, rested: MarketState, run: Seq<MarketState>|
        #[trigger] limit_entry_at(fills, rems, rested, run, start, end, o, r)
}

/// The market has reached the stop price of order `o`: the market ask price for a buy stop,
/// the market bid price for a sell stop.
pub open spec fn stop_fires(st: MarketState, o: Order) -> bool {
    if o.spec_is_buy() {
        o.stop_price <= market_ask_of(st, o.symbol_id as int)
    } else {
        o.stop_price >= market_bid_of(st, o.symbol_id as int)
    }
}

/// A triggered stop order as the market order it becomes: no price, no stop price, and
/// immediate-or-cancel unless it is fill-or-kill.
pub open spec fn as_market(o: Order) -> Order {
    Order {
        order_type: OrderType::Market,
        price: 0,
        stop_price: 0,
        time_in_force: if o.time_in_force == OrderTimeInForce::Fok {
            OrderTimeInForce::Fok
        } else {
            OrderTimeInForce::Ioc
        },
        ..o
    }
}

/// A triggered stop-limit order as the limit order it becomes.
pub open spec fn as_limit(o: Order) -> Order {
    Order { order_type: OrderType::Limit, stop_price: 0, ..o }
}

/// How a market order `o` enters a market with matching, from `start` to `end`: without an
/// opposing level nothing trades; otherwise it takes from the opposing side, front by front
/// in price-time order, within the price `market_entry_price` gives (state `fills.last()`),
/// until `fills_end` lets it stop. What is left of it is dropped, and the book is matched
/// (`run`).
pub open spec fn market_entry_at(
    fills: Seq<MarketState>,
    rems: Seq<u64>,
    run: Seq<MarketState>,
    start: MarketState,
    end: MarketState,
    o: Order,
) -> bool {
    let sym = o.symbol_id as int;
    &&& (match market_entry_price(start, sym, o) {
        None => fills.len() == 1 && fills[0] == start,
        Some(p) => {
            &&& incoming_run(fills, rems, start, fills.last(), sym, o.spec_is_buy(), Some(p), resets_matching(o.time_in_force))
            &&& rems[0] == o.leaves_quantity
            &&& fills_end(fills, rems, start, sym, o, p)
        },
    })
    &&& book_match(run, fills.last(), end, sym)
}

/// A market order enters a market with matching: see `market_entry_at`.
pub open spec fn market_entry(start: MarketState, end: MarketState, o: Order) -> bool {
    exists|fills: Seq<MarketState>, rems: Seq<u64>, run: Seq<MarketState>|
        #[trigger] market_entry_at(fills, rems, run, start, end, o)
}

/// A stop order `e` that has not triggered rests (state `rested`, see `rested_at`); then the
/// book is matched (`run`).
pub open spec fn stop_rest_at(rested: MarketState, run: Seq<MarketState>, start: MarketState, end: MarketState, e: Order) -> bool {
    &&& rested == rested_at(start, e)
    &&& book_match(run, rested, end, e.symbol_id as int)
}

/// How a stop order `o` enters a market with matching, from `start` to `end`, answering `r`.
/// In its entry form `e` (a trailing order first follows the market), when the market has
/// reached its stop price, a stop order trades as a market order and a stop-limit order as a
/// limit order; otherwise it rests, unless its id is already held, which is answered
/// `OrderDuplicate` with nothing changed.
pub open spec fn stop_entry(start: MarketState, end: MarketState, o: Order, r: Result<()>) -> bool {
    let e = entry_form(start, o);
    if stop_fires(start, e) {
        if o.order_type == OrderType::StopLimit || o.order_type == OrderType::TrailingStopLimit {
            limit_entry(start, end, as_limit(e), r)
        } else {
            r is Ok && market_entry(start, end, as_market(e))
        }
    } else if start.orders.contains_key(o.id) {
        r == Err::<(), ErrorCode>(ErrorCode::OrderDuplicate) && end == start
    } else {
        r is Ok && exists|rested: MarketState, run: Seq<MarketState>| #[trigger] stop_rest_at(rested, run, start, end, e)
    }
}

/// The state `from` that an operation leaves is then matched in the book of `sym`, giving
/// `end`: see `book_match`.
pub open spec fn matched_after(from: MarketState, end: MarketState, sym: int) -> bool {
    exists|run: Seq<MarketState>| #[trigger] book_match(run, from, end, sym)
}

/// Held order `id` of state `pre`, not queued, first takes from the opposing side of the book
/// of `sym`, front by front within its price (state `fills.last()`); its new quantities are
/// stored (held orders `stored`; an order left with nothing is no longer held) and it leaves
/// its level where it is queued; what is left of it is queued again where its book can take
/// it; then the book is matched.
pub open spec fn rematched_at(
    fills: Seq<MarketState>,
    rems: Seq<u64>,
    stored: Map<OrderId, Order>,
    run: Seq<MarketState>,
    pre: MarketState,
    id: OrderId,
    end: MarketState,
    sym: int,
) -> bool {
    let o = pre.orders[id];
    let post = fills.last();
    let kept = MarketState { orders: stored, books: unbooked_books(post, id), ..post };
    &&& incoming_run(fills, rems, pre, post, sym, o.spec_is_buy(), Some(o.price), resets_matching(o.time_in_force))
    &&& rems[0] == o.leaves_quantity
    &&& stored == (if post.orders.contains_key(id) {
        if rems.last() > 0 {
            post.orders.insert(
                id,
                Order {
                    leaves_quantity: rems.last(),
                    executed_quantity: grown(o.executed_quantity, o.leaves_quantity - rems.last()),
                    ..post.orders[id]
                },
            )
        } else {
            post.orders.remove(id)
        }
    } else {
        post.orders
    })
    &&& book_match(
        run,
        if post.orders.contains_key(id) {
            if stored.contains_key(id) {
                MarketState { books: placed_books(kept, stored[id]), ..kept }
            } else {
                kept
            }
        } else {
            post
        },
        end,
        sym,
    )
}

/// See `rematched_at`.
pub open spec fn rematched(pre: MarketState, id: OrderId, end: MarketState, sym: int) -> bool {
    exists|fills: Seq<MarketState>, rems: Seq<u64>, stored: Map<OrderId, Order>, run: Seq<MarketState>|
        #[trigger] rematched_at(fills, rems, stored, run, pre, id, end, sym)
}

/// The state after held order `id` leaves its level, where it is queued, and the held orders.
pub open spec fn removed_at(st: MarketState, id: OrderId) -> MarketState {
    MarketState { orders: st.orders.remove(id), books: unbooked_books(st, id), ..st }
}

/// The state after held order `id` takes its form in held orders `m`: it leaves its level,
/// where it is queued, and joins its new one where its book can take it; when `m` no longer
/// holds it, it leaves the held orders too.
pub open spec fn modified_at(st: MarketState, id: OrderId, m: Map<OrderId, Order>) -> MarketState {
    if m.contains_key(id) {
        let u = MarketState { orders: m, books: unbooked_books(st, id), ..st };
        MarketState { books: placed_books(u, m[id]), ..u }
    } else {
        removed_at(st, id)
    }
}

/// The remaining quantity that an execution or reduction of `quantity` takes from `o`: at most
/// all of it.
pub open spec fn clipped(o: Order, quantity: u64) -> u64 {
    if quantity < o.leaves_quantity {
        quantity
    } else {
        o.leaves_quantity
    }
}

/// The books after held order `id` leaves its level, where it is queued.
pub open spec fn unbooked_books(st: MarketState, id: OrderId) -> Seq<Option<BookState>> {
    let o = st.orders[id];
    let sym = o.symbol_id as int;
    if st.is_queued(o) {
        st.books.update(
            sym,
            Some(
                st.book_of(sym).unwrap().after_remove(
                    resting_side(o).unwrap(),
                    resting_key(o),
                    id,
                    o.leaves_quantity,
                    o.hidden(),
                    o.visible(),
                    true,
                ),
            ),
        )
    } else {
        st.books
    }
}

/// The books after order `o` joins its level, where its book can take it.
pub open spec fn placed_books(st: MarketState, o: Order) -> Seq<Option<BookState>> {
    let sym = o.symbol_id as int;
    if placeable(st, o) {
        st.books.update(sym, Some(st.book_of(sym).unwrap().after_add(resting_side(o).unwrap(), resting_key(o), o)))
    } else {
        st.books
    }
}

/// The books with the matching prices of the book of `sym`, where there is one, cleared.
pub open spec fn reset_books(books: Seq<Option<BookState>>, sym: int) -> Seq<Option<BookState>> {
    match slot(books, sym) {
        Some(b) => books.update(sym, Some(unmatched_book(b))),
        None => books,
    }
}

/// Where a run of fills of incoming order `o`, with limit price `limit` and `left` still
/// wanted, may stop in state `st`: nothing is wanted any more; the order trades whole or not
/// at all (its own clause says which); the opposing side of the book of `sym` is empty; its
/// best price is beyond the limit; or its front order is all-or-none and wants more than is
/// left.
pub open spec fn incoming_done(st: MarketState, sym: int, o: Order, limit: u64, left: u64) -> bool {
    ||| left == 0
    ||| whole_or_nothing(o.time_in_force)
    ||| match front_of(st, sym, !o.spec_is_buy()) {
        None => true,
        Some(id) => {
            let b = st.book_of(sym).unwrap();
            let m = if o.spec_is_buy() { b.asks } else { b.bids };
            ||| !within(o.spec_is_buy(), limit, best_key(m, !o.spec_is_buy()))
            ||| (st.orders[id].time_in_force == OrderTimeInForce::Aon && st.orders[id].leaves_quantity > left)
        },
    }
}

/// The notification that an order's change hands the handler: an update while it has
/// something left, a deletion otherwise.
pub open spec fn change_notice(o: Order) -> Notice {
    if o.leaves_quantity > 0 {
        Notice::UpdateOrder(o)
    } else {
        Notice::DeleteOrder(o)
    }
}

/// Order `o` after `quantity` (at most all of it) leaves it.
pub open spec fn reduced_order(o: Order, quantity: u64) -> Order {
    let q = if quantity < o.leaves_quantity { quantity } else { o.leaves_quantity };
    Order { leaves_quantity: (o.leaves_quantity - q) as u64, ..o }
}

/// The notifications of an execution of `quantity` (at most all) of order `o` at `price`.
pub open spec fn execute_notices(o: Order, price: u64, quantity: u64) -> Seq<Notice> {
    let q = if quantity < o.leaves_quantity { quantity } else { o.leaves_quantity };
    let e = Order {
        executed_quantity: if o.executed_quantity + q > u64::MAX { u64::MAX } else { (o.executed_quantity + q) as u64 },
        leaves_quantity: (o.leaves_quantity - q) as u64,
        ..o
    };
    seq![Notice::ExecuteOrder(o, price, q), change_notice(e)]
}

/// A run of fills starts with nothing taken.
proof fn lemma_fill_run_start(st: MarketState, r: u64, sym: int, bid_side: bool, limit: Option<u64>, chain_price: Option<u64>, reset: bool)
    ensures
        fill_run(seq![st], seq![r], st, st, sym, bid_side, limit, chain_price, reset),
{
}

/// A run of fills grows by one link.
proof fn lemma_fill_run_extend(
    states: Seq<MarketState>,
    rems: Seq<u64>,
    start: MarketState,
    mid: MarketState,
    end: MarketState,
    sym: int,
    bid_side: bool,
    limit: Option<u64>,
    chain_price: Option<u64>,
    reset: bool,
    r: u64,
)
    requires
        fill_run(states, rems, start, mid, sym, bid_side, limit, chain_price, reset),
        r <= rems.last(),
        fill_step(mid, end, sym, bid_side, limit, rems.last(), (rems.last() - r) as u64, chain_price, reset) || (r
            == rems.last() && end == mid),
    ensures
        fill_run(states.push(end), rems.push(r), start, end, sym, bid_side, limit, chain_price, reset),
{
    let s2 = states.push(end);
    let r2 = rems.push(r);
    assert forall|i: int| 0 <= i < s2.len() - 1 implies #[trigger] fill_link(s2, r2, sym, bid_side, limit, chain_price, reset, i) by {
        if i < states.len() - 1 {
            assert(fill_link(states, rems, sym, bid_side, limit, chain_price, reset, i));
            assert(s2[i] == states[i] && s2[i + 1] == states[i + 1]);
            assert(r2[i] == rems[i] && r2[i + 1] == rems[i + 1]);
        } else {
            assert(s2[i] == mid && s2[i + 1] == end && r2[i] == rems.last() && r2[i + 1] == r);
        }
    }
}

/// Every level of every book of a well-formed manager queues at least one order, and its
/// total volume, the remaining quantity of its orders, splits into its hidden and its
/// visible volume.
pub proof fn lemma_level_volumes(st: MarketState, sym: int, s: BookSide, key: u64)
    requires
        st.wf(),
        st.book_of(sym) is Some,
        st.book_of(sym).unwrap().side(s).contains_key(key),
    ensures
        ({
            let l = st.book_of(sym).unwrap().side(s)[key];
            &&& l.level.orders == l.queue.len() > 0
            &&& l.level.total_volume == l.level.hidden_volume + l.level.visible_volume
        }),
{
    let l = st.book_of(sym).unwrap().side(s)[key];
    assert(level_consistent(l, s, key, sym, st.orders));
    crate::matching::consistency::lemma_sum_split(l.queue, st.orders);
}

/// Deleting a limit order right after it was accepted and rested, with matching off, gives
/// back the held orders and the books, but for the matching prices of the order's book,
/// which both operations clear: the clauses that `add_order` and `delete_order` state of
/// the held orders and the books, composed.
pub proof fn lemma_add_then_delete_order(before: MarketState, added: MarketState, after: MarketState, order: Order)
    requires
        before.wf(),
        order_ok(order),
        order.order_type == OrderType::Limit,
        !before.orders.contains_key(order.id),
        added.orders == before.orders.insert(order.id, order),
        added.books == reset_books(placed_books(before, order), order.symbol_id as int),
        after.orders == added.orders.remove(order.id),
        after.books == reset_books(unbooked_books(added, order.id), order.symbol_id as int),
    ensures
        after.orders == before.orders,
        after.books == reset_books(before.books, order.symbol_id as int),
{
    let sym = order.symbol_id as int;
    assert(after.orders =~= before.orders);
    assert(added.orders[order.id] == order);
    lemma_not_held_not_queued(before, order);
    if placeable(before, order) {
        let b = before.book_of(sym).unwrap();
        let side = resting_side(order).unwrap();
        let key = resting_key(order);
        let a = b.after_add(side, key, order);
        assert(added.books == before.books.update(sym, Some(unmatched_book(a))));
        assert(added.book_of(sym) == Some(unmatched_book(a)));
        assert(queued_in(a, order)) by {
            assert(a.side(side).contains_key(key));
            assert(a.side(side)[key].queue.last() == order.id);
        }
        assert(added.is_queued(order));
        if b.side(side).contains_key(key) {
            let l = b.side(side)[key];
            assert(before.books[sym] is Some);
            assert(level_consistent(l, side, key, sym, before.orders));
            crate::matching::consistency::lemma_sum_member(l.queue, before.orders, VolumePart::Leaves, 0);
            assert(rests_at(before.orders, l.queue[0], side, key, sym));
            assert(order_ok(before.orders[l.queue[0]]));
            if l.queue.contains(order.id) {
                let j = choose|j: int| 0 <= j < l.queue.len() && l.queue[j] == order.id;
                assert(rests_at(before.orders, l.queue[j], side, key, sym));
            }
        }
        crate::matching::order_book::lemma_add_then_delete(b, side, key, order);
        let removed = unmatched_book(a).after_remove(side, key, order.id, order.leaves_quantity, order.hidden(), order.visible(), true);
        assert(removed == unmatched_book(a.after_remove(side, key, order.id, order.leaves_quantity, order.hidden(), order.visible(), true)));
        assert(removed == unmatched_book(b));
        assert(after.books =~= before.books.update(sym, Some(unmatched_book(b))));
    } else {
        if before.book_of(sym) is Some {
            let b = before.book_of(sym).unwrap();
            assert(added.book_of(sym) == Some(unmatched_book(b)));
            assert(!queued_in(b, order));
            assert(!added.is_queued(order));
        } else {
            assert(added.books == before.books);
        }
        assert(after.books =~= reset_books(before.books, sym));
    }
}

// ---------------------------------------------------------------------------
//  Crossing lemmas
// ---------------------------------------------------------------------------

/// Books whose bid and ask levels only went away stay uncrossed.
proof fn lemma_within_keeps(after: MarketState, before: MarketState)
    requires
        limits_within(after, before, None),
    ensures
        keeps_uncrossed(after, before),
        forall|j: int| uncrossed_at(before, j) ==> #[trigger] uncrossed_at(after, j),
{
    assert forall|j: int| uncrossed_at(before, j) implies #[trigger] uncrossed_at(after, j) by {
        if after.book_of(j) is Some {
            let a = after.book_of(j).unwrap();
            let b = before.book_of(j).unwrap();
            assert forall|p: u64, q: u64| #[trigger] a.bids.contains_key(p) && #[trigger] a.asks.contains_key(q) implies p < q by {
                assert(b.bids.contains_key(p));
                assert(b.asks.contains_key(q));
            }
        }
    }
}

/// A limit order that reaches no opposing level keeps its book uncrossed when it opens a
/// level at its price.
proof fn lemma_opening_keeps(after: MarketState, before: MarketState, o: Order)
    requires
        limits_within(after, before, Some(o)),
        o.order_type == OrderType::Limit ==> clears_opposing(before, o.symbol_id as int, o),
    ensures
        keeps_uncrossed(after, before),
        forall|j: int| uncrossed_at(before, j) ==> #[trigger] uncrossed_at(after, j),
{
    assert forall|j: int| uncrossed_at(before, j) implies #[trigger] uncrossed_at(after, j) by {
        if after.book_of(j) is Some {
            let a = after.book_of(j).unwrap();
            let b = before.book_of(j).unwrap();
            assert forall|p: u64, q: u64| #[trigger] a.bids.contains_key(p) && #[trigger] a.asks.contains_key(q) implies p < q by {
                if b.bids.contains_key(p) && b.asks.contains_key(q) {
                } else if b.bids.contains_key(p) {
                    assert(b.asks.contains_key(q) || (o.order_type == OrderType::Limit && !o.spec_is_buy() && o.symbol_id == j && o.price == q));
                    assert(b.bids.contains_key(p));
                } else {
                    assert(o.order_type == OrderType::Limit && o.spec_is_buy() && o.symbol_id == j && o.price == p);
                    assert(b.asks.contains_key(q));
                }
            }
        }
    }
}

/// Only a limit order opens a bid or ask level.
proof fn lemma_within_nonlimit(after: MarketState, before: MarketState, o: Order)
    requires
        limits_within(after, before, Some(o)),
        o.order_type != OrderType::Limit,
    ensures
        limits_within(after, before, None),
{
    assert forall|j: int| #[trigger] after.book_of(j) is Some implies before.book_of(j) is Some && {
        let a = after.book_of(j).unwrap();
        let b = before.book_of(j).unwrap();
        &&& forall|k: u64| #[trigger] a.bids.contains_key(k) ==> b.bids.contains_key(k)
        &&& forall|k: u64| #[trigger] a.asks.contains_key(k) ==> b.asks.contains_key(k)
    } by {
        let a = after.book_of(j).unwrap();
        let b = before.book_of(j).unwrap();
        assert forall|k: u64| #[trigger] a.bids.contains_key(k) implies b.bids.contains_key(k) by {}
        assert forall|k: u64| #[trigger] a.asks.contains_key(k) implies b.asks.contains_key(k) by {}
    }
}

/// A price that reaches no opposing level still reaches none once levels went away.
proof fn lemma_clears_within(after: MarketState, before: MarketState, sym: int, o: Order)
    requires
        limits_within(after, before, None),
        clears_opposing(before, sym, o),
    ensures
        clears_opposing(after, sym, o),
{
    if after.book_of(sym) is Some {
        let a = after.book_of(sym).unwrap();
        let b = before.book_of(sym).unwrap();
        if o.spec_is_buy() {
            assert forall|q: u64| #[trigger] a.asks.contains_key(q) implies o.price < q by {
                assert(b.asks.contains_key(q));
            }
        } else {
            assert forall|p: u64| #[trigger] a.bids.contains_key(p) implies p < o.price by {
                assert(b.bids.contains_key(p));
            }
        }
    }
}

proof fn lemma_within_trans(c: MarketState, b: MarketState, a: MarketState)
    requires
        limits_within(c, b, None),
        limits_within(b, a, None),
    ensures
        limits_within(c, a, None),
{
    assert forall|j: int| #[trigger] c.book_of(j) is Some implies a.book_of(j) is Some && {
        let x = c.book_of(j).unwrap();
        let z = a.book_of(j).unwrap();
        &&& forall|k: u64| #[trigger] x.bids.contains_key(k) ==> z.bids.contains_key(k)
        &&& forall|k: u64| #[trigger] x.asks.contains_key(k) ==> z.asks.contains_key(k)
    } by {
        let x = c.book_of(j).unwrap();
        let y = b.book_of(j).unwrap();
        let z = a.book_of(j).unwrap();
        assert forall|k: u64| #[trigger] x.bids.contains_key(k) implies z.bids.contains_key(k) by {
            assert(y.bids.contains_key(k));
        }
        assert forall|k: u64| #[trigger] x.asks.contains_key(k) implies z.asks.contains_key(k) by {
            assert(y.asks.contains_key(k));
        }
    }
}

/// No all-or-none order appears among held orders that keep their time in force.
proof fn lemma_aon_free_evolves(after: MarketState, before: MarketState)
    requires
        evolves(after, before),
        aon_free(before.orders),
    ensures
        aon_free(after.orders),
{
    assert forall|id: OrderId| #[trigger] after.orders.contains_key(id) implies after.orders[id].time_in_force
        != OrderTimeInForce::Aon by {
        assert(before.orders.contains_key(id));
    }
}

/// With no order added, the count does not grow.
proof fn lemma_no_more_orders(after: Map<OrderId, Order>, before: Map<OrderId, Order>)
    requires
        before.dom().finite(),
        forall|id: OrderId| #[trigger] after.contains_key(id) ==> before.contains_key(id),
    ensures
        after.len() <= before.len(),
{
    assert(after.dom().subset_of(before.dom()));
    vstd::set_lib::lemma_len_subset(after.dom(), before.dom());
}

/// A held order that is gone, with no order added, brings the count down.
proof fn lemma_fewer_orders(after: Map<OrderId, Order>, before: Map<OrderId, Order>, x: OrderId)
    requires
        before.dom().finite(),
        forall|id: OrderId| #[trigger] after.contains_key(id) ==> before.contains_key(id),
        before.contains_key(x),
        !after.contains_key(x),
    ensures
        after.len() < before.len(),
{
    assert(after.dom().subset_of(before.dom().remove(x)));
    vstd::set_lib::lemma_len_subset(after.dom(), before.dom().remove(x));
}

/// A book whose best bid is below its best ask is uncrossed.
proof fn lemma_uncrossed_by_best(b: BookState, bp: u64, ap: u64)
    requires
        is_highest(b.side(BookSide::Bids), bp),
        is_lowest(b.side(BookSide::Asks), ap),
        bp < ap,
    ensures
        uncrossed(b),
{
    assert forall|p: u64, q: u64| #[trigger] b.bids.contains_key(p) && #[trigger] b.asks.contains_key(q) implies p < q by {
        assert(b.side(BookSide::Bids).contains_key(p));
        assert(b.side(BookSide::Asks).contains_key(q));
    }
}

/// A book with no bid level or no ask level is uncrossed.
proof fn lemma_uncrossed_one_sided(b: BookState, s: BookSide)
    requires
        s == BookSide::Bids || s == BookSide::Asks,
        b.side(s).dom().is_empty(),
    ensures
        uncrossed(b),
{
    assert forall|p: u64, q: u64| #[trigger] b.bids.contains_key(p) && #[trigger] b.asks.contains_key(q) implies p < q by {
        if s == BookSide::Bids {
            assert(b.side(s).dom().contains(p));
        } else {
            assert(b.side(s).dom().contains(q));
        }
    }
}

/// A step of the engine puts no order in wait for its stop price.
proof fn lemma_stop_held_within(after: MarketState, before: MarketState)
    requires
        carries(after, before),
        before.orders.dom().finite(),
    ensures
        stop_held(after.orders).subset_of(stop_held(before.orders)),
        stop_held(after.orders).len() <= stop_held(before.orders).len(),
{
    assert(stop_held(after.orders).subset_of(stop_held(before.orders)));
    vstd::set_lib::lemma_len_subset(stop_held(after.orders), stop_held(before.orders));
}

/// A step of the engine that releases a waiting stop order leaves fewer of them waiting.
proof fn lemma_stop_held_drops(after: MarketState, before: MarketState, x: OrderId)
    requires
        carries(after, before),
        before.orders.dom().finite(),
        before.orders.contains_key(x),
        is_stop_kind(before.orders[x]),
        !(after.orders.contains_key(x) && is_stop_kind(after.orders[x])),
    ensures
        stop_held(after.orders).len() < stop_held(before.orders).len(),
{
    let a = stop_held(after.orders);
    let b = stop_held(before.orders);
    assert(a.subset_of(b.remove(x)));
    vstd::set_lib::lemma_len_subset(a, b.remove(x));
}

proof fn lemma_keeps_trans(c: MarketState, b: MarketState, a: MarketState)
    requires
        keeps_uncrossed(c, b),
        keeps_uncrossed(b, a),
        evolves(b, a),
    ensures
        keeps_uncrossed(c, a),
{
    if aon_free(a.orders) {
        lemma_aon_free_evolves(b, a);
        assert forall|j: int| uncrossed_at(a, j) implies #[trigger] uncrossed_at(c, j) by {
            assert(uncrossed_at(b, j));
        }
    }
}

// ---------------------------------------------------------------------------
//  MarketManager
// ---------------------------------------------------------------------------

/// A notification that the manager hands its handler, with what the handler is given.
pub enum Notice {
    AddSymbol(Symbol),
    DeleteSymbol(Symbol),
    AddOrderBook(BookState),
    DeleteOrderBook(BookState),
    AddOrder(Order),
    UpdateOrder(Order),
    DeleteOrder(Order),
    ExecuteOrder(Order, u64, u64),
    AddLevel(BookState, Level, bool),
    UpdateLevel(BookState, Level, bool),
    DeleteLevel(BookState, Level, bool),
    UpdateOrderBook(BookState, bool),
}

/// The notifications that a level update hands the handler of a manager in state `st`: the
/// level change itself, unless there is none, then the book update; nothing without a book.
pub open spec fn level_notices(st: MarketState, sym: int, u: LevelUpdate) -> Seq<Notice> {
    match st.book_of(sym) {
        Some(b) => level_change(b, u),
        None => Seq::empty(),
    }
}

/// The notifications of level update `u` of book `b` (as it is after the update): the level
/// change itself, unless there is none, then the book update.
pub open spec fn level_change(b: BookState, u: LevelUpdate) -> Seq<Notice> {
    let change: Seq<Notice> = match u.update_type {
        UpdateType::Add => seq![Notice::AddLevel(b, u.level, u.top)],
        UpdateType::Update => seq![Notice::UpdateLevel(b, u.level, u.top)],
        UpdateType::Delete => seq![Notice::DeleteLevel(b, u.level, u.top)],
        UpdateType::Unchanged => Seq::empty(),
    };
    change.push(Notice::UpdateOrderBook(b, u.top))
}

/// The notifications of limit order `o` joining its level in state `st`: the level update,
/// where its book can take it.
pub open spec fn placement_notices(st: MarketState, o: Order) -> Seq<Notice> {
    let sym = o.symbol_id as int;
    if placeable(st, o) && o.order_type == OrderType::Limit {
        let b = st.book_of(sym).unwrap();
        level_change(b.after_add(resting_side(o).unwrap(), resting_key(o), o), limit_update(b, o))
    } else {
        Seq::empty()
    }
}

/// The notifications of accepting limit order `o` without matching in state `st`: the order
/// is added, then it rests (with its level update) or, when it does not rest or its id is
/// already held, it is deleted.
pub open spec fn limit_add_notices(st: MarketState, o: Order) -> Seq<Notice> {
    seq![Notice::AddOrder(o)] + if rests_unmatched(o) && !st.orders.contains_key(o.id) {
        placement_notices(st, o)
    } else {
        seq![Notice::DeleteOrder(o)]
    }
}

/// The notifications of accepting stop order `o` without matching in state `st`: its entry
/// form is added, and deleted again when its id is already held.
pub open spec fn stop_add_notices(st: MarketState, o: Order) -> Seq<Notice> {
    let e = entry_form(st, o);
    if st.orders.contains_key(o.id) {
        seq![Notice::AddOrder(e), Notice::DeleteOrder(e)]
    } else {
        seq![Notice::AddOrder(e)]
    }
}

/// Central manager for symbols, order books, and orders.
///
/// With matching enabled, every accepted order operation leaves the book it touched
/// uncrossed, its best bid below its best ask, as long as no held order is all-or-none.
/// No operation gives back quantity: a held order other than the one operated on never
/// gains remaining quantity nor loses executed quantity.
///
/// Not thread-safe.
pub struct MarketManager {
    handler: Box<dyn MarketHandler>,
    symbols: Vec<Option<Symbol>>,
    order_books: Vec<Option<OrderBook>>,
    orders: OrderTable,
    matching: bool,
    notices: Ghost<Seq<Notice>>,
}

impl View for MarketManager {
    type V = MarketState;

    closed spec fn view(&self) -> MarketState {
        MarketState {
            symbols: self.symbols@,
            books: book_views(self.order_books@),
            orders: table_contents(self.orders),
            matching: self.matching,
        }
    }
}

impl MarketManager {
    /// The notifications handed to the handler so far, oldest first.
    pub closed spec fn notices(&self) -> Seq<Notice> {
        self.notices@
    }

    /// The manager's invariant holds.
    pub open spec fn wf(&self) -> bool {
        self@.wf()
    }

    /// Create with a custom event handler.
    pub fn new(handler: Box<dyn MarketHandler>) -> (r: Self)
        ensures
            r.wf(),
            r@.symbols.len() == 0,
            r@.books.len() == 0,
            r@.orders.dom().is_empty(),
            !r@.matching,
    {
        let r = Self {
            handler,
            symbols: Vec::new(),
            order_books: Vec::new(),
            orders: table_new(),
            matching: false,
            notices: Ghost(Seq::empty()),
        };
        proof {
            assert(r@.orders.dom() =~= Set::empty());
        }
        r
    }

    /// Create with the default no-op handler.
    pub fn with_default_handler() -> (r: Self)
        ensures
            r.wf(),
            r@.symbols.len() == 0,
            r@.books.len() == 0,
            r@.orders.dom().is_empty(),
            !r@.matching,
    {
        Self::new(Box::new(NoOpHandler))
    }

    // -- Query -----------------------------------------------------------------

    pub fn get_symbol(&self, id: u32) -> (r: Option<&Symbol>)
        ensures
            match r {
                Some(s) => slot(self@.symbols, id as int) == Some(*s),
                None => slot(self@.symbols, id as int) is None,
            },
    {
        let idx = id as usize;
        if idx < self.symbols.len() {
            match &self.symbols[idx] {
                Some(s) => Some(s),
                None => None,
            }
        } else {
            None
        }
    }

    pub fn get_order_book(&self, id: u32) -> (r: Option<&OrderBook>)
        ensures
            match r {
                Some(b) => self@.book_of(id as int) == Some(b@),
                None => self@.book_of(id as int) is None,
            },
    {
        let idx = id as usize;
        if idx < self.order_books.len() {
            match &self.order_books[idx] {
                Some(b) => Some(b),
                None => None,
            }
        } else {
            None
        }
    }

    pub fn get_order(&self, id: OrderId) -> (r: Option<&Order>)
        ensures
            match r {
                Some(o) => self@.orders.contains_key(id) && *o == self@.orders[id],
                None => !self@.orders.contains_key(id),
            },
    {
        table_get(&self.orders, id)
    }

    /// All active orders with their ids, each once, in no particular order.
    pub fn iter_orders(&self) -> (r: Vec<(OrderId, Order)>)
        ensures
            r@.len() == self@.orders.len(),
            forall|i: int| 0 <= i < r@.len() ==> self@.orders.contains_key(#[trigger] r@[i].0) && self@.orders[r@[i].0] == r@[i].1,
            forall|i: int, j: int| 0 <= i < r@.len() && 0 <= j < r@.len() && i != j ==> r@[i].0 != r@[j].0,
            forall|id: OrderId| #[trigger] self@.orders.contains_key(id) ==> exists|i: int| 0 <= i < r@.len() && r@[i].0 == id,
    {
        table_entries(&self.orders)
    }

    /// Number of active orders.
    pub fn order_count(&self) -> (r: usize)
        ensures
            r == self@.orders.len(),
    {
        table_len(&self.orders)
    }

    // -- Symbol management -----------------------------------------------------

    pub fn add_symbol(&mut self, symbol: Symbol) -> (r: Result<()>)
        requires
            old(self).wf(),
        ensures
            final(self).wf(),
            r == (if slot(old(self)@.symbols, symbol.id as int) is Some {
                Err(ErrorCode::SymbolDuplicate)
            } else {
                Ok(())
            }),
            r is Err ==> final(self)@.symbols == old(self)@.symbols,
            r is Ok ==> final(self)@.symbols.len() == (if old(self)@.symbols.len() > symbol.id {
                old(self)@.symbols.len() as int
            } else {
                symbol.id + 1
            }),
            r is Ok ==> forall|j: int| slot(final(self)@.symbols, j) == (if j == symbol.id {
                Some(symbol)
            } else {
                slot(old(self)@.symbols, j)
            }),
            final(self)@.books == old(self)@.books,
            final(self)@.orders == old(self)@.orders,
            final(self)@.matching == old(self)@.matching,
            final(self).notices() == (if r is Ok {
                old(self).notices().push(Notice::AddSymbol(symbol))
            } else {
                old(self).notices()
            }),
    {
        let idx = symbol.id as usize;
        while self.symbols.len() <= idx
            invariant
                self.wf(),
                self.notices() == old(self).notices(),
                self@.books == old(self)@.books,
                self@.orders == old(self)@.orders,
                self@.matching == old(self)@.matching,
                idx == symbol.id,
                self@.symbols.len() > old(self)@.symbols.len() ==> self@.symbols.len() <= idx + 1,
                forall|j: int| slot(self@.symbols, j) == slot(old(self)@.symbols, j),
                old(self)@.symbols.len() <= self@.symbols.len(),
                self@.symbols.len() > old(self)@.symbols.len() ==> old(self)@.symbols.len() <= idx,
            decreases idx + 1 - self@.symbols.len(),
        {
            let ghost v = self@.symbols;
            self.symbols.push(None);
            proof {
                assert forall|j: int| slot(self@.symbols, j) == slot(old(self)@.symbols, j) by {
                    assert(slot(self@.symbols, j) == slot(v, j));
                }
                assert forall|i: int| 0 <= i < self@.symbols.len() && #[trigger] self@.symbols[i] is Some implies self@.symbols[i].unwrap().id == i by {
                    assert(self@.symbols[i] == v[i]);
                }
            }
        }
        if self.symbols[idx].is_some() {
            proof {
                assert(slot(self@.symbols, idx as int) is Some);
                assert(self@.symbols.len() == old(self)@.symbols.len());
                assert forall|j: int| 0 <= j < self@.symbols.len() implies self@.symbols[j] == old(self)@.symbols[j] by {
                    assert(slot(self@.symbols, j) == slot(old(self)@.symbols, j));
                }
                assert(self@.symbols =~= old(self)@.symbols);
            }
            return Err(ErrorCode::SymbolDuplicate);
        }
        self.on_add_symbol(&symbol);
        self.symbols.set(idx, Some(symbol));
        Ok(())
    }

    pub fn delete_symbol(&mut self, id: u32) -> (r: Result<()>)
        requires
            old(self).wf(),
        ensures
            final(self).wf(),
            r == (if slot(old(self)@.symbols, id as int) is Some {
                Ok(())
            } else {
                Err(ErrorCode::SymbolNotFound)
            }),
            final(self)@.symbols == (if r is Ok {
                old(self)@.symbols.update(id as int, None)
            } else {
                old(self)@.symbols
            }),
            final(self)@.books == old(self)@.books,
            final(self)@.orders == old(self)@.orders,
            final(self)@.matching == old(self)@.matching,
            final(self).notices() == (if r is Ok {
                old(self).notices().push(Notice::DeleteSymbol(old(self)@.symbols[id as int].unwrap()))
            } else {
                old(self).notices()
            }),
    {
        let idx = id as usize;
        if idx >= self.symbols.len() {
            return Err(ErrorCode::SymbolNotFound);
        }
        let symbol = match self.symbols[idx] {
            Some(s) => s,
            None => {
                return Err(ErrorCode::SymbolNotFound);
            },
        };
        self.on_delete_symbol(&symbol);
        self.symbols.set(idx, None);
        Ok(())
    }

    // -- Order-book management -------------------------------------------------

    pub fn add_order_book(&mut self, symbol: &Symbol) -> (r: Result<()>)
        requires
            old(self).wf(),
        ensures
            final(self).wf(),
            r == (if slot(old(self)@.symbols, symbol.id as int) is None {
                Err(ErrorCode::SymbolNotFound)
            } else if old(self)@.book_of(symbol.id as int) is Some {
                Err(ErrorCode::OrderBookDuplicate)
            } else {
                Ok(())
            }),
            r is Err ==> final(self)@.books == old(self)@.books,
            r is Ok ==> final(self)@.books.len() == (if old(self)@.books.len() > symbol.id {
                old(self)@.books.len() as int
            } else {
                symbol.id + 1
            }),
            r is Ok ==> forall|j: int| final(self)@.book_of(j) == (if j == symbol.id {
                Some(empty_book(*symbol))
            } else {
                old(self)@.book_of(j)
            }),
            final(self)@.symbols == old(self)@.symbols,
            final(self)@.orders == old(self)@.orders,
            final(self)@.matching == old(self)@.matching,
            final(self).notices() == (if r is Ok {
                old(self).notices().push(Notice::AddOrderBook(empty_book(*symbol)))
            } else {
                old(self).notices()
            }),
    {
        let idx = symbol.id as usize;
        let known = idx < self.symbols.len() && self.symbols[idx].is_some();
        if !known {
            return Err(ErrorCode::SymbolNotFound);
        }
        while self.order_books.len() <= idx
            invariant
                self.wf(),
                self.notices() == old(self).notices(),
                self@.symbols == old(self)@.symbols,
                self@.orders == old(self)@.orders,
                self@.matching == old(self)@.matching,
                idx == symbol.id,
                self@.books.len() > old(self)@.books.len() ==> self@.books.len() <= idx + 1,
                forall|j: int| self@.book_of(j) == old(self)@.book_of(j),
                old(self)@.books.len() <= self@.books.len(),
                self@.books.len() > old(self)@.books.len() ==> old(self)@.books.len() <= idx,
            decreases idx + 1 - self@.books.len(),
        {
            let ghost v = self.order_books@;
            self.order_books.push(None);
            proof {
                assert(book_views(self.order_books@) =~= book_views(v).push(None));
                let bv = book_views(v);
                assert forall|i: int| 0 <= i < self@.books.len() && #[trigger] self@.books[i] is Some implies self@.books[i].unwrap().symbol.id == i
                    && book_consistent(self@.books[i].unwrap(), i, self@.orders) by {
                    assert(self@.books[i] == bv[i]);
                }
                assert forall|j: int| self@.book_of(j) == old(self)@.book_of(j) by {
                    assert(slot(self@.books, j) == slot(bv, j));
                }
            }
        }
        if self.order_books[idx].is_some() {
            proof {
                assert(self@.book_of(idx as int) is Some);
                assert(self@.books.len() == old(self)@.books.len());
                assert forall|j: int| 0 <= j < self@.books.len() implies self@.books[j] == old(self)@.books[j] by {
                    assert(self@.book_of(j) == old(self)@.book_of(j));
                }
                assert(self@.books =~= old(self)@.books);
            }
            return Err(ErrorCode::OrderBookDuplicate);
        }
        let ob = OrderBook::new(*symbol);
        self.on_add_order_book(&ob);
        let ghost v = self.order_books@;
        self.order_books.set(idx, Some(ob));
        proof {
            lemma_book_views_update(v, idx as int, Some(ob));
        }
        Ok(())
    }

    pub fn delete_order_book(&mut self, id: u32) -> (r: Result<()>)
        requires
            old(self).wf(),
        ensures
            final(self).wf(),
            r == (if old(self)@.book_of(id as int) is Some {
                Ok(())
            } else {
                Err(ErrorCode::OrderBookNotFound)
            }),
            final(self)@.books == (if r is Ok {
                old(self)@.books.update(id as int, None)
            } else {
                old(self)@.books
            }),
            final(self)@.symbols == old(self)@.symbols,
            final(self)@.orders == old(self)@.orders,
            final(self)@.matching == old(self)@.matching,
            final(self).notices() == (if r is Ok {
                old(self).notices().push(Notice::DeleteOrderBook(old(self)@.book_of(id as int).unwrap()))
            } else {
                old(self).notices()
            }),
    {
        let idx = id as usize;
        if idx >= self.order_books.len() || self.order_books[idx].is_none() {
            return Err(ErrorCode::OrderBookNotFound);
        }
        let mut taken: Option<OrderBook> = None;
        let ghost v = self.order_books@;
        self.order_books.set_and_swap(idx, &mut taken);
        proof {
            lemma_book_views_update(v, idx as int, None);
        }
        match taken {
            Some(ob) => {
                self.on_delete_order_book(&ob);
            },
            None => {},
        }
        Ok(())
    }

    // -- Matching control ------------------------------------------------------

    pub fn is_matching_enabled(&self) -> (r: bool)
        ensures
            r == self@.matching,
    {
        self.matching
    }

    /// Enable automatic matching and match every book.
    pub fn enable_matching(&mut self)
        requires
            old(self).wf(),
        ensures
            final(self).wf(),
            final(self)@.matching,
            final(self)@.same_registry(MarketState { matching: true, ..old(self)@ }),
            no_new_orders(final(self)@, old(self)@, Set::empty()),
            aon_free(old(self)@.orders) ==> forall|j: int| #[trigger] uncrossed_at(final(self)@, j),
            gives_nothing_back(final(self)@, old(self)@, Set::empty()),
            exists|runs: Seq<Seq<MarketState>>|
                #[trigger] books_run(runs, matching_on(old(self)@), final(self)@),
    {
        self.matching = true;
        proof {
            assert(self@ == matching_on(old(self)@));
        }
        self.match_all();
    }

    /// Disable automatic matching.
    pub fn disable_matching(&mut self)
        requires
            old(self).wf(),
        ensures
            final(self).wf(),
            final(self)@ == (MarketState { matching: false, ..old(self)@ }),
            final(self).notices() == old(self).notices(),
    {
        self.matching = false;
    }

    /// Match every order book. When no held order is all-or-none, every book ends
    /// uncrossed: its best bid is below its best ask.
    pub fn match_all(&mut self)
        requires
            old(self).wf(),
        ensures
            final(self).wf(),
            final(self)@.same_registry(old(self)@),
            no_new_orders(final(self)@, old(self)@, Set::empty()),
            aon_free(old(self)@.orders) ==> forall|j: int| #[trigger] uncrossed_at(final(self)@, j),
            gives_nothing_back(final(self)@, old(self)@, Set::empty()),
            exists|runs: Seq<Seq<MarketState>>| #[trigger] books_run(runs, old(self)@, final(self)@),
    {
        let n = self.order_books.len();
        let mut i: usize = 0;
        let ghost mut runs: Seq<Seq<MarketState>> = Seq::empty();
        while i < n
            invariant
                runs.len() == i,
                forall|j: int| 0 <= j < runs.len() ==> #[trigger] book_matched(runs[j], j),
                forall|j: int| 0 <= j < runs.len() - 1 ==> #[trigger] books_link(runs, j),
                runs.len() == 0 ==> self@ == old(self)@,
                runs.len() > 0 ==> runs[0][0] == old(self)@ && runs.last().last() == self@,
                n == old(self)@.books.len(),
                evolves(self@, old(self)@),
                n == self@.books.len(),
                i <= n,
                aon_free(old(self)@.orders) ==> forall|j: int| 0 <= j < i ==> #[trigger] uncrossed_at(self@, j),
            decreases n - i,
        {
            let ghost mid = self@;
            proof {
                if aon_free(old(self)@.orders) {
                    lemma_aon_free_evolves(mid, old(self)@);
                }
            }
            let ghost has_book = self.order_books[i as int] is Some;
            if self.order_books[i].is_some() {
                self.match_book(i as u32);
            }
            proof {
                let run: Seq<MarketState> = if has_book {
                    choose|st: Seq<MarketState>| #[trigger] settled_run(st, mid, self@, i as int)
                } else {
                    seq![mid]
                };
                if !has_book {
                    assert(mid.book_of(i as int) is None);
                } else {
                    assert(settled_run(run, mid, self@, i as int));
                    assert(run[0] == mid) by {
                        let k = choose|k: int| #[trigger] book_settled(run, k, mid, self@, i as int);
                    }
                    assert(mid.book_of(i as int) is Some);
                }
                assert(book_matched(run, i as int));
                let old_runs = runs;
                runs = runs.push(run);
                assert forall|j: int| 0 <= j < runs.len() implies #[trigger] book_matched(runs[j], j) by {
                    if j < old_runs.len() {
                        assert(runs[j] == old_runs[j]);
                    }
                }
                assert forall|j: int| 0 <= j < runs.len() - 1 implies #[trigger] books_link(runs, j) by {
                    if j < old_runs.len() - 1 {
                        assert(books_link(old_runs, j));
                    }
                }
                if aon_free(old(self)@.orders) {
                    assert forall|j: int| 0 <= j < i + 1 implies #[trigger] uncrossed_at(self@, j) by {
                        if j < i {
                            assert(uncrossed_at(mid, j));
                        }
                    }
                }
            }
            i = i + 1;
        }
        proof {
            assert(books_run(runs, old(self)@, self@));
        }
    }

    // -- Order lifecycle -------------------------------------------------------

    /// Add an order. Without matching, an accepted order rests (market orders and
    /// immediate-or-cancel or fill-or-kill limit orders never do) unless its id is already
    /// held, which is an error; with matching it first trades against the book, and what is
    /// left of a market, immediate-or-cancel or fill-or-kill limit order is dropped.
    pub fn add_order(&mut self, order: Order) -> (r: Result<()>)
        requires
            old(self).wf(),
        ensures
            final(self).wf(),
            final(self)@.same_registry(old(self)@),
            order.validation() != ErrorCode::Success ==> r == Err::<(), ErrorCode>(order.validation()) && final(self)@ == old(self)@,
            r is Err && !old(self)@.matching ==> final(self)@ == old(self)@,
            order.validation() == ErrorCode::Success ==> (r is Ok || r == Err::<(), ErrorCode>(ErrorCode::OrderDuplicate)),
            r == Err::<(), ErrorCode>(ErrorCode::OrderDuplicate) ==> old(self)@.orders.contains_key(order.id),
            no_new_orders(final(self)@, old(self)@, set![order.id]),
            !old(self)@.matching && order.validation() == ErrorCode::Success ==> {
                let rests = rests_unmatched(order);
                let held = old(self)@.orders.contains_key(order.id);
                &&& r == (if rests && held { Err(ErrorCode::OrderDuplicate) } else { Ok(()) })
                &&& final(self)@.orders == (if rests && !held {
                    old(self)@.orders.insert(order.id, entry_form(old(self)@, order))
                } else {
                    old(self)@.orders
                })
            },
            r is Ok && old(self)@.matching && aon_free(old(self)@.orders) && order.time_in_force != OrderTimeInForce::Aon
                ==> uncrossed_at(final(self)@, order.symbol_id as int),
            gives_nothing_back(final(self)@, old(self)@, set![order.id]),
            !rests_unmatched(order) && !old(self)@.orders.contains_key(order.id) ==> !final(self)@.orders.contains_key(order.id),
            order.validation() != ErrorCode::Success ==> final(self).notices() == old(self).notices(),
            r is Ok && !old(self)@.matching && order.order_type == OrderType::Limit && rests_unmatched(order)
                ==> final(self)@.books == reset_books(placed_books(old(self)@, order), order.symbol_id as int),
            old(self)@.matching && order.validation() == ErrorCode::Success ==> match order.order_type {
                OrderType::Market => r is Ok && market_entry(old(self)@, final(self)@, order),
                OrderType::Limit => limit_entry(old(self)@, final(self)@, order, r),
                _ => stop_entry(old(self)@, final(self)@, order, r),
            },
            !old(self)@.matching && order.validation() == ErrorCode::Success ==> final(self).notices() == old(
                self,
            ).notices() + match order.order_type {
                OrderType::Market => seq![Notice::AddOrder(order), Notice::DeleteOrder(order)],
                OrderType::Limit => limit_add_notices(old(self)@, order),
                _ => stop_add_notices(old(self)@, order),
            },
            r is Ok && !old(self)@.matching ==> final(self)@ == unmatched_at(
                if rests_unmatched(order) { rested_at(old(self)@, entry_form(old(self)@, order)) } else { old(self)@ },
                order.symbol_id as int,
            ),
    {
        let err = order.validate();
        if err != ErrorCode::Success {
            return Err(err);
        }
        match order.order_type {
            OrderType::Market => self.add_market_order(order, false),
            OrderType::Limit => self.add_limit_order(order, false),
            OrderType::Stop | OrderType::TrailingStop => self.add_stop_order(order, false),
            OrderType::StopLimit | OrderType::TrailingStopLimit => self.add_stop_limit_order(order, false),
        }
    }

    /// Reduce the remaining quantity of order `id` by `quantity`, at most all of it.
    pub fn reduce_order(&mut self, id: OrderId, quantity: u64) -> (r: Result<()>)
        requires
            old(self).wf(),
        ensures
            final(self).wf(),
            final(self)@.same_registry(old(self)@),
            r == (if id == 0 {
                Err(ErrorCode::OrderIdInvalid)
            } else if quantity == 0 {
                Err(ErrorCode::OrderQuantityInvalid)
            } else if !old(self)@.orders.contains_key(id) {
                Err(ErrorCode::OrderNotFound)
            } else {
                Ok(())
            }),
            r is Err ==> final(self)@ == old(self)@,
            no_new_orders(final(self)@, old(self)@, Set::empty()),
            r is Ok && !old(self)@.matching ==> final(self)@.orders == reduced_orders(old(self)@.orders, id, quantity),
            r is Ok && old(self)@.matching && aon_free(old(self)@.orders) ==> uncrossed_at(
                final(self)@,
                old(self)@.orders[id].symbol_id as int,
            ),
            gives_nothing_back(final(self)@, old(self)@, Set::empty()),
            r is Ok && old(self)@.matching ==> matched_after(reduced_at(old(self)@, id, quantity), final(self)@, old(self)@.orders[id].symbol_id as int),
            r is Err ==> final(self).notices() == old(self).notices(),
            r is Ok && !old(self)@.matching ==> final(self).notices() == old(self).notices().push(
                change_notice(reduced_order(old(self)@.orders[id], quantity)),
            ),
            r is Ok && !old(self)@.matching ==> final(self)@ == unmatched_at(reduced_at(old(self)@, id, quantity), old(self)@.orders[id].symbol_id as int),
    {
        self.reduce_order_impl(id, quantity, false)
    }

    /// Change the price and the quantity of order `id`; its remaining quantity becomes the
    /// new quantity.
    pub fn modify_order(&mut self, id: OrderId, new_price: u64, new_quantity: u64) -> (r: Result<()>)
        requires
            old(self).wf(),
        ensures
            final(self).wf(),
            final(self)@.same_registry(old(self)@),
            r == modify_result(old(self)@, id, new_quantity),
            r is Err ==> final(self)@ == old(self)@,
            no_new_orders(final(self)@, old(self)@, Set::empty()),
            r is Ok && !old(self)@.matching ==> final(self)@.orders == modified_orders(old(self)@.orders, id, new_price, new_quantity, false),
            r is Ok && old(self)@.matching && aon_free(old(self)@.orders) ==> uncrossed_at(
                final(self)@,
                old(self)@.orders[id].symbol_id as int,
            ),
            gives_nothing_back(final(self)@, old(self)@, set![id]),
            r is Ok && old(self)@.matching ==> ({
                let m = modified_orders(old(self)@.orders, id, new_price, new_quantity, false);
                if m.contains_key(id) {
                    rematched(
                        MarketState { orders: m, books: unbooked_books(old(self)@, id), ..old(self)@ },
                        id,
                        final(self)@,
                        old(self)@.orders[id].symbol_id as int,
                    )
                } else {
                    matched_after(removed_at(old(self)@, id), final(self)@, old(self)@.orders[id].symbol_id as int)
                }
            }),
            r is Err ==> final(self).notices() == old(self).notices(),
            r is Ok && !old(self)@.matching ==> final(self).notices() == old(self).notices().push(
                change_notice(modified_order(old(self)@.orders[id], new_price, new_quantity, false)),
            ),
            r is Ok && !old(self)@.matching ==> final(self)@ == unmatched_at(
                modified_at(old(self)@, id, modified_orders(old(self)@.orders, id, new_price, new_quantity, false)),
                old(self)@.orders[id].symbol_id as int,
            ),
    {
        self.modify_order_impl(id, new_price, new_quantity, false, false)
    }

    /// Change the price and the quantity of order `id`; what was executed already counts
    /// against the new quantity.
    pub fn mitigate_order(&mut self, id: OrderId, new_price: u64, new_quantity: u64) -> (r: Result<()>)
        requires
            old(self).wf(),
        ensures
            final(self).wf(),
            final(self)@.same_registry(old(self)@),
            r == modify_result(old(self)@, id, new_quantity),
            r is Err ==> final(self)@ == old(self)@,
            no_new_orders(final(self)@, old(self)@, Set::empty()),
            r is Ok && !old(self)@.matching ==> final(self)@.orders == modified_orders(old(self)@.orders, id, new_price, new_quantity, true),
            r is Ok && old(self)@.matching && aon_free(old(self)@.orders) ==> uncrossed_at(
                final(self)@,
                old(self)@.orders[id].symbol_id as int,
            ),
            gives_nothing_back(final(self)@, old(self)@, set![id]),
            r is Ok && old(self)@.matching ==> ({
                let m = modified_orders(old(self)@.orders, id, new_price, new_quantity, true);
                if m.contains_key(id) {
                    rematched(
                        MarketState { orders: m, books: unbooked_books(old(self)@, id), ..old(self)@ },
                        id,
                        final(self)@,
                        old(self)@.orders[id].symbol_id as int,
                    )
                } else {
                    matched_after(removed_at(old(self)@, id), final(self)@, old(self)@.orders[id].symbol_id as int)
                }
            }),
            r is Err ==> final(self).notices() == old(self).notices(),
            r is Ok && !old(self)@.matching ==> final(self).notices() == old(self).notices().push(
                change_notice(modified_order(old(self)@.orders[id], new_price, new_quantity, true)),
            ),
            r is Ok && !old(self)@.matching ==> final(self)@ == unmatched_at(
                modified_at(old(self)@, id, modified_orders(old(self)@.orders, id, new_price, new_quantity, true)),
                old(self)@.orders[id].symbol_id as int,
            ),
    {
        self.modify_order_impl(id, new_price, new_quantity, true, false)
    }

    /// Replace limit order `id` by a limit order `new_id` with a new price and quantity.
    pub fn replace_order(&mut self, id: OrderId, new_id: OrderId, new_price: u64, new_quantity: u64) -> (r: Result<()>)
        requires
            old(self).wf(),
        ensures
            final(self).wf(),
            final(self)@.same_registry(old(self)@),
            r == replace_result(old(self)@, id, new_id, new_quantity),
            r is Err ==> final(self)@ == old(self)@,
            no_new_orders(final(self)@, old(self)@, set![new_id]),
            r is Ok ==> (id != new_id ==> !final(self)@.orders.contains_key(id)),
            r is Ok && !old(self)@.matching ==> final(self)@.orders == old(self)@.orders.remove(id).insert(
                new_id,
                replacement(old(self)@.orders[id], new_id, new_price, new_quantity),
            ),
            r is Ok && old(self)@.matching && aon_free(old(self)@.orders) ==> uncrossed_at(
                final(self)@,
                old(self)@.orders[id].symbol_id as int,
            ),
            gives_nothing_back(final(self)@, old(self)@, set![id, new_id]),
            r is Ok && old(self)@.matching ==> rematched(
                MarketState {
                    orders: old(self)@.orders.remove(id).insert(
                        new_id,
                        replacement(old(self)@.orders[id], new_id, new_price, new_quantity),
                    ),
                    books: unbooked_books(old(self)@, id),
                    ..old(self)@
                },
                new_id,
                final(self)@,
                old(self)@.orders[id].symbol_id as int,
            ),
            r is Err ==> final(self).notices() == old(self).notices(),
            r is Ok && !old(self)@.matching ==> final(self).notices() == old(self).notices().push(
                Notice::DeleteOrder(old(self)@.orders[id]),
            ).push(Notice::AddOrder(replacement(old(self)@.orders[id], new_id, new_price, new_quantity))),
            r is Ok && !old(self)@.matching ==> final(self)@ == unmatched_at(rested_at(removed_at(old(self)@, id), replacement(old(self)@.orders[id], new_id, new_price, new_quantity)), old(self)@.orders[id].symbol_id as int),
    {
        self.replace_order_impl(id, new_id, new_price, new_quantity, false)
    }

    /// Replace order `id` by `new_order`, which is checked first; nothing changes on error.
    pub fn replace_order_with(&mut self, id: OrderId, new_order: Order) -> (r: Result<()>)
        requires
            old(self).wf(),
        ensures
            final(self).wf(),
            final(self)@.same_registry(old(self)@),
            r == (if id == 0 {
                Err(ErrorCode::OrderIdInvalid)
            } else if !old(self)@.orders.contains_key(id) {
                Err(ErrorCode::OrderNotFound)
            } else if new_order.validation() != ErrorCode::Success {
                Err(new_order.validation())
            } else if new_order.id != id && old(self)@.orders.contains_key(new_order.id) {
                Err(ErrorCode::OrderDuplicate)
            } else if slot(old(self)@.symbols, new_order.symbol_id as int) is None {
                Err(ErrorCode::SymbolNotFound)
            } else if old(self)@.book_of(new_order.symbol_id as int) is None {
                Err(ErrorCode::OrderBookNotFound)
            } else {
                Ok(())
            }),
            r is Err ==> final(self)@ == old(self)@,
            no_new_orders(final(self)@, old(self)@, set![new_order.id]),
            r is Ok && id != new_order.id ==> !final(self)@.orders.contains_key(id),
            r is Ok && !old(self)@.matching ==> {
                &&& final(self)@.orders.contains_key(new_order.id) == rests_unmatched(new_order)
                &&& forall|x: OrderId|
                    x != id && x != new_order.id ==> (#[trigger] final(self)@.orders.contains_key(x)
                        == old(self)@.orders.contains_key(x))
                &&& forall|x: OrderId|
                    x != id && x != new_order.id && #[trigger] final(self)@.orders.contains_key(x) ==> final(self)@.orders[x]
                        == old(self)@.orders[x]
                &&& rests_unmatched(new_order) && !new_order.spec_is_trailing() ==> final(self)@.orders[new_order.id]
                    == new_order
            },
            r is Ok && old(self)@.matching && aon_free(old(self)@.orders) && new_order.time_in_force != OrderTimeInForce::Aon
                ==> uncrossed_at(final(self)@, new_order.symbol_id as int),
            gives_nothing_back(final(self)@, old(self)@, set![id, new_order.id]),
    {
        if id == 0 {
            return Err(ErrorCode::OrderIdInvalid);
        }
        let old_order = match table_get(&self.orders, id) {
            Some(o) => *o,
            None => {
                return Err(ErrorCode::OrderNotFound);
            },
        };
        let err = new_order.validate();
        if err != ErrorCode::Success {
            return Err(err);
        }
        if new_order.id != id && table_contains(&self.orders, new_order.id) {
            return Err(ErrorCode::OrderDuplicate);
        }
        if self.get_symbol(new_order.symbol_id).is_none() {
            return Err(ErrorCode::SymbolNotFound);
        }
        if self.get_order_book(new_order.symbol_id).is_none() {
            return Err(ErrorCode::OrderBookNotFound);
        }

        let deleted = self.delete_order_impl(id, true);
        if deleted.is_err() {
            return deleted;
        }
        match self.add_order(new_order) {
            Ok(()) => Ok(()),
            Err(err) => {
                let _ = self.add_order(old_order);
                Err(err)
            },
        }
    }

    /// Delete order `id`.
    pub fn delete_order(&mut self, id: OrderId) -> (r: Result<()>)
        requires
            old(self).wf(),
        ensures
            final(self).wf(),
            final(self)@.same_registry(old(self)@),
            r == (if id == 0 {
                Err(ErrorCode::OrderIdInvalid)
            } else if !old(self)@.orders.contains_key(id) {
                Err(ErrorCode::OrderNotFound)
            } else {
                Ok(())
            }),
            r is Err ==> final(self)@ == old(self)@,
            r is Ok ==> !final(self)@.orders.contains_key(id),
            no_new_orders(final(self)@, old(self)@, Set::empty()),
            r is Ok && !old(self)@.matching ==> final(self)@.orders == old(self)@.orders.remove(id),
            r is Ok && old(self)@.matching && aon_free(old(self)@.orders) ==> uncrossed_at(
                final(self)@,
                old(self)@.orders[id].symbol_id as int,
            ),
            gives_nothing_back(final(self)@, old(self)@, Set::empty()),
            r is Ok && !old(self)@.matching ==> final(self)@.books == reset_books(
                unbooked_books(old(self)@, id),
                old(self)@.orders[id].symbol_id as int,
            ),
            r is Ok && old(self)@.matching ==> matched_after(removed_at(old(self)@, id), final(self)@, old(self)@.orders[id].symbol_id as int),
            r is Err ==> final(self).notices() == old(self).notices(),
            r is Ok && !old(self)@.matching ==> final(self).notices() == old(self).notices().push(
                Notice::DeleteOrder(old(self)@.orders[id]),
            ),
            r is Ok && !old(self)@.matching ==> final(self)@ == unmatched_at(removed_at(old(self)@, id), old(self)@.orders[id].symbol_id as int),
    {
        self.delete_order_impl(id, false)
    }

    /// Execute `quantity` (at most all of it) of order `id` at its own price.
    pub fn execute_order(&mut self, id: OrderId, quantity: u64) -> (r: Result<()>)
        requires
            old(self).wf(),
        ensures
            final(self).wf(),
            final(self)@.same_registry(old(self)@),
            r == execute_result(old(self)@, id, quantity),
            r is Err ==> final(self)@ == old(self)@,
            no_new_orders(final(self)@, old(self)@, Set::empty()),
            r is Ok && !old(self)@.matching ==> final(self)@.orders == executed_orders(old(self)@.orders, id, quantity),
            r is Ok && old(self)@.matching && aon_free(old(self)@.orders) ==> uncrossed_at(
                final(self)@,
                old(self)@.orders[id].symbol_id as int,
            ),
            gives_nothing_back(final(self)@, old(self)@, Set::empty()),
            r is Ok && old(self)@.matching ==> matched_after(
                executed_at(
                    old(self)@,
                    old(self)@.orders[id].symbol_id as int,
                    id,
                    clipped(old(self)@.orders[id], quantity),
                    old(self)@.orders[id].price,
                ),
                final(self)@,
                old(self)@.orders[id].symbol_id as int,
            ),
            r is Err ==> final(self).notices() == old(self).notices(),
            r is Ok && !old(self)@.matching ==> final(self).notices() == old(self).notices() + execute_notices(
                old(self)@.orders[id],
                old(self)@.orders[id].price,
                quantity,
            ),
            r is Ok && !old(self)@.matching ==> final(self)@ == unmatched_at(
                executed_at(old(self)@, old(self)@.orders[id].symbol_id as int, id, clipped(old(self)@.orders[id], quantity), old(self)@.orders[id].price),
                old(self)@.orders[id].symbol_id as int,
            ),
    {
        if id == 0 {
            return Err(ErrorCode::OrderIdInvalid);
        }
        if quantity == 0 {
            return Err(ErrorCode::OrderQuantityInvalid);
        }
        let order = match table_get(&self.orders, id) {
            Some(o) => *o,
            None => {
                return Err(ErrorCode::OrderNotFound);
            },
        };
        self.do_execute(order.symbol_id, id, order.price, quantity)
    }

    /// Execute `quantity` (at most all of it) of order `id` at `price`.
    pub fn execute_order_at(&mut self, id: OrderId, price: u64, quantity: u64) -> (r: Result<()>)
        requires
            old(self).wf(),
        ensures
            final(self).wf(),
            final(self)@.same_registry(old(self)@),
            r == execute_result(old(self)@, id, quantity),
            r is Err ==> final(self)@ == old(self)@,
            no_new_orders(final(self)@, old(self)@, Set::empty()),
            r is Ok && !old(self)@.matching ==> final(self)@.orders == executed_orders(old(self)@.orders, id, quantity),
            r is Ok && old(self)@.matching && aon_free(old(self)@.orders) ==> uncrossed_at(
                final(self)@,
                old(self)@.orders[id].symbol_id as int,
            ),
            gives_nothing_back(final(self)@, old(self)@, Set::empty()),
            r is Ok && old(self)@.matching ==> matched_after(
                executed_at(
                    old(self)@,
                    old(self)@.orders[id].symbol_id as int,
                    id,
                    clipped(old(self)@.orders[id], quantity),
                    price,
                ),
                final(self)@,
                old(self)@.orders[id].symbol_id as int,
            ),
            r is Err ==> final(self).notices() == old(self).notices(),
            r is Ok && !old(self)@.matching ==> final(self).notices() == old(self).notices() + execute_notices(
                old(self)@.orders[id],
                price,
                quantity,
            ),
            r is Ok && !old(self)@.matching ==> final(self)@ == unmatched_at(
                executed_at(old(self)@, old(self)@.orders[id].symbol_id as int, id, clipped(old(self)@.orders[id], quantity), price),
                old(self)@.orders[id].symbol_id as int,
            ),
    {
        if id == 0 {
            return Err(ErrorCode::OrderIdInvalid);
        }
        if quantity == 0 {
            return Err(ErrorCode::OrderQuantityInvalid);
        }
        let order = match table_get(&self.orders, id) {
            Some(o) => *o,
            None => {
                return Err(ErrorCode::OrderNotFound);
            },
        };
        self.do_execute(order.symbol_id, id, price, quantity)
    }

    /// Execute `quantity` of order `id` at `price`: the book's prices follow the execution,
    /// the order and its level give up the quantity, and matching follows when enabled.
    fn do_execute(&mut self, symbol_id: u32, id: OrderId, price: u64, quantity: u64) -> (r: Result<()>)
        requires
            old(self).wf(),
            quantity > 0,
            old(self)@.orders.contains_key(id) ==> symbol_id == old(self)@.orders[id].symbol_id,
        ensures
            final(self).wf(),
            final(self)@.same_registry(old(self)@),
            r == (if old(self)@.orders.contains_key(id) { Ok(()) } else { Err(ErrorCode::OrderNotFound) }),
            r is Err ==> final(self)@ == old(self)@,
            no_new_orders(final(self)@, old(self)@, Set::empty()),
            r is Ok && !old(self)@.matching ==> final(self)@.orders == executed_orders(old(self)@.orders, id, quantity),
            r is Ok && old(self)@.matching && aon_free(old(self)@.orders) ==> uncrossed_at(final(self)@, symbol_id as int),
            gives_nothing_back(final(self)@, old(self)@, Set::empty()),
            r is Ok && old(self)@.matching ==> matched_after(
                executed_at(old(self)@, symbol_id as int, id, clipped(old(self)@.orders[id], quantity), price),
                final(self)@,
                symbol_id as int,
            ),
            r is Err ==> final(self).notices() == old(self).notices(),
            r is Ok && !old(self)@.matching ==> final(self).notices() == old(self).notices() + execute_notices(
                old(self)@.orders[id],
                price,
                quantity,
            ),
            r is Ok && !old(self)@.matching ==> final(self)@ == unmatched_at(
                executed_at(old(self)@, symbol_id as int, id, clipped(old(self)@.orders[id], quantity), price),
                symbol_id as int,
            ),
    {
        let order_before_execute = match table_get(&self.orders, id) {
            Some(o) => *o,
            None => {
                return Err(ErrorCode::OrderNotFound);
            },
        };
        let quantity = if quantity < order_before_execute.leaves_quantity {
            quantity
        } else {
            order_before_execute.leaves_quantity
        };

        // Notify handler
        self.on_execute_order(&order_before_execute, price, quantity);

        // Update market prices
        self.update_book_prices(symbol_id, &order_before_execute, price);

        // Update order quantities and the order book level
        let order = Order {
            executed_quantity: order_before_execute.executed_quantity.saturating_add(quantity),
            leaves_quantity: order_before_execute.leaves_quantity - quantity,
            ..order_before_execute
        };
        proof {
            crate::matching::order::lemma_parts_monotone(order_before_execute, order.leaves_quantity);
        }
        self.reduce_record(order);

        if order.leaves_quantity == 0 {
            self.on_delete_order(&order);
        } else {
            self.on_update_order(&order);
        }

        let ghost mid = self@;
        let ghost mut run: Seq<MarketState> = seq![self@];
        if self.matching {
            self.match_book(symbol_id);
            proof {
                run = choose|st: Seq<MarketState>| #[trigger] settled_run(st, mid, self@, symbol_id as int);
            }
        }
        self.reset_book_matching(symbol_id);
        proof {
            if old(self)@.matching {
                assert(mid == executed_at(old(self)@, symbol_id as int, id, clipped(old(self)@.orders[id], quantity), price));
                assert(book_match(run, mid, self@, symbol_id as int));
            }
        }
        Ok(())
    }

    fn reduce_order_impl(&mut self, id: OrderId, quantity: u64, recursive: bool) -> (r: Result<()>)
        requires
            old(self).wf(),
        ensures
            final(self).wf(),
            final(self)@.same_registry(old(self)@),
            r == (if id == 0 {
                Err(ErrorCode::OrderIdInvalid)
            } else if quantity == 0 {
                Err(ErrorCode::OrderQuantityInvalid)
            } else if !old(self)@.orders.contains_key(id) {
                Err(ErrorCode::OrderNotFound)
            } else {
                Ok(())
            }),
            r is Err ==> final(self)@ == old(self)@,
            no_new_orders(final(self)@, old(self)@, Set::empty()),
            r is Ok && (!old(self)@.matching || recursive) ==> final(self)@.orders == reduced_orders(old(self)@.orders, id, quantity),
            r is Ok && old(self)@.matching && !recursive && aon_free(old(self)@.orders) ==> uncrossed_at(
                final(self)@,
                old(self)@.orders[id].symbol_id as int,
            ),
            gives_nothing_back(final(self)@, old(self)@, Set::empty()),
            r is Ok && old(self)@.matching && !recursive ==> matched_after(
                reduced_at(old(self)@, id, quantity),
                final(self)@,
                old(self)@.orders[id].symbol_id as int,
            ),
            r is Err ==> final(self).notices() == old(self).notices(),
            r is Ok && (!old(self)@.matching || recursive) ==> final(self).notices() == old(self).notices().push(
                change_notice(reduced_order(old(self)@.orders[id], quantity)),
            ),
            r is Ok && (!old(self)@.matching || recursive) ==> final(self)@ == unmatched_at(
                reduced_at(old(self)@, id, quantity),
                old(self)@.orders[id].symbol_id as int,
            ),
    {
        let symbol_id = match self.reduce_order_step(id, quantity) {
            Ok(s) => s,
            Err(e) => {
                return Err(e);
            },
        };
        let ghost mid = self@;
        let ghost mut run: Seq<MarketState> = seq![self@];
        if self.matching && !recursive {
            self.match_book(symbol_id);
            proof {
                run = choose|st: Seq<MarketState>| #[trigger] settled_run(st, mid, self@, symbol_id as int);
            }
        }
        self.reset_book_matching(symbol_id);
        proof {
            if old(self)@.matching && !recursive {
                assert(book_match(run, reduced_at(old(self)@, id, quantity), self@, symbol_id as int));
            }
        }
        Ok(())
    }

    fn modify_order_impl(&mut self, id: OrderId, new_price: u64, new_quantity: u64, mitigate: bool, recursive: bool) -> (r: Result<()>)
        requires
            old(self).wf(),
        ensures
            final(self).wf(),
            final(self)@.same_registry(old(self)@),
            r == modify_result(old(self)@, id, new_quantity),
            r is Err ==> final(self)@ == old(self)@,
            no_new_orders(final(self)@, old(self)@, Set::empty()),
            r is Ok && (!old(self)@.matching || recursive) ==> final(self)@.orders == modified_orders(old(self)@.orders, id, new_price, new_quantity, mitigate),
            r is Ok && old(self)@.matching && !recursive && aon_free(old(self)@.orders) ==> uncrossed_at(
                final(self)@,
                old(self)@.orders[id].symbol_id as int,
            ),
            gives_nothing_back(final(self)@, old(self)@, set![id]),
            r is Ok && old(self)@.matching && !recursive ==> ({
                let m = modified_orders(old(self)@.orders, id, new_price, new_quantity, mitigate);
                let sym = old(self)@.orders[id].symbol_id as int;
                if m.contains_key(id) {
                    rematched(MarketState { orders: m, books: unbooked_books(old(self)@, id), ..old(self)@ }, id, final(self)@, sym)
                } else {
                    matched_after(removed_at(old(self)@, id), final(self)@, sym)
                }
            }),
            r is Err ==> final(self).notices() == old(self).notices(),
            r is Ok && (!old(self)@.matching || recursive) ==> final(self).notices() == old(self).notices().push(
                change_notice(modified_order(old(self)@.orders[id], new_price, new_quantity, mitigate)),
            ),
            r is Ok && (!old(self)@.matching || recursive) ==> final(self)@ == unmatched_at(
                modified_at(old(self)@, id, modified_orders(old(self)@.orders, id, new_price, new_quantity, mitigate)),
                old(self)@.orders[id].symbol_id as int,
            ),
    {
        if id == 0 {
            return Err(ErrorCode::OrderIdInvalid);
        }
        if new_quantity == 0 {
            return Err(ErrorCode::OrderQuantityInvalid);
        }
        let order = match table_get(&self.orders, id) {
            Some(o) => *o,
            None => {
                return Err(ErrorCode::OrderNotFound);
            },
        };
        let symbol_id = order.symbol_id;
        let ghost mut fills: Seq<MarketState> = Seq::empty();
        let ghost mut rems: Seq<u64> = Seq::empty();
        let ghost mut stored: Map<OrderId, Order> = Map::empty();

        // Delete from book
        self.unbook(id);

        // Modify
        let mut leaves = new_quantity;
        if mitigate {
            if new_quantity > order.executed_quantity {
                leaves = new_quantity - order.executed_quantity;
            } else {
                leaves = 0;
            }
        }
        let modified = Order { price: new_price, quantity: new_quantity, leaves_quantity: leaves, ..order };

        if modified.leaves_quantity > 0 {
            self.set_record(modified);
            self.on_update_order(&modified);

            if self.matching && !recursive {
                let mut current = modified;
                let ghost pre = self@;
                self.match_limit(symbol_id, &mut current);
                let ghost (f, q) = choose|f: Seq<MarketState>, q: Seq<u64>|
                    #[trigger] incoming_run(f, q, pre, self@, symbol_id as int, modified.spec_is_buy(), Some(modified.price), resets_matching(modified.time_in_force))
                        && q[0] == modified.leaves_quantity && q.last() == current.leaves_quantity;
                let ghost post = self@;
                // Update the stored order after matching
                self.store_matched(id, current.leaves_quantity, current.executed_quantity);
                proof {
                    fills = f;
                    rems = q;
                    stored = self@.orders;
                    assert(f.last() == post);
                    assert(pre.orders == modified_orders(old(self)@.orders, id, new_price, new_quantity, mitigate));
                }
            }

            // Back into the book with what is left
            if table_contains(&self.orders, id) {
                self.unbook(id);
                self.book_order(id);
            }
        } else {
            self.on_delete_order(&modified);
            self.remove_order(id);
        }

        let ghost mid = self@;
        let ghost mut run: Seq<MarketState> = seq![self@];
        if self.matching && !recursive {
            self.match_book(symbol_id);
            proof {
                run = choose|st: Seq<MarketState>| #[trigger] settled_run(st, mid, self@, symbol_id as int);
            }
        }
        self.reset_book_matching(symbol_id);
        proof {
            if old(self)@.matching && !recursive {
                let m = modified_orders(old(self)@.orders, id, new_price, new_quantity, mitigate);
                let pre0 = MarketState { orders: m, books: unbooked_books(old(self)@, id), ..old(self)@ };
                if m.contains_key(id) {
                    assert(mid.orders == stored);
                    assert(rematched_at(fills, rems, stored, run, pre0, id, self@, symbol_id as int));
                } else {
                    assert(book_match(run, removed_at(old(self)@, id), self@, symbol_id as int));
                }
            }
        }
        Ok(())
    }

    /// After an order that is held but not booked has matched, store its new quantities; an
    /// order left with nothing is no longer held.
    fn store_matched(&mut self, id: OrderId, leaves: u64, executed: u64)
        requires
            old(self).wf(),
        ensures
            carries(final(self)@, old(self)@),
            gives_nothing_back(final(self)@, old(self)@, set![id]),
            !old(self)@.orders.contains_key(id) ==> final(self)@ == old(self)@,
            old(self)@.orders.contains_key(id) ==> final(self)@.orders == (if leaves > 0 {
                old(self)@.orders.insert(
                    id,
                    Order { leaves_quantity: leaves, executed_quantity: executed, ..old(self)@.orders[id] },
                )
            } else {
                old(self)@.orders.remove(id)
            }),
            old(self)@.orders.contains_key(id) && leaves > 0 ==> !final(self)@.is_queued(final(self)@.orders[id]),
            old(self)@.orders.contains_key(id) ==> final(self)@ == (MarketState {
                orders: final(self)@.orders,
                books: unbooked_books(old(self)@, id),
                ..old(self)@
            }),
    {
        let stored = match table_get(&self.orders, id) {
            Some(o) => *o,
            None => {
                return;
            },
        };
        let updated = Order { leaves_quantity: leaves, executed_quantity: executed, ..stored };
        if updated.leaves_quantity > 0 {
            self.unbook(id);
            self.set_record(updated);
        } else {
            self.on_delete_order(&updated);
            self.remove_order(id);
        }
    }

    fn replace_order_impl(&mut self, id: OrderId, new_id: OrderId, new_price: u64, new_quantity: u64, recursive: bool) -> (r: Result<()>)
        requires
            old(self).wf(),
        ensures
            final(self).wf(),
            final(self)@.same_registry(old(self)@),
            r == replace_result(old(self)@, id, new_id, new_quantity),
            r is Err ==> final(self)@ == old(self)@,
            no_new_orders(final(self)@, old(self)@, set![new_id]),
            r is Ok ==> (id != new_id ==> !final(self)@.orders.contains_key(id)),
            r is Ok && (!old(self)@.matching || recursive) ==> final(self)@.orders == old(self)@.orders.remove(id).insert(
                new_id,
                replacement(old(self)@.orders[id], new_id, new_price, new_quantity),
            ),
            r is Ok && old(self)@.matching && !recursive && aon_free(old(self)@.orders) ==> uncrossed_at(
                final(self)@,
                old(self)@.orders[id].symbol_id as int,
            ),
            gives_nothing_back(final(self)@, old(self)@, set![id, new_id]),
            r is Ok && old(self)@.matching && !recursive ==> rematched(
                MarketState {
                    orders: old(self)@.orders.remove(id).insert(
                        new_id,
                        replacement(old(self)@.orders[id], new_id, new_price, new_quantity),
                    ),
                    books: unbooked_books(old(self)@, id),
                    ..old(self)@
                },
                new_id,
                final(self)@,
                old(self)@.orders[id].symbol_id as int,
            ),
            r is Err ==> final(self).notices() == old(self).notices(),
            r is Ok && (!old(self)@.matching || recursive) ==> final(self).notices() == old(self).notices().push(
                Notice::DeleteOrder(old(self)@.orders[id]),
            ).push(Notice::AddOrder(replacement(old(self)@.orders[id], new_id, new_price, new_quantity))),
            r is Ok && (!old(self)@.matching || recursive) ==> final(self)@ == unmatched_at(rested_at(removed_at(old(self)@, id), replacement(old(self)@.orders[id], new_id, new_price, new_quantity)), old(self)@.orders[id].symbol_id as int),
    {
        if id == 0 {
            return Err(ErrorCode::OrderIdInvalid);
        }
        if new_id == 0 {
            return Err(ErrorCode::OrderIdInvalid);
        }
        if new_quantity == 0 {
            return Err(ErrorCode::OrderQuantityInvalid);
        }
        let old_order = match table_get(&self.orders, id) {
            Some(o) => *o,
            None => {
                return Err(ErrorCode::OrderNotFound);
            },
        };
        if old_order.order_type != OrderType::Limit {
            return Err(ErrorCode::OrderTypeInvalid);
        }
        if new_id != id && table_contains(&self.orders, new_id) {
            return Err(ErrorCode::OrderDuplicate);
        }
        let symbol_id = old_order.symbol_id;
        let ghost mut fills: Seq<MarketState> = Seq::empty();
        let ghost mut rems: Seq<u64> = Seq::empty();
        let ghost mut stored: Map<OrderId, Order> = Map::empty();

        // Delete the old order from the book and from the held orders
        self.remove_order(id);
        self.on_delete_order(&old_order);

        // Transform
        let order = Order {
            id: new_id,
            price: new_price,
            quantity: new_quantity,
            executed_quantity: 0,
            leaves_quantity: new_quantity,
            ..old_order
        };
        self.on_add_order(&order);

        if self.matching && !recursive {
            self.insert_order(order);
            let mut order_mut = order;
            let ghost pre = self@;
            self.match_limit(symbol_id, &mut order_mut);
            let ghost (f, q) = choose|f: Seq<MarketState>, q: Seq<u64>|
                #[trigger] incoming_run(f, q, pre, self@, symbol_id as int, order.spec_is_buy(), Some(order.price), resets_matching(order.time_in_force))
                    && q[0] == order.leaves_quantity && q.last() == order_mut.leaves_quantity;
            let ghost post = self@;
            self.store_matched(new_id, order_mut.leaves_quantity, order_mut.executed_quantity);
            proof {
                fills = f;
                rems = q;
                stored = self@.orders;
                assert(f.last() == post);
                assert(pre.orders == old(self)@.orders.remove(id).insert(
                    new_id,
                    replacement(old(self)@.orders[id], new_id, new_price, new_quantity),
                ));
            }
            if table_contains(&self.orders, new_id) {
                self.unbook(new_id);
                self.book_order(new_id);
            }
        } else {
            if table_contains(&self.orders, order.id) {
                self.on_delete_order(&order);
                return Err(ErrorCode::OrderDuplicate);
            }
            self.insert_order(order);
            self.book_order(order.id);
        }

        let ghost mid = self@;
        let ghost mut run: Seq<MarketState> = seq![self@];
        if self.matching && !recursive {
            self.match_book(symbol_id);
            proof {
                run = choose|st: Seq<MarketState>| #[trigger] settled_run(st, mid, self@, symbol_id as int);
            }
        }
        self.reset_book_matching(symbol_id);
        proof {
            if old(self)@.matching && !recursive {
                let m = old(self)@.orders.remove(id).insert(new_id, replacement(old(self)@.orders[id], new_id, new_price, new_quantity));
                let pre0 = MarketState { orders: m, books: unbooked_books(old(self)@, id), ..old(self)@ };
                assert(mid.orders == stored);
                assert(rematched_at(fills, rems, stored, run, pre0, new_id, self@, symbol_id as int));
            }
        }
        Ok(())
    }

    fn delete_order_impl(&mut self, id: OrderId, recursive: bool) -> (r: Result<()>)
        requires
            old(self).wf(),
        ensures
            final(self).wf(),
            final(self)@.same_registry(old(self)@),
            r == (if id == 0 {
                Err(ErrorCode::OrderIdInvalid)
            } else if !old(self)@.orders.contains_key(id) {
                Err(ErrorCode::OrderNotFound)
            } else {
                Ok(())
            }),
            r is Err ==> final(self)@ == old(self)@,
            r is Ok ==> !final(self)@.orders.contains_key(id),
            no_new_orders(final(self)@, old(self)@, Set::empty()),
            r is Ok && (!old(self)@.matching || recursive) ==> final(self)@.orders == old(self)@.orders.remove(id),
            r is Ok && old(self)@.matching && !recursive && aon_free(old(self)@.orders) ==> uncrossed_at(
                final(self)@,
                old(self)@.orders[id].symbol_id as int,
            ),
            gives_nothing_back(final(self)@, old(self)@, Set::empty()),
            r is Ok && (!old(self)@.matching || recursive) ==> final(self)@.books == reset_books(
                unbooked_books(old(self)@, id),
                old(self)@.orders[id].symbol_id as int,
            ),
            r is Ok && old(self)@.matching && !recursive ==> matched_after(
                removed_at(old(self)@, id),
                final(self)@,
                old(self)@.orders[id].symbol_id as int,
            ),
            r is Err ==> final(self).notices() == old(self).notices(),
            r is Ok && (!old(self)@.matching || recursive) ==> final(self).notices() == old(self).notices().push(
                Notice::DeleteOrder(old(self)@.orders[id]),
            ),
            r is Ok && (!old(self)@.matching || recursive) ==> final(self)@ == unmatched_at(removed_at(old(self)@, id), old(self)@.orders[id].symbol_id as int),
    {
        if id == 0 {
            return Err(ErrorCode::OrderIdInvalid);
        }
        let symbol_id = match table_get(&self.orders, id) {
            Some(o) => o.symbol_id,
            None => {
                return Err(ErrorCode::OrderNotFound);
            },
        };
        let order = self.remove_order(id);
        self.on_delete_order(&order);

        let ghost mid = self@;
        let ghost mut run: Seq<MarketState> = seq![self@];
        if self.matching && !recursive {
            self.match_book(symbol_id);
            proof {
                run = choose|st: Seq<MarketState>| #[trigger] settled_run(st, mid, self@, symbol_id as int);
            }
        }
        self.reset_book_matching(symbol_id);
        proof {
            if old(self)@.matching && !recursive {
                assert(book_match(run, removed_at(old(self)@, id), self@, symbol_id as int));
            }
        }
        Ok(())
    }

    fn add_market_order(&mut self, order: Order, recursive: bool) -> (r: Result<()>)
        requires
            old(self).wf(),
            order.leaves_quantity > 0,
            order.order_type == OrderType::Market,
        ensures
            final(self).wf(),
            final(self)@.same_registry(old(self)@),
            r == Ok::<(), ErrorCode>(()),
            no_new_orders(final(self)@, old(self)@, Set::empty()),
            !old(self)@.matching || recursive ==> final(self)@.orders == old(self)@.orders,
            r is Ok && old(self)@.matching && !recursive && aon_free(old(self)@.orders) && order.time_in_force
                != OrderTimeInForce::Aon ==> uncrossed_at(final(self)@, order.symbol_id as int),
            gives_nothing_back(final(self)@, old(self)@, Set::empty()),
            !rests_unmatched(order) && !old(self)@.orders.contains_key(order.id) ==> !final(self)@.orders.contains_key(order.id),
            old(self)@.matching && !recursive ==> market_entry(old(self)@, final(self)@, order),
            !old(self)@.matching || recursive ==> final(self).notices() == old(self).notices().push(
                Notice::AddOrder(order),
            ).push(Notice::DeleteOrder(order)),
            r is Ok && (!old(self)@.matching || recursive) ==> final(self)@ == unmatched_at(
                if rests_unmatched(order) { rested_at(old(self)@, entry_form(old(self)@, order)) } else { old(self)@ },
                order.symbol_id as int,
            ),
    {
        let mut order = order;
        let symbol_id = order.symbol_id;
        self.on_add_order(&order);
        let ghost sym = symbol_id as int;
        let ghost o0 = order;
        let ghost start = self@;
        let ghost mut fills: Seq<MarketState> = seq![self@];
        let ghost mut rems: Seq<u64> = seq![order.leaves_quantity];

        if self.matching && !recursive {
            self.match_market(symbol_id, &mut order);
            proof {
                if market_entry_price(start, sym, o0) is Some {
                    let p = market_entry_price(start, sym, o0).unwrap();
                    let (f, q) = choose|f: Seq<MarketState>, q: Seq<u64>|
                        #[trigger] incoming_run(f, q, start, self@, sym, o0.spec_is_buy(), Some(p), resets_matching(o0.time_in_force)) && q[0]
                            == o0.leaves_quantity && q.last() == order.leaves_quantity;
                    fills = f;
                    rems = q;
                }
            }
        }
        let ghost matched = self@;

        self.on_delete_order(&order);

        let ghost mut run: Seq<MarketState> = seq![self@];
        if self.matching && !recursive {
            self.match_book(symbol_id);
            proof {
                run = choose|st: Seq<MarketState>| #[trigger] settled_run(st, matched, self@, sym);
            }
        }
        self.reset_book_matching(symbol_id);
        proof {
            if old(self)@.matching && !recursive {
                assert(fills.last() == matched);
                assert(market_entry_at(fills, rems, run, old(self)@, self@, o0));
            }
        }
        Ok(())
    }

    /// The resting part of an accepted limit order: held and queued in its book, with the
    /// level update notified.
    fn rest_limit_order(&mut self, order: Order) -> (r: Result<()>)
        requires
            old(self).wf(),
            order_ok(order),
            order.order_type == OrderType::Limit,
        ensures
            final(self).wf(),
            final(self)@.same_registry(old(self)@),
            r == (if old(self)@.orders.contains_key(order.id) {
                Err(ErrorCode::OrderDuplicate)
            } else {
                Ok(())
            }),
            r is Ok && placeable(old(self)@, order) ==> final(self)@.is_queued(order),
            r is Ok ==> final(self)@.books == placed_books(old(self)@, order),
            r is Ok ==> final(self)@ == rested_at(old(self)@, order),
            r is Err ==> final(self)@ == old(self)@,
            final(self)@.orders == (if r is Ok {
                old(self)@.orders.insert(order.id, order)
            } else {
                old(self)@.orders
            }),
            r is Err ==> final(self).notices() == old(self).notices().push(Notice::DeleteOrder(order)),
            r is Ok ==> final(self).notices() == old(self).notices() + placement_notices(old(self)@, order),
    {
        let symbol_id = order.symbol_id;
        if table_contains(&self.orders, order.id) {
            self.on_delete_order(&order);
            return Err(ErrorCode::OrderDuplicate);
        }
        self.insert_order(order);
        match self.book_order(order.id) {
            Some(update) => self.update_level(symbol_id, &update),
            None => {},
        }
        Ok(())
    }

    /// The resting part of an accepted stop order: held and queued in its stop collection.
    fn rest_stop_order(&mut self, order: Order) -> (r: Result<()>)
        requires
            old(self).wf(),
            order_ok(order),
        ensures
            final(self).wf(),
            final(self)@.same_registry(old(self)@),
            r == (if old(self)@.orders.contains_key(order.id) {
                Err(ErrorCode::OrderDuplicate)
            } else {
                Ok(())
            }),
            r is Err ==> final(self)@ == old(self)@,
            final(self)@.orders == (if r is Ok {
                old(self)@.orders.insert(order.id, order)
            } else {
                old(self)@.orders
            }),
            r is Ok && placeable(old(self)@, order) ==> final(self)@.is_queued(order),
            r is Ok ==> final(self)@ == rested_at(old(self)@, order),
            r is Err ==> final(self).notices() == old(self).notices().push(Notice::DeleteOrder(order)),
            r is Ok ==> final(self).notices() == old(self).notices(),
    {
        if table_contains(&self.orders, order.id) {
            self.on_delete_order(&order);
            return Err(ErrorCode::OrderDuplicate);
        }
        self.insert_order(order);
        self.book_order(order.id);
        Ok(())
    }

    fn add_limit_order(&mut self, order: Order, recursive: bool) -> (r: Result<()>)
        requires
            old(self).wf(),
            order.order_type == OrderType::Limit,
            order.leaves_quantity > 0,
            order.id != 0,
        ensures
            final(self).wf(),
            final(self)@.same_registry(old(self)@),
            r is Ok || r == Err::<(), ErrorCode>(ErrorCode::OrderDuplicate),
            r == Err::<(), ErrorCode>(ErrorCode::OrderDuplicate) ==> old(self)@.orders.contains_key(order.id),
            r is Err && (!old(self)@.matching || recursive) ==> final(self)@ == old(self)@,
            no_new_orders(final(self)@, old(self)@, set![order.id]),
            !old(self)@.matching || recursive ==> {
                let rests = rests_unmatched(order);
                let held = old(self)@.orders.contains_key(order.id);
                &&& r == (if rests && held { Err(ErrorCode::OrderDuplicate) } else { Ok(()) })
                &&& final(self)@.orders == (if rests && !held {
                    old(self)@.orders.insert(order.id, order)
                } else {
                    old(self)@.orders
                })
            },
            r is Ok && old(self)@.matching && !recursive && aon_free(old(self)@.orders) && order.time_in_force
                != OrderTimeInForce::Aon ==> uncrossed_at(final(self)@, order.symbol_id as int),
            gives_nothing_back(final(self)@, old(self)@, set![order.id]),
            !rests_unmatched(order) && !old(self)@.orders.contains_key(order.id) ==> !final(self)@.orders.contains_key(order.id),
            old(self)@.matching && !recursive ==> limit_entry(old(self)@, final(self)@, order, r),
            r is Ok && (!old(self)@.matching || recursive) && rests_unmatched(order) ==> final(self)@.books == reset_books(
                placed_books(old(self)@, order),
                order.symbol_id as int,
            ),
            !old(self)@.matching || recursive ==> final(self).notices() == old(self).notices() + limit_add_notices(
                old(self)@,
                order,
            ),
            r is Ok && (!old(self)@.matching || recursive) ==> final(self)@ == unmatched_at(
                if rests_unmatched(order) { rested_at(old(self)@, entry_form(old(self)@, order)) } else { old(self)@ },
                order.symbol_id as int,
            ),
    {
        let ghost o0 = order;
        let mut order = order;
        let symbol_id = order.symbol_id;
        self.on_add_order(&order);
        let ghost sym = symbol_id as int;
        let ghost mut fills: Seq<MarketState> = seq![self@];
        let ghost mut rems: Seq<u64> = seq![order.leaves_quantity];

        if self.matching && !recursive {
            let ghost pre = self@;
            self.match_limit(symbol_id, &mut order);
            proof {
                let (f, q) = choose|f: Seq<MarketState>, q: Seq<u64>|
                    #[trigger] incoming_run(f, q, pre, self@, sym, o0.spec_is_buy(), Some(o0.price), resets_matching(o0.time_in_force)) && q[0]
                        == o0.leaves_quantity && q.last() == order.leaves_quantity;
                fills = f;
                rems = q;
            }
        }
        let ghost matched = self@;
        proof {
            if old(self)@.matching && !recursive {
                assert(fills.last() == matched);
                assert(o0 == Order { price: o0.price, ..o0 });
                assert(fills_end(fills, rems, old(self)@, sym, o0, o0.price));
            }
        }

        if order.leaves_quantity > 0 && !order.is_ioc() && !order.is_fok() {
            let rested = self.rest_limit_order(order);
            if rested.is_err() {
                proof {
                    if old(self)@.matching && !recursive {
                        assert(limit_entry_at(fills, rems, self@, seq![self@], old(self)@, self@, o0, rested));
                    }
                }
                return rested;
            }
        } else {
            self.on_delete_order(&order);
        }

        let ghost rested = self@;
        let ghost mut run: Seq<MarketState> = seq![self@];
        if self.matching && !recursive {
            self.match_book(symbol_id);
            proof {
                run = choose|st: Seq<MarketState>| #[trigger] settled_run(st, rested, self@, sym);
            }
        }
        self.reset_book_matching(symbol_id);
        proof {
            if old(self)@.matching && !recursive {
                assert(limit_entry_at(fills, rems, rested, run, old(self)@, self@, o0, Ok(())));
            }
        }
        Ok(())
    }

    /// A stop order whose stop price the market has already reached trades at once as a
    /// market order (or as a limit order, for a stop-limit order).
    fn stop_triggered(&self, order: &Order) -> (r: bool)
        ensures
            r == (if order.spec_is_buy() {
                order.stop_price <= market_ask_of(self@, order.symbol_id as int)
            } else {
                order.stop_price >= market_bid_of(self@, order.symbol_id as int)
            }),
    {
        let stop_price = if order.is_buy() {
            self.market_price_ask(order.symbol_id)
        } else {
            self.market_price_bid(order.symbol_id)
        };
        if order.is_buy() {
            order.stop_price <= stop_price
        } else {
            order.stop_price >= stop_price
        }
    }

    fn add_stop_order(&mut self, order: Order, recursive: bool) -> (r: Result<()>)
        requires
            old(self).wf(),
            order.order_type == OrderType::Stop || order.order_type == OrderType::TrailingStop,
            order.leaves_quantity > 0,
            order.id != 0,
        ensures
            final(self).wf(),
            final(self)@.same_registry(old(self)@),
            r is Ok || r == Err::<(), ErrorCode>(ErrorCode::OrderDuplicate),
            r == Err::<(), ErrorCode>(ErrorCode::OrderDuplicate) ==> old(self)@.orders.contains_key(order.id),
            r is Err && (!old(self)@.matching || recursive) ==> final(self)@ == old(self)@,
            no_new_orders(final(self)@, old(self)@, set![order.id]),
            !old(self)@.matching || recursive ==> {
                let held = old(self)@.orders.contains_key(order.id);
                &&& r == (if held { Err(ErrorCode::OrderDuplicate) } else { Ok(()) })
                &&& final(self)@.orders == (if !held {
                    old(self)@.orders.insert(order.id, entry_form(old(self)@, order))
                } else {
                    old(self)@.orders
                })
            },
            r is Ok && old(self)@.matching && !recursive && aon_free(old(self)@.orders) && order.time_in_force
                != OrderTimeInForce::Aon ==> uncrossed_at(final(self)@, order.symbol_id as int),
            gives_nothing_back(final(self)@, old(self)@, set![order.id]),
            old(self)@.matching && !recursive ==> stop_entry(old(self)@, final(self)@, order, r),
            !old(self)@.matching || recursive ==> final(self).notices() == old(self).notices() + stop_add_notices(
                old(self)@,
                order,
            ),
            r is Ok && (!old(self)@.matching || recursive) ==> final(self)@ == unmatched_at(
                if rests_unmatched(order) { rested_at(old(self)@, entry_form(old(self)@, order)) } else { old(self)@ },
                order.symbol_id as int,
            ),
    {
        let ghost o0 = order;
        let ghost sym = order.symbol_id as int;
        let mut order = order;
        let symbol_id = order.symbol_id;

        // Recalculate trailing stop price
        if order.is_trailing_stop() || order.is_trailing_stop_limit() {
            match self.get_order_book(symbol_id) {
                Some(ob) => {
                    if ob.trailing_stop_price_defined(&order) {
                        order.stop_price = ob.calculate_trailing_stop_price(&order);
                    }
                },
                None => {},
            }
        }

        self.on_add_order(&order);
        let ghost e = order;
        proof {
            assert(e == entry_form(old(self)@, o0));
        }

        if self.matching && !recursive {
            if self.stop_triggered(&order) {
                order.order_type = OrderType::Market;
                order.price = 0;
                order.stop_price = 0;
                order.time_in_force = if order.is_fok() { OrderTimeInForce::Fok } else { OrderTimeInForce::Ioc };
                self.on_update_order(&order);
                let ghost m0 = order;
                let ghost start = self@;
                proof {
                    assert(m0 == as_market(e));
                }
                let ghost mut fills: Seq<MarketState> = seq![self@];
                let ghost mut rems: Seq<u64> = seq![order.leaves_quantity];
                self.match_market(symbol_id, &mut order);
                proof {
                    if market_entry_price(start, sym, m0) is Some {
                        let p = market_entry_price(start, sym, m0).unwrap();
                        let (f, q) = choose|f: Seq<MarketState>, q: Seq<u64>|
                            #[trigger] incoming_run(f, q, start, self@, sym, m0.spec_is_buy(), Some(p), resets_matching(m0.time_in_force)) && q[0]
                                == m0.leaves_quantity && q.last() == order.leaves_quantity;
                        fills = f;
                        rems = q;
                    }
                }
                let ghost matched = self@;
                self.on_delete_order(&order);
                let ghost mut run: Seq<MarketState> = seq![self@];
                if self.matching {
                    self.match_book(symbol_id);
                    proof {
                        run = choose|st: Seq<MarketState>| #[trigger] settled_run(st, matched, self@, sym);
                    }
                }
                self.reset_book_matching(symbol_id);
                proof {
                    assert(fills.last() == matched);
                    assert(market_entry_at(fills, rems, run, old(self)@, self@, as_market(e)));
                    assert(stop_fires(old(self)@, e));
                }
                return Ok(());
            }
        }
        let ghost before_rest = self@;

        if order.leaves_quantity > 0 {
            let rested = self.rest_stop_order(order);
            if rested.is_err() {
                proof {
                    if old(self)@.matching && !recursive {
                        assert(!stop_fires(old(self)@, e));
                        assert(self@ == old(self)@);
                    }
                }
                return rested;
            }
        } else {
            self.on_delete_order(&order);
        }

        let ghost rested = self@;
        let ghost mut run: Seq<MarketState> = seq![self@];
        if self.matching && !recursive {
            self.match_book(symbol_id);
            proof {
                run = choose|st: Seq<MarketState>| #[trigger] settled_run(st, rested, self@, sym);
            }
        }
        self.reset_book_matching(symbol_id);
        proof {
            if old(self)@.matching && !recursive {
                assert(!stop_fires(old(self)@, e));
                assert(stop_rest_at(rested, run, old(self)@, self@, e));
            }
        }
        Ok(())
    }

    fn add_stop_limit_order(&mut self, order: Order, recursive: bool) -> (r: Result<()>)
        requires
            old(self).wf(),
            order.order_type == OrderType::StopLimit || order.order_type == OrderType::TrailingStopLimit,
            order.leaves_quantity > 0,
            order.id != 0,
        ensures
            final(self).wf(),
            final(self)@.same_registry(old(self)@),
            r is Ok || r == Err::<(), ErrorCode>(ErrorCode::OrderDuplicate),
            r == Err::<(), ErrorCode>(ErrorCode::OrderDuplicate) ==> old(self)@.orders.contains_key(order.id),
            r is Err && (!old(self)@.matching || recursive) ==> final(self)@ == old(self)@,
            no_new_orders(final(self)@, old(self)@, set![order.id]),
            !old(self)@.matching || recursive ==> {
                let held = old(self)@.orders.contains_key(order.id);
                &&& r == (if held { Err(ErrorCode::OrderDuplicate) } else { Ok(()) })
                &&& final(self)@.orders == (if !held {
                    old(self)@.orders.insert(order.id, entry_form(old(self)@, order))
                } else {
                    old(self)@.orders
                })
            },
            r is Ok && old(self)@.matching && !recursive && aon_free(old(self)@.orders) && order.time_in_force
                != OrderTimeInForce::Aon ==> uncrossed_at(final(self)@, order.symbol_id as int),
            gives_nothing_back(final(self)@, old(self)@, set![order.id]),
            old(self)@.matching && !recursive ==> stop_entry(old(self)@, final(self)@, order, r),
            !old(self)@.matching || recursive ==> final(self).notices() == old(self).notices() + stop_add_notices(
                old(self)@,
                order,
            ),
            r is Ok && (!old(self)@.matching || recursive) ==> final(self)@ == unmatched_at(
                if rests_unmatched(order) { rested_at(old(self)@, entry_form(old(self)@, order)) } else { old(self)@ },
                order.symbol_id as int,
            ),
    {
        let ghost o0 = order;
        let ghost sym = order.symbol_id as int;
        let mut order = order;
        let symbol_id = order.symbol_id;

        if order.is_trailing_stop() || order.is_trailing_stop_limit() {
            match self.get_order_book(symbol_id) {
                Some(ob) => {
                    if ob.trailing_stop_price_defined(&order) {
                        let diff = (order.price as i64).wrapping_sub(order.stop_price as i64);
                        order.stop_price = ob.calculate_trailing_stop_price(&order);
                        order.price = order.stop_price.wrapping_add_signed(diff);
                    }
                },
                None => {},
            }
        }

        self.on_add_order(&order);
        let ghost e = order;
        proof {
            assert(e == entry_form(old(self)@, o0));
        }

        if self.matching && !recursive {
            if self.stop_triggered(&order) {
                order.order_type = OrderType::Limit;
                order.stop_price = 0;
                self.on_update_order(&order);
                let ghost l0 = order;
                let ghost start = self@;
                proof {
                    assert(l0 == as_limit(e));
                }
                self.match_limit(symbol_id, &mut order);
                let ghost (fills, rems) = choose|f: Seq<MarketState>, q: Seq<u64>|
                    #[trigger] incoming_run(f, q, start, self@, sym, l0.spec_is_buy(), Some(l0.price), resets_matching(l0.time_in_force)) && q[0]
                        == l0.leaves_quantity && q.last() == order.leaves_quantity;
                let ghost matched = self@;
                proof {
                    assert(fills.last() == matched);
                    assert(l0 == Order { price: l0.price, ..l0 });
                    assert(fills_end(fills, rems, old(self)@, sym, l0, l0.price));
                    assert(stop_fires(old(self)@, e));
                }

                if order.leaves_quantity > 0 && !order.is_ioc() && !order.is_fok() {
                    let rested = self.rest_limit_order(order);
                    if rested.is_err() {
                        proof {
                            assert(limit_entry_at(fills, rems, self@, seq![self@], old(self)@, self@, as_limit(e), rested));
                        }
                        return rested;
                    }
                } else {
                    self.on_delete_order(&order);
                }

                let ghost rested = self@;
                let ghost mut run: Seq<MarketState> = seq![self@];
                if self.matching {
                    self.match_book(symbol_id);
                    proof {
                        run = choose|st: Seq<MarketState>| #[trigger] settled_run(st, rested, self@, sym);
                    }
                }
                self.reset_book_matching(symbol_id);
                proof {
                    assert(fills.last() == matched);
                    assert(limit_entry_at(fills, rems, rested, run, old(self)@, self@, as_limit(e), Ok(())));
                    assert(stop_fires(old(self)@, e));
                }
                return Ok(());
            }
        }

        if order.leaves_quantity > 0 {
            let rested = self.rest_stop_order(order);
            if rested.is_err() {
                proof {
                    if old(self)@.matching && !recursive {
                        assert(!stop_fires(old(self)@, e));
                        assert(self@ == old(self)@);
                    }
                }
                return rested;
            }
        } else {
            self.on_delete_order(&order);
        }

        let ghost rested = self@;
        let ghost mut run: Seq<MarketState> = seq![self@];
        if self.matching && !recursive {
            self.match_book(symbol_id);
            proof {
                run = choose|st: Seq<MarketState>| #[trigger] settled_run(st, rested, self@, sym);
            }
        }
        self.reset_book_matching(symbol_id);
        proof {
            if old(self)@.matching && !recursive {
                assert(!stop_fires(old(self)@, e));
                assert(stop_rest_at(rested, run, old(self)@, self@, e));
            }
        }
        Ok(())
    }

    // -- Handler notifications -------------------------------------------------

    fn on_add_symbol(&mut self, symbol: &Symbol)
        ensures
            final(self)@ == old(self)@,
            final(self).notices() == old(self).notices().push(Notice::AddSymbol(*symbol)),
    {
        self.handler.on_add_symbol(symbol);
        proof {
            self.notices@ = self.notices@.push(Notice::AddSymbol(*symbol));
        }
    }

    fn on_delete_symbol(&mut self, symbol: &Symbol)
        ensures
            final(self)@ == old(self)@,
            final(self).notices() == old(self).notices().push(Notice::DeleteSymbol(*symbol)),
    {
        self.handler.on_delete_symbol(symbol);
        proof {
            self.notices@ = self.notices@.push(Notice::DeleteSymbol(*symbol));
        }
    }

    fn on_add_order_book(&mut self, order_book: &OrderBook)
        ensures
            final(self)@ == old(self)@,
            final(self).notices() == old(self).notices().push(Notice::AddOrderBook(order_book@)),
    {
        self.handler.on_add_order_book(order_book);
        proof {
            self.notices@ = self.notices@.push(Notice::AddOrderBook(order_book@));
        }
    }

    fn on_delete_order_book(&mut self, order_book: &OrderBook)
        ensures
            final(self)@ == old(self)@,
            final(self).notices() == old(self).notices().push(Notice::DeleteOrderBook(order_book@)),
    {
        self.handler.on_delete_order_book(order_book);
        proof {
            self.notices@ = self.notices@.push(Notice::DeleteOrderBook(order_book@));
        }
    }

    fn on_add_order(&mut self, order: &Order)
        ensures
            final(self)@ == old(self)@,
            final(self).notices() == old(self).notices().push(Notice::AddOrder(*order)),
    {
        self.handler.on_add_order(order);
        proof {
            self.notices@ = self.notices@.push(Notice::AddOrder(*order));
        }
    }

    fn on_update_order(&mut self, order: &Order)
        ensures
            final(self)@ == old(self)@,
            final(self).notices() == old(self).notices().push(Notice::UpdateOrder(*order)),
    {
        self.handler.on_update_order(order);
        proof {
            self.notices@ = self.notices@.push(Notice::UpdateOrder(*order));
        }
    }

    fn on_delete_order(&mut self, order: &Order)
        ensures
            final(self)@ == old(self)@,
            final(self).notices() == old(self).notices().push(Notice::DeleteOrder(*order)),
    {
        self.handler.on_delete_order(order);
        proof {
            self.notices@ = self.notices@.push(Notice::DeleteOrder(*order));
        }
    }

    fn on_execute_order(&mut self, order: &Order, price: u64, quantity: u64)
        ensures
            final(self)@ == old(self)@,
            final(self).notices() == old(self).notices().push(Notice::ExecuteOrder(*order, price, quantity)),
    {
        self.handler.on_execute_order(order, price, quantity);
        proof {
            self.notices@ = self.notices@.push(Notice::ExecuteOrder(*order, price, quantity));
        }
    }

    // -- Book prices -------------------------------------------------------------

    /// An execution of `order` at `price` sets the last and the matching price of the order's
    /// side in the book of `sym`.
    fn update_book_prices(&mut self, sym: u32, order: &Order, price: u64)
        requires
            old(self)@.wf(),
        ensures
            final(self).notices() == old(self).notices(),
            final(self)@ == (match old(self)@.book_of(sym as int) {
                Some(b) => MarketState {
                    books: old(self)@.books.update(sym as int, Some(priced_book(b, *order, price))),
                    ..old(self)@
                },
                None => old(self)@,
            }),
            final(self)@.wf(),
            final(self)@.same_registry(old(self)@),
            final(self)@.orders == old(self)@.orders,
            limits_within(final(self)@, old(self)@, None),
            forall|s: BookSide| side_unchanged(final(self)@, old(self)@, s),
    {
        let ghost st = self@;
        let idx = sym as usize;
        if idx < self.order_books.len() && self.order_books[idx].is_some() {
            match &mut self.order_books[idx] {
                Some(ob) => {
                    ob.update_last_price(order, price);
                    ob.update_matching_price(order, price);
                },
                None => {},
            }
            proof {
                let nb = self.order_books@[idx as int].unwrap()@;
                lemma_book_views_update(old(self).order_books@, idx as int, self.order_books@[idx as int]);
                lemma_same_levels_consistent(st.books[idx as int].unwrap(), nb, idx as int, st.orders);
                lemma_book_change(st, idx as int, nb);
                assert(self@ == MarketState { books: st.books.update(idx as int, Some(nb)), ..st });
            }
        }
    }

    /// Clear the matching prices of the book of `sym`.
    fn reset_book_matching(&mut self, sym: u32)
        requires
            old(self)@.wf(),
        ensures
            final(self).notices() == old(self).notices(),
            final(self)@ == (match old(self)@.book_of(sym as int) {
                Some(b) => MarketState {
                    books: old(self)@.books.update(sym as int, Some(unmatched_book(b))),
                    ..old(self)@
                },
                None => old(self)@,
            }),
            final(self)@.wf(),
            final(self)@.same_registry(old(self)@),
            final(self)@.orders == old(self)@.orders,
            limits_within(final(self)@, old(self)@, None),
            forall|s: BookSide| side_unchanged(final(self)@, old(self)@, s),
    {
        let ghost st = self@;
        let idx = sym as usize;
        if idx < self.order_books.len() && self.order_books[idx].is_some() {
            match &mut self.order_books[idx] {
                Some(ob) => {
                    ob.reset_matching_price();
                },
                None => {},
            }
            proof {
                let nb = self.order_books@[idx as int].unwrap()@;
                lemma_book_views_update(old(self).order_books@, idx as int, self.order_books@[idx as int]);
                lemma_same_levels_consistent(st.books[idx as int].unwrap(), nb, idx as int, st.orders);
                lemma_book_change(st, idx as int, nb);
                assert(self@ == MarketState { books: st.books.update(idx as int, Some(nb)), ..st });
            }
        }
    }

    /// The market ask price of the book of `sym`, `u64::MAX` without a book.
    fn market_price_ask(&self, sym: u32) -> (r: u64)
        ensures
            r == market_ask_of(self@, sym as int),
    {
        match self.get_order_book(sym) {
            Some(ob) => ob.get_market_price_ask(),
            None => u64::MAX,
        }
    }

    /// The market bid price of the book of `sym`, 0 without a book.
    fn market_price_bid(&self, sym: u32) -> (r: u64)
        ensures
            r == market_bid_of(self@, sym as int),
    {
        match self.get_order_book(sym) {
            Some(ob) => ob.get_market_price_bid(),
            None => 0,
        }
    }

    /// The price and the front order of the best bid level (or ask level) of the book of
    /// `sym`.
    fn best_front(&self, sym: u32, bid_side: bool) -> (r: Option<(u64, OrderId)>)
        requires
            self@.wf(),
        ensures
            match self@.book_of(sym as int) {
                None => r is None,
                Some(b) => {
                    let s = if bid_side { BookSide::Bids } else { BookSide::Asks };
                    match r {
                        None => b.side(s).dom().is_empty(),
                        Some((p, id)) => {
                            &&& (if bid_side { is_highest(b.side(s), p) } else { is_lowest(b.side(s), p) })
                            &&& p == best_key(b.side(s), bid_side)
                            &&& b.side(s)[p].queue[0] == id
                            &&& rests_at(self@.orders, id, s, p, sym as int)
                        },
                    }
                },
            },
            r matches Some((_, id)) ==> front_of(self@, sym as int, bid_side) == Some(id),
            r is None ==> front_of(self@, sym as int, bid_side) is None,
    {
        match self.get_order_book(sym) {
            Some(ob) => {
                let level = if bid_side { ob.best_bid() } else { ob.best_ask() };
                let ghost b = ob@;
                let ghost s = if bid_side { BookSide::Bids } else { BookSide::Asks };
                match level {
                    Some(l) => {
                        let ghost k = if bid_side { highest(b.side(s)) } else { lowest(b.side(s)) };
                        proof {
                            assert(b.side(s).contains_key(k));
                            assert(level_consistent(b.side(s)[k], s, k, sym as int, self@.orders));
                        }
                        match l.front_order_id() {
                            Some(id) => Some((l.level.price, id)),
                            None => None,
                        }
                    },
                    None => None,
                }
            },
            None => None,
        }
    }

    // -- Reductions ------------------------------------------------------------

    /// The reduction itself: checks, new record, notification and book; the symbol comes back.
    fn reduce_order_step(&mut self, id: OrderId, quantity: u64) -> (r: Result<u32>)
        requires
            old(self)@.wf(),
        ensures
            evolves(final(self)@, old(self)@),
            r == (if id == 0 {
                Err(ErrorCode::OrderIdInvalid)
            } else if quantity == 0 {
                Err(ErrorCode::OrderQuantityInvalid)
            } else if !old(self)@.orders.contains_key(id) {
                Err(ErrorCode::OrderNotFound)
            } else {
                Ok(old(self)@.orders[id].symbol_id)
            }),
            r is Err ==> final(self)@ == old(self)@,
            r is Ok ==> ({
                let o = old(self)@.orders[id];
                let q = if quantity < o.leaves_quantity { quantity } else { o.leaves_quantity };
                final(self)@.orders == (if q < o.leaves_quantity {
                    old(self)@.orders.insert(id, Order { leaves_quantity: (o.leaves_quantity - q) as u64, ..o })
                } else {
                    old(self)@.orders.remove(id)
                })
            }),
            r is Ok ==> final(self)@ == reduced_at(old(self)@, id, quantity),
            limits_within(final(self)@, old(self)@, None),
            r is Err ==> final(self).notices() == old(self).notices(),
            r is Ok ==> final(self).notices() == old(self).notices().push(change_notice(reduced_order(old(self)@.orders[id], quantity))),
    {
        if id == 0 {
            return Err(ErrorCode::OrderIdInvalid);
        }
        if quantity == 0 {
            return Err(ErrorCode::OrderQuantityInvalid);
        }
        let order = match table_get(&self.orders, id) {
            Some(o) => *o,
            None => {
                return Err(ErrorCode::OrderNotFound);
            },
        };
        let symbol_id = order.symbol_id;
        let quantity = if quantity < order.leaves_quantity { quantity } else { order.leaves_quantity };
        let reduced = Order { leaves_quantity: order.leaves_quantity - quantity, ..order };
        proof {
            crate::matching::order::lemma_parts_monotone(order, reduced.leaves_quantity);
        }
        if reduced.leaves_quantity > 0 {
            self.on_update_order(&reduced);
        } else {
            self.on_delete_order(&reduced);
        }
        self.reduce_record(reduced);
        proof {
            assert(self@.orders =~= reduced_orders(old(self)@.orders, id, quantity));
            assert(self@.books == shrunk_books(old(self)@, id, quantity));
            assert(self@ == reduced_at(old(self)@, id, quantity));
        }
        Ok(symbol_id)
    }

    /// A reduction made inside matching: no matching of its own.
    fn reduce_order_nested(&mut self, id: OrderId, quantity: u64) -> (r: Result<()>)
        requires
            old(self)@.wf(),
        ensures
            evolves(final(self)@, old(self)@),
            limits_within(final(self)@, old(self)@, None),
            r == (if id == 0 {
                Err(ErrorCode::OrderIdInvalid)
            } else if quantity == 0 {
                Err(ErrorCode::OrderQuantityInvalid)
            } else if !old(self)@.orders.contains_key(id) {
                Err(ErrorCode::OrderNotFound)
            } else {
                Ok(())
            }),
            r is Err ==> final(self)@ == old(self)@,
            r is Ok ==> final(self)@.orders == reduced_orders(old(self)@.orders, id, quantity),
            r is Ok ==> final(self)@ == unmatched_at(reduced_at(old(self)@, id, quantity), old(self)@.orders[id].symbol_id as int),
    {
        let symbol_id = self.reduce_order_step(id, quantity)?;
        let ghost mid = self@;
        self.reset_book_matching(symbol_id);
        proof {
            lemma_within_trans(self@, mid, old(self)@);
        }
        Ok(())
    }

    // -- Matching engine ---------------------------------------------------------

    /// Execute the incoming order against the opposing side of the book while prices cross.
    /// A fill-or-kill or all-or-none order fills completely when the opposing levels within
    /// its limit price hold its remaining quantity, and otherwise changes nothing.
    #[verifier::rlimit(60)]
    fn match_order_impl(&mut self, symbol_id: u32, order: &mut Order)
        requires
            old(self)@.wf(),
            old(order).leaves_quantity > 0,
        ensures
            evolves(final(self)@, old(self)@),
            *final(order) == (Order {
                executed_quantity: final(order).executed_quantity,
                leaves_quantity: final(order).leaves_quantity,
                ..*old(order)
            }),
            final(order).leaves_quantity <= old(order).leaves_quantity,
            limits_within(final(self)@, old(self)@, None),
            aon_free(old(self)@.orders) && old(order).time_in_force != OrderTimeInForce::Aon
                && old(order).time_in_force != OrderTimeInForce::Fok && final(order).leaves_quantity > 0
                ==> clears_opposing(final(self)@, symbol_id as int, *final(order)),
            final(order).executed_quantity == grown(
                old(order).executed_quantity,
                old(order).leaves_quantity - final(order).leaves_quantity,
            ),
            whole_or_nothing(old(order).time_in_force) && old(order).leaves_quantity > 0 ==> if fills_at_once(
                old(self)@,
                symbol_id as int,
                *old(order),
            ) {
                final(order).leaves_quantity == 0
            } else {
                final(self)@ == old(self)@ && *final(order) == *old(order)
            },
            exists|states: Seq<MarketState>, rems: Seq<u64>|
                #[trigger] incoming_run(
                    states,
                    rems,
                    old(self)@,
                    final(self)@,
                    symbol_id as int,
                    old(order).spec_is_buy(),
                    Some(old(order).price),
                    resets_matching(old(order).time_in_force),
                ) && rems[0] == old(order).leaves_quantity && rems.last() == final(order).leaves_quantity,
            incoming_done(final(self)@, symbol_id as int, *old(order), old(order).price, final(order).leaves_quantity),
    {
        let ghost sym = symbol_id as int;
        let ghost buy = order.spec_is_buy();
        let ghost limit = order.price;
        let ghost reset = resets_matching(order.time_in_force);
        let ghost mut states: Seq<MarketState> = seq![self@];
        let ghost mut rems: Seq<u64> = seq![order.leaves_quantity];
        proof {
            lemma_fill_run_start(self@, order.leaves_quantity, sym, !buy, Some(limit), None, reset);
        }
        loop
            invariant
                sym == symbol_id as int,
                buy == old(order).spec_is_buy(),
                limit == old(order).price,
                reset == resets_matching(old(order).time_in_force),
                incoming_run(states, rems, old(self)@, self@, sym, buy, Some(limit), reset),
                rems[0] == old(order).leaves_quantity,
                rems.last() == order.leaves_quantity,
                evolves(self@, old(self)@),
                *order == (Order {
                    executed_quantity: order.executed_quantity,
                    leaves_quantity: order.leaves_quantity,
                    ..*old(order)
                }),
                order.leaves_quantity <= old(order).leaves_quantity,
                order.leaves_quantity > 0,
                order.executed_quantity == grown(
                    old(order).executed_quantity,
                    old(order).leaves_quantity - order.leaves_quantity,
                ),
                limits_within(self@, old(self)@, None),
                whole_or_nothing(old(order).time_in_force) ==> self@ == old(self)@ && *order == *old(order),
            decreases order.leaves_quantity,
        {
            let ghost cur = self@;
            proof {
                if aon_free(old(self)@.orders) {
                    lemma_aon_free_evolves(self@, old(self)@);
                }
            }
            // The best opposing level
            proof {
                self.lemma_books_finite(symbol_id as int);
            }
            let level_info = self.best_front(symbol_id, !order.is_buy());
            let (level_price, opposing_id) = match level_info {
                Some(v) => v,
                None => {
                    proof {
                        if self@.book_of(symbol_id as int) is Some {
                            let b = self@.book_of(symbol_id as int).unwrap();
                            crate::matching::depth::lemma_depth_empty(opposing(b, order.spec_is_buy()), order.spec_is_buy(), order.price);
                        }
                    }
                    return;
                },
            };

            // Check arbitrage
            let arbitrage = if order.is_buy() {
                order.price >= level_price
            } else {
                order.price <= level_price
            };
            if !arbitrage {
                proof {
                    let b = self@.book_of(symbol_id as int).unwrap();
                    if crate::matching::depth::depth(b, order.spec_is_buy(), order.price) > 0 {
                        crate::matching::depth::lemma_depth_best(opposing(b, order.spec_is_buy()), order.spec_is_buy(), order.price, level_price);
                    }
                }
                return;
            }

            // FOK/AON special case
            if order.is_fok() || order.is_aon() {
                let chain = self.calculate_matching_chain_volume(
                    symbol_id,
                    order.price,
                    order.leaves_quantity,
                    order.is_buy(),
                );
                if chain < order.leaves_quantity {
                    return;
                }
                let is_buy = order.is_buy();
                let limit_price = order.price;
                let ghost pre = self@;
                let ghost pre_leaves = order.leaves_quantity;
                self.execute_matching_chain_at(symbol_id, limit_price, is_buy, order);
                proof {
                    assert(pre == old(self)@);
                    let (st2, r2) = choose|st2: Seq<MarketState>, r2: Seq<u64>|
                        #[trigger] incoming_run(st2, r2, pre, self@, sym, is_buy, Some(limit_price), false) && r2[0] == pre_leaves
                            && r2.last() == order.leaves_quantity;
                    assert(incoming_run(st2, r2, old(self)@, self@, sym, buy, Some(limit), reset));
                }
                return;
            }

            // Check AON on the opposing order
            let opposing = match table_get(&self.orders, opposing_id) {
                Some(o) => *o,
                None => {
                    return;
                },
            };
            if opposing.is_aon() && opposing.leaves_quantity > order.leaves_quantity {
                return;
            }

            let quantity = if opposing.leaves_quantity < order.leaves_quantity {
                opposing.leaves_quantity
            } else {
                order.leaves_quantity
            };
            let price = opposing.price;

            // Execute the opposing order
            self.on_execute_order(&opposing, price, quantity);
            let ghost s0 = self@;
            self.update_book_prices(symbol_id, &opposing, price);
            let executed = Order {
                executed_quantity: opposing.executed_quantity.saturating_add(quantity),
                ..opposing
            };
            let ghost s1 = self@;
            self.set_record(executed);
            let ghost s2 = self@;
            let _ = self.reduce_order_nested(opposing_id, quantity);

            // Update the incoming order
            self.on_execute_order(order, price, quantity);
            let ghost s3 = self@;
            self.update_book_prices(symbol_id, order, price);
            proof {
                let ghost rem0 = order.leaves_quantity;
                let b = cur.book_of(sym).unwrap();
                let side = if !buy { BookSide::Bids } else { BookSide::Asks };
                assert(rests_at(cur.orders, opposing_id, side, level_price, sym));
                assert(price == level_price);
                assert(opposing.spec_is_buy() == !buy);
                let done = executed_at(cur, sym, opposing_id, quantity, price);
                let p1 = priced_at(cur, sym, opposing.spec_is_buy(), price);
                assert(s1 == p1);
                assert(s2.orders == cur.orders.insert(opposing_id, executed));
                assert(self@.orders =~= traded(cur.orders, opposing_id, quantity));
                assert(shrunk_books(s2, opposing_id, quantity) == shrunk_books(p1, opposing_id, quantity));
                assert(reduced_at(s2, opposing_id, quantity) == done);
                assert(self@ == priced_at(unmatched_at(done, sym), sym, buy, price));
                assert(fill_step(cur, self@, sym, !buy, Some(limit), rem0, quantity, None, reset));
                lemma_fill_run_extend(states, rems, old(self)@, cur, self@, sym, !buy, Some(limit), None, reset, (rem0 - quantity) as u64);
                states = states.push(self@);
                rems = rems.push((rem0 - quantity) as u64);
                lemma_within_trans(s1, s0, old(self)@);
                lemma_within_trans(s2, s1, old(self)@);
                lemma_within_trans(s3, s2, old(self)@);
                lemma_within_trans(self@, s3, old(self)@);
            }
            order.executed_quantity = order.executed_quantity.saturating_add(quantity);
            order.leaves_quantity = order.leaves_quantity - quantity;

            if order.leaves_quantity == 0 {
                proof {
                    assert(incoming_run(states, rems, old(self)@, self@, sym, buy, Some(limit), reset));
                    assert(rems.last() == order.leaves_quantity);
                }
                return;
            }
        }
    }

    fn match_limit(&mut self, symbol_id: u32, order: &mut Order)
        requires
            old(self)@.wf(),
            old(order).leaves_quantity > 0,
        ensures
            evolves(final(self)@, old(self)@),
            *final(order) == (Order {
                executed_quantity: final(order).executed_quantity,
                leaves_quantity: final(order).leaves_quantity,
                ..*old(order)
            }),
            final(order).leaves_quantity <= old(order).leaves_quantity,
            limits_within(final(self)@, old(self)@, None),
            aon_free(old(self)@.orders) && old(order).time_in_force != OrderTimeInForce::Aon
                && old(order).time_in_force != OrderTimeInForce::Fok && final(order).leaves_quantity > 0
                ==> clears_opposing(final(self)@, symbol_id as int, *final(order)),
            final(order).executed_quantity == grown(
                old(order).executed_quantity,
                old(order).leaves_quantity - final(order).leaves_quantity,
            ),
            whole_or_nothing(old(order).time_in_force) && old(order).leaves_quantity > 0 ==> if fills_at_once(
                old(self)@,
                symbol_id as int,
                *old(order),
            ) {
                final(order).leaves_quantity == 0
            } else {
                final(self)@ == old(self)@ && *final(order) == *old(order)
            },
            exists|states: Seq<MarketState>, rems: Seq<u64>|
                #[trigger] incoming_run(
                    states,
                    rems,
                    old(self)@,
                    final(self)@,
                    symbol_id as int,
                    old(order).spec_is_buy(),
                    Some(old(order).price),
                    resets_matching(old(order).time_in_force),
                ) && rems[0] == old(order).leaves_quantity && rems.last() == final(order).leaves_quantity,
            incoming_done(final(self)@, symbol_id as int, *old(order), old(order).price, final(order).leaves_quantity),
    {
        self.match_order_impl(symbol_id, order);
    }

    /// A market order takes the best opposing price, moved by its slippage.
    fn match_market(&mut self, symbol_id: u32, order: &mut Order)
        requires
            old(self)@.wf(),
            old(order).leaves_quantity > 0,
        ensures
            evolves(final(self)@, old(self)@),
            final(order).id == old(order).id,
            final(order).order_type == old(order).order_type,
            final(order).time_in_force == old(order).time_in_force,
            final(order).side == old(order).side,
            final(order).symbol_id == old(order).symbol_id,
            final(order).leaves_quantity <= old(order).leaves_quantity,
            limits_within(final(self)@, old(self)@, None),
            market_entry_price(old(self)@, symbol_id as int, *old(order)) is None ==> final(self)@ == old(self)@
                && *final(order) == *old(order),
            market_entry_price(old(self)@, symbol_id as int, *old(order)) matches Some(p) ==> {
                &&& *final(order) == (Order {
                    price: p,
                    executed_quantity: final(order).executed_quantity,
                    leaves_quantity: final(order).leaves_quantity,
                    ..*old(order)
                })
                &&& final(order).executed_quantity == grown(
                old(order).executed_quantity,
                old(order).leaves_quantity - final(order).leaves_quantity,
            )
                &&& exists|states: Seq<MarketState>, rems: Seq<u64>|
                    #[trigger] incoming_run(
                        states,
                        rems,
                        old(self)@,
                        final(self)@,
                        symbol_id as int,
                        old(order).spec_is_buy(),
                        Some(p),
                        resets_matching(old(order).time_in_force),
                    ) && rems[0] == old(order).leaves_quantity && rems.last() == final(order).leaves_quantity
                &&& incoming_done(final(self)@, symbol_id as int, Order { price: p, ..*old(order) }, p, final(order).leaves_quantity)
                &&& whole_or_nothing(old(order).time_in_force) && old(order).leaves_quantity > 0 ==> if fills_at_once(
                    old(self)@,
                    symbol_id as int,
                    Order { price: p, ..*old(order) },
                ) {
                    final(order).leaves_quantity == 0
                } else {
                    final(self)@ == old(self)@ && final(order).leaves_quantity == old(order).leaves_quantity
                }
                &&& aon_free(old(self)@.orders) && old(order).time_in_force != OrderTimeInForce::Aon
                    && old(order).time_in_force != OrderTimeInForce::Fok && final(order).leaves_quantity > 0
                    ==> clears_opposing(final(self)@, symbol_id as int, *final(order))
            },
    {
        let price = if order.is_buy() {
            match self.best_front_price(symbol_id, false) {
                None => {
                    return;
                },
                Some(p) => p.saturating_add(order.slippage),
            }
        } else {
            match self.best_front_price(symbol_id, true) {
                None => {
                    return;
                },
                Some(p) => p.saturating_sub(order.slippage),
            }
        };
        order.price = price;
        self.match_order_impl(symbol_id, order);
    }

    /// The price of the best bid level (or ask level) of the book of `sym`.
    fn best_front_price(&self, sym: u32, bid_side: bool) -> (r: Option<u64>)
        requires
            self@.wf(),
        ensures
            r == (match self@.book_of(sym as int) {
                Some(b) => {
                    let m = if bid_side { b.bids } else { b.asks };
                    if m.dom().is_empty() {
                        None
                    } else {
                        Some(best_key(m, bid_side))
                    }
                },
                None => None,
            }),
    {
        match self.get_order_book(sym) {
            Some(ob) => {
                let level = if bid_side { ob.best_bid() } else { ob.best_ask() };
                match level {
                    Some(l) => {
                        proof {
                            let b = ob@;
                            let s = if bid_side { BookSide::Bids } else { BookSide::Asks };
                            let k = if bid_side { highest(b.side(s)) } else { lowest(b.side(s)) };
                            assert(b.side(s).contains_key(k));
                            assert(level_consistent(b.side(s)[k], s, k, sym as int, self@.orders));
                        }
                        Some(l.level.price)
                    },
                    None => None,
                }
            },
            None => None,
        }
    }

    /// Whether the opposing levels within `level_price` hold at least `volume`: the volume
    /// found up to the point where it suffices, or 0 when it never does.
    fn calculate_matching_chain_volume(&self, symbol_id: u32, level_price: u64, volume: u64, is_buy: bool) -> (r: u64)
        requires
            self@.wf(),
        ensures
            volume > 0 ==> (r >= volume <==> match self@.book_of(symbol_id as int) {
                Some(b) => depth(b, is_buy, level_price) >= volume,
                None => false,
            }),
    {
        let ob = match self.get_order_book(symbol_id) {
            Some(ob) => ob,
            None => {
                return 0;
            },
        };
        let ghost sym = symbol_id as int;
        let ghost b = ob@;
        let ghost opp = if is_buy { BookSide::Asks } else { BookSide::Bids };
        let ghost m = b.side(opp);
        proof {
            self.lemma_books_finite(sym);
            crate::matching::depth::lemma_within_keys_finite(m, is_buy, level_price);
            crate::matching::depth::lemma_levels_volume_empty(m);
            assert(opposing(b, is_buy) == m);
        }
        let mut available: u64 = 0;
        if is_buy {
            let levels = ob.asks();
            let prices = level_prices(levels);
            let mut i: usize = 0;
            proof {
                assert(prices@.take(0).to_set() =~= Set::empty());
                if prices@.len() == 0 {
                    assert forall|k: u64| !within_keys(m, is_buy, level_price).contains(k) by {
                        if m.contains_key(k) {
                            assert(prices@.contains(k));
                        }
                    }
                    assert(within_keys(m, is_buy, level_price) =~= Set::empty());
                }
            }
            while i < prices.len()
                invariant
                    sym == symbol_id as int,
                    self@.wf(),
                    self@.book_of(sym) == Some(b),
                    m == b.side(opp),
                    opp == BookSide::Asks,
                    is_buy,
                    level_states(levels@) == m,
                    m.dom().finite(),
                    within_keys(m, is_buy, level_price).finite(),
                    opposing(b, is_buy) == m,
                    forall|j: int| 0 <= j < prices@.len() ==> m.contains_key(#[trigger] prices@[j]),
                    prices@.no_duplicates(),
                    i <= prices@.len(),
                    forall|j: int, l: int| 0 <= j < l < prices@.len() ==> prices@[j] < prices@[l],
                    forall|k: u64| #[trigger] m.contains_key(k) ==> prices@.contains(k),
                    prices@.take(i as int).to_set().subset_of(within_keys(m, is_buy, level_price)),
                    available <= levels_volume(m, prices@.take(i as int).to_set()),
                    volume > 0 ==> available < volume && available == levels_volume(m, prices@.take(i as int).to_set()),
                    i == prices@.len() ==> prices@.take(i as int).to_set() == within_keys(m, is_buy, level_price),
                ensures
                    sym == symbol_id as int,
                    self@.book_of(sym) == Some(b),
                    opposing(b, is_buy) == m,
                    prices@.take(i as int).to_set() == within_keys(m, is_buy, level_price),
                    volume > 0 ==> available < volume && available == levels_volume(m, prices@.take(i as int).to_set()),
                decreases prices.len() - i,
            {
                let p = prices[i];
                if p > level_price {
                    proof {
                        assert forall|k: u64| within_keys(m, is_buy, level_price).contains(k) implies prices@.take(
                            i as int,
                        ).to_set().contains(k) by {
                            assert(m.contains_key(k));
                            assert(prices@.contains(k));
                            let j = choose|j: int| 0 <= j < prices@.len() && #[trigger] prices@[j] == k;
                            if j >= i {
                                assert(prices@[i as int] <= prices@[j]);
                            }
                            assert(prices@.take(i as int)[j] == k);
                        }
                        assert(prices@.take(i as int).to_set() =~= within_keys(m, is_buy, level_price));
                    }
                    break;
                }
                proof {
                    lemma_prefix_keys(prices@, i as int);
                    lemma_levels_volume_insert(m, prices@.take(i as int).to_set(), p);
                    assert(prices@.take(i + 1).to_set().subset_of(within_keys(m, is_buy, level_price)));
                }
                match levels.get(&p) {
                    Some(level) => {
                        proof {
                            assert(level@ == m[p]);
                            assert(b.side(opp).contains_key(p));
                            assert(level_consistent(m[p], opp, p, sym, self@.orders));
                        }
                        if self.accumulate_level_volume(level, &mut available, volume) {
                            proof {
                                lemma_levels_volume_subset(m, prices@.take(i + 1).to_set(), within_keys(m, is_buy, level_price));
                            }
                            return available;
                        }
                    },
                    None => {},
                }
                i = i + 1;
                proof {
                    if i == prices@.len() {
                        assert(prices@.take(i as int) =~= prices@);
                        assert forall|k: u64| within_keys(m, is_buy, level_price).contains(k) implies prices@.take(
                            i as int,
                        ).to_set().contains(k) by {
                            assert(m.contains_key(k));
                            assert(prices@.contains(k));
                        }
                        assert(prices@.take(i as int).to_set() =~= within_keys(m, is_buy, level_price));
                    }
                }
            }
        } else {
            let levels = ob.bids();
            let prices = level_prices(levels);
            let mut i: usize = prices.len();
            proof {
                assert(prices@.subrange(i as int, prices@.len() as int).to_set() =~= Set::empty());
                if prices@.len() == 0 {
                    assert forall|k: u64| !within_keys(m, is_buy, level_price).contains(k) by {
                        if m.contains_key(k) {
                            assert(prices@.contains(k));
                        }
                    }
                    assert(within_keys(m, is_buy, level_price) =~= Set::empty());
                }
            }
            while i > 0
                invariant
                    sym == symbol_id as int,
                    self@.wf(),
                    self@.book_of(sym) == Some(b),
                    m == b.side(opp),
                    opp == BookSide::Bids,
                    !is_buy,
                    level_states(levels@) == m,
                    m.dom().finite(),
                    within_keys(m, is_buy, level_price).finite(),
                    opposing(b, is_buy) == m,
                    forall|j: int| 0 <= j < prices@.len() ==> m.contains_key(#[trigger] prices@[j]),
                    prices@.no_duplicates(),
                    i <= prices@.len(),
                    forall|j: int, l: int| 0 <= j < l < prices@.len() ==> prices@[j] < prices@[l],
                    forall|k: u64| #[trigger] m.contains_key(k) ==> prices@.contains(k),
                    prices@.subrange(i as int, prices@.len() as int).to_set().subset_of(within_keys(m, is_buy, level_price)),
                    available <= levels_volume(m, prices@.subrange(i as int, prices@.len() as int).to_set()),
                    volume > 0 ==> available < volume && available == levels_volume(
                        m,
                        prices@.subrange(i as int, prices@.len() as int).to_set(),
                    ),
                    i == 0 ==> prices@.subrange(i as int, prices@.len() as int).to_set() == within_keys(
                        m,
                        is_buy,
                        level_price,
                    ),
                ensures
                    sym == symbol_id as int,
                    self@.book_of(sym) == Some(b),
                    opposing(b, is_buy) == m,
                    prices@.subrange(i as int, prices@.len() as int).to_set() == within_keys(m, is_buy, level_price),
                    volume > 0 ==> available < volume && available == levels_volume(
                        m,
                        prices@.subrange(i as int, prices@.len() as int).to_set(),
                    ),
                decreases i,
            {
                let p = prices[i - 1];
                if p < level_price {
                    proof {
                        let n = prices@.len() as int;
                        assert forall|k: u64| within_keys(m, is_buy, level_price).contains(k) implies prices@.subrange(
                            i as int,
                            n,
                        ).to_set().contains(k) by {
                            assert(m.contains_key(k));
                            assert(prices@.contains(k));
                            let j = choose|j: int| 0 <= j < prices@.len() && #[trigger] prices@[j] == k;
                            if j < i {
                                assert(prices@[j] <= prices@[i - 1]);
                            }
                            assert(prices@.subrange(i as int, n)[j - i] == k);
                        }
                        assert(prices@.subrange(i as int, n).to_set() =~= within_keys(m, is_buy, level_price));
                    }
                    break;
                }
                i = i - 1;
                proof {
                    lemma_suffix_keys(prices@, i as int);
                    lemma_levels_volume_insert(m, prices@.subrange(i + 1, prices@.len() as int).to_set(), p);
                }
                match levels.get(&p) {
                    Some(level) => {
                        proof {
                            assert(level@ == m[p]);
                            assert(b.side(opp).contains_key(p));
                            assert(level_consistent(m[p], opp, p, sym, self@.orders));
                        }
                        if self.accumulate_level_volume(level, &mut available, volume) {
                            proof {
                                lemma_levels_volume_subset(
                                    m,
                                    prices@.subrange(i as int, prices@.len() as int).to_set(),
                                    within_keys(m, is_buy, level_price),
                                );
                            }
                            return available;
                        }
                    },
                    None => {},
                }
                proof {
                    if i == 0 {
                        let n = prices@.len() as int;
                        assert(prices@.subrange(0, n) =~= prices@);
                        assert forall|k: u64| within_keys(m, is_buy, level_price).contains(k) implies prices@.subrange(
                            0,
                            n,
                        ).to_set().contains(k) by {
                            assert(m.contains_key(k));
                            assert(prices@.contains(k));
                        }
                        assert(prices@.subrange(0, n).to_set() =~= within_keys(m, is_buy, level_price));
                    }
                }
            }
        }
        if available >= volume {
            available
        } else {
            0
        }
    }

    /// Add the remaining quantities of the level's orders, in queue order, until `volume` is
    /// reached.
    fn accumulate_level_volume(&self, level: &LevelData, available: &mut u64, volume: u64) -> (r: bool)
        requires
            level@.level.total_volume == queue_sum(level@.queue, self@.orders, VolumePart::Leaves),
            forall|j: int| 0 <= j < level@.queue.len() ==> self@.orders.contains_key(#[trigger] level@.queue[j]),
        ensures
            r == (*final(available) >= volume),
            *old(available) <= *final(available) <= *old(available) + level@.level.total_volume,
            !r ==> *final(available) == *old(available) + level@.level.total_volume,
    {
        let ids = level.order_ids();
        let mut i: usize = 0;
        while i < ids.len()
            invariant
                i <= ids@.len(),
                ids@ == level@.queue,
                level@.level.total_volume == queue_sum(level@.queue, self@.orders, VolumePart::Leaves),
                forall|j: int| 0 <= j < level@.queue.len() ==> self@.orders.contains_key(#[trigger] level@.queue[j]),
                *old(available) <= *available <= *old(available) + queue_sum(ids@.take(i as int), self@.orders, VolumePart::Leaves),
                *available >= volume || *available == *old(available) + queue_sum(ids@.take(i as int), self@.orders, VolumePart::Leaves),
            decreases ids.len() - i,
        {
            proof {
                lemma_sum_prefix(ids@, self@.orders, VolumePart::Leaves, i as int);
            }
            if *available >= volume {
                return true;
            }
            let qty = match table_get(&self.orders, ids[i]) {
                Some(o) => o.leaves_quantity,
                None => 0,
            };
            proof {
                assert(ids@.take(i + 1).drop_last() =~= ids@.take(i as int));
                assert(ids@.take(i + 1).last() == ids@[i as int]);
            }
            *available = available.saturating_add(qty);
            i = i + 1;
        }
        proof {
            assert(ids@.take(ids@.len() as int) =~= ids@);
        }
        *available >= volume
    }

    /// Execute one front order of the best level of a side, at most `remaining`, at `price`.
    /// Returns the executed quantity, 0 when there is nothing to execute.
    fn execute_front(&mut self, symbol_id: u32, order_id: OrderId, price: u64, remaining: u64) -> (r: u64)
        requires
            old(self)@.wf(),
        ensures
            evolves(final(self)@, old(self)@),
            r <= remaining,
            limits_within(final(self)@, old(self)@, None),
            r == 0 ==> final(self)@ == old(self)@,
            r > 0 ==> old(self)@.orders.contains_key(order_id) && final(self)@.orders == traded(
                old(self)@.orders,
                order_id,
                r,
            ),
            r > 0 ==> final(self)@ == executed_at(old(self)@, symbol_id as int, order_id, r, price),
            old(self)@.orders.contains_key(order_id) ==> {
                let o = old(self)@.orders[order_id];
                &&& r == (if o.leaves_quantity < remaining { o.leaves_quantity } else { remaining })
                &&& r == o.leaves_quantity ==> !final(self)@.orders.contains_key(order_id)
                &&& final(self)@.orders.remove(order_id) == old(self)@.orders.remove(order_id)
                &&& forall|s: BookSide| Some(s) != resting_side(o) ==> side_unchanged(final(self)@, old(self)@, s)
            },
            r > 0 && old(self)@.orders.contains_key(order_id) && old(self)@.is_queued(old(self)@.orders[order_id]) ==> ({
                let o = old(self)@.orders[order_id];
                let s = resting_side(o).unwrap();
                let sym = o.symbol_id as int;
                let rest = Order { leaves_quantity: (o.leaves_quantity - r) as u64, ..o };
                &&& final(self)@.book_of(sym) is Some
                &&& final(self)@.book_of(sym).unwrap().side(s) == remove_from_side(
                    old(self)@.book_of(sym).unwrap().side(s),
                    resting_key(o),
                    order_id,
                    r,
                    (o.hidden() - rest.hidden()) as u64,
                    (o.visible() - rest.visible()) as u64,
                    rest.leaves_quantity == 0,
                )
            }),
    {
        let o = match table_get(&self.orders, order_id) {
            Some(o) => *o,
            None => {
                return 0;
            },
        };
        let qty = if o.leaves_quantity < remaining { o.leaves_quantity } else { remaining };
        if qty == 0 {
            return 0;
        }
        self.on_execute_order(&o, price, qty);
        self.update_book_prices(symbol_id, &o, price);
        let ghost mid = self@;
        let after = Order {
            executed_quantity: o.executed_quantity.saturating_add(qty),
            leaves_quantity: o.leaves_quantity - qty,
            ..o
        };
        proof {
            crate::matching::order::lemma_parts_monotone(o, after.leaves_quantity);
        }
        proof {
            assert(mid == priced_at(old(self)@, symbol_id as int, o.spec_is_buy(), price));
        }
        self.reduce_record(after);
        if after.leaves_quantity == 0 {
            self.on_delete_order(&after);
        }
        proof {
            assert(self@.orders =~= traded(old(self)@.orders, order_id, qty));
            assert(self@.books == shrunk_books(mid, order_id, qty));
            assert(self@ == executed_at(old(self)@, symbol_id as int, order_id, qty, price));
            assert(self@.orders.remove(order_id) =~= old(self)@.orders.remove(order_id));
            assert forall|s: BookSide| Some(s) != resting_side(o) implies side_unchanged(self@, old(self)@, s) by {
                assert(side_unchanged(mid, old(self)@, s));
                assert(side_unchanged(self@, mid, s));
            }
            if old(self)@.is_queued(o) {
                let sym = o.symbol_id as int;
                let s = resting_side(o).unwrap();
                assert(side_unchanged(mid, old(self)@, s));
                assert(mid.book_of(sym).unwrap().side(s) == old(self)@.book_of(sym).unwrap().side(s));
                assert(mid.is_queued(o));
                let nb = mid.book_of(sym).unwrap().after_remove(
                    s,
                    resting_key(o),
                    o.id,
                    qty,
                    (o.hidden() - after.hidden()) as u64,
                    (o.visible() - after.visible()) as u64,
                    after.leaves_quantity == 0,
                );
                assert(self@.book_of(sym) == Some(nb));
                assert(nb.side(s) == remove_from_side(mid.book_of(sym).unwrap().side(s), resting_key(o), o.id, qty,
                    (o.hidden() - after.hidden()) as u64, (o.visible() - after.visible()) as u64,
                    after.leaves_quantity == 0));
            }
        }
        qty
    }

    /// Execute `volume` from the bid side, then `volume` from the ask side, at `price`. When
    /// the volume takes all of the front order of one best level and no more than the front
    /// order of the other, an order is gone afterwards.
    fn execute_matching_chain(&mut self, symbol_id: u32, price: u64, volume: u64)
        requires
            old(self)@.wf(),
        ensures
            evolves(final(self)@, old(self)@),
            limits_within(final(self)@, old(self)@, None),
            takes_a_front(old(self)@, symbol_id as int, volume) ==> final(self)@.orders.len() < old(self)@.orders.len(),
            exists|s1: Seq<MarketState>, r1: Seq<u64>, s2: Seq<MarketState>, r2: Seq<u64>|
                #[trigger] chain_runs(s1, r1, s2, r2, old(self)@, final(self)@, symbol_id as int, volume, price),
    {
        let ghost sym = symbol_id as int;
        let ghost takes = takes_a_front(old(self)@, sym, volume);
        let ghost b: OrderId = if takes { front_of(old(self)@, sym, true).unwrap() } else { 0 };
        let ghost a: OrderId = if takes { front_of(old(self)@, sym, false).unwrap() } else { 0 };
        let mut remaining = volume;
        let ghost mut s1: Seq<MarketState> = seq![self@];
        let ghost mut r1: Seq<u64> = seq![volume];
        proof {
            lemma_fill_run_start(self@, volume, sym, true, None, Some(price), false);
        }

        // Execute bid side
        while remaining > 0
            invariant
                sym == symbol_id as int,
                fill_run(s1, r1, old(self)@, self@, sym, true, None, Some(price), false),
                r1[0] == volume,
                r1.last() == remaining,
                old(self)@.wf(),
                evolves(self@, old(self)@),
                limits_within(self@, old(self)@, None),
                takes == takes_a_front(old(self)@, sym, volume),
                takes ==> front_of(old(self)@, sym, true) == Some(b) && front_of(old(self)@, sym, false) == Some(a),
                takes ==> a != b && old(self)@.orders.contains_key(a) && old(self)@.orders.contains_key(b),
                takes ==> resting_side(old(self)@.orders[b]) == Some(BookSide::Bids),
                takes ==> volume > 0,
                takes ==> (remaining == volume && self@ == old(self)@) || (remaining == 0 && ({
                    &&& volume == old(self)@.orders[b].leaves_quantity ==> !self@.orders.contains_key(b)
                    &&& self@.orders.contains_key(a) && self@.orders[a] == old(self)@.orders[a]
                    &&& front_of(self@, sym, false) == Some(a)
                })),
            ensures
                fill_run(s1, r1, old(self)@, self@, sym, true, None, Some(price), false),
                r1[0] == volume,
                r1.last() == 0 || front_of(self@, sym, true) is None,
                evolves(self@, old(self)@),
                limits_within(self@, old(self)@, None),
                takes ==> ({
                    &&& volume == old(self)@.orders[b].leaves_quantity ==> !self@.orders.contains_key(b)
                    &&& self@.orders.contains_key(a) && self@.orders[a] == old(self)@.orders[a]
                    &&& front_of(self@, sym, false) == Some(a)
                }),
            decreases remaining,
        {
            let order_id = match self.best_front(symbol_id, true) {
                Some((_, id)) => id,
                None => {
                    break;
                },
            };
            let ghost mid = self@;
            let qty = self.execute_front(symbol_id, order_id, price, remaining);
            proof {
                assert(mid.orders.contains_key(order_id));
                assert(order_ok(mid.orders[order_id]));
                if qty > 0 {
                    assert(fill_step(mid, self@, sym, true, None, remaining, qty, Some(price), false));
                }
                lemma_fill_run_extend(s1, r1, old(self)@, mid, self@, sym, true, None, Some(price), false, (remaining - qty) as u64);
                s1 = s1.push(self@);
                r1 = r1.push((remaining - qty) as u64);
                lemma_within_trans(self@, mid, old(self)@);
                if takes {
                    // the execution takes the front bid only; the asks and order `a` stay
                    assert(order_id == b);
                    assert(qty == volume);
                    assert(self@.orders.remove(b).contains_key(a));
                    assert(self@.orders.remove(b)[a] == self@.orders[a]);
                    assert(old(self)@.orders.remove(b)[a] == old(self)@.orders[a]);
                    assert(side_unchanged(self@, old(self)@, BookSide::Asks));
                    assert(self@.book_of(sym).unwrap().side(BookSide::Asks) == old(self)@.book_of(sym).unwrap().side(
                        BookSide::Asks,
                    ));
                }
            }
            if qty == 0 {
                break;
            }
            remaining = remaining - qty;
        }

        remaining = volume;
        let ghost half = self@;
        let ghost mut s2: Seq<MarketState> = seq![self@];
        let ghost mut r2: Seq<u64> = seq![volume];
        proof {
            lemma_fill_run_start(self@, volume, sym, false, None, Some(price), false);
        }

        // Execute ask side
        while remaining > 0
            invariant
                sym == symbol_id as int,
                fill_run(s2, r2, half, self@, sym, false, None, Some(price), false),
                r2[0] == volume,
                r2.last() == remaining,
                evolves(self@, old(self)@),
                limits_within(self@, old(self)@, None),
                takes ==> a != b && old(self)@.orders.contains_key(a) && old(self)@.orders.contains_key(b),
                takes ==> (volume == old(self)@.orders[b].leaves_quantity || volume == old(self)@.orders[a].leaves_quantity),
                takes ==> volume <= old(self)@.orders[a].leaves_quantity,
                takes ==> (remaining == volume && ({
                    &&& volume == old(self)@.orders[b].leaves_quantity ==> !self@.orders.contains_key(b)
                    &&& self@.orders.contains_key(a) && self@.orders[a] == old(self)@.orders[a]
                    &&& front_of(self@, sym, false) == Some(a)
                })) || (remaining == 0 && (!self@.orders.contains_key(b) || !self@.orders.contains_key(a))),
                takes ==> volume > 0,
            ensures
                fill_run(s2, r2, half, self@, sym, false, None, Some(price), false),
                r2[0] == volume,
                r2.last() == 0 || front_of(self@, sym, false) is None,
                evolves(self@, old(self)@),
                limits_within(self@, old(self)@, None),
                takes ==> !self@.orders.contains_key(b) || !self@.orders.contains_key(a),
            decreases remaining,
        {
            let order_id = match self.best_front(symbol_id, false) {
                Some((_, id)) => id,
                None => {
                    break;
                },
            };
            let ghost mid = self@;
            let qty = self.execute_front(symbol_id, order_id, price, remaining);
            proof {
                assert(mid.orders.contains_key(order_id));
                assert(order_ok(mid.orders[order_id]));
                if qty > 0 {
                    assert(fill_step(mid, self@, sym, false, None, remaining, qty, Some(price), false));
                }
                lemma_fill_run_extend(s2, r2, half, mid, self@, sym, false, None, Some(price), false, (remaining - qty) as u64);
                s2 = s2.push(self@);
                r2 = r2.push((remaining - qty) as u64);
                lemma_within_trans(self@, mid, old(self)@);
                if takes {
                    assert(order_id == a);
                    assert(qty == volume);
                    if volume != old(self)@.orders[a].leaves_quantity {
                        assert(!mid.orders.contains_key(b));
                    }
                }
            }
            if qty == 0 {
                break;
            }
            remaining = remaining - qty;
        }
        proof {
            assert(chain_runs(s1, r1, s2, r2, old(self)@, self@, sym, volume, price));
            if takes {
                if !self@.orders.contains_key(b) {
                    lemma_fewer_orders(self@.orders, old(self)@.orders, b);
                } else {
                    lemma_fewer_orders(self@.orders, old(self)@.orders, a);
                }
            }
        }
    }

    /// Every collection of levels of the book of `sym` is finite.
    proof fn lemma_books_finite(&self, sym: int)
        ensures
            self@.book_of(sym) is Some ==> forall|s: BookSide| #[trigger] self@.book_of(sym).unwrap().side(s).dom().finite(),
    {
        if self@.book_of(sym) is Some {
            let ob = self.order_books@[sym].unwrap();
            crate::matching::order_book::lemma_book_finite(&ob);
            assert(self@.book_of(sym) == Some(ob@));
        }
    }

    /// Fill the incoming order from the opposing levels within its limit price, level by
    /// level at each level's price. When those levels hold its whole remaining quantity, it
    /// fills completely.
    fn execute_matching_chain_at(&mut self, symbol_id: u32, limit_price: u64, is_buy: bool, incoming: &mut Order)
        requires
            old(self)@.wf(),
            old(incoming).spec_is_buy() == is_buy,
        ensures
            evolves(final(self)@, old(self)@),
            *final(incoming) == (Order {
                executed_quantity: final(incoming).executed_quantity,
                leaves_quantity: final(incoming).leaves_quantity,
                ..*old(incoming)
            }),
            final(incoming).leaves_quantity <= old(incoming).leaves_quantity,
            limits_within(final(self)@, old(self)@, None),
            final(incoming).executed_quantity == grown(
                old(incoming).executed_quantity,
                old(incoming).leaves_quantity - final(incoming).leaves_quantity,
            ),
            (match old(self)@.book_of(symbol_id as int) {
                Some(b) => depth(b, is_buy, limit_price) >= old(incoming).leaves_quantity,
                None => false,
            }) ==> final(incoming).leaves_quantity == 0,
            exists|states: Seq<MarketState>, rems: Seq<u64>|
                #[trigger] incoming_run(states, rems, old(self)@, final(self)@, symbol_id as int, is_buy, Some(limit_price), false)
                    && rems[0] == old(incoming).leaves_quantity && rems.last() == final(incoming).leaves_quantity,
    {
        let ghost sym = symbol_id as int;
        let ghost deep = match old(self)@.book_of(sym) {
            Some(b) => depth(b, is_buy, limit_price) >= old(incoming).leaves_quantity,
            None => false,
        };
        let mut remaining = incoming.leaves_quantity;
        let ghost mut states: Seq<MarketState> = seq![self@];
        let ghost mut rems: Seq<u64> = seq![remaining];
        proof {
            lemma_fill_run_start(self@, remaining, sym, !is_buy, Some(limit_price), None, false);
        }

        while remaining > 0
            invariant
                sym == symbol_id as int,
                fill_run(states, rems, old(self)@, self@, sym, !is_buy, Some(limit_price), None, false),
                rems[0] == old(incoming).leaves_quantity,
                rems.last() == remaining,
                old(incoming).spec_is_buy() == is_buy,
                evolves(self@, old(self)@),
                limits_within(self@, old(self)@, None),
                remaining == incoming.leaves_quantity,
                *incoming == (Order {
                    executed_quantity: incoming.executed_quantity,
                    leaves_quantity: incoming.leaves_quantity,
                    ..*old(incoming)
                }),
                incoming.leaves_quantity <= old(incoming).leaves_quantity,
                incoming.executed_quantity == grown(
                    old(incoming).executed_quantity,
                    old(incoming).leaves_quantity - incoming.leaves_quantity,
                ),
                deep ==> self@.book_of(sym) is Some && depth(self@.book_of(sym).unwrap(), is_buy, limit_price)
                    >= remaining,
            ensures
                fill_run(states, rems, old(self)@, self@, sym, !is_buy, Some(limit_price), None, false),
                rems[0] == old(incoming).leaves_quantity,
                rems.last() == remaining,
                evolves(self@, old(self)@),
                limits_within(self@, old(self)@, None),
                remaining == incoming.leaves_quantity,
                *incoming == (Order {
                    executed_quantity: incoming.executed_quantity,
                    leaves_quantity: incoming.leaves_quantity,
                    ..*old(incoming)
                }),
                incoming.leaves_quantity <= old(incoming).leaves_quantity,
                incoming.executed_quantity == grown(
                    old(incoming).executed_quantity,
                    old(incoming).leaves_quantity - incoming.leaves_quantity,
                ),
                deep ==> remaining == 0,
            decreases remaining,
        {
            let ghost cur = self@;
            let ghost opp = if is_buy { BookSide::Asks } else { BookSide::Bids };
            proof {
                self.lemma_books_finite(sym);
            }
            let level_info = match self.best_front(symbol_id, !is_buy) {
                Some((price, id)) => {
                    let within = if is_buy { price <= limit_price } else { price >= limit_price };
                    if within {
                        Some((price, id))
                    } else {
                        proof {
                            if deep {
                                let m = cur.book_of(sym).unwrap().side(opp);
                                crate::matching::depth::lemma_depth_best(m, is_buy, limit_price, price);
                            }
                        }
                        None
                    }
                },
                None => {
                    proof {
                        if deep {
                            let m = cur.book_of(sym).unwrap().side(opp);
                            crate::matching::depth::lemma_depth_empty(m, is_buy, limit_price);
                        }
                    }
                    None
                },
            };
            let (price, order_id) = match level_info {
                Some(info) => info,
                None => {
                    break;
                },
            };
            let ghost o = cur.orders[order_id];
            proof {
                let b = cur.book_of(sym).unwrap();
                assert(b.side(opp).contains_key(price));
                assert(level_consistent(b.side(opp)[price], opp, price, sym, cur.orders));
                assert(b.side(opp)[price].queue.contains(order_id));
                assert(cur.is_queued(o));
            }
            let ghost mid = self@;
            let qty = self.execute_front(symbol_id, order_id, price, remaining);
            proof {
                lemma_within_trans(self@, mid, old(self)@);
            }
            if qty == 0 {
                break;
            }
            proof {
                if deep {
                    let b = cur.book_of(sym).unwrap();
                    let m = b.side(opp);
                    let rest = Order { leaves_quantity: (o.leaves_quantity - qty) as u64, ..o };
                    crate::matching::consistency::lemma_sum_member(m[price].queue, cur.orders, VolumePart::Leaves, 0);
                    crate::matching::consistency::lemma_sum_member(m[price].queue, cur.orders, VolumePart::Hidden, 0);
                    crate::matching::consistency::lemma_sum_member(m[price].queue, cur.orders, VolumePart::Visible, 0);
                    crate::matching::order::lemma_parts_monotone(o, rest.leaves_quantity);
                    crate::matching::depth::lemma_depth_take(
                        m,
                        is_buy,
                        limit_price,
                        price,
                        order_id,
                        qty,
                        (o.hidden() - rest.hidden()) as u64,
                        (o.visible() - rest.visible()) as u64,
                        rest.leaves_quantity == 0,
                    );
                }
            }
            self.on_execute_order(incoming, price, qty);
            let ghost mid2 = self@;
            self.update_book_prices(symbol_id, incoming, price);
            proof {
                assert(self@.orders == mid2.orders);
                assert(mid == cur);
                assert(mid2 == executed_at(cur, sym, order_id, qty, price));
                assert(self@ == priced_at(mid2, sym, is_buy, price));
                assert(fill_step(cur, self@, sym, !is_buy, Some(limit_price), remaining, qty, None, false));
                lemma_fill_run_extend(states, rems, old(self)@, cur, self@, sym, !is_buy, Some(limit_price), None, false, (remaining - qty) as u64);
                states = states.push(self@);
                rems = rems.push((remaining - qty) as u64);
                lemma_within_trans(self@, mid2, old(self)@);
                if deep {
                    assert(side_unchanged(self@, mid2, opp));
                    assert(self@.book_of(sym).unwrap().side(opp) == mid2.book_of(sym).unwrap().side(opp));
                }
            }
            incoming.executed_quantity = incoming.executed_quantity.saturating_add(qty);
            incoming.leaves_quantity = incoming.leaves_quantity - qty;
            remaining = remaining - qty;
        }
        proof {
            assert(incoming_run(states, rems, old(self)@, self@, sym, is_buy, Some(limit_price), false));
        }
    }

    /// The total volume of the bid levels (or ask levels) of the book of `sym`.
    fn side_total_volume(&self, sym: u32, bid_side: bool) -> (r: u64)
        ensures
            r == (match self@.book_of(sym as int) {
                Some(b) => {
                    let m = if bid_side { b.bids } else { b.asks };
                    let v = levels_volume(m, m.dom());
                    if v > u64::MAX { u64::MAX } else { v as u64 }
                },
                None => 0,
            }),
    {
        match self.get_order_book(sym) {
            Some(ob) => {
                let levels = if bid_side { ob.bids() } else { ob.asks() };
                let ghost m = if bid_side { ob@.bids } else { ob@.asks };
                let prices = level_prices(levels);
                let mut total: u64 = 0;
                let mut i: usize = 0;
                proof {
                    assert(prices@.take(0).to_set() =~= Set::<u64>::empty());
                    crate::matching::depth::lemma_levels_volume_empty(m);
                }
                while i < prices.len()
                    invariant
                        level_states(levels@) == m,
                        i <= prices@.len(),
                        forall|j: int| 0 <= j < prices@.len() ==> levels@.contains_key(#[trigger] prices@[j]),
                        prices@.no_duplicates(),
                        forall|k: u64| #[trigger] levels@.contains_key(k) ==> prices@.contains(k),
                        total == (if levels_volume(m, prices@.take(i as int).to_set()) > u64::MAX {
                            u64::MAX as int
                        } else {
                            levels_volume(m, prices@.take(i as int).to_set())
                        }),
                    decreases prices.len() - i,
                {
                    let ghost k = prices@[i as int];
                    proof {
                        lemma_prefix_keys(prices@, i as int);
                        lemma_levels_volume_insert(m, prices@.take(i as int).to_set(), k);
                        assert(m.contains_key(k));
                    }
                    match levels.get(&prices[i]) {
                        Some(l) => {
                            proof {
                                assert(l@ == m[k]);
                            }
                            total = total.saturating_add(l.level.total_volume);
                        },
                        None => {},
                    }
                    i = i + 1;
                }
                proof {
                    assert(prices@.take(i as int) =~= prices@);
                    assert forall|k: u64| m.dom().contains(k) <==> prices@.to_set().contains(k) by {
                        if m.dom().contains(k) {
                            assert(prices@.contains(k));
                        }
                        if prices@.to_set().contains(k) {
                            let j = choose|j: int| 0 <= j < prices@.len() && #[trigger] prices@[j] == k;
                            assert(levels@.contains_key(prices@[j]));
                        }
                    }
                    assert(m.dom() =~= prices@.to_set());
                }
                total
            },
            None => 0,
        }
    }

    /// Match the crossed part of the book of `symbol_id`, then activate stop orders until
    /// none is left to activate. When no held order is all-or-none, the book ends uncrossed
    /// and the other books that were uncrossed stay so.
    #[verifier::rlimit(60)]
    fn match_book(&mut self, symbol_id: u32)
        requires
            old(self)@.wf(),
        ensures
            evolves(final(self)@, old(self)@),
            keeps_uncrossed(final(self)@, old(self)@),
            aon_free(old(self)@.orders) ==> uncrossed_at(final(self)@, symbol_id as int),
            exists|states: Seq<MarketState>| #[trigger] settled_run(states, old(self)@, final(self)@, symbol_id as int),
    {
        let ghost sym = symbol_id as int;
        let ghost mut states: Seq<MarketState> = seq![self@];
        // Every round retires at least one order.
        loop
            invariant
                sym == symbol_id as int,
                book_run(states, old(self)@, self@, sym),
                (states.len() - 1) % 2 == 0,
                forall|i: int| 0 <= i < states.len() - 1 ==> #[trigger] phase_link(states, sym, i),
                evolves(self@, old(self)@),
                aon_free(old(self)@.orders) ==> forall|j: int|
                    j != sym && uncrossed_at(old(self)@, j) ==> #[trigger] uncrossed_at(self@, j),
            ensures
                book_run(states, old(self)@, self@, sym),
                (states.len() - 1) % 2 == 0,
                forall|i: int| 0 <= i < states.len() - 1 ==> #[trigger] phase_link(states, sym, i),
                cross_settled(self@, sym),
                evolves(self@, old(self)@),
                aon_free(old(self)@.orders) ==> forall|j: int|
                    j != sym && uncrossed_at(old(self)@, j) ==> #[trigger] uncrossed_at(self@, j),
                aon_free(old(self)@.orders) ==> uncrossed_at(self@, sym),
            decreases self@.orders.len(),
        {
            let ghost start = self@;
            let ghost prior = states;
            proof {
                if aon_free(old(self)@.orders) {
                    lemma_aon_free_evolves(self@, old(self)@);
                }
            }
            // Check for crossed book, and get the first orders of the best bid and ask
            let bid = self.best_front(symbol_id, true);
            let ask = self.best_front(symbol_id, false);
            let (bid_id, ask_id, bid_price) = match (bid, ask) {
                (Some((bp, bi)), Some((ap, ai))) => {
                    if bp >= ap {
                        (bi, ai, bp)
                    } else {
                        proof {
                            lemma_uncrossed_by_best(self@.book_of(sym).unwrap(), bp, ap);
                        }
                        break;
                    }
                },
                _ => {
                    proof {
                        if self@.book_of(sym) is Some {
                            let s = if bid is None { BookSide::Bids } else { BookSide::Asks };
                            lemma_uncrossed_one_sided(self@.book_of(sym).unwrap(), s);
                        }
                    }
                    break;
                },
            };
            proof {
                assert(start.orders.contains_key(bid_id) && start.orders.contains_key(ask_id));
            }
            let bid_order = match table_get(&self.orders, bid_id) {
                Some(o) => Some(*o),
                None => None,
            };
            let ask_order = match table_get(&self.orders, ask_id) {
                Some(o) => Some(*o),
                None => None,
            };

            // Check AON
            let bid_aon = match bid_order {
                Some(o) => o.is_aon(),
                None => false,
            };
            let ask_aon = match ask_order {
                Some(o) => o.is_aon(),
                None => false,
            };

            let ghost mut all_or_none_round = false;
            let ghost mut gone: OrderId = 0;
            if bid_aon || ask_aon {
                proof {
                    all_or_none_round = true;
                }
                // For AON: check if both sides can be fully filled
                let bid_total = self.side_total_volume(symbol_id, true);
                let ask_total = self.side_total_volume(symbol_id, false);
                let bid_qty = match bid_order {
                    Some(o) => o.leaves_quantity,
                    None => 0,
                };
                let ask_qty = match ask_order {
                    Some(o) => o.leaves_quantity,
                    None => 0,
                };
                let can_fill = if bid_aon && ask_aon {
                    bid_qty <= ask_total && ask_qty <= bid_total
                } else if bid_aon {
                    bid_qty <= ask_total
                } else {
                    ask_qty <= bid_total
                };
                if !can_fill {
                    proof {
                        assert(front_of(start, sym, true) == Some(bid_id));
                        assert(front_of(start, sym, false) == Some(ask_id));
                        assert(!aon_fillable(start, sym));
                    }
                    break;
                }
                // Both sides can be filled: execute the smaller side
                let exec_qty = if bid_qty < ask_qty { bid_qty } else { ask_qty };
                proof {
                    assert(takes_a_front(start, sym, exec_qty));
                }
                self.execute_matching_chain(symbol_id, bid_price, exec_qty);
                proof {
                    let (c1, d1, c2, d2) = choose|c1: Seq<MarketState>, d1: Seq<u64>, c2: Seq<MarketState>, d2: Seq<u64>|
                        #[trigger] chain_runs(c1, d1, c2, d2, start, self@, sym, exec_qty, bid_price);
                    assert(chain_runs(c1, d1, c2, d2, start, self@, sym, exec_qty, bid_price));
                    assert(front_of(start, sym, true) == Some(bid_id));
                    assert(front_of(start, sym, false) == Some(ask_id));
                    assert(start.orders.contains_key(bid_id) && start.orders.contains_key(ask_id));
                    assert(bid_qty == start.orders[bid_id].leaves_quantity);
                    assert(ask_qty == start.orders[ask_id].leaves_quantity);
                    assert(start.orders[bid_id].time_in_force == OrderTimeInForce::Aon
                        || start.orders[ask_id].time_in_force == OrderTimeInForce::Aon);
                    assert(best_key(start.book_of(sym).unwrap().bids, true) >= best_key(start.book_of(sym).unwrap().asks, false));
                    assert(exec_qty == fronts_volume(start, sym));
                    assert(bid_price == best_key(start.book_of(sym).unwrap().bids, true));
                    assert(chain_runs(c1, d1, c2, d2, start, self@, sym, fronts_volume(start, sym), bid_price));
                    assert(aon_fillable(start, sym));
                    assert(aon_round(start, self@, sym));
                    lemma_book_run_extend(states, old(self)@, start, self@, sym);
                    states = states.push(self@);
                    assert(phase_link(states, sym, states.len() - 2));
                }
            } else {
                let (bid_o, ask_o) = match (bid_order, ask_order) {
                    (Some(b), Some(a)) => (b, a),
                    _ => {
                        break;
                    },
                };
                let (exec_o, reduce_id, exec_qty) = if bid_o.leaves_quantity > ask_o.leaves_quantity {
                    (ask_o, bid_id, ask_o.leaves_quantity)
                } else {
                    (bid_o, ask_id, bid_o.leaves_quantity)
                };

                // Execute the smaller order at its own price
                let price = exec_o.price;
                proof {
                    gone = exec_o.id;
                    assert(start.orders.contains_key(bid_id) && start.orders.contains_key(ask_id));
                    assert(bid_id != ask_id);
                    assert(order_ok(start.orders[bid_id]) && order_ok(start.orders[ask_id]));
                }
                self.on_execute_order(&exec_o, price, exec_qty);
                let ghost s0 = self@;
                self.update_book_prices(symbol_id, &exec_o, price);
                let executed = Order {
                    executed_quantity: exec_o.executed_quantity.saturating_add(exec_qty),
                    ..exec_o
                };
                let ghost s1 = self@;
                self.set_record(executed);
                let ghost s2 = self@;
                let removed = self.remove_order(exec_o.id);
                self.on_delete_order(&removed);

                // Reduce the larger order
                proof {
                    assert(self@.orders =~= start.orders.remove(exec_o.id));
                    assert(self@.orders.contains_key(reduce_id));
                }
                let reduce_o = match table_get(&self.orders, reduce_id) {
                    Some(o) => *o,
                    None => {
                        break;
                    },
                };
                self.on_execute_order(&reduce_o, price, exec_qty);
                let ghost s3 = self@;
                self.update_book_prices(symbol_id, &reduce_o, price);
                let ghost s4 = self@;
                let _ = self.reduce_order_nested(reduce_id, exec_qty);
                proof {
                    assert(self@.orders == reduced_orders(start.orders.remove(exec_o.id), reduce_id, exec_qty));
                    assert(s1 == priced_at(start, sym, exec_o.spec_is_buy(), price));
                    assert(unbooked_books(s2, exec_o.id) == unbooked_books(s1, exec_o.id));
                    assert(s3 == MarketState { orders: s1.orders.remove(exec_o.id), books: unbooked_books(s1, exec_o.id), ..s1 });
                    assert(s4 == priced_at(s3, sym, s3.orders[reduce_id].spec_is_buy(), price));
                    assert(self@ == crossed_at(start, sym));
                    assert(cross_round(start, self@, sym));
                    lemma_book_run_extend(states, old(self)@, start, self@, sym);
                    states = states.push(self@);
                    assert(phase_link(states, sym, states.len() - 2));
                    lemma_within_trans(s1, s0, start);
                    lemma_within_trans(s2, s1, start);
                    lemma_within_trans(s3, s2, start);
                    lemma_within_trans(s4, s3, start);
                    lemma_within_trans(self@, s4, start);
                    lemma_within_keeps(self@, start);
                }
            }

            // Activate stop orders
            let ghost s5 = self@;
            self.activate_stop_orders_at(symbol_id);
            proof {
                assert(stop_step(s5, self@, sym));
                lemma_book_run_extend(states, old(self)@, s5, self@, sym);
                states = states.push(self@);
                assert(phase_link(states, sym, states.len() - 2));
                assert forall|i: int| 0 <= i < states.len() - 1 implies #[trigger] phase_link(states, sym, i) by {
                    if i < prior.len() - 1 {
                        assert(phase_link(prior, sym, i));
                        assert(states[i] == prior[i] && states[i + 1] == prior[i + 1]);
                    } else if i == prior.len() - 1 {
                        assert(states[i] == start);
                    }
                }
                if !all_or_none_round {
                    lemma_keeps_trans(self@, s5, start);
                    lemma_fewer_orders(self@.orders, start.orders, gone);
                } else {
                    lemma_no_more_orders(self@.orders, s5.orders);
                }
            }
        }

        // Activate stop orders until no more
        let ghost matched = self@;
        let ghost k: int = states.len() - 1;
        loop
            invariant_except_break
                forall|i: int| k <= i < states.len() - 1 ==> #[trigger] activates(states, i),
            invariant
                sym == symbol_id as int,
                book_run(states, old(self)@, self@, sym),
                0 <= k < states.len(),
                states[k] == matched,
                cross_settled(matched, sym),
                forall|i: int| k <= i < states.len() - 1 ==> #[trigger] stop_link(states, sym, i),
                forall|i: int| k <= i < states.len() - 1 ==> #[trigger] rounds_link(states, sym, i),
                k % 2 == 0,
                forall|i: int| 0 <= i < k ==> #[trigger] phase_link(states, sym, i),
                evolves(self@, old(self)@),
                evolves(matched, old(self)@),
                evolves(self@, matched),
                keeps_uncrossed(self@, matched),
            ensures
                book_run(states, old(self)@, self@, sym),
                0 <= k < states.len(),
                states[k] == matched,
                cross_settled(matched, sym),
                forall|i: int| k <= i < states.len() - 1 ==> #[trigger] stop_link(states, sym, i),
                forall|i: int| k <= i < states.len() - 1 ==> #[trigger] rounds_link(states, sym, i),
                k % 2 == 0,
                k < states.len() - 1,
                forall|i: int| 0 <= i < k ==> #[trigger] phase_link(states, sym, i),
                forall|i: int| k <= i < states.len() - 2 ==> #[trigger] activates(states, i),
                stop_held(self@.orders) == stop_held(states[states.len() - 2].orders),
                evolves(self@, old(self)@),
                evolves(matched, old(self)@),
                evolves(self@, matched),
                keeps_uncrossed(self@, matched),
                triggered(self@, sym, true, false, market_ask_of(self@, sym)) is None,
                triggered(self@, sym, false, false, market_bid_of(self@, sym)) is None,
            decreases stop_held(self@.orders).len(),
        {
            let ghost mid = self@;
            let activated = self.activate_stop_orders(symbol_id);
            proof {
                let rs = choose|rs: Seq<MarketState>| #[trigger] rounds(rs, mid, self@, symbol_id as int);
                assert(rounds(rs, mid, self@, sym));
                assert(stop_step(mid, self@, sym));
                let old_states = states;
                lemma_book_run_extend(states, old(self)@, mid, self@, sym);
                states = states.push(self@);
                assert forall|i: int| k <= i < states.len() - 1 implies #[trigger] stop_link(states, sym, i) by {
                    if i < old_states.len() - 1 {
                        assert(stop_link(old_states, sym, i));
                        assert(states[i] == old_states[i] && states[i + 1] == old_states[i + 1]);
                    } else {
                        assert(states[i] == mid && states[i + 1] == self@);
                    }
                }
                assert(states[states.len() - 2] == mid && states[states.len() - 1] == self@);
                assert(rounds(rs, states[states.len() - 2], states[(states.len() - 2) + 1], sym));
                assert(rounds_link(states, sym, states.len() - 2));
                assert forall|i: int| k <= i < states.len() - 1 implies #[trigger] rounds_link(states, sym, i) by {
                    if i < old_states.len() - 1 {
                        assert(rounds_link(old_states, sym, i));
                        assert(states[i] == old_states[i] && states[i + 1] == old_states[i + 1]);
                    }
                }
                assert forall|i: int| 0 <= i < k implies #[trigger] phase_link(states, sym, i) by {
                    assert(phase_link(old_states, sym, i));
                    assert(states[i] == old_states[i] && states[i + 1] == old_states[i + 1]);
                }
                assert forall|i: int| k <= i < states.len() - 2 implies #[trigger] activates(states, i) by {
                    assert(activates(old_states, i));
                    assert(states[i] == old_states[i] && states[i + 1] == old_states[i + 1]);
                }
                if activated {
                    assert(activates(states, states.len() - 2));
                } else {
                    assert(states[states.len() - 2] == mid);
                }
                lemma_keeps_trans(self@, mid, matched);
            }
            if !activated {
                break;
            }
        }
        proof {
            assert(book_settled(states, k, old(self)@, self@, sym));
            assert(settled_run(states, old(self)@, self@, sym));
            if aon_free(old(self)@.orders) {
                lemma_aon_free_evolves(matched, old(self)@);
                assert forall|j: int| uncrossed_at(old(self)@, j) implies #[trigger] uncrossed_at(self@, j) by {
                    assert(uncrossed_at(matched, j));
                }
                assert(uncrossed_at(matched, sym));
            }
        }
    }

    // -- Stop order activation -------------------------------------------------

    /// Activate stop orders against the current market prices, round after round, while a
    /// round activates any. Returns whether any was activated.
    #[verifier::rlimit(40)]
    fn activate_stop_orders(&mut self, symbol_id: u32) -> (r: bool)
        requires
            old(self)@.wf(),
        ensures
            evolves(final(self)@, old(self)@),
            keeps_uncrossed(final(self)@, old(self)@),
            r == (stop_held(final(self)@.orders).len() < stop_held(old(self)@.orders).len()),
            !r ==> stop_held(final(self)@.orders) == stop_held(old(self)@.orders),
            triggered(final(self)@, symbol_id as int, true, false, market_ask_of(final(self)@, symbol_id as int)) is None,
            triggered(final(self)@, symbol_id as int, false, false, market_bid_of(final(self)@, symbol_id as int)) is None,
            exists|states: Seq<MarketState>| #[trigger] rounds(states, old(self)@, final(self)@, symbol_id as int),
    {
        let ghost sym = symbol_id as int;
        let ghost mut states: Seq<MarketState> = seq![self@];
        let mut result = false;
        // Every round that activates releases at least one waiting stop order.
        loop
            invariant_except_break
                forall|i: int| 0 <= i < states.len() - 1 ==> #[trigger] activates(states, i),
            invariant
                sym == symbol_id as int,
                states.len() >= 1,
                states[0] == old(self)@,
                states.last() == self@,
                forall|i: int| 0 <= i < states.len() - 1 ==> #[trigger] round_link(states, sym, i),
                evolves(self@, old(self)@),
                keeps_uncrossed(self@, old(self)@),
                stop_held(self@.orders).len() <= stop_held(old(self)@.orders).len(),
                result ==> stop_held(self@.orders).len() < stop_held(old(self)@.orders).len(),
                !result ==> stop_held(self@.orders) == stop_held(old(self)@.orders),
            ensures
                rounds(states, old(self)@, self@, sym),
                evolves(self@, old(self)@),
                keeps_uncrossed(self@, old(self)@),
                result ==> stop_held(self@.orders).len() < stop_held(old(self)@.orders).len(),
                !result ==> stop_held(self@.orders) == stop_held(old(self)@.orders),
                triggered(self@, sym, true, false, market_ask_of(self@, sym)) is None,
                triggered(self@, sym, false, false, market_bid_of(self@, sym)) is None,
            decreases stop_held(self@.orders).len(),
        {
            let ghost round_start = self@;
            let ghost prior = states;
            let ask_price = self.market_price_ask(symbol_id);
            let bid_price = self.market_price_bid(symbol_id);
            let mut activated = false;

            let ghost s0 = self@;
            if self.activate_stop_at(symbol_id, true, ask_price) {
                result = true;
                activated = true;
            }
            proof {
                lemma_keeps_trans(self@, s0, old(self)@);
                lemma_stop_held_within(self@, s0);
            }
            let ghost s1 = self@;
            if self.activate_trailing_stop_at(symbol_id, true, ask_price) {
                result = true;
                activated = true;
            }
            proof {
                lemma_keeps_trans(self@, s1, old(self)@);
                lemma_stop_held_within(self@, s1);
            }
            let ghost s2 = self@;
            self.recalculate_trailing_stop_price(symbol_id, LevelType::Ask);
            proof {
                lemma_within_keeps(self@, s2);
                lemma_keeps_trans(self@, s2, old(self)@);
                lemma_stop_held_within(self@, s2);
                lemma_same_types_stop_held(self@.orders, s2.orders);
                lemma_trailing_change_keeps_triggers(self@, s2, sym, BookSide::TrailingBuyStop);
            }
            let ghost s3 = self@;
            if self.activate_stop_at(symbol_id, false, bid_price) {
                result = true;
                activated = true;
            }
            proof {
                lemma_keeps_trans(self@, s3, old(self)@);
                lemma_stop_held_within(self@, s3);
            }
            let ghost s4 = self@;
            if self.activate_trailing_stop_at(symbol_id, false, bid_price) {
                result = true;
                activated = true;
            }
            proof {
                lemma_keeps_trans(self@, s4, old(self)@);
                lemma_stop_held_within(self@, s4);
            }
            let ghost s5 = self@;
            self.recalculate_trailing_stop_price(symbol_id, LevelType::Bid);
            proof {
                lemma_within_keeps(self@, s5);
                lemma_keeps_trans(self@, s5, old(self)@);
                lemma_stop_held_within(self@, s5);
                lemma_same_types_stop_held(self@.orders, s5.orders);
                lemma_trailing_change_keeps_triggers(self@, s5, sym, BookSide::TrailingSellStop);
                assert(recalc_effect(s2, s3, sym, LevelType::Ask));
                assert(recalc_effect(s5, self@, sym, LevelType::Bid));
                assert(round_at(s1, s2, s3, s4, s5, s0, self@, sym));
                assert(round_step(s0, self@, sym));
                let old_states = states;
                states = states.push(self@);
                assert forall|i: int| 0 <= i < states.len() - 1 implies #[trigger] round_link(states, sym, i) by {
                    if i < old_states.len() - 1 {
                        assert(round_link(old_states, sym, i));
                        assert(states[i] == old_states[i] && states[i + 1] == old_states[i + 1]);
                    } else {
                        assert(states[i] == s0 && states[i + 1] == self@);
                    }
                }
            }

            proof {
                if activated {
                    assert(stop_held(self@.orders).len() < stop_held(round_start.orders).len());
                    assert(activates(states, states.len() - 2));
                    assert forall|i: int| 0 <= i < states.len() - 1 implies #[trigger] activates(states, i) by {
                        if i < prior.len() - 1 {
                            assert(activates(prior, i));
                            assert(states[i] == prior[i] && states[i + 1] == prior[i + 1]);
                        }
                    }
                } else {
                    assert(stop_held(self@.orders) == stop_held(round_start.orders));
                    assert forall|i: int| 0 <= i < states.len() - 2 implies #[trigger] activates(states, i) by {
                        assert(activates(prior, i));
                        assert(states[i] == prior[i] && states[i + 1] == prior[i + 1]);
                    }
                    assert(states[states.len() - 2] == round_start);
                }
            }
            if !activated {
                proof {
                    assert(triggered(s3, sym, true, false, market_ask_of(s3, sym)) is None);
                }
                break;
            }
        }
        proof {
            if !result {
                assert(stop_held(self@.orders).len() == stop_held(old(self)@.orders).len());
            }
        }
        result
    }

    fn activate_stop_orders_at(&mut self, symbol_id: u32)
        requires
            old(self)@.wf(),
        ensures
            evolves(final(self)@, old(self)@),
            keeps_uncrossed(final(self)@, old(self)@),
            ({
                let sym = symbol_id as int;
                let buys = triggered(old(self)@, sym, true, false, market_ask_of(old(self)@, sym));
                let sells = triggered(old(self)@, sym, false, false, market_bid_of(old(self)@, sym));
                &&& buys is Some ==> stop_held(final(self)@.orders).len() < stop_held(old(self)@.orders).len()
                &&& buys is None ==> (stop_held(final(self)@.orders).len() < stop_held(old(self)@.orders).len()
                    <==> sells is Some)
                &&& buys is None && sells is None ==> final(self)@ == old(self)@
            }),
            plain_round(old(self)@, final(self)@, symbol_id as int),
    {
        let ask_price = self.market_price_ask(symbol_id);
        let bid_price = self.market_price_bid(symbol_id);
        self.activate_stop_at(symbol_id, true, ask_price);
        let ghost mid = self@;
        self.activate_stop_at(symbol_id, false, bid_price);
        proof {
            lemma_keeps_trans(self@, mid, old(self)@);
            lemma_stop_held_within(self@, mid);
            assert(batch(old(self)@, mid, symbol_id as int, true, false, market_ask_of(old(self)@, symbol_id as int)));
        }
    }

    /// The ids at the best level of a stop collection, when the market price reaches it.
    fn triggered_ids(&self, symbol_id: u32, is_buy: bool, trailing: bool, market_price: u64) -> (r: Option<Vec<OrderId>>)
        requires
            self@.wf(),
        ensures
            r matches Some(ids) ==> forall|i: int|
                0 <= i < ids@.len() ==> #[trigger] self@.orders.contains_key(ids@[i]) && self@.orders[ids@[i]].symbol_id
                    == symbol_id,
            r matches Some(ids) ==> ids@.len() > 0 && is_stop_kind(self@.orders[ids@[0]]),
            match r {
                Some(ids) => triggered(self@, symbol_id as int, is_buy, trailing, market_price) == Some(ids@),
                None => triggered(self@, symbol_id as int, is_buy, trailing, market_price) is None,
            },
    {
        let ob = match self.get_order_book(symbol_id) {
            Some(ob) => ob,
            None => {
                return None;
            },
        };
        let level = if trailing {
            if is_buy { ob.best_trailing_buy_stop() } else { ob.best_trailing_sell_stop() }
        } else {
            if is_buy { ob.best_buy_stop() } else { ob.best_sell_stop() }
        };
        let ghost side = if trailing {
            if is_buy { BookSide::TrailingBuyStop } else { BookSide::TrailingSellStop }
        } else {
            if is_buy { BookSide::BuyStop } else { BookSide::SellStop }
        };
        let level = match level {
            Some(l) => l,
            None => {
                return None;
            },
        };
        proof {
            let b = ob@;
            let m = b.side(side);
            let k = if is_buy { lowest(m) } else { highest(m) };
            assert(m.contains_key(k));
            assert(level@ == m[k]);
            assert(level_consistent(m[k], side, k, symbol_id as int, self@.orders));
        }
        let arbitrage = if level.level.is_bid() {
            market_price >= level.level.price
        } else {
            market_price <= level.level.price
        };
        if !arbitrage {
            return None;
        }
        Some(level.order_ids())
    }

    /// Activate every order of a triggered stop level.
    fn activate_ids(&mut self, symbol_id: u32, order_ids: &Vec<OrderId>)
        requires
            old(self)@.wf(),
            forall|i: int|
                0 <= i < order_ids@.len() && #[trigger] old(self)@.orders.contains_key(order_ids@[i])
                    ==> old(self)@.orders[order_ids@[i]].symbol_id == symbol_id,
        ensures
            evolves(final(self)@, old(self)@),
            keeps_uncrossed(final(self)@, old(self)@),
            order_ids@.len() > 0 && old(self)@.orders.contains_key(order_ids@[0]) && is_stop_kind(
                old(self)@.orders[order_ids@[0]],
            ) ==> !(final(self)@.orders.contains_key(order_ids@[0]) && is_stop_kind(final(self)@.orders[order_ids@[0]])),
            exists|states: Seq<MarketState>| #[trigger] activations(states, order_ids@, old(self)@, final(self)@, symbol_id as int),
    {
        let mut i: usize = 0;
        let ghost mut states: Seq<MarketState> = seq![self@];
        while i < order_ids.len()
            invariant
                states.len() == i + 1,
                i <= order_ids@.len(),
                states[0] == old(self)@,
                states.last() == self@,
                forall|k: int| 0 <= k < i ==> #[trigger] activation_link(states, order_ids@, symbol_id as int, k),
                evolves(self@, old(self)@),
                keeps_uncrossed(self@, old(self)@),
                forall|i: int|
                    0 <= i < order_ids@.len() && #[trigger] old(self)@.orders.contains_key(order_ids@[i])
                        ==> old(self)@.orders[order_ids@[i]].symbol_id == symbol_id,
                i > 0 && old(self)@.orders.contains_key(order_ids@[0]) && is_stop_kind(old(self)@.orders[order_ids@[0]])
                    ==> !(self@.orders.contains_key(order_ids@[0]) && is_stop_kind(self@.orders[order_ids@[0]])),
            decreases order_ids@.len() - i,
        {
            let order_id = order_ids[i];
            let order_type = match table_get(&self.orders, order_id) {
                Some(o) => Some(o.order_type),
                None => None,
            };
            let ghost mid = self@;
            proof {
                if mid.orders.contains_key(order_id) {
                    assert(old(self)@.orders.contains_key(order_ids@[i as int]));
                }
            }
            match order_type {
                Some(OrderType::Stop) | Some(OrderType::TrailingStop) => {
                    self.activate_stop_order(symbol_id, order_id);
                    proof {
                        lemma_within_keeps(self@, mid);
                    }
                },
                Some(OrderType::StopLimit) | Some(OrderType::TrailingStopLimit) => {
                    self.activate_stop_limit_order(symbol_id, order_id);
                },
                _ => {},
            }
            proof {
                lemma_keeps_trans(self@, mid, old(self)@);
                assert(activation(mid, self@, symbol_id as int, order_ids@[i as int]));
                let old_states = states;
                states = states.push(self@);
                assert forall|k: int| 0 <= k < i + 1 implies #[trigger] activation_link(states, order_ids@, symbol_id as int, k) by {
                    if k < i {
                        assert(activation_link(old_states, order_ids@, symbol_id as int, k));
                        assert(states[k] == old_states[k] && states[k + 1] == old_states[k + 1]);
                    } else {
                        assert(states[k] == mid && states[k + 1] == self@);
                    }
                }
            }
            i = i + 1;
        }
        proof {
            assert(activations(states, order_ids@, old(self)@, self@, symbol_id as int));
        }
    }

    fn activate_stop_at(&mut self, symbol_id: u32, is_buy: bool, market_price: u64) -> (r: bool)
        requires
            old(self)@.wf(),
        ensures
            r == triggered(old(self)@, symbol_id as int, is_buy, false, market_price) is Some,
            !r ==> final(self)@ == old(self)@,
            batch(old(self)@, final(self)@, symbol_id as int, is_buy, false, market_price),
            evolves(final(self)@, old(self)@),
            keeps_uncrossed(final(self)@, old(self)@),
            r ==> stop_held(final(self)@.orders).len() < stop_held(old(self)@.orders).len(),
    {
        match self.triggered_ids(symbol_id, is_buy, false, market_price) {
            Some(order_ids) => {
                let ghost pre = self@;
                self.activate_ids(symbol_id, &order_ids);
                proof {
                    let st = choose|st: Seq<MarketState>| #[trigger] activations(st, order_ids@, pre, self@, symbol_id as int);
                    assert(activations(st, order_ids@, old(self)@, self@, symbol_id as int));
                    assert(triggered(old(self)@, symbol_id as int, is_buy, false, market_price) == Some(order_ids@));
                    assert(triggered(old(self)@, symbol_id as int, is_buy, false, market_price).unwrap() == order_ids@);
                    assert(batch(old(self)@, self@, symbol_id as int, is_buy, false, market_price));
                    lemma_stop_held_drops(self@, old(self)@, order_ids@[0]);
                }
                true
            },
            None => false,
        }
    }

    fn activate_trailing_stop_at(&mut self, symbol_id: u32, is_buy: bool, market_price: u64) -> (r: bool)
        requires
            old(self)@.wf(),
        ensures
            r == triggered(old(self)@, symbol_id as int, is_buy, true, market_price) is Some,
            !r ==> final(self)@ == old(self)@,
            batch(old(self)@, final(self)@, symbol_id as int, is_buy, true, market_price),
            evolves(final(self)@, old(self)@),
            keeps_uncrossed(final(self)@, old(self)@),
            r ==> stop_held(final(self)@.orders).len() < stop_held(old(self)@.orders).len(),
    {
        match self.triggered_ids(symbol_id, is_buy, true, market_price) {
            Some(order_ids) => {
                let ghost pre = self@;
                self.activate_ids(symbol_id, &order_ids);
                proof {
                    let st = choose|st: Seq<MarketState>| #[trigger] activations(st, order_ids@, pre, self@, symbol_id as int);
                    assert(activations(st, order_ids@, old(self)@, self@, symbol_id as int));
                    assert(triggered(old(self)@, symbol_id as int, is_buy, true, market_price) == Some(order_ids@));
                    assert(triggered(old(self)@, symbol_id as int, is_buy, true, market_price).unwrap() == order_ids@);
                    assert(batch(old(self)@, self@, symbol_id as int, is_buy, true, market_price));
                    lemma_stop_held_drops(self@, old(self)@, order_ids@[0]);
                }
                true
            },
            None => false,
        }
    }

    /// A stop order becomes a market order and matches.
    fn activate_stop_order(&mut self, symbol_id: u32, id: OrderId)
        requires
            old(self)@.wf(),
            old(self)@.orders.contains_key(id) ==> old(self)@.orders[id].symbol_id == symbol_id,
            old(self)@.orders.contains_key(id) ==> old(self)@.orders[id].order_type == OrderType::Stop
                || old(self)@.orders[id].order_type == OrderType::TrailingStop,
        ensures
            evolves(final(self)@, old(self)@),
            limits_within(final(self)@, old(self)@, None),
            old(self)@.orders.contains_key(id) ==> !final(self)@.orders.contains_key(id),
            activation(old(self)@, final(self)@, symbol_id as int, id),
    {
        let mut order = match table_get(&self.orders, id) {
            Some(o) => *o,
            None => {
                return;
            },
        };
        let ghost o0 = order;
        // Remove from the stop book
        self.remove_order(id);

        // Convert to market
        order.order_type = OrderType::Market;
        order.price = 0;
        order.stop_price = 0;
        order.time_in_force = if order.is_fok() { OrderTimeInForce::Fok } else { OrderTimeInForce::Ioc };

        self.on_update_order(&order);
        let ghost mid = self@;
        let ghost m0 = order;
        proof {
            assert(m0 == as_market(o0));
        }
        self.match_market(symbol_id, &mut order);
        proof {
            lemma_within_trans(self@, mid, old(self)@);
            let sym = symbol_id as int;
            if market_entry_price(mid, sym, m0) is Some {
                let p = market_entry_price(mid, sym, m0).unwrap();
                let (f, q) = choose|f: Seq<MarketState>, q: Seq<u64>|
                    #[trigger] incoming_run(f, q, mid, self@, sym, m0.spec_is_buy(), Some(p), resets_matching(m0.time_in_force)) && q[0]
                        == m0.leaves_quantity && q.last() == order.leaves_quantity;
                assert(market_fills(f, q, mid, sym, m0));
                assert(activation_at(mid, f, q, old(self)@, self@, sym, id));
            } else {
                assert(market_fills(seq![mid], seq![m0.leaves_quantity], mid, sym, m0));
                assert(activation_at(mid, seq![mid], seq![m0.leaves_quantity], old(self)@, self@, sym, id));
            }
        }
        self.on_delete_order(&order);
    }

    /// A stop-limit order becomes a limit order, matches, and rests with what is left.
    fn activate_stop_limit_order(&mut self, symbol_id: u32, id: OrderId)
        requires
            old(self)@.wf(),
            old(self)@.orders.contains_key(id) ==> old(self)@.orders[id].symbol_id == symbol_id,
            old(self)@.orders.contains_key(id) ==> old(self)@.orders[id].order_type == OrderType::StopLimit
                || old(self)@.orders[id].order_type == OrderType::TrailingStopLimit,
        ensures
            evolves(final(self)@, old(self)@),
            keeps_uncrossed(final(self)@, old(self)@),
            final(self)@.orders.contains_key(id) ==> final(self)@.orders[id].order_type == OrderType::Limit,
            activation(old(self)@, final(self)@, symbol_id as int, id),
    {
        let mut order = match table_get(&self.orders, id) {
            Some(o) => *o,
            None => {
                return;
            },
        };
        let ghost o0 = order;
        let ghost sym = symbol_id as int;
        self.remove_order(id);
        let ghost s1 = self@;

        // Convert to limit
        order.order_type = OrderType::Limit;
        order.stop_price = 0;

        self.on_update_order(&order);
        let ghost l0 = order;
        proof {
            assert(l0 == as_limit(o0));
        }
        self.match_limit(symbol_id, &mut order);
        let ghost s2 = self@;
        let ghost (f, q) = choose|f: Seq<MarketState>, q: Seq<u64>|
            #[trigger] incoming_run(f, q, s1, self@, sym, l0.spec_is_buy(), Some(l0.price), resets_matching(l0.time_in_force)) && q[0]
                == l0.leaves_quantity && q.last() == order.leaves_quantity;
        proof {
            lemma_within_trans(s2, s1, old(self)@);
            assert(l0 == Order { price: l0.price, ..l0 });
            assert(limit_fills(f, q, s1, sym, l0));
        }

        if order.leaves_quantity > 0 && !order.is_ioc() && !order.is_fok() {
            self.insert_order(order);
            let ghost s3 = self@;
            self.book_order(order.id);
            proof {
                lemma_within_trans(s3, s2, old(self)@);
                lemma_within_keeps(s3, old(self)@);
                if aon_free(old(self)@.orders) {
                    assert(aon_free(s1.orders));
                    lemma_clears_within(s3, s2, symbol_id as int, order);
                    lemma_opening_keeps(self@, s3, order);
                }
                assert(self@.orders[id] == order);
                assert(order == (Order {
                    leaves_quantity: q.last(),
                    executed_quantity: self@.orders[id].executed_quantity,
                    ..as_limit(o0)
                }));
                assert(limit_rest(self@, s2, as_limit(o0), q.last()));
                assert(activation_at(s1, f, q, old(self)@, self@, sym, id));
            }
        } else {
            self.on_delete_order(&order);
            proof {
                lemma_within_keeps(self@, old(self)@);
                assert(limit_rest(self@, s2, as_limit(o0), q.last()));
                assert(activation_at(s1, f, q, old(self)@, self@, sym, id));
            }
        }
    }

    /// The trailing orders of one side whose stop price moves with the market, each once,
    /// with the stop price it moves to.
    fn trailing_updates(&self, symbol_id: u32, level_type: LevelType) -> (r: Vec<(OrderId, u64)>)
        requires
            self@.wf(),
        ensures
            forall|t: int|
                0 <= t < r@.len() ==> trailing_move(self@, symbol_id as int, level_type, #[trigger] r@[t].0) == Some(
                    r@[t].1,
                ),
            forall|id: OrderId| #[trigger]
                trailing_move(self@, symbol_id as int, level_type, id) is Some ==> exists|t: int|
                    0 <= t < r@.len() && r@[t].0 == id,
            forall|t: int, u: int| 0 <= t < u < r@.len() ==> r@[t].0 != r@[u].0,
    {
        let mut updates: Vec<(OrderId, u64)> = Vec::new();
        let ob = match self.get_order_book(symbol_id) {
            Some(ob) => ob,
            None => {
                return updates;
            },
        };
        let ghost sym = symbol_id as int;
        let ghost st = self@;
        let ghost b = ob@;
        let ghost side = trailing_collection(level_type);
        let ghost m = b.side(side);
        let levels = match level_type {
            LevelType::Ask => ob.trailing_buy_stop(),
            LevelType::Bid => ob.trailing_sell_stop(),
        };
        let prices = level_prices(levels);
        // Where each listed entry was found: its level's index in `prices` and its queue index.
        let ghost mut locs: Seq<(int, int)> = Seq::empty();
        proof {
            assert(st.books[sym] == Some(b));
        }
        let mut i: usize = 0;
        while i < prices.len()
            invariant
                st == self@,
                st.wf(),
                st.book_of(sym) == Some(b),
                ob@ == b,
                0 <= sym < st.books.len(),
                m == b.side(side),
                side == trailing_collection(level_type),
                level_states(levels@) == m,
                i <= prices@.len(),
                forall|a: int| 0 <= a < prices@.len() ==> levels@.contains_key(#[trigger] prices@[a]),
                prices@.no_duplicates(),
                forall|k: u64| #[trigger] levels@.contains_key(k) ==> prices@.contains(k),
                locs.len() == updates@.len(),
                forall|t: int|
                    0 <= t < updates@.len() ==> trailing_move(st, sym, level_type, #[trigger] updates@[t].0) == Some(
                        updates@[t].1,
                    ),
                forall|t: int|
                    #![trigger locs[t]]
                    0 <= t < locs.len() ==> 0 <= locs[t].0 < i && 0 <= locs[t].1 < m[prices@[locs[t].0]].queue.len()
                        && m[prices@[locs[t].0]].queue[locs[t].1] == updates@[t].0,
                forall|t: int, u: int|
                    #![trigger locs[t], locs[u]]
                    0 <= t < u < locs.len() ==> locs[t].0 < locs[u].0 || (locs[t].0 == locs[u].0 && locs[t].1
                        < locs[u].1),
                forall|a: int, c: int|
                    #![trigger m[prices@[a]].queue[c]]
                    0 <= a < i && 0 <= c < m[prices@[a]].queue.len() && trailing_move(
                        st,
                        sym,
                        level_type,
                        m[prices@[a]].queue[c],
                    ) is Some ==> exists|t: int| 0 <= t < updates@.len() && updates@[t].0 == m[prices@[a]].queue[c],
            decreases prices.len() - i,
        {
            let ghost k = prices@[i as int];
            match levels.get(&prices[i]) {
                Some(level) => {
                    proof {
                        assert(level@ == m[k]);
                    }
                    let ids = level.order_ids();
                    let mut j: usize = 0;
                    while j < ids.len()
                        invariant
                            st == self@,
                            st.wf(),
                            st.book_of(sym) == Some(b),
                            m == b.side(side),
                            side == trailing_collection(level_type),
                            ob@ == b,
                            i < prices@.len(),
                            k == prices@[i as int],
                            m.contains_key(k),
                            ids@ == m[k].queue,
                            j <= ids@.len(),
                            locs.len() == updates@.len(),
                            forall|t: int|
                                0 <= t < updates@.len() ==> trailing_move(st, sym, level_type, #[trigger] updates@[t].0)
                                    == Some(updates@[t].1),
                            forall|t: int|
                                #![trigger locs[t]]
                                0 <= t < locs.len() ==> 0 <= locs[t].0 <= i && 0 <= locs[t].1
                                    < m[prices@[locs[t].0]].queue.len() && m[prices@[locs[t].0]].queue[locs[t].1]
                                    == updates@[t].0 && (locs[t].0 == i ==> locs[t].1 < j),
                            forall|t: int, u: int|
                                #![trigger locs[t], locs[u]]
                                0 <= t < u < locs.len() ==> locs[t].0 < locs[u].0 || (locs[t].0 == locs[u].0
                                    && locs[t].1 < locs[u].1),
                            forall|a: int, c: int|
                                #![trigger m[prices@[a]].queue[c]]
                                0 <= a < i && 0 <= c < m[prices@[a]].queue.len() && trailing_move(
                                    st,
                                    sym,
                                    level_type,
                                    m[prices@[a]].queue[c],
                                ) is Some ==> exists|t: int| 0 <= t < updates@.len() && updates@[t].0 == m[prices@[a]].queue[c],
                            forall|c: int|
                                #![trigger m[k].queue[c]]
                                0 <= c < j && trailing_move(st, sym, level_type, m[k].queue[c]) is Some ==> exists|t: int|
                                    0 <= t < updates@.len() && updates@[t].0 == m[k].queue[c],
                        decreases ids.len() - j,
                    {
                        let ghost id = ids@[j as int];
                        proof {
                            assert(m.contains_key(k) && m[k].queue.contains(id));
                        }
                        match table_get(&self.orders, ids[j]) {
                            Some(o) => {
                                if ob.trailing_stop_price_defined(o) {
                                    let new_price = ob.calculate_trailing_stop_price(o);
                                    if new_price != o.stop_price {
                                        proof {
                                            assert(trailing_move(st, sym, level_type, id) == Some(new_price));
                                        }
                                        let ghost prev = updates@;
                                        updates.push((ids[j], new_price));
                                        proof {
                                            locs = locs.push((i as int, j as int));
                                            assert(updates@[updates@.len() - 1].0 == id);
                                            assert forall|a: int, c: int|
                                                #![trigger m[prices@[a]].queue[c]]
                                                0 <= a < i && 0 <= c < m[prices@[a]].queue.len() && trailing_move(
                                                    st,
                                                    sym,
                                                    level_type,
                                                    m[prices@[a]].queue[c],
                                                ) is Some implies exists|t: int|
                                                0 <= t < updates@.len() && updates@[t].0 == m[prices@[a]].queue[c] by {
                                                let t = choose|t: int| 0 <= t < prev.len() && prev[t].0 == m[prices@[a]].queue[c];
                                                assert(updates@[t] == prev[t]);
                                            }
                                            assert forall|c: int|
                                                #![trigger m[k].queue[c]]
                                                0 <= c < j + 1 && trailing_move(st, sym, level_type, m[k].queue[c]) is Some implies exists|t: int|
                                                0 <= t < updates@.len() && updates@[t].0 == m[k].queue[c] by {
                                                if c < j {
                                                    let t = choose|t: int| 0 <= t < prev.len() && prev[t].0 == m[k].queue[c];
                                                    assert(updates@[t] == prev[t]);
                                                } else {
                                                    assert(updates@[updates@.len() - 1].0 == m[k].queue[c]);
                                                }
                                            }
                                        }
                                    }
                                }
                            },
                            None => {},
                        }
                        j = j + 1;
                    }
                },
                None => {},
            }
            i = i + 1;
        }
        proof {
            assert forall|id: OrderId| #[trigger]
                trailing_move(st, sym, level_type, id) is Some implies exists|t: int|
                    0 <= t < updates@.len() && updates@[t].0 == id by {
                let k = choose|k: u64| #[trigger] m.contains_key(k) && m[k].queue.contains(id);
                assert(prices@.contains(k));
                let a = choose|a: int| 0 <= a < prices@.len() && prices@[a] == k;
                let c = choose|c: int| 0 <= c < m[k].queue.len() && m[k].queue[c] == id;
                assert(m[prices@[a]].queue[c] == id);
            }
            assert forall|t: int, u: int| 0 <= t < u < updates@.len() implies updates@[t].0 != updates@[u].0 by {
                let (a1, c1) = locs[t];
                let (a2, c2) = locs[u];
                if updates@[t].0 == updates@[u].0 {
                    let id = updates@[t].0;
                    assert(locs[t].0 < locs[u].0 || (locs[t].0 == locs[u].0 && locs[t].1 < locs[u].1));
                    if a1 == a2 {
                        let k1 = prices@[a1];
                        assert(b.side(side).contains_key(k1));
                        assert(level_consistent(b.side(side)[k1], side, k1, sym, st.orders));
                        assert(m[k1].queue.no_duplicates());
                        assert(m[k1].queue[c1] == m[k1].queue[c2]);
                    } else {
                        let k1 = prices@[a1];
                        let k2 = prices@[a2];
                        assert(b.side(side).contains_key(k1));
                        assert(b.side(side).contains_key(k2));
                        assert(level_consistent(b.side(side)[k1], side, k1, sym, st.orders));
                        assert(level_consistent(b.side(side)[k2], side, k2, sym, st.orders));
                        assert(rests_at(st.orders, m[k1].queue[c1], side, k1, sym));
                        assert(rests_at(st.orders, m[k2].queue[c2], side, k2, sym));
                        assert(prices@[a1] != prices@[a2]);
                    }
                }
            }
        }
        updates
    }

    /// Move trailing stop orders of one side with the market: each order queued in the
    /// trailing collection of that side whose trailing stop price is computable and differs
    /// from its stop price takes that stop price (a trailing stop-limit order keeps the
    /// distance between its limit and its stop price). Only that collection of the book
    /// changes.
    fn recalculate_trailing_stop_price(&mut self, symbol_id: u32, level_type: LevelType)
        requires
            old(self)@.wf(),
        ensures
            evolves(final(self)@, old(self)@),
            limits_within(final(self)@, old(self)@, None),
            final(self)@.orders.dom() == old(self)@.orders.dom(),
            forall|id: OrderId| #[trigger]
                final(self)@.orders.contains_key(id) ==> final(self)@.orders[id] == (match trailing_move(
                    old(self)@,
                    symbol_id as int,
                    level_type,
                    id,
                ) {
                    Some(p) => trailed(old(self)@.orders[id], p),
                    None => old(self)@.orders[id],
                }),
            only_side_changed(final(self)@, old(self)@, symbol_id as int, trailing_collection(level_type)),
            (forall|id: OrderId| #[trigger] trailing_move(old(self)@, symbol_id as int, level_type, id) is None)
                ==> final(self)@ == old(self)@,
    {
        let ghost st = self@;
        let ghost sym = symbol_id as int;
        let ghost side = trailing_collection(level_type);
        let orders_to_update = self.trailing_updates(symbol_id, level_type);
        let ghost r = orders_to_update@;
        proof {
            assert(only_side_changed(self@, st, sym, side)) by {
                assert forall|j: int| 0 <= j < st.books.len() implies #[trigger] self@.books[j] == (if j == sym
                    && st.books[j] is Some {
                    Some(st.books[j].unwrap().with_side(side, self@.books[j].unwrap().side(side)))
                } else {
                    st.books[j]
                }) by {
                    if j == sym && st.books[j] is Some {
                        lemma_with_own_side(st.books[j].unwrap(), side);
                    }
                }
            }
        }
        let mut i: usize = 0;
        while i < orders_to_update.len()
            invariant
                st == old(self)@,
                st.wf(),
                sym == symbol_id as int,
                side == trailing_collection(level_type),
                r == orders_to_update@,
                i <= r.len(),
                evolves(self@, old(self)@),
                limits_within(self@, old(self)@, None),
                only_side_changed(self@, st, sym, side),
                self@.orders.dom() == st.orders.dom(),
                i == 0 ==> self@ == st,
                forall|t: int| 0 <= t < r.len() ==> trailing_move(st, sym, level_type, #[trigger] r[t].0) == Some(r[t].1),
                forall|id: OrderId| #[trigger]
                    trailing_move(st, sym, level_type, id) is Some ==> exists|t: int| 0 <= t < r.len() && r[t].0 == id,
                forall|t: int, u: int| 0 <= t < u < r.len() ==> r[t].0 != r[u].0,
                forall|t: int|
                    0 <= t < r.len() ==> self@.orders[#[trigger] r[t].0] == (if t < i {
                        trailed(st.orders[r[t].0], r[t].1)
                    } else {
                        st.orders[r[t].0]
                    }),
                forall|id: OrderId|
                    #[trigger] self@.orders.contains_key(id) && trailing_move(st, sym, level_type, id) is None
                        ==> self@.orders[id] == st.orders[id],
            decreases orders_to_update@.len() - i,
        {
            let (order_id, new_price) = orders_to_update[i];
            let ghost ti = i as int;
            proof {
                assert(trailing_move(st, sym, level_type, r[ti].0) == Some(r[ti].1));
                let b = st.book_of(sym).unwrap();
                let m = b.side(side);
                let k = choose|k: u64| #[trigger] m.contains_key(k) && m[k].queue.contains(order_id);
                let c = choose|c: int| 0 <= c < m[k].queue.len() && m[k].queue[c] == order_id;
                assert(st.books[sym] is Some);
                assert(level_consistent(st.books[sym].unwrap().side(side)[k], side, k, sym, st.orders));
                assert(rests_at(st.orders, m[k].queue[c], side, k, sym));
                assert(self@.orders[r[ti].0] == st.orders[order_id]);
            }
            i = i + 1;
            let old_order = match table_get(&self.orders, order_id) {
                Some(o) => *o,
                None => {
                    continue;
                },
            };
            // Only trailing orders move; the ids come from the trailing collections
            let order = match old_order.order_type {
                OrderType::TrailingStop => Order { stop_price: new_price, ..old_order },
                OrderType::TrailingStopLimit => {
                    let diff = (old_order.price as i64).wrapping_sub(old_order.stop_price as i64);
                    Order { stop_price: new_price, price: new_price.wrapping_add_signed(diff), ..old_order }
                },
                _ => {
                    continue;
                },
            };
            proof {
                assert(order == trailed(st.orders[order_id], new_price));
            }
            let ghost s0 = self@;
            self.unbook(order_id);
            let ghost s1 = self@;
            self.set_record(order);
            self.on_update_order(&order);
            let ghost s2 = self@;
            self.book_order(order_id);
            proof {
                lemma_within_nonlimit(self@, s2, order);
                lemma_within_trans(s1, s0, old(self)@);
                lemma_within_trans(s2, s1, old(self)@);
                lemma_within_trans(self@, s2, old(self)@);
                assert(resting_side(order) == Some(side));
                assert(resting_side(s0.orders[order_id]) == Some(side));
                lemma_only_side_trans(s1, s0, st, sym, side);
                lemma_only_side_trans(s2, s1, st, sym, side);
                lemma_only_side_trans(self@, s2, st, sym, side);
                assert(self@.orders == s0.orders.insert(order_id, order));
                assert forall|t: int| 0 <= t < r.len() implies self@.orders[#[trigger] r[t].0] == (if t < i {
                    trailed(st.orders[r[t].0], r[t].1)
                } else {
                    st.orders[r[t].0]
                }) by {
                    if t != ti {
                        if t < ti {
                            assert(r[t].0 != r[ti].0);
                        } else {
                            assert(r[ti].0 != r[t].0);
                        }
                    }
                }
            }
        }
        proof {
            if forall|id: OrderId| #[trigger] trailing_move(st, sym, level_type, id) is None {
                if r.len() > 0 {
                    assert(trailing_move(st, sym, level_type, r[0].0) == Some(r[0].1));
                }
            }
            assert forall|id: OrderId| #[trigger] self@.orders.contains_key(id) implies self@.orders[id] == (
            match trailing_move(st, sym, level_type, id) {
                Some(p) => trailed(st.orders[id], p),
                None => st.orders[id],
            }) by {
                if trailing_move(st, sym, level_type, id) is Some {
                    let t = choose|t: int| 0 <= t < r.len() && r[t].0 == id;
                    assert(self@.orders[r[t].0] == trailed(st.orders[r[t].0], r[t].1));
                }
            }
        }
    }

    /// Notify the handler of a level change and of the book update.
    fn update_level(&mut self, symbol_id: u32, update: &LevelUpdate)
        ensures
            final(self)@ == old(self)@,
            final(self).notices() == old(self).notices() + level_notices(old(self)@, symbol_id as int, *update),
    {
        let idx = symbol_id as usize;
        if idx >= self.order_books.len() {
            proof {
                assert(level_notices(old(self)@, symbol_id as int, *update) =~= Seq::empty());
                assert(self.notices() =~= old(self).notices() + Seq::empty());
            }
            return;
        }
        match &self.order_books[idx] {
            Some(ob) => {
                match update.update_type {
                    UpdateType::Add => self.handler.on_add_level(ob, &update.level, update.top),
                    UpdateType::Update => self.handler.on_update_level(ob, &update.level, update.top),
                    UpdateType::Delete => self.handler.on_delete_level(ob, &update.level, update.top),
                    UpdateType::Unchanged => {},
                }
                self.handler.on_update_order_book(ob, update.top);
                proof {
                    self.notices@ = self.notices@ + level_notices(old(self)@, symbol_id as int, *update);
                }
            },
            None => {
                proof {
                    assert(level_notices(old(self)@, symbol_id as int, *update) =~= Seq::empty());
                    assert(self.notices() =~= old(self).notices() + Seq::empty());
                }
            },
        }
    }

    // -- Private helpers: keeping books and orders in step ----------------------

    /// Take the order out of the book and out of the held orders.
    fn remove_order(&mut self, id: OrderId) -> (r: Order)
        requires
            old(self)@.wf(),
            old(self)@.orders.contains_key(id),
        ensures
            final(self).notices() == old(self).notices(),
            final(self)@.wf(),
            final(self)@.same_registry(old(self)@),
            final(self)@.orders == old(self)@.orders.remove(id),
            r == old(self)@.orders[id],
            limits_within(final(self)@, old(self)@, None),
            final(self)@.books == unbooked_books(old(self)@, id),
    {
        self.unbook(id);
        let ghost st = self@;
        let r = table_remove(&mut self.orders, id).unwrap();
        proof {
            lemma_orders_change(st, st.orders.remove(id));
            assert(self@ == MarketState { orders: st.orders.remove(id), ..st });
            lemma_within_trans(self@, st, old(self)@);
        }
        r
    }

    /// Hold a new order (not yet in any book).
    fn insert_order(&mut self, o: Order)
        requires
            old(self)@.wf(),
            !old(self)@.orders.contains_key(o.id),
            order_ok(o),
        ensures
            final(self).notices() == old(self).notices(),
            final(self)@.wf(),
            final(self)@.same_registry(old(self)@),
            final(self)@.orders == old(self)@.orders.insert(o.id, o),
            !final(self)@.is_queued(o),
            limits_within(final(self)@, old(self)@, None),
            final(self)@.books == old(self)@.books,
    {
        let ghost st = self@;
        proof {
            lemma_not_held_not_queued(st, o);
        }
        table_insert(&mut self.orders, o.id, o);
        proof {
            lemma_orders_change(st, st.orders.insert(o.id, o));
            assert(self@ == MarketState { orders: st.orders.insert(o.id, o), ..st });
        }
    }

    /// Queue a held order that is not queued at its own level, when its book exists and the
    /// level can take it. A limit order's level update comes back.
    fn book_order(&mut self, id: OrderId) -> (r: Option<LevelUpdate>)
        requires
            old(self)@.wf(),
            old(self)@.orders.contains_key(id),
            !old(self)@.is_queued(old(self)@.orders[id]),
        ensures
            final(self).notices() == old(self).notices(),
            final(self)@.wf(),
            final(self)@.same_registry(old(self)@),
            final(self)@.orders == old(self)@.orders,
            limits_within(final(self)@, old(self)@, Some(old(self)@.orders[id])),
            ({
                let o = old(self)@.orders[id];
                let sym = o.symbol_id as int;
                match old(self)@.book_of(sym) {
                    Some(b) => if can_add(b.side(resting_side(o).unwrap()), resting_key(o), o) {
                        &&& final(self)@ == MarketState {
                            books: old(self)@.books.update(
                                sym,
                                Some(b.after_add(resting_side(o).unwrap(), resting_key(o), o)),
                            ),
                            ..old(self)@
                        }
                        &&& r == (if o.order_type == OrderType::Limit {
                            Some(limit_update(b, o))
                        } else {
                            None
                        })
                        &&& final(self)@.is_queued(o)
                    } else {
                        final(self)@ == old(self)@ && r is None
                    },
                    None => final(self)@ == old(self)@ && r is None,
                }
            }),
    {
        let ghost st = self@;
        let order = *table_get(&self.orders, id).unwrap();
        let idx = order.symbol_id as usize;
        let mut update: Option<LevelUpdate> = None;
        if idx < self.order_books.len() {
            let can = match &self.order_books[idx] {
                Some(ob) => ob.can_add_order(&order),
                None => false,
            };
            if can {
                let ghost b = st.books[idx as int].unwrap();
                proof {
                    lemma_book_add(b, idx as int, st.orders, order);
                }
                match &mut self.order_books[idx] {
                    Some(ob) => {
                        match order.order_type {
                            OrderType::Limit => {
                                update = Some(ob.add_order(&order));
                            },
                            OrderType::Stop | OrderType::StopLimit => {
                                ob.add_stop_order(&order);
                            },
                            _ => {
                                ob.add_trailing_stop_order(&order);
                            },
                        }
                    },
                    None => {},
                }
                proof {
                    let nb = self.order_books@[idx as int].unwrap()@;
                    lemma_book_views_update(old(self).order_books@, idx as int, self.order_books@[idx as int]);
                    lemma_book_change(st, idx as int, nb);
                    assert(self@ == MarketState { books: st.books.update(idx as int, Some(nb)), ..st });
                }
            }
        }
        update
    }

    /// An order gives up volume, staying in place: its level gives up the same volume when
    /// it is queued, and an order left with nothing is no longer held.
    fn reduce_record(&mut self, o: Order)
        requires
            old(self)@.wf(),
            old(self)@.orders.contains_key(o.id),
            same_place(old(self)@.orders[o.id], o),
            o.leaves_quantity <= old(self)@.orders[o.id].leaves_quantity,
            o.hidden() <= old(self)@.orders[o.id].hidden(),
            o.visible() <= old(self)@.orders[o.id].visible(),
        ensures
            final(self).notices() == old(self).notices(),
            final(self)@.wf(),
            final(self)@.same_registry(old(self)@),
            final(self)@.orders == (if o.leaves_quantity > 0 {
                old(self)@.orders.insert(o.id, o)
            } else {
                old(self)@.orders.remove(o.id)
            }),
            limits_within(final(self)@, old(self)@, None),
            forall|s: BookSide| Some(s) != resting_side(o) ==> side_unchanged(final(self)@, old(self)@, s),
            ({
                let o1 = old(self)@.orders[o.id];
                let sym = o.symbol_id as int;
                if old(self)@.is_queued(o1) {
                    final(self)@.books == old(self)@.books.update(
                        sym,
                        Some(
                            old(self)@.book_of(sym).unwrap().after_remove(
                                resting_side(o).unwrap(),
                                resting_key(o),
                                o.id,
                                (o1.leaves_quantity - o.leaves_quantity) as u64,
                                (o1.hidden() - o.hidden()) as u64,
                                (o1.visible() - o.visible()) as u64,
                                o.leaves_quantity == 0,
                            ),
                        ),
                    )
                } else {
                    final(self)@.books == old(self)@.books
                }
            }),
    {
        let ghost st = self@;
        let o1 = *table_get(&self.orders, o.id).unwrap();
        let idx = o.symbol_id as usize;
        let quantity = o1.leaves_quantity - o.leaves_quantity;
        let hidden = o1.hidden_quantity() - o.hidden_quantity();
        let visible = o1.visible_quantity() - o.visible_quantity();
        let queued = if idx < self.order_books.len() {
            match &self.order_books[idx] {
                Some(ob) => ob.is_queued(&o1),
                None => false,
            }
        } else {
            false
        };
        if queued {
            let ghost b = st.books[idx as int].unwrap();
            proof {
                lemma_book_reduce(b, idx as int, st.orders, o1, o);
            }
            match &mut self.order_books[idx] {
                Some(ob) => {
                    match o.order_type {
                        OrderType::Limit => {
                            ob.reduce_order(&o, quantity, hidden, visible);
                        },
                        OrderType::Stop | OrderType::StopLimit => {
                            ob.reduce_stop_order(&o, quantity, hidden, visible);
                        },
                        _ => {
                            ob.reduce_trailing_stop_order(&o, quantity, hidden, visible);
                        },
                    }
                },
                None => {},
            }
            proof {
                lemma_book_views_update(old(self).order_books@, idx as int, self.order_books@[idx as int]);
            }
        }
        let ghost mid = self@;
        if o.leaves_quantity > 0 {
            table_insert(&mut self.orders, o.id, o);
        } else {
            table_remove(&mut self.orders, o.id);
        }
        proof {
            let no = st.orders.insert(o.id, o);
            if queued {
                let nb = mid.books[idx as int].unwrap();
                let st2 = MarketState { books: st.books.update(idx as int, Some(nb)), orders: no, ..st };
                lemma_reduce_step(st, o1, o, idx as int, nb);
                if o.leaves_quantity > 0 {
                    assert(self@ == st2);
                } else {
                    assert(no.remove(o.id) =~= st.orders.remove(o.id));
                    assert(self@ == MarketState { orders: no.remove(o.id), ..st2 });
                }
            } else {
                assert(mid == st);
                if o.leaves_quantity > 0 {
                    lemma_orders_change(st, no);
                } else {
                    lemma_orders_change(st, st.orders.remove(o.id));
                }
            }
        }
    }

    /// Replace the record of an order that is not queued, or whose volumes and place stay.
    fn set_record(&mut self, o: Order)
        requires
            old(self)@.wf(),
            old(self)@.orders.contains_key(o.id),
            order_ok(o),
            !old(self)@.is_queued(old(self)@.orders[o.id]) || {
                &&& same_place(old(self)@.orders[o.id], o)
                &&& o.leaves_quantity == old(self)@.orders[o.id].leaves_quantity
                &&& o.hidden() == old(self)@.orders[o.id].hidden()
                &&& o.visible() == old(self)@.orders[o.id].visible()
            },
        ensures
            final(self).notices() == old(self).notices(),
            final(self)@.wf(),
            final(self)@.same_registry(old(self)@),
            final(self)@.orders == old(self)@.orders.insert(o.id, o),
            final(self)@.is_queued(o) == old(self)@.is_queued(old(self)@.orders[o.id]),
            limits_within(final(self)@, old(self)@, None),
            final(self)@.books == old(self)@.books,
    {
        let ghost st = self@;
        table_insert(&mut self.orders, o.id, o);
        proof {
            let no = st.orders.insert(o.id, o);
            let o1 = st.orders[o.id];
            if st.is_queued(o1) {
                assert forall|i: int| 0 <= i < st.books.len() && #[trigger] st.books[i] is Some implies book_consistent(
                    st.books[i].unwrap(),
                    i,
                    no,
                ) by {
                    lemma_book_same_parts(st.books[i].unwrap(), i, st.orders, o);
                }
            } else {
                lemma_not_queued_anywhere(st, o.id);
                lemma_orders_change(st, no);
            }
            assert(self@ == MarketState { orders: no, ..st });
        }
    }

    /// Take the order out of its book's queue when it is queued there.
    fn unbook(&mut self, id: OrderId)
        requires
            old(self)@.wf(),
            old(self)@.orders.contains_key(id),
        ensures
            final(self).notices() == old(self).notices(),
            final(self)@.wf(),
            final(self)@.same_registry(old(self)@),
            final(self)@.orders == old(self)@.orders,
            !final(self)@.is_queued(old(self)@.orders[id]),
            limits_within(final(self)@, old(self)@, None),
            only_side_changed(
                final(self)@,
                old(self)@,
                old(self)@.orders[id].symbol_id as int,
                resting_side(old(self)@.orders[id]).unwrap(),
            ),
            final(self)@.books == unbooked_books(old(self)@, id),
    {
        let ghost st = self@;
        let order = *table_get(&self.orders, id).unwrap();
        let idx = order.symbol_id as usize;
        if idx < self.order_books.len() {
            let queued = match &self.order_books[idx] {
                Some(ob) => ob.is_queued(&order),
                None => false,
            };
            if queued {
                let ghost b = st.books[idx as int].unwrap();
                proof {
                    lemma_book_delete(b, idx as int, st.orders, order);
                }
                match &mut self.order_books[idx] {
                    Some(ob) => {
                        match order.order_type {
                            OrderType::Limit => {
                                ob.delete_order(&order);
                            },
                            OrderType::Stop | OrderType::StopLimit => {
                                ob.delete_stop_order(&order);
                            },
                            _ => {
                                ob.delete_trailing_stop_order(&order);
                            },
                        }
                    },
                    None => {},
                }
                proof {
                    let nb = self.order_books@[idx as int].unwrap()@;
                    lemma_book_views_update(old(self).order_books@, idx as int, self.order_books@[idx as int]);
                    assert(self.order_books@ == old(self).order_books@.update(idx as int, self.order_books@[idx as int]));
                    lemma_book_change(st, idx as int, nb);
                    assert(self@ == MarketState { books: st.books.update(idx as int, Some(nb)), ..st });
                }
            }
        }
    }
}

} // verus!
