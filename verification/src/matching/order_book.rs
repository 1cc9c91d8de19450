use std::collections::{BTreeMap, VecDeque};
use vstd::prelude::*;

use crate::matching::consistency::{queued_in, resting_key, resting_side};
use crate::matching::external::{btree_first, btree_last, string_push_str};
use crate::matching::text::{decimal, push_decimal};
use crate::matching::level::{empty_level, Level, LevelUpdate};
use crate::matching::order::{Order, OrderId};
use crate::matching::symbol::Symbol;
use crate::matching::types::{LevelType, OrderSide, OrderType, UpdateType};

verus! {

// ---------------------------------------------------------------------------
//  Per-price-level data and its model
// ---------------------------------------------------------------------------

/// Per-price-level data: the aggregate level and the FIFO queue of order ids at it.
#[derive(Debug)]
pub struct LevelData {
    pub level: Level,
    /// FIFO queue of order IDs at this level (time-priority).
    pub order_queue: VecDeque<OrderId>,
}

/// The model of a price level: its aggregate and its queue of order ids.
pub struct LevelState {
    pub level: Level,
    pub queue: Seq<OrderId>,
}

impl View for LevelData {
    type V = LevelState;

    open spec fn view(&self) -> LevelState {
        LevelState { level: self.level, queue: self.order_queue@ }
    }
}

impl LevelData {
    pub fn new(level_type: LevelType, price: u64) -> (r: Self)
        ensures
            r@ == (LevelState { level: empty_level(level_type, price), queue: Seq::empty() }),
    {
        Self { level: Level::new(level_type, price), order_queue: VecDeque::new() }
    }

    /// The ids of the queue, front first.
    pub fn order_ids(&self) -> (r: Vec<OrderId>)
        ensures
            r@ == self@.queue,
    {
        let mut r: Vec<OrderId> = Vec::new();
        let mut i: usize = 0;
        while i < self.order_queue.len()
            invariant
                i <= self.order_queue@.len(),
                r@ == self.order_queue@.take(i as int),
            decreases self.order_queue@.len() - i,
        {
            r.push(self.order_queue[i]);
            proof {
                assert(self.order_queue@.take(i + 1) =~= self.order_queue@.take(i as int).push(self.order_queue@[i as int]));
            }
            i = i + 1;
        }
        proof {
            assert(self.order_queue@.take(self.order_queue@.len() as int) =~= self.order_queue@);
        }
        r
    }

    /// The id at the front of the queue: the order with time priority at this level.
    pub fn front_order_id(&self) -> (r: Option<OrderId>)
        ensures
            r == (if self@.queue.len() == 0 { None } else { Some(self@.queue[0]) }),
    {
        if self.order_queue.len() == 0 {
            None
        } else {
            Some(self.order_queue[0])
        }
    }
}

/// The levels of a map of level data, by price.
pub open spec fn level_states(m: Map<u64, LevelData>) -> Map<u64, LevelState> {
    Map::new(|k: u64| m.contains_key(k), |k: u64| m[k]@)
}

/// The queue with every occurrence of `id` taken out, the others keeping their order.
pub open spec fn without(q: Seq<OrderId>, id: OrderId) -> Seq<OrderId>
    decreases q.len(),
{
    if q.len() == 0 {
        q
    } else if q.last() == id {
        without(q.drop_last(), id)
    } else {
        without(q.drop_last(), id).push(q.last())
    }
}

/// The level at `key` after `o` joins it; a missing level starts empty.
pub open spec fn added_level(m: Map<u64, LevelState>, level_type: LevelType, key: u64, o: Order) -> LevelState {
    let b = if m.contains_key(key) {
        m[key]
    } else {
        LevelState { level: empty_level(level_type, key), queue: Seq::empty() }
    };
    LevelState {
        level: Level {
            total_volume: (b.level.total_volume + o.leaves_quantity) as u64,
            hidden_volume: (b.level.hidden_volume + o.hidden()) as u64,
            visible_volume: (b.level.visible_volume + o.visible()) as u64,
            orders: (b.level.orders + 1) as usize,
            ..b.level
        },
        queue: b.queue.push(o.id),
    }
}

/// Adding `o` at `key` overflows none of the level's counters.
pub open spec fn can_add(m: Map<u64, LevelState>, key: u64, o: Order) -> bool {
    m.contains_key(key) ==> {
        let l = m[key].level;
        &&& l.total_volume + o.leaves_quantity <= u64::MAX
        &&& l.hidden_volume + o.hidden() <= u64::MAX
        &&& l.visible_volume + o.visible() <= u64::MAX
        &&& l.orders + 1 <= usize::MAX
    }
}

/// The levels after `o` joins the level at `key`.
pub open spec fn add_to_side(m: Map<u64, LevelState>, level_type: LevelType, key: u64, o: Order) -> Map<u64, LevelState> {
    m.insert(key, added_level(m, level_type, key, o))
}

/// The level after `quantity`, `hidden` and `visible` leave it; with `drop` the id leaves the
/// queue and the order count goes down by one.
pub open spec fn removed_level(s: LevelState, id: OrderId, quantity: u64, hidden: u64, visible: u64, drop: bool) -> LevelState {
    LevelState {
        level: Level {
            total_volume: (s.level.total_volume - quantity) as u64,
            hidden_volume: (s.level.hidden_volume - hidden) as u64,
            visible_volume: (s.level.visible_volume - visible) as u64,
            orders: if drop { (s.level.orders - 1) as usize } else { s.level.orders },
            ..s.level
        },
        queue: if drop { without(s.queue, id) } else { s.queue },
    }
}

/// Removing the given volumes from the level at `key` underflows none of its counters.
pub open spec fn can_remove(m: Map<u64, LevelState>, key: u64, quantity: u64, hidden: u64, visible: u64, drop: bool) -> bool {
    m.contains_key(key) ==> {
        let l = m[key].level;
        &&& quantity <= l.total_volume
        &&& hidden <= l.hidden_volume
        &&& visible <= l.visible_volume
        &&& drop ==> l.orders >= 1
    }
}

/// The levels after the removal; a level whose total volume reaches zero disappears.
pub open spec fn remove_from_side(m: Map<u64, LevelState>, key: u64, id: OrderId, quantity: u64, hidden: u64, visible: u64, drop: bool) -> Map<u64, LevelState> {
    if !m.contains_key(key) {
        m
    } else {
        let n = removed_level(m[key], id, quantity, hidden, visible, drop);
        if n.level.total_volume == 0 {
            m.remove(key)
        } else {
            m.insert(key, n)
        }
    }
}

/// The notification that a removal from the level at `key` produces.
pub open spec fn removal_update(m: Map<u64, LevelState>, key: u64, id: OrderId, quantity: u64, hidden: u64, visible: u64, drop: bool, top: bool) -> LevelUpdate {
    if m.contains_key(key) {
        let n = removed_level(m[key], id, quantity, hidden, visible, drop);
        LevelUpdate {
            update_type: if n.level.total_volume == 0 { UpdateType::Delete } else { UpdateType::Update },
            level: n.level,
            top,
        }
    } else {
        LevelUpdate { update_type: UpdateType::Update, level: empty_level(LevelType::Bid, key), top }
    }
}

pub open spec fn is_highest(m: Map<u64, LevelState>, k: u64) -> bool {
    m.contains_key(k) && forall|j: u64| m.contains_key(j) ==> j <= k
}

pub open spec fn is_lowest(m: Map<u64, LevelState>, k: u64) -> bool {
    m.contains_key(k) && forall|j: u64| m.contains_key(j) ==> k <= j
}

pub open spec fn highest(m: Map<u64, LevelState>) -> u64 {
    choose|k: u64| is_highest(m, k)
}

pub open spec fn lowest(m: Map<u64, LevelState>) -> u64 {
    choose|k: u64| is_lowest(m, k)
}

/// The key of the best level: the highest price or the lowest one.
pub open spec fn best_key(m: Map<u64, LevelState>, highest_first: bool) -> u64 {
    if highest_first { highest(m) } else { lowest(m) }
}

/// The best level of a side, if it has one.
pub open spec fn best_level(m: Map<u64, LevelState>, highest_first: bool) -> Option<LevelState> {
    if m.dom().is_empty() {
        None
    } else {
        Some(m[best_key(m, highest_first)])
    }
}

// ---------------------------------------------------------------------------
//  Order book model
// ---------------------------------------------------------------------------

/// The six level collections of a book.
#[derive(Debug, Clone, Copy, PartialEq, Eq, Structural)]
pub enum BookSide {
    Bids,
    Asks,
    BuyStop,
    SellStop,
    TrailingBuyStop,
    TrailingSellStop,
}

/// The type that levels of a side carry: stop levels trigger against the opposite side.
pub open spec fn side_level_type(s: BookSide) -> LevelType {
    match s {
        BookSide::Bids => LevelType::Bid,
        BookSide::Asks => LevelType::Ask,
        BookSide::BuyStop => LevelType::Ask,
        BookSide::SellStop => LevelType::Bid,
        BookSide::TrailingBuyStop => LevelType::Ask,
        BookSide::TrailingSellStop => LevelType::Bid,
    }
}

/// Whether the best level of a side is its highest price.
pub open spec fn side_best_is_highest(s: BookSide) -> bool {
    s == BookSide::Bids || s == BookSide::SellStop || s == BookSide::TrailingSellStop
}

pub open spec fn limit_side(buy: bool) -> BookSide {
    if buy { BookSide::Bids } else { BookSide::Asks }
}

pub open spec fn stop_side(buy: bool) -> BookSide {
    if buy { BookSide::BuyStop } else { BookSide::SellStop }
}

pub open spec fn trailing_side(buy: bool) -> BookSide {
    if buy { BookSide::TrailingBuyStop } else { BookSide::TrailingSellStop }
}

/// The model of an order book.
pub struct BookState {
    pub symbol: Symbol,
    pub bids: Map<u64, LevelState>,
    pub asks: Map<u64, LevelState>,
    pub buy_stop: Map<u64, LevelState>,
    pub sell_stop: Map<u64, LevelState>,
    pub trailing_buy_stop: Map<u64, LevelState>,
    pub trailing_sell_stop: Map<u64, LevelState>,
    pub last_bid_price: u64,
    pub last_ask_price: u64,
    pub matching_bid_price: u64,
    pub matching_ask_price: u64,
    pub trailing_bid_price: u64,
    pub trailing_ask_price: u64,
}

impl BookState {
    pub open spec fn side(self, s: BookSide) -> Map<u64, LevelState> {
        match s {
            BookSide::Bids => self.bids,
            BookSide::Asks => self.asks,
            BookSide::BuyStop => self.buy_stop,
            BookSide::SellStop => self.sell_stop,
            BookSide::TrailingBuyStop => self.trailing_buy_stop,
            BookSide::TrailingSellStop => self.trailing_sell_stop,
        }
    }

    pub open spec fn with_side(self, s: BookSide, m: Map<u64, LevelState>) -> BookState {
        match s {
            BookSide::Bids => BookState { bids: m, ..self },
            BookSide::Asks => BookState { asks: m, ..self },
            BookSide::BuyStop => BookState { buy_stop: m, ..self },
            BookSide::SellStop => BookState { sell_stop: m, ..self },
            BookSide::TrailingBuyStop => BookState { trailing_buy_stop: m, ..self },
            BookSide::TrailingSellStop => BookState { trailing_sell_stop: m, ..self },
        }
    }

    /// Every level of the book stores its own key as its price and carries the type of its
    /// collection: bid levels for bids and sell stops, ask levels for asks and buy stops.
    pub open spec fn keyed(self) -> bool {
        forall|s: BookSide, k: u64|
            #[trigger] self.side(s).contains_key(k) ==> self.side(s)[k].level.price == k && self.side(s)[k].level.level_type
                == side_level_type(s)
    }

    /// The price of the best level of a side, or `default` when the side is empty.
    pub open spec fn best_price_or(self, s: BookSide, default: u64) -> u64 {
        match best_level(self.side(s), side_best_is_highest(s)) {
            Some(l) => l.level.price,
            None => default,
        }
    }

    pub open spec fn market_price_bid(self) -> u64 {
        let best = self.best_price_or(BookSide::Bids, 0);
        if self.matching_bid_price >= best { self.matching_bid_price } else { best }
    }

    pub open spec fn market_price_ask(self) -> u64 {
        let best = self.best_price_or(BookSide::Asks, u64::MAX);
        if self.matching_ask_price <= best { self.matching_ask_price } else { best }
    }

    pub open spec fn market_trailing_stop_price_bid(self) -> u64 {
        let best = self.best_price_or(BookSide::Bids, 0);
        if self.last_bid_price <= best { self.last_bid_price } else { best }
    }

    pub open spec fn market_trailing_stop_price_ask(self) -> u64 {
        let best = self.best_price_or(BookSide::Asks, u64::MAX);
        if self.last_ask_price >= best { self.last_ask_price } else { best }
    }

    /// The book after `o` joins the level at `key` of side `s`.
    pub open spec fn after_add(self, s: BookSide, key: u64, o: Order) -> BookState {
        self.with_side(s, add_to_side(self.side(s), side_level_type(s), key, o))
    }

    /// The book after the given volumes leave the level at `key` of side `s`.
    pub open spec fn after_remove(self, s: BookSide, key: u64, id: OrderId, quantity: u64, hidden: u64, visible: u64, drop: bool) -> BookState {
        self.with_side(s, remove_from_side(self.side(s), key, id, quantity, hidden, visible, drop))
    }

    /// Whether the order's price is the best price of its limit side.
    pub open spec fn top(self, o: Order) -> bool {
        let s = limit_side(o.spec_is_buy());
        match best_level(self.side(s), side_best_is_highest(s)) {
            Some(l) => l.level.price == o.price,
            None => false,
        }
    }

    /// The display text: `OrderBook(<symbol> bids=<bid levels> asks=<ask levels>)`.
    pub open spec fn text(self) -> Seq<char> {
        "OrderBook("@ + self.symbol.text() + " bids="@ + decimal(self.bids.len()) + " asks="@ + decimal(
            self.asks.len(),
        ) + ")"@
    }

    /// The market price that a trailing stop of the order's side follows.
    pub open spec fn trailing_market_price(self, o: Order) -> u64 {
        if o.spec_is_buy() {
            self.market_trailing_stop_price_ask()
        } else {
            self.market_trailing_stop_price_bid()
        }
    }

    /// The trailing computation stays inside machine integers: a percentage distance and
    /// step are negatable and their products with the market price fit in `u64`.
    pub open spec fn trailing_stop_price_defined(self, o: Order) -> bool {
        let mp = self.trailing_market_price(o);
        (mp != u64::MAX && mp != 0 && o.trailing_distance < 0) ==> {
            &&& o.trailing_distance > i64::MIN
            &&& o.trailing_step > i64::MIN
            &&& ((-o.trailing_step) as u64) * mp <= u64::MAX
            &&& (-o.trailing_distance) * mp <= u64::MAX
        }
    }

    /// The stop price that a trailing stop order moves to: towards the market by the trailing
    /// distance, only when the move is at least the trailing step and only in the direction
    /// that tightens the stop.
    pub open spec fn trailing_stop_price(self, o: Order) -> u64 {
        let mp = self.trailing_market_price(o);
        if mp == u64::MAX || mp == 0 {
            o.stop_price
        } else {
            let distance: i64 = if o.trailing_distance < 0 {
                ((((-o.trailing_distance) as u64) * mp) as u64 / 10000) as i64
            } else {
                o.trailing_distance
            };
            let step: i64 = if o.trailing_distance < 0 {
                ((((-o.trailing_step) as u64) * mp) as u64 / 10000) as i64
            } else {
                o.trailing_step
            };
            let old_price = o.stop_price;
            if o.spec_is_buy() {
                let sum = mp + (distance as u64);
                let new_price: u64 = if sum > u64::MAX { u64::MAX } else { sum as u64 };
                if new_price < old_price && old_price - new_price >= (step as u64) {
                    new_price
                } else {
                    old_price
                }
            } else {
                let diff = mp - (distance as u64);
                let new_price: u64 = if diff < 0 { 0 } else { diff as u64 };
                if new_price > old_price && new_price - old_price >= (step as u64) {
                    new_price
                } else {
                    old_price
                }
            }
        }
    }
}

/// A book with no levels and with its market prices unset.
pub open spec fn empty_book(symbol: Symbol) -> BookState {
    BookState {
        symbol,
        bids: Map::empty(),
        asks: Map::empty(),
        buy_stop: Map::empty(),
        sell_stop: Map::empty(),
        trailing_buy_stop: Map::empty(),
        trailing_sell_stop: Map::empty(),
        last_bid_price: 0,
        last_ask_price: u64::MAX,
        matching_bid_price: 0,
        matching_ask_price: u64::MAX,
        trailing_bid_price: 0,
        trailing_ask_price: u64::MAX,
    }
}

/// An order book for a single symbol.
///
/// Holds six collections of price levels: resting limit orders (`bids` / `asks`), stop
/// orders (`buy_stop` / `sell_stop`) and trailing-stop orders.
#[derive(Debug)]
pub struct OrderBook {
    symbol: Symbol,
    bids: BTreeMap<u64, LevelData>,
    asks: BTreeMap<u64, LevelData>,
    buy_stop: BTreeMap<u64, LevelData>,
    sell_stop: BTreeMap<u64, LevelData>,
    trailing_buy_stop: BTreeMap<u64, LevelData>,
    trailing_sell_stop: BTreeMap<u64, LevelData>,
    last_bid_price: u64,
    last_ask_price: u64,
    matching_bid_price: u64,
    matching_ask_price: u64,
    trailing_bid_price: u64,
    trailing_ask_price: u64,
}

impl View for OrderBook {
    type V = BookState;

    closed spec fn view(&self) -> BookState {
        BookState {
            symbol: self.symbol,
            bids: level_states(self.bids@),
            asks: level_states(self.asks@),
            buy_stop: level_states(self.buy_stop@),
            sell_stop: level_states(self.sell_stop@),
            trailing_buy_stop: level_states(self.trailing_buy_stop@),
            trailing_sell_stop: level_states(self.trailing_sell_stop@),
            last_bid_price: self.last_bid_price,
            last_ask_price: self.last_ask_price,
            matching_bid_price: self.matching_bid_price,
            matching_ask_price: self.matching_ask_price,
            trailing_bid_price: self.trailing_bid_price,
            trailing_ask_price: self.trailing_ask_price,
        }
    }
}

impl OrderBook {
    /// Every level of the book is keyed by its price and typed by its collection.
    #[verifier::type_invariant]
    closed spec fn levels_keyed(self) -> bool {
        self@.keyed()
    }

    /// Take collection `s` out of the book, leaving it empty.
    fn take_side(&mut self, s: BookSide) -> (r: BTreeMap<u64, LevelData>)
        ensures
            level_states(r@) == old(self)@.side(s),
            final(self)@ == old(self)@.with_side(s, Map::empty()),
    {
        proof {
            use_type_invariant(&*self);
        }
        let mut m: BTreeMap<u64, LevelData> = BTreeMap::new();
        proof {
            assert(level_states(m@) =~= Map::<u64, LevelState>::empty());
            lemma_keyed_emptied(self@, s);
        }
        match s {
            BookSide::Bids => std::mem::swap(&mut m, &mut self.bids),
            BookSide::Asks => std::mem::swap(&mut m, &mut self.asks),
            BookSide::BuyStop => std::mem::swap(&mut m, &mut self.buy_stop),
            BookSide::SellStop => std::mem::swap(&mut m, &mut self.sell_stop),
            BookSide::TrailingBuyStop => std::mem::swap(&mut m, &mut self.trailing_buy_stop),
            BookSide::TrailingSellStop => std::mem::swap(&mut m, &mut self.trailing_sell_stop),
        }
        m
    }

    /// Put collection `s` back into the book.
    fn put_side(&mut self, s: BookSide, m: BTreeMap<u64, LevelData>)
        requires
            old(self)@.with_side(s, level_states(m@)).keyed(),
        ensures
            final(self)@ == old(self)@.with_side(s, level_states(m@)),
    {
        let mut m = m;
        match s {
            BookSide::Bids => std::mem::swap(&mut m, &mut self.bids),
            BookSide::Asks => std::mem::swap(&mut m, &mut self.asks),
            BookSide::BuyStop => std::mem::swap(&mut m, &mut self.buy_stop),
            BookSide::SellStop => std::mem::swap(&mut m, &mut self.sell_stop),
            BookSide::TrailingBuyStop => std::mem::swap(&mut m, &mut self.trailing_buy_stop),
            BookSide::TrailingSellStop => std::mem::swap(&mut m, &mut self.trailing_sell_stop),
        }
    }

    /// Add `order` at `key` of collection `s`.
    fn add_at(&mut self, s: BookSide, key: u64, order: &Order) -> (r: (bool, Level))
        requires
            can_add(old(self)@.side(s), key, *order),
        ensures
            final(self)@ == old(self)@.after_add(s, key, *order),
            r.0 == !old(self)@.side(s).contains_key(key),
            r.1 == added_level(old(self)@.side(s), side_level_type(s), key, *order).level,
    {
        proof {
            use_type_invariant(&*self);
            lemma_keyed_after_add(self@, s, key, *order);
        }
        let ghost b = self@;
        let level_type = match s {
            BookSide::Bids | BookSide::SellStop | BookSide::TrailingSellStop => LevelType::Bid,
            _ => LevelType::Ask,
        };
        let mut m = self.take_side(s);
        let r = levels_add(&mut m, level_type, key, order);
        proof {
            assert(b.with_side(s, Map::empty()).with_side(s, level_states(m@)) == b.after_add(s, key, *order));
        }
        self.put_side(s, m);
        r
    }

    /// Take the given volumes out of the level at `key` of collection `s`.
    fn remove_at(&mut self, s: BookSide, key: u64, id: OrderId, quantity: u64, hidden: u64, visible: u64, drop: bool) -> (r: Option<(Level, bool)>)
        requires
            can_remove(old(self)@.side(s), key, quantity, hidden, visible, drop),
        ensures
            final(self)@ == old(self)@.after_remove(s, key, id, quantity, hidden, visible, drop),
            match r {
                None => !old(self)@.side(s).contains_key(key),
                Some((l, deleted)) => {
                    let n = removed_level(old(self)@.side(s)[key], id, quantity, hidden, visible, drop);
                    &&& old(self)@.side(s).contains_key(key)
                    &&& l == n.level
                    &&& deleted == (n.level.total_volume == 0)
                },
            },
    {
        proof {
            use_type_invariant(&*self);
            lemma_keyed_after_remove(self@, s, key, id, quantity, hidden, visible, drop);
        }
        let ghost b = self@;
        let mut m = self.take_side(s);
        let r = levels_remove(&mut m, key, id, quantity, hidden, visible, drop);
        proof {
            assert(b.with_side(s, Map::empty()).with_side(s, level_states(m@)) == b.after_remove(s, key, id, quantity, hidden, visible, drop));
        }
        self.put_side(s, m);
        r
    }
}

// ---------------------------------------------------------------------------
//  Operations on one collection of levels
// ---------------------------------------------------------------------------

/// A copy of the queue without `id`.
fn queue_without(q: &VecDeque<OrderId>, id: OrderId) -> (r: VecDeque<OrderId>)
    ensures
        r@ == without(q@, id),
{
    let mut r: VecDeque<OrderId> = VecDeque::new();
    let mut i: usize = 0;
    while i < q.len()
        invariant
            i <= q@.len(),
            r@ == without(q@.take(i as int), id),
        decreases q@.len() - i,
    {
        let x = q[i];
        proof {
            assert(q@.take(i + 1).drop_last() =~= q@.take(i as int));
            assert(q@.take(i + 1).last() == x);
        }
        if x != id {
            r.push_back(x);
        }
        i = i + 1;
    }
    proof {
        assert(q@.take(q@.len() as int) =~= q@);
    }
    r
}

/// Whether the queue holds `id`.
fn queue_contains(q: &VecDeque<OrderId>, id: OrderId) -> (r: bool)
    ensures
        r == q@.contains(id),
{
    let mut i: usize = 0;
    while i < q.len()
        invariant
            i <= q@.len(),
            forall|j: int| 0 <= j < i ==> q@[j] != id,
        decreases q@.len() - i,
    {
        if q[i] == id {
            proof {
                assert(q@[i as int] == id);
            }
            return true;
        }
        i = i + 1;
    }
    false
}

/// The keys of a `BTreeMap` come in increasing order.
proof fn lemma_keys_increasing(m: &BTreeMap<u64, LevelData>)
    ensures
        ({
            let s = vstd::std_specs::iter::IteratorSpec::remaining(&vstd::std_specs::btree::spec_keys_iter(m));
            forall|i: int, j: int| 0 <= i < j < s.len() ==> *s[i] < *s[j]
        }),
{
    let s = vstd::std_specs::iter::IteratorSpec::remaining(&vstd::std_specs::btree::spec_keys_iter(m));
    vstd::std_specs::btree::axiom_spec_keys_iter(m);
    broadcast use vstd::laws_cmp::group_laws_cmp;

    assert(vstd::laws_cmp::obeys_cmp::<&u64>());
    vstd::std_specs::btree::axiom_increasing_seq_meaning(s);
    assert forall|i: int, j: int| 0 <= i < j < s.len() implies *s[i] < *s[j] by {
        assert(vstd::std_specs::cmp::OrdSpec::cmp_spec(&s[i], &s[j]) is Less);
    }
}

/// The prices of a collection of levels, in increasing order, each once.
pub(crate) fn level_prices(m: &BTreeMap<u64, LevelData>) -> (r: Vec<u64>)
    ensures
        forall|i: int| 0 <= i < r@.len() ==> m@.contains_key(#[trigger] r@[i]),
        r@.no_duplicates(),
        forall|i: int, j: int| 0 <= i < j < r@.len() ==> r@[i] < r@[j],
        forall|k: u64| #[trigger] m@.contains_key(k) ==> r@.contains(k),
{
    let mut r: Vec<u64> = Vec::new();
    proof {
        vstd::std_specs::btree::axiom_spec_keys_iter(m);
        lemma_keys_increasing(m);
    }
    for k in it: m.keys()
        invariant
            forall|i: int| 0 <= i < r@.len() ==> m@.contains_key(#[trigger] r@[i]),
            it.seq().unref().no_duplicates(),
            it.seq().unref().to_set() == m@.dom(),
            r@ == it.seq().unref().take(it.index()),
            it.index() == it.seq().len() ==> forall|k: u64| #[trigger] m@.contains_key(k) ==> r@.contains(k),
    {
        proof {
            assert(it.seq().contains(k));
            assert(it.seq().unref().contains(*k));
            assert(it.seq().unref()[it.index()] == *k);
            assert(it.seq().unref().take(it.index() + 1) == it.seq().unref().take(it.index()).push(*k));
        }
        r.push(*k);
        proof {
            assert(it.index() + 1 == it.seq().len() ==> r@ =~= it.seq().unref());
            assert forall|x: u64| it.index() + 1 == it.seq().len() && #[trigger] m@.contains_key(x) implies r@.contains(x) by {
                assert(it.seq().unref().to_set().contains(x));
            }
        }
    }
    r
}

/// The best level of a collection: its highest key or its lowest key.
fn best_of(m: &BTreeMap<u64, LevelData>, highest_first: bool) -> (r: Option<&LevelData>)
    ensures
        match (r, best_level(level_states(m@), highest_first)) {
            (None, None) => true,
            (Some(l), Some(b)) => l@ == b,
            _ => false,
        },
        r is Some ==> (if highest_first {
            is_highest(level_states(m@), highest(level_states(m@)))
        } else {
            is_lowest(level_states(m@), lowest(level_states(m@)))
        }),
{
    let ghost s = level_states(m@);
    let found = if highest_first { btree_last(m) } else { btree_first(m) };
    match found {
        None => {
            proof {
                assert(s.dom() =~= m@.dom());
            }
            None
        },
        Some((k, v)) => {
            proof {
                assert(s.dom() =~= m@.dom());
                assert(s.contains_key(k));
                if highest_first {
                    assert(is_highest(s, k));
                    let k2 = highest(s);
                    assert(is_highest(s, k2));
                    assert(k2 <= k && k <= k2);
                } else {
                    assert(is_lowest(s, k));
                    let k2 = lowest(s);
                    assert(is_lowest(s, k2));
                    assert(k2 <= k && k <= k2);
                }
            }
            Some(v)
        },
    }
}

/// `order` joins the level at `key`, which is created when missing.
fn levels_add(levels: &mut BTreeMap<u64, LevelData>, level_type: LevelType, key: u64, order: &Order) -> (r: (bool, Level))
    requires
        can_add(level_states(old(levels)@), key, *order),
    ensures
        level_states(final(levels)@) == add_to_side(level_states(old(levels)@), level_type, key, *order),
        r.0 == !level_states(old(levels)@).contains_key(key),
        r.1 == added_level(level_states(old(levels)@), level_type, key, *order).level,
{
    let ghost s = level_states(old(levels)@);
    let is_new = !levels.contains_key(&key);
    let mut ld = match levels.remove(&key) {
        Some(l) => l,
        None => LevelData::new(level_type, key),
    };
    let hq = order.hidden_quantity();
    let vq = order.visible_quantity();
    ld.level.total_volume = ld.level.total_volume + order.leaves_quantity;
    ld.level.hidden_volume = ld.level.hidden_volume + hq;
    ld.level.visible_volume = ld.level.visible_volume + vq;
    ld.order_queue.push_back(order.id);
    ld.level.orders = ld.level.orders + 1;
    let snapshot = ld.level;
    let ghost added = ld@;
    levels.insert(key, ld);
    proof {
        assert(added == added_level(s, level_type, key, *order));
        assert(level_states(levels@) =~= add_to_side(s, level_type, key, *order));
    }
    (is_new, snapshot)
}

/// Volumes leave the level at `key`; with `drop` the order leaves its queue too. A level
/// whose total volume reaches zero is removed. Returns the level after the change and
/// whether it was removed, or `None` when there is no level at `key`.
fn levels_remove(levels: &mut BTreeMap<u64, LevelData>, key: u64, id: OrderId, quantity: u64, hidden: u64, visible: u64, drop: bool) -> (r: Option<(Level, bool)>)
    requires
        can_remove(level_states(old(levels)@), key, quantity, hidden, visible, drop),
    ensures
        level_states(final(levels)@) == remove_from_side(level_states(old(levels)@), key, id, quantity, hidden, visible, drop),
        match r {
            None => !level_states(old(levels)@).contains_key(key),
            Some((l, deleted)) => {
                let n = removed_level(level_states(old(levels)@)[key], id, quantity, hidden, visible, drop);
                &&& level_states(old(levels)@).contains_key(key)
                &&& l == n.level
                &&& deleted == (n.level.total_volume == 0)
            },
        },
{
    let ghost s = level_states(old(levels)@);
    match levels.remove(&key) {
        None => {
            proof {
                assert(level_states(levels@) =~= s);
            }
            None
        },
        Some(mut ld) => {
            proof {
                assert(s.contains_key(key));
                assert(s[key] == ld@);
            }
            ld.level.total_volume = ld.level.total_volume - quantity;
            ld.level.hidden_volume = ld.level.hidden_volume - hidden;
            ld.level.visible_volume = ld.level.visible_volume - visible;
            if drop {
                ld.order_queue = queue_without(&ld.order_queue, id);
                ld.level.orders = ld.level.orders - 1;
            }
            let snapshot = ld.level;
            proof {
                assert(ld@ == removed_level(s[key], id, quantity, hidden, visible, drop));
            }
            if snapshot.total_volume == 0 {
                proof {
                    assert(level_states(levels@) =~= s.remove(key));
                }
                Some((snapshot, true))
            } else {
                let ghost n = ld@;
                levels.insert(key, ld);
                proof {
                    assert(level_states(levels@) =~= s.insert(key, n));
                }
                Some((snapshot, false))
            }
        },
    }
}


/// Adding an order at a key of a collection, with the collection's level type, keeps every
/// level keyed.
pub proof fn lemma_keyed_after_add(b: BookState, s: BookSide, key: u64, o: Order)
    requires
        b.keyed(),
    ensures
        b.after_add(s, key, o).keyed(),
{
    let a = b.after_add(s, key, o);
    assert forall|t: BookSide, k: u64| #[trigger] a.side(t).contains_key(k) implies a.side(t)[k].level.price == k
        && a.side(t)[k].level.level_type == side_level_type(t) by {
        if t == s && k == key {
            if b.side(s).contains_key(key) {
                assert(b.side(s)[key].level.price == key);
            }
        } else {
            assert(a.side(t)[k] == b.side(t)[k]);
            assert(b.side(t).contains_key(k));
        }
    }
}

/// Taking volume out of a level keeps every level keyed.
pub proof fn lemma_keyed_after_remove(
    b: BookState,
    s: BookSide,
    key: u64,
    id: OrderId,
    quantity: u64,
    hidden: u64,
    visible: u64,
    drop: bool,
)
    requires
        b.keyed(),
    ensures
        b.after_remove(s, key, id, quantity, hidden, visible, drop).keyed(),
{
    let a = b.after_remove(s, key, id, quantity, hidden, visible, drop);
    assert forall|t: BookSide, k: u64| #[trigger] a.side(t).contains_key(k) implies a.side(t)[k].level.price == k
        && a.side(t)[k].level.level_type == side_level_type(t) by {
        if t == s && k == key {
            assert(b.side(s).contains_key(key));
        } else {
            assert(a.side(t)[k] == b.side(t)[k]);
            assert(b.side(t).contains_key(k));
        }
    }
}


/// A book whose collections are those of a keyed book is keyed.
pub proof fn lemma_keyed_same_sides(a: BookState, b: BookState)
    requires
        b.keyed(),
        a.bids == b.bids && a.asks == b.asks && a.buy_stop == b.buy_stop && a.sell_stop == b.sell_stop
            && a.trailing_buy_stop == b.trailing_buy_stop && a.trailing_sell_stop == b.trailing_sell_stop,
    ensures
        a.keyed(),
{
    assert forall|t: BookSide, k: u64| #[trigger] a.side(t).contains_key(k) implies a.side(t)[k].level.price == k
        && a.side(t)[k].level.level_type == side_level_type(t) by {
        assert(a.side(t) == b.side(t));
    }
}

/// Emptying a collection keeps every level keyed.
pub proof fn lemma_keyed_emptied(b: BookState, s: BookSide)
    requires
        b.keyed(),
    ensures
        b.with_side(s, Map::empty()).keyed(),
{
    let a = b.with_side(s, Map::empty());
    assert forall|t: BookSide, k: u64| #[trigger] a.side(t).contains_key(k) implies a.side(t)[k].level.price == k
        && a.side(t)[k].level.level_type == side_level_type(t) by {
        assert(t != s);
        assert(a.side(t) == b.side(t));
        assert(b.side(t).contains_key(k));
    }
}

// ---------------------------------------------------------------------------
//  OrderBook
// ---------------------------------------------------------------------------

impl OrderBook {
    pub fn new(symbol: Symbol) -> (r: Self)
        ensures
            r@ == empty_book(symbol),
            r@.keyed(),
    {
        let r = Self {
            symbol,
            bids: BTreeMap::new(),
            asks: BTreeMap::new(),
            buy_stop: BTreeMap::new(),
            sell_stop: BTreeMap::new(),
            trailing_buy_stop: BTreeMap::new(),
            trailing_sell_stop: BTreeMap::new(),
            last_bid_price: 0,
            last_ask_price: u64::MAX,
            matching_bid_price: 0,
            matching_ask_price: u64::MAX,
            trailing_bid_price: 0,
            trailing_ask_price: u64::MAX,
        };
        proof {
            assert(level_states(r.bids@) =~= Map::empty());
            assert(level_states(r.asks@) =~= Map::empty());
            assert(level_states(r.buy_stop@) =~= Map::empty());
            assert(level_states(r.sell_stop@) =~= Map::empty());
            assert(level_states(r.trailing_buy_stop@) =~= Map::empty());
            assert(level_states(r.trailing_sell_stop@) =~= Map::empty());
        }
        r
    }

    // -- Public getters --------------------------------------------------------

    /// The display text of the book: its symbol and its numbers of bid and ask levels.
    pub fn to_text(&self) -> (r: String)
        ensures
            r@ == self@.text(),
    {
        let mut r = String::new();
        string_push_str(&mut r, "OrderBook(");
        let symbol_text = self.symbol.to_text();
        string_push_str(&mut r, symbol_text.as_str());
        string_push_str(&mut r, " bids=");
        proof {
            lemma_level_states_len(self.bids@);
            lemma_level_states_len(self.asks@);
        }
        push_decimal(&mut r, self.bids.len() as u64);
        string_push_str(&mut r, " asks=");
        push_decimal(&mut r, self.asks.len() as u64);
        string_push_str(&mut r, ")");
        proof {
            assert(r@ =~= self@.text());
        }
        r
    }

    pub fn symbol(&self) -> (r: &Symbol)
        ensures
            *r == self@.symbol,
    {
        &self.symbol
    }

    /// The number of price levels over the six collections.
    pub fn size(&self) -> (r: usize)
        requires
            self@.bids.len() + self@.asks.len() + self@.buy_stop.len() + self@.sell_stop.len()
                + self@.trailing_buy_stop.len() + self@.trailing_sell_stop.len() <= usize::MAX,
        ensures
            r == self@.bids.len() + self@.asks.len() + self@.buy_stop.len() + self@.sell_stop.len()
                + self@.trailing_buy_stop.len() + self@.trailing_sell_stop.len(),
    {
        proof {
            lemma_level_states_len(self.bids@);
            lemma_level_states_len(self.asks@);
            lemma_level_states_len(self.buy_stop@);
            lemma_level_states_len(self.sell_stop@);
            lemma_level_states_len(self.trailing_buy_stop@);
            lemma_level_states_len(self.trailing_sell_stop@);
        }
        self.bids.len() + self.asks.len() + self.buy_stop.len() + self.sell_stop.len()
            + self.trailing_buy_stop.len() + self.trailing_sell_stop.len()
    }

    pub fn best_bid(&self) -> (r: Option<&LevelData>)
        ensures
            best_level_matches(r, self@.bids, true),
            r matches Some(l) ==> is_highest(self@.bids, l.level.price) && l@ == self@.bids[l.level.price],
    {
        let r = best_of(&self.bids, true);
        proof {
            use_type_invariant(self);
            if r is Some {
                let k = highest(self@.bids);
                assert(self@.side(BookSide::Bids).contains_key(k));
                assert(self@.bids[k].level.price == k);
            }
        }
        r
    }

    pub fn best_ask(&self) -> (r: Option<&LevelData>)
        ensures
            best_level_matches(r, self@.asks, false),
            r matches Some(l) ==> is_lowest(self@.asks, l.level.price) && l@ == self@.asks[l.level.price],
    {
        let r = best_of(&self.asks, false);
        proof {
            use_type_invariant(self);
            if r is Some {
                let k = lowest(self@.asks);
                assert(self@.side(BookSide::Asks).contains_key(k));
                assert(self@.asks[k].level.price == k);
            }
        }
        r
    }

    pub fn bids(&self) -> (r: &BTreeMap<u64, LevelData>)
        ensures
            level_states(r@) == self@.bids,
    {
        &self.bids
    }

    pub fn asks(&self) -> (r: &BTreeMap<u64, LevelData>)
        ensures
            level_states(r@) == self@.asks,
    {
        &self.asks
    }

    pub fn best_buy_stop(&self) -> (r: Option<&LevelData>)
        ensures
            best_level_matches(r, self@.buy_stop, false),
    {
        best_of(&self.buy_stop, false)
    }

    pub fn best_sell_stop(&self) -> (r: Option<&LevelData>)
        ensures
            best_level_matches(r, self@.sell_stop, true),
    {
        best_of(&self.sell_stop, true)
    }

    pub fn buy_stop(&self) -> (r: &BTreeMap<u64, LevelData>)
        ensures
            level_states(r@) == self@.buy_stop,
    {
        &self.buy_stop
    }

    pub fn sell_stop(&self) -> (r: &BTreeMap<u64, LevelData>)
        ensures
            level_states(r@) == self@.sell_stop,
    {
        &self.sell_stop
    }

    pub fn best_trailing_buy_stop(&self) -> (r: Option<&LevelData>)
        ensures
            best_level_matches(r, self@.trailing_buy_stop, false),
    {
        best_of(&self.trailing_buy_stop, false)
    }

    pub fn best_trailing_sell_stop(&self) -> (r: Option<&LevelData>)
        ensures
            best_level_matches(r, self@.trailing_sell_stop, true),
    {
        best_of(&self.trailing_sell_stop, true)
    }

    pub fn trailing_buy_stop(&self) -> (r: &BTreeMap<u64, LevelData>)
        ensures
            level_states(r@) == self@.trailing_buy_stop,
    {
        &self.trailing_buy_stop
    }

    pub fn trailing_sell_stop(&self) -> (r: &BTreeMap<u64, LevelData>)
        ensures
            level_states(r@) == self@.trailing_sell_stop,
    {
        &self.trailing_sell_stop
    }

    pub fn get_bid(&self, price: u64) -> (r: Option<&LevelData>)
        ensures
            level_lookup_matches(r, self@.bids, price),
    {
        self.bids.get(&price)
    }

    pub fn get_ask(&self, price: u64) -> (r: Option<&LevelData>)
        ensures
            level_lookup_matches(r, self@.asks, price),
    {
        self.asks.get(&price)
    }

    // -- Market price helpers --------------------------------------------------

    pub fn get_market_price_bid(&self) -> (r: u64)
        ensures
            r == self@.market_price_bid(),
            r >= self@.matching_bid_price,
            forall|k: u64| #[trigger] self@.bids.contains_key(k) ==> k <= r,
    {
        let best = match self.best_bid() {
            Some(l) => l.level.price,
            None => 0,
        };
        if self.matching_bid_price >= best { self.matching_bid_price } else { best }
    }

    pub fn get_market_price_ask(&self) -> (r: u64)
        ensures
            r == self@.market_price_ask(),
            r <= self@.matching_ask_price,
            forall|k: u64| #[trigger] self@.asks.contains_key(k) ==> k >= r,
    {
        let best = match self.best_ask() {
            Some(l) => l.level.price,
            None => u64::MAX,
        };
        if self.matching_ask_price <= best { self.matching_ask_price } else { best }
    }

    pub fn get_market_trailing_stop_price_bid(&self) -> (r: u64)
        ensures
            r == self@.market_trailing_stop_price_bid(),
    {
        let best = match self.best_bid() {
            Some(l) => l.level.price,
            None => 0,
        };
        if self.last_bid_price <= best { self.last_bid_price } else { best }
    }

    pub fn get_market_trailing_stop_price_ask(&self) -> (r: u64)
        ensures
            r == self@.market_trailing_stop_price_ask(),
    {
        let best = match self.best_ask() {
            Some(l) => l.level.price,
            None => u64::MAX,
        };
        if self.last_ask_price >= best { self.last_ask_price } else { best }
    }

    pub fn update_last_price(&mut self, order: &Order, price: u64)
        ensures
            final(self)@.symbol == old(self)@.symbol,
            final(self)@ == (if order.spec_is_buy() {
                BookState { last_bid_price: price, ..old(self)@ }
            } else {
                BookState { last_ask_price: price, ..old(self)@ }
            }),
    {
        proof {
            use_type_invariant(&*self);
        }
        if order.is_buy() {
            proof {
                lemma_keyed_same_sides(BookState { last_bid_price: price, ..self@ }, self@);
            }
            self.last_bid_price = price;
        } else {
            proof {
                lemma_keyed_same_sides(BookState { last_ask_price: price, ..self@ }, self@);
            }
            self.last_ask_price = price;
        }
    }

    pub fn update_matching_price(&mut self, order: &Order, price: u64)
        ensures
            final(self)@.symbol == old(self)@.symbol,
            final(self)@ == (if order.spec_is_buy() {
                BookState { matching_bid_price: price, ..old(self)@ }
            } else {
                BookState { matching_ask_price: price, ..old(self)@ }
            }),
    {
        proof {
            use_type_invariant(&*self);
        }
        if order.is_buy() {
            proof {
                lemma_keyed_same_sides(BookState { matching_bid_price: price, ..self@ }, self@);
            }
            self.matching_bid_price = price;
        } else {
            proof {
                lemma_keyed_same_sides(BookState { matching_ask_price: price, ..self@ }, self@);
            }
            self.matching_ask_price = price;
        }
    }

    pub fn reset_matching_price(&mut self)
        ensures
            final(self)@.symbol == old(self)@.symbol,
            final(self)@ == (BookState { matching_bid_price: 0, matching_ask_price: u64::MAX, ..old(self)@ }),
    {
        proof {
            use_type_invariant(&*self);
        }
        proof {
            lemma_keyed_same_sides(BookState { matching_bid_price: 0, ..self@ }, self@);
        }
        self.matching_bid_price = 0;
        proof {
            lemma_keyed_same_sides(BookState { matching_ask_price: u64::MAX, ..self@ }, self@);
        }
        self.matching_ask_price = u64::MAX;
    }

    /// Whether the trailing computation for `order` stays inside machine integers.
    pub fn trailing_stop_price_defined(&self, order: &Order) -> (r: bool)
        ensures
            r == self@.trailing_stop_price_defined(*order),
    {
        let market_price = if order.is_buy() {
            self.get_market_trailing_stop_price_ask()
        } else {
            self.get_market_trailing_stop_price_bid()
        };
        if market_price == u64::MAX || market_price == 0 || order.trailing_distance >= 0 {
            return true;
        }
        if order.trailing_distance == i64::MIN || order.trailing_step == i64::MIN {
            return false;
        }
        let d = (-order.trailing_distance) as u64;
        let s = (-order.trailing_step) as u64;
        proof {
            lemma_product_fits(d as int, market_price as int, u64::MAX as int);
            lemma_product_fits(s as int, market_price as int, u64::MAX as int);
        }
        d <= u64::MAX / market_price && s <= u64::MAX / market_price
    }

    // -- Trailing stop price calculation ---------------------------------------

    pub fn calculate_trailing_stop_price(&self, order: &Order) -> (r: u64)
        requires
            self@.trailing_stop_price_defined(*order),
        ensures
            r == self@.trailing_stop_price(*order),
    {
        let market_price = if order.is_buy() {
            self.get_market_trailing_stop_price_ask()
        } else {
            self.get_market_trailing_stop_price_bid()
        };

        // Without a market price yet (a sentinel value), the stop price stays
        if market_price == u64::MAX || market_price == 0 {
            return order.stop_price;
        }

        let mut trailing_distance = order.trailing_distance;
        let mut trailing_step = order.trailing_step;

        // Convert percentage to absolute
        if trailing_distance < 0 {
            let d = (-trailing_distance) as u64;
            let s = (-trailing_step) as u64;
            trailing_distance = (d * market_price / 10_000) as i64;
            trailing_step = (s * market_price / 10_000) as i64;
        }

        let old_price = order.stop_price;

        if order.is_buy() {
            let new_price = market_price.saturating_add(trailing_distance as u64);
            if new_price < old_price && (old_price - new_price) >= trailing_step as u64 {
                return new_price;
            }
        } else {
            let new_price = market_price.saturating_sub(trailing_distance as u64);
            if new_price > old_price && (new_price - old_price) >= trailing_step as u64 {
                return new_price;
            }
        }

        old_price
    }

    /// The collection in which `order` rests.
    fn resting_levels(&self, order: &Order) -> (r: Option<&BTreeMap<u64, LevelData>>)
        ensures
            match (r, resting_side(*order)) {
                (None, None) => true,
                (Some(m), Some(s)) => level_states(m@) == self@.side(s),
                _ => false,
            },
    {
        match order.order_type {
            OrderType::Market => None,
            OrderType::Limit => if order.is_buy() { Some(&self.bids) } else { Some(&self.asks) },
            OrderType::Stop | OrderType::StopLimit => if order.is_buy() {
                Some(&self.buy_stop)
            } else {
                Some(&self.sell_stop)
            },
            OrderType::TrailingStop | OrderType::TrailingStopLimit => if order.is_buy() {
                Some(&self.trailing_buy_stop)
            } else {
                Some(&self.trailing_sell_stop)
            },
        }
    }

    /// Whether `order` is queued at its own level of the book.
    pub fn is_queued(&self, order: &Order) -> (r: bool)
        ensures
            r == queued_in(self@, *order),
    {
        let key = if order.order_type == OrderType::Limit { order.price } else { order.stop_price };
        match self.resting_levels(order) {
            None => false,
            Some(levels) => match levels.get(&key) {
                None => false,
                Some(ld) => queue_contains(&ld.order_queue, order.id),
            },
        }
    }

    /// Whether `order` can join its own level without overflowing the level's counters.
    pub fn can_add_order(&self, order: &Order) -> (r: bool)
        requires
            resting_side(*order) is Some,
        ensures
            r == can_add(self@.side(resting_side(*order).unwrap()), resting_key(*order), *order),
    {
        let key = if order.order_type == OrderType::Limit { order.price } else { order.stop_price };
        match self.resting_levels(order) {
            None => false,
            Some(levels) => match levels.get(&key) {
                None => true,
                Some(ld) => {
                    let hq = order.hidden_quantity();
                    let vq = order.visible_quantity();
                    order.leaves_quantity <= u64::MAX - ld.level.total_volume
                        && hq <= u64::MAX - ld.level.hidden_volume
                        && vq <= u64::MAX - ld.level.visible_volume
                        && ld.level.orders < usize::MAX
                },
            },
        }
    }

    // -- Limit order operations -----------------------------------------------

    /// Whether the order's price is the best price of its limit side.
    fn is_top(&self, order: &Order) -> (r: bool)
        ensures
            r == self@.top(*order),
    {
        if order.is_buy() {
            match best_of(&self.bids, true) {
                Some(l) => l.level.price == order.price,
                None => false,
            }
        } else {
            match best_of(&self.asks, false) {
                Some(l) => l.level.price == order.price,
                None => false,
            }
        }
    }

    /// Add a limit order to the book. Returns the level update notification.
    pub fn add_order(&mut self, order: &Order) -> (r: LevelUpdate)
        requires
            can_add(old(self)@.side(limit_side(order.spec_is_buy())), order.price, *order),
        ensures
            final(self)@.symbol == old(self)@.symbol,
            final(self)@ == old(self)@.after_add(limit_side(order.spec_is_buy()), order.price, *order),
            r == (LevelUpdate {
                update_type: if old(self)@.side(limit_side(order.spec_is_buy())).contains_key(order.price) {
                    UpdateType::Update
                } else {
                    UpdateType::Add
                },
                level: added_level(
                    old(self)@.side(limit_side(order.spec_is_buy())),
                    side_level_type(limit_side(order.spec_is_buy())),
                    order.price,
                    *order,
                ).level,
                top: old(self)@.top(*order),
            }),
            r.level.price == order.price,
            r.level.level_type == side_level_type(limit_side(order.spec_is_buy())),
    {
        proof {
            use_type_invariant(&*self);
        }
        proof {
            if old(self)@.keyed() {
                lemma_keyed_after_add(old(self)@, limit_side(order.spec_is_buy()), order.price, *order);
            }
        }
        let top = self.is_top(order);
        let (is_new, level) = if order.is_buy() {
            self.add_at(BookSide::Bids, order.price, order)
        } else {
            self.add_at(BookSide::Asks, order.price, order)
        };
        let update_type = if is_new { UpdateType::Add } else { UpdateType::Update };
        LevelUpdate::new(update_type, level, top)
    }

    /// Reduce a limit order by `quantity`. Returns the level update notification.
    pub fn reduce_order(&mut self, order: &Order, quantity: u64, hidden: u64, visible: u64) -> (r: LevelUpdate)
        requires
            can_remove(old(self)@.side(limit_side(order.spec_is_buy())), order.price, quantity, hidden, visible,
                order.leaves_quantity == 0),
        ensures
            final(self)@.symbol == old(self)@.symbol,
            final(self)@ == old(self)@.after_remove(limit_side(order.spec_is_buy()), order.price, order.id,
                quantity, hidden, visible, order.leaves_quantity == 0),
            r == removal_update(old(self)@.side(limit_side(order.spec_is_buy())), order.price, order.id,
                quantity, hidden, visible, order.leaves_quantity == 0, old(self)@.top(*order)),
    {
        proof {
            if old(self)@.keyed() {
                lemma_keyed_after_remove(old(self)@, limit_side(order.spec_is_buy()), order.price, order.id, quantity, hidden, visible, order.leaves_quantity == 0);
            }
        }
        let top = self.is_top(order);
        let drop = order.leaves_quantity == 0;
        let res = if order.is_buy() {
            self.remove_at(BookSide::Bids, order.price, order.id, quantity, hidden, visible, drop)
        } else {
            self.remove_at(BookSide::Asks, order.price, order.id, quantity, hidden, visible, drop)
        };
        match res {
            Some((level, deleted)) => {
                if deleted {
                    LevelUpdate::new(UpdateType::Delete, level, top)
                } else {
                    LevelUpdate::new(UpdateType::Update, level, top)
                }
            },
            None => LevelUpdate::new(UpdateType::Update, Level::new(LevelType::Bid, order.price), top),
        }
    }

    /// Delete a limit order entirely. Returns the level update notification.
    pub fn delete_order(&mut self, order: &Order) -> (r: LevelUpdate)
        requires
            can_remove(old(self)@.side(limit_side(order.spec_is_buy())), order.price, order.leaves_quantity,
                order.hidden(), order.visible(), true),
        ensures
            final(self)@.symbol == old(self)@.symbol,
            final(self)@ == old(self)@.after_remove(limit_side(order.spec_is_buy()), order.price, order.id,
                order.leaves_quantity, order.hidden(), order.visible(), true),
            r == removal_update(old(self)@.side(limit_side(order.spec_is_buy())), order.price, order.id,
                order.leaves_quantity, order.hidden(), order.visible(), true, old(self)@.top(*order)),
    {
        proof {
            if old(self)@.keyed() {
                lemma_keyed_after_remove(old(self)@, limit_side(order.spec_is_buy()), order.price, order.id, order.leaves_quantity, order.hidden(), order.visible(), true);
            }
        }
        let top = self.is_top(order);
        let hidden = order.hidden_quantity();
        let visible = order.visible_quantity();
        let res = if order.is_buy() {
            self.remove_at(BookSide::Bids, order.price, order.id, order.leaves_quantity, hidden, visible, true)
        } else {
            self.remove_at(BookSide::Asks, order.price, order.id, order.leaves_quantity, hidden, visible, true)
        };
        match res {
            Some((level, deleted)) => {
                if deleted {
                    LevelUpdate::new(UpdateType::Delete, level, top)
                } else {
                    LevelUpdate::new(UpdateType::Update, level, top)
                }
            },
            None => LevelUpdate::new(UpdateType::Update, Level::new(LevelType::Bid, order.price), top),
        }
    }

    // -- Stop order operations -------------------------------------------------

    pub fn add_stop_order(&mut self, order: &Order)
        requires
            can_add(old(self)@.side(stop_side(order.spec_is_buy())), order.stop_price, *order),
        ensures
            final(self)@.symbol == old(self)@.symbol,
            final(self)@ == old(self)@.after_add(stop_side(order.spec_is_buy()), order.stop_price, *order),
    {
        proof {
            if old(self)@.keyed() {
                lemma_keyed_after_add(old(self)@, stop_side(order.spec_is_buy()), order.stop_price, *order);
            }
        }
        if order.is_buy() {
            self.add_at(BookSide::BuyStop, order.stop_price, order);
        } else {
            self.add_at(BookSide::SellStop, order.stop_price, order);
        }
    }

    pub fn reduce_stop_order(&mut self, order: &Order, quantity: u64, hidden: u64, visible: u64)
        requires
            can_remove(old(self)@.side(stop_side(order.spec_is_buy())), order.stop_price, quantity, hidden, visible,
                order.leaves_quantity == 0),
        ensures
            final(self)@.symbol == old(self)@.symbol,
            final(self)@ == old(self)@.after_remove(stop_side(order.spec_is_buy()), order.stop_price, order.id,
                quantity, hidden, visible, order.leaves_quantity == 0),
    {
        proof {
            if old(self)@.keyed() {
                lemma_keyed_after_remove(old(self)@, stop_side(order.spec_is_buy()), order.stop_price, order.id, quantity, hidden, visible, order.leaves_quantity == 0);
            }
        }
        let drop = order.leaves_quantity == 0;
        if order.is_buy() {
            self.remove_at(BookSide::BuyStop, order.stop_price, order.id, quantity, hidden, visible, drop);
        } else {
            self.remove_at(BookSide::SellStop, order.stop_price, order.id, quantity, hidden, visible, drop);
        }
    }

    pub fn delete_stop_order(&mut self, order: &Order)
        requires
            can_remove(old(self)@.side(stop_side(order.spec_is_buy())), order.stop_price, order.leaves_quantity,
                order.hidden(), order.visible(), true),
        ensures
            final(self)@.symbol == old(self)@.symbol,
            final(self)@ == old(self)@.after_remove(stop_side(order.spec_is_buy()), order.stop_price, order.id,
                order.leaves_quantity, order.hidden(), order.visible(), true),
    {
        proof {
            if old(self)@.keyed() {
                lemma_keyed_after_remove(old(self)@, stop_side(order.spec_is_buy()), order.stop_price, order.id, order.leaves_quantity, order.hidden(), order.visible(), true);
            }
        }
        let hidden = order.hidden_quantity();
        let visible = order.visible_quantity();
        if order.is_buy() {
            self.remove_at(BookSide::BuyStop, order.stop_price, order.id, order.leaves_quantity, hidden, visible, true);
        } else {
            self.remove_at(BookSide::SellStop, order.stop_price, order.id, order.leaves_quantity, hidden, visible, true);
        }
    }

    // -- Trailing stop order operations ----------------------------------------

    pub fn add_trailing_stop_order(&mut self, order: &Order)
        requires
            can_add(old(self)@.side(trailing_side(order.spec_is_buy())), order.stop_price, *order),
        ensures
            final(self)@.symbol == old(self)@.symbol,
            final(self)@ == old(self)@.after_add(trailing_side(order.spec_is_buy()), order.stop_price, *order),
    {
        proof {
            if old(self)@.keyed() {
                lemma_keyed_after_add(old(self)@, trailing_side(order.spec_is_buy()), order.stop_price, *order);
            }
        }
        if order.is_buy() {
            self.add_at(BookSide::TrailingBuyStop, order.stop_price, order);
        } else {
            self.add_at(BookSide::TrailingSellStop, order.stop_price, order);
        }
    }

    pub fn reduce_trailing_stop_order(&mut self, order: &Order, quantity: u64, hidden: u64, visible: u64)
        requires
            can_remove(old(self)@.side(trailing_side(order.spec_is_buy())), order.stop_price, quantity, hidden, visible,
                order.leaves_quantity == 0),
        ensures
            final(self)@.symbol == old(self)@.symbol,
            final(self)@ == old(self)@.after_remove(trailing_side(order.spec_is_buy()), order.stop_price, order.id,
                quantity, hidden, visible, order.leaves_quantity == 0),
    {
        proof {
            if old(self)@.keyed() {
                lemma_keyed_after_remove(old(self)@, trailing_side(order.spec_is_buy()), order.stop_price, order.id, quantity, hidden, visible, order.leaves_quantity == 0);
            }
        }
        let drop = order.leaves_quantity == 0;
        if order.is_buy() {
            self.remove_at(BookSide::TrailingBuyStop, order.stop_price, order.id, quantity, hidden, visible, drop);
        } else {
            self.remove_at(BookSide::TrailingSellStop, order.stop_price, order.id, quantity, hidden, visible, drop);
        }
    }

    pub fn delete_trailing_stop_order(&mut self, order: &Order)
        requires
            can_remove(old(self)@.side(trailing_side(order.spec_is_buy())), order.stop_price, order.leaves_quantity,
                order.hidden(), order.visible(), true),
        ensures
            final(self)@.symbol == old(self)@.symbol,
            final(self)@ == old(self)@.after_remove(trailing_side(order.spec_is_buy()), order.stop_price, order.id,
                order.leaves_quantity, order.hidden(), order.visible(), true),
    {
        proof {
            if old(self)@.keyed() {
                lemma_keyed_after_remove(old(self)@, trailing_side(order.spec_is_buy()), order.stop_price, order.id, order.leaves_quantity, order.hidden(), order.visible(), true);
            }
        }
        let hidden = order.hidden_quantity();
        let visible = order.visible_quantity();
        if order.is_buy() {
            self.remove_at(BookSide::TrailingBuyStop, order.stop_price, order.id, order.leaves_quantity, hidden, visible, true);
        } else {
            self.remove_at(BookSide::TrailingSellStop, order.stop_price, order.id, order.leaves_quantity, hidden, visible, true);
        }
    }
}

/// The best level that a getter returned is the model's best level of the side.
pub open spec fn best_level_matches(r: Option<&LevelData>, m: Map<u64, LevelState>, highest_first: bool) -> bool {
    &&& match (r, best_level(m, highest_first)) {
        (None, None) => true,
        (Some(l), Some(b)) => l@ == b,
        _ => false,
    }
    &&& r is Some ==> (if highest_first { is_highest(m, highest(m)) } else { is_lowest(m, lowest(m)) })
}

/// A lookup by price returned the model's level at that price, or nothing when there is none.
pub open spec fn level_lookup_matches(r: Option<&LevelData>, m: Map<u64, LevelState>, price: u64) -> bool {
    match r {
        None => !m.contains_key(price),
        Some(l) => m.contains_key(price) && l@ == m[price],
    }
}

/// A trailing stop only tightens: a buy stop never moves up and a sell stop never moves
/// down; when it moves, it moves by at least the trailing step.
pub proof fn lemma_trailing_stop_tightens(b: BookState, o: Order)
    ensures
        o.spec_is_buy() ==> b.trailing_stop_price(o) <= o.stop_price,
        !o.spec_is_buy() ==> b.trailing_stop_price(o) >= o.stop_price,
        b.trailing_stop_price(o) != o.stop_price ==> b.trailing_market_price(o) != u64::MAX
            && b.trailing_market_price(o) != 0,
{
}

/// A trailing stop recalculated against an unchanged market stays where it is.
pub proof fn lemma_trailing_stop_settles(b: BookState, o: Order)
    ensures
        b.trailing_stop_price(Order { stop_price: b.trailing_stop_price(o), ..o }) == b.trailing_stop_price(o),
{
}

/// Deleting an order right after adding it to a level gives back the collection, when the
/// order has something left and is not already queued at a level that holds volume.
pub proof fn lemma_add_then_delete(b: BookState, s: BookSide, key: u64, o: Order)
    requires
        o.leaves_quantity > 0,
        can_add(b.side(s), key, o),
        b.side(s).contains_key(key) ==> b.side(s)[key].level.total_volume > 0 && !b.side(s)[key].queue.contains(o.id),
    ensures
        b.after_add(s, key, o).after_remove(s, key, o.id, o.leaves_quantity, o.hidden(), o.visible(), true) == b,
{
    let m = b.side(s);
    let a = add_to_side(m, side_level_type(s), key, o);
    let r = remove_from_side(a, key, o.id, o.leaves_quantity, o.hidden(), o.visible(), true);
    let l = added_level(m, side_level_type(s), key, o);
    if m.contains_key(key) {
        let q = m[key].queue;
        crate::matching::consistency::lemma_without(q, o.id);
        assert(q.push(o.id).drop_last() =~= q);
        assert(without(q.push(o.id), o.id) == q);
        assert(removed_level(l, o.id, o.leaves_quantity, o.hidden(), o.visible(), true) == m[key]);
        assert(r =~= m);
    } else {
        assert(r =~= m);
    }
    assert(b.after_add(s, key, o).side(s) == a);
    assert(b.after_add(s, key, o).with_side(s, r) == b.with_side(s, m));
    assert(b.with_side(s, m) == b);
}

/// Every collection of levels of a book is finite.
pub proof fn lemma_book_finite(ob: &OrderBook)
    ensures
        forall|s: BookSide| #[trigger] ob@.side(s).dom().finite(),
{
    lemma_level_states_len(ob.bids@);
    lemma_level_states_len(ob.asks@);
    lemma_level_states_len(ob.buy_stop@);
    lemma_level_states_len(ob.sell_stop@);
    lemma_level_states_len(ob.trailing_buy_stop@);
    lemma_level_states_len(ob.trailing_sell_stop@);
}

proof fn lemma_product_fits(x: int, y: int, m: int)
    requires
        x >= 0,
        y > 0,
        m >= 0,
    ensures
        (x <= m / y) <==> (x * y <= m),
{
    vstd::arithmetic::div_mod::lemma_fundamental_div_mod(m, y);
    if x <= m / y {
        vstd::arithmetic::mul::lemma_mul_inequality(x, m / y, y);
        vstd::arithmetic::mul::lemma_mul_is_commutative(m / y, y);
    } else {
        vstd::arithmetic::mul::lemma_mul_inequality(m / y + 1, x, y);
        vstd::arithmetic::mul::lemma_mul_is_distributive_add_other_way(y, m / y, 1);
        vstd::arithmetic::mul::lemma_mul_is_commutative(m / y, y);
    }
}

proof fn lemma_level_states_len(m: Map<u64, LevelData>)
    requires
        m.dom().finite(),
    ensures
        level_states(m).len() == m.len(),
        level_states(m).dom().finite(),
{
    assert(level_states(m).dom() =~= m.dom());
}

} // verus!
