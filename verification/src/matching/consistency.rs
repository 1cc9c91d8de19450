use vstd::prelude::*;

use crate::matching::order::{Order, OrderId};
use crate::matching::order_book::{
    add_to_side, added_level, can_add, can_remove, limit_side, remove_from_side, removed_level,
    side_level_type, stop_side, trailing_side, without, BookSide, BookState, LevelState,
};
use crate::matching::types::OrderType;

verus! {

// ---------------------------------------------------------------------------
//  Where orders rest, and what a level holds of them
// ---------------------------------------------------------------------------

/// The collection of a book in which an order rests; market orders never rest.
pub open spec fn resting_side(o: Order) -> Option<BookSide> {
    match o.order_type {
        OrderType::Market => None,
        OrderType::Limit => Some(limit_side(o.spec_is_buy())),
        OrderType::Stop => Some(stop_side(o.spec_is_buy())),
        OrderType::StopLimit => Some(stop_side(o.spec_is_buy())),
        OrderType::TrailingStop => Some(trailing_side(o.spec_is_buy())),
        OrderType::TrailingStopLimit => Some(trailing_side(o.spec_is_buy())),
    }
}

/// The price level key of a resting order: the limit price for limit orders, the stop price
/// for the others.
pub open spec fn resting_key(o: Order) -> u64 {
    if o.order_type == OrderType::Limit {
        o.price
    } else {
        o.stop_price
    }
}

/// Two orders rest at the same place.
pub open spec fn same_place(a: Order, b: Order) -> bool {
    &&& a.id == b.id
    &&& a.symbol_id == b.symbol_id
    &&& resting_side(a) == resting_side(b)
    &&& resting_key(a) == resting_key(b)
}

/// The part of an order that a level volume counts.
pub enum VolumePart {
    Leaves,
    Hidden,
    Visible,
}

pub open spec fn part(o: Order, p: VolumePart) -> int {
    match p {
        VolumePart::Leaves => o.leaves_quantity as int,
        VolumePart::Hidden => o.hidden() as int,
        VolumePart::Visible => o.visible() as int,
    }
}

/// The sum of one part over the orders of a queue.
pub open spec fn queue_sum(q: Seq<OrderId>, orders: Map<OrderId, Order>, p: VolumePart) -> int
    decreases q.len(),
{
    if q.len() == 0 {
        0
    } else {
        queue_sum(q.drop_last(), orders, p) + part(orders[q.last()], p)
    }
}

/// The order `id` is held and rests at level `key` of side `s` of the book of symbol `sym`.
pub open spec fn rests_at(orders: Map<OrderId, Order>, id: OrderId, s: BookSide, key: u64, sym: int) -> bool {
    &&& orders.contains_key(id)
    &&& resting_side(orders[id]) == Some(s)
    &&& resting_key(orders[id]) == key
    &&& orders[id].symbol_id == sym
}

/// A level agrees with the orders it queues: its key, its type, its count and its three
/// volumes are those of the queued orders, each queued once.
pub open spec fn level_consistent(l: LevelState, s: BookSide, key: u64, sym: int, orders: Map<OrderId, Order>) -> bool {
    &&& l.level.price == key
    &&& l.level.level_type == side_level_type(s)
    &&& l.queue.len() > 0
    &&& l.queue.no_duplicates()
    &&& l.level.orders == l.queue.len()
    &&& forall|i: int| 0 <= i < l.queue.len() ==> rests_at(orders, #[trigger] l.queue[i], s, key, sym)
    &&& l.level.total_volume == queue_sum(l.queue, orders, VolumePart::Leaves)
    &&& l.level.hidden_volume == queue_sum(l.queue, orders, VolumePart::Hidden)
    &&& l.level.visible_volume == queue_sum(l.queue, orders, VolumePart::Visible)
}

/// Every level of the book of symbol `sym` agrees with the orders it queues.
pub open spec fn book_consistent(b: BookState, sym: int, orders: Map<OrderId, Order>) -> bool {
    forall|s: BookSide, k: u64| #[trigger] b.side(s).contains_key(k) ==> level_consistent(b.side(s)[k], s, k, sym, orders)
}

/// The order is queued at its own level of the book.
pub open spec fn queued_in(b: BookState, o: Order) -> bool {
    match resting_side(o) {
        Some(s) => b.side(s).contains_key(resting_key(o)) && b.side(s)[resting_key(o)].queue.contains(o.id),
        None => false,
    }
}

// ---------------------------------------------------------------------------
//  Sums over queues
// ---------------------------------------------------------------------------

pub(crate) proof fn lemma_sum_frame(q: Seq<OrderId>, o1: Map<OrderId, Order>, o2: Map<OrderId, Order>, p: VolumePart)
    requires
        forall|i: int| 0 <= i < q.len() ==> o1[#[trigger] q[i]] == o2[q[i]],
    ensures
        queue_sum(q, o1, p) == queue_sum(q, o2, p),
    decreases q.len(),
{
    if q.len() > 0 {
        let d = q.drop_last();
        assert forall|i: int| 0 <= i < d.len() implies o1[#[trigger] d[i]] == o2[d[i]] by {
            assert(d[i] == q[i]);
        }
        lemma_sum_frame(d, o1, o2, p);
        assert(o1[q.last()] == o2[q[q.len() - 1]]);
    }
}

/// The hidden and the visible parts of a queue's orders add up to their remaining quantity.
pub(crate) proof fn lemma_sum_split(q: Seq<OrderId>, orders: Map<OrderId, Order>)
    ensures
        queue_sum(q, orders, VolumePart::Leaves) == queue_sum(q, orders, VolumePart::Hidden) + queue_sum(
            q,
            orders,
            VolumePart::Visible,
        ),
    decreases q.len(),
{
    if q.len() > 0 {
        lemma_sum_split(q.drop_last(), orders);
        crate::matching::order::lemma_hidden_plus_visible(orders[q.last()]);
    }
}

/// A prefix of a queue holds no more than the whole queue.
pub(crate) proof fn lemma_sum_prefix(q: Seq<OrderId>, orders: Map<OrderId, Order>, p: VolumePart, i: int)
    requires
        0 <= i <= q.len(),
    ensures
        queue_sum(q.take(i), orders, p) <= queue_sum(q, orders, p),
        0 <= queue_sum(q.take(i), orders, p),
    decreases q.len(),
{
    lemma_sum_member(q.take(i), orders, p, 0);
    if i == q.len() {
        assert(q.take(i) =~= q);
    } else {
        let d = q.drop_last();
        lemma_sum_prefix(d, orders, p, i);
        assert(d.take(i) =~= q.take(i));
        lemma_sum_member(q, orders, p, 0);
        assert(part(orders[q.last()], p) >= 0) by {
            match p {
                VolumePart::Leaves => {},
                VolumePart::Hidden => {},
                VolumePart::Visible => {},
            }
        }
    }
}

pub(crate) proof fn lemma_sum_member(q: Seq<OrderId>, orders: Map<OrderId, Order>, p: VolumePart, i: int)
    ensures
        queue_sum(q, orders, p) >= 0,
        0 <= i < q.len() ==> queue_sum(q, orders, p) >= part(orders[q[i]], p),
    decreases q.len(),
{
    if q.len() > 0 {
        let d = q.drop_last();
        lemma_sum_member(d, orders, p, i);
        if 0 <= i < q.len() - 1 {
            assert(d[i] == q[i]);
        }
    }
}

pub(crate) proof fn lemma_without(q: Seq<OrderId>, id: OrderId)
    ensures
        forall|x: OrderId| #[trigger] without(q, id).contains(x) <==> (q.contains(x) && x != id),
        q.no_duplicates() ==> without(q, id).no_duplicates(),
        q.no_duplicates() && q.contains(id) ==> without(q, id).len() + 1 == q.len(),
        !q.contains(id) ==> without(q, id) == q,
    decreases q.len(),
{
    if q.len() > 0 {
        let d = q.drop_last();
        lemma_without(d, id);
        assert forall|x: OrderId| q.contains(x) <==> (d.contains(x) || x == q.last()) by {
            if q.contains(x) {
                let j = choose|j: int| 0 <= j < q.len() && q[j] == x;
                if j < q.len() - 1 {
                    assert(d[j] == x);
                }
            }
            if d.contains(x) {
                let j = choose|j: int| 0 <= j < d.len() && d[j] == x;
                assert(q[j] == x);
            }
            assert(q[q.len() - 1] == q.last());
        }
        if q.no_duplicates() {
            assert(d.no_duplicates()) by {
                assert forall|a: int, b: int| 0 <= a < d.len() && 0 <= b < d.len() && a != b implies d[a] != d[b] by {
                    assert(d[a] == q[a] && d[b] == q[b]);
                }
            }
            assert(!d.contains(q.last())) by {
                if d.contains(q.last()) {
                    let j = choose|j: int| 0 <= j < d.len() && d[j] == q.last();
                    assert(q[j] == q[q.len() - 1]);
                }
            }
        }
        if q.last() == id {
            assert(without(q, id) == without(d, id));
            assert forall|x: OrderId| #[trigger] without(q, id).contains(x) <==> (q.contains(x) && x != id) by {
                assert(q.contains(x) <==> (d.contains(x) || x == q.last()));
            }
        } else {
            let w = without(d, id);
            assert(without(q, id) == w.push(q.last()));
            assert forall|x: OrderId| #[trigger] w.push(q.last()).contains(x) <==> (w.contains(x) || x == q.last()) by {
                if w.push(q.last()).contains(x) {
                    let j = choose|j: int| 0 <= j < w.len() + 1 && w.push(q.last())[j] == x;
                    if j < w.len() {
                        assert(w[j] == x);
                    }
                }
                if w.contains(x) {
                    let j = choose|j: int| 0 <= j < w.len() && w[j] == x;
                    assert(w.push(q.last())[j] == x);
                }
                assert(w.push(q.last())[w.len() as int] == q.last());
            }
            if q.no_duplicates() {
                assert(w.push(q.last()).no_duplicates()) by {
                    assert(!w.contains(q.last()));
                    assert forall|a: int, b: int|
                        0 <= a < w.len() + 1 && 0 <= b < w.len() + 1 && a != b implies w.push(q.last())[a]
                        != w.push(q.last())[b] by {
                        if a < w.len() && b < w.len() {
                        } else if a < w.len() {
                            assert(w.contains(w[a]));
                        } else {
                            assert(w.contains(w[b]));
                        }
                    }
                }
            }
            if !q.contains(id) {
                assert(!d.contains(id));
                assert(d.push(q.last()) =~= q);
            }
            assert forall|x: OrderId| #[trigger] without(q, id).contains(x) <==> (q.contains(x) && x != id) by {
                assert(q.contains(x) <==> (d.contains(x) || x == q.last()));
                assert(w.push(q.last()).contains(x) <==> (w.contains(x) || x == q.last()));
            }
        }
    }
}

pub(crate) proof fn lemma_sum_without(q: Seq<OrderId>, id: OrderId, orders: Map<OrderId, Order>, p: VolumePart)
    requires
        q.no_duplicates(),
        q.contains(id),
    ensures
        queue_sum(without(q, id), orders, p) == queue_sum(q, orders, p) - part(orders[id], p),
    decreases q.len(),
{
    let d = q.drop_last();
    assert(d.no_duplicates()) by {
        assert forall|a: int, b: int| 0 <= a < d.len() && 0 <= b < d.len() && a != b implies d[a] != d[b] by {
            assert(d[a] == q[a] && d[b] == q[b]);
        }
    }
    if q.last() == id {
        assert(!d.contains(id)) by {
            if d.contains(id) {
                let j = choose|j: int| 0 <= j < d.len() && d[j] == id;
                assert(q[j] == q[q.len() - 1]);
            }
        }
        lemma_without(d, id);
    } else {
        assert(d.contains(id)) by {
            let j = choose|j: int| 0 <= j < q.len() && q[j] == id;
            assert(j != q.len() - 1);
            assert(d[j] == id);
        }
        lemma_sum_without(d, id, orders, p);
        let w = without(d, id);
        assert(without(q, id) == w.push(q.last()));
        assert(w.push(q.last()).drop_last() =~= w);
    }
}

pub(crate) proof fn lemma_sum_update(q: Seq<OrderId>, orders: Map<OrderId, Order>, id: OrderId, v: Order, p: VolumePart)
    requires
        q.no_duplicates(),
    ensures
        queue_sum(q, orders.insert(id, v), p) == queue_sum(q, orders, p) + (if q.contains(id) {
            part(v, p) - part(orders[id], p)
        } else {
            0
        }),
    decreases q.len(),
{
    if q.len() > 0 {
        let d = q.drop_last();
        assert(d.no_duplicates()) by {
            assert forall|a: int, b: int| 0 <= a < d.len() && 0 <= b < d.len() && a != b implies d[a] != d[b] by {
                assert(d[a] == q[a] && d[b] == q[b]);
            }
        }
        lemma_sum_update(d, orders, id, v, p);
        assert(q.contains(id) <==> (d.contains(id) || q.last() == id)) by {
            if q.contains(id) {
                let j = choose|j: int| 0 <= j < q.len() && q[j] == id;
                if j < q.len() - 1 {
                    assert(d[j] == id);
                }
            }
            if d.contains(id) {
                let j = choose|j: int| 0 <= j < d.len() && d[j] == id;
                assert(q[j] == id);
            }
            assert(q[q.len() - 1] == q.last());
        }
        if q.last() == id {
            assert(!d.contains(id)) by {
                if d.contains(id) {
                    let j = choose|j: int| 0 <= j < d.len() && d[j] == id;
                    assert(q[j] == q[q.len() - 1]);
                }
            }
        }
    }
}

// ---------------------------------------------------------------------------
//  Book-level preservation
// ---------------------------------------------------------------------------

/// A book stays consistent when the orders it queues keep their records.
pub(crate) proof fn lemma_book_frame(b: BookState, sym: int, o1: Map<OrderId, Order>, o2: Map<OrderId, Order>)
    requires
        book_consistent(b, sym, o1),
        keyed_by_id(o1),
        forall|id: OrderId|
            o1.contains_key(id) && o1[id].symbol_id == sym && #[trigger] queued_in(b, o1[id]) ==> o2.contains_key(id)
                && o2[id] == o1[id],
    ensures
        book_consistent(b, sym, o2),
{
    assert forall|s: BookSide, k: u64| #[trigger] b.side(s).contains_key(k) implies level_consistent(b.side(s)[k], s, k, sym, o2) by {
        let l = b.side(s)[k];
        assert forall|i: int| 0 <= i < l.queue.len() implies o1[#[trigger] l.queue[i]] == o2[l.queue[i]]
            && rests_at(o2, l.queue[i], s, k, sym) by {
            let id = l.queue[i];
            assert(rests_at(o1, id, s, k, sym));
            assert(l.queue.contains(id));
            assert(queued_in(b, o1[id])) by {
                assert(resting_side(o1[id]) == Some(s));
                assert(resting_key(o1[id]) == k);
                lemma_queued_id(b, o1, id, s, k, sym);
            }
        }
        lemma_sum_frame(l.queue, o1, o2, VolumePart::Leaves);
        lemma_sum_frame(l.queue, o1, o2, VolumePart::Hidden);
        lemma_sum_frame(l.queue, o1, o2, VolumePart::Visible);
    }
}


pub(crate) proof fn lemma_push_no_dup(q: Seq<OrderId>, x: OrderId)
    requires
        q.no_duplicates(),
        !q.contains(x),
    ensures
        q.push(x).no_duplicates(),
        forall|y: OrderId| #[trigger] q.push(x).contains(y) <==> (q.contains(y) || y == x),
{
    let r = q.push(x);
    assert forall|a: int, b: int| 0 <= a < r.len() && 0 <= b < r.len() && a != b implies r[a] != r[b] by {
        if a < q.len() && b < q.len() {
            assert(r[a] == q[a] && r[b] == q[b]);
        } else if a < q.len() {
            assert(r[a] == q[a]);
            assert(q.contains(q[a]));
        } else {
            assert(r[b] == q[b]);
            assert(q.contains(q[b]));
        }
    }
    assert forall|y: OrderId| #[trigger] r.contains(y) <==> (q.contains(y) || y == x) by {
        if r.contains(y) {
            let j = choose|j: int| 0 <= j < r.len() && r[j] == y;
            if j < q.len() {
                assert(q[j] == y);
            }
        }
        if q.contains(y) {
            let j = choose|j: int| 0 <= j < q.len() && q[j] == y;
            assert(r[j] == y);
        }
        assert(r[q.len() as int] == x);
    }
}

pub(crate) proof fn lemma_sum_push(q: Seq<OrderId>, x: OrderId, orders: Map<OrderId, Order>, p: VolumePart)
    ensures
        queue_sum(q.push(x), orders, p) == queue_sum(q, orders, p) + part(orders[x], p),
{
    assert(q.push(x).drop_last() =~= q);
}

/// A book stays consistent when `o` joins its own level, not being queued before.
pub(crate) proof fn lemma_book_add(b: BookState, sym: int, orders: Map<OrderId, Order>, o: Order)
    requires
        book_consistent(b, sym, orders),
        orders.contains_key(o.id),
        orders[o.id] == o,
        o.symbol_id == sym,
        resting_side(o) is Some,
        !queued_in(b, o),
        can_add(b.side(resting_side(o).unwrap()), resting_key(o), o),
    ensures
        book_consistent(b.after_add(resting_side(o).unwrap(), resting_key(o), o), sym, orders),
        queued_in(b.after_add(resting_side(o).unwrap(), resting_key(o), o), o),
{
    let s = resting_side(o).unwrap();
    let key = resting_key(o);
    let nb = b.after_add(s, key, o);
    let old_side = b.side(s);
    let nl = added_level(old_side, side_level_type(s), key, o);
    assert(nb.side(s) == add_to_side(old_side, side_level_type(s), key, o));
    assert forall|s2: BookSide, k2: u64| #[trigger] nb.side(s2).contains_key(k2) implies level_consistent(nb.side(s2)[k2], s2, k2, sym, orders) by {
        if s2 == s && k2 == key {
            assert(nb.side(s2)[k2] == nl);
            let oq = if old_side.contains_key(key) { old_side[key].queue } else { Seq::<OrderId>::empty() };
            assert(nl.queue == oq.push(o.id));
            if old_side.contains_key(key) {
                assert(level_consistent(old_side[key], s, key, sym, orders));
                assert(!oq.contains(o.id));
            } else {
                assert(!oq.contains(o.id));
            }
            lemma_push_no_dup(oq, o.id);
            lemma_sum_push(oq, o.id, orders, VolumePart::Leaves);
            lemma_sum_push(oq, o.id, orders, VolumePart::Hidden);
            lemma_sum_push(oq, o.id, orders, VolumePart::Visible);
            assert forall|i: int| 0 <= i < nl.queue.len() implies rests_at(orders, #[trigger] nl.queue[i], s2, k2, sym) by {
                if i < oq.len() {
                    assert(nl.queue[i] == oq[i]);
                    assert(old_side.contains_key(key));
                    assert(rests_at(orders, old_side[key].queue[i], s, key, sym));
                } else {
                    assert(nl.queue[i] == o.id);
                }
            }
        } else {
            if s2 == s {
                assert(nb.side(s2)[k2] == b.side(s2)[k2]);
                assert(b.side(s2).contains_key(k2));
            } else {
                assert(nb.side(s2) == b.side(s2));
            }
        }
    }
    assert(nb.side(s).contains_key(key));
    assert(nb.side(s)[key].queue[nb.side(s)[key].queue.len() - 1] == o.id);
}

/// A book stays consistent when a queued order `o1` gives up volume to become `o2` in the
/// same place and the level gives up the same volume; an order reduced to nothing leaves the
/// queue.
pub(crate) proof fn lemma_book_reduce(b: BookState, sym: int, orders: Map<OrderId, Order>, o1: Order, o2: Order)
    requires
        book_consistent(b, sym, orders),
        keyed_by_id(orders),
        orders.contains_key(o1.id),
        orders[o1.id] == o1,
        queued_in(b, o1),
        same_place(o1, o2),
        o2.leaves_quantity <= o1.leaves_quantity,
        o2.hidden() <= o1.hidden(),
        o2.visible() <= o1.visible(),
    ensures
        ({
            let s = resting_side(o1).unwrap();
            let key = resting_key(o1);
            let q = (o1.leaves_quantity - o2.leaves_quantity) as u64;
            let hd = (o1.hidden() - o2.hidden()) as u64;
            let vd = (o1.visible() - o2.visible()) as u64;
            let drop = o2.leaves_quantity == 0;
            let nb = b.after_remove(s, key, o1.id, q, hd, vd, drop);
            &&& can_remove(b.side(s), key, q, hd, vd, drop)
            &&& book_consistent(nb, sym, orders.insert(o1.id, o2))
            &&& (drop ==> !queued_in(nb, o2))
        }),
{
    let s = resting_side(o1).unwrap();
    let key = resting_key(o1);
    let id = o1.id;
    let q = (o1.leaves_quantity - o2.leaves_quantity) as u64;
    let hd = (o1.hidden() - o2.hidden()) as u64;
    let vd = (o1.visible() - o2.visible()) as u64;
    let drop = o2.leaves_quantity == 0;
    let no = orders.insert(id, o2);
    let nb = b.after_remove(s, key, id, q, hd, vd, drop);
    let old_side = b.side(s);
    assert(old_side.contains_key(key));
    let ol = old_side[key];
    assert(level_consistent(ol, s, key, sym, orders));
    let j = choose|j: int| 0 <= j < ol.queue.len() && ol.queue[j] == id;
    lemma_sum_member(ol.queue, orders, VolumePart::Leaves, j);
    lemma_sum_member(ol.queue, orders, VolumePart::Hidden, j);
    lemma_sum_member(ol.queue, orders, VolumePart::Visible, j);
    assert(can_remove(old_side, key, q, hd, vd, drop));
    let nl = removed_level(ol, id, q, hd, vd, drop);
    assert(nb.side(s) == remove_from_side(old_side, key, id, q, hd, vd, drop));
    // the reduced level
    if drop {
        lemma_without(ol.queue, id);
        lemma_sum_without(ol.queue, id, orders, VolumePart::Leaves);
        lemma_sum_without(ol.queue, id, orders, VolumePart::Hidden);
        lemma_sum_without(ol.queue, id, orders, VolumePart::Visible);
        let w = without(ol.queue, id);
        assert forall|i: int| 0 <= i < w.len() implies orders[#[trigger] w[i]] == no[w[i]] by {
            assert(w.contains(w[i]));
        }
        lemma_sum_frame(w, orders, no, VolumePart::Leaves);
        lemma_sum_frame(w, orders, no, VolumePart::Hidden);
        lemma_sum_frame(w, orders, no, VolumePart::Visible);
    } else {
        lemma_sum_update(ol.queue, orders, id, o2, VolumePart::Leaves);
        lemma_sum_update(ol.queue, orders, id, o2, VolumePart::Hidden);
        lemma_sum_update(ol.queue, orders, id, o2, VolumePart::Visible);
    }
    assert forall|s2: BookSide, k2: u64| #[trigger] nb.side(s2).contains_key(k2) implies level_consistent(nb.side(s2)[k2], s2, k2, sym, no) by {
        if s2 == s && k2 == key {
            assert(nb.side(s2)[k2] == nl);
            assert(nl.level.total_volume != 0);
            assert forall|i: int| 0 <= i < nl.queue.len() implies rests_at(no, #[trigger] nl.queue[i], s2, k2, sym) by {
                if drop {
                    let w = without(ol.queue, id);
                    assert(w.contains(w[i]));
                    let jj = choose|jj: int| 0 <= jj < ol.queue.len() && ol.queue[jj] == w[i];
                    assert(rests_at(orders, ol.queue[jj], s, key, sym));
                } else {
                    assert(rests_at(orders, ol.queue[i], s, key, sym));
                }
            }
            if !drop {
                assert(nl.queue.len() > 0);
            } else {
                assert(nl.queue.len() > 0) by {
                    if nl.queue.len() == 0 {
                        assert(queue_sum(nl.queue, no, VolumePart::Leaves) == 0);
                    }
                }
            }
        } else {
            let l = b.side(s2)[k2];
            if s2 == s {
                assert(nb.side(s2)[k2] == l);
            } else {
                assert(nb.side(s2) == b.side(s2));
            }
            assert(b.side(s2).contains_key(k2));
            assert(level_consistent(l, s2, k2, sym, orders));
            assert forall|i: int| 0 <= i < l.queue.len() implies orders[#[trigger] l.queue[i]] == no[l.queue[i]]
                && rests_at(no, l.queue[i], s2, k2, sym) by {
                assert(rests_at(orders, l.queue[i], s2, k2, sym));
                if l.queue[i] == id {
                    assert(resting_side(o1) == Some(s2));
                }
            }
            lemma_sum_frame(l.queue, orders, no, VolumePart::Leaves);
            lemma_sum_frame(l.queue, orders, no, VolumePart::Hidden);
            lemma_sum_frame(l.queue, orders, no, VolumePart::Visible);
        }
    }
    if drop {
        if nb.side(s).contains_key(key) {
            assert(nb.side(s)[key].queue == without(ol.queue, id));
            assert(!without(ol.queue, id).contains(id));
        }
    }
}

/// A book stays consistent when a queued order leaves its level with all its volume; the
/// order is no longer queued.
pub(crate) proof fn lemma_book_delete(b: BookState, sym: int, orders: Map<OrderId, Order>, o: Order)
    requires
        book_consistent(b, sym, orders),
        keyed_by_id(orders),
        orders.contains_key(o.id),
        orders[o.id] == o,
        queued_in(b, o),
    ensures
        ({
            let s = resting_side(o).unwrap();
            let key = resting_key(o);
            let nb = b.after_remove(s, key, o.id, o.leaves_quantity, o.hidden(), o.visible(), true);
            &&& can_remove(b.side(s), key, o.leaves_quantity, o.hidden(), o.visible(), true)
            &&& book_consistent(nb, sym, orders)
            &&& !queued_in(nb, o)
        }),
{
    let o2 = Order { leaves_quantity: 0, ..o };
    assert(o2.hidden() == 0 && o2.visible() == 0);
    lemma_book_reduce(b, sym, orders, o, o2);
    let s = resting_side(o).unwrap();
    let key = resting_key(o);
    let nb = b.after_remove(s, key, o.id, o.leaves_quantity, o.hidden(), o.visible(), true);
    let no = orders.insert(o.id, o2);
    assert(keyed_by_id(no));
    assert forall|id: OrderId|
        no.contains_key(id) && no[id].symbol_id == sym && #[trigger] queued_in(nb, no[id]) implies orders.contains_key(id)
            && orders[id] == no[id] by {
        if id == o.id {
            assert(no[id] == o2);
        }
    }
    lemma_book_frame(nb, sym, no, orders);
}

/// A book stays consistent when an order's record changes without moving and without
/// changing any volume part.
pub(crate) proof fn lemma_book_same_parts(b: BookState, sym: int, orders: Map<OrderId, Order>, o2: Order)
    requires
        book_consistent(b, sym, orders),
        orders.contains_key(o2.id),
        same_place(orders[o2.id], o2),
        o2.leaves_quantity == orders[o2.id].leaves_quantity,
        o2.hidden() == orders[o2.id].hidden(),
        o2.visible() == orders[o2.id].visible(),
    ensures
        book_consistent(b, sym, orders.insert(o2.id, o2)),
{
    let no = orders.insert(o2.id, o2);
    assert forall|s: BookSide, k: u64| #[trigger] b.side(s).contains_key(k) implies level_consistent(b.side(s)[k], s, k, sym, no) by {
        let l = b.side(s)[k];
        assert(level_consistent(l, s, k, sym, orders));
        assert forall|i: int| 0 <= i < l.queue.len() implies rests_at(no, #[trigger] l.queue[i], s, k, sym) by {
            assert(rests_at(orders, l.queue[i], s, k, sym));
        }
        lemma_sum_update(l.queue, orders, o2.id, o2, VolumePart::Leaves);
        lemma_sum_update(l.queue, orders, o2.id, o2, VolumePart::Hidden);
        lemma_sum_update(l.queue, orders, o2.id, o2, VolumePart::Visible);
    }
}

/// Orders are keyed by their own id.
pub open spec fn keyed_by_id(orders: Map<OrderId, Order>) -> bool {
    forall|id: OrderId| #[trigger] orders.contains_key(id) ==> orders[id].id == id
}

proof fn lemma_queued_id(b: BookState, orders: Map<OrderId, Order>, id: OrderId, s: BookSide, k: u64, sym: int)
    requires
        b.side(s).contains_key(k),
        b.side(s)[k].queue.contains(id),
        rests_at(orders, id, s, k, sym),
    ensures
        orders[id].id == id ==> queued_in(b, orders[id]),
{
}

} // verus!
