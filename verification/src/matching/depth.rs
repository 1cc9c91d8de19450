use vstd::prelude::*;

use crate::matching::order_book::{is_highest, is_lowest, removed_level, remove_from_side, BookState, LevelState};
use crate::matching::order::OrderId;

verus! {

/// A level at price `k` is within the limit price of a buy order (at or below it) or of a
/// sell order (at or above it).
pub open spec fn within(is_buy: bool, limit: u64, k: u64) -> bool {
    if is_buy {
        k <= limit
    } else {
        k >= limit
    }
}

/// The collection that an order of the given side trades against.
pub open spec fn opposing(b: BookState, is_buy: bool) -> Map<u64, LevelState> {
    if is_buy {
        b.asks
    } else {
        b.bids
    }
}

/// Adds the total volume of the level at a key to a running total.
pub open spec fn add_volume(m: Map<u64, LevelState>) -> spec_fn(int, u64) -> int {
    |acc: int, k: u64| acc + m[k].level.total_volume
}

/// The total volume of the levels of `m` at the keys of `ks`.
pub open spec fn levels_volume(m: Map<u64, LevelState>, ks: Set<u64>) -> int {
    ks.fold(0int, add_volume(m))
}

/// The keys of the levels of `m` within the limit price.
pub open spec fn within_keys(m: Map<u64, LevelState>, is_buy: bool, limit: u64) -> Set<u64> {
    m.dom().filter(|k: u64| within(is_buy, limit, k))
}

/// The volume that the opposing levels within the limit price hold: what an order of that
/// side and limit price can trade at most.
pub open spec fn depth(b: BookState, is_buy: bool, limit: u64) -> int {
    let m = opposing(b, is_buy);
    levels_volume(m, within_keys(m, is_buy, limit))
}

proof fn lemma_add_volume_commutative(m: Map<u64, LevelState>)
    ensures
        vstd::set::fold::is_fun_commutative(add_volume(m)),
{
}

/// The total volume of a finite set of levels is that of one of them plus that of the
/// others.
pub(crate) proof fn lemma_levels_volume_remove(m: Map<u64, LevelState>, ks: Set<u64>, k: u64)
    requires
        ks.finite(),
        ks.contains(k),
    ensures
        levels_volume(m, ks) == m[k].level.total_volume + levels_volume(m, ks.remove(k)),
{
    lemma_add_volume_commutative(m);
    let rest = ks.remove(k);
    assert(rest.insert(k) =~= ks);
    vstd::set::fold::lemma_fold_insert(rest, 0int, add_volume(m), k);
}

pub(crate) proof fn lemma_levels_volume_empty(m: Map<u64, LevelState>)
    ensures
        levels_volume(m, Set::empty()) == 0,
{
    vstd::set::fold::lemma_fold_empty(0int, add_volume(m));
}

/// The total volume of some levels depends on those levels only.
pub(crate) proof fn lemma_levels_volume_same(m1: Map<u64, LevelState>, m2: Map<u64, LevelState>, ks: Set<u64>)
    requires
        ks.finite(),
        forall|k: u64| ks.contains(k) ==> m1[k].level.total_volume == m2[k].level.total_volume,
    ensures
        levels_volume(m1, ks) == levels_volume(m2, ks),
    decreases ks.len(),
{
    if ks.len() == 0 {
        assert(ks =~= Set::empty());
        lemma_levels_volume_empty(m1);
        lemma_levels_volume_empty(m2);
    } else {
        let k = ks.choose();
        lemma_levels_volume_remove(m1, ks, k);
        lemma_levels_volume_remove(m2, ks, k);
        lemma_levels_volume_same(m1, m2, ks.remove(k));
    }
}

/// Fewer levels hold no more volume.
pub(crate) proof fn lemma_levels_volume_subset(m: Map<u64, LevelState>, ks1: Set<u64>, ks2: Set<u64>)
    requires
        ks2.finite(),
        ks1.subset_of(ks2),
    ensures
        levels_volume(m, ks1) <= levels_volume(m, ks2),
    decreases ks2.len(),
{
    vstd::set_lib::lemma_len_subset(ks1, ks2);
    if ks2.len() == 0 {
        assert(ks1 =~= Set::empty());
        assert(ks2 =~= Set::empty());
    } else {
        let k = ks2.choose();
        lemma_levels_volume_remove(m, ks2, k);
        if ks1.contains(k) {
            lemma_levels_volume_remove(m, ks1, k);
            lemma_levels_volume_subset(m, ks1.remove(k), ks2.remove(k));
        } else {
            assert(ks1.subset_of(ks2.remove(k)));
            lemma_levels_volume_subset(m, ks1, ks2.remove(k));
        }
    }
}

/// Taking `quantity` out of the level at `key` takes as much out of the total volume of the
/// levels, when `key` is one of them and the other levels keep their volume.
pub(crate) proof fn lemma_levels_volume_take(
    m: Map<u64, LevelState>,
    key: u64,
    id: OrderId,
    quantity: u64,
    hidden: u64,
    visible: u64,
    drop: bool,
    ks: Set<u64>,
    ks2: Set<u64>,
)
    requires
        ks.finite(),
        ks.contains(key),
        m.contains_key(key),
        quantity <= m[key].level.total_volume,
        hidden <= m[key].level.hidden_volume,
        visible <= m[key].level.visible_volume,
        drop ==> m[key].level.orders >= 1,
        ks2 == (if m[key].level.total_volume == quantity { ks.remove(key) } else { ks }),
    ensures
        levels_volume(remove_from_side(m, key, id, quantity, hidden, visible, drop), ks2) == levels_volume(m, ks)
            - quantity,
{
    let n = removed_level(m[key], id, quantity, hidden, visible, drop);
    let m2 = remove_from_side(m, key, id, quantity, hidden, visible, drop);
    let rest = ks.remove(key);
    lemma_levels_volume_remove(m, ks, key);
    assert forall|k: u64| rest.contains(k) implies m2[k].level.total_volume == m[k].level.total_volume by {
        assert(k != key);
    }
    lemma_levels_volume_same(m2, m, rest);
    if m[key].level.total_volume == quantity {
        assert(ks2 == rest);
    } else {
        lemma_levels_volume_remove(m2, ks2, key);
        assert(ks2.remove(key) == rest);
        assert(m2[key] == n);
    }
}

/// The levels within a limit of a finite collection are finitely many.
pub(crate) proof fn lemma_within_keys_finite(m: Map<u64, LevelState>, is_buy: bool, limit: u64)
    requires
        m.dom().finite(),
    ensures
        within_keys(m, is_buy, limit).finite(),
{
    m.dom().lemma_len_filter(|k: u64| within(is_buy, limit, k));
}

/// A collection without levels holds nothing within any limit.
pub(crate) proof fn lemma_depth_empty(m: Map<u64, LevelState>, is_buy: bool, limit: u64)
    requires
        m.dom().is_empty(),
    ensures
        levels_volume(m, within_keys(m, is_buy, limit)) == 0,
{
    assert(within_keys(m, is_buy, limit) =~= Set::empty());
    lemma_levels_volume_empty(m);
}

/// When the levels within a limit hold some volume, the best level is within the limit.
pub(crate) proof fn lemma_depth_best(m: Map<u64, LevelState>, is_buy: bool, limit: u64, best: u64)
    requires
        m.dom().finite(),
        levels_volume(m, within_keys(m, is_buy, limit)) > 0,
        is_buy ==> is_lowest(m, best),
        !is_buy ==> is_highest(m, best),
    ensures
        within(is_buy, limit, best),
{
    let ks = within_keys(m, is_buy, limit);
    lemma_within_keys_finite(m, is_buy, limit);
    if ks.len() == 0 {
        assert(ks =~= Set::empty());
        lemma_levels_volume_empty(m);
    } else {
        let k = ks.choose();
        assert(ks.contains(k));
        assert(m.contains_key(k));
    }
}

/// After `quantity` leaves a level within the limit, the levels within the limit hold that
/// much less.
pub(crate) proof fn lemma_depth_take(
    m: Map<u64, LevelState>,
    is_buy: bool,
    limit: u64,
    key: u64,
    id: OrderId,
    quantity: u64,
    hidden: u64,
    visible: u64,
    drop: bool,
)
    requires
        m.dom().finite(),
        m.contains_key(key),
        within(is_buy, limit, key),
        quantity <= m[key].level.total_volume,
        hidden <= m[key].level.hidden_volume,
        visible <= m[key].level.visible_volume,
        drop ==> m[key].level.orders >= 1,
    ensures
        ({
            let m2 = remove_from_side(m, key, id, quantity, hidden, visible, drop);
            levels_volume(m2, within_keys(m2, is_buy, limit)) == levels_volume(m, within_keys(m, is_buy, limit))
                - quantity
        }),
{
    let m2 = remove_from_side(m, key, id, quantity, hidden, visible, drop);
    let ks = within_keys(m, is_buy, limit);
    lemma_within_keys_finite(m, is_buy, limit);
    let ks2 = if m[key].level.total_volume == quantity { ks.remove(key) } else { ks };
    assert(within_keys(m2, is_buy, limit) =~= ks2);
    lemma_levels_volume_take(m, key, id, quantity, hidden, visible, drop, ks, ks2);
}

/// A level at a new key adds its volume.
pub(crate) proof fn lemma_levels_volume_insert(m: Map<u64, LevelState>, ks: Set<u64>, k: u64)
    requires
        ks.finite(),
        !ks.contains(k),
    ensures
        levels_volume(m, ks.insert(k)) == levels_volume(m, ks) + m[k].level.total_volume,
{
    lemma_levels_volume_remove(m, ks.insert(k), k);
    assert(ks.insert(k).remove(k) =~= ks);
}

/// The keys of a prefix of distinct keys, one longer.
pub(crate) proof fn lemma_prefix_keys(s: Seq<u64>, i: int)
    requires
        0 <= i < s.len(),
        s.no_duplicates(),
    ensures
        s.take(i + 1).to_set() == s.take(i).to_set().insert(s[i]),
        !s.take(i).to_set().contains(s[i]),
        s.take(i).to_set().finite(),
{
    vstd::seq_lib::seq_to_set_is_finite(s.take(i));
    assert(s.take(i + 1) =~= s.take(i).push(s[i]));
    s.take(i).lemma_push_to_set_commute(s[i]);
    if s.take(i).to_set().contains(s[i]) {
        let j = choose|j: int| 0 <= j < s.take(i).len() && #[trigger] s.take(i)[j] == s[i];
        assert(s[j] == s[i]);
    }
}

/// The keys of a suffix of distinct keys, one longer.
pub(crate) proof fn lemma_suffix_keys(s: Seq<u64>, i: int)
    requires
        0 <= i < s.len(),
        s.no_duplicates(),
    ensures
        s.subrange(i, s.len() as int).to_set() == s.subrange(i + 1, s.len() as int).to_set().insert(s[i]),
        !s.subrange(i + 1, s.len() as int).to_set().contains(s[i]),
        s.subrange(i + 1, s.len() as int).to_set().finite(),
{
    let n = s.len() as int;
    vstd::seq_lib::seq_to_set_is_finite(s.subrange(i + 1, n));
    assert(s.subrange(i, n) =~= seq![s[i]] + s.subrange(i + 1, n));
    assert(s.subrange(i, n).to_set() =~= s.subrange(i + 1, n).to_set().insert(s[i])) by {
        assert forall|x: u64| s.subrange(i, n).to_set().contains(x) implies s.subrange(i + 1, n).to_set().insert(s[i]).contains(x) by {
            let j = choose|j: int| 0 <= j < s.subrange(i, n).len() && #[trigger] s.subrange(i, n)[j] == x;
            if j > 0 {
                assert(s.subrange(i + 1, n)[j - 1] == x);
            }
        }
        assert forall|x: u64| s.subrange(i + 1, n).to_set().insert(s[i]).contains(x) implies s.subrange(i, n).to_set().contains(x) by {
            if x == s[i] {
                assert(s.subrange(i, n)[0] == x);
            } else {
                let j = choose|j: int| 0 <= j < s.subrange(i + 1, n).len() && #[trigger] s.subrange(i + 1, n)[j] == x;
                assert(s.subrange(i, n)[j + 1] == x);
            }
        }
    }
    if s.subrange(i + 1, n).to_set().contains(s[i]) {
        let j = choose|j: int| 0 <= j < s.subrange(i + 1, n).len() && #[trigger] s.subrange(i + 1, n)[j] == s[i];
        assert(s[i + 1 + j] == s[i]);
    }
}

} // verus!
