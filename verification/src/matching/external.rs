use std::collections::BTreeMap;
use vstd::prelude::*;

use crate::matching::order::{Order, OrderId};
use crate::matching::text::utf8_text;

verus! {

/// `BTreeMap::last_key_value`: the standard library documents that the returned key is the
/// maximum key of the map, paired with its value, and that `None` comes back only for an
/// empty map. That is what this contract claims.
#[verifier::external_body]
pub(crate) fn btree_last<V>(m: &BTreeMap<u64, V>) -> (r: Option<(u64, &V)>)
    ensures
        match r {
            None => m@.dom().is_empty(),
            Some((k, v)) => {
                &&& m@.contains_key(k)
                &&& m@[k] == *v
                &&& forall|j: u64| m@.contains_key(j) ==> j <= k
            },
        },
{
    match m.last_key_value() {
        Some((k, v)) => Some((*k, v)),
        None => None,
    }
}

/// `BTreeMap::first_key_value`: the standard library documents that the returned key is the
/// minimum key of the map, paired with its value, and that `None` comes back only for an
/// empty map. That is what this contract claims.
#[verifier::external_body]
pub(crate) fn btree_first<V>(m: &BTreeMap<u64, V>) -> (r: Option<(u64, &V)>)
    ensures
        match r {
            None => m@.dom().is_empty(),
            Some((k, v)) => {
                &&& m@.contains_key(k)
                &&& m@[k] == *v
                &&& forall|j: u64| m@.contains_key(j) ==> k <= j
            },
        },
{
    match m.first_key_value() {
        Some((k, v)) => Some((*k, v)),
        None => None,
    }
}

/// `String::push`: the standard library documents that the character is appended at the
/// end of the string. That is what this contract claims.
#[verifier::external_body]
pub(crate) fn string_push(s: &mut String, c: char)
    ensures
        final(s)@ == old(s)@.push(c),
{
    s.push(c);
}

/// `String::push_str`: the standard library documents that the slice is appended at the
/// end of the string. That is what this contract claims.
#[verifier::external_body]
pub(crate) fn string_push_str(s: &mut String, t: &str)
    ensures
        final(s)@ == old(s)@ + t@,
{
    s.push_str(t);
}

/// `std::str::from_utf8`: the standard library documents that it gives the text that the
/// bytes encode when they are valid UTF-8 and an error otherwise. This contract claims that,
/// with validity and decoding as vstd's `valid_utf8` and `decode_utf8` define them.
#[verifier::external_body]
pub(crate) fn utf8_decode<'a>(bytes: &'a [u8]) -> (r: Option<&'a str>)
    ensures
        match r {
            Some(s) => utf8_text(bytes@) == Some(s@),
            None => utf8_text(bytes@) is None,
        },
{
    match std::str::from_utf8(bytes) {
        Ok(s) => Some(s),
        Err(_) => None,
    }
}

/// The orders that a market manager holds, keyed by id, in a `hashbrown::HashMap`. The map
/// type sits in a private field: its allocator parameter is bounded by a trait of the
/// `allocator-api2` crate, which this library does not depend on, so the type itself cannot
/// be declared here.
#[verifier::external_body]
pub struct OrderTable {
    map: hashbrown::HashMap<OrderId, Order>,
}

/// What the table holds: the order stored under each id.
pub uninterp spec fn table_contents(t: OrderTable) -> Map<OrderId, Order>;

/// `hashbrown::HashMap::new`: an empty map.
#[verifier::external_body]
pub(crate) fn table_new() -> (r: OrderTable)
    ensures
        table_contents(r).dom().is_empty(),
{
    OrderTable { map: hashbrown::HashMap::new() }
}

/// `hashbrown::HashMap::len`: the number of entries.
#[verifier::external_body]
pub(crate) fn table_len(t: &OrderTable) -> (r: usize)
    ensures
        r == table_contents(*t).len(),
{
    t.map.len()
}

/// `hashbrown::HashMap::get`: the value stored under the key, if any.
#[verifier::external_body]
pub(crate) fn table_get(t: &OrderTable, id: OrderId) -> (r: Option<&Order>)
    ensures
        match r {
            Some(o) => table_contents(*t).contains_key(id) && *o == table_contents(*t)[id],
            None => !table_contents(*t).contains_key(id),
        },
{
    t.map.get(&id)
}

/// `hashbrown::HashMap::contains_key`: whether a value is stored under the key.
#[verifier::external_body]
pub(crate) fn table_contains(t: &OrderTable, id: OrderId) -> (r: bool)
    ensures
        r == table_contents(*t).contains_key(id),
{
    t.map.contains_key(&id)
}

/// `hashbrown::HashMap::insert`: the key now maps to the value; the value it replaced, if
/// any, comes back.
#[verifier::external_body]
pub(crate) fn table_insert(t: &mut OrderTable, id: OrderId, order: Order) -> (r: Option<Order>)
    ensures
        table_contents(*final(t)) == table_contents(*old(t)).insert(id, order),
        match r {
            Some(o) => table_contents(*old(t)).contains_key(id) && o == table_contents(*old(t))[id],
            None => !table_contents(*old(t)).contains_key(id),
        },
{
    t.map.insert(id, order)
}

/// `hashbrown::HashMap::remove`: the key no longer maps to anything; its value, if any,
/// comes back.
#[verifier::external_body]
pub(crate) fn table_remove(t: &mut OrderTable, id: OrderId) -> (r: Option<Order>)
    ensures
        table_contents(*final(t)) == table_contents(*old(t)).remove(id),
        match r {
            Some(o) => table_contents(*old(t)).contains_key(id) && o == table_contents(*old(t))[id],
            None => !table_contents(*old(t)).contains_key(id),
        },
{
    t.map.remove(&id)
}

/// `hashbrown::HashMap::iter`, collected: every entry once, in an order that the map does
/// not promise (it depends on the hasher's seed). Only what holds of every order is stated.
#[verifier::external_body]
pub(crate) fn table_entries(t: &OrderTable) -> (r: Vec<(OrderId, Order)>)
    ensures
        r@.len() == table_contents(*t).len(),
        forall|i: int| 0 <= i < r@.len() ==> table_contents(*t).contains_key(#[trigger] r@[i].0)
            && table_contents(*t)[r@[i].0] == r@[i].1,
        forall|i: int, j: int| 0 <= i < r@.len() && 0 <= j < r@.len() && i != j ==> r@[i].0 != r@[j].0,
        forall|id: OrderId| #[trigger] table_contents(*t).contains_key(id) ==> exists|i: int| 0 <= i < r@.len() && r@[i].0 == id,
{
    t.map.iter().map(|(id, order)| (*id, *order)).collect()
}

} // verus!
