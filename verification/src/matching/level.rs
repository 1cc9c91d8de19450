use vstd::prelude::*;

use crate::matching::external::string_push_str;
use crate::matching::text::{decimal, push_decimal};
use crate::matching::types::{LevelType, UpdateType};

verus! {

/// A price level in the order book.
#[derive(Debug, Clone, Copy)]
pub struct Level {
    pub level_type: LevelType,
    pub price: u64,
    pub total_volume: u64,
    pub hidden_volume: u64,
    pub visible_volume: u64,
    pub orders: usize,
}

/// An empty level of the given type at the given price.
pub open spec fn empty_level(level_type: LevelType, price: u64) -> Level {
    Level {
        level_type,
        price,
        total_volume: 0,
        hidden_volume: 0,
        visible_volume: 0,
        orders: 0,
    }
}

impl Level {
    pub fn new(level_type: LevelType, price: u64) -> (r: Self)
        ensures
            r == empty_level(level_type, price),
    {
        Self { level_type, price, total_volume: 0, hidden_volume: 0, visible_volume: 0, orders: 0 }
    }

    pub fn is_bid(&self) -> (r: bool)
        ensures
            r == (self.level_type == LevelType::Bid),
    {
        self.level_type == LevelType::Bid
    }

    pub fn is_ask(&self) -> (r: bool)
        ensures
            r == (self.level_type == LevelType::Ask),
    {
        self.level_type == LevelType::Ask
    }

    /// The display text: `Level(<type> <price> vol=<total volume> orders=<count>)`.
    pub open spec fn text(self) -> Seq<char> {
        "Level("@ + self.level_type.name() + " "@ + decimal(self.price as nat) + " vol="@ + decimal(
            self.total_volume as nat,
        ) + " orders="@ + decimal(self.orders as nat) + ")"@
    }

    /// The display text of the level.
    pub fn to_text(&self) -> (r: String)
        ensures
            r@ == self.text(),
    {
        let mut r = String::new();
        string_push_str(&mut r, "Level(");
        string_push_str(&mut r, self.level_type.as_str());
        string_push_str(&mut r, " ");
        push_decimal(&mut r, self.price);
        string_push_str(&mut r, " vol=");
        push_decimal(&mut r, self.total_volume);
        string_push_str(&mut r, " orders=");
        push_decimal(&mut r, self.orders as u64);
        string_push_str(&mut r, ")");
        proof {
            assert(r@ =~= self.text());
        }
        r
    }
}

/// Notification about a price-level change.
#[derive(Debug, Clone, Copy)]
pub struct LevelUpdate {
    pub update_type: UpdateType,
    pub level: Level,
    pub top: bool,
}

impl LevelUpdate {
    pub fn new(update_type: UpdateType, level: Level, top: bool) -> (r: Self)
        ensures
            r == (LevelUpdate { update_type, level, top }),
    {
        Self { update_type, level, top }
    }
}

} // verus!
