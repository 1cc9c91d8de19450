use vstd::prelude::*;

use crate::matching::error::ErrorCode;
use crate::matching::external::string_push_str;
use crate::matching::text::{decimal, push_decimal};
use crate::matching::types::{OrderSide, OrderTimeInForce, OrderType};

verus! {

/// Order identifier.
pub type OrderId = u64;

/// Sentinel meaning "not set" for the visible quantity and the slippage.
pub const NONE: u64 = 0xffff_ffff_ffff_ffffu64;

/// An order to buy or sell.
#[derive(Debug, Clone, Copy)]
pub struct Order {
    pub id: OrderId,
    pub symbol_id: u32,
    pub order_type: OrderType,
    pub side: OrderSide,
    pub price: u64,
    pub stop_price: u64,
    pub quantity: u64,
    pub executed_quantity: u64,
    pub leaves_quantity: u64,
    pub time_in_force: OrderTimeInForce,
    pub max_visible_quantity: u64,
    pub slippage: u64,
    pub trailing_distance: i64,
    pub trailing_step: i64,
}

impl Order {
    /// The hidden part of the remaining quantity: what exceeds the visible maximum.
    pub open spec fn hidden(self) -> u64 {
        if self.leaves_quantity > self.max_visible_quantity {
            (self.leaves_quantity - self.max_visible_quantity) as u64
        } else {
            0
        }
    }

    /// The visible part of the remaining quantity.
    pub open spec fn visible(self) -> u64 {
        if self.leaves_quantity < self.max_visible_quantity {
            self.leaves_quantity
        } else {
            self.max_visible_quantity
        }
    }

    pub open spec fn spec_is_buy(self) -> bool {
        self.side == OrderSide::Buy
    }

    pub open spec fn spec_is_iceberg(self) -> bool {
        self.max_visible_quantity < NONE
    }

    pub open spec fn spec_is_slippage(self) -> bool {
        self.slippage < NONE
    }

    pub open spec fn spec_is_trailing(self) -> bool {
        self.order_type == OrderType::TrailingStop || self.order_type == OrderType::TrailingStopLimit
    }

    /// The error that validation reports for this order, `Success` when it is valid.
    pub open spec fn validation(self) -> ErrorCode {
        if self.id == 0 {
            ErrorCode::OrderIdInvalid
        } else if self.quantity < self.leaves_quantity || self.leaves_quantity == 0 {
            ErrorCode::OrderQuantityInvalid
        } else if self.order_type == OrderType::Market && (
            (self.time_in_force != OrderTimeInForce::Ioc && self.time_in_force != OrderTimeInForce::Fok)
            || self.spec_is_iceberg()) {
            ErrorCode::OrderParameterInvalid
        } else if (self.order_type == OrderType::Limit || self.order_type == OrderType::StopLimit
            || self.order_type == OrderType::TrailingStopLimit) && self.spec_is_slippage() {
            ErrorCode::OrderParameterInvalid
        } else if (self.order_type == OrderType::Stop || self.order_type == OrderType::TrailingStop)
            && (self.time_in_force == OrderTimeInForce::Aon || self.spec_is_iceberg()) {
            ErrorCode::OrderParameterInvalid
        } else if self.spec_is_trailing() && !trailing_parameters_valid(self.trailing_distance, self.trailing_step) {
            ErrorCode::OrderParameterInvalid
        } else {
            ErrorCode::Success
        }
    }
}

/// Trailing parameters: a positive distance is absolute and the step lies in `[0, distance)`;
/// a negative distance is a percentage in `[-10000, -1]` (0.01%..100%) and the step lies in
/// `[distance, 0]`.
pub open spec fn trailing_parameters_valid(distance: i64, step: i64) -> bool {
    if distance == 0 {
        false
    } else if distance > 0 {
        0 <= step < distance
    } else {
        -10000 <= distance <= -1 && distance <= step <= 0
    }
}

/// Every remaining unit of an order is either hidden or visible.
pub proof fn lemma_hidden_plus_visible(o: Order)
    ensures
        o.hidden() + o.visible() == o.leaves_quantity,
{
}

/// Lowering the remaining quantity never raises the hidden or the visible part.
pub(crate) proof fn lemma_parts_monotone(o: Order, leaves: u64)
    requires
        leaves <= o.leaves_quantity,
    ensures
        (Order { leaves_quantity: leaves, ..o }).hidden() <= o.hidden(),
        (Order { leaves_quantity: leaves, ..o }).visible() <= o.visible(),
{
}

impl Order {
    /// Hidden (non-visible) portion of the remaining quantity.
    pub fn hidden_quantity(&self) -> (r: u64)
        ensures
            r == self.hidden(),
    {
        self.leaves_quantity.saturating_sub(self.max_visible_quantity)
    }

    /// Visible portion of the remaining quantity.
    pub fn visible_quantity(&self) -> (r: u64)
        ensures
            r == self.visible(),
    {
        if self.leaves_quantity < self.max_visible_quantity {
            self.leaves_quantity
        } else {
            self.max_visible_quantity
        }
    }

    pub fn is_market(&self) -> (r: bool)
        ensures
            r == (self.order_type == OrderType::Market),
    {
        self.order_type == OrderType::Market
    }

    pub fn is_limit(&self) -> (r: bool)
        ensures
            r == (self.order_type == OrderType::Limit),
    {
        self.order_type == OrderType::Limit
    }

    pub fn is_stop(&self) -> (r: bool)
        ensures
            r == (self.order_type == OrderType::Stop),
    {
        self.order_type == OrderType::Stop
    }

    pub fn is_stop_limit(&self) -> (r: bool)
        ensures
            r == (self.order_type == OrderType::StopLimit),
    {
        self.order_type == OrderType::StopLimit
    }

    pub fn is_trailing_stop(&self) -> (r: bool)
        ensures
            r == (self.order_type == OrderType::TrailingStop),
    {
        self.order_type == OrderType::TrailingStop
    }

    pub fn is_trailing_stop_limit(&self) -> (r: bool)
        ensures
            r == (self.order_type == OrderType::TrailingStopLimit),
    {
        self.order_type == OrderType::TrailingStopLimit
    }

    pub fn is_buy(&self) -> (r: bool)
        ensures
            r == (self.side == OrderSide::Buy),
    {
        self.side == OrderSide::Buy
    }

    pub fn is_sell(&self) -> (r: bool)
        ensures
            r == (self.side == OrderSide::Sell),
    {
        self.side == OrderSide::Sell
    }

    pub fn is_gtc(&self) -> (r: bool)
        ensures
            r == (self.time_in_force == OrderTimeInForce::Gtc),
    {
        self.time_in_force == OrderTimeInForce::Gtc
    }

    pub fn is_ioc(&self) -> (r: bool)
        ensures
            r == (self.time_in_force == OrderTimeInForce::Ioc),
    {
        self.time_in_force == OrderTimeInForce::Ioc
    }

    pub fn is_fok(&self) -> (r: bool)
        ensures
            r == (self.time_in_force == OrderTimeInForce::Fok),
    {
        self.time_in_force == OrderTimeInForce::Fok
    }

    pub fn is_aon(&self) -> (r: bool)
        ensures
            r == (self.time_in_force == OrderTimeInForce::Aon),
    {
        self.time_in_force == OrderTimeInForce::Aon
    }

    pub fn is_hidden(&self) -> (r: bool)
        ensures
            r == (self.max_visible_quantity == 0),
    {
        self.max_visible_quantity == 0
    }

    pub fn is_iceberg(&self) -> (r: bool)
        ensures
            r == (self.max_visible_quantity < NONE),
    {
        self.max_visible_quantity < NONE
    }

    pub fn is_slippage(&self) -> (r: bool)
        ensures
            r == (self.slippage < NONE),
    {
        self.slippage < NONE
    }
}

impl Order {
    /// Validate order parameters. Returns `ErrorCode::Success` on success.
    pub fn validate(&self) -> (r: ErrorCode)
        ensures
            r == self.validation(),
    {
        if self.id == 0 {
            return ErrorCode::OrderIdInvalid;
        }
        if self.quantity < self.leaves_quantity {
            return ErrorCode::OrderQuantityInvalid;
        }
        if self.leaves_quantity == 0 {
            return ErrorCode::OrderQuantityInvalid;
        }
        match self.order_type {
            OrderType::Market => {
                if self.time_in_force != OrderTimeInForce::Ioc
                    && self.time_in_force != OrderTimeInForce::Fok {
                    return ErrorCode::OrderParameterInvalid;
                }
                if self.is_iceberg() {
                    return ErrorCode::OrderParameterInvalid;
                }
            },
            OrderType::Limit => {
                if self.is_slippage() {
                    return ErrorCode::OrderParameterInvalid;
                }
            },
            OrderType::Stop | OrderType::TrailingStop => {
                if self.is_aon() {
                    return ErrorCode::OrderParameterInvalid;
                }
                if self.is_iceberg() {
                    return ErrorCode::OrderParameterInvalid;
                }
            },
            OrderType::StopLimit | OrderType::TrailingStopLimit => {
                if self.is_slippage() {
                    return ErrorCode::OrderParameterInvalid;
                }
            },
        }
        if self.is_trailing_stop() || self.is_trailing_stop_limit() {
            if self.trailing_distance == 0 {
                return ErrorCode::OrderParameterInvalid;
            }
            if self.trailing_distance > 0 {
                if self.trailing_step < 0 || self.trailing_step >= self.trailing_distance {
                    return ErrorCode::OrderParameterInvalid;
                }
            } else {
                if !(-10_000 <= self.trailing_distance && self.trailing_distance <= -1) {
                    return ErrorCode::OrderParameterInvalid;
                }
                if self.trailing_step > 0 || self.trailing_step < self.trailing_distance {
                    return ErrorCode::OrderParameterInvalid;
                }
            }
        }
        ErrorCode::Success
    }

    /// The display text:
    /// `Order(<id> <side> <type> <time in force> @ <price> qty=<q> exec=<e> leaves=<l>)`.
    pub open spec fn text(self) -> Seq<char> {
        "Order("@ + decimal(self.id as nat) + " "@ + self.side.name() + " "@ + self.order_type.name() + " "@
            + self.time_in_force.name() + " @ "@ + decimal(self.price as nat) + " qty="@ + decimal(
            self.quantity as nat,
        ) + " exec="@ + decimal(self.executed_quantity as nat) + " leaves="@ + decimal(
            self.leaves_quantity as nat,
        ) + ")"@
    }

    /// The display text of the order.
    pub fn to_text(&self) -> (r: String)
        ensures
            r@ == self.text(),
    {
        let mut r = String::new();
        string_push_str(&mut r, "Order(");
        push_decimal(&mut r, self.id);
        string_push_str(&mut r, " ");
        string_push_str(&mut r, self.side.as_str());
        string_push_str(&mut r, " ");
        string_push_str(&mut r, self.order_type.as_str());
        string_push_str(&mut r, " ");
        string_push_str(&mut r, self.time_in_force.as_str());
        string_push_str(&mut r, " @ ");
        push_decimal(&mut r, self.price);
        string_push_str(&mut r, " qty=");
        push_decimal(&mut r, self.quantity);
        string_push_str(&mut r, " exec=");
        push_decimal(&mut r, self.executed_quantity);
        string_push_str(&mut r, " leaves=");
        push_decimal(&mut r, self.leaves_quantity);
        string_push_str(&mut r, ")");
        proof {
            assert(r@ =~= self.text());
        }
        r
    }
}

impl Order {
    /// Market order.
    pub fn market(id: OrderId, symbol_id: u32, side: OrderSide, quantity: u64, slippage: u64) -> (r: Self)
        ensures
            r == (Order { id: id, symbol_id: symbol_id, order_type: OrderType::Market, side: side, price: 0, stop_price: 0, quantity: quantity, executed_quantity: 0, leaves_quantity: quantity, time_in_force: OrderTimeInForce::Ioc, max_visible_quantity: NONE, slippage: slippage, trailing_distance: 0, trailing_step: 0 }),
    {
        Order { id: id, symbol_id: symbol_id, order_type: OrderType::Market, side: side, price: 0, stop_price: 0, quantity: quantity, executed_quantity: 0, leaves_quantity: quantity, time_in_force: OrderTimeInForce::Ioc, max_visible_quantity: NONE, slippage: slippage, trailing_distance: 0, trailing_step: 0 }
    }

    pub fn buy_market(id: OrderId, symbol_id: u32, quantity: u64, slippage: u64) -> (r: Self)
        ensures
            r == (Order { id: id, symbol_id: symbol_id, order_type: OrderType::Market, side: OrderSide::Buy, price: 0, stop_price: 0, quantity: quantity, executed_quantity: 0, leaves_quantity: quantity, time_in_force: OrderTimeInForce::Ioc, max_visible_quantity: NONE, slippage: slippage, trailing_distance: 0, trailing_step: 0 }),
    {
        Self::market(id, symbol_id, OrderSide::Buy, quantity, slippage)
    }

    pub fn sell_market(id: OrderId, symbol_id: u32, quantity: u64, slippage: u64) -> (r: Self)
        ensures
            r == (Order { id: id, symbol_id: symbol_id, order_type: OrderType::Market, side: OrderSide::Sell, price: 0, stop_price: 0, quantity: quantity, executed_quantity: 0, leaves_quantity: quantity, time_in_force: OrderTimeInForce::Ioc, max_visible_quantity: NONE, slippage: slippage, trailing_distance: 0, trailing_step: 0 }),
    {
        Self::market(id, symbol_id, OrderSide::Sell, quantity, slippage)
    }

    /// Limit order.
    pub fn limit(id: OrderId, symbol_id: u32, side: OrderSide, price: u64, quantity: u64, tif: OrderTimeInForce, max_visible_quantity: u64) -> (r: Self)
        ensures
            r == (Order { id: id, symbol_id: symbol_id, order_type: OrderType::Limit, side: side, price: price, stop_price: 0, quantity: quantity, executed_quantity: 0, leaves_quantity: quantity, time_in_force: tif, max_visible_quantity: max_visible_quantity, slippage: NONE, trailing_distance: 0, trailing_step: 0 }),
    {
        Order { id: id, symbol_id: symbol_id, order_type: OrderType::Limit, side: side, price: price, stop_price: 0, quantity: quantity, executed_quantity: 0, leaves_quantity: quantity, time_in_force: tif, max_visible_quantity: max_visible_quantity, slippage: NONE, trailing_distance: 0, trailing_step: 0 }
    }

    pub fn buy_limit(id: OrderId, symbol_id: u32, price: u64, quantity: u64, tif: OrderTimeInForce, max_visible_quantity: u64) -> (r: Self)
        ensures
            r == (Order { id: id, symbol_id: symbol_id, order_type: OrderType::Limit, side: OrderSide::Buy, price: price, stop_price: 0, quantity: quantity, executed_quantity: 0, leaves_quantity: quantity, time_in_force: tif, max_visible_quantity: max_visible_quantity, slippage: NONE, trailing_distance: 0, trailing_step: 0 }),
    {
        Self::limit(id, symbol_id, OrderSide::Buy, price, quantity, tif, max_visible_quantity)
    }

    pub fn sell_limit(id: OrderId, symbol_id: u32, price: u64, quantity: u64, tif: OrderTimeInForce, max_visible_quantity: u64) -> (r: Self)
        ensures
            r == (Order { id: id, symbol_id: symbol_id, order_type: OrderType::Limit, side: OrderSide::Sell, price: price, stop_price: 0, quantity: quantity, executed_quantity: 0, leaves_quantity: quantity, time_in_force: tif, max_visible_quantity: max_visible_quantity, slippage: NONE, trailing_distance: 0, trailing_step: 0 }),
    {
        Self::limit(id, symbol_id, OrderSide::Sell, price, quantity, tif, max_visible_quantity)
    }

    /// Stop order.
    pub fn stop(id: OrderId, symbol_id: u32, side: OrderSide, stop_price: u64, quantity: u64, tif: OrderTimeInForce, slippage: u64) -> (r: Self)
        ensures
            r == (Order { id: id, symbol_id: symbol_id, order_type: OrderType::Stop, side: side, price: 0, stop_price: stop_price, quantity: quantity, executed_quantity: 0, leaves_quantity: quantity, time_in_force: tif, max_visible_quantity: NONE, slippage: slippage, trailing_distance: 0, trailing_step: 0 }),
    {
        Order { id: id, symbol_id: symbol_id, order_type: OrderType::Stop, side: side, price: 0, stop_price: stop_price, quantity: quantity, executed_quantity: 0, leaves_quantity: quantity, time_in_force: tif, max_visible_quantity: NONE, slippage: slippage, trailing_distance: 0, trailing_step: 0 }
    }

    pub fn buy_stop(id: OrderId, symbol_id: u32, stop_price: u64, quantity: u64, tif: OrderTimeInForce, slippage: u64) -> (r: Self)
        ensures
            r == (Order { id: id, symbol_id: symbol_id, order_type: OrderType::Stop, side: OrderSide::Buy, price: 0, stop_price: stop_price, quantity: quantity, executed_quantity: 0, leaves_quantity: quantity, time_in_force: tif, max_visible_quantity: NONE, slippage: slippage, trailing_distance: 0, trailing_step: 0 }),
    {
        Self::stop(id, symbol_id, OrderSide::Buy, stop_price, quantity, tif, slippage)
    }

    pub fn sell_stop(id: OrderId, symbol_id: u32, stop_price: u64, quantity: u64, tif: OrderTimeInForce, slippage: u64) -> (r: Self)
        ensures
            r == (Order { id: id, symbol_id: symbol_id, order_type: OrderType::Stop, side: OrderSide::Sell, price: 0, stop_price: stop_price, quantity: quantity, executed_quantity: 0, leaves_quantity: quantity, time_in_force: tif, max_visible_quantity: NONE, slippage: slippage, trailing_distance: 0, trailing_step: 0 }),
    {
        Self::stop(id, symbol_id, OrderSide::Sell, stop_price, quantity, tif, slippage)
    }

    /// Stop-limit order.
    pub fn stop_limit(id: OrderId, symbol_id: u32, side: OrderSide, stop_price: u64, price: u64, quantity: u64, tif: OrderTimeInForce, max_visible_quantity: u64) -> (r: Self)
        ensures
            r == (Order { id: id, symbol_id: symbol_id, order_type: OrderType::StopLimit, side: side, price: price, stop_price: stop_price, quantity: quantity, executed_quantity: 0, leaves_quantity: quantity, time_in_force: tif, max_visible_quantity: max_visible_quantity, slippage: NONE, trailing_distance: 0, trailing_step: 0 }),
    {
        Order { id: id, symbol_id: symbol_id, order_type: OrderType::StopLimit, side: side, price: price, stop_price: stop_price, quantity: quantity, executed_quantity: 0, leaves_quantity: quantity, time_in_force: tif, max_visible_quantity: max_visible_quantity, slippage: NONE, trailing_distance: 0, trailing_step: 0 }
    }

    pub fn buy_stop_limit(id: OrderId, symbol_id: u32, stop_price: u64, price: u64, quantity: u64, tif: OrderTimeInForce, max_visible_quantity: u64) -> (r: Self)
        ensures
            r == (Order { id: id, symbol_id: symbol_id, order_type: OrderType::StopLimit, side: OrderSide::Buy, price: price, stop_price: stop_price, quantity: quantity, executed_quantity: 0, leaves_quantity: quantity, time_in_force: tif, max_visible_quantity: max_visible_quantity, slippage: NONE, trailing_distance: 0, trailing_step: 0 }),
    {
        Self::stop_limit(id, symbol_id, OrderSide::Buy, stop_price, price, quantity, tif, max_visible_quantity)
    }

    pub fn sell_stop_limit(id: OrderId, symbol_id: u32, stop_price: u64, price: u64, quantity: u64, tif: OrderTimeInForce, max_visible_quantity: u64) -> (r: Self)
        ensures
            r == (Order { id: id, symbol_id: symbol_id, order_type: OrderType::StopLimit, side: OrderSide::Sell, price: price, stop_price: stop_price, quantity: quantity, executed_quantity: 0, leaves_quantity: quantity, time_in_force: tif, max_visible_quantity: max_visible_quantity, slippage: NONE, trailing_distance: 0, trailing_step: 0 }),
    {
        Self::stop_limit(id, symbol_id, OrderSide::Sell, stop_price, price, quantity, tif, max_visible_quantity)
    }

    /// Trailing-stop order.
    pub fn trailing_stop(id: OrderId, symbol_id: u32, side: OrderSide, stop_price: u64, quantity: u64, trailing_distance: i64, trailing_step: i64, tif: OrderTimeInForce, slippage: u64) -> (r: Self)
        ensures
            r == (Order { id: id, symbol_id: symbol_id, order_type: OrderType::TrailingStop, side: side, price: 0, stop_price: stop_price, quantity: quantity, executed_quantity: 0, leaves_quantity: quantity, time_in_force: tif, max_visible_quantity: NONE, slippage: slippage, trailing_distance: trailing_distance, trailing_step: trailing_step }),
    {
        Order { id: id, symbol_id: symbol_id, order_type: OrderType::TrailingStop, side: side, price: 0, stop_price: stop_price, quantity: quantity, executed_quantity: 0, leaves_quantity: quantity, time_in_force: tif, max_visible_quantity: NONE, slippage: slippage, trailing_distance: trailing_distance, trailing_step: trailing_step }
    }

    pub fn trailing_buy_stop(id: OrderId, symbol_id: u32, stop_price: u64, quantity: u64, trailing_distance: i64, trailing_step: i64, tif: OrderTimeInForce, slippage: u64) -> (r: Self)
        ensures
            r == (Order { id: id, symbol_id: symbol_id, order_type: OrderType::TrailingStop, side: OrderSide::Buy, price: 0, stop_price: stop_price, quantity: quantity, executed_quantity: 0, leaves_quantity: quantity, time_in_force: tif, max_visible_quantity: NONE, slippage: slippage, trailing_distance: trailing_distance, trailing_step: trailing_step }),
    {
        Self::trailing_stop(id, symbol_id, OrderSide::Buy, stop_price, quantity, trailing_distance, trailing_step, tif, slippage)
    }

    pub fn trailing_sell_stop(id: OrderId, symbol_id: u32, stop_price: u64, quantity: u64, trailing_distance: i64, trailing_step: i64, tif: OrderTimeInForce, slippage: u64) -> (r: Self)
        ensures
            r == (Order { id: id, symbol_id: symbol_id, order_type: OrderType::TrailingStop, side: OrderSide::Sell, price: 0, stop_price: stop_price, quantity: quantity, executed_quantity: 0, leaves_quantity: quantity, time_in_force: tif, max_visible_quantity: NONE, slippage: slippage, trailing_distance: trailing_distance, trailing_step: trailing_step }),
    {
        Self::trailing_stop(id, symbol_id, OrderSide::Sell, stop_price, quantity, trailing_distance, trailing_step, tif, slippage)
    }

    /// Trailing-stop-limit order.
    pub fn trailing_stop_limit(id: OrderId, symbol_id: u32, side: OrderSide, stop_price: u64, price: u64, quantity: u64, trailing_distance: i64, trailing_step: i64, tif: OrderTimeInForce, max_visible_quantity: u64) -> (r: Self)
        ensures
            r == (Order { id: id, symbol_id: symbol_id, order_type: OrderType::TrailingStopLimit, side: side, price: price, stop_price: stop_price, quantity: quantity, executed_quantity: 0, leaves_quantity: quantity, time_in_force: tif, max_visible_quantity: max_visible_quantity, slippage: NONE, trailing_distance: trailing_distance, trailing_step: trailing_step }),
    {
        Order { id: id, symbol_id: symbol_id, order_type: OrderType::TrailingStopLimit, side: side, price: price, stop_price: stop_price, quantity: quantity, executed_quantity: 0, leaves_quantity: quantity, time_in_force: tif, max_visible_quantity: max_visible_quantity, slippage: NONE, trailing_distance: trailing_distance, trailing_step: trailing_step }
    }

    pub fn trailing_buy_stop_limit(id: OrderId, symbol_id: u32, stop_price: u64, price: u64, quantity: u64, trailing_distance: i64, trailing_step: i64, tif: OrderTimeInForce, max_visible_quantity: u64) -> (r: Self)
        ensures
            r == (Order { id: id, symbol_id: symbol_id, order_type: OrderType::TrailingStopLimit, side: OrderSide::Buy, price: price, stop_price: stop_price, quantity: quantity, executed_quantity: 0, leaves_quantity: quantity, time_in_force: tif, max_visible_quantity: max_visible_quantity, slippage: NONE, trailing_distance: trailing_distance, trailing_step: trailing_step }),
    {
        Self::trailing_stop_limit(id, symbol_id, OrderSide::Buy, stop_price, price, quantity, trailing_distance, trailing_step, tif, max_visible_quantity)
    }

    pub fn trailing_sell_stop_limit(id: OrderId, symbol_id: u32, stop_price: u64, price: u64, quantity: u64, trailing_distance: i64, trailing_step: i64, tif: OrderTimeInForce, max_visible_quantity: u64) -> (r: Self)
        ensures
            r == (Order { id: id, symbol_id: symbol_id, order_type: OrderType::TrailingStopLimit, side: OrderSide::Sell, price: price, stop_price: stop_price, quantity: quantity, executed_quantity: 0, leaves_quantity: quantity, time_in_force: tif, max_visible_quantity: max_visible_quantity, slippage: NONE, trailing_distance: trailing_distance, trailing_step: trailing_step }),
    {
        Self::trailing_stop_limit(id, symbol_id, OrderSide::Sell, stop_price, price, quantity, trailing_distance, trailing_step, tif, max_visible_quantity)
    }

}

} // verus!
