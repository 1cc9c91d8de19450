use vstd::prelude::*;

use crate::matching::level::Level;
use crate::matching::order::Order;
use crate::matching::order_book::OrderBook;
use crate::matching::symbol::Symbol;

verus! {

/// Market event handler.
///
/// Implement this trait to receive callbacks from the market manager. All methods have
/// default no-op implementations: override only what you need.
pub trait MarketHandler {
    // Symbol events
    fn on_add_symbol(&mut self, symbol: &Symbol) {
    }

    fn on_delete_symbol(&mut self, symbol: &Symbol) {
    }

    // Order-book events
    fn on_add_order_book(&mut self, order_book: &OrderBook) {
    }

    fn on_update_order_book(&mut self, order_book: &OrderBook, top: bool) {
    }

    fn on_delete_order_book(&mut self, order_book: &OrderBook) {
    }

    // Price-level events
    fn on_add_level(&mut self, order_book: &OrderBook, level: &Level, top: bool) {
    }

    fn on_update_level(&mut self, order_book: &OrderBook, level: &Level, top: bool) {
    }

    fn on_delete_level(&mut self, order_book: &OrderBook, level: &Level, top: bool) {
    }

    // Order events
    fn on_add_order(&mut self, order: &Order) {
    }

    fn on_update_order(&mut self, order: &Order) {
    }

    fn on_delete_order(&mut self, order: &Order) {
    }

    // Execution event
    fn on_execute_order(&mut self, order: &Order, price: u64, quantity: u64) {
    }
}

/// Default no-op handler.
pub struct NoOpHandler;

impl MarketHandler for NoOpHandler {
}

} // verus!
