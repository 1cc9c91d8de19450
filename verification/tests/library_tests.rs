use cpptrader::matching::market_manager::MarketManager;
use cpptrader::matching::order::Order;
use cpptrader::matching::order_book::OrderBook;
use cpptrader::matching::symbol::Symbol;
use cpptrader::matching::text::push_decimal;
use cpptrader::matching::types::{LevelType, OrderSide, OrderTimeInForce, OrderType, UpdateType};
use cpptrader::{ErrorCode, Level};

const NONE: u64 = u64::MAX;

fn symbol(id: u32, name: &[u8; 8]) -> Symbol {
    Symbol::new(id, name)
}

fn manager_with_book() -> MarketManager {
    let mut mm = MarketManager::with_default_handler();
    let s = symbol(0, b"AAPL\0\0\0\0");
    mm.add_symbol(s).unwrap();
    mm.add_order_book(&s).unwrap();
    mm
}

fn best_prices(mm: &MarketManager) -> (Option<u64>, Option<u64>) {
    let ob = mm.get_order_book(0).unwrap();
    (ob.best_bid().map(|l| l.level.price), ob.best_ask().map(|l| l.level.price))
}

// ---------------------------------------------------------------------------
//  Matching leaves books uncrossed
// ---------------------------------------------------------------------------

#[test]
fn crossed_book_is_uncrossed_by_enable_matching() {
    let mut mm = manager_with_book();
    mm.add_order(Order::buy_limit(1, 0, 50, 10, OrderTimeInForce::Gtc, NONE)).unwrap();
    mm.add_order(Order::buy_limit(2, 0, 45, 10, OrderTimeInForce::Gtc, NONE)).unwrap();
    mm.add_order(Order::sell_limit(3, 0, 40, 15, OrderTimeInForce::Gtc, NONE)).unwrap();
    mm.add_order(Order::sell_limit(4, 0, 48, 10, OrderTimeInForce::Gtc, NONE)).unwrap();
    assert_eq!(best_prices(&mm), (Some(50), Some(40)));

    mm.enable_matching();
    let (bid, ask) = best_prices(&mm);
    assert!(bid.unwrap() < ask.unwrap());
    // 1 (the smaller) executes 10 at its own price against 3; the 5 left of 3 then
    // execute against 2
    assert!(mm.get_order(1).is_none());
    assert!(mm.get_order(3).is_none());
    assert_eq!(mm.get_order(2).unwrap().leaves_quantity, 5);
    assert_eq!(bid, Some(45));
    assert_eq!(ask, Some(48));
}

#[test]
fn crossing_limit_order_trades_then_rests_behind_opposite_side() {
    let mut mm = manager_with_book();
    mm.enable_matching();
    mm.add_order(Order::sell_limit(1, 0, 100, 5, OrderTimeInForce::Gtc, NONE)).unwrap();
    mm.add_order(Order::sell_limit(2, 0, 101, 5, OrderTimeInForce::Gtc, NONE)).unwrap();
    mm.add_order(Order::buy_limit(3, 0, 101, 12, OrderTimeInForce::Gtc, NONE)).unwrap();
    // both asks are taken and 2 remain at 101 on the bid side
    assert_eq!(best_prices(&mm), (Some(101), None));
    assert_eq!(mm.get_order(3).unwrap().leaves_quantity, 2);
    assert_eq!(mm.get_order(3).unwrap().executed_quantity, 10);
}

#[test]
fn crossing_orders_of_equal_size_both_leave() {
    let mut mm = manager_with_book();
    mm.enable_matching();
    mm.add_order(Order::sell_limit(1, 0, 100, 5, OrderTimeInForce::Gtc, NONE)).unwrap();
    mm.add_order(Order::buy_limit(2, 0, 110, 5, OrderTimeInForce::Gtc, NONE)).unwrap();
    let ob = mm.get_order_book(0).unwrap();
    assert!(ob.best_bid().is_none());
    assert!(ob.best_ask().is_none());
    assert_eq!(mm.order_count(), 0);
}

#[test]
fn all_or_none_order_that_cannot_fill_keeps_the_book_crossed() {
    let mut mm = manager_with_book();
    mm.add_order(Order::buy_limit(1, 0, 50, 100, OrderTimeInForce::Aon, NONE)).unwrap();
    mm.add_order(Order::sell_limit(2, 0, 40, 10, OrderTimeInForce::Gtc, NONE)).unwrap();
    mm.enable_matching();
    assert_eq!(best_prices(&mm), (Some(50), Some(40)));
    assert_eq!(mm.order_count(), 2);
}

#[test]
fn activated_stop_limit_order_rests_uncrossed() {
    let mut mm = manager_with_book();
    mm.enable_matching();
    mm.add_order(Order::sell_limit(1, 0, 100, 5, OrderTimeInForce::Gtc, NONE)).unwrap();
    mm.add_order(Order::sell_limit(2, 0, 103, 5, OrderTimeInForce::Gtc, NONE)).unwrap();
    // the buy stop level at 101 is reached by the ask at 100: the stop-limit order becomes
    // a limit order at 101, takes the 5 at 100 and rests with 3 below the ask at 103
    mm.add_order(Order::buy_stop_limit(3, 0, 101, 101, 8, OrderTimeInForce::Gtc, NONE)).unwrap();
    let o = mm.get_order(3).unwrap();
    assert_eq!(o.order_type, OrderType::Limit);
    assert_eq!(o.leaves_quantity, 3);
    assert_eq!(o.executed_quantity, 5);
    assert!(mm.get_order(1).is_none());
    assert_eq!(best_prices(&mm), (Some(101), Some(103)));
}

#[test]
fn matching_gives_no_quantity_back() {
    let mut mm = manager_with_book();
    mm.enable_matching();
    mm.add_order(Order::sell_limit(1, 0, 100, 4, OrderTimeInForce::Gtc, NONE)).unwrap();
    mm.add_order(Order::sell_limit(2, 0, 101, 6, OrderTimeInForce::Gtc, NONE)).unwrap();
    mm.add_order(Order::buy_limit(3, 0, 90, 6, OrderTimeInForce::Gtc, NONE)).unwrap();
    let before = mm.iter_orders();
    mm.add_order(Order::buy_limit(4, 0, 101, 7, OrderTimeInForce::Gtc, NONE)).unwrap();
    for (id, old) in before {
        if let Some(now) = mm.get_order(id) {
            assert!(now.leaves_quantity <= old.leaves_quantity);
            assert!(now.executed_quantity >= old.executed_quantity);
        }
    }
    // 4 took all of 1 and 3 of 2
    assert!(mm.get_order(1).is_none());
    assert_eq!(mm.get_order(2).unwrap().leaves_quantity, 3);
    assert_eq!(mm.get_order(2).unwrap().executed_quantity, 3);
    assert!(mm.get_order(4).is_none());
}

#[test]
fn all_or_none_order_trades_whole_or_not_at_all() {
    let mut mm = manager_with_book();
    mm.enable_matching();
    mm.add_order(Order::sell_limit(1, 0, 100, 5, OrderTimeInForce::Gtc, NONE)).unwrap();
    mm.add_order(Order::sell_limit(2, 0, 101, 5, OrderTimeInForce::Gtc, NONE)).unwrap();
    // 12 wanted, 10 within 101: nothing trades and the order rests whole
    mm.add_order(Order::buy_limit(3, 0, 101, 12, OrderTimeInForce::Aon, NONE)).unwrap();
    assert_eq!(mm.get_order(1).unwrap().leaves_quantity, 5);
    assert_eq!(mm.get_order(2).unwrap().leaves_quantity, 5);
    assert_eq!(mm.get_order(3).unwrap().leaves_quantity, 12);
    // 10 wanted, 10 within 101: it fills completely
    mm.add_order(Order::buy_limit(4, 0, 101, 10, OrderTimeInForce::Aon, NONE)).unwrap();
    assert!(mm.get_order(4).is_none());
    assert!(mm.get_order(1).is_none());
    assert!(mm.get_order(2).is_none());
    assert_eq!(mm.get_order(3).unwrap().leaves_quantity, 12);
}

#[test]
fn fill_or_kill_order_trades_whole_or_not_at_all() {
    let mut mm = manager_with_book();
    mm.enable_matching();
    mm.add_order(Order::buy_limit(1, 0, 50, 4, OrderTimeInForce::Gtc, NONE)).unwrap();
    mm.add_order(Order::buy_limit(2, 0, 49, 4, OrderTimeInForce::Gtc, NONE)).unwrap();
    mm.add_order(Order::sell_limit(3, 0, 49, 9, OrderTimeInForce::Fok, NONE)).unwrap();
    assert_eq!(mm.get_order(1).unwrap().leaves_quantity, 4);
    assert_eq!(mm.get_order(2).unwrap().leaves_quantity, 4);
    assert!(mm.get_order(3).is_none());
    mm.add_order(Order::sell_limit(4, 0, 49, 8, OrderTimeInForce::Fok, NONE)).unwrap();
    assert_eq!(mm.order_count(), 0);
}

// ---------------------------------------------------------------------------
//  Add, then delete
// ---------------------------------------------------------------------------

#[test]
fn add_then_delete_gives_back_the_orders() {
    let mut mm = manager_with_book();
    mm.add_order(Order::buy_limit(1, 0, 10, 10, OrderTimeInForce::Gtc, NONE)).unwrap();
    let before = mm.order_count();
    mm.add_order(Order::buy_limit(2, 0, 11, 7, OrderTimeInForce::Gtc, NONE)).unwrap();
    assert_eq!(mm.order_count(), before + 1);
    mm.delete_order(2).unwrap();
    assert_eq!(mm.order_count(), before);
    assert!(mm.get_order(2).is_none());
    assert_eq!(mm.get_order(1).unwrap().leaves_quantity, 10);
    let ob = mm.get_order_book(0).unwrap();
    assert_eq!(ob.bids().len(), 1);
    assert_eq!(ob.best_bid().unwrap().level.price, 10);
}

#[test]
fn order_book_add_then_delete_gives_back_the_levels() {
    let mut ob = OrderBook::new(symbol(7, b"MSFT\0\0\0\0"));
    let resting = Order::sell_limit(1, 7, 20, 4, OrderTimeInForce::Gtc, NONE);
    ob.add_order(&resting);
    let o = Order::sell_limit(2, 7, 20, 6, OrderTimeInForce::Gtc, NONE);
    let added = ob.add_order(&o);
    assert_eq!(added.update_type, UpdateType::Update);
    assert_eq!(added.level.total_volume, 10);
    assert_eq!(added.level.orders, 2);
    let deleted = ob.delete_order(&o);
    assert_eq!(deleted.update_type, UpdateType::Update);
    let level = ob.get_ask(20).unwrap();
    assert_eq!(level.level.total_volume, 4);
    assert_eq!(level.level.orders, 1);
    assert_eq!(level.order_ids(), vec![1]);

    let fresh = Order::sell_limit(3, 7, 30, 5, OrderTimeInForce::Gtc, NONE);
    assert_eq!(ob.add_order(&fresh).update_type, UpdateType::Add);
    assert_eq!(ob.delete_order(&fresh).update_type, UpdateType::Delete);
    assert!(ob.get_ask(30).is_none());
    assert_eq!(ob.size(), 1);
}

#[test]
fn level_queue_keeps_time_priority() {
    let mut ob = OrderBook::new(symbol(1, b"X\0\0\0\0\0\0\0"));
    for id in 1..=3u64 {
        ob.add_order(&Order::buy_limit(id, 1, 15, 1, OrderTimeInForce::Gtc, NONE));
    }
    let level = ob.best_bid().unwrap();
    assert_eq!(level.order_ids(), vec![1, 2, 3]);
    assert_eq!(level.front_order_id(), Some(1));
}

// ---------------------------------------------------------------------------
//  Level volumes
// ---------------------------------------------------------------------------

#[test]
fn level_volume_splits_into_hidden_and_visible() {
    let mut mm = manager_with_book();
    mm.add_order(Order::buy_limit(1, 0, 10, 100, OrderTimeInForce::Gtc, 10)).unwrap();
    mm.add_order(Order::buy_limit(2, 0, 10, 30, OrderTimeInForce::Gtc, NONE)).unwrap();
    let level = mm.get_order_book(0).unwrap().best_bid().unwrap().level;
    assert_eq!(level.total_volume, 130);
    assert_eq!(level.hidden_volume, 90);
    assert_eq!(level.visible_volume, 40);
    assert_eq!(level.total_volume, level.hidden_volume + level.visible_volume);
    assert_eq!(level.orders, 2);

    mm.reduce_order(1, 95).unwrap();
    let level = mm.get_order_book(0).unwrap().best_bid().unwrap().level;
    assert_eq!(level.total_volume, 35);
    assert_eq!(level.hidden_volume, 0);
    assert_eq!(level.visible_volume, 35);
}

#[test]
fn iceberg_parts() {
    let o = Order::buy_limit(1, 0, 10, 100, OrderTimeInForce::Gtc, 10);
    assert_eq!(o.hidden_quantity(), 90);
    assert_eq!(o.visible_quantity(), 10);
    assert!(o.is_iceberg());
    let plain = Order::buy_limit(2, 0, 10, 100, OrderTimeInForce::Gtc, NONE);
    assert_eq!(plain.hidden_quantity(), 0);
    assert_eq!(plain.visible_quantity(), 100);
}

// ---------------------------------------------------------------------------
//  Trailing stops
// ---------------------------------------------------------------------------

#[test]
fn buy_trailing_stop_moves_down_and_settles() {
    let mut ob = OrderBook::new(symbol(0, b"AAPL\0\0\0\0"));
    let ask = Order::sell_limit(1, 0, 105, 5, OrderTimeInForce::Gtc, NONE);
    ob.add_order(&ask);
    ob.update_last_price(&ask, 100);
    assert_eq!(ob.get_market_trailing_stop_price_ask(), 105);

    let stop = Order::trailing_buy_stop(2, 0, 200, 5, 10, 0, OrderTimeInForce::Gtc, NONE);
    assert!(ob.trailing_stop_price_defined(&stop));
    let moved = ob.calculate_trailing_stop_price(&stop);
    assert_eq!(moved, 115);
    let settled = Order { stop_price: moved, ..stop };
    assert_eq!(ob.calculate_trailing_stop_price(&settled), 115);

    // a stop already below the market plus distance stays
    let low = Order { stop_price: 110, ..stop };
    assert_eq!(ob.calculate_trailing_stop_price(&low), 110);
}

#[test]
fn sell_trailing_stop_moves_up_by_at_least_the_step() {
    let mut ob = OrderBook::new(symbol(0, b"AAPL\0\0\0\0"));
    let bid = Order::buy_limit(1, 0, 95, 5, OrderTimeInForce::Gtc, NONE);
    ob.add_order(&bid);
    ob.update_last_price(&bid, 100);
    assert_eq!(ob.get_market_trailing_stop_price_bid(), 95);

    let stop = Order::trailing_sell_stop(2, 0, 50, 5, 10, 5, OrderTimeInForce::Gtc, NONE);
    assert_eq!(ob.calculate_trailing_stop_price(&stop), 85);
    // a move smaller than the step does not happen
    let near = Order { stop_price: 82, ..stop };
    assert_eq!(ob.calculate_trailing_stop_price(&near), 82);
}

#[test]
fn percentage_trailing_distance() {
    let mut ob = OrderBook::new(symbol(0, b"AAPL\0\0\0\0"));
    let ask = Order::sell_limit(1, 0, 2000, 5, OrderTimeInForce::Gtc, NONE);
    ob.add_order(&ask);
    ob.update_last_price(&ask, 2000);
    // 5% of 2000 is 100
    let stop = Order::trailing_buy_stop(2, 0, 5000, 5, -500, -100, OrderTimeInForce::Gtc, NONE);
    assert_eq!(ob.calculate_trailing_stop_price(&stop), 2100);
}

#[test]
fn trailing_stop_without_market_keeps_its_price() {
    let ob = OrderBook::new(symbol(0, b"AAPL\0\0\0\0"));
    let stop = Order::trailing_buy_stop(2, 0, 200, 5, 10, 0, OrderTimeInForce::Gtc, NONE);
    assert_eq!(ob.calculate_trailing_stop_price(&stop), 200);
}

// ---------------------------------------------------------------------------
//  Error variants
// ---------------------------------------------------------------------------

#[test]
fn every_error_variant_has_an_input() {
    let mut mm = manager_with_book();
    let s = symbol(0, b"AAPL\0\0\0\0");
    assert_eq!(mm.add_symbol(s), Err(ErrorCode::SymbolDuplicate));
    assert_eq!(mm.delete_symbol(9), Err(ErrorCode::SymbolNotFound));
    assert_eq!(mm.add_order_book(&s), Err(ErrorCode::OrderBookDuplicate));
    assert_eq!(mm.delete_order_book(9), Err(ErrorCode::OrderBookNotFound));
    mm.add_order(Order::buy_limit(1, 0, 10, 10, OrderTimeInForce::Gtc, NONE)).unwrap();
    assert_eq!(
        mm.add_order(Order::buy_limit(1, 0, 11, 10, OrderTimeInForce::Gtc, NONE)),
        Err(ErrorCode::OrderDuplicate)
    );
    assert_eq!(mm.delete_order(5), Err(ErrorCode::OrderNotFound));
    assert_eq!(mm.delete_order(0), Err(ErrorCode::OrderIdInvalid));
    mm.add_order(Order::buy_stop(2, 0, 50, 10, OrderTimeInForce::Gtc, NONE)).unwrap();
    assert_eq!(mm.replace_order(2, 3, 10, 10), Err(ErrorCode::OrderTypeInvalid));
    assert_eq!(mm.reduce_order(1, 0), Err(ErrorCode::OrderQuantityInvalid));
    let bad = Order::trailing_buy_stop(4, 0, 50, 10, 0, 0, OrderTimeInForce::Gtc, NONE);
    assert_eq!(mm.add_order(bad), Err(ErrorCode::OrderParameterInvalid));
    // a refused request changes nothing
    assert_eq!(mm.order_count(), 2);
    assert_eq!(mm.get_order(1).unwrap().price, 10);
}

#[test]
fn validation_codes() {
    assert_eq!(Order::buy_limit(1, 0, 10, 10, OrderTimeInForce::Gtc, NONE).validate(), ErrorCode::Success);
    assert_eq!(Order::buy_market(0, 0, 10, NONE).validate(), ErrorCode::OrderIdInvalid);
    assert_eq!(Order::buy_market(1, 0, 0, NONE).validate(), ErrorCode::OrderQuantityInvalid);
    // a market order that is good till cancelled is refused
    let gtc_market = Order { time_in_force: OrderTimeInForce::Gtc, ..Order::buy_market(1, 0, 10, NONE) };
    assert_eq!(gtc_market.validate(), ErrorCode::OrderParameterInvalid);
    let trailing = Order::trailing_sell_stop(1, 0, 50, 10, 10, 2, OrderTimeInForce::Gtc, NONE);
    assert_eq!(trailing.validate(), ErrorCode::Success);
    let bad_step = Order::trailing_sell_stop(1, 0, 50, 10, 10, 10, OrderTimeInForce::Gtc, NONE);
    assert_eq!(bad_step.validate(), ErrorCode::OrderParameterInvalid);
}

// ---------------------------------------------------------------------------
//  Order operations without matching
// ---------------------------------------------------------------------------

#[test]
fn execute_reduces_and_records() {
    let mut mm = manager_with_book();
    mm.add_order(Order::sell_limit(1, 0, 30, 10, OrderTimeInForce::Gtc, NONE)).unwrap();
    mm.execute_order(1, 4).unwrap();
    let o = mm.get_order(1).unwrap();
    assert_eq!(o.executed_quantity, 4);
    assert_eq!(o.leaves_quantity, 6);
    mm.execute_order_at(1, 29, 100).unwrap();
    assert!(mm.get_order(1).is_none());
    assert!(mm.get_order_book(0).unwrap().best_ask().is_none());
}

#[test]
fn mitigate_counts_the_executed_quantity() {
    let mut mm = manager_with_book();
    mm.add_order(Order::buy_limit(1, 0, 30, 10, OrderTimeInForce::Gtc, NONE)).unwrap();
    mm.execute_order(1, 4).unwrap();
    mm.mitigate_order(1, 31, 12).unwrap();
    let o = mm.get_order(1).unwrap();
    assert_eq!(o.price, 31);
    assert_eq!(o.quantity, 12);
    assert_eq!(o.leaves_quantity, 8);
    // mitigating to no more than what was executed removes the order
    mm.mitigate_order(1, 31, 4).unwrap();
    assert!(mm.get_order(1).is_none());
}

#[test]
fn replace_gives_a_new_id() {
    let mut mm = manager_with_book();
    mm.add_order(Order::buy_limit(1, 0, 30, 10, OrderTimeInForce::Gtc, NONE)).unwrap();
    mm.replace_order(1, 2, 32, 5).unwrap();
    assert!(mm.get_order(1).is_none());
    let o = mm.get_order(2).unwrap();
    assert_eq!((o.price, o.quantity, o.leaves_quantity, o.executed_quantity), (32, 5, 5, 0));
    assert_eq!(mm.get_order_book(0).unwrap().best_bid().unwrap().level.price, 32);
}

#[test]
fn replace_with_a_checked_order() {
    let mut mm = manager_with_book();
    mm.add_order(Order::buy_limit(1, 0, 30, 10, OrderTimeInForce::Gtc, NONE)).unwrap();
    let replacement = Order::sell_limit(5, 0, 40, 3, OrderTimeInForce::Gtc, NONE);
    mm.replace_order_with(1, replacement).unwrap();
    assert!(mm.get_order(1).is_none());
    assert_eq!(mm.get_order(5).unwrap().price, 40);
    let unknown = Order::sell_limit(6, 9, 40, 3, OrderTimeInForce::Gtc, NONE);
    assert_eq!(mm.replace_order_with(5, unknown), Err(ErrorCode::SymbolNotFound));
    assert!(mm.get_order(5).is_some());
}

#[test]
fn iter_orders_lists_every_order_once() {
    let mut mm = manager_with_book();
    for id in 1..=4u64 {
        mm.add_order(Order::buy_limit(id, 0, 10 + id, 1, OrderTimeInForce::Gtc, NONE)).unwrap();
    }
    let mut ids: Vec<u64> = mm.iter_orders().iter().map(|(id, o)| {
        assert_eq!(*id, o.id);
        *id
    }).collect();
    ids.sort();
    assert_eq!(ids, vec![1, 2, 3, 4]);
}

#[test]
fn ioc_and_fok_orders_never_rest_without_matching() {
    let mut mm = manager_with_book();
    mm.add_order(Order::buy_limit(1, 0, 10, 10, OrderTimeInForce::Ioc, NONE)).unwrap();
    mm.add_order(Order::buy_limit(2, 0, 10, 10, OrderTimeInForce::Fok, NONE)).unwrap();
    mm.add_order(Order::buy_market(3, 0, 10, NONE)).unwrap();
    assert_eq!(mm.order_count(), 0);
}

// ---------------------------------------------------------------------------
//  Texts
// ---------------------------------------------------------------------------

#[test]
fn display_texts() {
    let o = Order::buy_limit(12, 0, 305, 40, OrderTimeInForce::Gtc, NONE);
    assert_eq!(o.to_text(), "Order(12 Buy Limit GTC @ 305 qty=40 exec=0 leaves=40)");
    let level = Level { level_type: LevelType::Ask, price: 7, total_volume: 90, hidden_volume: 0, visible_volume: 90, orders: 3 };
    assert_eq!(level.to_text(), "Level(Ask 7 vol=90 orders=3)");
    let s = symbol(42, b"GOOG\0\0\0\0");
    assert_eq!(s.name_str(), "GOOG");
    assert_eq!(s.to_text(), "GOOG(42)");
    let mut ob = OrderBook::new(s);
    ob.add_order(&Order::buy_limit(1, 42, 10, 1, OrderTimeInForce::Gtc, NONE));
    ob.add_order(&Order::buy_limit(2, 42, 11, 1, OrderTimeInForce::Gtc, NONE));
    assert_eq!(ob.to_text(), "OrderBook(GOOG(42) bids=2 asks=0)");
}

#[test]
fn names_of_kinds() {
    assert_eq!(OrderSide::Sell.as_str(), "Sell");
    assert_eq!(OrderType::TrailingStopLimit.as_str(), "TrailingStopLimit");
    assert_eq!(OrderTimeInForce::Aon.as_str(), "AON");
    assert_eq!(LevelType::Bid.as_str(), "Bid");
    assert_eq!(UpdateType::Unchanged.as_str(), "None");
    assert_eq!(ErrorCode::Success.message(), "OK");
    assert_eq!(ErrorCode::OrderBookNotFound.message(), "Order book not found");
}

#[test]
fn symbol_names() {
    assert_eq!(symbol(1, b"ABCDEFGH").name_str(), "ABCDEFGH");
    assert_eq!(symbol(1, b"\0BCDEFGH").name_str(), "");
    // bytes that are not UTF-8 give the empty name
    assert_eq!(symbol(1, &[0xff, 0xfe, 0, 0, 0, 0, 0, 0]).name_str(), "");
}

#[test]
fn decimal_digits() {
    let mut s = String::from("n=");
    push_decimal(&mut s, 0);
    assert_eq!(s, "n=0");
    let mut s = String::new();
    push_decimal(&mut s, 1234500);
    assert_eq!(s, "1234500");
    let mut s = String::new();
    push_decimal(&mut s, u64::MAX);
    assert_eq!(s, "18446744073709551615");
}
