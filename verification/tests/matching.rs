use order_book::instrument::Qty;
use order_book::matching::SubmitOutcome;
use order_book::orderbook::OrderBookError;
use order_book::test_helpers::{book, order, px, qty};
use order_book::types::{ClientId, ExchangeId, Order, OrderType, Side};

fn limit_order(side: Side, price: i64, quantity: u64, id: &str) -> Order {
    Order::builder()
        .side(side)
        .quantity(qty(quantity))
        .client_id(id)
        .exchange_id(id)
        .order_type(OrderType::limit_gtc(px(price)))
        .build()
}

fn market_order(side: Side, quantity: u64, id: &str) -> Order {
    Order::builder()
        .side(side)
        .quantity(qty(quantity))
        .client_id(id)
        .exchange_id(id)
        .order_type(OrderType::Market)
        .build()
}

fn ioc_order(side: Side, price: i64, quantity: u64, id: &str) -> Order {
    Order::builder()
        .side(side)
        .quantity(qty(quantity))
        .client_id(id)
        .exchange_id(id)
        .order_type(OrderType::limit_ioc(px(price)))
        .build()
}

fn fok_order(side: Side, price: i64, quantity: u64, id: &str) -> Order {
    Order::builder()
        .side(side)
        .quantity(qty(quantity))
        .client_id(id)
        .exchange_id(id)
        .order_type(OrderType::limit_fok(px(price)))
        .build()
}

fn stop_market(side: Side, trigger: i64, quantity: u64, id: &str) -> Order {
    Order::builder()
        .side(side)
        .quantity(qty(quantity))
        .client_id(id)
        .exchange_id(id)
        .order_type(OrderType::stop_market(px(trigger)))
        .build()
}

fn stop_limit(side: Side, trigger: i64, price: i64, quantity: u64, id: &str) -> Order {
    Order::builder()
        .side(side)
        .quantity(qty(quantity))
        .client_id(id)
        .exchange_id(id)
        .order_type(OrderType::stop_limit(px(trigger), px(price)))
        .build()
}

fn id(s: &str) -> ExchangeId {
    ExchangeId(s.to_owned())
}

#[test]
fn market_buy_fully_fills_single_resting_ask() {
    let mut ob = book();
    ob.add_order(order(Side::Ask, 100, 10, None, "a1")).unwrap();

    let report = ob.submit(market_order(Side::Bid, 10, "t1")).unwrap();

    assert_eq!(report.outcome, SubmitOutcome::Filled);
    assert_eq!(report.trades.len(), 1);

    let trade = &report.trades[0];
    assert_eq!(trade.price, px(100));
    assert_eq!(trade.quantity, qty(10));
    assert_eq!(trade.maker_order_id, id("a1"));
    assert_eq!(trade.taker_order_id, report.order_id);
    assert_eq!(trade.maker_client, ClientId("a1".to_owned()));
    assert_eq!(trade.taker_client, ClientId("t1".to_owned()));
    assert_eq!(trade.taker_side, Side::Bid);

    assert_eq!(ob.best_ask(), None);
    assert!(ob.order_location(&id("a1")).is_none());
}

#[test]
fn market_buy_partial_fill_reduces_resting_maker() {
    let mut ob = book();
    ob.add_order(order(Side::Ask, 100, 10, None, "a1")).unwrap();

    let report = ob.submit(market_order(Side::Bid, 4, "t1")).unwrap();

    assert_eq!(report.outcome, SubmitOutcome::Filled);
    assert_eq!(report.trades.len(), 1);
    assert_eq!(report.trades[0].quantity, qty(4));

    assert_eq!(ob.best_ask(), Some(px(100)));
    assert_eq!(ob.best_ask_level().unwrap().total_quantity(), qty(6));
    assert!(ob.order_location(&id("a1")).is_some());
}

#[test]
fn market_buy_sweeps_levels_best_price_first() {
    let mut ob = book();
    ob.add_order(order(Side::Ask, 100, 5, None, "a1")).unwrap();
    ob.add_order(order(Side::Ask, 101, 5, None, "a2")).unwrap();
    ob.add_order(order(Side::Ask, 102, 5, None, "a3")).unwrap();

    let report = ob.submit(market_order(Side::Bid, 8, "t1")).unwrap();

    assert_eq!(report.outcome, SubmitOutcome::Filled);
    assert_eq!(report.trades.len(), 2);
    assert_eq!(
        (report.trades[0].price, report.trades[0].quantity),
        (px(100), qty(5))
    );
    assert_eq!(
        (report.trades[1].price, report.trades[1].quantity),
        (px(101), qty(3))
    );

    assert!(ob.order_location(&id("a1")).is_none());
    assert_eq!(ob.best_ask(), Some(px(101)));
    assert_eq!(ob.best_ask_level().unwrap().total_quantity(), qty(2));
    assert!(ob.level(Side::Ask, px(102)).is_some());
}

#[test]
fn market_buy_is_fifo_within_a_level() {
    let mut ob = book();
    ob.add_order(order(Side::Ask, 100, 5, None, "a1")).unwrap();
    ob.add_order(order(Side::Ask, 100, 5, None, "a2")).unwrap();

    let report = ob.submit(market_order(Side::Bid, 5, "t1")).unwrap();

    assert_eq!(report.trades.len(), 1);
    assert_eq!(report.trades[0].maker_order_id, id("a1"));
    assert!(ob.order_location(&id("a1")).is_none());
    assert!(ob.order_location(&id("a2")).is_some());
    assert_eq!(ob.best_ask_level().unwrap().total_quantity(), qty(5));
}

#[test]
fn market_buy_on_empty_book_is_killed() {
    let mut ob = book();

    let report = ob.submit(market_order(Side::Bid, 5, "t1")).unwrap();

    assert_eq!(report.outcome, SubmitOutcome::Killed);
    assert!(report.trades.is_empty());
}

#[test]
fn market_buy_insufficient_liquidity_kills_remainder() {
    let mut ob = book();
    ob.add_order(order(Side::Ask, 100, 3, None, "a1")).unwrap();

    let report = ob.submit(market_order(Side::Bid, 10, "t1")).unwrap();

    assert_eq!(report.outcome, SubmitOutcome::Killed);
    assert_eq!(report.trades.len(), 1);
    assert_eq!(report.trades[0].quantity, qty(3));
    assert_eq!(ob.best_ask(), None);
    assert_eq!(ob.order_count(), 0);
}

#[test]
fn market_sell_fills_against_best_bids_first() {
    let mut ob = book();
    ob.add_order(order(Side::Bid, 99, 5, None, "b1")).unwrap();
    ob.add_order(order(Side::Bid, 98, 5, None, "b2")).unwrap();

    let report = ob.submit(market_order(Side::Ask, 8, "t1")).unwrap();

    assert_eq!(report.outcome, SubmitOutcome::Filled);
    assert_eq!(report.trades.len(), 2);
    assert_eq!(
        (report.trades[0].price, report.trades[0].quantity),
        (px(99), qty(5))
    );
    assert_eq!(
        (report.trades[1].price, report.trades[1].quantity),
        (px(98), qty(3))
    );
    assert_eq!(report.trades[0].taker_side, Side::Ask);

    assert_eq!(ob.best_bid(), Some(px(98)));
    assert_eq!(ob.best_bid_level().unwrap().total_quantity(), qty(2));
}

#[test]
fn limit_buy_non_crossing_rests() {
    let mut ob = book();
    ob.add_order(order(Side::Ask, 100, 10, None, "a1")).unwrap();

    let report = ob.submit(limit_order(Side::Bid, 99, 5, "t1")).unwrap();

    assert_eq!(report.outcome, SubmitOutcome::Rested);
    assert!(report.trades.is_empty());
    assert!(report.cancelled.is_empty());
    assert_eq!(ob.best_bid(), Some(px(99)));
    assert_eq!(ob.best_bid_level().unwrap().total_quantity(), qty(5));
    assert!(ob.order_location(&report.order_id).is_some());
}

#[test]
fn limit_buy_crossing_fully_fills() {
    let mut ob = book();
    ob.add_order(order(Side::Ask, 100, 10, None, "a1")).unwrap();

    let report = ob.submit(limit_order(Side::Bid, 100, 5, "t1")).unwrap();

    assert_eq!(report.outcome, SubmitOutcome::Filled);
    assert_eq!(report.trades.len(), 1);
    assert_eq!(report.trades[0].quantity, qty(5));
    assert!(ob.order_location(&report.order_id).is_none());
    assert_eq!(ob.best_ask_level().unwrap().total_quantity(), qty(5));
}

#[test]
fn limit_buy_partial_fill_rests_remainder() {
    let mut ob = book();
    ob.add_order(order(Side::Ask, 100, 5, None, "a1")).unwrap();

    let report = ob.submit(limit_order(Side::Bid, 100, 8, "t1")).unwrap();

    assert_eq!(report.outcome, SubmitOutcome::PartiallyFilledAndRested);
    assert_eq!(report.trades.len(), 1);
    assert_eq!(report.trades[0].quantity, qty(5));

    assert_eq!(ob.best_ask(), None);
    assert_eq!(ob.best_bid(), Some(px(100)));
    assert_eq!(ob.best_bid_level().unwrap().total_quantity(), qty(3));
    assert!(ob.order_location(&report.order_id).is_some());
}

#[test]
fn limit_buy_sweeps_only_marketable_prefix() {
    let mut ob = book();
    ob.add_order(order(Side::Ask, 100, 5, None, "a1")).unwrap();
    ob.add_order(order(Side::Ask, 102, 5, None, "a2")).unwrap();

    let report = ob.submit(limit_order(Side::Bid, 100, 10, "t1")).unwrap();

    assert_eq!(report.outcome, SubmitOutcome::PartiallyFilledAndRested);
    assert_eq!(report.trades.len(), 1);
    assert_eq!(
        (report.trades[0].price, report.trades[0].quantity),
        (px(100), qty(5))
    );

    assert!(ob.level(Side::Ask, px(102)).is_some());
    assert_eq!(ob.best_bid(), Some(px(100)));
    assert_eq!(ob.best_bid_level().unwrap().total_quantity(), qty(5));
}

#[test]
fn limit_buy_prints_at_maker_price_not_taker_price() {
    let mut ob = book();
    ob.add_order(order(Side::Ask, 100, 10, None, "a1")).unwrap();

    let report = ob.submit(limit_order(Side::Bid, 105, 5, "t1")).unwrap();

    assert_eq!(report.outcome, SubmitOutcome::Filled);
    assert_eq!(report.trades[0].price, px(100));
}

#[test]
fn limit_buy_crosses_multiple_levels_and_fully_fills() {
    let mut ob = book();
    ob.add_order(order(Side::Ask, 100, 5, None, "a1")).unwrap();
    ob.add_order(order(Side::Ask, 101, 5, None, "a2")).unwrap();

    let report = ob.submit(limit_order(Side::Bid, 101, 8, "t1")).unwrap();

    assert_eq!(report.outcome, SubmitOutcome::Filled);
    assert_eq!(report.trades.len(), 2);
    assert_eq!(
        (report.trades[0].price, report.trades[0].quantity),
        (px(100), qty(5))
    );
    assert_eq!(
        (report.trades[1].price, report.trades[1].quantity),
        (px(101), qty(3))
    );

    assert!(ob.order_location(&id("a1")).is_none());
    assert!(ob.order_location(&report.order_id).is_none());
    assert_eq!(ob.best_ask(), Some(px(101)));
    assert_eq!(ob.best_ask_level().unwrap().total_quantity(), qty(2));
}

#[test]
fn limit_buy_crosses_multiple_levels_then_rests_remainder() {
    let mut ob = book();
    ob.add_order(order(Side::Ask, 100, 5, None, "a1")).unwrap();
    ob.add_order(order(Side::Ask, 101, 5, None, "a2")).unwrap();
    ob.add_order(order(Side::Ask, 103, 5, None, "a3")).unwrap();

    let report = ob.submit(limit_order(Side::Bid, 101, 12, "t1")).unwrap();

    assert_eq!(report.outcome, SubmitOutcome::PartiallyFilledAndRested);
    assert_eq!(report.trades.len(), 2);
    assert_eq!(
        (report.trades[0].price, report.trades[0].quantity),
        (px(100), qty(5))
    );
    assert_eq!(
        (report.trades[1].price, report.trades[1].quantity),
        (px(101), qty(5))
    );

    assert!(ob.order_location(&id("a1")).is_none());
    assert!(ob.order_location(&id("a2")).is_none());
    assert_eq!(ob.best_ask(), Some(px(103)));
    assert_eq!(ob.best_ask_level().unwrap().total_quantity(), qty(5));

    assert_eq!(ob.best_bid(), Some(px(101)));
    assert_eq!(ob.best_bid_level().unwrap().total_quantity(), qty(2));
    assert!(ob.order_location(&report.order_id).is_some());
}

#[test]
fn limit_sell_non_crossing_rests() {
    let mut ob = book();
    ob.add_order(order(Side::Bid, 99, 10, None, "b1")).unwrap();

    let report = ob.submit(limit_order(Side::Ask, 100, 5, "s1")).unwrap();

    assert_eq!(report.outcome, SubmitOutcome::Rested);
    assert!(report.trades.is_empty());
    assert!(report.cancelled.is_empty());
    assert_eq!(ob.best_ask(), Some(px(100)));
    assert_eq!(ob.best_ask_level().unwrap().total_quantity(), qty(5));
    assert!(ob.order_location(&report.order_id).is_some());
}

#[test]
fn limit_sell_crossing_fully_fills() {
    let mut ob = book();
    ob.add_order(order(Side::Bid, 100, 10, None, "b1")).unwrap();

    let report = ob.submit(limit_order(Side::Ask, 100, 5, "s1")).unwrap();

    assert_eq!(report.outcome, SubmitOutcome::Filled);
    assert_eq!(report.trades.len(), 1);
    assert_eq!(
        (report.trades[0].price, report.trades[0].quantity),
        (px(100), qty(5))
    );
    assert_eq!(report.trades[0].taker_side, Side::Ask);
    assert!(ob.order_location(&report.order_id).is_none());
    assert_eq!(ob.best_bid_level().unwrap().total_quantity(), qty(5));
}

#[test]
fn limit_sell_partial_fill_rests_remainder() {
    let mut ob = book();
    ob.add_order(order(Side::Bid, 100, 5, None, "b1")).unwrap();

    let report = ob.submit(limit_order(Side::Ask, 100, 8, "s1")).unwrap();

    assert_eq!(report.outcome, SubmitOutcome::PartiallyFilledAndRested);
    assert_eq!(report.trades.len(), 1);
    assert_eq!(report.trades[0].quantity, qty(5));

    assert_eq!(ob.best_bid(), None);
    assert_eq!(ob.best_ask(), Some(px(100)));
    assert_eq!(ob.best_ask_level().unwrap().total_quantity(), qty(3));
    assert!(ob.order_location(&report.order_id).is_some());
}

#[test]
fn limit_sell_sweeps_only_marketable_prefix() {
    let mut ob = book();
    ob.add_order(order(Side::Bid, 100, 5, None, "b1")).unwrap();
    ob.add_order(order(Side::Bid, 98, 5, None, "b2")).unwrap();

    let report = ob.submit(limit_order(Side::Ask, 100, 10, "s1")).unwrap();

    assert_eq!(report.outcome, SubmitOutcome::PartiallyFilledAndRested);
    assert_eq!(report.trades.len(), 1);
    assert_eq!(
        (report.trades[0].price, report.trades[0].quantity),
        (px(100), qty(5))
    );

    assert_eq!(ob.best_bid(), Some(px(98)));
    assert_eq!(ob.best_ask(), Some(px(100)));
    assert_eq!(ob.best_ask_level().unwrap().total_quantity(), qty(5));
}

#[test]
fn limit_sell_crosses_multiple_levels_then_rests_remainder() {
    let mut ob = book();
    ob.add_order(order(Side::Bid, 100, 5, None, "b1")).unwrap();
    ob.add_order(order(Side::Bid, 99, 5, None, "b2")).unwrap();
    ob.add_order(order(Side::Bid, 97, 5, None, "b3")).unwrap();

    let report = ob.submit(limit_order(Side::Ask, 99, 12, "s1")).unwrap();

    assert_eq!(report.outcome, SubmitOutcome::PartiallyFilledAndRested);
    assert_eq!(report.trades.len(), 2);
    assert_eq!(
        (report.trades[0].price, report.trades[0].quantity),
        (px(100), qty(5))
    );
    assert_eq!(
        (report.trades[1].price, report.trades[1].quantity),
        (px(99), qty(5))
    );

    assert_eq!(ob.best_bid(), Some(px(97)));
    assert_eq!(ob.best_ask(), Some(px(99)));
    assert_eq!(ob.best_ask_level().unwrap().total_quantity(), qty(2));
}

#[test]
fn ioc_full_fill_behaves_like_gtc() {
    let mut ob = book();
    ob.add_order(order(Side::Ask, 100, 10, None, "a1")).unwrap();

    let report = ob.submit(ioc_order(Side::Bid, 100, 10, "t1")).unwrap();

    assert_eq!(report.outcome, SubmitOutcome::Filled);
    assert_eq!(report.trades.len(), 1);
    assert_eq!(report.trades[0].quantity, qty(10));
    assert_eq!(ob.best_ask(), None);
}

#[test]
fn ioc_partial_fill_kills_remainder_instead_of_resting() {
    let mut ob = book();
    ob.add_order(order(Side::Ask, 100, 10, None, "a1")).unwrap();

    let report = ob.submit(ioc_order(Side::Bid, 100, 15, "t1")).unwrap();

    assert_eq!(report.outcome, SubmitOutcome::Killed);
    assert_eq!(report.trades.len(), 1);
    assert_eq!(report.trades[0].quantity, qty(10));

    assert_eq!(ob.best_bid(), None);
    assert!(ob.order_location(&report.order_id).is_none());
}

#[test]
fn ioc_that_does_not_cross_is_killed_with_no_trades() {
    let mut ob = book();
    ob.add_order(order(Side::Ask, 100, 10, None, "a1")).unwrap();

    let report = ob.submit(ioc_order(Side::Bid, 99, 5, "t1")).unwrap();

    assert_eq!(report.outcome, SubmitOutcome::Killed);
    assert!(report.trades.is_empty());

    assert_eq!(ob.best_ask(), Some(px(100)));
    assert_eq!(ob.best_bid(), None);
    assert_eq!(ob.order_count(), 1);
}

#[test]
fn ioc_respects_its_limit_price_while_sweeping() {
    let mut ob = book();
    ob.add_order(order(Side::Ask, 100, 5, None, "a1")).unwrap();
    ob.add_order(order(Side::Ask, 101, 5, None, "a2")).unwrap();

    let report = ob.submit(ioc_order(Side::Bid, 100, 8, "t1")).unwrap();

    assert_eq!(report.outcome, SubmitOutcome::Killed);
    assert_eq!(report.trades.len(), 1);
    assert_eq!(
        (report.trades[0].price, report.trades[0].quantity),
        (px(100), qty(5))
    );
    assert_eq!(ob.best_ask(), Some(px(101)));
    assert_eq!(ob.best_bid(), None);
}

#[test]
fn fok_fills_completely_when_depth_suffices() {
    let mut ob = book();
    ob.add_order(order(Side::Ask, 100, 5, None, "a1")).unwrap();
    ob.add_order(order(Side::Ask, 101, 5, None, "a2")).unwrap();

    let report = ob.submit(fok_order(Side::Bid, 101, 10, "t1")).unwrap();

    assert_eq!(report.outcome, SubmitOutcome::Filled);
    assert_eq!(report.trades.len(), 2);
    let filled = Qty::sum(&report.trades.iter().map(|t| t.quantity).collect::<Vec<_>>());
    assert_eq!(filled, qty(10));
    assert_eq!(ob.best_ask(), None);
}

#[test]
fn fok_kills_without_touching_the_book_when_depth_insufficient() {
    let mut ob = book();
    ob.add_order(order(Side::Ask, 100, 5, None, "a1")).unwrap();

    let report = ob.submit(fok_order(Side::Bid, 100, 10, "t1")).unwrap();

    assert_eq!(report.outcome, SubmitOutcome::Killed);
    assert!(report.trades.is_empty());
    assert!(report.cancelled.is_empty());

    assert_eq!(ob.best_ask(), Some(px(100)));
    assert_eq!(ob.best_ask_level().unwrap().total_quantity(), qty(5));
    assert!(ob.order_location(&id("a1")).is_some());
}

#[test]
fn fok_only_counts_depth_within_its_limit_price() {
    let mut ob = book();
    ob.add_order(order(Side::Ask, 100, 5, None, "a1")).unwrap();
    ob.add_order(order(Side::Ask, 102, 20, None, "a2")).unwrap();

    let report = ob.submit(fok_order(Side::Bid, 101, 10, "t1")).unwrap();

    assert_eq!(report.outcome, SubmitOutcome::Killed);
    assert!(report.trades.is_empty());
    assert_eq!(ob.order_count(), 2);
}

#[test]
fn fok_excludes_own_resting_orders_from_fillability() {
    let mut ob = book();
    ob.add_order(limit_order(Side::Ask, 100, 5, "alice"))
        .unwrap();
    ob.add_order(limit_order(Side::Ask, 100, 5, "bob")).unwrap();

    let report = ob.submit(fok_order(Side::Bid, 100, 10, "alice")).unwrap();

    assert_eq!(report.outcome, SubmitOutcome::Killed);
    assert!(report.trades.is_empty());
    assert!(report.cancelled.is_empty());
    assert_eq!(ob.order_count(), 2);
}

#[test]
fn fok_executes_through_own_order_cancelling_it() {
    let mut ob = book();
    ob.add_order(limit_order(Side::Ask, 100, 5, "alice"))
        .unwrap();
    ob.add_order(limit_order(Side::Ask, 100, 10, "bob"))
        .unwrap();

    let report = ob.submit(fok_order(Side::Bid, 100, 10, "alice")).unwrap();

    assert_eq!(report.outcome, SubmitOutcome::Filled);
    let filled = Qty::sum(&report.trades.iter().map(|t| t.quantity).collect::<Vec<_>>());
    assert_eq!(filled, qty(10));
    assert_eq!(report.cancelled, vec![id("alice")]);
    assert_eq!(ob.best_ask(), None);
}

#[test]
fn stop_parks_when_no_trade_has_printed() {
    let mut ob = book();

    let report = ob.submit(stop_market(Side::Bid, 101, 10, "s1")).unwrap();

    assert_eq!(report.outcome, SubmitOutcome::StopPending);
    assert!(report.trades.is_empty());
    assert!(report.triggered.is_empty());

    assert!(ob.get_order(&report.order_id).is_some());
    assert_eq!(ob.best_bid(), None);
    assert!(ob.depth(Side::Bid, 10).is_empty());
    assert_eq!(ob.stop_bids.len(), 1);
}

#[test]
fn buy_stop_triggers_when_market_trades_up_to_trigger() {
    let mut ob = book();
    ob.add_order(order(Side::Ask, 101, 10, None, "a1")).unwrap();
    ob.add_order(order(Side::Ask, 102, 10, None, "a2")).unwrap();

    let parked = ob.submit(stop_market(Side::Bid, 101, 10, "s1")).unwrap();
    assert_eq!(parked.outcome, SubmitOutcome::StopPending);

    let report = ob.submit(market_order(Side::Bid, 10, "t1")).unwrap();

    assert_eq!(report.trades.len(), 1);
    assert_eq!(report.trades[0].price, px(101));
    assert_eq!(report.triggered.len(), 1);

    let stop_report = &report.triggered[0];
    assert_eq!(stop_report.order_id, parked.order_id);
    assert_eq!(stop_report.outcome, SubmitOutcome::Filled);
    assert_eq!(stop_report.trades[0].price, px(102));

    assert!(ob.stop_bids.is_empty());
    assert!(ob.get_order(&parked.order_id).is_none());
}

#[test]
fn sell_stop_triggers_when_market_trades_down_to_trigger() {
    let mut ob = book();
    ob.add_order(order(Side::Bid, 99, 10, None, "b1")).unwrap();
    ob.add_order(order(Side::Bid, 98, 10, None, "b2")).unwrap();

    let parked = ob.submit(stop_market(Side::Ask, 99, 10, "s1")).unwrap();
    assert_eq!(parked.outcome, SubmitOutcome::StopPending);

    let report = ob.submit(market_order(Side::Ask, 5, "t1")).unwrap();

    assert_eq!(report.triggered.len(), 1);
    let stop_report = &report.triggered[0];
    assert_eq!(stop_report.outcome, SubmitOutcome::Filled);
    let filled = Qty::sum(&stop_report.trades.iter().map(|t| t.quantity).collect::<Vec<_>>());
    assert_eq!(filled, qty(10));
    assert_eq!(stop_report.trades.last().unwrap().price, px(98));
}

#[test]
fn stop_cascade_chains_and_stays_flat() {
    let mut ob = book();
    ob.add_order(order(Side::Ask, 101, 10, None, "a1")).unwrap();
    ob.add_order(order(Side::Ask, 102, 10, None, "a2")).unwrap();
    ob.add_order(order(Side::Ask, 103, 10, None, "a3")).unwrap();

    let a = ob.submit(stop_market(Side::Bid, 101, 10, "sA")).unwrap();
    let b = ob.submit(stop_market(Side::Bid, 102, 10, "sB")).unwrap();

    let report = ob.submit(market_order(Side::Bid, 10, "t1")).unwrap();

    assert_eq!(report.triggered.len(), 2);
    assert_eq!(report.triggered[0].order_id, a.order_id);
    assert_eq!(report.triggered[1].order_id, b.order_id);
    assert!(report.triggered.iter().all(|r| r.triggered.is_empty()));

    assert_eq!(report.triggered[0].trades[0].price, px(102));
    assert_eq!(report.triggered[1].trades[0].price, px(103));
    assert!(ob.stop_bids.is_empty());
}

#[test]
fn stop_already_triggered_on_arrival_executes_immediately() {
    let mut ob = book();
    ob.add_order(order(Side::Ask, 100, 10, None, "a1")).unwrap();

    ob.submit(market_order(Side::Bid, 5, "t1")).unwrap();

    let report = ob.submit(stop_market(Side::Bid, 100, 5, "s1")).unwrap();

    assert_eq!(report.outcome, SubmitOutcome::Filled);
    assert_eq!(report.trades.len(), 1);
    assert!(ob.stop_bids.is_empty());
}

#[test]
fn stop_limit_becomes_limit_and_rests_its_remainder() {
    let mut ob = book();
    ob.add_order(order(Side::Ask, 101, 10, None, "a1")).unwrap();
    ob.add_order(order(Side::Ask, 102, 20, None, "a2")).unwrap();

    let parked = ob
        .submit(stop_limit(Side::Bid, 101, 102, 30, "s1"))
        .unwrap();
    assert_eq!(parked.outcome, SubmitOutcome::StopPending);

    let report = ob.submit(market_order(Side::Bid, 10, "t1")).unwrap();

    let stop_report = &report.triggered[0];
    assert_eq!(stop_report.outcome, SubmitOutcome::PartiallyFilledAndRested);
    let filled = Qty::sum(&stop_report.trades.iter().map(|t| t.quantity).collect::<Vec<_>>());
    assert_eq!(filled, qty(20));

    assert_eq!(ob.best_bid(), Some(px(102)));
    let rested = ob.get_order(&stop_report.order_id).unwrap();
    assert_eq!(rested.remaining_quantity, qty(10));
    assert_eq!(rested.order_type.limit_price(), Some(px(102)));
}

#[test]
fn pending_stop_can_be_cancelled() {
    let mut ob = book();

    let parked = ob.submit(stop_market(Side::Ask, 95, 10, "s1")).unwrap();
    assert_eq!(parked.outcome, SubmitOutcome::StopPending);

    assert!(ob.cancel_order(parked.order_id.clone()).is_ok());
    assert!(ob.stop_asks.is_empty());
    assert_eq!(ob.order_count(), 0);
    assert!(
        ob.cancel_order(parked.order_id)
            .is_err_and(|e| e == OrderBookError::OrderNotFound)
    );
}

#[test]
fn stops_fifo_within_same_trigger_price() {
    let mut ob = book();
    ob.add_order(order(Side::Ask, 100, 5, None, "a1")).unwrap();
    ob.add_order(order(Side::Ask, 101, 20, None, "a2")).unwrap();

    let first = ob.submit(stop_market(Side::Bid, 100, 5, "s1")).unwrap();
    let second = ob.submit(stop_market(Side::Bid, 100, 5, "s2")).unwrap();

    let report = ob.submit(market_order(Side::Bid, 5, "t1")).unwrap();

    assert_eq!(report.triggered.len(), 2);
    assert_eq!(report.triggered[0].order_id, first.order_id);
    assert_eq!(report.triggered[1].order_id, second.order_id);
}

#[test]
fn submit_assigns_exchange_id_and_ignores_caller_id() {
    let mut ob = book();
    ob.add_order(order(Side::Ask, 100, 10, None, "a1")).unwrap();

    let report = ob
        .submit(market_order(Side::Bid, 5, "caller-supplied"))
        .unwrap();

    assert_eq!(report.order_id, id("exchId-1"));
    assert_eq!(report.trades[0].taker_order_id, report.order_id);
}

#[test]
fn submit_assigns_sequential_ids() {
    let mut ob = book();
    ob.add_order(order(Side::Ask, 100, 100, None, "a1"))
        .unwrap();

    let first = ob.submit(market_order(Side::Bid, 1, "ignored")).unwrap();
    let second = ob.submit(market_order(Side::Bid, 1, "ignored")).unwrap();

    assert_eq!(first.order_id, id("exchId-1"));
    assert_eq!(second.order_id, id("exchId-2"));
    assert_ne!(first.order_id, second.order_id);
}

#[test]
fn self_trade_cancels_resting_order_instead_of_filling() {
    let mut ob = book();
    let maker = Order::builder()
        .side(Side::Ask)
        .quantity(qty(10))
        .client_id("alice")
        .exchange_id("a1")
        .order_type(OrderType::limit_gtc(px(100)))
        .build();
    ob.add_order(maker).unwrap();

    let taker = Order::builder()
        .side(Side::Bid)
        .quantity(qty(5))
        .client_id("alice")
        .exchange_id("t1")
        .order_type(OrderType::Market)
        .build();
    let report = ob.submit(taker).unwrap();

    assert!(report.trades.is_empty());
    assert_eq!(report.cancelled, vec![id("a1")]);
    assert_eq!(report.outcome, SubmitOutcome::Killed);
    assert_eq!(ob.order_count(), 0);
    assert_eq!(ob.best_ask(), None);
}

#[test]
fn a_fill_or_kill_order_goes_past_an_order_of_which_nothing_is_left() {
    let mut ob = book();
    ob.add_order(order(Side::Ask, 100, 10, Some(0), "empty")).unwrap();
    ob.add_order(order(Side::Ask, 101, 10, None, "full")).unwrap();

    let report = ob.submit(fok_order(Side::Bid, 101, 10, "taker")).unwrap();

    assert_eq!(report.outcome, SubmitOutcome::Filled);
    assert_eq!(report.trades.len(), 1);
    assert_eq!(report.trades[0].price, px(101));
    assert_eq!(report.trades[0].quantity, qty(10));
    assert_eq!(report.trades[0].maker_order_id, ExchangeId("full".to_owned()));
    assert!(report.cancelled.is_empty());
    assert_eq!(ob.order_count(), 0);
    assert_eq!(ob.best_ask(), None);
    assert_eq!(ob.last_trade_price, Some(px(101)));
}

#[test]
fn a_resting_order_does_not_cross_an_order_of_which_nothing_is_left() {
    let mut ob = book();
    ob.add_order(order(Side::Ask, 100, 10, Some(0), "empty")).unwrap();
    ob.add_order(order(Side::Ask, 101, 4, None, "full")).unwrap();
    ob.add_order(order(Side::Ask, 103, 1, None, "far")).unwrap();

    let report = ob.submit(limit_order(Side::Bid, 102, 10, "taker")).unwrap();

    assert_eq!(report.outcome, SubmitOutcome::PartiallyFilledAndRested);
    assert_eq!(report.trades.len(), 1);
    assert_eq!(report.trades[0].price, px(101));
    assert_eq!(ob.best_bid(), Some(px(102)));
    assert_eq!(ob.best_ask(), Some(px(103)));
    assert!(ob.get_order(&ExchangeId("empty".to_owned())).is_none());
    assert!(ob.order_location(&ExchangeId("empty".to_owned())).is_none());
    assert_eq!(ob.order_count(), 2);
}

#[test]
fn an_order_of_which_nothing_is_left_leaves_with_the_others_of_its_level() {
    let mut ob = book();
    ob.add_order(order(Side::Ask, 100, 3, None, "front")).unwrap();
    ob.add_order(order(Side::Ask, 100, 10, Some(0), "empty")).unwrap();
    ob.add_order(order(Side::Ask, 100, 5, None, "back")).unwrap();

    let report = ob.submit(market_order(Side::Bid, 4, "taker")).unwrap();

    assert_eq!(report.outcome, SubmitOutcome::Filled);
    assert_eq!(report.trades.len(), 2);
    assert_eq!(report.trades[0].quantity, qty(3));
    assert_eq!(report.trades[1].quantity, qty(1));
    assert_eq!(ob.order_count(), 1);
    assert_eq!(
        ob.get_order(&ExchangeId("back".to_owned())).unwrap().remaining_quantity,
        qty(4)
    );
    assert!(ob.get_order(&ExchangeId("empty".to_owned())).is_none());
}

#[test]
fn an_order_of_which_nothing_is_left_stays_behind_a_taker_that_is_full() {
    let mut ob = book();
    let empty = ExchangeId("empty".to_owned());
    ob.add_order(order(Side::Ask, 100, 5, None, "front")).unwrap();
    ob.add_order(order(Side::Ask, 100, 10, Some(0), "empty")).unwrap();

    let report = ob.submit(market_order(Side::Bid, 3, "first")).unwrap();
    assert_eq!(report.outcome, SubmitOutcome::Filled);
    assert_eq!(report.trades.len(), 1);
    assert_eq!(report.trades[0].quantity, qty(3));
    assert_eq!(ob.order_count(), 2);
    assert!(ob.get_order(&empty).is_some());

    let report = ob.submit(market_order(Side::Bid, 2, "second")).unwrap();
    assert_eq!(report.outcome, SubmitOutcome::Filled);
    assert_eq!(report.trades.len(), 1);
    assert!(ob.get_order(&ExchangeId("front".to_owned())).is_none());
    assert_eq!(ob.get_order(&empty).unwrap().remaining_quantity, qty(0));
    assert!(ob.order_location(&empty).is_some());
    assert_eq!(ob.best_ask(), Some(px(100)));

    let report = ob.submit(ioc_order(Side::Bid, 100, 1, "third")).unwrap();
    assert_eq!(report.outcome, SubmitOutcome::Killed);
    assert!(report.trades.is_empty());
    assert!(report.cancelled.is_empty());
    assert!(ob.get_order(&empty).is_none());
    assert_eq!(ob.best_ask(), None);
    assert_eq!(ob.order_count(), 0);
}
