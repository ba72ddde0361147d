use order_book::allocation::{FifoMatcher, MatchingAlgorithm};
use order_book::instrument::{InstrumentSpec, RejectReason, SpecError};
use order_book::orderbook::{OrderBook, OrderBookError, OrderLocation};
use order_book::storage::OrderBookStore;
use order_book::test_helpers::{book, order, px, qty};
use order_book::types::{ExchangeId, Order, OrderType, Side};
use rust_decimal::Decimal;

fn book_with_depth() -> OrderBook<FifoMatcher> {
    let mut ob = book();
    ob.add_order(order(Side::Bid, 99, 110, None, "bid_99"))
        .unwrap();
    ob.add_order(order(Side::Bid, 98, 500, None, "bid_98"))
        .unwrap();
    ob.add_order(order(Side::Bid, 97, 500, None, "bid_97"))
        .unwrap();
    ob.add_order(order(Side::Ask, 100, 100, None, "ask_100"))
        .unwrap();
    ob.add_order(order(Side::Ask, 101, 200, None, "ask_101"))
        .unwrap();
    ob.add_order(order(Side::Ask, 102, 500, None, "ask_102"))
        .unwrap();
    ob
}

#[test]
fn order_book_new_returns_empty_orderbook() {
    let orderbook = book();
    assert_eq!(orderbook.levels(Side::Bid).len(), 0);
    assert_eq!(orderbook.levels(Side::Ask).len(), 0);
}

#[test]
fn add_order_adds_order_to_correct_side_ask() {
    let mut orderbook = book();

    assert!(
        orderbook
            .add_order(order(Side::Ask, 100, 10, None, "ex_1"))
            .is_ok()
    );
    assert_eq!(orderbook.levels(Side::Ask).len(), 1);
    assert_eq!(orderbook.levels(Side::Bid).len(), 0);
}

#[test]
fn add_order_adds_order_to_correct_side_bid() {
    let mut orderbook = book();

    assert!(
        orderbook
            .add_order(order(Side::Bid, 100, 10, None, "ex_1"))
            .is_ok()
    );
    assert_eq!(orderbook.levels(Side::Ask).len(), 0);
    assert_eq!(orderbook.levels(Side::Bid).len(), 1);
}

#[test]
fn add_order_adds_multiple_orders() {
    let mut orderbook = book();

    assert!(
        orderbook
            .add_order(order(Side::Ask, 100, 10, None, "ex_1"))
            .is_ok()
    );
    assert!(
        orderbook
            .add_order(order(Side::Ask, 100, 5, None, "ex_2"))
            .is_ok()
    );

    assert_eq!(orderbook.levels(Side::Bid).len(), 0);

    let level = orderbook.level(Side::Ask, px(100)).unwrap();
    assert_eq!(level.total_quantity(), qty(15));
}

#[test]
fn maintains_an_index_of_all_orders() {
    let mut orderbook = book();

    orderbook
        .add_order(order(Side::Ask, 100, 10, None, "ex_1"))
        .unwrap();

    let location = orderbook
        .order_location(&ExchangeId("ex_1".to_owned()))
        .unwrap();
    assert_eq!(
        location,
        OrderLocation::Book {
            side: Side::Ask,
            price: px(100)
        }
    );
}

#[test]
fn add_order_rejects_duplicate_exchange_id() {
    let mut orderbook = book();

    assert!(
        orderbook
            .add_order(order(Side::Ask, 100, 10, None, "same_id"))
            .is_ok()
    );
    assert!(
        orderbook
            .add_order(order(Side::Bid, 99, 5, None, "same_id"))
            .is_err_and(|e| e == OrderBookError::ExchangeIdDuplicated)
    );
}

#[test]
fn cancel_order_cancels_existing_order_by_id() {
    let mut orderbook = book();

    assert!(
        orderbook
            .add_order(order(Side::Ask, 100, 10, None, "ex_1"))
            .is_ok()
    );
    assert!(
        orderbook
            .cancel_order(ExchangeId("ex_1".to_owned()))
            .is_ok()
    );
}

#[test]
fn cancel_order_on_bid_side() {
    let mut orderbook = book();

    orderbook
        .add_order(order(Side::Bid, 99, 10, None, "bid_order"))
        .unwrap();

    assert!(
        orderbook
            .cancel_order(ExchangeId("bid_order".to_owned()))
            .is_ok()
    );
    assert_eq!(orderbook.levels(Side::Bid).len(), 0);
    assert_eq!(orderbook.order_count(), 0);
}

#[test]
fn cancel_order_removes_only_target_order_from_level() {
    let mut orderbook = book();

    orderbook
        .add_order(order(Side::Ask, 100, 10, None, "ex_1"))
        .unwrap();
    orderbook
        .add_order(order(Side::Ask, 100, 5, None, "ex_2"))
        .unwrap();

    orderbook
        .cancel_order(ExchangeId("ex_1".to_owned()))
        .unwrap();

    let level = orderbook.level(Side::Ask, px(100)).unwrap();
    assert_eq!(level.order_count(), 1);
    assert_eq!(level.total_quantity(), qty(5));

    assert_eq!(orderbook.order_count(), 1);
    assert!(orderbook.order_location(&ExchangeId("ex_2".to_owned())).is_some());
}

#[test]
fn cancel_order_cleans_up_empty_price_level() {
    let mut orderbook = book();

    orderbook
        .add_order(order(Side::Ask, 100, 10, None, "ex_1"))
        .unwrap();
    orderbook
        .cancel_order(ExchangeId("ex_1".to_owned()))
        .unwrap();

    assert_eq!(orderbook.levels(Side::Ask).len(), 0);
    assert_eq!(orderbook.order_count(), 0);
}

#[test]
fn cancel_order_with_non_existing_order_returns_error() {
    let mut orderbook = book();
    let result = orderbook.cancel_order(ExchangeId("nonexisting_order".to_owned()));

    assert!(result.is_err_and(|e| e == OrderBookError::OrderNotFound));
}

#[test]
fn best_bid_and_best_ask_return_top_of_book() {
    let orderbook = book_with_depth();

    assert_eq!(orderbook.best_bid(), Some(px(99)));
    assert_eq!(orderbook.best_ask(), Some(px(100)));
}

#[test]
fn best_bid_and_ask_are_none_on_empty_book() {
    let orderbook = book();

    assert_eq!(orderbook.best_bid(), None);
    assert_eq!(orderbook.best_ask(), None);
}

#[test]
fn spread_is_difference_between_best_ask_and_best_bid() {
    let orderbook = book_with_depth();

    assert_eq!(orderbook.spread().map(|ticks| ticks.count()), Some(1));
}

#[test]
fn spread_is_none_when_either_side_empty() {
    let mut orderbook = book();
    assert_eq!(orderbook.spread(), None);

    orderbook
        .add_order(order(Side::Bid, 99, 10, None, "bid"))
        .unwrap();
    assert_eq!(orderbook.spread(), None);
}

#[test]
fn best_level_returns_top_of_book_with_its_orders() {
    let orderbook = book_with_depth();

    let bid_level = orderbook.best_bid_level().unwrap();
    assert_eq!(bid_level.price, px(99));
    assert_eq!(bid_level.total_quantity(), qty(110));

    let ask_level = orderbook.best_ask_level().unwrap();
    assert_eq!(ask_level.price, px(100));
    assert_eq!(ask_level.total_quantity(), qty(100));
}

#[test]
fn best_level_is_none_on_empty_book() {
    let orderbook = book();

    assert!(orderbook.best_bid_level().is_none());
    assert!(orderbook.best_ask_level().is_none());
}

#[test]
fn depth_returns_best_levels_first_aggregated() {
    let orderbook = book_with_depth();

    assert_eq!(
        orderbook.depth(Side::Bid, 2),
        vec![(px(99), qty(110)), (px(98), qty(500))]
    );
    assert_eq!(
        orderbook.depth(Side::Ask, 2),
        vec![(px(100), qty(100)), (px(101), qty(200))]
    );
}

#[test]
fn depth_is_capped_by_available_levels() {
    let orderbook = book_with_depth();

    assert_eq!(orderbook.depth(Side::Ask, 10).len(), 3);
    assert_eq!(book().depth(Side::Bid, 5), vec![]);
}

#[test]
fn depth_sums_all_orders_at_a_level() {
    let mut orderbook = book();
    orderbook
        .add_order(order(Side::Ask, 100, 10, None, "ex_1"))
        .unwrap();
    orderbook
        .add_order(order(Side::Ask, 100, 5, None, "ex_2"))
        .unwrap();

    assert_eq!(orderbook.depth(Side::Ask, 1), vec![(px(100), qty(15))]);
}

#[test]
fn get_order_finds_a_resting_order() {
    let orderbook = book_with_depth();

    let found = orderbook
        .get_order(&ExchangeId("ask_101".to_owned()))
        .unwrap();
    assert_eq!(found.side, Side::Ask);
    assert_eq!(found.remaining_quantity, qty(200));
}

#[test]
fn get_order_returns_none_for_unknown_id() {
    let orderbook = book_with_depth();

    assert!(
        orderbook
            .get_order(&ExchangeId("nope".to_owned()))
            .is_none()
    );
}

#[test]
fn get_order_returns_none_after_cancel() {
    let mut orderbook = book_with_depth();
    orderbook
        .cancel_order(ExchangeId("bid_99".to_owned()))
        .unwrap();

    assert!(
        orderbook
            .get_order(&ExchangeId("bid_99".to_owned()))
            .is_none()
    );
}

#[test]
fn crosses_returns_false_on_empty_book() {
    let orderbook = book();

    assert!(!orderbook.crosses(Side::Bid, px(100)));
    assert!(!orderbook.crosses(Side::Ask, px(100)));
}

#[test]
fn crosses_detects_marketable_orders() {
    let orderbook = book_with_depth();

    let cases = [
        (Side::Bid, 101, true),
        (Side::Bid, 100, true),
        (Side::Bid, 99, false),
        (Side::Ask, 98, true),
        (Side::Ask, 99, true),
        (Side::Ask, 100, false),
    ];

    for (side, price, expected) in cases {
        assert_eq!(
            orderbook.crosses(side, px(price)),
            expected,
            "crosses({side:?}, {price}) should be {expected}",
        );
    }
}

fn bounded_spec() -> InstrumentSpec {
    InstrumentSpec::cents()
        .with_price_range(
            px(100),
            Some(px(20_000)),
        )
        .unwrap()
        .with_qty_range(qty(5), Some(qty(1000)))
        .unwrap()
}

#[test]
fn submit_rejects_a_quantity_below_the_minimum() {
    let mut ob = OrderBook::new(bounded_spec(), FifoMatcher);
    let result = ob.submit(order(Side::Bid, 5000, 4, None, "small"));

    assert_eq!(
        result,
        Err(OrderBookError::Rejected(
            RejectReason::QuantityBelowMinimum {
                qty: qty(4),
                min: qty(5),
            }
        ))
    );
}

#[test]
fn submit_rejects_a_price_outside_the_band() {
    let mut ob = OrderBook::new(bounded_spec(), FifoMatcher);

    assert!(matches!(
        ob.submit(order(Side::Bid, 50, 10, None, "cheap")),
        Err(OrderBookError::Rejected(
            RejectReason::PriceBelowMinimum { .. }
        ))
    ));
    assert!(matches!(
        ob.submit(order(Side::Ask, 30_000, 10, None, "dear")),
        Err(OrderBookError::Rejected(
            RejectReason::PriceAboveMaximum { .. }
        ))
    ));
}

#[test]
fn a_rejected_submit_leaves_the_book_bit_identical() {
    let mut ob = OrderBook::new(bounded_spec(), FifoMatcher);
    ob.submit(order(Side::Bid, 5000, 10, None, "good"))
        .expect("within bounds");

    let seq_before = ob.next_seq;
    let depth_before = ob.depth(Side::Bid, 10);
    let index_before = ob.order_count();

    assert!(ob.submit(order(Side::Bid, 5000, 4, None, "small")).is_err());

    assert_eq!(ob.next_seq, seq_before, "a reject must not burn an id");
    assert_eq!(ob.depth(Side::Bid, 10), depth_before);
    assert_eq!(ob.order_count(), index_before);
}

#[test]
fn add_order_is_gated_too() {
    let mut ob = OrderBook::new(bounded_spec(), FifoMatcher);
    let result = ob.add_order(order(Side::Bid, 5000, 4, None, "small"));

    assert!(matches!(
        result,
        Err(OrderBookError::Rejected(
            RejectReason::QuantityBelowMinimum { .. }
        ))
    ));
    assert_eq!(ob.levels(Side::Bid).len(), 0);
    assert_eq!(ob.order_count(), 0);
}

#[test]
fn a_stop_trigger_is_checked_against_the_band() {
    let mut ob = OrderBook::new(bounded_spec(), FifoMatcher);
    let stop = Order::builder()
        .side(Side::Bid)
        .quantity(qty(10))
        .client_id("s")
        .exchange_id("s")
        .order_type(OrderType::stop_market(px(50)))
        .build();

    assert!(matches!(
        ob.submit(stop),
        Err(OrderBookError::Rejected(
            RejectReason::PriceBelowMinimum { .. }
        ))
    ));
}

fn min_notional_spec() -> InstrumentSpec {
    InstrumentSpec::cents()
        .with_min_notional(Decimal::new(10, 0))
        .unwrap()
}

#[test]
fn submit_rejects_an_order_worth_less_than_the_floor() {
    let mut ob = OrderBook::new(min_notional_spec(), FifoMatcher);

    assert!(matches!(
        ob.submit(order(Side::Bid, 10, 99, None, "dust")),
        Err(OrderBookError::Rejected(
            RejectReason::NotionalBelowMinimum { .. }
        ))
    ));

    assert!(ob.submit(order(Side::Bid, 10, 100, None, "exact")).is_ok());
}

#[test]
fn a_market_order_skips_the_notional_floor() {
    let mut ob = OrderBook::new(min_notional_spec(), FifoMatcher);
    ob.add_order(order(Side::Ask, 10, 100, None, "maker"))
        .expect("clears the floor");

    let taker = Order::builder()
        .side(Side::Bid)
        .quantity(qty(1))
        .client_id("t")
        .exchange_id("t")
        .order_type(OrderType::Market)
        .build();

    assert!(ob.submit(taker).is_ok());
}

#[test]
fn an_off_tick_price_cannot_even_be_constructed() {
    let spec = InstrumentSpec::new(2, 0, 25, 1).unwrap();

    assert!(matches!(
        spec.price_from_minor(10_003),
        Err(SpecError::PriceOffTick { .. })
    ));
}

fn arrival_at<M: MatchingAlgorithm, S: OrderBookStore>(
    ob: &OrderBook<M, S>,
    side: Side,
    price: i64,
    pos: usize,
) -> u32 {
    let level = ob.level(side, px(price)).expect("level should exist");
    level.orders()[pos].arrival
}

#[test]
fn resting_hands_out_increasing_arrivals() {
    let mut ob = book();
    ob.add_order(order(Side::Bid, 99, 10, None, "first"))
        .unwrap();
    ob.add_order(order(Side::Bid, 99, 10, None, "second"))
        .unwrap();
    ob.add_order(order(Side::Ask, 101, 10, None, "third"))
        .unwrap();

    assert_eq!(arrival_at(&ob, Side::Bid, 99, 0), 1);
    assert_eq!(arrival_at(&ob, Side::Bid, 99, 1), 2);
    assert_eq!(arrival_at(&ob, Side::Ask, 101, 0), 3);
}

#[test]
fn arrivals_count_rests_not_submissions() {
    let mut ob = book();
    ob.add_order(order(Side::Ask, 100, 10, None, "maker"))
        .unwrap();

    let market = |id: &str| {
        Order::builder()
            .side(Side::Bid)
            .quantity(qty(2))
            .client_id(id)
            .exchange_id(id)
            .order_type(OrderType::Market)
            .build()
    };
    ob.submit(market("t1")).unwrap();
    ob.submit(market("t2")).unwrap();

    assert_eq!(ob.next_arrival, 2, "only the maker ever rested");
    assert_eq!(ob.next_seq, 3, "but both takers were assigned ids");
}

#[test]
fn a_rejected_add_burns_no_arrival() {
    let mut ob = book();
    let before = ob.next_arrival;

    let market = Order::builder()
        .side(Side::Bid)
        .quantity(qty(1))
        .client_id("c")
        .exchange_id("m")
        .order_type(OrderType::Market)
        .build();
    assert_eq!(ob.add_order(market), Err(OrderBookError::NotRestable));

    ob.add_order(order(Side::Bid, 99, 10, None, "dup")).unwrap();
    assert_eq!(
        ob.add_order(order(Side::Bid, 99, 10, None, "dup")),
        Err(OrderBookError::ExchangeIdDuplicated)
    );

    assert_eq!(ob.next_arrival, before + 1, "exactly one order got in");
}

#[test]
fn a_partially_filled_taker_is_stamped_at_rest_time() {
    let mut ob = book();
    ob.add_order(order(Side::Ask, 100, 5, None, "maker"))
        .unwrap();
    ob.add_order(order(Side::Bid, 100, 10, None, "resident"))
        .unwrap();

    let taker = Order::builder()
        .side(Side::Bid)
        .quantity(qty(10))
        .client_id("t")
        .exchange_id("t")
        .order_type(OrderType::limit_gtc(px(100)))
        .build();
    ob.submit(taker).unwrap();

    assert_eq!(arrival_at(&ob, Side::Bid, 100, 0), 2, "resident was first");
    assert_eq!(arrival_at(&ob, Side::Bid, 100, 1), 3, "remainder is newer");
}

#[test]
fn a_stop_is_aged_from_when_it_rested_not_when_it_parked() {
    let mut ob = book();

    let stop = Order::builder()
        .side(Side::Ask)
        .quantity(qty(10))
        .client_id("stopper")
        .exchange_id("stop")
        .order_type(OrderType::stop_limit(px(99), px(105)))
        .build();
    ob.submit(stop).unwrap();
    assert_eq!(ob.next_arrival, 1, "parking is not resting");

    ob.add_order(order(Side::Ask, 105, 10, None, "latecomer"))
        .unwrap();

    ob.add_order(order(Side::Bid, 99, 1, None, "bid_99"))
        .unwrap();
    let taker = Order::builder()
        .side(Side::Ask)
        .quantity(qty(1))
        .client_id("t")
        .exchange_id("t")
        .order_type(OrderType::limit_gtc(px(99)))
        .build();
    ob.submit(taker).unwrap();

    assert_eq!(
        arrival_at(&ob, Side::Ask, 105, 0),
        1,
        "the latecomer holds the front of the queue"
    );
    assert_eq!(
        arrival_at(&ob, Side::Ask, 105, 1),
        3,
        "the stop queues where it landed, not where it was sent from"
    );
}
