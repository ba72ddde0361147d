use order_book::allocation::{FifoMatcher, MatchingAlgorithm, ProRataMatcher, TimeProRataMatcher};
use order_book::instrument::InstrumentSpec;
use order_book::matching::{ExecutionReport, SubmitOutcome};
use order_book::orderbook::{OrderBook, OrderBookError};
use order_book::storage::{BTreeStore, HashMapStore, OrderBookStore, TickLadderStore};
use order_book::test_helpers::{px, qty};
use order_book::types::{ExchangeId, Order, OrderType, Side};

fn spec() -> InstrumentSpec {
    InstrumentSpec::cents()
        .with_price_range(px(90), Some(px(110)))
        .unwrap()
}

fn from(client: &str, side: Side, order_type: OrderType, quantity: u64) -> Order {
    Order::builder()
        .side(side)
        .order_type(order_type)
        .quantity(qty(quantity))
        .client_id(client)
        .exchange_id("assigned-by-submit")
        .timestamp(0)
        .build()
}

/// Two levels of asks, stops above them, and takers that set the stops off.
fn stream() -> Vec<Order> {
    vec![
        from("c0", Side::Ask, OrderType::limit_gtc(px(100)), 6),
        from("c1", Side::Ask, OrderType::limit_gtc(px(100)), 4),
        from("c2", Side::Ask, OrderType::limit_gtc(px(101)), 8),
        from("c3", Side::Bid, OrderType::limit_gtc(px(98)), 5),
        from("c4", Side::Bid, OrderType::stop_market(px(100)), 3),
        from("c5", Side::Bid, OrderType::stop_limit(px(101), px(102)), 20),
        from("c6", Side::Bid, OrderType::limit_gtc(px(100)), 7),
        from("c7", Side::Bid, OrderType::limit_ioc(px(101)), 2),
        from("c8", Side::Ask, OrderType::limit_fok(px(102)), 100),
        from("c9", Side::Bid, OrderType::limit_gtc(px(120)), 1),
        from("c10", Side::Ask, OrderType::Market, 9),
    ]
}

fn run<M: MatchingAlgorithm, S: OrderBookStore>(
    matcher: M,
) -> (OrderBook<M, S>, Vec<Result<ExecutionReport, OrderBookError>>) {
    let mut ob = OrderBook::<M, S>::try_new(spec(), matcher).unwrap();
    let mut results = Vec::new();
    for order in stream() {
        results.push(ob.submit(order));
        if let (Some(bid), Some(ask)) = (ob.best_bid(), ob.best_ask()) {
            assert!(bid < ask);
        }
    }
    (ob, results)
}

fn traded(report: &ExecutionReport) -> u64 {
    let own: u64 = report.trades.iter().map(|t| t.quantity.base()).sum();
    let fired: u64 = report
        .triggered
        .iter()
        .flat_map(|r| r.trades.iter())
        .map(|t| t.quantity.base())
        .sum();
    own + fired
}

#[test]
fn a_stream_comes_to_the_same_in_every_store() {
    let (tree, expected) = run::<FifoMatcher, BTreeStore>(FifoMatcher);
    let (hash_map, from_hash_map) = run::<FifoMatcher, HashMapStore>(FifoMatcher);
    let (ladder, from_ladder) = run::<FifoMatcher, TickLadderStore>(FifoMatcher);
    assert_eq!(from_hash_map, expected);
    assert_eq!(from_ladder, expected);
    for side in [Side::Bid, Side::Ask] {
        assert_eq!(hash_map.depth(side, 50), tree.depth(side, 50));
        assert_eq!(ladder.depth(side, 50), tree.depth(side, 50));
    }
    assert_eq!(hash_map.last_trade_price, tree.last_trade_price);
    assert_eq!(ladder.last_trade_price, tree.last_trade_price);
}

fn same_totals<M: MatchingAlgorithm>(
    expected: &[Result<ExecutionReport, OrderBookError>],
    base: &OrderBook<FifoMatcher, BTreeStore>,
    matcher: M,
) {
    let (ob, results) = run::<M, BTreeStore>(matcher);
    assert_eq!(results.len(), expected.len());
    for (a, b) in results.iter().zip(expected) {
        match (a, b) {
            (Ok(a), Ok(b)) => {
                assert_eq!(a.order_id, b.order_id);
                assert_eq!(a.outcome, b.outcome);
                assert_eq!(traded(a), traded(b));
                assert_eq!(a.triggered.len(), b.triggered.len());
                assert!(a.cancelled.is_empty() && b.cancelled.is_empty());
            }
            (a, b) => assert_eq!(a, b),
        }
    }
    for side in [Side::Bid, Side::Ask] {
        assert_eq!(ob.depth(side, 50), base.depth(side, 50));
    }
    assert_eq!(ob.last_trade_price, base.last_trade_price);
}

#[test]
fn a_stream_comes_to_the_same_totals_under_every_policy() {
    let (base, expected) = run::<FifoMatcher, BTreeStore>(FifoMatcher);
    same_totals(&expected, &base, ProRataMatcher::new(spec().lot_size()));
    same_totals(&expected, &base, TimeProRataMatcher::new(spec().lot_size()));
}

#[test]
fn a_submission_fires_stops_that_waited_before_it() {
    let (ob, results) = run::<FifoMatcher, BTreeStore>(FifoMatcher);
    let mut parked: Vec<ExchangeId> = Vec::new();
    let mut fired = 0;
    for result in results.iter().flatten() {
        for stop in &result.triggered {
            assert!(stop.triggered.is_empty());
            assert_ne!(stop.outcome, SubmitOutcome::StopPending);
            assert!(parked.contains(&stop.order_id));
            fired += 1;
        }
        if result.outcome == SubmitOutcome::StopPending {
            parked.push(result.order_id.clone());
        }
    }
    assert_eq!(parked.len(), 2);
    assert_eq!(fired, 2);
    assert_eq!(ob.order_ids().len(), ob.order_count());
}

#[test]
fn a_submission_on_the_grid_succeeds_unless_it_is_refused() {
    let (_, results) = run::<FifoMatcher, TickLadderStore>(FifoMatcher);
    for (i, result) in results.iter().enumerate() {
        if i == 9 {
            assert!(matches!(result, Err(OrderBookError::Rejected(_))));
        } else {
            assert!(result.is_ok());
        }
    }
    let last = results[10].as_ref().unwrap();
    assert_eq!(last.order_id, ExchangeId("exchId-10".to_owned()));
}
