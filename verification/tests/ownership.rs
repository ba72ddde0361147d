use order_book::allocation::{
    FifoMatcher, MatchingAlgorithm, ProRataMatcher, TimeProRataMatcher,
};
use order_book::instrument::InstrumentSpec;
use order_book::order_queue::OrderArena;
use order_book::orderbook::{OrderBook, OrderBookError, OrderLocation};
use order_book::storage::{
    BTreeStore, HashMapStore, OrderBookStore, StoreError, TickLadderStore,
};
use order_book::test_helpers::{order, px, qty};
use order_book::types::{ExchangeId, Order, OrderType, PriceLevel, Side, TimeInForce};
use std::collections::HashSet;

/// The levels, the parked stops and the index name the same orders, each once.
fn assert_ownership<M: MatchingAlgorithm, S: OrderBookStore>(book: &OrderBook<M, S>) {
    let mut ids = HashSet::new();
    for side in [Side::Bid, Side::Ask] {
        for level in book.levels(side) {
            assert_eq!(level.side, side);
            assert!(!level.is_empty());
            assert_eq!(level.orders().len(), level.order_count());
            for order in level.orders() {
                assert!(ids.insert(order.exchange_id.clone()), "duplicate live ID");
                assert_eq!(order.side, side);
                assert_eq!(order.order_type.limit_price(), Some(level.price));
                assert!(!order.remaining_quantity.is_zero());
                assert_eq!(
                    book.order_location(&order.exchange_id),
                    Some(OrderLocation::Book {
                        side,
                        price: level.price,
                    })
                );
                assert_eq!(book.get_order(&order.exchange_id), Some(order));
            }
        }
    }
    for (side, stops) in [(Side::Bid, &book.stop_bids), (Side::Ask, &book.stop_asks)] {
        for (trigger, orders) in stops {
            assert!(!orders.is_empty());
            for order in orders {
                assert!(ids.insert(order.exchange_id.clone()));
                assert_eq!(order.side, side);
                assert_eq!(
                    book.order_location(&order.exchange_id),
                    Some(OrderLocation::StopBook {
                        side,
                        trigger: px(*trigger as i64),
                    })
                );
            }
        }
    }
    assert_eq!(ids.len(), book.order_count(), "orphaned index entries");
    assert_eq!(
        ids,
        book.order_ids().into_iter().cloned().collect::<HashSet<_>>()
    );
}

fn bounded_spec() -> InstrumentSpec {
    InstrumentSpec::cents()
        .with_price_range(px(90), Some(px(110)))
        .unwrap()
}

struct Random(u64);

impl Random {
    fn below(&mut self, bound: u64) -> u64 {
        self.0 = self
            .0
            .wrapping_mul(6_364_136_223_846_793_005)
            .wrapping_add(1_442_695_040_888_963_407);
        (self.0 >> 33) % bound
    }
}

type Operation = (u64, bool, i64, u64, u64);

fn operations(seed: u64) -> Vec<Operation> {
    let mut random = Random(seed);
    (0..1 + random.below(79))
        .map(|_| {
            (
                random.below(9),
                random.below(2) == 0,
                95 + random.below(11) as i64,
                1 + random.below(20),
                random.below(4),
            )
        })
        .collect()
}

fn snapshot<M: MatchingAlgorithm, S: OrderBookStore>(book: &OrderBook<M, S>) -> Vec<PriceLevel> {
    book.levels(Side::Bid)
        .into_iter()
        .chain(book.levels(Side::Ask))
        .map(|level| level.to_owned())
        .collect()
}

fn exercise<M: MatchingAlgorithm + Clone, S: OrderBookStore>(matcher: M, ops: &[Operation]) {
    let mut book = OrderBook::<M, S>::try_new(bounded_spec(), matcher).unwrap();
    let mut submitted: Vec<ExchangeId> = Vec::new();
    for (step, &(kind, bid, price, size, client)) in ops.iter().enumerate() {
        if kind == 0 && !submitted.is_empty() {
            let id = submitted[step % submitted.len()].clone();
            let expected = book.get_order(&id).is_some();
            assert_eq!(book.cancel_order(id).is_ok(), expected);
        } else {
            let order_type = match kind {
                1 => OrderType::Market,
                2 => OrderType::limit_ioc(px(price)),
                3 => OrderType::limit_fok(px(price)),
                4 => OrderType::stop_market(px(price)),
                5 => OrderType::StopLimit {
                    trigger: px(price),
                    price: px(price),
                    tif: TimeInForce::GTC,
                },
                _ => OrderType::limit_gtc(px(price)),
            };
            let incoming = Order::builder()
                .side(if bid { Side::Bid } else { Side::Ask })
                .order_type(order_type)
                .quantity(qty(size))
                .client_id(&client.to_string())
                .timestamp(step as u128)
                .exchange_id("assigned-by-submit")
                .build();
            submitted.push(book.submit(incoming).unwrap().order_id);
        }
        assert_ownership(&book);
        if step % 13 == 0 {
            assert_ownership(&book.clone());
        }
    }
    let mut clone = book.clone();
    let before = snapshot(&book);
    let stops_before = (book.stop_bids.clone(), book.stop_asks.clone());
    let ids: Vec<ExchangeId> = clone.order_ids().into_iter().cloned().collect();
    for id in ids {
        clone.cancel_order(id).unwrap();
        assert_ownership(&clone);
    }
    assert_eq!(clone.order_count(), 0);
    assert_eq!(snapshot(&clone), vec![]);
    assert_eq!(before, snapshot(&book));
    assert_eq!(
        stops_before,
        (book.stop_bids.clone(), book.stop_asks.clone())
    );
    assert_ownership(&book);
}

#[test]
fn mixed_operations_preserve_shared_arena_ownership() {
    for seed in 0..16 {
        let ops = operations(seed);
        exercise::<_, BTreeStore>(FifoMatcher, &ops);
        exercise::<_, TickLadderStore>(FifoMatcher, &ops);
        exercise::<_, HashMapStore>(FifoMatcher, &ops);
        exercise::<_, BTreeStore>(ProRataMatcher::new(1), &ops);
        exercise::<_, TickLadderStore>(ProRataMatcher::new(1), &ops);
        exercise::<_, HashMapStore>(ProRataMatcher::new(1), &ops);
        exercise::<_, BTreeStore>(TimeProRataMatcher::new(1), &ops);
        exercise::<_, TickLadderStore>(TimeProRataMatcher::new(1), &ops);
        exercise::<_, HashMapStore>(TimeProRataMatcher::new(1), &ops);
    }
}

#[test]
fn snapshots_and_clones_survive_partial_fills_and_slot_reuse() {
    let mut book = OrderBook::new(bounded_spec(), FifoMatcher);
    book.add_order(order(Side::Ask, 100, 10, None, "a"))
        .unwrap();
    book.add_order(order(Side::Ask, 100, 20, None, "b"))
        .unwrap();
    let snapshot = book.best_ask_level().unwrap();
    let view = book.best_level(Side::Ask).unwrap();
    assert_eq!(view.order_count(), view.orders().len());
    assert_eq!(view.makers(), snapshot.makers());
    let mut clone = book.clone();
    clone
        .submit(order(Side::Bid, 100, 15, None, "taker"))
        .unwrap();
    assert_eq!(
        clone
            .get_order(&ExchangeId("b".into()))
            .unwrap()
            .remaining_quantity,
        qty(15)
    );
    clone
        .add_order(order(Side::Ask, 101, 3, None, "c"))
        .unwrap();
    assert!(book.get_order(&ExchangeId("c".into())).is_none());
    assert_eq!(book.best_ask_level(), Some(snapshot.clone()));
    book.cancel_order(ExchangeId("a".into())).unwrap();
    assert_eq!(snapshot.order_count(), 2);
    assert_eq!(snapshot.total_quantity(), qty(30));
    assert_ownership(&clone);
    assert_ownership(&book);
    drop(book);
    assert_eq!(
        snapshot
            .orders
            .iter()
            .map(|order| order.exchange_id.0.as_str())
            .collect::<Vec<_>>(),
        ["a", "b"]
    );
}

#[test]
fn duplicate_and_storage_rejections_leave_no_arena_or_index_entry() {
    let mut book = OrderBook::<_, TickLadderStore>::try_new(bounded_spec(), FifoMatcher).unwrap();
    book.add_order(order(Side::Ask, 100, 1, None, "a")).unwrap();
    let before = format!("{book:?}");
    assert_eq!(
        book.add_order(order(Side::Ask, 101, 2, None, "a")),
        Err(OrderBookError::ExchangeIdDuplicated)
    );
    assert_eq!(format!("{book:?}"), before);

    let mut store = TickLadderStore::try_new(
        InstrumentSpec::cents()
            .with_price_range(px(100), Some(px(101)))
            .unwrap(),
    )
    .unwrap();
    let mut nodes = OrderArena::with_key();
    let before = format!("{store:?}");
    assert_eq!(
        store
            .add(&mut nodes, order(Side::Ask, 105, 1, None, "outside"))
            .unwrap_err(),
        StoreError::PriceOutsideRange
    );
    assert_eq!(format!("{store:?}"), before);
    assert!(nodes.is_empty());

    let quarters = InstrumentSpec::new(2, 0, 25, 1)
        .unwrap()
        .with_price_range(px(100), Some(px(200)))
        .unwrap();
    let mut book = OrderBook::<_, TickLadderStore>::try_new(quarters, FifoMatcher).unwrap();
    let before = format!("{book:?}");
    assert_eq!(
        book.add_order(order(Side::Ask, 105, 1, None, "off-grid")),
        Err(OrderBookError::Storage(StoreError::PriceOutsideRange))
    );
    assert_eq!(format!("{book:?}"), before);
    assert_ownership(&book);
}
