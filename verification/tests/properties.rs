use order_book::allocation::{
    FifoMatcher, MatchingAlgorithm, ProRataMatcher, TimeProRataMatcher,
};
use order_book::instrument::{InstrumentSpec, Price, Qty};
use order_book::matching::{ExecutionReport, SubmitOutcome};
use order_book::orderbook::{OrderBook, OrderBookError, OrderLocation};
use order_book::storage::{BTreeStore, HashMapStore, OrderBookStore, TickLadderStore};
use order_book::types::{ExchangeId, Order, OrderType, Side, TimeInForce};
use rust_decimal::Decimal;
use std::collections::HashMap;

/// How many streams each invariant is run on.
const STREAMS: u64 = 24;

/// Cents on a quarter tick, whole units, prices from 95.00 to 105.00.
fn spec() -> InstrumentSpec {
    let spec = InstrumentSpec::new(2, 0, 25, 1).expect("2/0/25/1 is a valid spec");
    let min = spec.price_from_minor(9_500).unwrap();
    let max = spec.price_from_minor(10_500).unwrap();
    spec.with_price_range(min, Some(max)).unwrap()
}

/// The same grid in lots of ten.
fn lot_ten_spec() -> InstrumentSpec {
    let spec = InstrumentSpec::new(2, 0, 25, 10).expect("2/0/25/10 is a valid spec");
    let min = spec.price_from_minor(9_500).unwrap();
    let max = spec.price_from_minor(10_500).unwrap();
    spec.with_price_range(min, Some(max)).unwrap()
}

/// The same grid with sizes from 5 to 1000.
fn bounded_spec() -> InstrumentSpec {
    spec()
        .with_qty_range(qty(5), Some(qty(1000)))
        .expect("5 and 1000 are whole lots")
}

fn lot() -> u64 {
    spec().lot_size()
}

fn qty(n: u64) -> Qty {
    spec()
        .qty_from_base(n)
        .expect("a unit lot accepts any count")
}

fn px(minor: u64) -> Price {
    spec()
        .price_from_minor(minor)
        .expect("drawn on the tick grid")
}

/// A reproducible stream of draws.
struct Random(u64);

impl Random {
    fn below(&mut self, bound: u64) -> u64 {
        self.0 = self
            .0
            .wrapping_mul(6_364_136_223_846_793_005)
            .wrapping_add(1_442_695_040_888_963_407);
        (self.0 >> 33) % bound
    }

    fn side(&mut self) -> Side {
        if self.below(2) == 0 {
            Side::Bid
        } else {
            Side::Ask
        }
    }

    fn price(&mut self) -> Price {
        px(25 * (380 + self.below(41)))
    }

    fn order_type(&mut self) -> OrderType {
        match self.below(9) {
            0..=3 => OrderType::limit_gtc(self.price()),
            4 => OrderType::limit_ioc(self.price()),
            5 => OrderType::limit_fok(self.price()),
            6 => OrderType::Market,
            7 => OrderType::stop_market(self.price()),
            _ => OrderType::stop_limit(self.price(), self.price()),
        }
    }

    fn order(&mut self, client: u64, lot: u64, most: u64) -> Order {
        Order::builder()
            .exchange_id("caller-provided")
            .client_id(&format!("client-{client}"))
            .order_type(self.order_type())
            .side(self.side())
            .quantity(qty(lot * (1 + self.below(most))))
            .build()
    }

    fn stream(&mut self, longest: u64) -> Vec<Order> {
        (0..1 + self.below(longest))
            .map(|_| {
                let client = self.below(4);
                self.order(client, 1, 50)
            })
            .collect()
    }

    fn lot_ten_stream(&mut self, longest: u64) -> Vec<Order> {
        (0..1 + self.below(longest))
            .map(|_| {
                let client = self.below(4);
                self.order(client, 10, 20)
            })
            .collect()
    }

    /// A stream in which no client has two orders.
    fn stream_of_strangers(&mut self, longest: u64) -> Vec<Order> {
        (0..1 + self.below(longest))
            .map(|client| self.order(client, 1, 50))
            .collect()
    }
}

fn streams() -> Vec<Vec<Order>> {
    (0..STREAMS).map(|seed| Random(seed).stream(59)).collect()
}

fn total(quantities: impl Iterator<Item = Qty>) -> Qty {
    Qty::sum(&quantities.collect::<Vec<_>>())
}

fn locations<M: MatchingAlgorithm, S: OrderBookStore>(
    book: &OrderBook<M, S>,
) -> HashMap<ExchangeId, OrderLocation> {
    book.order_ids()
        .into_iter()
        .map(|id| (id.clone(), book.order_location(id).unwrap()))
        .collect()
}

fn opposite(side: Side) -> Side {
    match side {
        Side::Bid => Side::Ask,
        Side::Ask => Side::Bid,
    }
}

fn resting_snapshot<M: MatchingAlgorithm, S: OrderBookStore>(
    book: &OrderBook<M, S>,
) -> HashMap<ExchangeId, (Side, Price, Qty)> {
    book.levels(Side::Bid)
        .into_iter()
        .chain(book.levels(Side::Ask))
        .flat_map(|level| {
            level.orders().into_iter().map(move |o| {
                (
                    o.exchange_id.clone(),
                    (o.side, level.price, o.remaining_quantity),
                )
            })
        })
        .collect()
}

fn total_depth<M: MatchingAlgorithm, S: OrderBookStore>(book: &OrderBook<M, S>) -> Qty {
    total(
        book.levels(Side::Bid)
            .into_iter()
            .chain(book.levels(Side::Ask))
            .map(|level| level.total_quantity()),
    )
}

fn level_depths<M: MatchingAlgorithm, S: OrderBookStore>(
    book: &OrderBook<M, S>,
) -> Vec<(Price, Qty)> {
    book.levels(Side::Bid)
        .into_iter()
        .chain(book.levels(Side::Ask))
        .map(|level| (level.price, level.total_quantity()))
        .collect()
}

fn rested_remaining<M: MatchingAlgorithm, S: OrderBookStore>(
    book: &OrderBook<M, S>,
    id: &ExchangeId,
) -> Option<Qty> {
    match book.order_location(id)? {
        OrderLocation::Book { .. } => book.get_order(id).map(|o| o.remaining_quantity),
        OrderLocation::StopBook { .. } => None,
    }
}

fn parked_remaining<M: MatchingAlgorithm, S: OrderBookStore>(
    book: &OrderBook<M, S>,
    id: &ExchangeId,
) -> Option<Qty> {
    match book.order_location(id)? {
        OrderLocation::StopBook { .. } => book.get_order(id).map(|o| o.remaining_quantity),
        OrderLocation::Book { .. } => None,
    }
}

fn all_reports(report: &ExecutionReport) -> impl Iterator<Item = &ExecutionReport> {
    std::iter::once(report).chain(report.triggered.iter())
}

fn fills_by_maker(report: &ExecutionReport) -> HashMap<ExchangeId, Qty> {
    let mut fills: HashMap<ExchangeId, Qty> = HashMap::new();
    for r in all_reports(report) {
        for t in &r.trades {
            let filled = fills.entry(t.maker_order_id.clone()).or_default();
            *filled = *filled + t.quantity;
        }
    }
    fills
}

fn cascade_filled(report: &ExecutionReport) -> Qty {
    total(
        all_reports(report)
            .flat_map(|r| &r.trades)
            .map(|t| t.quantity),
    )
}

fn same_public_state<A: MatchingAlgorithm, B: MatchingAlgorithm, S: OrderBookStore>(
    name: &str,
    other: &OrderBook<A, S>,
    base: &OrderBook<B, S>,
) {
    assert_eq!(total_depth(other), total_depth(base), "{} depth", name);
    assert_eq!(other.best_bid(), base.best_bid(), "{} best bid", name);
    assert_eq!(other.best_ask(), base.best_ask(), "{} best ask", name);
    assert_eq!(
        other.last_trade_price,
        base.last_trade_price,
        "{} last trade price",
        name
    );
    assert_eq!(level_depths(other), level_depths(base), "{} levels", name);
}

fn check_storage_agreement<M: MatchingAlgorithm + Clone>(
    matcher: M,
    stream: &[Order],
) {
    let mut tree = OrderBook::<M, BTreeStore>::try_new(spec(), matcher.clone()).unwrap();
    let mut ladder = OrderBook::<M, TickLadderStore>::try_new(spec(), matcher.clone()).unwrap();
    let mut hash_map = OrderBook::<M, HashMapStore>::try_new(spec(), matcher).unwrap();

    for order in stream.iter().cloned() {
        let tree_report = tree.submit(order.clone()).unwrap();
        let ladder_report = ladder.submit(order.clone()).unwrap();
        let hash_map_report = hash_map.submit(order).unwrap();
        assert_eq!(&ladder_report, &tree_report, "execution reports diverged");
        assert_eq!(&hash_map_report, &tree_report, "execution reports diverged");
        assert_eq!(resting_snapshot(&ladder), resting_snapshot(&tree));
        assert_eq!(resting_snapshot(&hash_map), resting_snapshot(&tree));
        assert_eq!(level_depths(&ladder), level_depths(&tree));
        assert_eq!(level_depths(&hash_map), level_depths(&tree));
        assert_eq!(ladder.best_bid(), tree.best_bid());
        assert_eq!(hash_map.best_bid(), tree.best_bid());
        assert_eq!(ladder.best_ask(), tree.best_ask());
        assert_eq!(hash_map.best_ask(), tree.best_ask());
        assert_eq!(ladder.last_trade_price, tree.last_trade_price);
        assert_eq!(hash_map.last_trade_price, tree.last_trade_price);
        assert_eq!(locations(&ladder), locations(&tree));
        assert_eq!(locations(&hash_map), locations(&tree));
        assert_eq!(&ladder.stop_bids, &tree.stop_bids);
        assert_eq!(&hash_map.stop_bids, &tree.stop_bids);
        assert_eq!(&ladder.stop_asks, &tree.stop_asks);
        assert_eq!(&hash_map.stop_asks, &tree.stop_asks);
        assert_eq!(ladder.next_seq, tree.next_seq);
        assert_eq!(hash_map.next_seq, tree.next_seq);
        assert_eq!(ladder.next_arrival, tree.next_arrival);
        assert_eq!(hash_map.next_arrival, tree.next_arrival);
    }
}

fn check_conservation<M: MatchingAlgorithm, S: OrderBookStore>(
    matcher: M,
    stream: &[Order],
) {
    let mut book = OrderBook::<M, S>::try_new(spec(), matcher).unwrap();
    let mut parked: HashMap<ExchangeId, Qty> = HashMap::new();

    for order in stream.iter().cloned() {
        let original = order.original_quantity;
        let order_type = order.order_type;
        let can_kill = matches!(
            order.order_type,
            OrderType::Market
                | OrderType::Limit { tif: TimeInForce::IOC | TimeInForce::FOK, .. }
                | OrderType::StopMarket { .. }
                | OrderType::StopLimit { tif: TimeInForce::IOC | TimeInForce::FOK, .. }
        );
        let is_fok = matches!(
            order.order_type,
            OrderType::Limit {
                tif: TimeInForce::FOK,
                ..
            }
        );

        let report = book.submit(order).unwrap();
        let consumed_later = fills_by_maker(&report);

        for trade in all_reports(&report).flat_map(|r| &r.trades) {
            assert!(!trade.quantity.is_zero(), "zero-quantity trade");
        }

        let stp_cancelled =
            |id: &ExchangeId| all_reports(&report).any(|r| r.cancelled.contains(id));

        let filled = total(report.trades.iter().map(|t| t.quantity));
        let rested = rested_remaining(&book, &report.order_id);
        let eaten = consumed_later
            .get(&report.order_id)
            .copied()
            .unwrap_or(Qty::zero());
        let cancelled_later = stp_cancelled(&report.order_id);
        match report.outcome {
            SubmitOutcome::Filled => {
                assert_eq!(filled, original);
                assert_eq!(rested, None);
            }
            SubmitOutcome::Rested => {
                assert!(report.trades.is_empty());
                if cancelled_later {
                    assert_eq!(rested, None);
                } else {
                    assert_eq!(rested.unwrap_or(Qty::zero()) + eaten, original);
                }
            }
            SubmitOutcome::PartiallyFilledAndRested => {
                assert!(!filled.is_zero() && filled < original);
                if cancelled_later {
                    assert_eq!(rested, None);
                } else {
                    assert_eq!(rested.unwrap_or(Qty::zero()) + eaten, original - filled);
                }
            }
            SubmitOutcome::Killed => {
                assert!(can_kill, "only market/IOC/FOK remainders are killed");
                assert!(filled < original);
                if is_fok {
                    assert_eq!(filled, Qty::zero(), "FOK partially filled");
                    assert!(report.cancelled.is_empty());
                }
                assert_eq!(rested, None);
            }
            SubmitOutcome::StopPending => {
                let was_stop = matches!(
                    order_type,
                    OrderType::StopMarket { .. } | OrderType::StopLimit { .. }
                );
                assert!(was_stop, "only stops can park");
                assert!(report.trades.is_empty());
                assert_eq!(parked_remaining(&book, &report.order_id), Some(original));
                parked.insert(report.order_id.clone(), original);
            }
        }

        for r in &report.triggered {
            let parked_original = parked
                .remove(&r.order_id)
                .expect("triggered stop must have been parked earlier");
            assert!(r.triggered.is_empty(), "cascade reports must be flat");

            let filled = total(r.trades.iter().map(|t| t.quantity));
            let rested = rested_remaining(&book, &r.order_id);
            let eaten = consumed_later
                .get(&r.order_id)
                .copied()
                .unwrap_or(Qty::zero());
            let cancelled_later = stp_cancelled(&r.order_id);
            match r.outcome {
                SubmitOutcome::Filled => {
                    assert_eq!(filled, parked_original);
                    assert_eq!(rested, None);
                }
                SubmitOutcome::Rested => {
                    assert!(r.trades.is_empty());
                    if cancelled_later {
                        assert_eq!(rested, None);
                    } else {
                        assert_eq!(rested.unwrap_or(Qty::zero()) + eaten, parked_original);
                    }
                }
                SubmitOutcome::PartiallyFilledAndRested => {
                    assert!(!filled.is_zero() && filled < parked_original);
                    if cancelled_later {
                        assert_eq!(rested, None);
                    } else {
                        assert_eq!(
                            rested.unwrap_or(Qty::zero()) + eaten,
                            parked_original - filled
                        );
                    }
                }
                SubmitOutcome::Killed => {
                    assert!(filled < parked_original);
                    assert_eq!(rested, None);
                }
                SubmitOutcome::StopPending => {
                    panic!("an activated stop can never re-park");
                }
            }
        }
    }
}

fn check_depth_accounting<M: MatchingAlgorithm, S: OrderBookStore>(
    matcher: M,
    stream: &[Order],
) {
    let mut book = OrderBook::<M, S>::try_new(spec(), matcher).unwrap();
    let mut parked: HashMap<ExchangeId, Qty> = HashMap::new();

    for order in stream.iter().cloned() {
        let original = order.original_quantity;
        let before = resting_snapshot(&book);
        let depth_before = total_depth(&book);

        let report = book.submit(order).unwrap();
        let fills = fills_by_maker(&report);

        let mut filled_total = Qty::zero();
        let mut rested_total = Qty::zero();
        let mut cancelled_total = Qty::zero();
        let mut rest_qty: HashMap<ExchangeId, Qty> = HashMap::new();

        for (i, r) in all_reports(&report).enumerate() {
            let exec_original = if i == 0 {
                original
            } else {
                *parked.get(&r.order_id).expect("triggered stop was parked")
            };
            let filled = total(r.trades.iter().map(|t| t.quantity));
            filled_total = filled_total + filled;

            if matches!(
                r.outcome,
                SubmitOutcome::Rested | SubmitOutcome::PartiallyFilledAndRested
            ) {
                let at_rest = exec_original - filled;
                rested_total = rested_total + at_rest;
                rest_qty.insert(r.order_id.clone(), at_rest);
            }

            for id in &r.cancelled {
                let start = before
                    .get(id)
                    .map(|(_, _, remaining)| *remaining)
                    .or_else(|| rest_qty.get(id).copied())
                    .expect("cancelled order rested before or during this submit");
                cancelled_total = cancelled_total + start - fills.get(id).copied().unwrap_or(Qty::zero());
            }
        }
        for r in &report.triggered {
            parked.remove(&r.order_id);
        }
        if report.outcome == SubmitOutcome::StopPending {
            parked.insert(report.order_id.clone(), original);
        }

        assert_eq!(
            i128::from(total_depth(&book).base()),
            i128::from(depth_before.base()) + i128::from(rested_total.base())
                - i128::from(filled_total.base())
                - i128::from(cancelled_total.base())
        );
    }
}

fn check_price_validity<M: MatchingAlgorithm, S: OrderBookStore>(
    matcher: M,
    stream: &[Order],
) {
    let mut book = OrderBook::<M, S>::try_new(spec(), matcher).unwrap();

    for order in stream.iter().cloned() {
        let taker_side = order.side;
        let limit = match order.order_type {
            OrderType::Limit { price, .. } => Some(price),
            _ => None,
        };

        let before = resting_snapshot(&book);
        let report = book.submit(order).unwrap();

        for (i, r) in all_reports(&report).enumerate() {
            let mut prev_price: Option<Price> = None;
            for trade in &r.trades {
                assert_ne!(
                    &trade.maker_client,
                    &trade.taker_client,
                    "a client traded with itself"
                );

                if let Some((maker_side, maker_price, _)) = before.get(&trade.maker_order_id) {
                    assert_eq!(
                        trade.price,
                        *maker_price,
                        "trade must print at maker's price"
                    );
                    assert_eq!(*maker_side, opposite(trade.taker_side));
                }
                assert_eq!(&trade.taker_order_id, &r.order_id);

                if i == 0 {
                    assert_eq!(trade.taker_side, taker_side);
                    if let Some(limit) = limit {
                        match taker_side {
                            Side::Bid => assert!(trade.price <= limit),
                            Side::Ask => assert!(trade.price >= limit),
                        }
                    }
                }

                if let Some(prev) = prev_price {
                    match trade.taker_side {
                        Side::Bid => assert!(trade.price >= prev),
                        Side::Ask => assert!(trade.price <= prev),
                    }
                }
                prev_price = Some(trade.price);
            }
        }
    }
}

fn check_queue_order_within_execution<M: MatchingAlgorithm, S: OrderBookStore>(
    matcher: M,
    stream: &[Order],
) {
    let mut book = OrderBook::<M, S>::try_new(spec(), matcher).unwrap();
    let mut next_stamp: u64 = 0;
    let mut rest_stamp: HashMap<ExchangeId, u64> = HashMap::new();

    for order in stream.iter().cloned() {
        let report = book.submit(order).unwrap();

        for r in all_reports(&report) {
            let mut last_traded: HashMap<(bool, Price), u64> = HashMap::new();
            for trade in &r.trades {
                let maker_is_bid = opposite(trade.taker_side) == Side::Bid;
                let stamp = *rest_stamp
                    .get(&trade.maker_order_id)
                    .expect("maker must have rested before trading");
                let key = (maker_is_bid, trade.price);
                if let Some(&prev) = last_traded.get(&key) {
                    assert!(
                        stamp >= prev,
                        "queue order violated at {:?}: maker stamped {} traded after {}",
                        trade.price,
                        stamp,
                        prev
                    );
                }
                last_traded.insert(key, stamp);
            }
            if matches!(
                r.outcome,
                SubmitOutcome::Rested | SubmitOutcome::PartiallyFilledAndRested
            ) {
                rest_stamp.insert(r.order_id.clone(), next_stamp);
                next_stamp += 1;
            }
        }
    }
}

fn check_never_crossed<M: MatchingAlgorithm, S: OrderBookStore>(
    matcher: M,
    stream: &[Order],
) {
    let mut book = OrderBook::<M, S>::try_new(spec(), matcher).unwrap();

    for order in stream.iter().cloned() {
        book.submit(order).unwrap();
        if let (Some(bid), Some(ask)) = (book.best_bid(), book.best_ask()) {
            assert!(bid < ask, "book crossed: bid {bid:?} >= ask {ask:?}");
        }
    }
}

fn check_index_consistency<M: MatchingAlgorithm, S: OrderBookStore>(
    matcher: M,
    stream: &[Order],
) {
    let mut book = OrderBook::<M, S>::try_new(spec(), matcher).unwrap();
    for order in stream.iter().cloned() {
        book.submit(order).unwrap();
    }

    let mut live_orders = 0usize;
    for level in book.levels(Side::Ask) {
        assert!(!level.is_empty(), "empty level left in asks");
        assert_eq!(level.side, Side::Ask);
        for o in level.orders() {
            live_orders += 1;
            assert!(!o.remaining_quantity.is_zero());
            assert_eq!(o.order_type.limit_price(), Some(level.price));
            let expected = OrderLocation::Book {
                side: Side::Ask,
                price: level.price,
            };
            assert_eq!(book.order_location(&o.exchange_id), Some(expected));
        }
    }
    for level in book.levels(Side::Bid) {
        assert!(!level.is_empty(), "empty level left in bids");
        assert_eq!(level.side, Side::Bid);
        for o in level.orders() {
            live_orders += 1;
            assert!(!o.remaining_quantity.is_zero());
            assert_eq!(o.order_type.limit_price(), Some(level.price));
            let expected = OrderLocation::Book {
                side: Side::Bid,
                price: level.price,
            };
            assert_eq!(book.order_location(&o.exchange_id), Some(expected));
        }
    }
    for (side, stops) in [(Side::Bid, &book.stop_bids), (Side::Ask, &book.stop_asks)] {
        for (trigger, queue) in stops {
            assert!(!queue.is_empty(), "empty stop queue left behind");
            for o in queue {
                live_orders += 1;
                assert_eq!(o.side, side);
                assert!(!o.remaining_quantity.is_zero());
                let is_stop = matches!(
                    o.order_type,
                    OrderType::StopMarket { .. } | OrderType::StopLimit { .. }
                );
                assert!(is_stop, "non-stop order parked in the stop book");
                let expected = OrderLocation::StopBook {
                    side,
                    trigger: px(*trigger),
                };
                assert_eq!(book.order_location(&o.exchange_id), Some(expected));
            }
        }
    }
    assert_eq!(
        live_orders,
        book.order_count(),
        "index and structures disagree"
    );

    let ids: Vec<ExchangeId> = book.order_ids().into_iter().cloned().collect();
    for id in ids {
        assert!(book.cancel_order(id).is_ok());
    }
    assert_eq!(book.levels(Side::Bid).len(), 0);
    assert_eq!(book.levels(Side::Ask).len(), 0);
    assert!(book.stop_bids.is_empty());
    assert!(book.stop_asks.is_empty());
    assert!(book.order_count() == 0);
}

fn check_stop_discipline<M: MatchingAlgorithm, S: OrderBookStore>(
    matcher: M,
    stream: &[Order],
) {
    let mut book = OrderBook::<M, S>::try_new(spec(), matcher).unwrap();

    for order in stream.iter().cloned() {
        book.submit(order).unwrap();
        if let Some(last) = book.last_trade_price {
            for trigger in book.stop_bids.keys() {
                assert!(
                    px(*trigger) > last,
                    "pending buy stop at {:?} but market already traded {:?}",
                    trigger,
                    last
                );
            }
            for trigger in book.stop_asks.keys() {
                assert!(
                    px(*trigger) < last,
                    "pending sell stop at {:?} but market already traded {:?}",
                    trigger,
                    last
                );
            }
        }
    }
}

fn check_lattice_closure<M: MatchingAlgorithm, S: OrderBookStore>(
    matcher: M,
    spec: InstrumentSpec,
    stream: &[Order],
) {
    let tick = spec.tick_decimal();
    let lot = spec.lot_decimal();
    let mut book = OrderBook::<M, S>::try_new(spec, matcher).unwrap();

    for order in stream.iter().cloned() {
        let report = book.submit(order).unwrap();

        for trade in all_reports(&report).flat_map(|r| &r.trades) {
            let q = spec.qty_to_decimal(trade.quantity);
            assert_eq!(q % lot, Decimal::ZERO, "trade quantity off the lot grid");
            let p = spec.to_decimal(trade.price);
            assert_eq!(p % tick, Decimal::ZERO, "trade price off the tick grid");
        }
    }

    let levels = book.levels(Side::Bid).into_iter().chain(book.levels(Side::Ask));
    for level in levels {
        let p = spec.to_decimal(level.price);
        assert_eq!(p % tick, Decimal::ZERO, "level price off the tick grid");
        assert_eq!(
            spec.price(p).unwrap(),
            level.price,
            "price lost in conversion"
        );

        for o in level.orders() {
            let q = spec.qty_to_decimal(o.remaining_quantity);
            assert_eq!(q % lot, Decimal::ZERO, "resting quantity off the lot grid");
            assert_eq!(
                spec.qty(q).unwrap(),
                o.remaining_quantity,
                "quantity lost in conversion"
            );
        }
    }

    let parked = book.stop_bids.iter().chain(book.stop_asks.iter());
    for (trigger, queue) in parked {
        let t = spec.to_decimal(px(*trigger));
        assert_eq!(t % tick, Decimal::ZERO, "stop trigger off the tick grid");
        for o in queue {
            let q = spec.qty_to_decimal(o.remaining_quantity);
            assert_eq!(q % lot, Decimal::ZERO, "parked quantity off the lot grid");
        }
    }
}

fn check_reject_is_a_no_op<M: MatchingAlgorithm, S: OrderBookStore>(
    matcher: M,
    stream: &[Order],
    too_small: u64,
    side: Side,
    price: Price,
) {
    let mut book = OrderBook::<M, S>::try_new(bounded_spec(), matcher).unwrap();
    for order in stream.iter().cloned() {
        let _ = book.submit(order);
    }

    let resting_before = resting_snapshot(&book);
    let depth_before = total_depth(&book);
    let seq_before = book.next_seq;
    let arrival_before = book.next_arrival;
    let stops_before = book.stop_bids.len() + book.stop_asks.len();

    let bad = Order::builder()
        .side(side)
        .order_type(OrderType::limit_gtc(price))
        .quantity(qty(too_small))
        .client_id("rejected")
        .exchange_id("rejected")
        .build();

    let err = book.submit(bad).expect_err("below the size minimum");
    assert!(matches!(err, OrderBookError::Rejected(_)), "got {err:?}");

    assert_eq!(book.next_seq, seq_before, "a reject must not burn an id");
    assert_eq!(
        book.next_arrival,
        arrival_before,
        "a reject must not take a place in line"
    );
    assert_eq!(total_depth(&book), depth_before);
    assert_eq!(resting_snapshot(&book), resting_before);
    assert_eq!(book.stop_bids.len() + book.stop_asks.len(), stops_before);
}

#[test]
fn conservation_per_submit() {
    for stream in streams() {
        check_conservation::<_, BTreeStore>(FifoMatcher, &stream);
        check_conservation::<_, BTreeStore>(ProRataMatcher::new(lot()), &stream);
        check_conservation::<_, BTreeStore>(TimeProRataMatcher::new(lot()), &stream);
        check_conservation::<_, TickLadderStore>(FifoMatcher, &stream);
        check_conservation::<_, TickLadderStore>(ProRataMatcher::new(lot()), &stream);
        check_conservation::<_, TickLadderStore>(TimeProRataMatcher::new(lot()), &stream);
        check_conservation::<_, HashMapStore>(FifoMatcher, &stream);
        check_conservation::<_, HashMapStore>(ProRataMatcher::new(lot()), &stream);
        check_conservation::<_, HashMapStore>(TimeProRataMatcher::new(lot()), &stream);
    }
}

#[test]
fn book_depth_accounting() {
    for stream in streams() {
        check_depth_accounting::<_, BTreeStore>(FifoMatcher, &stream);
        check_depth_accounting::<_, BTreeStore>(ProRataMatcher::new(lot()), &stream);
        check_depth_accounting::<_, BTreeStore>(TimeProRataMatcher::new(lot()), &stream);
        check_depth_accounting::<_, TickLadderStore>(FifoMatcher, &stream);
        check_depth_accounting::<_, TickLadderStore>(ProRataMatcher::new(lot()), &stream);
        check_depth_accounting::<_, TickLadderStore>(TimeProRataMatcher::new(lot()), &stream);
        check_depth_accounting::<_, HashMapStore>(FifoMatcher, &stream);
        check_depth_accounting::<_, HashMapStore>(ProRataMatcher::new(lot()), &stream);
        check_depth_accounting::<_, HashMapStore>(TimeProRataMatcher::new(lot()), &stream);
    }
}

#[test]
fn trades_at_maker_price_within_taker_limit() {
    for stream in streams() {
        check_price_validity::<_, BTreeStore>(FifoMatcher, &stream);
        check_price_validity::<_, BTreeStore>(ProRataMatcher::new(lot()), &stream);
        check_price_validity::<_, BTreeStore>(TimeProRataMatcher::new(lot()), &stream);
        check_price_validity::<_, TickLadderStore>(FifoMatcher, &stream);
        check_price_validity::<_, TickLadderStore>(ProRataMatcher::new(lot()), &stream);
        check_price_validity::<_, TickLadderStore>(TimeProRataMatcher::new(lot()), &stream);
        check_price_validity::<_, HashMapStore>(FifoMatcher, &stream);
        check_price_validity::<_, HashMapStore>(ProRataMatcher::new(lot()), &stream);
        check_price_validity::<_, HashMapStore>(TimeProRataMatcher::new(lot()), &stream);
    }
}

#[test]
fn queue_order_within_one_execution() {
    for stream in streams() {
        check_queue_order_within_execution::<_, BTreeStore>(FifoMatcher, &stream);
        check_queue_order_within_execution::<_, BTreeStore>(ProRataMatcher::new(lot()), &stream);
        check_queue_order_within_execution::<_, BTreeStore>(TimeProRataMatcher::new(lot()), &stream);
        check_queue_order_within_execution::<_, TickLadderStore>(FifoMatcher, &stream);
        check_queue_order_within_execution::<_, TickLadderStore>(ProRataMatcher::new(lot()), &stream);
        check_queue_order_within_execution::<_, TickLadderStore>(TimeProRataMatcher::new(lot()), &stream);
        check_queue_order_within_execution::<_, HashMapStore>(FifoMatcher, &stream);
        check_queue_order_within_execution::<_, HashMapStore>(ProRataMatcher::new(lot()), &stream);
        check_queue_order_within_execution::<_, HashMapStore>(TimeProRataMatcher::new(lot()), &stream);
    }
}

#[test]
fn book_never_crossed_after_submit() {
    for stream in streams() {
        check_never_crossed::<_, BTreeStore>(FifoMatcher, &stream);
        check_never_crossed::<_, BTreeStore>(ProRataMatcher::new(lot()), &stream);
        check_never_crossed::<_, BTreeStore>(TimeProRataMatcher::new(lot()), &stream);
        check_never_crossed::<_, TickLadderStore>(FifoMatcher, &stream);
        check_never_crossed::<_, TickLadderStore>(ProRataMatcher::new(lot()), &stream);
        check_never_crossed::<_, TickLadderStore>(TimeProRataMatcher::new(lot()), &stream);
        check_never_crossed::<_, HashMapStore>(FifoMatcher, &stream);
        check_never_crossed::<_, HashMapStore>(ProRataMatcher::new(lot()), &stream);
        check_never_crossed::<_, HashMapStore>(TimeProRataMatcher::new(lot()), &stream);
    }
}

#[test]
fn index_matches_levels_and_book_drains() {
    for stream in streams() {
        check_index_consistency::<_, BTreeStore>(FifoMatcher, &stream);
        check_index_consistency::<_, BTreeStore>(ProRataMatcher::new(lot()), &stream);
        check_index_consistency::<_, BTreeStore>(TimeProRataMatcher::new(lot()), &stream);
        check_index_consistency::<_, TickLadderStore>(FifoMatcher, &stream);
        check_index_consistency::<_, TickLadderStore>(ProRataMatcher::new(lot()), &stream);
        check_index_consistency::<_, TickLadderStore>(TimeProRataMatcher::new(lot()), &stream);
        check_index_consistency::<_, HashMapStore>(FifoMatcher, &stream);
        check_index_consistency::<_, HashMapStore>(ProRataMatcher::new(lot()), &stream);
        check_index_consistency::<_, HashMapStore>(TimeProRataMatcher::new(lot()), &stream);
    }
}

#[test]
fn no_satisfied_stop_left_pending() {
    for stream in streams() {
        check_stop_discipline::<_, BTreeStore>(FifoMatcher, &stream);
        check_stop_discipline::<_, BTreeStore>(ProRataMatcher::new(lot()), &stream);
        check_stop_discipline::<_, BTreeStore>(TimeProRataMatcher::new(lot()), &stream);
        check_stop_discipline::<_, TickLadderStore>(FifoMatcher, &stream);
        check_stop_discipline::<_, TickLadderStore>(ProRataMatcher::new(lot()), &stream);
        check_stop_discipline::<_, TickLadderStore>(TimeProRataMatcher::new(lot()), &stream);
        check_stop_discipline::<_, HashMapStore>(FifoMatcher, &stream);
        check_stop_discipline::<_, HashMapStore>(ProRataMatcher::new(lot()), &stream);
        check_stop_discipline::<_, HashMapStore>(TimeProRataMatcher::new(lot()), &stream);
    }
}

#[test]
fn everything_the_book_holds_stays_on_the_lattice() {
    for stream in streams() {
        check_lattice_closure::<_, BTreeStore>(FifoMatcher, spec(), &stream);
        check_lattice_closure::<_, BTreeStore>(ProRataMatcher::new(lot()), spec(), &stream);
        check_lattice_closure::<_, BTreeStore>(TimeProRataMatcher::new(lot()), spec(), &stream);
        check_lattice_closure::<_, TickLadderStore>(FifoMatcher, spec(), &stream);
        check_lattice_closure::<_, TickLadderStore>(ProRataMatcher::new(lot()), spec(), &stream);
        check_lattice_closure::<_, TickLadderStore>(TimeProRataMatcher::new(lot()), spec(), &stream);
        check_lattice_closure::<_, HashMapStore>(FifoMatcher, spec(), &stream);
        check_lattice_closure::<_, HashMapStore>(ProRataMatcher::new(lot()), spec(), &stream);
        check_lattice_closure::<_, HashMapStore>(TimeProRataMatcher::new(lot()), spec(), &stream);
    }
}

#[test]
fn a_rejected_order_leaves_the_book_untouched() {
    for seed in 0..STREAMS {
        let mut random = Random(seed);
        let stream = random.stream(29);
        let too_small = 1 + random.below(4);
        let side = random.side();
        let price = random.price();
        check_reject_is_a_no_op::<_, BTreeStore>(FifoMatcher, &stream, too_small, side, price);
        check_reject_is_a_no_op::<_, BTreeStore>(ProRataMatcher::new(lot()), &stream, too_small, side, price);
        check_reject_is_a_no_op::<_, BTreeStore>(TimeProRataMatcher::new(lot()), &stream, too_small, side, price);
        check_reject_is_a_no_op::<_, TickLadderStore>(FifoMatcher, &stream, too_small, side, price);
        check_reject_is_a_no_op::<_, TickLadderStore>(ProRataMatcher::new(lot()), &stream, too_small, side, price);
        check_reject_is_a_no_op::<_, TickLadderStore>(TimeProRataMatcher::new(lot()), &stream, too_small, side, price);
        check_reject_is_a_no_op::<_, HashMapStore>(FifoMatcher, &stream, too_small, side, price);
        check_reject_is_a_no_op::<_, HashMapStore>(ProRataMatcher::new(lot()), &stream, too_small, side, price);
        check_reject_is_a_no_op::<_, HashMapStore>(TimeProRataMatcher::new(lot()), &stream, too_small, side, price);
    }
}

#[test]
fn storage_backends_are_observationally_identical() {
    for stream in streams() {
        check_storage_agreement(FifoMatcher, &stream);
        check_storage_agreement(ProRataMatcher::new(lot()), &stream);
        check_storage_agreement(TimeProRataMatcher::new(lot()), &stream);
    }
}

#[test]
fn fifo_same_price_priority() {
    for stream in streams() {
        let mut book = OrderBook::new(spec(), FifoMatcher);
        let mut next_stamp: u64 = 0;
        let mut rest_stamp: HashMap<ExchangeId, u64> = HashMap::new();
        let mut last_traded: HashMap<(bool, Price), u64> = HashMap::new();

        for order in stream {
            let report = book.submit(order).unwrap();

            for r in all_reports(&report) {
                for trade in &r.trades {
                    let maker_is_bid = opposite(trade.taker_side) == Side::Bid;
                    let stamp = *rest_stamp
                        .get(&trade.maker_order_id)
                        .expect("maker must have rested before trading");
                    let key = (maker_is_bid, trade.price);
                    if let Some(&prev) = last_traded.get(&key) {
                        assert!(
                            stamp >= prev,
                            "FIFO violated at {:?}: maker stamped {} traded after {}",
                            trade.price, stamp, prev
                        );
                    }
                    last_traded.insert(key, stamp);
                }
                if matches!(
                    r.outcome,
                    SubmitOutcome::Rested | SubmitOutcome::PartiallyFilledAndRested
                ) {
                    rest_stamp.insert(r.order_id.clone(), next_stamp);
                    next_stamp += 1;
                }
            }
        }
    }
}

#[test]
fn every_matcher_agrees_on_the_totals() {
    for seed in 0..STREAMS {
        let stream = Random(seed).stream_of_strangers(39);
        let mut fifo = OrderBook::new(spec(), FifoMatcher);
        let mut pro_rata = OrderBook::new(spec(), ProRataMatcher::new(lot()));
        let mut timed = OrderBook::new(spec(), TimeProRataMatcher::new(lot()));

        for order in stream {
            let base = fifo.submit(order.clone()).unwrap();
            let others = [
                ("pro-rata", pro_rata.submit(order.clone()).unwrap()),
                ("time-pro-rata", timed.submit(order).unwrap()),
            ];

            for (name, report) in [("fifo", &base), ("pro-rata", &others[0].1), ("time-pro-rata", &others[1].1)] {
                for (i, r) in all_reports(report).enumerate() {
                    assert!(
                        r.cancelled.is_empty(),
                        "{} cancelled {:?} in execution {} — no client owns two orders here",
                        name, r.cancelled, i
                    );
                }
            }

            for (name, report) in &others {
                assert_eq!(report.outcome, base.outcome, "{} disagreed on the outcome", name);
                assert_eq!(
                    cascade_filled(report), cascade_filled(&base),
                    "{} disagreed on how much filled", name
                );
                assert_eq!(
                    report.triggered.len(), base.triggered.len(),
                    "{} disagreed on the cascade", name
                );
            }

            same_public_state("pro-rata", &pro_rata, &fifo);
            same_public_state("time-pro-rata", &timed, &fifo);
        }
    }
}

#[test]
fn the_lattice_holds_on_a_non_unit_lot() {
    for seed in 0..STREAMS {
        let stream = Random(seed).lot_ten_stream(59);
        let lot = lot_ten_spec().lot_size();
        check_lattice_closure::<_, BTreeStore>(FifoMatcher, lot_ten_spec(), &stream);
        check_lattice_closure::<_, BTreeStore>(ProRataMatcher::new(lot), lot_ten_spec(), &stream);
        check_lattice_closure::<_, BTreeStore>(TimeProRataMatcher::new(lot), lot_ten_spec(), &stream);
        check_lattice_closure::<_, TickLadderStore>(FifoMatcher, lot_ten_spec(), &stream);
        check_lattice_closure::<_, TickLadderStore>(ProRataMatcher::new(lot), lot_ten_spec(), &stream);
        check_lattice_closure::<_, TickLadderStore>(TimeProRataMatcher::new(lot), lot_ten_spec(), &stream);
        check_lattice_closure::<_, HashMapStore>(FifoMatcher, lot_ten_spec(), &stream);
        check_lattice_closure::<_, HashMapStore>(ProRataMatcher::new(lot), lot_ten_spec(), &stream);
        check_lattice_closure::<_, HashMapStore>(TimeProRataMatcher::new(lot), lot_ten_spec(), &stream);
    }
}
