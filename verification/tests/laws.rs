use order_book::allocation::{FifoMatcher, ProRataMatcher, TimeProRataMatcher};
use order_book::instrument::InstrumentSpec;
use order_book::matching::SubmitOutcome;
use order_book::order_index::{OrderAddress, OrderIndex};
use order_book::order_queue::{LevelQueue, OrderArena};
use order_book::orderbook::{OrderBook, OrderBookError, OrderLocation};
use order_book::storage::{BTreeStore, HashMapStore, OrderBookStore, StoreError, TickLadderStore};
use order_book::test_helpers::{book, order, px, qty};
use order_book::types::{ClientId, ExchangeId, Order, OrderType, Side};

fn id(name: &str) -> ExchangeId {
    ExchangeId(name.to_owned())
}

fn incoming(side: Side, order_type: OrderType, quantity: u64, client: &str) -> Order {
    Order::builder()
        .side(side)
        .order_type(order_type)
        .quantity(qty(quantity))
        .client_id(client)
        .exchange_id("assigned-by-submit")
        .timestamp(0)
        .build()
}

#[test]
fn cancelling_undoes_resting() {
    let mut ob = book();
    ob.add_order(order(Side::Bid, 99, 10, None, "a")).unwrap();
    ob.add_order(order(Side::Bid, 99, 5, None, "b")).unwrap();
    let levels = ob.best_bid_level();
    let arrival = ob.next_arrival;

    ob.add_order(order(Side::Bid, 99, 7, None, "c")).unwrap();
    assert_ne!(ob.best_bid_level(), levels);
    ob.cancel_order(id("c")).unwrap();

    assert_eq!(ob.best_bid_level(), levels);
    assert_eq!(ob.order_count(), 2);
    assert_eq!(ob.next_arrival, arrival + 1);
}

#[test]
fn cancelling_forgets_one_order_and_no_other() {
    let mut ob = book();
    for (name, price) in [("a", 99), ("b", 99), ("c", 98)] {
        ob.add_order(order(Side::Bid, price, 10, None, name))
            .unwrap();
    }
    ob.cancel_order(id("a")).unwrap();

    assert_eq!(ob.get_order(&id("a")), None);
    assert_eq!(ob.order_location(&id("a")), None);
    assert_eq!(
        ob.order_location(&id("b")),
        Some(OrderLocation::Book {
            side: Side::Bid,
            price: px(99),
        })
    );
    assert_eq!(
        ob.depth(Side::Bid, 9),
        vec![(px(99), qty(10)), (px(98), qty(10))]
    );
    assert_eq!(
        ob.cancel_order(id("a")),
        Err(OrderBookError::OrderNotFound)
    );
}

#[test]
fn a_killed_fill_or_kill_leaves_the_book_as_it_was() {
    let mut ob = book();
    ob.add_order(order(Side::Ask, 100, 5, None, "alice"))
        .unwrap();
    ob.add_order(order(Side::Ask, 101, 5, None, "bob")).unwrap();
    let asks = ob.depth(Side::Ask, 9);

    let report = ob
        .submit(incoming(Side::Bid, OrderType::limit_fok(px(101)), 10, "alice"))
        .unwrap();

    assert_eq!(report.outcome, SubmitOutcome::Killed);
    assert_eq!(report.trades, vec![]);
    assert_eq!(report.cancelled, vec![]);
    assert_eq!(ob.depth(Side::Ask, 9), asks);
    assert_eq!(ob.last_trade_price, None);
    assert_eq!(ob.next_seq, 2);
}

#[test]
fn own_orders_at_a_level_that_is_traded_are_gone() {
    let mut ob = book();
    ob.add_order(order(Side::Ask, 100, 5, None, "bob")).unwrap();
    let mut behind = order(Side::Ask, 100, 5, None, "behind");
    behind.client_id = ClientId("alice".to_owned());
    ob.add_order(behind).unwrap();
    let mut deeper = order(Side::Ask, 101, 5, None, "deeper");
    deeper.client_id = ClientId("alice".to_owned());
    ob.add_order(deeper).unwrap();

    let report = ob
        .submit(incoming(Side::Bid, OrderType::Market, 3, "alice"))
        .unwrap();

    assert_eq!(report.cancelled, vec![id("behind")]);
    assert_eq!(report.trades.len(), 1);
    assert_eq!(ob.depth(Side::Ask, 9), vec![(px(100), qty(2)), (px(101), qty(5))]);
}

#[test]
fn the_policy_decides_who_fills_and_not_how_much() {
    let mut fifo = OrderBook::new(InstrumentSpec::cents(), FifoMatcher);
    let mut shared = OrderBook::new(InstrumentSpec::cents(), ProRataMatcher::new(1));
    let mut timed = OrderBook::new(InstrumentSpec::cents(), TimeProRataMatcher::new(1));
    for (name, size) in [("a", 50), ("b", 30), ("c", 20)] {
        fifo.add_order(order(Side::Ask, 100, size, None, name)).unwrap();
        shared.add_order(order(Side::Ask, 100, size, None, name)).unwrap();
        timed.add_order(order(Side::Ask, 100, size, None, name)).unwrap();
    }
    let taker = incoming(Side::Bid, OrderType::Market, 10, "t");
    let first = fifo.submit(taker.clone()).unwrap();
    let second = shared.submit(taker.clone()).unwrap();
    let third = timed.submit(taker).unwrap();

    let sizes = |report: &order_book::matching::ExecutionReport| {
        report
            .trades
            .iter()
            .map(|t| (t.maker_order_id.0.clone(), t.quantity.base()))
            .collect::<Vec<_>>()
    };
    assert_eq!(sizes(&first), [("a".to_owned(), 10)]);
    assert_eq!(
        sizes(&second),
        [("a".to_owned(), 5), ("b".to_owned(), 3), ("c".to_owned(), 2)]
    );
    assert_eq!(
        sizes(&third),
        [("a".to_owned(), 7), ("b".to_owned(), 3)]
    );
    for ob in [fifo.depth(Side::Ask, 1), shared.depth(Side::Ask, 1), timed.depth(Side::Ask, 1)] {
        assert_eq!(ob, vec![(px(100), qty(90))]);
    }
}

#[test]
fn a_book_refuses_a_store_that_cannot_hold_its_prices() {
    assert_eq!(
        OrderBook::<_, TickLadderStore>::try_new(InstrumentSpec::cents(), FifoMatcher).unwrap_err(),
        StoreError::UnboundedPriceRange
    );
    let widest = InstrumentSpec::cents()
        .with_price_range(px(0), Some(InstrumentSpec::cents().price_from_minor(u64::MAX).unwrap()))
        .unwrap();
    assert_eq!(
        TickLadderStore::try_new(widest).unwrap_err(),
        StoreError::PriceRangeTooLarge
    );
}

#[test]
fn only_limit_orders_rest() {
    let mut nodes = OrderArena::with_key();
    let mut store = BTreeStore::try_new(InstrumentSpec::cents()).unwrap();
    assert_eq!(
        store
            .add(&mut nodes, incoming(Side::Bid, OrderType::Market, 1, "c"))
            .unwrap_err(),
        StoreError::NotRestable
    );
    assert!(nodes.is_empty());
    assert_eq!(
        book().add_order(incoming(Side::Bid, OrderType::stop_market(px(5)), 1, "c")),
        Err(OrderBookError::NotRestable)
    );
}

fn best_moves_as_levels_leave<S: OrderBookStore>() {
    let spec = InstrumentSpec::cents()
        .with_price_range(px(90), Some(px(110)))
        .unwrap();
    let mut nodes = OrderArena::with_key();
    let mut store = S::try_new(spec).unwrap();
    for price in [95, 105, 90, 110, 100] {
        store
            .add(&mut nodes, order(Side::Bid, price, 1, None, &format!("b{price}")))
            .unwrap();
        store
            .add(&mut nodes, order(Side::Ask, price, 1, None, &format!("a{price}")))
            .unwrap();
    }
    for price in [110, 105, 100, 95, 90] {
        assert_eq!(store.best_price(Side::Bid), Some(px(price)));
        assert!(store.level(Side::Bid, px(price)).is_some());
        assert!(store.level_mut(Side::Bid, px(price)).is_some());
        assert_eq!(store.best_level_mut(Side::Bid).unwrap().price, px(price));
        assert!(store.remove_level(Side::Bid, px(price)).is_some());
        assert!(store.remove_level(Side::Bid, px(price)).is_none());
    }
    for price in [90, 95, 100, 105, 110] {
        assert_eq!(store.best_price(Side::Ask), Some(px(price)));
        let name = format!("a{price}");
        assert!(store
            .cancel(&mut nodes, Side::Ask, px(price), &ExchangeId(name.clone()))
            .is_some());
        assert!(store
            .cancel(&mut nodes, Side::Ask, px(price), &ExchangeId(name))
            .is_none());
    }
    assert_eq!(store.best_price(Side::Bid), None);
    assert_eq!(store.best_price(Side::Ask), None);
    assert_eq!(nodes.len(), 5);
}

#[test]
fn the_best_level_moves_as_levels_leave() {
    best_moves_as_levels_leave::<BTreeStore>();
    best_moves_as_levels_leave::<HashMapStore>();
    best_moves_as_levels_leave::<TickLadderStore>();
}

#[test]
fn striking_a_client_out_of_a_queue_keeps_the_others_in_line() {
    let mut nodes = OrderArena::with_key();
    let mut queue = LevelQueue::default();
    for name in ["x", "a", "x", "b", "x"] {
        let mut queued = order(Side::Bid, 100, 1, None, name);
        queued.client_id = ClientId(name.to_owned());
        queue.push_back(&mut nodes, queued);
    }
    let struck = queue.remove_client(&mut nodes, &ClientId("x".to_owned()));
    assert_eq!(struck.len(), 3);
    assert_eq!(
        queue
            .iter(&nodes)
            .into_iter()
            .map(|queued| queued.client_id.0.as_str())
            .collect::<Vec<_>>(),
        ["a", "b"]
    );
    assert!(queue.links_are_consistent(&nodes));
    assert_eq!(nodes.len(), 2);
}

#[test]
fn a_cloned_arena_answers_to_the_same_keys() {
    let mut nodes = OrderArena::with_key();
    let mut queue = LevelQueue::default();
    let key = queue.push_back(&mut nodes, order(Side::Bid, 100, 1, None, "a"));
    let copy = nodes.clone();
    assert!(queue.remove_key(&mut nodes, key).is_some());
    assert!(nodes.get(key).is_none());
    assert_eq!(copy.len(), 1);
    assert_eq!(copy.get(key).unwrap().order.exchange_id, id("a"));
    assert_eq!(queue.iter_with_keys(&nodes).len(), 0);
}

#[test]
fn an_index_gives_back_what_was_put_in() {
    let mut index = OrderIndex::new();
    let parked = OrderAddress::StopBook {
        side: Side::Ask,
        trigger: px(95),
    };
    index.insert(id("a"), parked);
    assert_eq!(
        index.get(&id("a")).map(|address| address.location()),
        Some(OrderLocation::StopBook {
            side: Side::Ask,
            trigger: px(95),
        })
    );
    assert!(index.get(&id("b")).is_none());
    assert_eq!(index.ids(), [&id("a")]);
    assert_eq!(index.clone().len(), 1);
    assert!(index.remove(&id("b")).is_none());
    assert!(index.remove(&id("a")).is_some());
    assert_eq!(index.len(), 0);
}

#[test]
fn a_stop_whose_limit_is_fill_or_kill_can_die_when_it_fires() {
    let mut ob = book();
    ob.add_order(order(Side::Ask, 100, 5, None, "a")).unwrap();
    ob.add_order(order(Side::Ask, 101, 5, None, "b")).unwrap();
    let stop = OrderType::StopLimit {
        trigger: px(100),
        price: px(101),
        tif: order_book::types::TimeInForce::FOK,
    };
    let parked = ob.submit(incoming(Side::Bid, stop, 50, "s")).unwrap();
    assert_eq!(parked.outcome, SubmitOutcome::StopPending);

    let report = ob
        .submit(incoming(Side::Bid, OrderType::Market, 5, "t"))
        .unwrap();

    assert_eq!(report.triggered.len(), 1);
    assert_eq!(report.triggered[0].order_id, parked.order_id);
    assert_eq!(report.triggered[0].outcome, SubmitOutcome::Killed);
    assert_eq!(report.triggered[0].trades, vec![]);
    assert_eq!(ob.depth(Side::Ask, 9), vec![(px(101), qty(5))]);
    assert_eq!(ob.get_order(&parked.order_id), None);
}
