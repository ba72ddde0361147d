use order_book::test_helpers::{order, price_level, px, qty};
use order_book::types::{
    ClientId, ExchangeId, Order, OrderError, OrderLifecycle, OrderType, Side,
};

#[test]
fn price_level_constructor_works() {
    let level = price_level(Side::Ask, 500);

    assert_eq!(level.price, px(500));
    assert_eq!(level.side, Side::Ask);
    assert_eq!(level.orders, vec![]);
}

#[test]
fn price_level_add_order_works() {
    let mut level = price_level(Side::Ask, 100);

    level
        .add_order(order(Side::Ask, 100, 10, None, "ex_1"))
        .expect("order should be added");

    assert!(!level.is_empty());
}

#[test]
fn price_level_add_order_invalid_level_doesnt_change_orders_of_level() {
    let mut level = price_level(Side::Bid, 100);

    let result = level.add_order(order(Side::Ask, 100, 10, None, "ex_1"));

    assert!(result.is_err_and(|x| x == OrderError::InvalidSide));
    assert!(level.is_empty());
}

#[test]
fn price_level_remove_order_works() {
    let mut level = price_level(Side::Ask, 100);
    let to_remove = order(Side::Ask, 100, 10, None, "ex_1");
    let exchange_id = to_remove.exchange_id.clone();

    level.add_order(to_remove).expect("order should be added");

    assert!(level.remove_order(&exchange_id).is_some());
    assert!(level.is_empty());
}

#[test]
fn price_level_remote_nonexistent_doesnt_crash() {
    let mut level = price_level(Side::Ask, 100);

    level.remove_order(&ExchangeId("ex_1".to_owned()));

    assert!(level.is_empty());
}

#[test]
fn price_level_is_empty_works() {
    let mut level = price_level(Side::Ask, 100);

    assert!(level.is_empty());

    level
        .add_order(order(Side::Ask, 100, 10, None, "ex_1"))
        .expect("order should be added");

    assert!(!level.is_empty());
}

#[test]
fn price_level_total_quantity_works() {
    let mut level = price_level(Side::Bid, 100);

    level
        .add_order(order(Side::Bid, 100, 10, None, "order_1"))
        .expect("order 1 should be added");
    level
        .add_order(order(Side::Bid, 100, 35, None, "order_2"))
        .expect("order 2 should be added");

    assert_eq!(level.total_quantity(), qty(45));
}

#[test]
fn price_level_total_quantity_with_prefilled_order_works() {
    let mut level = price_level(Side::Bid, 100);
    let partially_filled = order(Side::Bid, 100, 10, Some(5), "order_1");

    level
        .add_order(partially_filled)
        .expect("order 1 should be added");
    level
        .add_order(order(Side::Bid, 100, 35, None, "order_2"))
        .expect("order 2 should be added");

    assert_eq!(level.total_quantity(), qty(40));
}

#[test]
fn names_count_up_and_never_repeat() {
    assert_eq!(ExchangeId::from_sequence(1), ExchangeId("exchId-1".to_owned()));
    assert_eq!(
        ExchangeId::from_sequence(u64::MAX),
        ExchangeId("exchId-18446744073709551615".to_owned())
    );
    assert_ne!(ExchangeId::from_sequence(11), ExchangeId::from_sequence(1));
    assert!(ExchangeId::from_sequence(0).same(&ExchangeId("exchId-0".to_owned())));
}

#[test]
fn a_builder_fills_in_what_was_not_given() {
    let order = Order::builder()
        .side(Side::Ask)
        .order_type(OrderType::limit_ioc(px(100)))
        .quantity(qty(7))
        .client_id("c")
        .exchange_id("e")
        .timestamp(5)
        .build();

    assert_eq!(order.remaining_quantity, qty(7));
    assert_eq!(order.original_quantity, qty(7));
    assert_eq!(order.timestamp, 5);
    assert_eq!(order.lifecycle, OrderLifecycle::New);
    assert_eq!(order.arrival, 0);
    assert_eq!(order.exchange_id, ExchangeId("e".to_owned()));
    assert_eq!(order.client_id, ClientId("c".to_owned()));
}

#[test]
fn an_order_is_stamped_with_the_time_it_was_built() {
    let stamped = order(Side::Bid, 100, 1, None, "a").timestamp;
    assert!(stamped > 1_600_000_000_000_000_000);
}

#[test]
fn a_type_names_its_prices() {
    assert_eq!(OrderType::Market.limit_price(), None);
    assert_eq!(OrderType::Market.prices(), [None, None]);
    assert_eq!(OrderType::limit_fok(px(3)).limit_price(), Some(px(3)));
    assert_eq!(OrderType::stop_market(px(4)).limit_price(), None);
    assert_eq!(OrderType::stop_market(px(4)).trigger(), Some(px(4)));
    assert_eq!(
        OrderType::stop_limit(px(4), px(5)).prices().into_iter().flatten().count(),
        2
    );
}
