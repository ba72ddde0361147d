use order_book::instrument::InstrumentSpec;
use order_book::order_queue::OrderArena;
use order_book::storage::{
    BTreeStore, HashMapStore, OrderBookStore, StoreError, TickLadderStore,
};
use order_book::test_helpers::{order, px, qty};
use order_book::types::{ExchangeId, Side};

fn bounded_spec() -> InstrumentSpec {
    InstrumentSpec::cents()
        .with_price_range(px(95), Some(px(105)))
        .unwrap()
}

fn check_store_contract<S: OrderBookStore>() {
    let mut store = S::try_new(bounded_spec()).unwrap();
    let mut nodes = OrderArena::with_key();
    assert!(store.best_level(Side::Bid).is_none());
    assert!(store.best_level(Side::Ask).is_none());

    store.add(&mut nodes, order(Side::Bid, 98, 7, None, "b98")).unwrap();
    store.add(&mut nodes, order(Side::Bid, 100, 5, None, "b100")).unwrap();
    store.add(&mut nodes, order(Side::Ask, 102, 3, None, "a102")).unwrap();
    store.add(&mut nodes, order(Side::Ask, 101, 4, None, "a101")).unwrap();

    assert_eq!(store.best_price(Side::Bid), Some(px(100)));
    assert_eq!(store.best_price(Side::Ask), Some(px(101)));
    assert_eq!(
        store
            .levels(Side::Bid)
            .into_iter()
            .map(|level| level.price)
            .collect::<Vec<_>>(),
        vec![px(100), px(98)]
    );
    assert_eq!(
        store
            .levels(Side::Ask)
            .into_iter()
            .map(|level| level.price)
            .collect::<Vec<_>>(),
        vec![px(101), px(102)]
    );

    let removed = store.cancel(&mut nodes, Side::Bid, px(100), &ExchangeId("b100".into()));
    assert_eq!(removed.unwrap().remaining_quantity, qty(5));
    assert_eq!(store.best_price(Side::Bid), Some(px(98)));
    assert!(store.level(Side::Bid, px(100)).is_none());

    store.remove_level(Side::Ask, px(101));
    assert_eq!(store.best_price(Side::Ask), Some(px(102)));
}

#[test]
fn btree_satisfies_the_store_contract() {
    check_store_contract::<BTreeStore>();
}

#[test]
fn hash_map_satisfies_the_store_contract() {
    check_store_contract::<HashMapStore>();
}

#[test]
fn tick_ladder_satisfies_the_store_contract() {
    check_store_contract::<TickLadderStore>();
}

#[test]
fn tick_ladder_requires_a_finite_price_range() {
    assert_eq!(
        TickLadderStore::try_new(InstrumentSpec::cents()).unwrap_err(),
        StoreError::UnboundedPriceRange
    );
}

#[test]
fn tick_ladder_maps_both_inclusive_boundaries() {
    let mut store = TickLadderStore::try_new(bounded_spec()).unwrap();
    let mut nodes = OrderArena::with_key();
    assert_eq!(store.slots_per_side(), 11);
    store.add(&mut nodes, order(Side::Ask, 95, 1, None, "min")).unwrap();
    store.add(&mut nodes, order(Side::Bid, 105, 1, None, "max")).unwrap();
    assert_eq!(store.best_price(Side::Ask), Some(px(95)));
    assert_eq!(store.best_price(Side::Bid), Some(px(105)));
}

#[test]
fn a_default_store_has_no_levels() {
    let tree = BTreeStore::default();
    let hash_map = HashMapStore::default();
    for side in [Side::Bid, Side::Ask] {
        assert!(tree.best_level(side).is_none());
        assert!(tree.levels(side).is_empty());
        assert!(hash_map.best_level(side).is_none());
        assert!(hash_map.levels(side).is_empty());
    }
}

#[test]
fn a_ladder_has_a_slot_for_each_legal_price() {
    let ladder = TickLadderStore::try_new(bounded_spec()).unwrap();
    assert_eq!(ladder.slots_per_side(), 11);
    assert_eq!(TickLadderStore::count_slots(bounded_spec()), Ok(11));
}
