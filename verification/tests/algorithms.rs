use order_book::algorithms::{FifoMatcher, Fill, MatchingAlgorithm, ProRataMatcher};
use order_book::instrument::Qty;
use order_book::test_helpers::{order, qty};
use order_book::types::{Order, Side};
use std::collections::HashMap;

fn pro_rata() -> ProRataMatcher {
    ProRataMatcher::new(1)
}

fn fill(order_index: usize, quantity: u64) -> Fill {
    Fill {
        order_index,
        quantity: qty(quantity),
    }
}

fn level_of(quantities: &[u64]) -> Vec<Order> {
    quantities
        .iter()
        .enumerate()
        .map(|(i, &qty)| order(Side::Ask, 100, qty, None, &format!("m{i}")))
        .collect()
}

fn assert_contract(fills: &[Fill], available: Qty, orders: &[Order]) {
    let total: u128 = orders
        .iter()
        .map(|o| u128::from(o.remaining_quantity.base()))
        .sum();

    let mut previous: Option<usize> = None;
    let mut allocated: u128 = 0;

    for fill in fills {
        assert!(
            previous.is_none_or(|p| fill.order_index > p),
            "(1) order_index must strictly increase, got {fills:?}"
        );
        assert!(
            fill.order_index < orders.len(),
            "(1) order_index {} out of range for a level of {}",
            fill.order_index,
            orders.len()
        );
        assert!(
            !fill.quantity.is_zero(),
            "(2) zero-quantity fill in {fills:?}"
        );
        assert!(
            fill.quantity <= orders[fill.order_index].remaining_quantity,
            "(3) fill of {:?} over-fills maker {}, which has {:?} left",
            fill.quantity,
            fill.order_index,
            orders[fill.order_index].remaining_quantity
        );

        previous = Some(fill.order_index);
        allocated += u128::from(fill.quantity.base());
    }

    assert_eq!(
        allocated,
        u128::from(available.base()).min(total),
        "(4) allocation must be exactly min(available, level total)"
    );
}

fn assert_proportional(fills: &[Fill], available: Qty, orders: &[Order], lot: u64) {
    let available = available.base();
    let total: u128 = orders
        .iter()
        .map(|o| u128::from(o.remaining_quantity.base()))
        .sum();

    if u128::from(available) >= total {
        return;
    }

    let allocated: HashMap<usize, u64> = fills
        .iter()
        .map(|f| (f.order_index, f.quantity.base()))
        .collect();

    for (i, order) in orders.iter().enumerate() {
        let exact = u128::from(available) * u128::from(order.remaining_quantity.base()) / total;
        let floor_share = ((exact / u128::from(lot)) * u128::from(lot)) as u64;
        let got = allocated.get(&i).copied().unwrap_or(0);

        assert!(
            got == floor_share || got == floor_share + lot,
            "maker {i} (qty {:?}) got {got}, expected its lot-floored share {floor_share} or one lot more",
            order.remaining_quantity
        );
        assert!(
            got.is_multiple_of(lot),
            "(5) maker {i} got {got}, which is not a whole number of {lot}-unit lots"
        );
    }
}

#[test]
fn algorithms_empty_level_yields_no_fills() {
    let orders = level_of(&[]);
    let fills = FifoMatcher.allocate(qty(100), &orders);

    assert!(fills.is_empty());
    assert_contract(&fills, qty(100), &orders);
}

#[test]
fn algorithms_nothing_available_yields_no_fills() {
    let orders = level_of(&[10, 10]);
    let fills = FifoMatcher.allocate(qty(0), &orders);

    assert!(fills.is_empty());
    assert_contract(&fills, qty(0), &orders);
}

#[test]
fn algorithms_partial_fill_of_the_front_order() {
    let orders = level_of(&[10]);
    let fills = FifoMatcher.allocate(qty(4), &orders);

    assert_eq!(fills, vec![fill(0, 4)]);
    assert_contract(&fills, qty(4), &orders);
}

#[test]
fn algorithms_exact_boundary_does_not_emit_a_zero_fill() {
    let orders = level_of(&[10, 10]);
    let fills = FifoMatcher.allocate(qty(10), &orders);

    assert_eq!(fills, vec![fill(0, 10)]);
    assert_contract(&fills, qty(10), &orders);
}

#[test]
fn algorithms_walks_the_queue_front_to_back() {
    let orders = level_of(&[10, 10, 10]);
    let fills = FifoMatcher.allocate(qty(25), &orders);

    assert_eq!(fills, vec![fill(0, 10), fill(1, 10), fill(2, 5),]);
    assert_contract(&fills, qty(25), &orders);
}

#[test]
fn algorithms_uneven_quantities_drain_in_order() {
    let orders = level_of(&[5, 3, 7]);
    let fills = FifoMatcher.allocate(qty(12), &orders);

    assert_eq!(fills, vec![fill(0, 5), fill(1, 3), fill(2, 4),]);
    assert_contract(&fills, qty(12), &orders);
}

#[test]
fn algorithms_taker_larger_than_the_level_takes_everything() {
    let orders = level_of(&[10, 10, 10]);
    let fills = FifoMatcher.allocate(qty(100), &orders);

    assert_eq!(fills.len(), 3);
    assert_eq!(fills.iter().map(|f| f.quantity.base()).sum::<u64>(), 30);
    assert_contract(&fills, qty(100), &orders);
}

#[test]
fn algorithms_skips_a_zero_remaining_order_in_the_middle() {
    let orders = level_of(&[10, 0, 10]);
    let fills = FifoMatcher.allocate(qty(15), &orders);

    assert_eq!(fills, vec![fill(0, 10), fill(2, 5),]);
    assert_contract(&fills, qty(15), &orders);
}

#[test]
fn algorithms_skips_a_trailing_zero_remaining_order() {
    let orders = level_of(&[10, 0]);
    let fills = FifoMatcher.allocate(qty(10), &orders);

    assert_eq!(fills, vec![fill(0, 10)]);
    assert_contract(&fills, qty(10), &orders);
}

#[test]
fn algorithms_pro_rata_splits_the_textbook_example_evenly() {
    let orders = level_of(&[100, 200, 300]);
    let fills = pro_rata().allocate(qty(300), &orders);

    assert_eq!(fills, vec![fill(0, 50), fill(1, 100), fill(2, 150),]);
    assert_contract(&fills, qty(300), &orders);
    assert_proportional(&fills, qty(300), &orders, 1);
}

#[test]
fn algorithms_pro_rata_taker_larger_than_the_level_takes_everything() {
    let orders = level_of(&[10, 20, 30]);
    let fills = pro_rata().allocate(qty(1000), &orders);

    assert_eq!(fills, vec![fill(0, 10), fill(1, 20), fill(2, 30),]);
    assert_contract(&fills, qty(1000), &orders);
}

#[test]
fn algorithms_pro_rata_taker_exactly_the_level_takes_everything() {
    let orders = level_of(&[10, 20, 30]);
    let fills = pro_rata().allocate(qty(60), &orders);

    assert_eq!(fills.iter().map(|f| f.quantity.base()).sum::<u64>(), 60);
    assert_eq!(fills.len(), 3);
    assert_contract(&fills, qty(60), &orders);
}

#[test]
fn algorithms_pro_rata_hands_a_single_crumb_to_the_front() {
    let orders = level_of(&[10, 10, 10]);
    let fills = pro_rata().allocate(qty(10), &orders);

    assert_eq!(fills, vec![fill(0, 4), fill(1, 3), fill(2, 3),]);
    assert_contract(&fills, qty(10), &orders);
    assert_proportional(&fills, qty(10), &orders, 1);
}

#[test]
fn algorithms_pro_rata_walks_the_queue_placing_every_crumb() {
    let orders = level_of(&[10, 10, 10]);
    let fills = pro_rata().allocate(qty(11), &orders);

    assert_eq!(fills, vec![fill(0, 4), fill(1, 4), fill(2, 3),]);
    assert_contract(&fills, qty(11), &orders);
    assert_proportional(&fills, qty(11), &orders, 1);
}

#[test]
fn algorithms_pro_rata_is_not_monotone_in_size() {
    let orders = level_of(&[3, 4]);
    let fills = pro_rata().allocate(qty(3), &orders);

    assert_eq!(fills, vec![fill(0, 2), fill(1, 1),]);
    assert_contract(&fills, qty(3), &orders);
    assert_proportional(&fills, qty(3), &orders, 1);
}

#[test]
fn algorithms_pro_rata_degenerates_to_fifo_for_a_tiny_taker() {
    let orders = level_of(&[10, 10, 10]);
    let fills = pro_rata().allocate(qty(1), &orders);

    assert_eq!(fills, vec![fill(0, 1)]);
    assert_contract(&fills, qty(1), &orders);
    assert_proportional(&fills, qty(1), &orders, 1);
}

#[test]
fn algorithms_pro_rata_allocates_purely_from_the_remainder_pass() {
    let orders = level_of(&[1, 1, 1, 1]);
    let fills = pro_rata().allocate(qty(3), &orders);

    assert_eq!(fills, vec![fill(0, 1), fill(1, 1), fill(2, 1),]);
    assert_contract(&fills, qty(3), &orders);
    assert_proportional(&fills, qty(3), &orders, 1);
}

#[test]
fn algorithms_pro_rata_skips_a_zero_remaining_order() {
    let orders = level_of(&[10, 0, 10]);
    let fills = pro_rata().allocate(qty(15), &orders);

    assert_eq!(fills, vec![fill(0, 8), fill(2, 7),]);
    assert_contract(&fills, qty(15), &orders);
    assert_proportional(&fills, qty(15), &orders, 1);
}

#[test]
fn algorithms_pro_rata_empty_level_yields_no_fills() {
    let orders = level_of(&[]);
    let fills = pro_rata().allocate(qty(100), &orders);

    assert!(fills.is_empty());
    assert_contract(&fills, qty(100), &orders);
}

#[test]
fn algorithms_pro_rata_nothing_available_yields_no_fills() {
    let orders = level_of(&[10, 10]);
    let fills = pro_rata().allocate(qty(0), &orders);

    assert!(fills.is_empty());
    assert_contract(&fills, qty(0), &orders);
}

#[test]
fn algorithms_pro_rata_survives_products_that_overflow_u64() {
    let orders = level_of(&[10_000_000_000_000_000_000, 8_000_000_000_000_000_000]);
    let fills = pro_rata().allocate(qty(9_000_000_000_000_000_000), &orders);

    assert_eq!(
        fills,
        vec![
            fill(0, 5_000_000_000_000_000_000),
            fill(1, 4_000_000_000_000_000_000),
        ]
    );
    assert_contract(&fills, qty(9_000_000_000_000_000_000), &orders);
}

#[test]
fn algorithms_pro_rata_survives_a_level_total_that_overflows_u64() {
    let orders = level_of(&[u64::MAX, u64::MAX]);
    let fills = pro_rata().allocate(qty(100), &orders);

    assert_eq!(fills, vec![fill(0, 50), fill(1, 50),]);
    assert_contract(&fills, qty(100), &orders);
}

#[test]
fn algorithms_pro_rata_never_splits_a_lot() {
    let orders = level_of(&[10, 20]);
    let fills = ProRataMatcher::new(10).allocate(qty(10), &orders);

    assert_eq!(fills, vec![fill(0, 10)]);
    assert_contract(&fills, qty(10), &orders);
    assert_proportional(&fills, qty(10), &orders, 10);
}

#[test]
fn algorithms_pro_rata_walks_the_queue_placing_whole_lots() {
    let orders = level_of(&[10, 20, 30]);
    let fills = ProRataMatcher::new(10).allocate(qty(50), &orders);

    assert_eq!(
        fills,
        vec![fill(0, 10), fill(1, 20), fill(2, 20)],
        "shares floor to 0/10/20, then one lot each to the front three"
    );
    assert_contract(&fills, qty(50), &orders);
    assert_proportional(&fills, qty(50), &orders, 10);
}

#[test]
fn algorithms_pro_rata_gives_a_lone_lot_to_the_front() {
    let orders = level_of(&[100, 100, 100]);
    let fills = ProRataMatcher::new(100).allocate(qty(100), &orders);

    assert_eq!(fills, vec![fill(0, 100)]);
    assert_contract(&fills, qty(100), &orders);
}

#[test]
fn algorithms_pro_rata_takes_the_whole_level_in_lots() {
    let orders = level_of(&[10, 20, 30]);
    let fills = ProRataMatcher::new(10).allocate(qty(1000), &orders);

    assert_eq!(fills, vec![fill(0, 10), fill(1, 20), fill(2, 30)]);
    assert_contract(&fills, qty(1000), &orders);
}

#[test]
fn algorithms_pro_rata_allocates_purely_from_the_lot_sweep() {
    let orders = level_of(&[500, 500, 500, 500]);
    let fills = ProRataMatcher::new(500).allocate(qty(1500), &orders);

    assert_eq!(fills, vec![fill(0, 500), fill(1, 500), fill(2, 500)]);
    assert_contract(&fills, qty(1500), &orders);
}

struct Random(u64);

impl Random {
    fn below(&mut self, bound: u64) -> u64 {
        self.0 = self
            .0
            .wrapping_mul(6_364_136_223_846_793_005)
            .wrapping_add(1_442_695_040_888_963_407);
        (self.0 >> 33) % bound
    }

    fn quantities(&mut self, lot: u64, most: u64) -> Vec<u64> {
        (0..self.below(24)).map(|_| lot * self.below(most)).collect()
    }
}

const LOTS: [u64; 4] = [2, 5, 10, 100];

#[test]
fn both_matchers_honour_the_contract() {
    let mut random = Random(1);
    for _ in 0..300 {
        let orders = level_of(&random.quantities(1, 10_000));
        let available = qty(random.below(200_000));

        let fifo = FifoMatcher.allocate(available, &orders);
        assert_contract(&fifo, available, &orders);

        let shared = pro_rata().allocate(available, &orders);
        assert_contract(&shared, available, &orders);
        assert_proportional(&shared, available, &orders, 1);
    }
}

#[test]
fn algorithms_pro_rata_honours_the_contract_on_a_non_unit_lot() {
    let mut random = Random(2);
    for round in 0..200 {
        let lot = LOTS[round % LOTS.len()];
        let orders = level_of(&random.quantities(lot, 1_000));
        let available = qty(lot * random.below(20_000));

        let fills = ProRataMatcher::new(lot).allocate(available, &orders);

        assert_contract(&fills, available, &orders);
        assert_proportional(&fills, available, &orders, lot);
    }
}

#[test]
fn algorithms_fifo_stays_on_the_lot_grid_without_being_told_about_it() {
    let mut random = Random(3);
    for round in 0..200 {
        let lot = LOTS[round % LOTS.len()];
        let orders = level_of(&random.quantities(lot, 1_000));
        let available = qty(lot * random.below(20_000));

        let fills = FifoMatcher.allocate(available, &orders);

        assert_contract(&fills, available, &orders);
        for f in &fills {
            assert!(f.quantity.base().is_multiple_of(lot));
        }
    }
}
