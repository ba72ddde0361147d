use order_book::allocation::{
    FifoMatcher, Fill, Maker, MatchingAlgorithm, ProRataMatcher, TimeProRataMatcher,
};
use order_book::instrument::Qty;
use order_book::test_helpers::qty;
use std::collections::HashMap;

const NOW: u128 = 1_000_000;

fn pro_rata() -> ProRataMatcher {
    ProRataMatcher::new(1)
}

fn fill(order_index: usize, quantity: u64) -> Fill {
    Fill {
        order_index,
        quantity: qty(quantity),
    }
}

fn level_of(quantities: &[u64]) -> Vec<Maker> {
    quantities
        .iter()
        .map(|&quantity| Maker {
            remaining_quantity: qty(quantity),
            arrival: 0,
        })
        .collect()
}

fn level_with_arrivals(makers: &[(u64, u128)]) -> Vec<Maker> {
    makers
        .iter()
        .map(|&(quantity, arrival)| Maker {
            remaining_quantity: qty(quantity),
            arrival,
        })
        .collect()
}

fn assert_contract(fills: &[Fill], available: Qty, makers: &[Maker]) {
    let total: u128 = makers
        .iter()
        .map(|m| u128::from(m.remaining_quantity.base()))
        .sum();

    let mut previous: Option<usize> = None;
    let mut allocated: u128 = 0;

    for fill in fills {
        assert!(
            previous.is_none_or(|p| fill.order_index > p),
            "(1) order_index must strictly increase, got {fills:?}"
        );
        assert!(
            fill.order_index < makers.len(),
            "(1) order_index {} out of range for a level of {}",
            fill.order_index,
            makers.len()
        );
        assert!(
            !fill.quantity.is_zero(),
            "(2) zero-quantity fill in {fills:?}"
        );
        assert!(
            fill.quantity <= makers[fill.order_index].remaining_quantity,
            "(3) fill of {:?} over-fills maker {}, which has {:?} left",
            fill.quantity,
            fill.order_index,
            makers[fill.order_index].remaining_quantity
        );

        previous = Some(fill.order_index);
        allocated += u128::from(fill.quantity.base());
    }

    assert_eq!(
        allocated,
        u128::from(available.base()).min(total),
        "(4) allocation must be exactly min(available, level total)"
    );
}

fn assert_proportional(fills: &[Fill], available: Qty, makers: &[Maker], lot: u64) {
    let available = available.base();
    let total: u128 = makers
        .iter()
        .map(|m| u128::from(m.remaining_quantity.base()))
        .sum();

    if u128::from(available) >= total {
        return;
    }

    let allocated: HashMap<usize, u64> = fills
        .iter()
        .map(|f| (f.order_index, f.quantity.base()))
        .collect();

    for (i, maker) in makers.iter().enumerate() {
        let exact = u128::from(available) * u128::from(maker.remaining_quantity.base()) / total;
        let floor_share = ((exact / u128::from(lot)) * u128::from(lot)) as u64;
        let got = allocated.get(&i).copied().unwrap_or(0);

        assert!(
            got == floor_share || got == floor_share + lot,
            "maker {i} (qty {:?}) got {got}, expected its lot-floored share {floor_share} or one lot more",
            maker.remaining_quantity
        );
        assert!(
            got.is_multiple_of(lot),
            "(5) maker {i} got {got}, which is not a whole number of {lot}-unit lots"
        );
    }
}

#[test]
fn allocation_empty_level_yields_no_fills() {
    let makers = level_of(&[]);
    let fills = FifoMatcher.allocate(qty(100), &makers, NOW);

    assert!(fills.is_empty());
    assert_contract(&fills, qty(100), &makers);
}

#[test]
fn allocation_nothing_available_yields_no_fills() {
    let makers = level_of(&[10, 10]);
    let fills = FifoMatcher.allocate(qty(0), &makers, NOW);

    assert!(fills.is_empty());
    assert_contract(&fills, qty(0), &makers);
}

#[test]
fn allocation_partial_fill_of_the_front_order() {
    let makers = level_of(&[10]);
    let fills = FifoMatcher.allocate(qty(4), &makers, NOW);

    assert_eq!(fills, vec![fill(0, 4)]);
    assert_contract(&fills, qty(4), &makers);
}

#[test]
fn allocation_exact_boundary_does_not_emit_a_zero_fill() {
    let makers = level_of(&[10, 10]);
    let fills = FifoMatcher.allocate(qty(10), &makers, NOW);

    assert_eq!(fills, vec![fill(0, 10)]);
    assert_contract(&fills, qty(10), &makers);
}

#[test]
fn allocation_walks_the_queue_front_to_back() {
    let makers = level_of(&[10, 10, 10]);
    let fills = FifoMatcher.allocate(qty(25), &makers, NOW);

    assert_eq!(fills, vec![fill(0, 10), fill(1, 10), fill(2, 5),]);
    assert_contract(&fills, qty(25), &makers);
}

#[test]
fn allocation_uneven_quantities_drain_in_order() {
    let makers = level_of(&[5, 3, 7]);
    let fills = FifoMatcher.allocate(qty(12), &makers, NOW);

    assert_eq!(fills, vec![fill(0, 5), fill(1, 3), fill(2, 4),]);
    assert_contract(&fills, qty(12), &makers);
}

#[test]
fn allocation_taker_larger_than_the_level_takes_everything() {
    let makers = level_of(&[10, 10, 10]);
    let fills = FifoMatcher.allocate(qty(100), &makers, NOW);

    assert_eq!(fills.len(), 3);
    assert_eq!(fills.iter().map(|f| f.quantity.base()).sum::<u64>(), 30);
    assert_contract(&fills, qty(100), &makers);
}

#[test]
fn allocation_skips_a_zero_remaining_order_in_the_middle() {
    let makers = level_of(&[10, 0, 10]);
    let fills = FifoMatcher.allocate(qty(15), &makers, NOW);

    assert_eq!(fills, vec![fill(0, 10), fill(2, 5),]);
    assert_contract(&fills, qty(15), &makers);
}

#[test]
fn allocation_skips_a_trailing_zero_remaining_order() {
    let makers = level_of(&[10, 0]);
    let fills = FifoMatcher.allocate(qty(10), &makers, NOW);

    assert_eq!(fills, vec![fill(0, 10)]);
    assert_contract(&fills, qty(10), &makers);
}

#[test]
fn allocation_pro_rata_splits_the_textbook_example_evenly() {
    let makers = level_of(&[100, 200, 300]);
    let fills = pro_rata().allocate(qty(300), &makers, NOW);

    assert_eq!(fills, vec![fill(0, 50), fill(1, 100), fill(2, 150),]);
    assert_contract(&fills, qty(300), &makers);
    assert_proportional(&fills, qty(300), &makers, 1);
}

#[test]
fn allocation_pro_rata_taker_larger_than_the_level_takes_everything() {
    let makers = level_of(&[10, 20, 30]);
    let fills = pro_rata().allocate(qty(1000), &makers, NOW);

    assert_eq!(fills, vec![fill(0, 10), fill(1, 20), fill(2, 30),]);
    assert_contract(&fills, qty(1000), &makers);
}

#[test]
fn allocation_pro_rata_taker_exactly_the_level_takes_everything() {
    let makers = level_of(&[10, 20, 30]);
    let fills = pro_rata().allocate(qty(60), &makers, NOW);

    assert_eq!(fills.iter().map(|f| f.quantity.base()).sum::<u64>(), 60);
    assert_eq!(fills.len(), 3);
    assert_contract(&fills, qty(60), &makers);
}

#[test]
fn allocation_pro_rata_hands_a_single_crumb_to_the_front() {
    let makers = level_of(&[10, 10, 10]);
    let fills = pro_rata().allocate(qty(10), &makers, NOW);

    assert_eq!(fills, vec![fill(0, 4), fill(1, 3), fill(2, 3),]);
    assert_contract(&fills, qty(10), &makers);
    assert_proportional(&fills, qty(10), &makers, 1);
}

#[test]
fn allocation_pro_rata_walks_the_queue_placing_every_crumb() {
    let makers = level_of(&[10, 10, 10]);
    let fills = pro_rata().allocate(qty(11), &makers, NOW);

    assert_eq!(fills, vec![fill(0, 4), fill(1, 4), fill(2, 3),]);
    assert_contract(&fills, qty(11), &makers);
    assert_proportional(&fills, qty(11), &makers, 1);
}

#[test]
fn allocation_pro_rata_is_not_monotone_in_size() {
    let makers = level_of(&[3, 4]);
    let fills = pro_rata().allocate(qty(3), &makers, NOW);

    assert_eq!(fills, vec![fill(0, 2), fill(1, 1),]);
    assert_contract(&fills, qty(3), &makers);
    assert_proportional(&fills, qty(3), &makers, 1);
}

#[test]
fn allocation_pro_rata_degenerates_to_fifo_for_a_tiny_taker() {
    let makers = level_of(&[10, 10, 10]);
    let fills = pro_rata().allocate(qty(1), &makers, NOW);

    assert_eq!(fills, vec![fill(0, 1)]);
    assert_contract(&fills, qty(1), &makers);
    assert_proportional(&fills, qty(1), &makers, 1);
}

#[test]
fn allocation_pro_rata_allocates_purely_from_the_remainder_pass() {
    let makers = level_of(&[1, 1, 1, 1]);
    let fills = pro_rata().allocate(qty(3), &makers, NOW);

    assert_eq!(fills, vec![fill(0, 1), fill(1, 1), fill(2, 1),]);
    assert_contract(&fills, qty(3), &makers);
    assert_proportional(&fills, qty(3), &makers, 1);
}

#[test]
fn allocation_pro_rata_skips_a_zero_remaining_order() {
    let makers = level_of(&[10, 0, 10]);
    let fills = pro_rata().allocate(qty(15), &makers, NOW);

    assert_eq!(fills, vec![fill(0, 8), fill(2, 7),]);
    assert_contract(&fills, qty(15), &makers);
    assert_proportional(&fills, qty(15), &makers, 1);
}

#[test]
fn allocation_pro_rata_empty_level_yields_no_fills() {
    let makers = level_of(&[]);
    let fills = pro_rata().allocate(qty(100), &makers, NOW);

    assert!(fills.is_empty());
    assert_contract(&fills, qty(100), &makers);
}

#[test]
fn allocation_pro_rata_nothing_available_yields_no_fills() {
    let makers = level_of(&[10, 10]);
    let fills = pro_rata().allocate(qty(0), &makers, NOW);

    assert!(fills.is_empty());
    assert_contract(&fills, qty(0), &makers);
}

#[test]
fn allocation_pro_rata_survives_products_that_overflow_u64() {
    let makers = level_of(&[10_000_000_000_000_000_000, 8_000_000_000_000_000_000]);
    let fills = pro_rata().allocate(qty(9_000_000_000_000_000_000), &makers, NOW);

    assert_eq!(
        fills,
        vec![
            fill(0, 5_000_000_000_000_000_000),
            fill(1, 4_000_000_000_000_000_000),
        ]
    );
    assert_contract(&fills, qty(9_000_000_000_000_000_000), &makers);
}

#[test]
fn allocation_pro_rata_survives_a_level_total_that_overflows_u64() {
    let makers = level_of(&[u64::MAX, u64::MAX]);
    let fills = pro_rata().allocate(qty(100), &makers, NOW);

    assert_eq!(fills, vec![fill(0, 50), fill(1, 50),]);
    assert_contract(&fills, qty(100), &makers);
}

#[test]
fn allocation_pro_rata_never_splits_a_lot() {
    let makers = level_of(&[10, 20]);
    let fills = ProRataMatcher::new(10).allocate(qty(10), &makers, NOW);

    assert_eq!(fills, vec![fill(0, 10)]);
    assert_contract(&fills, qty(10), &makers);
    assert_proportional(&fills, qty(10), &makers, 10);
}

#[test]
fn allocation_pro_rata_walks_the_queue_placing_whole_lots() {
    let makers = level_of(&[10, 20, 30]);
    let fills = ProRataMatcher::new(10).allocate(qty(50), &makers, NOW);

    assert_eq!(
        fills,
        vec![fill(0, 10), fill(1, 20), fill(2, 20)],
        "shares floor to 0/10/20, then one lot each to the front three"
    );
    assert_contract(&fills, qty(50), &makers);
    assert_proportional(&fills, qty(50), &makers, 10);
}

#[test]
fn allocation_pro_rata_gives_a_lone_lot_to_the_front() {
    let makers = level_of(&[100, 100, 100]);
    let fills = ProRataMatcher::new(100).allocate(qty(100), &makers, NOW);

    assert_eq!(fills, vec![fill(0, 100)]);
    assert_contract(&fills, qty(100), &makers);
}

#[test]
fn allocation_pro_rata_takes_the_whole_level_in_lots() {
    let makers = level_of(&[10, 20, 30]);
    let fills = ProRataMatcher::new(10).allocate(qty(1000), &makers, NOW);

    assert_eq!(fills, vec![fill(0, 10), fill(1, 20), fill(2, 30)]);
    assert_contract(&fills, qty(1000), &makers);
}

#[test]
fn allocation_pro_rata_allocates_purely_from_the_lot_sweep() {
    let makers = level_of(&[500, 500, 500, 500]);
    let fills = ProRataMatcher::new(500).allocate(qty(1500), &makers, NOW);

    assert_eq!(fills, vec![fill(0, 500), fill(1, 500), fill(2, 500)]);
    assert_contract(&fills, qty(1500), &makers);
}

fn time_pro_rata() -> TimeProRataMatcher {
    TimeProRataMatcher::new(1).with_tick(1)
}

#[test]
fn time_pro_rata_favours_the_older_maker() {
    let makers = level_with_arrivals(&[(10, 0), (10, 1), (10, 2)]);
    let fills = time_pro_rata().allocate(qty(15), &makers, 3);

    assert_eq!(fills, vec![fill(0, 8), fill(1, 5), fill(2, 2)]);
    assert_contract(&fills, qty(15), &makers);

    let blind = pro_rata().allocate(qty(15), &makers, 3);
    assert_eq!(blind, vec![fill(0, 5), fill(1, 5), fill(2, 5)]);
}

#[test]
fn time_pro_rata_caps_a_maker_who_is_owed_more_than_it_holds() {
    let makers = level_with_arrivals(&[(1, 0), (100, 9)]);
    let fills = time_pro_rata().allocate(qty(50), &makers, 10);

    assert_eq!(fills, vec![fill(0, 1), fill(1, 49)]);
    assert_contract(&fills, qty(50), &makers);
}

#[test]
fn time_pro_rata_caps_again_after_redistributing() {
    let makers = level_with_arrivals(&[(1, 0), (10, 990), (100, 999)]);
    let fills = time_pro_rata().allocate(qty(100), &makers, 1000);

    assert_eq!(fills, vec![fill(0, 1), fill(1, 10), fill(2, 89)]);
    assert_contract(&fills, qty(100), &makers);
}

#[test]
fn time_pro_rata_with_equal_arrivals_is_pro_rata() {
    let makers = level_of(&[10, 10, 10]);
    let fills = time_pro_rata().allocate(qty(10), &makers, NOW);

    assert_eq!(fills, vec![fill(0, 4), fill(1, 3), fill(2, 3)]);
    assert_eq!(fills, pro_rata().allocate(qty(10), &makers, NOW));
    assert_contract(&fills, qty(10), &makers);
}

#[test]
fn time_pro_rata_stops_rewarding_beyond_the_age_cap() {
    let makers = level_with_arrivals(&[(10, 0), (10, 990)]);
    let matcher = TimeProRataMatcher::new(1).with_tick(1).with_max_age(10);

    let fills = matcher.allocate(qty(10), &makers, 1000);

    assert_eq!(fills, vec![fill(0, 5), fill(1, 5)]);
    assert_contract(&fills, qty(10), &makers);
}

#[test]
fn time_pro_rata_treats_an_arrival_after_now_as_brand_new() {
    let makers = level_with_arrivals(&[(10, 0), (10, 2000)]);
    let fills = time_pro_rata().allocate(qty(10), &makers, 1000);

    assert_eq!(fills, vec![fill(0, 10)]);
    assert_contract(&fills, qty(10), &makers);
}

#[test]
fn time_pro_rata_taker_larger_than_the_level_takes_everything() {
    let makers = level_with_arrivals(&[(10, 0), (20, 5)]);
    let fills = time_pro_rata().allocate(qty(1000), &makers, 10);

    assert_eq!(fills, vec![fill(0, 10), fill(1, 20)]);
    assert_contract(&fills, qty(1000), &makers);
}

#[test]
fn time_pro_rata_empty_level_yields_no_fills() {
    let makers = level_of(&[]);
    let fills = time_pro_rata().allocate(qty(100), &makers, NOW);

    assert!(fills.is_empty());
    assert_contract(&fills, qty(100), &makers);
}

#[test]
fn time_pro_rata_nothing_available_yields_no_fills() {
    let makers = level_with_arrivals(&[(10, 0), (10, 5)]);
    let fills = time_pro_rata().allocate(qty(0), &makers, 10);

    assert!(fills.is_empty());
    assert_contract(&fills, qty(0), &makers);
}

#[test]
fn time_pro_rata_skips_a_zero_remaining_maker() {
    let makers = level_with_arrivals(&[(10, 0), (0, 1), (10, 2)]);
    let fills = time_pro_rata().allocate(qty(10), &makers, 3);

    assert_eq!(fills, vec![fill(0, 8), fill(2, 2)]);
    assert_contract(&fills, qty(10), &makers);
}

#[test]
fn time_pro_rata_never_splits_a_lot() {
    let makers = level_with_arrivals(&[(10, 0), (20, 5)]);
    let fills = TimeProRataMatcher::new(10)
        .with_tick(1)
        .allocate(qty(10), &makers, 10);

    assert_eq!(fills, vec![fill(0, 10)]);
    assert_contract(&fills, qty(10), &makers);
}

#[test]
fn time_pro_rata_gives_a_lone_lot_to_the_front() {
    let makers = level_with_arrivals(&[(100, 0), (100, 1), (100, 2)]);
    let fills = TimeProRataMatcher::new(100)
        .with_tick(1)
        .allocate(qty(100), &makers, 3);

    assert_eq!(fills, vec![fill(0, 100)]);
    assert_contract(&fills, qty(100), &makers);
}

#[test]
fn time_pro_rata_survives_weights_that_overflow_u64() {
    let makers = level_with_arrivals(&[(u64::MAX, 0), (u64::MAX, 500)]);
    let fills = time_pro_rata().allocate(qty(100), &makers, 1000);

    assert_contract(&fills, qty(100), &makers);
    assert_eq!(fills.len(), 2);
    assert!(
        fills[0].quantity > fills[1].quantity,
        "the maker resting twice as long should take the larger share, got {fills:?}"
    );
}

#[test]
fn only_the_allocators_that_divide_declare_a_lot() {
    assert_eq!(FifoMatcher.lot_size(), None);
    assert_eq!(ProRataMatcher::new(25).lot_size(), Some(25));
    assert_eq!(TimeProRataMatcher::new(25).lot_size(), Some(25));
}

struct Random(u64);

impl Random {
    fn below(&mut self, bound: u64) -> u64 {
        self.0 = self
            .0
            .wrapping_mul(6_364_136_223_846_793_005)
            .wrapping_add(1_442_695_040_888_963_407);
        (self.0 >> 33) % bound
    }

    fn quantities(&mut self, lot: u64, most: u64) -> Vec<u64> {
        (0..self.below(24)).map(|_| lot * self.below(most)).collect()
    }

    fn makers(&mut self, lot: u64, most: u64) -> Vec<Maker> {
        (0..self.below(24))
            .map(|_| Maker {
                remaining_quantity: qty(lot * self.below(most)),
                arrival: u128::from(self.below(1_000_000)),
            })
            .collect()
    }
}

const LOTS: [u64; 4] = [2, 5, 10, 100];

#[test]
fn every_matcher_honours_the_contract() {
    let mut random = Random(1);
    for _ in 0..500 {
        let makers = random.makers(1, 10_000);
        let available = qty(random.below(200_000));

        let fifo = FifoMatcher.allocate(available, &makers, NOW);
        assert_contract(&fifo, available, &makers);

        let shared = pro_rata().allocate(available, &makers, NOW);
        assert_contract(&shared, available, &makers);
        assert_proportional(&shared, available, &makers, 1);

        let timed = time_pro_rata().allocate(available, &makers, NOW);
        assert_contract(&timed, available, &makers);
    }
}

#[test]
fn equal_arrivals_make_it_pro_rata() {
    let mut random = Random(2);
    for _ in 0..500 {
        let arrival = u128::from(random.below(1_000_000));
        let makers: Vec<Maker> = random
            .quantities(1, 10_000)
            .into_iter()
            .map(|quantity| Maker {
                remaining_quantity: qty(quantity),
                arrival,
            })
            .collect();
        let available = qty(random.below(200_000));

        assert_eq!(
            time_pro_rata().allocate(available, &makers, NOW),
            pro_rata().allocate(available, &makers, NOW)
        );
    }
}

#[test]
fn resting_longer_never_pays_less_at_equal_size() {
    let mut random = Random(3);
    for _ in 0..500 {
        let count = 1 + random.below(11) as usize;
        let size = 1 + random.below(9_999);
        let available = qty(random.below(100_000));
        let makers: Vec<Maker> = (0..count)
            .map(|i| Maker {
                remaining_quantity: qty(size),
                arrival: i as u128,
            })
            .collect();

        let fills = time_pro_rata().allocate(available, &makers, count as u128);
        assert_contract(&fills, available, &makers);

        let mut got = vec![0u64; count];
        for f in &fills {
            got[f.order_index] = f.quantity.base();
        }
        for window in got.windows(2) {
            assert!(
                window[0] >= window[1],
                "a younger maker out-earned an older one at equal size: {got:?}"
            );
        }
    }
}

#[test]
fn time_pro_rata_honours_the_contract_on_a_non_unit_lot() {
    let mut random = Random(4);
    for round in 0..400 {
        let lot = LOTS[round % LOTS.len()];
        let makers = random.makers(lot, 1_000);
        let available = qty(lot * random.below(20_000));

        let fills = TimeProRataMatcher::new(lot)
            .with_tick(1)
            .allocate(available, &makers, NOW);

        assert_contract(&fills, available, &makers);
        for f in &fills {
            assert!(
                f.quantity.base().is_multiple_of(lot),
                "(5) fill of {:?} is not a whole number of {lot}-unit lots",
                f.quantity
            );
        }
    }
}

#[test]
fn pro_rata_honours_the_contract_on_a_non_unit_lot() {
    let mut random = Random(5);
    for round in 0..400 {
        let lot = LOTS[round % LOTS.len()];
        let makers = level_of(&random.quantities(lot, 1_000));
        let available = qty(lot * random.below(20_000));

        let fills = ProRataMatcher::new(lot).allocate(available, &makers, NOW);

        assert_contract(&fills, available, &makers);
        assert_proportional(&fills, available, &makers, lot);
    }
}

#[test]
fn fifo_stays_on_the_lot_grid_without_being_told_about_it() {
    let mut random = Random(6);
    for round in 0..400 {
        let lot = LOTS[round % LOTS.len()];
        let makers = level_of(&random.quantities(lot, 1_000));
        let available = qty(lot * random.below(20_000));

        let fills = FifoMatcher.allocate(available, &makers, NOW);

        assert_contract(&fills, available, &makers);
        for f in &fills {
            assert!(f.quantity.base().is_multiple_of(lot));
        }
    }
}

#[test]
fn dwell_ratios_are_not_flattened() {
    let makers = level_with_arrivals(&[(100, 0), (100, 1), (100, 2)]);
    let fills = time_pro_rata().allocate(qty(60), &makers, 3);

    assert_eq!(fills, vec![fill(0, 30), fill(1, 20), fill(2, 10)]);
}

#[test]
fn what_a_capped_maker_cannot_hold_goes_to_the_others() {
    let makers = level_with_arrivals(&[(1, 0), (100, 9)]);
    let fills = time_pro_rata().allocate(qty(50), &makers, 10);

    assert_eq!(fills, vec![fill(0, 1), fill(1, 49)]);
}
