use order_book::instrument::{
    pow10, split_parts, InstrumentSpec, Qty, RejectReason, Rounding, Sign, SpecError,
};
use order_book::test_helpers::{px, qty as qty_of};
use order_book::types::Side;
use rust_decimal::prelude::FromStr;
use rust_decimal::Decimal;

fn dec(s: &str) -> Decimal {
    Decimal::from_str(s).expect("test literal parses")
}

fn quarter_lot_five() -> InstrumentSpec {
    InstrumentSpec::new(2, 0, 25, 5).expect("valid spec")
}

#[test]
fn a_zero_tick_is_not_a_spec() {
    assert!(matches!(
        InstrumentSpec::new(2, 0, 0, 1),
        Err(SpecError::InvalidSpec(_))
    ));
}

#[test]
fn a_zero_lot_is_not_a_spec() {
    assert!(matches!(
        InstrumentSpec::new(2, 0, 1, 0),
        Err(SpecError::InvalidSpec(_))
    ));
}

#[test]
fn a_scale_decimal_cannot_carry_is_not_a_spec() {
    assert!(matches!(
        InstrumentSpec::new(29, 0, 1, 1),
        Err(SpecError::InvalidSpec(_))
    ));
}

#[test]
fn bounds_default_to_one_tick_and_one_lot() {
    let spec = quarter_lot_five();

    assert_eq!(spec.min_price(), spec.price(dec("0.25")).unwrap());
    assert_eq!(spec.min_qty(), spec.qty(dec("5")).unwrap());
    assert_eq!(spec.max_price(), None);
    assert_eq!(spec.max_qty(), None);
}

#[test]
fn a_bound_off_its_own_grid_is_not_a_spec() {
    let spec = quarter_lot_five();
    let off_tick = px(3);

    assert!(matches!(
        spec.with_price_range(off_tick, None),
        Err(SpecError::InvalidSpec(_))
    ));
}

#[test]
fn a_max_below_its_min_is_not_a_spec() {
    let spec = quarter_lot_five();
    let low = spec.price(dec("10.00")).unwrap();
    let high = spec.price(dec("20.00")).unwrap();

    assert!(matches!(
        spec.with_price_range(high, Some(low)),
        Err(SpecError::InvalidSpec(_))
    ));
}

#[test]
fn a_price_on_the_grid_converts_to_minor_units() {
    let spec = InstrumentSpec::cents();
    assert_eq!(spec.price(dec("100.25")).unwrap().minor(), 10025);
    assert_eq!(spec.price(dec("0.01")).unwrap().minor(), 1);
}

#[test]
fn trailing_zeros_collapse_to_one_price() {
    let spec = InstrumentSpec::cents();

    let a = spec.price(dec("100")).unwrap();
    let b = spec.price(dec("100.0")).unwrap();
    let c = spec.price(dec("100.00")).unwrap();

    assert_eq!(a, b);
    assert_eq!(b, c);
    assert_eq!(a.minor(), 10000);
}

#[test]
fn a_price_finer_than_the_minor_unit_is_rejected() {
    let spec = InstrumentSpec::cents();
    assert!(matches!(
        spec.price(dec("100.001")),
        Err(SpecError::PriceTooPrecise { .. })
    ));
}

#[test]
fn a_price_off_the_tick_grid_is_rejected() {
    let spec = quarter_lot_five();
    assert!(matches!(
        spec.price(dec("100.03")),
        Err(SpecError::PriceOffTick { .. })
    ));
    assert!(spec.price(dec("100.25")).is_ok());
}

#[test]
fn a_negative_price_is_rejected() {
    let spec = InstrumentSpec::cents();
    assert!(matches!(
        spec.price(dec("-1.00")),
        Err(SpecError::PriceNegative(_))
    ));
}

#[test]
fn a_price_beyond_u64_is_rejected() {
    let spec = InstrumentSpec::cents();
    assert!(matches!(
        spec.price(dec("1000000000000000000000")),
        Err(SpecError::PriceOutOfRange(_))
    ));
}

#[test]
fn a_quantity_off_the_lot_grid_is_rejected() {
    let spec = quarter_lot_five();
    assert!(matches!(
        spec.qty(dec("7")),
        Err(SpecError::QtyOffLot { .. })
    ));
    assert_eq!(spec.qty(dec("10")).unwrap().base(), 10);
}

#[test]
fn a_satoshi_scale_quantity_converts() {
    let spec = InstrumentSpec::new(2, 8, 1, 1).unwrap();

    assert_eq!(spec.qty(dec("1")).unwrap().base(), 100_000_000);
    assert_eq!(spec.qty(dec("0.00000001")).unwrap().base(), 1);
    assert!(matches!(
        spec.qty(dec("0.000000001")),
        Err(SpecError::QtyTooPrecise { .. })
    ));
}

#[test]
fn the_integer_native_door_still_checks_the_tick() {
    let spec = quarter_lot_five();

    assert_eq!(spec.price_from_minor(10025).unwrap().minor(), 10025);
    assert!(matches!(
        spec.price_from_minor(10003),
        Err(SpecError::PriceOffTick { .. })
    ));
}

#[test]
fn rounding_moves_to_the_named_side_of_the_grid() {
    let spec = quarter_lot_five();

    let down = spec.round_price(dec("100.30"), Rounding::Down).unwrap();
    let up = spec.round_price(dec("100.30"), Rounding::Up).unwrap();

    assert_eq!(spec.to_decimal(down), dec("100.25"));
    assert_eq!(spec.to_decimal(up), dec("100.50"));
}

#[test]
fn rounding_up_notices_dust_below_the_minor_unit() {
    let spec = quarter_lot_five();

    let up = spec.round_price(dec("100.2500001"), Rounding::Up).unwrap();
    assert_eq!(spec.to_decimal(up), dec("100.50"));
}

#[test]
fn rounding_leaves_a_price_already_on_the_grid_alone() {
    let spec = quarter_lot_five();

    for rounding in [Rounding::Down, Rounding::Up] {
        let p = spec.round_price(dec("100.25"), rounding).unwrap();
        assert_eq!(spec.to_decimal(p), dec("100.25"));
    }
}

#[test]
fn passive_rounding_depends_on_the_side() {
    let spec = quarter_lot_five();

    let bid = spec
        .round_price(dec("100.30"), Rounding::TowardPassive(Side::Bid))
        .unwrap();
    let ask = spec
        .round_price(dec("100.30"), Rounding::TowardPassive(Side::Ask))
        .unwrap();

    assert_eq!(spec.to_decimal(bid), dec("100.25"));
    assert_eq!(spec.to_decimal(ask), dec("100.50"));
}

#[test]
fn ticks_between_counts_the_grid_not_the_currency() {
    let spec = quarter_lot_five();
    let bid = spec.price(dec("100.00")).unwrap();
    let ask = spec.price(dec("100.50")).unwrap();

    assert_eq!(spec.ticks_between(ask, bid).count(), 2);
    assert_eq!(spec.ticks_between(bid, ask).count(), 2);
}

#[test]
fn notional_multiplies_the_two_lattices() {
    let spec = InstrumentSpec::cents();
    let price = spec.price(dec("100.25")).unwrap();
    let qty = spec.qty(dec("3")).unwrap();

    assert_eq!(spec.notional(price, qty).raw(), 10025 * 3);
}

#[test]
fn notional_survives_the_widest_possible_product() {
    let spec = InstrumentSpec::cents();
    let price = InstrumentSpec::cents().price_from_minor(u64::MAX).unwrap();
    let qty = qty_of(u64::MAX);

    let expected = u128::from(u64::MAX) * u128::from(u64::MAX);
    assert_eq!(spec.notional(price, qty).raw(), expected);
    assert!(expected < u128::MAX);
}

#[test]
fn a_lattice_price_round_trips_through_decimal() {
    let spec = quarter_lot_five();
    for ticks in (0..100_000u64).step_by(97) {
        let price = spec.price_from_minor(ticks * spec.tick_size()).unwrap();
        assert_eq!(spec.price(spec.to_decimal(price)).unwrap(), price);
    }
}

#[test]
fn a_lattice_quantity_round_trips_through_decimal() {
    let spec = quarter_lot_five();
    for lots in (0..100_000u64).step_by(97) {
        let qty = spec.qty_from_base(lots * spec.lot_size()).unwrap();
        assert_eq!(spec.qty(spec.qty_to_decimal(qty)).unwrap(), qty);
    }
}

#[test]
fn a_price_between_two_ticks_is_always_rejected() {
    let spec = quarter_lot_five();
    for ticks in (0..100_000u64).step_by(997) {
        for offset in 1..25 {
            let off_grid = Decimal::from_i128_with_scale(
                i128::from(ticks * spec.tick_size() + offset),
                spec.price_scale(),
            );
            assert_eq!(
                spec.price(off_grid),
                Err(SpecError::PriceOffTick {
                    price: off_grid,
                    tick_size: dec("0.25"),
                })
            );
        }
    }
}

#[test]
fn rounding_always_lands_on_the_grid() {
    let spec = quarter_lot_five();
    for minor in (0..10_000_000u64).step_by(9_973) {
        let d = Decimal::from_i128_with_scale(i128::from(minor), spec.price_scale());

        let up = spec.round_price(d, Rounding::Up).unwrap();
        assert!(up.minor().is_multiple_of(spec.tick_size()));
        assert!(up.minor() >= minor);
        assert!(up.minor() - minor < spec.tick_size());

        let down = spec.round_price(d, Rounding::Down).unwrap();
        assert!(down.minor().is_multiple_of(spec.tick_size()));
        assert!(down.minor() <= minor);
        assert!(minor - down.minor() < spec.tick_size());
    }
}

#[test]
fn each_price_error_names_the_value() {
    let spec = quarter_lot_five();
    assert_eq!(
        spec.price(dec("-0.25")),
        Err(SpecError::PriceNegative(dec("-0.25")))
    );
    assert_eq!(
        spec.price(dec("1.005")),
        Err(SpecError::PriceTooPrecise {
            price: dec("1.005"),
            price_scale: 2,
        })
    );
    assert_eq!(
        spec.price(dec("1.30")),
        Err(SpecError::PriceOffTick {
            price: dec("1.30"),
            tick_size: dec("0.25"),
        })
    );
    assert_eq!(
        spec.price(dec("184467440737095516.25")),
        Err(SpecError::PriceOutOfRange(dec("184467440737095516.25")))
    );
    assert_eq!(
        spec.price_from_minor(130),
        Err(SpecError::PriceOffTick {
            price: dec("1.30"),
            tick_size: dec("0.25"),
        })
    );
}

#[test]
fn each_quantity_error_names_the_value() {
    let spec = InstrumentSpec::new(2, 1, 25, 5).unwrap();
    assert_eq!(
        spec.qty(dec("-0.5")),
        Err(SpecError::QtyNegative(dec("-0.5")))
    );
    assert_eq!(
        spec.qty(dec("0.55")),
        Err(SpecError::QtyTooPrecise {
            qty: dec("0.55"),
            qty_scale: 1,
        })
    );
    assert_eq!(
        spec.qty(dec("0.7")),
        Err(SpecError::QtyOffLot {
            qty: dec("0.7"),
            lot_size: dec("0.5"),
        })
    );
    assert_eq!(
        spec.qty(dec("1844674407370955162")),
        Err(SpecError::QtyOutOfRange(dec("1844674407370955162")))
    );
    assert_eq!(
        spec.qty_from_base(7),
        Err(SpecError::QtyOffLot {
            qty: dec("0.7"),
            lot_size: dec("0.5"),
        })
    );
}

#[test]
fn rounding_reports_what_it_cannot_place() {
    let spec = quarter_lot_five();
    assert_eq!(
        spec.round_price(dec("-1"), Rounding::Down),
        Err(SpecError::PriceNegative(dec("-1")))
    );
    assert_eq!(
        spec.round_price(dec("1000000000000000000000"), Rounding::Down),
        Err(SpecError::PriceOutOfRange(dec("1000000000000000000000")))
    );
    assert_eq!(
        spec.round_price(dec("184467440737095516.14"), Rounding::Up),
        Err(SpecError::PriceOutOfRange(dec("184467440737095516.14")))
    );
}

#[test]
fn the_widest_price_survives_the_decimal_boundary() {
    let spec = InstrumentSpec::cents();
    let widest = spec.price_from_minor(u64::MAX).unwrap();
    assert_eq!(spec.to_decimal(widest), dec("184467440737095516.15"));
    assert_eq!(spec.price(dec("184467440737095516.15")).unwrap(), widest);
    assert!(matches!(
        spec.price(dec("184467440737095516.16")),
        Err(SpecError::PriceOutOfRange(_))
    ));
}

#[test]
fn grid_steps_render_at_their_scale() {
    let spec = InstrumentSpec::new(2, 3, 25, 5).unwrap();
    assert_eq!(spec.tick_decimal().to_string(), "0.25");
    assert_eq!(spec.lot_decimal().to_string(), "0.005");
    assert_eq!(
        spec.to_decimal(spec.price_from_minor(100).unwrap())
            .to_string(),
        "1.00"
    );
    assert_eq!(
        spec.qty_to_decimal(spec.qty_from_base(10).unwrap())
            .to_string(),
        "0.010"
    );
}

#[test]
fn each_contradiction_in_a_spec_has_its_own_words() {
    let spec = quarter_lot_five();
    let on_tick = spec.price_from_minor(50).unwrap();
    let on_lot = spec.qty_from_base(10).unwrap();

    assert!(matches!(
        InstrumentSpec::new(0, 29, 1, 1),
        Err(SpecError::InvalidSpec(_))
    ));
    assert!(InstrumentSpec::new(28, 28, 1, 1).is_ok());
    assert_eq!(
        spec.with_price_range(on_tick, Some(px(53))),
        Err(SpecError::InvalidSpec("max_price is not on the tick grid"))
    );
    assert_eq!(
        spec.with_qty_range(qty_of(3), None),
        Err(SpecError::InvalidSpec("min_qty is not on the lot grid"))
    );
    assert_eq!(
        spec.with_qty_range(on_lot, Some(qty_of(12))),
        Err(SpecError::InvalidSpec("max_qty is not on the lot grid"))
    );
    assert_eq!(
        spec.with_qty_range(on_lot, Some(qty_of(5))),
        Err(SpecError::InvalidSpec("max_qty below min_qty"))
    );
    assert_eq!(
        spec.with_min_notional(dec("-1")),
        Err(SpecError::InvalidSpec("min_notional is negative"))
    );
    assert_eq!(
        spec.with_min_notional(dec("0.001")),
        Err(SpecError::InvalidSpec(
            "min_notional is finer than the notional grid"
        ))
    );
    assert_eq!(
        spec.with_min_notional(dec("1000000000000000000000")),
        Err(SpecError::InvalidSpec("min_notional is out of range"))
    );
}

#[test]
fn admission_names_the_bound_that_was_missed() {
    let spec = InstrumentSpec::cents()
        .with_price_range(px(100), Some(px(200)))
        .unwrap()
        .with_qty_range(qty_of(5), Some(qty_of(10)))
        .unwrap()
        .with_min_notional(dec("7.00"))
        .unwrap();

    assert_eq!(
        spec.admits_price(px(99)),
        Err(RejectReason::PriceBelowMinimum {
            price: px(99),
            min: px(100),
        })
    );
    assert_eq!(
        spec.admits_price(px(201)),
        Err(RejectReason::PriceAboveMaximum {
            price: px(201),
            max: px(200),
        })
    );
    assert_eq!(spec.admits_price(px(100)), Ok(()));
    assert_eq!(spec.admits_price(px(200)), Ok(()));
    assert_eq!(
        spec.admits_qty(qty_of(4)),
        Err(RejectReason::QuantityBelowMinimum {
            qty: qty_of(4),
            min: qty_of(5),
        })
    );
    assert_eq!(
        spec.admits_qty(qty_of(11)),
        Err(RejectReason::QuantityAboveMaximum {
            qty: qty_of(11),
            max: qty_of(10),
        })
    );
    assert_eq!(spec.admits_qty(qty_of(10)), Ok(()));
    assert!(matches!(
        spec.admits_notional(px(139), qty_of(5)),
        Err(RejectReason::NotionalBelowMinimum { .. })
    ));
    assert_eq!(spec.admits_notional(px(140), qty_of(5)), Ok(()));
    assert_eq!(spec.min_notional().unwrap().raw(), 700);
}

#[test]
fn quantities_add_subtract_and_sum() {
    assert_eq!(qty_of(3) + qty_of(4), qty_of(7));
    assert_eq!(qty_of(7) - qty_of(4), qty_of(3));
    assert_eq!(Qty::sum(&[]), Qty::zero());
    assert_eq!(Qty::sum(&[qty_of(1), qty_of(2), qty_of(3)]), qty_of(6));
    assert_eq!(Qty::default(), Qty::zero());
    assert!(Qty::zero().is_zero());
}

#[test]
fn a_decimal_splits_by_mantissa_and_scale() {
    assert_eq!(split_parts(10025, 2, 2), Ok((10025, false)));
    assert_eq!(split_parts(100, 0, 2), Ok((10000, false)));
    assert_eq!(split_parts(1002500001, 7, 2), Ok((10025, true)));
    assert_eq!(split_parts(-1, 0, 2), Err(Sign::Negative));
    assert_eq!(split_parts(i128::MAX, 0, 28), Err(Sign::TooLarge));
    assert_eq!(split_parts(1 << 64, 0, 0), Err(Sign::TooLarge));
    assert_eq!(pow10(0), Some(1));
    assert_eq!(pow10(38), Some(10i128.pow(38)));
    assert_eq!(pow10(39), None);
}
