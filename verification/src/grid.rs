//! Decimals on the grid of an instrument: how prices and quantities are read, rounded
//! and bounded, in terms of powers of ten and of whole ticks and lots.

use crate::instrument;
use crate::instrument::InstrumentSpec;
use crate::instrument::Price;
use crate::instrument::Rounding;
use crate::instrument::Sign;
use crate::instrument::SpecError;
use crate::types::Side;
use rust_decimal::Decimal;
use vstd::prelude::*;

verus! {

/// Whether `mantissa / 10^value_scale` is further from the grid of `10^-scale` than
/// 38 places, or 2^64 units of it or more.
pub open spec fn is_beyond(mantissa: int, value_scale: nat, scale: nat) -> bool {
    ||| scale > value_scale + 38
    ||| value_scale > scale + 38
    ||| mantissa * vstd::arithmetic::power::pow(10, scale) >= (u64::MAX + 1) * vstd::arithmetic::power::pow(10, value_scale)
}

/// Whether `mantissa / 10^value_scale` is so many units of `10^-scale`.
pub open spec fn is_units(units: int, mantissa: int, value_scale: nat, scale: nat) -> bool {
    units * vstd::arithmetic::power::pow(10, value_scale) == mantissa * vstd::arithmetic::power::pow(10, scale)
}

proof fn lemma_ten_to_is_pow(n: nat)
    ensures
        instrument::ten_to(n) == vstd::arithmetic::power::pow(10, n),
        vstd::arithmetic::power::pow(10, n) >= 1,
    decreases n,
{
    reveal(vstd::arithmetic::power::pow);
    if n > 0 {
        lemma_ten_to_is_pow((n - 1) as nat);
    }
}

/// Placing a decimal on a grid is exact: it gives the whole units of the grid that the
/// value has, and says whether the value is more than that. It fails for a negative
/// value, and for one that is out of reach.
pub proof fn splitting_is_exact(mantissa: int, value_scale: nat, scale: nat)
    ensures
        match instrument::split_of(mantissa, value_scale, scale) {
            Ok((units, dust)) => {
                let unit = vstd::arithmetic::power::pow(10, value_scale);
                let value = mantissa * vstd::arithmetic::power::pow(10, scale);
                &&& mantissa >= 0
                &&& !is_beyond(mantissa, value_scale, scale)
                &&& units * unit <= value < (units + 1) * unit
                &&& dust == (units * unit != value)
            },
            Err(Sign::Negative) => mantissa < 0,
            Err(Sign::TooLarge) => mantissa >= 0 && is_beyond(mantissa, value_scale, scale),
        },
{
    let f = instrument::grid_floor(mantissa, value_scale, scale);
    instrument::grid_floor_brackets(mantissa, value_scale, scale);
    lemma_ten_to_is_pow(value_scale);
    lemma_ten_to_is_pow(scale);
    let unit = vstd::arithmetic::power::pow(10, value_scale);
    let value = mantissa * vstd::arithmetic::power::pow(10, scale);
    let bound = u64::MAX + 1;
    if f > u64::MAX {
        assert(bound * unit <= f * unit) by (nonlinear_arith)
            requires
                bound <= f,
                unit >= 1,
        ;
    } else {
        assert((f + 1) * unit <= bound * unit) by (nonlinear_arith)
            requires
                f + 1 <= bound,
                unit >= 1,
        ;
    }
    if mantissa >= 0 {
        assert(value >= 0) by (nonlinear_arith)
            requires
                value == mantissa * vstd::arithmetic::power::pow(10, scale),
                mantissa >= 0,
                vstd::arithmetic::power::pow(10, scale) >= 1,
        ;
        assert(f >= 0) by (nonlinear_arith)
            requires
                0 <= value < (f + 1) * unit,
                unit >= 1,
        ;
    }
}

/// Whatever has no dust is a whole number of units, and the other way round.
proof fn lemma_whole(mantissa: int, value_scale: nat, scale: nat)
    requires
        instrument::split_of(mantissa, value_scale, scale) is Ok,
    ensures
        ({
            let (units, dust) = instrument::split_of(mantissa, value_scale, scale)->Ok_0;
            &&& !dust ==> is_units(units as int, mantissa, value_scale, scale)
            &&& dust ==> forall|k: int| !#[trigger] is_units(k, mantissa, value_scale, scale)
        }),
{
    splitting_is_exact(mantissa, value_scale, scale);
    let (units, dust) = instrument::split_of(mantissa, value_scale, scale)->Ok_0;
    lemma_ten_to_is_pow(value_scale);
    let unit = vstd::arithmetic::power::pow(10, value_scale);
    let value = mantissa * vstd::arithmetic::power::pow(10, scale);
    if dust {
        assert forall|k: int| !#[trigger] is_units(k, mantissa, value_scale, scale) by {
            if is_units(k, mantissa, value_scale, scale) {
                assert(k == units) by (nonlinear_arith)
                    requires
                        units * unit <= k * unit < (units + 1) * unit,
                        unit >= 1,
                ;
            }
        }
    }
}

/// Prices are read exactly: a decimal is a price where it is a whole number of ticks,
/// and then that price. Otherwise it is negative, out of reach, finer than the grid,
/// or between two ticks, and the error says which.
pub proof fn prices_are_read_exactly(spec: InstrumentSpec, d: Decimal)
    requires
        spec.wf(),
    ensures
        ({
            let m = instrument::decimal_mantissa(d) as int;
            let s = instrument::decimal_scale(d) as nat;
            let scale = spec.price_scale() as nat;
            match spec.spec_price(d, instrument::split_of(m, s, scale)) {
                Ok(price) => {
                    &&& is_units(price.minor() as int, m, s, scale)
                    &&& price.minor() as int % spec.tick_size() as int == 0
                },
                Err(SpecError::PriceNegative(shown)) => shown == d && m < 0,
                Err(SpecError::PriceOutOfRange(shown)) => {
                    &&& shown == d
                    &&& m >= 0
                    &&& is_beyond(m, s, scale)
                },
                Err(SpecError::PriceTooPrecise { price, price_scale }) => {
                    &&& price == d
                    &&& price_scale == spec.price_scale()
                    &&& m >= 0
                    &&& !is_beyond(m, s, scale)
                    &&& forall|k: int| !#[trigger] is_units(k, m, s, scale)
                },
                Err(SpecError::PriceOffTick { price, .. }) => {
                    &&& price == d
                    &&& m >= 0
                    &&& !is_beyond(m, s, scale)
                    &&& exists|k: int| #[trigger]
                        is_units(k, m, s, scale) && k % spec.tick_size() as int != 0
                },
                Err(_) => false,
            }
        }),
{
    let m = instrument::decimal_mantissa(d) as int;
    let s = instrument::decimal_scale(d) as nat;
    let scale = spec.price_scale() as nat;
    splitting_is_exact(m, s, scale);
    if instrument::split_of(m, s, scale) is Ok {
        lemma_whole(m, s, scale);
        let (units, dust) = instrument::split_of(m, s, scale)->Ok_0;
        if !dust && units as int % spec.tick_size() as int != 0 {
            assert(is_units(units as int, m, s, scale) && units as int % spec.tick_size() as int
                != 0);
        }
    }
}

/// Quantities are read exactly, as prices are, with lots in place of ticks.
pub proof fn quantities_are_read_exactly(spec: InstrumentSpec, d: Decimal)
    requires
        spec.wf(),
    ensures
        ({
            let m = instrument::decimal_mantissa(d) as int;
            let s = instrument::decimal_scale(d) as nat;
            let scale = spec.qty_scale() as nat;
            match spec.spec_qty(d, instrument::split_of(m, s, scale)) {
                Ok(qty) => {
                    &&& is_units(qty.base() as int, m, s, scale)
                    &&& qty.base() as int % spec.lot_size() as int == 0
                },
                Err(SpecError::QtyNegative(shown)) => shown == d && m < 0,
                Err(SpecError::QtyOutOfRange(shown)) => {
                    &&& shown == d
                    &&& m >= 0
                    &&& is_beyond(m, s, scale)
                },
                Err(SpecError::QtyTooPrecise { qty, qty_scale }) => {
                    &&& qty == d
                    &&& qty_scale == spec.qty_scale()
                    &&& m >= 0
                    &&& !is_beyond(m, s, scale)
                    &&& forall|k: int| !#[trigger] is_units(k, m, s, scale)
                },
                Err(SpecError::QtyOffLot { qty, .. }) => {
                    &&& qty == d
                    &&& m >= 0
                    &&& !is_beyond(m, s, scale)
                    &&& exists|k: int| #[trigger]
                        is_units(k, m, s, scale) && k % spec.lot_size() as int != 0
                },
                Err(_) => false,
            }
        }),
{
    let m = instrument::decimal_mantissa(d) as int;
    let s = instrument::decimal_scale(d) as nat;
    let scale = spec.qty_scale() as nat;
    splitting_is_exact(m, s, scale);
    if instrument::split_of(m, s, scale) is Ok {
        lemma_whole(m, s, scale);
        let (units, dust) = instrument::split_of(m, s, scale)->Ok_0;
        if !dust && units as int % spec.lot_size() as int != 0 {
            assert(is_units(units as int, m, s, scale) && units as int % spec.lot_size() as int
                != 0);
        }
    }
}

/// A notional floor is read exactly, on the grid of both scales together, and
/// nothing else of the instrument changes.
pub proof fn floors_are_read_exactly(spec: InstrumentSpec, d: Decimal)
    requires
        spec.wf(),
    ensures
        ({
            let m = instrument::decimal_mantissa(d) as int;
            let s = instrument::decimal_scale(d) as nat;
            let scale = (spec.price_scale() + spec.qty_scale()) as nat;
            match spec.spec_with_min_notional(instrument::split_of(m, s, scale)) {
                Ok(next) => {
                    &&& next.min_notional() matches Some(floor) && is_units(
                        floor.raw() as int,
                        m,
                        s,
                        scale,
                    )
                    &&& next.price_scale() == spec.price_scale()
                    &&& next.qty_scale() == spec.qty_scale()
                    &&& next.tick_size() == spec.tick_size()
                    &&& next.lot_size() == spec.lot_size()
                    &&& next.min_price() == spec.min_price()
                    &&& next.max_price() == spec.max_price()
                    &&& next.min_qty() == spec.min_qty()
                    &&& next.max_qty() == spec.max_qty()
                },
                Err(_) => m < 0 || is_beyond(m, s, scale) || forall|k: int|
                    !#[trigger] is_units(k, m, s, scale),
            }
        }),
{
    let m = instrument::decimal_mantissa(d) as int;
    let s = instrument::decimal_scale(d) as nat;
    let scale = (spec.price_scale() + spec.qty_scale()) as nat;
    splitting_is_exact(m, s, scale);
    if instrument::split_of(m, s, scale) is Ok {
        lemma_whole(m, s, scale);
    }
}

/// Rounding gives the nearest tick on the named side: down is the highest price on the
/// grid that is not above the value, up the lowest that is not below it, and a passive
/// price is rounded away from the market. It fails for a negative value, for one that
/// is out of reach, and where the grid has no price as high as the value.
pub proof fn rounding_gives_the_nearest_tick(spec: InstrumentSpec, d: Decimal, rounding: Rounding)
    requires
        spec.wf(),
    ensures
        ({
            let m = instrument::decimal_mantissa(d) as int;
            let s = instrument::decimal_scale(d) as nat;
            let scale = spec.price_scale() as nat;
            let tick = spec.tick_size() as int;
            let unit = vstd::arithmetic::power::pow(10, s);
            let value = m * vstd::arithmetic::power::pow(10, scale);
            let up = match rounding {
                Rounding::Down => false,
                Rounding::Up => true,
                Rounding::TowardPassive(Side::Bid) => false,
                Rounding::TowardPassive(Side::Ask) => true,
            };
            match spec.spec_round_price(d, instrument::split_of(m, s, scale), rounding) {
                Ok(price) => {
                    let p = price.minor() as int;
                    &&& p % tick == 0
                    &&& up ==> (p - tick) * unit < value <= p * unit
                    &&& !up ==> p * unit <= value < (p + tick) * unit
                },
                Err(SpecError::PriceNegative(shown)) => shown == d && m < 0,
                Err(SpecError::PriceOutOfRange(shown)) => {
                    &&& shown == d
                    &&& m >= 0
                    &&& is_beyond(m, s, scale) || (up && forall|p: int|
                        0 <= p <= u64::MAX && #[trigger] (p % tick) == 0 ==> p * unit < value)
                },
                Err(_) => false,
            }
        }),
{
    let m = instrument::decimal_mantissa(d) as int;
    let s = instrument::decimal_scale(d) as nat;
    let scale = spec.price_scale() as nat;
    let tick = spec.tick_size() as int;
    let unit = vstd::arithmetic::power::pow(10, s);
    let value = m * vstd::arithmetic::power::pow(10, scale);
    splitting_is_exact(m, s, scale);
    lemma_ten_to_is_pow(s);
    lemma_ten_to_is_pow(scale);
    let answer = spec.spec_round_price(d, instrument::split_of(m, s, scale), rounding);
    if let Ok(price) = answer {
        instrument::rounding_lands_on_the_named_side(spec, d, rounding, price);
    } else if instrument::split_of(m, s, scale) is Ok {
        let (floor, dust) = instrument::split_of(m, s, scale)->Ok_0;
        let f = floor as int;
        let below = (f / tick) * tick;
        vstd::arithmetic::div_mod::lemma_fundamental_div_mod(f, tick);
        assert(tick * (f / tick) == below) by (nonlinear_arith)
            requires
                below == (f / tick) * tick,
        ;
        vstd::arithmetic::div_mod::lemma_mod_multiples_basic(f / tick, tick);
        assert(below * unit < value) by {
            if f % tick == 0 {
                assert(dust);
            } else {
                assert(below * unit < f * unit) by (nonlinear_arith)
                    requires
                        below < f,
                        unit >= 1,
                ;
            }
        }
        assert forall|p: int| 0 <= p <= u64::MAX && #[trigger] (p % tick) == 0 implies p * unit
            < value by {
            if p > below {
                crate::sums::lemma_multiples_gap(below, p, tick);
                assert(false);
            }
            assert(p * unit <= below * unit) by (nonlinear_arith)
                requires
                    p <= below,
                    unit >= 1,
            ;
        }
    }
}

/// The distance of two prices is the whole ticks that fit between them.
pub proof fn distances_are_whole_ticks(spec: InstrumentSpec, a: Price, b: Price)
    requires
        spec.wf(),
    ensures
        ({
            let ticks = spec.spec_ticks_between(a, b);
            let tick = spec.tick_size() as int;
            &&& ticks >= 0
            &&& a.minor() >= b.minor() ==> ticks * tick <= a.minor() - b.minor() < (ticks + 1)
                * tick
            &&& b.minor() >= a.minor() ==> ticks * tick <= b.minor() - a.minor() < (ticks + 1)
                * tick
        }),
{
    let ticks = spec.spec_ticks_between(a, b);
    let tick = spec.tick_size() as int;
    let gap = if a.minor() >= b.minor() {
        a.minor() - b.minor()
    } else {
        b.minor() - a.minor()
    };
    vstd::arithmetic::div_mod::lemma_fundamental_div_mod(gap, tick);
    vstd::arithmetic::div_mod::lemma_div_pos_is_pos(gap, tick);
    assert(ticks * tick == tick * ticks && (ticks + 1) * tick == tick * ticks + tick)
        by (nonlinear_arith);
}

} // verus!
