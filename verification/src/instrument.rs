//! Tick size, lot size and the integer grid they define.
//!
//! A price counts minor units of the quote currency and a quantity counts base
//! units of the asset. Both are points on the grid of one [`InstrumentSpec`],
//! which is the only public way to make either. Decimal numbers stand at the
//! boundary alone: they are taken apart into a mantissa and a scale, and
//! everything after that is exact integer arithmetic.

use crate::sums;
use crate::types::Side;
use rust_decimal::Decimal;
use vstd::prelude::*;

verus! {

/// The number of decimal places that a decimal can carry.
pub const MAX_SCALE: u32 = 28;

/// The decimal numbers of `rust_decimal`, opaque here but for the two names
/// below.
#[verifier::external_type_specification]
#[verifier::external_body]
pub struct ExDecimal(rust_decimal::Decimal);

/// The signed integer `m` of a decimal `m / 10^s`, as `Decimal::mantissa`
/// returns it.
pub uninterp spec fn decimal_mantissa(d: Decimal) -> i128;

/// The number of decimal places `s` of a decimal `m / 10^s`, as
/// `Decimal::scale` returns it.
pub uninterp spec fn decimal_scale(d: Decimal) -> u32;

/// The decimal that `Decimal::from_i128_with_scale` makes.
pub uninterp spec fn decimal_from_parts(num: i128, scale: u32) -> Decimal;

/// `Decimal::mantissa` reads the stored integer, with its sign.
pub assume_specification[ Decimal::mantissa ](d: &Decimal) -> (r: i128)
    ensures
        r == decimal_mantissa(*d),
;

/// `Decimal::scale` reads the stored number of decimal places.
pub assume_specification[ Decimal::scale ](d: &Decimal) -> (r: u32)
    ensures
        r == decimal_scale(*d),
;

/// `Decimal::from_i128_with_scale` stores the integer and the scale that it is
/// given, unchanged. It panics on a scale over 28 and on an integer of more
/// than 96 bits, so neither is admitted.
pub assume_specification[ Decimal::from_i128_with_scale ](num: i128, scale: u32) -> (r: Decimal)
    requires
        scale <= 28,
        -0xFFFF_FFFF_FFFF_FFFF_FFFF_FFFF <= num <= 0xFFFF_FFFF_FFFF_FFFF_FFFF_FFFF,
    ensures
        r == decimal_from_parts(num, scale),
        decimal_mantissa(r) == num,
        decimal_scale(r) == scale,
;

/// A price in minor units of the quote currency. Unsigned, so no price is
/// negative.
#[derive(Debug, Clone, Copy, PartialEq, Eq, PartialOrd, Ord, Hash, Structural)]
pub struct Price(pub(crate) u64);

impl Price {
    pub open(crate) spec fn spec_minor(self) -> u64 {
        self.0
    }

    /// The count of minor units.
    #[verifier::when_used_as_spec(spec_minor)]
    pub fn minor(self) -> (r: u64)
        ensures
            r == self.minor(),
    {
        self.0
    }

    /// A price from minor units that are known to be on the grid.
    pub(crate) fn from_minor_unchecked(minor: u64) -> (r: Self)
        ensures
            r == Price(minor),
            r.minor() == minor,
    {
        Price(minor)
    }
}

/// A quantity in base units of the asset.
#[derive(Debug, Clone, Copy, PartialEq, Eq, PartialOrd, Ord, Hash, Structural)]
pub struct Qty(pub(crate) u64);

impl Qty {
    pub open(crate) spec fn spec_base(self) -> u64 {
        self.0
    }

    pub open(crate) spec fn spec_is_zero(self) -> bool {
        self.0 == 0
    }

    /// The quantity of nothing.
    pub fn zero() -> (r: Self)
        ensures
            r.base() == 0,
    {
        Qty(0)
    }

    /// The count of base units.
    #[verifier::when_used_as_spec(spec_base)]
    pub fn base(self) -> (r: u64)
        ensures
            r == self.base(),
    {
        self.0
    }

    /// A quantity from base units that are known to be on the grid.
    pub(crate) fn from_base_unchecked(base: u64) -> (r: Self)
        ensures
            r == Qty(base),
            r.base() == base,
    {
        Qty(base)
    }

    #[verifier::when_used_as_spec(spec_is_zero)]
    pub fn is_zero(self) -> (r: bool)
        ensures
            r == self.is_zero(),
            r == (self.base() == 0),
    {
        self.0 == 0
    }
}

impl Default for Qty {
    fn default() -> (r: Self)
        ensures
            r.base() == 0,
    {
        Qty(0)
    }
}

impl std::ops::Add for Qty {
    type Output = Qty;

    fn add(self, rhs: Qty) -> (r: Qty) {
        Qty(self.0 + rhs.0)
    }
}

impl vstd::std_specs::ops::AddSpecImpl for Qty {
    open spec fn obeys_add_spec() -> bool {
        true
    }

    open(crate) spec fn add_req(self, rhs: Qty) -> bool {
        self.0 + rhs.0 <= u64::MAX
    }

    open(crate) spec fn add_spec(self, rhs: Qty) -> Qty {
        Qty((self.0 + rhs.0) as u64)
    }
}

impl std::ops::Sub for Qty {
    type Output = Qty;

    fn sub(self, rhs: Qty) -> (r: Qty) {
        Qty(self.0 - rhs.0)
    }
}

impl vstd::std_specs::ops::SubSpecImpl for Qty {
    open spec fn obeys_sub_spec() -> bool {
        true
    }

    open(crate) spec fn sub_req(self, rhs: Qty) -> bool {
        rhs.0 <= self.0
    }

    open(crate) spec fn sub_spec(self, rhs: Qty) -> Qty {
        Qty((self.0 - rhs.0) as u64)
    }
}

/// The base units of each quantity.
pub open spec fn bases(quantities: Seq<Qty>) -> Seq<int> {
    quantities.map_values(|q: Qty| q.base() as int)
}

impl Qty {
    /// The quantities together. More than 64 bits can count has no sum.
    pub fn sum(quantities: &[Qty]) -> (r: Qty)
        requires
            sums::sum(bases(quantities@)) <= u64::MAX,
        ensures
            r.base() == sums::sum(bases(quantities@)),
    {
        let ghost all = bases(quantities@);
        let mut total: Qty = Qty(0);
        let mut i: usize = 0;
        proof {
            assert(all.take(0) =~= Seq::<int>::empty());
        }
        while i < quantities.len()
            invariant
                i <= quantities@.len(),
                all == bases(quantities@),
                sums::sum(all) <= u64::MAX,
                total.base() == sums::sum(all.take(i as int)),
            decreases quantities@.len() - i,
        {
            proof {
                sums::lemma_sum_step(all, i as int);
                sums::lemma_sum_prefix(all, i + 1);
            }
            total = total + quantities[i];
            i = i + 1;
        }
        proof {
            assert(all.take(i as int) =~= all);
        }
        total
    }
}

/// A difference between two prices, counted in ticks.
#[derive(Debug, Clone, Copy, PartialEq, Eq, PartialOrd, Ord, Hash, Structural)]
pub struct Ticks(pub(crate) u64);

impl Ticks {
    pub open(crate) spec fn spec_count(self) -> u64 {
        self.0
    }

    #[verifier::when_used_as_spec(spec_count)]
    pub fn count(self) -> (r: u64)
        ensures
            r == self.count(),
    {
        self.0
    }

    pub(crate) fn from_count(count: u64) -> (r: Self)
        ensures
            r == Ticks(count),
            r.count() == count,
    {
        Ticks(count)
    }
}

/// A notional value: minor price units times base quantity units.
#[derive(Debug, Clone, Copy, PartialEq, Eq, PartialOrd, Ord, Hash, Structural)]
pub struct Notional(pub(crate) u128);

impl Notional {
    pub open(crate) spec fn spec_raw(self) -> u128 {
        self.0
    }

    #[verifier::when_used_as_spec(spec_raw)]
    pub fn raw(self) -> (r: u128)
        ensures
            r == self.raw(),
    {
        self.0
    }
}

/// Which way [`InstrumentSpec::round_price`] moves a price that is off the
/// tick grid.
#[derive(Debug, Clone, Copy, PartialEq, Eq, Structural)]
pub enum Rounding {
    /// To the next legal price at or below the input.
    Down,
    /// To the next legal price at or above the input.
    Up,
    /// Away from the touch: a bid rounds down, an ask rounds up.
    TowardPassive(Side),
}

/// Why a value could not be placed on the grid.
#[derive(Debug, Clone, Copy, PartialEq, Eq)]
pub enum SpecError {
    PriceNegative(Decimal),
    /// Finer than the instrument's minor unit.
    PriceTooPrecise { price: Decimal, price_scale: u32 },
    /// On the minor-unit grid, but not on the tick grid.
    PriceOffTick { price: Decimal, tick_size: Decimal },
    /// Too large for the integer encoding.
    PriceOutOfRange(Decimal),
    QtyNegative(Decimal),
    QtyTooPrecise { qty: Decimal, qty_scale: u32 },
    QtyOffLot { qty: Decimal, lot_size: Decimal },
    QtyOutOfRange(Decimal),
    /// The spec itself is contradictory.
    InvalidSpec(&'static str),
}

/// Why a well-formed order is outside what the instrument accepts.
#[derive(Debug, Clone, Copy, PartialEq, Eq, Structural)]
#[allow(inconsistent_fields)]
pub enum RejectReason {
    PriceBelowMinimum { price: Price, min: Price },
    PriceAboveMaximum { price: Price, max: Price },
    QuantityBelowMinimum { qty: Qty, min: Qty },
    QuantityAboveMaximum { qty: Qty, max: Qty },
    NotionalBelowMinimum { notional: Notional, min: Notional },
}

/// Why a decimal could not become an unsigned count of grid units at all.
#[derive(Debug, Clone, Copy, PartialEq, Eq, Structural)]
pub enum Sign {
    Negative,
    TooLarge,
}

/// `10^n`.
pub open spec fn ten_to(n: nat) -> nat
    decreases n,
{
    if n == 0 {
        1
    } else {
        10 * ten_to((n - 1) as nat)
    }
}

/// The largest whole number of units of `10^-scale` in `mantissa / 10^value_scale`.
pub open spec fn grid_floor(mantissa: int, value_scale: nat, scale: nat) -> int {
    if scale >= value_scale {
        mantissa * ten_to((scale - value_scale) as nat)
    } else {
        mantissa / (ten_to((value_scale - scale) as nat) as int)
    }
}

/// Whether `mantissa / 10^value_scale` is not a whole number of units of
/// `10^-scale`.
pub open spec fn has_dust(mantissa: int, value_scale: nat, scale: nat) -> bool {
    scale < value_scale && mantissa % (ten_to((value_scale - scale) as nat) as int) != 0
}

/// Whether the two scales are further apart than 128-bit arithmetic reaches, or
/// the floor does not fit 64 bits.
pub open spec fn out_of_reach(mantissa: int, value_scale: nat, scale: nat) -> bool {
    ||| scale > value_scale + 38
    ||| value_scale > scale + 38
    ||| grid_floor(mantissa, value_scale, scale) > u64::MAX
}

/// What placing `mantissa / 10^value_scale` on the grid of `10^-scale` gives:
/// the floor, and whether anything was left below the grid.
pub open spec fn split_of(mantissa: int, value_scale: nat, scale: nat) -> Result<(u64, bool), Sign> {
    if mantissa < 0 {
        Err(Sign::Negative)
    } else if out_of_reach(mantissa, value_scale, scale) {
        Err(Sign::TooLarge)
    } else {
        Ok(
            (
                grid_floor(mantissa, value_scale, scale) as u64,
                has_dust(mantissa, value_scale, scale),
            ),
        )
    }
}

proof fn lemma_ten_to_positive(n: nat)
    ensures
        ten_to(n) >= 1,
    decreases n,
{
    if n > 0 {
        lemma_ten_to_positive((n - 1) as nat);
    }
}

proof fn lemma_ten_to_bounds()
    ensures
        ten_to(38) == 100_000_000_000_000_000_000_000_000_000_000_000_000,
{
    reveal_with_fuel(ten_to, 39);
}

proof fn lemma_ten_to_monotone(a: nat, b: nat)
    requires
        a <= b,
    ensures
        ten_to(a) <= ten_to(b),
    decreases b,
{
    if a < b {
        lemma_ten_to_monotone(a, (b - 1) as nat);
    }
}

/// `10^n`, or `None` past what the type holds.
pub fn pow10(n: u32) -> (r: Option<i128>)
    ensures
        r == (if n <= 38 {
            Some(ten_to(n as nat) as i128)
        } else {
            None
        }),
        n <= 38 ==> ten_to(n as nat) <= i128::MAX,
{
    if n > 38 {
        return None;
    }
    proof {
        lemma_ten_to_bounds();
        lemma_ten_to_monotone(n as nat, 38);
    }
    let mut power: i128 = 1;
    let mut i: u32 = 0;
    while i < n
        invariant
            i <= n <= 38,
            power == ten_to(i as nat),
            ten_to(38) == 100_000_000_000_000_000_000_000_000_000_000_000_000,
        decreases n - i,
    {
        proof {
            lemma_ten_to_monotone((i + 1) as nat, 38);
        }
        power = power * 10;
        i = i + 1;
    }
    Some(power)
}

/// Places `mantissa / 10^value_scale` on the grid of `10^-scale`, exactly: the
/// only operations are an integer multiplication or an integer division with
/// its remainder.
pub fn split_parts(mantissa: i128, value_scale: u32, scale: u32) -> (r: Result<(u64, bool), Sign>)
    ensures
        r == split_of(mantissa as int, value_scale as nat, scale as nat),
{
    if mantissa < 0 {
        return Err(Sign::Negative);
    }
    let quotient: i128;
    let remainder: i128;
    if scale >= value_scale {
        let shift: i128 = match pow10(scale - value_scale) {
            Some(shift) => shift,
            None => {
                return Err(Sign::TooLarge);
            },
        };
        match mantissa.checked_mul(shift) {
            Some(product) => {
                quotient = product;
                remainder = 0;
            },
            None => {
                proof {
                    lemma_ten_to_positive((scale - value_scale) as nat);
                    assert(mantissa * shift >= 0) by (nonlinear_arith)
                        requires
                            mantissa >= 0,
                            shift >= 1,
                    ;
                }
                return Err(Sign::TooLarge);
            },
        }
        proof {
            lemma_ten_to_positive((scale - value_scale) as nat);
            assert(mantissa * shift >= 0) by (nonlinear_arith)
                requires
                    mantissa >= 0,
                    shift >= 1,
            ;
        }
    } else {
        let shift: i128 = match pow10(value_scale - scale) {
            Some(shift) => shift,
            None => {
                return Err(Sign::TooLarge);
            },
        };
        proof {
            lemma_ten_to_positive((value_scale - scale) as nat);
            vstd::arithmetic::div_mod::lemma_div_pos_is_pos(mantissa as int, shift as int);
        }
        quotient = mantissa / shift;
        remainder = mantissa % shift;
    }
    if quotient > u64::MAX as i128 {
        return Err(Sign::TooLarge);
    }
    Ok((quotient as u64, remainder != 0))
}

/// Places a decimal on the grid of `10^-scale`; see [`split_parts`].
fn split_minor(d: Decimal, scale: u32) -> (r: Result<(u64, bool), Sign>)
    ensures
        r == split_of(decimal_mantissa(d) as int, decimal_scale(d) as nat, scale as nat),
{
    split_parts(d.mantissa(), d.scale(), scale)
}

/// The contract specification of one instrument: what a legal price and a legal
/// quantity look like, and the bounds that an order has to meet.
#[derive(Debug, Clone, Copy, PartialEq, Eq, Structural)]
pub struct InstrumentSpec {
    pub(crate) price_scale: u32,
    pub(crate) qty_scale: u32,
    /// In minor units.
    pub(crate) tick_size: u64,
    /// In base units.
    pub(crate) lot_size: u64,
    pub(crate) min_price: Price,
    pub(crate) max_price: Option<Price>,
    pub(crate) min_qty: Qty,
    pub(crate) max_qty: Option<Qty>,
    pub(crate) min_notional: Option<Notional>,
}

impl InstrumentSpec {
    pub open(crate) spec fn spec_price_scale(&self) -> u32 {
        self.price_scale
    }

    pub open(crate) spec fn spec_qty_scale(&self) -> u32 {
        self.qty_scale
    }

    pub open(crate) spec fn spec_tick_size(&self) -> u64 {
        self.tick_size
    }

    pub open(crate) spec fn spec_lot_size(&self) -> u64 {
        self.lot_size
    }

    pub open(crate) spec fn spec_min_price(&self) -> Price {
        self.min_price
    }

    pub open(crate) spec fn spec_max_price(&self) -> Option<Price> {
        self.max_price
    }

    pub open(crate) spec fn spec_min_qty(&self) -> Qty {
        self.min_qty
    }

    pub open(crate) spec fn spec_max_qty(&self) -> Option<Qty> {
        self.max_qty
    }

    pub open(crate) spec fn spec_min_notional(&self) -> Option<Notional> {
        self.min_notional
    }

    /// Whether a price is a whole number of ticks.
    pub open spec fn on_tick(self, price: Price) -> bool {
        price.minor() as int % self.tick_size() as int == 0
    }

    /// Whether a quantity is a whole number of lots.
    pub open spec fn on_lot(self, qty: Qty) -> bool {
        qty.base() as int % self.lot_size() as int == 0
    }

    /// A spec is valid when both scales can be rendered, tick and lot are not
    /// zero, the bounds are on the grid and no maximum is below its minimum.
    pub open spec fn wf(self) -> bool {
        &&& self.price_scale() <= MAX_SCALE
        &&& self.qty_scale() <= MAX_SCALE
        &&& self.tick_size() > 0
        &&& self.lot_size() > 0
        &&& self.on_tick(self.min_price())
        &&& self.on_lot(self.min_qty())
        &&& self.max_price() matches Some(max) ==> self.on_tick(max) && self.min_price().minor()
            <= max.minor()
        &&& self.max_qty() matches Some(max) ==> self.on_lot(max) && self.min_qty().base()
            <= max.base()
    }

    /// What [`InstrumentSpec::new`] returns.
    pub open(crate) spec fn spec_new(
        price_scale: u32,
        qty_scale: u32,
        tick_size: u64,
        lot_size: u64,
    ) -> Result<Self, SpecError> {
        if price_scale > MAX_SCALE || qty_scale > MAX_SCALE {
            Err(
                SpecError::InvalidSpec("scale exceeds the 28 decimal places rust_decimal can carry"),
            )
        } else if tick_size == 0 {
            Err(SpecError::InvalidSpec("tick_size must be non-zero"))
        } else if lot_size == 0 {
            Err(SpecError::InvalidSpec("lot_size must be non-zero"))
        } else {
            Ok(
                InstrumentSpec {
                    price_scale,
                    qty_scale,
                    tick_size,
                    lot_size,
                    min_price: Price(tick_size),
                    max_price: None,
                    min_qty: Qty(lot_size),
                    max_qty: None,
                    min_notional: None,
                },
            )
        }
    }

    /// The spec of a grid. The bounds default to one tick and one lot, so that
    /// a zero price and a zero quantity are outside them.
    pub fn new(price_scale: u32, qty_scale: u32, tick_size: u64, lot_size: u64) -> (r: Result<
        Self,
        SpecError,
    >)
        ensures
            r == Self::spec_new(price_scale, qty_scale, tick_size, lot_size),
            r matches Ok(spec) ==> {
                &&& spec.wf()
                &&& spec.price_scale() == price_scale
                &&& spec.qty_scale() == qty_scale
                &&& spec.tick_size() == tick_size
                &&& spec.lot_size() == lot_size
                &&& spec.min_price().minor() == tick_size
                &&& spec.max_price() is None
                &&& spec.min_qty().base() == lot_size
                &&& spec.max_qty() is None
                &&& spec.min_notional() is None
            },
            r is Ok <==> price_scale <= MAX_SCALE && qty_scale <= MAX_SCALE && tick_size > 0
                && lot_size > 0,
    {
        if price_scale > MAX_SCALE || qty_scale > MAX_SCALE {
            return Err(
                SpecError::InvalidSpec("scale exceeds the 28 decimal places rust_decimal can carry"),
            );
        }
        if tick_size == 0 {
            return Err(SpecError::InvalidSpec("tick_size must be non-zero"));
        }
        if lot_size == 0 {
            return Err(SpecError::InvalidSpec("lot_size must be non-zero"));
        }
        proof {
            vstd::arithmetic::div_mod::lemma_mod_self_0(tick_size as int);
            vstd::arithmetic::div_mod::lemma_mod_self_0(lot_size as int);
        }
        Ok(
            InstrumentSpec {
                price_scale,
                qty_scale,
                tick_size,
                lot_size,
                min_price: Price(tick_size),
                max_price: None,
                min_qty: Qty(lot_size),
                max_qty: None,
                min_notional: None,
            },
        )
    }

    /// Prices in cents on a one-cent tick, quantities in whole units on a
    /// one-unit lot.
    pub fn cents() -> (r: Self)
        ensures
            Self::spec_new(2, 0, 1, 1) == Ok::<Self, SpecError>(r),
            r.wf(),
            r.price_scale() == 2,
            r.qty_scale() == 0,
            r.tick_size() == 1,
            r.lot_size() == 1,
            r.min_price().minor() == 1,
            r.max_price() is None,
            r.min_qty().base() == 1,
            r.max_qty() is None,
            r.min_notional() is None,
    {
        InstrumentSpec::new(2, 0, 1, 1).expect("2/0/1/1 is a valid spec")
    }

    #[verifier::when_used_as_spec(spec_price_scale)]
    pub fn price_scale(&self) -> (r: u32)
        ensures
            r == self.price_scale(),
    {
        self.price_scale
    }

    #[verifier::when_used_as_spec(spec_qty_scale)]
    pub fn qty_scale(&self) -> (r: u32)
        ensures
            r == self.qty_scale(),
    {
        self.qty_scale
    }

    /// In minor units.
    #[verifier::when_used_as_spec(spec_tick_size)]
    pub fn tick_size(&self) -> (r: u64)
        ensures
            r == self.tick_size(),
    {
        self.tick_size
    }

    /// In base units.
    #[verifier::when_used_as_spec(spec_lot_size)]
    pub fn lot_size(&self) -> (r: u64)
        ensures
            r == self.lot_size(),
    {
        self.lot_size
    }

    #[verifier::when_used_as_spec(spec_min_price)]
    pub fn min_price(&self) -> (r: Price)
        ensures
            r == self.min_price(),
    {
        self.min_price
    }

    #[verifier::when_used_as_spec(spec_max_price)]
    pub fn max_price(&self) -> (r: Option<Price>)
        ensures
            r == self.max_price(),
    {
        self.max_price
    }

    #[verifier::when_used_as_spec(spec_min_qty)]
    pub fn min_qty(&self) -> (r: Qty)
        ensures
            r == self.min_qty(),
    {
        self.min_qty
    }

    #[verifier::when_used_as_spec(spec_max_qty)]
    pub fn max_qty(&self) -> (r: Option<Qty>)
        ensures
            r == self.max_qty(),
    {
        self.max_qty
    }

    #[verifier::when_used_as_spec(spec_min_notional)]
    pub fn min_notional(&self) -> (r: Option<Notional>)
        ensures
            r == self.min_notional(),
    {
        self.min_notional
    }

    /// What [`InstrumentSpec::with_price_range`] returns.
    pub open(crate) spec fn spec_with_price_range(self, min: Price, max: Option<Price>) -> Result<
        Self,
        SpecError,
    > {
        if !self.on_tick(min) {
            Err(SpecError::InvalidSpec("min_price is not on the tick grid"))
        } else if max is Some && !self.on_tick(max->0) {
            Err(SpecError::InvalidSpec("max_price is not on the tick grid"))
        } else if max is Some && max->0.minor() < min.minor() {
            Err(SpecError::InvalidSpec("max_price below min_price"))
        } else {
            Ok(InstrumentSpec { min_price: min, max_price: max, ..self })
        }
    }

    /// The same spec with another price band. The bounds have to be on the tick
    /// grid and in order.
    pub fn with_price_range(self, min: Price, max: Option<Price>) -> (r: Result<Self, SpecError>)
        requires
            self.wf(),
        ensures
            r == self.spec_with_price_range(min, max),
            r matches Ok(spec) ==> {
                &&& spec.wf()
                &&& spec.min_price() == min
                &&& spec.max_price() == max
                &&& spec.price_scale() == self.price_scale()
                &&& spec.qty_scale() == self.qty_scale()
                &&& spec.tick_size() == self.tick_size()
                &&& spec.lot_size() == self.lot_size()
                &&& spec.min_qty() == self.min_qty()
                &&& spec.max_qty() == self.max_qty()
                &&& spec.min_notional() == self.min_notional()
            },
            r is Ok <==> self.on_tick(min) && (max matches Some(max) ==> self.on_tick(max)
                && min.minor() <= max.minor()),
    {
        if min.0 % self.tick_size != 0 {
            return Err(SpecError::InvalidSpec("min_price is not on the tick grid"));
        }
        if let Some(max) = max {
            if max.0 % self.tick_size != 0 {
                return Err(SpecError::InvalidSpec("max_price is not on the tick grid"));
            }
            if max.0 < min.0 {
                return Err(SpecError::InvalidSpec("max_price below min_price"));
            }
        }
        Ok(InstrumentSpec { min_price: min, max_price: max, ..self })
    }

    /// What [`InstrumentSpec::with_qty_range`] returns.
    pub open(crate) spec fn spec_with_qty_range(self, min: Qty, max: Option<Qty>) -> Result<
        Self,
        SpecError,
    > {
        if !self.on_lot(min) {
            Err(SpecError::InvalidSpec("min_qty is not on the lot grid"))
        } else if max is Some && !self.on_lot(max->0) {
            Err(SpecError::InvalidSpec("max_qty is not on the lot grid"))
        } else if max is Some && max->0.base() < min.base() {
            Err(SpecError::InvalidSpec("max_qty below min_qty"))
        } else {
            Ok(InstrumentSpec { min_qty: min, max_qty: max, ..self })
        }
    }

    /// The same spec with another quantity band. The bounds have to be on the
    /// lot grid and in order.
    pub fn with_qty_range(self, min: Qty, max: Option<Qty>) -> (r: Result<Self, SpecError>)
        requires
            self.wf(),
        ensures
            r == self.spec_with_qty_range(min, max),
            r matches Ok(spec) ==> {
                &&& spec.wf()
                &&& spec.min_qty() == min
                &&& spec.max_qty() == max
                &&& spec.price_scale() == self.price_scale()
                &&& spec.qty_scale() == self.qty_scale()
                &&& spec.tick_size() == self.tick_size()
                &&& spec.lot_size() == self.lot_size()
                &&& spec.min_price() == self.min_price()
                &&& spec.max_price() == self.max_price()
                &&& spec.min_notional() == self.min_notional()
            },
            r is Ok <==> self.on_lot(min) && (max matches Some(max) ==> self.on_lot(max)
                && min.base() <= max.base()),
    {
        if min.0 % self.lot_size != 0 {
            return Err(SpecError::InvalidSpec("min_qty is not on the lot grid"));
        }
        if let Some(max) = max {
            if max.0 % self.lot_size != 0 {
                return Err(SpecError::InvalidSpec("max_qty is not on the lot grid"));
            }
            if max.0 < min.0 {
                return Err(SpecError::InvalidSpec("max_qty below min_qty"));
            }
        }
        Ok(InstrumentSpec { min_qty: min, max_qty: max, ..self })
    }

    /// What [`InstrumentSpec::with_min_notional`] returns for a decimal that
    /// was split on the notional grid.
    pub open(crate) spec fn spec_with_min_notional(self, split: Result<(u64, bool), Sign>) -> Result<
        Self,
        SpecError,
    > {
        match split {
            Err(Sign::Negative) => Err(SpecError::InvalidSpec("min_notional is negative")),
            Err(Sign::TooLarge) => Err(SpecError::InvalidSpec("min_notional is out of range")),
            Ok((raw, dust)) => if dust {
                Err(SpecError::InvalidSpec("min_notional is finer than the notional grid"))
            } else {
                Ok(InstrumentSpec { min_notional: Some(Notional(raw as u128)), ..self })
            },
        }
    }

    /// The same spec with a floor under price times quantity. One notional unit
    /// is one minor price unit times one base unit, so the decimal is read on
    /// the grid of both scales together.
    pub fn with_min_notional(self, d: Decimal) -> (r: Result<Self, SpecError>)
        requires
            self.wf(),
        ensures
            r == self.spec_with_min_notional(
                split_of(
                    decimal_mantissa(d) as int,
                    decimal_scale(d) as nat,
                    (self.price_scale() + self.qty_scale()) as nat,
                ),
            ),
            r matches Ok(spec) ==> spec.wf(),
    {
        match split_minor(d, self.price_scale + self.qty_scale) {
            Err(Sign::Negative) => Err(SpecError::InvalidSpec("min_notional is negative")),
            Err(Sign::TooLarge) => Err(SpecError::InvalidSpec("min_notional is out of range")),
            Ok((raw, dust)) => {
                if dust {
                    Err(SpecError::InvalidSpec("min_notional is finer than the notional grid"))
                } else {
                    Ok(InstrumentSpec { min_notional: Some(Notional(raw as u128)), ..self })
                }
            },
        }
    }

    /// The price that `minor` units name, or the off-tick error for the decimal
    /// `shown`.
    pub open(crate) spec fn spec_price_at(self, minor: u64, shown: Decimal) -> Result<
        Price,
        SpecError,
    > {
        if minor as int % self.tick_size() as int == 0 {
            Ok(Price(minor))
        } else {
            Err(
                SpecError::PriceOffTick {
                    price: shown,
                    tick_size: decimal_from_parts(self.tick_size() as i128, self.price_scale()),
                },
            )
        }
    }

    /// What [`InstrumentSpec::price`] returns for a decimal that was split on
    /// the price grid.
    pub open(crate) spec fn spec_price(self, d: Decimal, split: Result<(u64, bool), Sign>) -> Result<
        Price,
        SpecError,
    > {
        match split {
            Err(Sign::Negative) => Err(SpecError::PriceNegative(d)),
            Err(Sign::TooLarge) => Err(SpecError::PriceOutOfRange(d)),
            Ok((minor, dust)) => if dust {
                Err(SpecError::PriceTooPrecise { price: d, price_scale: self.price_scale() })
            } else {
                self.spec_price_at(minor, d)
            },
        }
    }

    /// Places a decimal price on the grid, or says why it is not on it. The
    /// price band plays no part: it is a matter of admission.
    pub fn price(&self, d: Decimal) -> (r: Result<Price, SpecError>)
        requires
            self.wf(),
        ensures
            r == self.spec_price(
                d,
                split_of(
                    decimal_mantissa(d) as int,
                    decimal_scale(d) as nat,
                    self.price_scale() as nat,
                ),
            ),
    {
        let minor: u64 = match split_minor(d, self.price_scale) {
            Ok((minor, dust)) => {
                if dust {
                    return Err(
                        SpecError::PriceTooPrecise { price: d, price_scale: self.price_scale },
                    );
                }
                minor
            },
            Err(Sign::Negative) => {
                return Err(SpecError::PriceNegative(d));
            },
            Err(Sign::TooLarge) => {
                return Err(SpecError::PriceOutOfRange(d));
            },
        };
        match self.price_from_minor(minor) {
            Ok(price) => Ok(price),
            Err(_) => Err(SpecError::PriceOffTick { price: d, tick_size: self.tick_decimal() }),
        }
    }

    /// The price of a count of minor units, if it is a whole number of ticks.
    pub fn price_from_minor(&self, minor: u64) -> (r: Result<Price, SpecError>)
        requires
            self.wf(),
        ensures
            r == self.spec_price_at(minor, decimal_from_parts(minor as i128, self.price_scale())),
            r is Ok <==> minor as int % self.tick_size() as int == 0,
            r matches Ok(price) ==> price.minor() == minor,
    {
        if minor % self.tick_size != 0 {
            return Err(
                SpecError::PriceOffTick {
                    price: Decimal::from_i128_with_scale(minor as i128, self.price_scale),
                    tick_size: self.tick_decimal(),
                },
            );
        }
        Ok(Price(minor))
    }

    /// The quantity that `base` units name, or the off-lot error for the decimal
    /// `shown`.
    pub open(crate) spec fn spec_qty_at(self, base: u64, shown: Decimal) -> Result<Qty, SpecError> {
        if base as int % self.lot_size() as int == 0 {
            Ok(Qty(base))
        } else {
            Err(
                SpecError::QtyOffLot {
                    qty: shown,
                    lot_size: decimal_from_parts(self.lot_size() as i128, self.qty_scale()),
                },
            )
        }
    }

    /// What [`InstrumentSpec::qty`] returns for a decimal that was split on the
    /// quantity grid.
    pub open(crate) spec fn spec_qty(self, d: Decimal, split: Result<(u64, bool), Sign>) -> Result<
        Qty,
        SpecError,
    > {
        match split {
            Err(Sign::Negative) => Err(SpecError::QtyNegative(d)),
            Err(Sign::TooLarge) => Err(SpecError::QtyOutOfRange(d)),
            Ok((base, dust)) => if dust {
                Err(SpecError::QtyTooPrecise { qty: d, qty_scale: self.qty_scale() })
            } else {
                self.spec_qty_at(base, d)
            },
        }
    }

    /// Places a decimal quantity on the grid, or says why it is not on it.
    pub fn qty(&self, d: Decimal) -> (r: Result<Qty, SpecError>)
        requires
            self.wf(),
        ensures
            r == self.spec_qty(
                d,
                split_of(
                    decimal_mantissa(d) as int,
                    decimal_scale(d) as nat,
                    self.qty_scale() as nat,
                ),
            ),
    {
        let base: u64 = match split_minor(d, self.qty_scale) {
            Ok((base, dust)) => {
                if dust {
                    return Err(SpecError::QtyTooPrecise { qty: d, qty_scale: self.qty_scale });
                }
                base
            },
            Err(Sign::Negative) => {
                return Err(SpecError::QtyNegative(d));
            },
            Err(Sign::TooLarge) => {
                return Err(SpecError::QtyOutOfRange(d));
            },
        };
        match self.qty_from_base(base) {
            Ok(qty) => Ok(qty),
            Err(_) => Err(SpecError::QtyOffLot { qty: d, lot_size: self.lot_decimal() }),
        }
    }

    /// The quantity of a count of base units, if it is a whole number of lots.
    pub fn qty_from_base(&self, base: u64) -> (r: Result<Qty, SpecError>)
        requires
            self.wf(),
        ensures
            r == self.spec_qty_at(base, decimal_from_parts(base as i128, self.qty_scale())),
            r is Ok <==> base as int % self.lot_size() as int == 0,
            r matches Ok(qty) ==> qty.base() == base,
    {
        if base % self.lot_size != 0 {
            return Err(
                SpecError::QtyOffLot {
                    qty: Decimal::from_i128_with_scale(base as i128, self.qty_scale),
                    lot_size: self.lot_decimal(),
                },
            );
        }
        Ok(Qty(base))
    }

    /// What [`InstrumentSpec::round_price`] returns for a decimal that was split
    /// on the price grid: the tick at or below the value, or the one above where
    /// the value is not on a tick and the rounding goes up.
    pub open(crate) spec fn spec_round_price(
        self,
        d: Decimal,
        split: Result<(u64, bool), Sign>,
        rounding: Rounding,
    ) -> Result<Price, SpecError> {
        match split {
            Err(Sign::Negative) => Err(SpecError::PriceNegative(d)),
            Err(Sign::TooLarge) => Err(SpecError::PriceOutOfRange(d)),
            Ok((floor, dust)) => {
                let tick = self.tick_size() as int;
                let below = (floor as int / tick) * tick;
                if !rounds_up(rounding) || (floor as int % tick == 0 && !dust) {
                    Ok(Price(below as u64))
                } else if below + tick <= u64::MAX {
                    Ok(Price((below + tick) as u64))
                } else {
                    Err(SpecError::PriceOutOfRange(d))
                }
            },
        }
    }

    /// Moves a price onto the tick grid in a named direction.
    pub fn round_price(&self, d: Decimal, rounding: Rounding) -> (r: Result<Price, SpecError>)
        requires
            self.wf(),
        ensures
            r == self.spec_round_price(
                d,
                split_of(
                    decimal_mantissa(d) as int,
                    decimal_scale(d) as nat,
                    self.price_scale() as nat,
                ),
                rounding,
            ),
    {
        let (floor_minor, has_remainder): (u64, bool) = match split_minor(d, self.price_scale) {
            Ok(split) => split,
            Err(Sign::Negative) => {
                return Err(SpecError::PriceNegative(d));
            },
            Err(Sign::TooLarge) => {
                return Err(SpecError::PriceOutOfRange(d));
            },
        };
        let up: bool = match rounding {
            Rounding::Down => false,
            Rounding::Up => true,
            Rounding::TowardPassive(Side::Bid) => false,
            Rounding::TowardPassive(Side::Ask) => true,
        };
        let down_tick: u64 = floor_minor / self.tick_size;
        let exact: bool = floor_minor % self.tick_size == 0 && !has_remainder;
        let ghost tick = self.tick_size as int;
        proof {
            vstd::arithmetic::div_mod::lemma_fundamental_div_mod(floor_minor as int, tick);
            vstd::arithmetic::mul::lemma_mul_is_commutative(tick, floor_minor as int / tick);
            vstd::arithmetic::mul::lemma_mul_nonnegative(down_tick as int, tick);
            vstd::arithmetic::mul::lemma_mul_is_distributive_add_other_way(tick, down_tick as int, 1);
        }
        if up && !exact {
            let next_tick: u64 = match down_tick.checked_add(1) {
                Some(t) => t,
                None => {
                    proof {
                        assert(down_tick as int * tick >= down_tick) by (nonlinear_arith)
                            requires
                                tick >= 1,
                                down_tick >= 0,
                        ;
                    }
                    return Err(SpecError::PriceOutOfRange(d));
                },
            };
            match next_tick.checked_mul(self.tick_size) {
                Some(minor) => Ok(Price(minor)),
                None => Err(SpecError::PriceOutOfRange(d)),
            }
        } else {
            Ok(Price(down_tick * self.tick_size))
        }
    }

    /// The decimal that a price is shown as.
    pub fn to_decimal(&self, price: Price) -> (r: Decimal)
        requires
            self.wf(),
        ensures
            r == decimal_from_parts(price.minor() as i128, self.price_scale()),
            decimal_mantissa(r) == price.minor(),
            decimal_scale(r) == self.price_scale(),
    {
        Decimal::from_i128_with_scale(price.0 as i128, self.price_scale)
    }

    /// The decimal that a quantity is shown as.
    pub fn qty_to_decimal(&self, qty: Qty) -> (r: Decimal)
        requires
            self.wf(),
        ensures
            r == decimal_from_parts(qty.base() as i128, self.qty_scale()),
            decimal_mantissa(r) == qty.base(),
            decimal_scale(r) == self.qty_scale(),
    {
        Decimal::from_i128_with_scale(qty.0 as i128, self.qty_scale)
    }

    /// The tick as a decimal.
    pub fn tick_decimal(&self) -> (r: Decimal)
        requires
            self.wf(),
        ensures
            r == decimal_from_parts(self.tick_size() as i128, self.price_scale()),
            decimal_mantissa(r) == self.tick_size(),
            decimal_scale(r) == self.price_scale(),
    {
        Decimal::from_i128_with_scale(self.tick_size as i128, self.price_scale)
    }

    /// The lot as a decimal.
    pub fn lot_decimal(&self) -> (r: Decimal)
        requires
            self.wf(),
        ensures
            r == decimal_from_parts(self.lot_size() as i128, self.qty_scale()),
            decimal_mantissa(r) == self.lot_size(),
            decimal_scale(r) == self.qty_scale(),
    {
        Decimal::from_i128_with_scale(self.lot_size as i128, self.qty_scale)
    }

    /// How far apart two prices are, in whole ticks.
    pub open spec fn spec_ticks_between(&self, a: Price, b: Price) -> int {
        let gap = if a.minor() >= b.minor() {
            a.minor() - b.minor()
        } else {
            b.minor() - a.minor()
        };
        gap / self.tick_size() as int
    }

    /// How many ticks apart two prices are, whichever is higher.
    pub fn ticks_between(&self, a: Price, b: Price) -> (r: Ticks)
        requires
            self.wf(),
        ensures
            r.count() == self.spec_ticks_between(a, b),
    {
        let gap: u64 = if a.0 >= b.0 {
            a.0 - b.0
        } else {
            b.0 - a.0
        };
        Ticks::from_count(gap / self.tick_size)
    }

    /// Price times quantity, which always fits.
    pub fn notional(&self, price: Price, qty: Qty) -> (r: Notional)
        ensures
            r.raw() == price.minor() * qty.base(),
    {
        proof {
            lemma_product_of_u64_fits(price.minor(), qty.base());
        }
        Notional((price.0 as u128) * (qty.0 as u128))
    }

    /// Why the price band refuses a price, or `None`.
    pub open spec fn price_refusal(self, price: Price) -> Option<RejectReason> {
        if price.minor() < self.min_price().minor() {
            Some(RejectReason::PriceBelowMinimum { price, min: self.min_price() })
        } else if self.max_price() is Some && price.minor() > self.max_price()->0.minor() {
            Some(RejectReason::PriceAboveMaximum { price, max: self.max_price()->0 })
        } else {
            None
        }
    }

    /// Why the quantity band refuses a quantity, or `None`.
    pub open spec fn qty_refusal(self, qty: Qty) -> Option<RejectReason> {
        if qty.base() < self.min_qty().base() {
            Some(RejectReason::QuantityBelowMinimum { qty, min: self.min_qty() })
        } else if self.max_qty() is Some && qty.base() > self.max_qty()->0.base() {
            Some(RejectReason::QuantityAboveMaximum { qty, max: self.max_qty()->0 })
        } else {
            None
        }
    }

    /// Why the notional floor refuses a price and a quantity, or `None`.
    pub open(crate) spec fn notional_refusal(self, price: Price, qty: Qty) -> Option<RejectReason> {
        if self.min_notional() is Some && price.minor() * qty.base() < self.min_notional()->0.raw() {
            Some(
                RejectReason::NotionalBelowMinimum {
                    notional: Notional((price.minor() * qty.base()) as u128),
                    min: self.min_notional()->0,
                },
            )
        } else {
            None
        }
    }

    /// Whether the price band accepts a price.
    pub fn admits_price(&self, price: Price) -> (r: Result<(), RejectReason>)
        ensures
            r == (match self.price_refusal(price) {
                Some(reason) => Err::<(), RejectReason>(reason),
                None => Ok(()),
            }),
            r is Ok <==> self.min_price().minor() <= price.minor() && (self.max_price() matches Some(
                max,
            ) ==> price.minor() <= max.minor()),
    {
        if price.0 < self.min_price.0 {
            return Err(RejectReason::PriceBelowMinimum { price, min: self.min_price });
        }
        if let Some(max) = self.max_price {
            if price.0 > max.0 {
                return Err(RejectReason::PriceAboveMaximum { price, max });
            }
        }
        Ok(())
    }

    /// Whether the quantity band accepts a quantity.
    pub fn admits_qty(&self, qty: Qty) -> (r: Result<(), RejectReason>)
        ensures
            r == (match self.qty_refusal(qty) {
                Some(reason) => Err::<(), RejectReason>(reason),
                None => Ok(()),
            }),
            r is Ok <==> self.min_qty().base() <= qty.base() && (self.max_qty() matches Some(max)
                ==> qty.base() <= max.base()),
    {
        if qty.0 < self.min_qty.0 {
            return Err(RejectReason::QuantityBelowMinimum { qty, min: self.min_qty });
        }
        if let Some(max) = self.max_qty {
            if qty.0 > max.0 {
                return Err(RejectReason::QuantityAboveMaximum { qty, max });
            }
        }
        Ok(())
    }

    /// Whether the notional floor accepts a price and a quantity.
    pub fn admits_notional(&self, price: Price, qty: Qty) -> (r: Result<(), RejectReason>)
        ensures
            r == (match self.notional_refusal(price, qty) {
                Some(reason) => Err::<(), RejectReason>(reason),
                None => Ok(()),
            }),
            r is Ok <==> (self.min_notional() matches Some(min) ==> price.minor() * qty.base()
                >= min.raw()),
    {
        if let Some(min) = self.min_notional {
            let notional = self.notional(price, qty);
            if notional.0 < min.0 {
                return Err(RejectReason::NotionalBelowMinimum { notional, min });
            }
        }
        Ok(())
    }
}

/// Whether a rounding moves an off-grid price up.
pub open spec fn rounds_up(rounding: Rounding) -> bool {
    match rounding {
        Rounding::Down => false,
        Rounding::Up => true,
        Rounding::TowardPassive(side) => side == Side::Ask,
    }
}

/// The product of two 64-bit counts fits 128 bits.
pub proof fn lemma_product_of_u64_fits(a: u64, b: u64)
    ensures
        0 <= a * b <= 0xFFFF_FFFF_FFFF_FFFF * 0xFFFF_FFFF_FFFF_FFFF,
        a * b <= u128::MAX,
{
    assert(0 <= a * b <= 0xFFFF_FFFF_FFFF_FFFF * 0xFFFF_FFFF_FFFF_FFFF) by (nonlinear_arith)
        requires
            0 <= a <= 0xFFFF_FFFF_FFFF_FFFF,
            0 <= b <= 0xFFFF_FFFF_FFFF_FFFF,
    ;
}

// ---------------------------------------------------------------- laws

/// Showing a price on the grid as a decimal and reading the decimal back gives
/// the same price.
pub proof fn price_survives_decimal(spec: InstrumentSpec, price: Price, shown: Decimal)
    requires
        spec.wf(),
        spec.on_tick(price),
        decimal_mantissa(shown) == price.minor(),
        decimal_scale(shown) == spec.price_scale(),
    ensures
        spec.spec_price(
            shown,
            split_of(
                decimal_mantissa(shown) as int,
                decimal_scale(shown) as nat,
                spec.price_scale() as nat,
            ),
        ) == Ok::<Price, SpecError>(price),
{
    assert(ten_to(0) == 1);
    assert(decimal_mantissa(shown) * ten_to(0) == decimal_mantissa(shown)) by (nonlinear_arith)
        requires
            ten_to(0) == 1,
    ;
}

/// Showing a quantity on the grid as a decimal and reading the decimal back
/// gives the same quantity.
pub proof fn qty_survives_decimal(spec: InstrumentSpec, qty: Qty, shown: Decimal)
    requires
        spec.wf(),
        spec.on_lot(qty),
        decimal_mantissa(shown) == qty.base(),
        decimal_scale(shown) == spec.qty_scale(),
    ensures
        spec.spec_qty(
            shown,
            split_of(
                decimal_mantissa(shown) as int,
                decimal_scale(shown) as nat,
                spec.qty_scale() as nat,
            ),
        ) == Ok::<Qty, SpecError>(qty),
{
    assert(ten_to(0) == 1);
    assert(decimal_mantissa(shown) * ten_to(0) == decimal_mantissa(shown)) by (nonlinear_arith)
        requires
            ten_to(0) == 1,
    ;
}

proof fn lemma_ten_to_adds(a: nat, b: nat)
    ensures
        ten_to(a + b) == ten_to(a) * ten_to(b),
    decreases a,
{
    if a == 0 {
        assert(ten_to(0) == 1);
        assert(1 * ten_to(b) == ten_to(b)) by (nonlinear_arith);
    } else {
        lemma_ten_to_adds((a - 1) as nat, b);
        assert(10 * (ten_to((a - 1) as nat) * ten_to(b)) == (10 * ten_to((a - 1) as nat)) * ten_to(
            b,
        )) by (nonlinear_arith);
    }
}

/// Writing a decimal with one more trailing zero changes nothing: `100.0` and
/// `100.00` are one point of the grid.
pub proof fn trailing_zeros_collapse(mantissa: int, value_scale: nat, scale: nat)
    requires
        value_scale < MAX_SCALE,
        scale <= MAX_SCALE,
    ensures
        split_of(10 * mantissa, value_scale + 1, scale) == split_of(mantissa, value_scale, scale),
{
    let m = mantissa;
    let s = value_scale;
    if m < 0 {
        assert(10 * m < 0);
    } else if scale >= s + 1 {
        let rest = (scale - (s + 1)) as nat;
        assert((10 * m) * ten_to(rest) == m * (10 * ten_to(rest))) by (nonlinear_arith);
        assert(ten_to((scale - s) as nat) == 10 * ten_to(rest));
    } else {
        let t = ten_to((s - scale) as nat) as int;
        lemma_ten_to_positive((s - scale) as nat);
        assert(ten_to((s + 1 - scale) as nat) == 10 * t);
        vstd::arithmetic::div_mod::lemma_truncate_middle(m, 10, t);
        vstd::arithmetic::div_mod::lemma_div_denominator(10 * m, 10, t);
        vstd::arithmetic::div_mod::lemma_div_by_multiple(m, 10);
        assert(m * 10 == 10 * m);
        if scale == s {
            assert(t == 1) by {
                assert(ten_to(0) == 1);
            }
            assert(m / 1 == m && m % 1 == 0);
            assert(m * ten_to(0) == m) by (nonlinear_arith)
                requires
                    ten_to(0) == 1,
            ;
        }
    }
}

/// The grid floor of `m / 10^s` brackets the value: with `f` the floor,
/// `f / 10^scale <= m / 10^s < (f + 1) / 10^scale`, and the first is an equality
/// exactly where there is no dust.
pub proof fn grid_floor_brackets(mantissa: int, value_scale: nat, scale: nat)
    ensures
        ({
            let f = grid_floor(mantissa, value_scale, scale);
            let unit = ten_to(value_scale) as int;
            let value = mantissa * ten_to(scale);
            &&& f * unit <= value < (f + 1) * unit
            &&& (f * unit == value) == !has_dust(mantissa, value_scale, scale)
        }),
{
    let m = mantissa;
    let f = grid_floor(m, value_scale, scale);
    let unit = ten_to(value_scale) as int;
    lemma_ten_to_positive(value_scale);
    lemma_ten_to_positive(scale);
    if scale >= value_scale {
        let d = (scale - value_scale) as nat;
        lemma_ten_to_adds(d, value_scale);
        let t = ten_to(d) as int;
        assert((m * t) * unit == m * (t * unit)) by (nonlinear_arith);
        assert((f + 1) * unit == f * unit + unit) by (nonlinear_arith);
    } else {
        let d = (value_scale - scale) as nat;
        lemma_ten_to_adds(d, scale);
        lemma_ten_to_positive(d);
        let t = ten_to(d) as int;
        let p = ten_to(scale) as int;
        vstd::arithmetic::div_mod::lemma_fundamental_div_mod(m, t);
        let r = m % t;
        assert(0 <= r < t);
        assert(m == t * f + r);
        assert(unit == t * p);
        assert(f * (t * p) == (t * f) * p) by (nonlinear_arith);
        assert(m * p == (t * f) * p + r * p) by (nonlinear_arith)
            requires
                m == t * f + r,
        ;
        assert((f + 1) * (t * p) == f * (t * p) + t * p) by (nonlinear_arith);
        assert(r * p < t * p) by (nonlinear_arith)
            requires
                0 <= r < t,
                p >= 1,
        ;
        assert(r * p >= 0 && (r != 0 ==> r * p > 0) && (r == 0 ==> r * p == 0)) by (nonlinear_arith)
            requires
                0 <= r,
                p >= 1,
        ;
    }
}

/// Rounding lands on the tick grid, on the named side of the value and less
/// than one tick away. The value is `mantissa / 10^value_scale`, and both sides
/// of each comparison are scaled by `10^value_scale * 10^price_scale`.
pub proof fn rounding_lands_on_the_named_side(
    spec: InstrumentSpec,
    d: Decimal,
    rounding: Rounding,
    price: Price,
)
    requires
        spec.wf(),
        spec.spec_round_price(
            d,
            split_of(
                decimal_mantissa(d) as int,
                decimal_scale(d) as nat,
                spec.price_scale() as nat,
            ),
            rounding,
        ) == Ok::<Price, SpecError>(price),
    ensures
        spec.on_tick(price),
        ({
            let unit = ten_to(decimal_scale(d) as nat) as int;
            let value = decimal_mantissa(d) * ten_to(spec.price_scale() as nat);
            let tick = spec.tick_size() as int;
            if rounds_up(rounding) {
                (price.minor() - tick) * unit < value <= price.minor() * unit
            } else {
                price.minor() * unit <= value < (price.minor() + tick) * unit
            }
        }),
{
    let m = decimal_mantissa(d) as int;
    let s = decimal_scale(d) as nat;
    let scale = spec.price_scale() as nat;
    let unit = ten_to(s) as int;
    let value = m * ten_to(scale);
    let tick = spec.tick_size() as int;
    let f = grid_floor(m, s, scale);
    grid_floor_brackets(m, s, scale);
    lemma_ten_to_positive(s);
    lemma_ten_to_positive(scale);
    assert(f >= 0) by {
        if scale >= s {
            lemma_ten_to_positive((scale - s) as nat);
            vstd::arithmetic::mul::lemma_mul_nonnegative(m, ten_to((scale - s) as nat) as int);
        } else {
            lemma_ten_to_positive((s - scale) as nat);
            vstd::arithmetic::div_mod::lemma_div_pos_is_pos(m, ten_to((s - scale) as nat) as int);
        }
    }
    let below = (f / tick) * tick;
    vstd::arithmetic::div_mod::lemma_fundamental_div_mod(f, tick);
    assert(tick * (f / tick) == below) by (nonlinear_arith)
        requires
            below == (f / tick) * tick,
    ;
    let r = f % tick;
    assert(0 <= r < tick);
    assert(f == below + r);
    vstd::arithmetic::div_mod::lemma_mod_multiples_basic(f / tick, tick);
    vstd::arithmetic::div_mod::lemma_mod_multiples_basic(f / tick + 1, tick);
    assert((f / tick + 1) * tick == below + tick) by (nonlinear_arith)
        requires
            below == (f / tick) * tick,
    ;
    assert(below >= 0) by {
        vstd::arithmetic::div_mod::lemma_div_pos_is_pos(f, tick);
        vstd::arithmetic::mul::lemma_mul_nonnegative(f / tick, tick);
    }
    assert(below * unit <= f * unit) by (nonlinear_arith)
        requires
            below <= f,
            unit >= 1,
    ;
    assert((f + 1) * unit <= (below + tick) * unit) by (nonlinear_arith)
        requires
            f + 1 <= below + tick,
            unit >= 1,
    ;
    assert(r > 0 ==> below * unit < f * unit) by (nonlinear_arith)
        requires
            f == below + r,
            unit >= 1,
    ;
    assert((below - tick) * unit < below * unit) by (nonlinear_arith)
        requires
            tick >= 1,
            unit >= 1,
    ;
}

/// The distance in ticks does not depend on the order of the prices, and on the
/// grid it is exact: that many ticks is the whole gap.
pub proof fn ticks_between_is_exact(spec: InstrumentSpec, a: Price, b: Price)
    requires
        spec.wf(),
        spec.on_tick(a),
        spec.on_tick(b),
    ensures
        spec.spec_ticks_between(a, b) == spec.spec_ticks_between(b, a),
        a.minor() >= b.minor() ==> spec.spec_ticks_between(a, b) * spec.tick_size() == a.minor()
            - b.minor(),
{
    let tick = spec.tick_size() as int;
    if a.minor() >= b.minor() {
        let gap = a.minor() - b.minor();
        vstd::arithmetic::div_mod::lemma_sub_mod_noop(a.minor() as int, b.minor() as int, tick);
        vstd::arithmetic::div_mod::lemma_fundamental_div_mod(gap, tick);
        vstd::arithmetic::div_mod::lemma_small_mod(0, tick as nat);
        vstd::arithmetic::mul::lemma_mul_is_commutative(tick, gap / tick);
    }
}

} // verus!
