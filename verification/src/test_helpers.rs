//! Short names for instruments, prices, quantities and orders.

use crate::allocation::FifoMatcher;
use crate::instrument::InstrumentSpec;
use crate::instrument::Price;
use crate::instrument::Qty;
use crate::instrument::SpecError;
use crate::model::BookState;
use crate::orderbook::OrderBook;
use crate::types::Order;
use crate::types::OrderType;
use crate::types::PriceLevel;
use crate::types::Side;
use crate::types::TimeInForce;
use vstd::prelude::*;

verus! {

/// Prices in cents on a one-cent tick, quantities in whole units.
pub fn spec() -> (r: InstrumentSpec)
    ensures
        InstrumentSpec::spec_new(2, 0, 1, 1) == Ok::<InstrumentSpec, SpecError>(r),
        r.wf(),
{
    InstrumentSpec::cents()
}

/// A book without orders, first in, first out.
pub fn book() -> (r: OrderBook<FifoMatcher>)
    ensures
        r.wf(),
        r.state() == BookState::empty(),
        InstrumentSpec::spec_new(2, 0, 1, 1) == Ok::<InstrumentSpec, SpecError>(r.venue().spec),
        r.venue().span == Set::<u64>::full(),
{
    OrderBook::new(spec(), FifoMatcher)
}

/// A price of so many cents.
pub fn px(cents: i64) -> (r: Price)
    requires
        cents >= 0,
    ensures
        r.minor() == cents,
{
    Price::from_minor_unchecked(cents as u64)
}

/// A quantity of so many units.
pub fn qty(n: u64) -> (r: Qty)
    ensures
        r.base() == n,
{
    Qty::from_base_unchecked(n)
}

/// A limit order that rests until it is cancelled. Client and order have the
/// same name.
pub fn order(
    side: Side,
    price: i64,
    quantity: u64,
    remaining: Option<u64>,
    id: &str,
) -> (r: Order)
    requires
        price >= 0,
    ensures
        r.side == side,
        r.order_type is Limit,
        r.order_type == (OrderType::Limit {
            price: r.order_type->Limit_price,
            tif: TimeInForce::GTC,
        }),
        r.order_type->Limit_price.minor() == price,
        r.original_quantity.base() == quantity,
        r.remaining_quantity.base() == (match remaining {
            Some(remaining) => remaining,
            None => quantity,
        }),
        r.exchange_id@ == id@,
        r.client_id@ == id@,
{
    let mut builder = Order::builder()
        .side(side)
        .order_type(OrderType::limit_gtc(px(price)))
        .client_id(id)
        .exchange_id(id)
        .quantity(qty(quantity));
    if let Some(remaining) = remaining {
        builder = builder.remaining_quantity(qty(remaining));
    }
    builder.build()
}

/// A level without orders.
pub fn price_level(side: Side, price: i64) -> (r: PriceLevel)
    requires
        price >= 0,
    ensures
        r.side == side,
        r.price.minor() == price,
        r.orders@ == Seq::<Order>::empty(),
{
    PriceLevel::new(px(price), side)
}

} // verus!
