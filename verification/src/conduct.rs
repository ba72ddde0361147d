//! How an execution is conducted: what it may do to the book and what it has to
//! say of it, in terms of the orders, the trades and the prices alone.

use crate::agreement;
use crate::allocation;
use crate::allocation::Fill;
use crate::allocation::Maker;
use crate::allocation::MatchingAlgorithm;
use crate::instrument::InstrumentSpec;
use crate::instrument::RejectReason;
use crate::laws;
use crate::matching;
use crate::matching::ExecutionReport;
use crate::matching::SubmitOutcome;
use crate::matching::Trade;
use crate::model;
use crate::model::BookState;
use crate::model::Report;
use crate::model::Step;
use crate::model::Venue;
use crate::order_queue;
use crate::orderbook;
use crate::orderbook::OrderBookError;
use crate::storage;
use crate::streams;
use crate::sums;
use crate::types;
use crate::types::ExchangeId;
use crate::types::Order;
use crate::types::OrderType;
use crate::types::Price;
use crate::types::Side;
use crate::types::TimeInForce;
use vstd::prelude::*;

verus! {

// ---------------------------------------------------------------- terms

/// The levels that an order of this side trades with.
pub open spec fn facing(state: BookState, side: Side) -> Map<u64, Seq<Order>> {
    match side {
        Side::Bid => state.asks,
        Side::Ask => state.bids,
    }
}

/// The levels that an order of this side can rest at.
pub open spec fn behind(state: BookState, side: Side) -> Map<u64, Seq<Order>> {
    match side {
        Side::Bid => state.bids,
        Side::Ask => state.asks,
    }
}

/// Whether a price is on the right side of a limit: a buyer pays no more, a seller
/// takes no less.
pub open spec fn within(side: Side, limit: Option<Price>, p: u64) -> bool {
    limit matches Some(limit) ==> match side {
        Side::Bid => p <= limit.minor(),
        Side::Ask => p >= limit.minor(),
    }
}

/// Whether the price `p` suits a taker better than `q`: lower for a buyer, higher
/// for a seller.
pub open spec fn suits_better(side: Side, p: u64, q: u64) -> bool {
    match side {
        Side::Bid => p < q,
        Side::Ask => p > q,
    }
}

/// The limit that an order keeps to when it executes: its price, where it has one.
pub open spec fn own_limit(order: Order) -> Option<Price> {
    match order.order_type {
        OrderType::Limit { price, .. } => Some(price),
        OrderType::StopLimit { price, .. } => Some(price),
        OrderType::Market => None,
        OrderType::StopMarket { .. } => None,
    }
}

/// How long an order stands when it executes, where it has a limit.
pub open spec fn own_tif(order: Order) -> Option<TimeInForce> {
    match order.order_type {
        OrderType::Limit { tif, .. } => Some(tif),
        OrderType::StopLimit { tif, .. } => Some(tif),
        OrderType::Market => None,
        OrderType::StopMarket { .. } => None,
    }
}

/// What trades moved altogether.
pub open spec fn moved(trades: Seq<Trade>) -> int {
    sums::sum(Seq::new(trades.len(), |i: int| trades[i].quantity.base() as int))
}

/// Whether a level is as it was.
pub open spec fn untouched(
    before: Map<u64, Seq<Order>>,
    after: Map<u64, Seq<Order>>,
    p: u64,
) -> bool {
    before.contains_key(p) && after.contains_key(p) && after[p] == before[p]
}

/// Whether a report is one that the execution of an order can have: it is on that
/// order, which trades with others alone, at no price past its limit, from better
/// prices to worse, and no more than it brought. It is filled if all that it
/// brought has traded. Otherwise the rest of it comes to rest if and only if it is
/// a limit order that stands until it is cancelled.
pub open spec fn keeps_to_its_terms(order: Order, report: Report) -> bool {
    let trades = report.trades;
    let brought = order.remaining_quantity.base();
    let stands = own_tif(order) == Some(TimeInForce::GTC);
    &&& report.order_id == order.exchange_id
    &&& forall|i: int|
        0 <= i < trades.len() ==> {
            &&& (#[trigger] trades[i]).taker_order_id == order.exchange_id
            &&& trades[i].taker_client == order.client_id
            &&& trades[i].taker_side == order.side
            &&& trades[i].timestamp == order.timestamp
            &&& trades[i].maker_client@ != order.client_id@
            &&& trades[i].quantity.base() > 0
            &&& own_limit(order) matches Some(limit) ==> match order.side {
                Side::Bid => trades[i].price.minor() <= limit.minor(),
                Side::Ask => trades[i].price.minor() >= limit.minor(),
            }
        }
    &&& forall|i: int, j: int|
        0 <= i < j < trades.len() ==> match order.side {
            Side::Bid => (#[trigger] trades[i]).price.minor() <= (
            #[trigger] trades[j]).price.minor(),
            Side::Ask => trades[i].price.minor() >= trades[j].price.minor(),
        }
    &&& moved(trades) <= brought
    &&& report.outcome != SubmitOutcome::StopPending
    &&& report.outcome == SubmitOutcome::Filled <==> moved(trades) == brought
    &&& report.outcome == SubmitOutcome::Rested <==> stands && moved(trades) < brought
        && trades.len() == 0
    &&& report.outcome == SubmitOutcome::PartiallyFilledAndRested <==> stands && moved(trades)
        < brought && trades.len() > 0
    &&& report.outcome == SubmitOutcome::Killed <==> !stands && moved(trades) < brought
    &&& own_tif(order) == Some(TimeInForce::FOK) && report.outcome == SubmitOutcome::Killed
        ==> trades.len() == 0 && report.cancelled.len() == 0
}

/// Whether levels are what an order of this side and limit can leave of others.
/// Nothing past the limit is touched and no price comes in. A price is touched only
/// when no better one is left.
pub open spec fn best_price_first(
    side: Side,
    limit: Option<Price>,
    before: Map<u64, Seq<Order>>,
    after: Map<u64, Seq<Order>>,
) -> bool {
    &&& forall|p: u64| #[trigger] after.contains_key(p) ==> before.contains_key(p)
    &&& forall|p: u64| #[trigger]
        before.contains_key(p) && !within(side, limit, p) ==> untouched(before, after, p)
    &&& forall|p: u64, q: u64|
        #![trigger before.contains_key(p), before.contains_key(q)]
        before.contains_key(p) && before.contains_key(q) && suits_better(side, p, q)
            && !untouched(before, after, q) ==> !after.contains_key(p)
}

/// Whether a taker went as far as it could and no further: if something is left of
/// it no price within its limit is, and if it is full nothing past its last trade
/// is touched.
pub open spec fn goes_as_far_as_it_can(
    side: Side,
    limit: Option<Price>,
    before: Map<u64, Seq<Order>>,
    after: Map<u64, Seq<Order>>,
    trades: Seq<Trade>,
    full: bool,
) -> bool {
    if full {
        forall|p: u64|
            #![trigger before.contains_key(p)]
            before.contains_key(p) && (trades.len() == 0 || suits_better(
                side,
                trades.last().price.minor(),
                p,
            )) ==> untouched(before, after, p)
    } else {
        forall|p: u64| #[trigger] after.contains_key(p) ==> !within(side, limit, p)
    }
}

// ---------------------------------------------------------------- a sweep

proof fn lemma_moved(trades: Seq<Trade>)
    ensures
        moved(trades) == laws::volume(trades),
{
    assert(Seq::new(trades.len(), |i: int| trades[i].quantity.base() as int)
        =~= trades.map_values(|t: Trade| t.quantity.base() as int));
}

/// A sweep takes the best price first and goes as far as it can.
proof fn lemma_sweep_conduct<M: MatchingAlgorithm>(
    matcher: M,
    levels: Map<u64, Seq<Order>>,
    taker: Order,
    limit: Option<Price>,
    remaining: int,
    now: int,
)
    requires
        matcher.wf(),
        laws::levels_ok(matcher.spec_lot_size(), levels),
        laws::amount_ok(matcher.spec_lot_size(), remaining),
    ensures
        ({
            let swept = model::sweep(matcher, levels, taker, limit, remaining, now);
            &&& best_price_first(taker.side, limit, levels, swept.levels)
            &&& goes_as_far_as_it_can(
                taker.side,
                limit,
                levels,
                swept.levels,
                swept.trades,
                swept.remaining == 0,
            )
            &&& swept.remaining == 0 && remaining > 0 ==> swept.trades.len() > 0
            &&& forall|i: int|
                0 <= i < swept.trades.len() ==> levels.contains_key(
                    (#[trigger] swept.trades[i]).price.minor(),
                )
        }),
    decreases levels.dom().len(),
{
    let lot = matcher.spec_lot_size();
    let side = model::opposite(taker.side);
    let swept = model::sweep(matcher, levels, taker, limit, remaining, now);
    let found = storage::best(levels.dom(), side);
    laws::lemma_sweep_exhausts(matcher, levels, taker, limit, remaining, now);
    laws::lemma_sweep_accounts(matcher, levels, taker, limit, remaining, now);
    if levels.dom().len() > 0 {
        storage::lemma_best_exists(levels.dom(), side);
    }
    assert forall|p: u64| #[trigger] levels.contains_key(p) implies levels.dom().len() > 0 by {
        if levels.dom().len() == 0 {
            assert(levels.dom() =~= Set::empty());
            assert(levels.dom().contains(p));
        }
    }
    if remaining <= 0 || found is None || !levels.contains_key(found->0) || !model::acceptable(
        taker.side,
        limit,
        found->0,
    ) {
        assert(swept.levels == levels);
        assert forall|p: u64| #[trigger] levels.contains_key(p) implies untouched(
            levels,
            swept.levels,
            p,
        ) by {}
        if swept.remaining > 0 {
            assert forall|p: u64| #[trigger] swept.levels.contains_key(p) implies !within(
                taker.side,
                limit,
                p,
            ) by {
                assert(!model::acceptable(taker.side, limit, p));
            }
        }
    } else {
        let p = found->0;
        let queue = levels[p];
        let price = model::price_of(p);
        laws::lemma_met(matcher, queue, taker, price, remaining, now);
        let (others, fills) = laws::met(matcher, queue, taker, remaining, now);
        let rest = remaining - sums::sum(allocation::taken(fills));
        let left = model::level_left(others, fills, rest);
        let trades = model::trades_of(taker, others, price, fills);
        assert forall|q: u64| #[trigger] levels.contains_key(q) implies !suits_better(
            taker.side,
            q,
            p,
        ) by {
            assert(levels.dom().contains(q));
        }
        if rest == 0 {
            agreement::lemma_taken_something(fills);
            assert(fills.len() > 0);
        }
        if left.len() == 0 {
            let fewer = levels.remove(p);
            let next = model::sweep(matcher, fewer, taker, limit, rest, now);
            assert(fewer.dom() =~= levels.dom().remove(p));
            assert forall|q: u64| #[trigger] fewer.contains_key(q) implies laws::queue_ok(
                lot,
                fewer[q],
            ) by {
                assert(levels.contains_key(q));
            }
            lemma_sweep_conduct(matcher, fewer, taker, limit, rest, now);
            assert(swept.levels == next.levels);
            assert(!swept.levels.contains_key(p)) by {
                if swept.levels.contains_key(p) {
                    assert(fewer.contains_key(p));
                }
            }
            assert forall|q: u64| #[trigger]
                levels.contains_key(q) && q != p implies fewer.contains_key(q) && untouched(
                levels,
                swept.levels,
                q,
            ) == untouched(fewer, swept.levels, q) by {}
            assert forall|q: u64| #[trigger]
                levels.contains_key(q) && !within(taker.side, limit, q) implies untouched(
                levels,
                swept.levels,
                q,
            ) by {
                assert(q != p);
                assert(fewer.contains_key(q));
            }
            assert forall|q: u64, r: u64|
                #![trigger levels.contains_key(q), levels.contains_key(r)]
                levels.contains_key(q) && levels.contains_key(r) && suits_better(taker.side, q, r)
                    && !untouched(levels, swept.levels, r) implies !swept.levels.contains_key(q) by {
                if q != p {
                    assert(r != p);
                    assert(fewer.contains_key(q) && fewer.contains_key(r));
                }
            }
            if swept.remaining == 0 {
                if next.trades.len() == 0 {
                    assert(swept.trades =~= trades);
                    assert(rest == 0);
                    assert(trades.last().price == price);
                    assert(next.levels == fewer);
                } else {
                    assert(swept.trades.last() == next.trades.last());
                    assert(next.trades[next.trades.len() - 1] == next.trades.last());
                    assert(fewer.contains_key(next.trades.last().price.minor()));
                }
                assert forall|q: u64|
                    #![trigger levels.contains_key(q)]
                    levels.contains_key(q) && (swept.trades.len() == 0 || suits_better(
                        taker.side,
                        swept.trades.last().price.minor(),
                        q,
                    )) implies untouched(levels, swept.levels, q) by {
                    if next.trades.len() > 0 {
                        assert(levels.contains_key(next.trades.last().price.minor()));
                    }
                    assert(q != p);
                    assert(fewer.contains_key(q));
                    assert(untouched(fewer, swept.levels, q));
                }
            }
            assert forall|i: int| 0 <= i < swept.trades.len() implies levels.contains_key(
                (#[trigger] swept.trades[i]).price.minor(),
            ) by {
                if i < trades.len() {
                    assert(swept.trades[i] == trades[i]);
                } else {
                    assert(swept.trades[i] == next.trades[i - trades.len()]);
                    assert(fewer.contains_key(next.trades[i - trades.len()].price.minor()));
                }
            }
        } else {
            assert(swept.trades.last().price == price);
            assert forall|q: u64| #[trigger]
                levels.contains_key(q) && q != p implies untouched(levels, swept.levels, q) by {}
            assert forall|i: int| 0 <= i < swept.trades.len() implies levels.contains_key(
                (#[trigger] swept.trades[i]).price.minor(),
            ) by {}
        }
    }
}

// ---------------------------------------------------------------- one execution

/// Limits are kept: an execution trades at no price past the limit of its order,
/// and it keeps to all the other terms of it.
pub proof fn executions_keep_to_their_terms<M: MatchingAlgorithm>(
    venue: Venue<M>,
    state: BookState,
    order: Order,
)
    requires
        laws::valid(venue, state),
        order.order_type is Limit || order.order_type is Market,
        matching::in_lots(venue.matcher.spec_lot_size(), order),
        model::plain_step(venue, state, order).result is Ok,
    ensures
        keeps_to_its_terms(order, model::plain_step(venue, state, order).result->Ok_0),
{
    let report = model::plain_step(venue, state, order).result->Ok_0;
    let trades = report.trades;
    let places = laws::trades_are_fair(venue, state, order);
    laws::nothing_is_lost(venue, state, order);
    lemma_moved(trades);
    laws::lemma_swept_by(venue, state, order);
    if laws::is_fill_or_kill(order) {
        laws::fill_or_kill_is_all_or_nothing(venue, state, order);
    }
    let side = model::opposite(order.side);
    assert forall|i: int| 0 <= i < trades.len() implies {
        &&& (#[trigger] trades[i]).taker_order_id == order.exchange_id
        &&& trades[i].taker_client == order.client_id
        &&& trades[i].taker_side == order.side
        &&& trades[i].timestamp == order.timestamp
        &&& trades[i].maker_client@ != order.client_id@
        &&& trades[i].quantity.base() > 0
        &&& own_limit(order) matches Some(limit) ==> match order.side {
            Side::Bid => trades[i].price.minor() <= limit.minor(),
            Side::Ask => trades[i].price.minor() >= limit.minor(),
        }
    } by {
        assert(laws::fair_trade(
            state.resting(side),
            order,
            laws::limit_of(order),
            trades[i],
            places[i],
        ));
    }
    assert(trades.len() == 0 <==> moved(trades) == 0) by {
        assert(trades == laws::swept_by(venue, state, order).trades);
    }
}

/// Best price first, and as far as the limit: whatever is executed, the levels that
/// it faces lose their best prices before the next ones, nothing past the limit is
/// touched, and the execution stops neither before it has to nor after.
pub proof fn executions_take_the_best_price_first<M: MatchingAlgorithm>(
    venue: Venue<M>,
    state: BookState,
    order: Order,
)
    requires
        laws::valid(venue, state),
        order.order_type is Limit || order.order_type is Market,
        matching::in_lots(venue.matcher.spec_lot_size(), order),
        model::plain_step(venue, state, order).result is Ok,
    ensures
        ({
            let done = model::plain_step(venue, state, order);
            let report = done.result->Ok_0;
            let before = facing(state, order.side);
            let after = facing(done.state, order.side);
            &&& best_price_first(order.side, own_limit(order), before, after)
            &&& if own_tif(order) == Some(TimeInForce::FOK) && report.outcome
                == SubmitOutcome::Killed {
                after == before
            } else {
                goes_as_far_as_it_can(
                    order.side,
                    own_limit(order),
                    before,
                    after,
                    report.trades,
                    moved(report.trades) == order.remaining_quantity.base(),
                )
            }
        }),
{
    let side = model::opposite(order.side);
    let levels = state.resting(side);
    let limit = laws::limit_of(order);
    let done = model::plain_step(venue, state, order);
    let swept = model::sweep_for(venue, state, order, limit);
    assert(laws::side_valid(venue.matcher.spec_lot_size(), state, side));
    assert(limit == own_limit(order));
    lemma_sweep_conduct(
        venue.matcher,
        levels,
        order,
        limit,
        order.remaining_quantity.base() as int,
        state.next_arrival,
    );
    laws::lemma_sweep_accounts(
        venue.matcher,
        levels,
        order,
        limit,
        order.remaining_quantity.base() as int,
        state.next_arrival,
    );
    lemma_moved(done.result->Ok_0.trades);
    if laws::is_fill_or_kill(order) {
        laws::fill_or_kill_is_all_or_nothing(venue, state, order);
    }
    assert forall|p: u64| #[trigger] levels.contains_key(p) implies untouched(levels, levels, p) by {}
}

/// The last trade price is that of the last trade: an execution that trades leaves
/// the price of its last trade, and one that does not leaves what was there.
pub proof fn executions_note_their_last_trade<M: MatchingAlgorithm>(
    venue: Venue<M>,
    state: BookState,
    order: Order,
)
    requires
        model::plain_step(venue, state, order).result is Ok,
    ensures
        ({
            let done = model::plain_step(venue, state, order);
            let trades = done.result->Ok_0.trades;
            done.state.last_trade == (if trades.len() > 0 {
                Some(trades[trades.len() - 1].price)
            } else {
                state.last_trade
            })
        }),
{
}

/// What is left of an order that stands comes to rest last at its price, with the
/// next place in line; otherwise the levels behind the order are as they were.
/// Whatever is executed, the waiting stops and the count of names stay.
pub proof fn remainders_rest_or_are_discarded<M: MatchingAlgorithm>(
    venue: Venue<M>,
    state: BookState,
    order: Order,
)
    requires
        laws::valid(venue, state),
        order.order_type is Limit || order.order_type is Market,
        matching::in_lots(venue.matcher.spec_lot_size(), order),
        model::plain_step(venue, state, order).result is Ok,
    ensures
        ({
            let done = model::plain_step(venue, state, order);
            let left = order.remaining_quantity.base() - moved(done.result->Ok_0.trades);
            let before = behind(state, order.side);
            let after = behind(done.state, order.side);
            &&& done.state.stop_bids == state.stop_bids
            &&& done.state.stop_asks == state.stop_asks
            &&& done.state.next_seq == state.next_seq
            &&& match order.order_type {
                OrderType::Limit { price, tif } if tif == TimeInForce::GTC && left > 0 => {
                    let p = price.minor();
                    let rests = after[p][after[p].len() - 1];
                    &&& after.dom() == before.dom().insert(p)
                    &&& forall|q: u64|
                        #![trigger after[q]]
                        before.contains_key(q) && q != p ==> after[q] == before[q]
                    &&& after[p].len() == (if before.contains_key(p) {
                        before[p].len() + 1
                    } else {
                        1
                    })
                    &&& forall|i: int|
                        0 <= i < after[p].len() - 1 ==> #[trigger] after[p][i] == before[p][i]
                    &&& rests.remaining_quantity.base() == left
                    &&& rests.arrival == state.next_arrival
                    &&& rests.exchange_id == order.exchange_id
                    &&& rests.client_id == order.client_id
                    &&& rests.order_type == order.order_type
                    &&& rests.side == order.side
                    &&& rests.original_quantity == order.original_quantity
                    &&& rests.timestamp == order.timestamp
                    &&& rests.lifecycle == order.lifecycle
                    &&& done.state.next_arrival == state.next_arrival + 1
                },
                _ => {
                    &&& after == before
                    &&& done.state.next_arrival == state.next_arrival
                },
            }
        }),
{
    let side = model::opposite(order.side);
    let done = model::plain_step(venue, state, order);
    let swept = laws::swept_by(venue, state, order);
    laws::lemma_swept_by(venue, state, order);
    model::lemma_plain_step_keeps_stops(venue, state, order);
    lemma_moved(done.result->Ok_0.trades);
    assert(done.result->Ok_0.trades == swept.trades);
    let before = behind(state, order.side);
    let after = behind(done.state, order.side);
    if let OrderType::Limit { price, tif } = order.order_type {
        if tif == TimeInForce::GTC && swept.remaining > 0 {
            let remainder = Order {
                remaining_quantity: allocation::qty_of(swept.remaining),
                ..order
            };
            let p = price.minor();
            let stamped = Order { arrival: state.next_arrival as u32, ..remainder };
            assert(after == model::enqueued(before, p, stamped));
            assert(after.dom() =~= before.dom().insert(p));
        }
    }
}

/// An order for the same at the same price, but for how long it stands.
pub open spec fn standing(order: Order, tif: TimeInForce) -> Order {
    Order {
        order_type: match order.order_type {
            OrderType::Limit { price, .. } => OrderType::Limit { price, tif },
            other => other,
        },
        ..order
    }
}

/// Fill or kill is immediate or cancel, or nothing: an order that is to be filled
/// at once or not at all does what it would do if the rest of it were discarded, if
/// that fills it, and else it does nothing.
pub proof fn fill_or_kill_is_immediate_or_nothing<M: MatchingAlgorithm>(
    venue: Venue<M>,
    state: BookState,
    order: Order,
)
    requires
        laws::valid(venue, state),
        order.order_type is Limit,
        matching::in_lots(venue.matcher.spec_lot_size(), order),
    ensures
        ({
            let fok = model::plain_step(venue, state, standing(order, TimeInForce::FOK));
            let ioc = model::plain_step(venue, state, standing(order, TimeInForce::IOC));
            &&& fok.result is Ok
            &&& ioc.result is Ok
            &&& if ioc.result->Ok_0.outcome == SubmitOutcome::Filled {
                fok.result == ioc.result && fok.state == ioc.state
            } else {
                &&& fok.result->Ok_0.outcome == SubmitOutcome::Killed
                &&& fok.result->Ok_0.trades.len() == 0
                &&& fok.result->Ok_0.cancelled.len() == 0
                &&& fok.state == state
            }
        }),
{
    let a = standing(order, TimeInForce::FOK);
    let b = standing(order, TimeInForce::IOC);
    let limit = laws::limit_of(order);
    let side = model::opposite(order.side);
    let levels = state.resting(side);
    let remaining = order.remaining_quantity.base() as int;
    let now = state.next_arrival;
    assert(laws::side_valid(venue.matcher.spec_lot_size(), state, side));
    laws::fill_or_kill_is_all_or_nothing(venue, state, a);
    laws::lemma_sweep_exhausts(venue.matcher, levels, b, limit, remaining, now);
    lemma_sweep_same_taker(venue.matcher, levels, a, b, limit, remaining, now);
    lemma_reach_same_taker(levels, a, b, limit);
    laws::lemma_sweep_accounts(venue.matcher, levels, b, limit, remaining, now);
}

/// What a sweep does depends on the taker's names, client, side and time alone.
proof fn lemma_sweep_same_taker<M: MatchingAlgorithm>(
    matcher: M,
    levels: Map<u64, Seq<Order>>,
    a: Order,
    b: Order,
    limit: Option<Price>,
    remaining: int,
    now: int,
)
    requires
        levels.dom().finite(),
        a == (Order { order_type: a.order_type, ..b }),
    ensures
        model::sweep(matcher, levels, a, limit, remaining, now) == model::sweep(
            matcher,
            levels,
            b,
            limit,
            remaining,
            now,
        ),
    decreases levels.dom().len(),
{
    let side = model::opposite(a.side);
    let found = storage::best(levels.dom(), side);
    if !(remaining <= 0 || found is None || !levels.contains_key(found->0) || !model::acceptable(
        a.side,
        limit,
        found->0,
    )) {
        let p = found->0;
        let (others, fills) = laws::met(matcher, levels[p], a, remaining, now);
        let rest = remaining - sums::sum(allocation::taken(fills));
        assert(model::trades_of(a, others, model::price_of(p), fills) =~= model::trades_of(
            b,
            others,
            model::price_of(p),
            fills,
        ));
        assert(levels.remove(p).dom() =~= levels.dom().remove(p));
        lemma_sweep_same_taker(matcher, levels.remove(p), a, b, limit, rest, now);
    }
}

proof fn lemma_reach_same_taker(
    levels: Map<u64, Seq<Order>>,
    a: Order,
    b: Order,
    limit: Option<Price>,
)
    requires
        levels.dom().finite(),
        a == (Order { order_type: a.order_type, ..b }),
    ensures
        model::reachable(levels, a, limit) == model::reachable(levels, b, limit),
    decreases levels.dom().len(),
{
    let found = storage::best(levels.dom(), model::opposite(a.side));
    if !(found is None || !levels.contains_key(found->0) || !model::acceptable(
        a.side,
        limit,
        found->0,
    )) {
        let p = found->0;
        assert(levels.remove(p).dom() =~= levels.dom().remove(p));
        lemma_reach_same_taker(levels.remove(p), a, b, limit);
    }
}

/// How long an order stands decides what becomes of the rest of it and nothing
/// else: the same order prints the same trades and cancels the same orders whether
/// the rest of it is to stand or to be discarded, and leaves the same levels
/// before it.
pub proof fn standing_decides_about_the_rest_alone<M: MatchingAlgorithm>(
    venue: Venue<M>,
    state: BookState,
    order: Order,
)
    requires
        laws::valid(venue, state),
        order.order_type is Limit,
        model::plain_step(venue, state, standing(order, TimeInForce::GTC)).result is Ok,
    ensures
        ({
            let gtc = model::plain_step(venue, state, standing(order, TimeInForce::GTC));
            let ioc = model::plain_step(venue, state, standing(order, TimeInForce::IOC));
            &&& ioc.result is Ok
            &&& gtc.result->Ok_0.trades == ioc.result->Ok_0.trades
            &&& gtc.result->Ok_0.cancelled == ioc.result->Ok_0.cancelled
            &&& facing(gtc.state, order.side) == facing(ioc.state, order.side)
            &&& behind(ioc.state, order.side) == behind(state, order.side)
        }),
{
    let side = model::opposite(order.side);
    assert(laws::side_valid(venue.matcher.spec_lot_size(), state, side));
    lemma_sweep_same_taker(
        venue.matcher,
        state.resting(side),
        standing(order, TimeInForce::GTC),
        standing(order, TimeInForce::IOC),
        laws::limit_of(order),
        order.remaining_quantity.base() as int,
        state.next_arrival,
    );
}

/// A market order is an order without a bound: it prints the trades, cancels the
/// orders and leaves the book of a limit order of which the rest is discarded,
/// whose limit is past every price that it faces.
pub proof fn a_market_order_has_no_bound<M: MatchingAlgorithm>(
    venue: Venue<M>,
    state: BookState,
    order: Order,
    price: Price,
)
    requires
        laws::valid(venue, state),
        forall|p: u64| #[trigger]
            facing(state, order.side).contains_key(p) ==> match order.side {
                Side::Bid => p <= price.minor(),
                Side::Ask => p >= price.minor(),
            },
    ensures
        ({
            let bounded = model::plain_step(
                venue,
                state,
                (Order {
                    order_type: OrderType::Limit { price, tif: TimeInForce::IOC },
                    ..order
                }),
            );
            let free = model::plain_step(
                venue,
                state,
                (Order { order_type: OrderType::Market, ..order }),
            );
            free.result == bounded.result && free.state == bounded.state
        }),
{
    let side = model::opposite(order.side);
    let levels = state.resting(side);
    let a = Order { order_type: OrderType::Limit { price, tif: TimeInForce::IOC }, ..order };
    let b = Order { order_type: OrderType::Market, ..order };
    let remaining = order.remaining_quantity.base() as int;
    let now = state.next_arrival;
    assert(laws::side_valid(venue.matcher.spec_lot_size(), state, side));
    lemma_sweep_same_taker(venue.matcher, levels, a, b, None, remaining, now);
    assert forall|p: u64| #[trigger] levels.contains_key(p) implies within(
        a.side,
        Some(price),
        p,
    ) by {
        assert(facing(state, order.side).contains_key(p));
    }
    lemma_sweep_unbounded(venue.matcher, levels, a, price, remaining, now);
}

proof fn lemma_sweep_unbounded<M: MatchingAlgorithm>(
    matcher: M,
    levels: Map<u64, Seq<Order>>,
    taker: Order,
    price: Price,
    remaining: int,
    now: int,
)
    requires
        levels.dom().finite(),
        forall|p: u64| #[trigger]
            levels.contains_key(p) ==> within(taker.side, Some(price), p),
    ensures
        model::sweep(matcher, levels, taker, Some(price), remaining, now) == model::sweep(
            matcher,
            levels,
            taker,
            None,
            remaining,
            now,
        ),
    decreases levels.dom().len(),
{
    let side = model::opposite(taker.side);
    let found = storage::best(levels.dom(), side);
    if !(remaining <= 0 || found is None || !levels.contains_key(found->0)) {
        let p = found->0;
        let (others, fills) = laws::met(matcher, levels[p], taker, remaining, now);
        let rest = remaining - sums::sum(allocation::taken(fills));
        assert(levels.remove(p).dom() =~= levels.dom().remove(p));
        lemma_sweep_unbounded(matcher, levels.remove(p), taker, price, rest, now);
    }
}

// ---------------------------------------------------------------- every order

/// What each trade took from the order of a name.
pub open spec fn parts(trades: Seq<Trade>, name: Seq<char>) -> Seq<int> {
    Seq::new(
        trades.len(),
        |i: int|
            if trades[i].maker_order_id@ == name {
                trades[i].quantity.base() as int
            } else {
                0
            },
    )
}

/// What the trades took from the order of a name.
pub open spec fn given(trades: Seq<Trade>, name: Seq<char>) -> int {
    sums::sum(parts(trades, name))
}

/// Whether no two orders at these levels share a name.
pub open spec fn apart(levels: Map<u64, Seq<Order>>) -> bool {
    forall|p: u64, i: int, q: u64, j: int|
        #![trigger orderbook::placed(levels, p, i), orderbook::placed(levels, q, j)]
        orderbook::placed(levels, p, i) && orderbook::placed(levels, q, j)
            && levels[p][i].exchange_id@ == levels[q][j].exchange_id@ ==> p == q && i == j
}

/// Whether an order is at a price with so much left of it, and with everything
/// else as it was.
pub open spec fn is_left(
    levels: Map<u64, Seq<Order>>,
    p: u64,
    order: Order,
    amount: int,
    j: int,
) -> bool {
    &&& orderbook::placed(levels, p, j)
    &&& levels[p][j].remaining_quantity.base() == amount
    &&& levels[p][j] == (Order { remaining_quantity: levels[p][j].remaining_quantity, ..order })
}

/// Whether no order of a name is at a price.
pub open spec fn is_gone(levels: Map<u64, Seq<Order>>, p: u64, name: Seq<char>) -> bool {
    forall|j: int| #[trigger] orderbook::placed(levels, p, j) ==> levels[p][j].exchange_id@ != name
}

/// Whether a name is among those of some identifiers.
pub open spec fn is_among(ids: Seq<ExchangeId>, name: Seq<char>) -> bool {
    exists|i: int| 0 <= i < ids.len() && (#[trigger] ids[i])@ == name
}

/// Whether an execution of this client's order accounts for the order at a place.
/// One of the same client trades nothing, and it is left as it was or it is
/// cancelled and gone. Any other is not cancelled: what is left of it is what was
/// left less what the trades took, and it goes only when nothing is.
pub open spec fn accounted(
    before: Map<u64, Seq<Order>>,
    after: Map<u64, Seq<Order>>,
    trades: Seq<Trade>,
    cancelled: Seq<ExchangeId>,
    client: Seq<char>,
    p: u64,
    i: int,
) -> bool {
    let order = before[p][i];
    let name = order.exchange_id@;
    let held = order.remaining_quantity.base() as int;
    let took = given(trades, name);
    if order.client_id@ == client {
        &&& took == 0
        &&& (exists|j: int| #[trigger] is_left(after, p, order, held, j)) && !is_among(
            cancelled,
            name,
        ) || is_gone(after, p, name) && is_among(cancelled, name)
    } else {
        &&& 0 <= took <= held
        &&& !is_among(cancelled, name)
        &&& (exists|j: int| #[trigger] is_left(after, p, order, held - took, j)) || is_gone(
            after,
            p,
            name,
        ) && took == held
    }
}

/// Accounting speaks of the order at its place, of what the trades took from it and
/// of whether it is cancelled.
proof fn lemma_accounted_alike(
    a: Map<u64, Seq<Order>>,
    b: Map<u64, Seq<Order>>,
    after: Map<u64, Seq<Order>>,
    x: Seq<Trade>,
    y: Seq<Trade>,
    c: Seq<ExchangeId>,
    d: Seq<ExchangeId>,
    client: Seq<char>,
    p: u64,
    i: int,
)
    requires
        accounted(a, after, x, c, client, p, i),
        a[p][i] == b[p][i],
        given(x, a[p][i].exchange_id@) == given(y, a[p][i].exchange_id@),
        is_among(c, a[p][i].exchange_id@) == is_among(d, a[p][i].exchange_id@),
    ensures
        accounted(b, after, y, d, client, p, i),
{
    let order = a[p][i];
    let held = order.remaining_quantity.base() as int;
    let took = given(x, order.exchange_id@);
    assert(held - took == held - given(y, order.exchange_id@));
}

/// An order at a level that is as it was is accounted for, where it neither traded
/// nor was cancelled.
proof fn lemma_accounted_untouched(
    before: Map<u64, Seq<Order>>,
    after: Map<u64, Seq<Order>>,
    trades: Seq<Trade>,
    cancelled: Seq<ExchangeId>,
    client: Seq<char>,
    p: u64,
    i: int,
)
    requires
        orderbook::placed(before, p, i),
        untouched(before, after, p),
        given(trades, before[p][i].exchange_id@) == 0,
        !is_among(cancelled, before[p][i].exchange_id@),
    ensures
        accounted(before, after, trades, cancelled, client, p, i),
{
    let order = before[p][i];
    let held = order.remaining_quantity.base() as int;
    assert(is_left(after, p, order, held, i));
    assert(is_left(after, p, order, held - given(trades, order.exchange_id@), i));
}

proof fn lemma_given_concat(a: Seq<Trade>, b: Seq<Trade>, name: Seq<char>)
    ensures
        given(a + b, name) == given(a, name) + given(b, name),
{
    assert(parts(a + b, name) =~= parts(a, name) + parts(b, name));
    sums::lemma_sum_concat(parts(a, name), parts(b, name));
}

proof fn lemma_given_none(trades: Seq<Trade>, name: Seq<char>)
    requires
        forall|i: int| 0 <= i < trades.len() ==> (#[trigger] trades[i]).maker_order_id@ != name,
    ensures
        given(trades, name) == 0,
{
    sums::lemma_sum_zero(parts(trades, name));
}

/// The trades of the fills of a queue take from each order what it is allotted.
proof fn lemma_given_allotted(
    taker: Order,
    queue: Seq<Order>,
    price: Price,
    fills: Seq<Fill>,
    k: int,
)
    requires
        0 <= k < queue.len(),
        forall|i: int| 0 <= i < fills.len() ==> (#[trigger] fills[i]).order_index < queue.len(),
        forall|i: int, j: int|
            0 <= i < j < fills.len() ==> (#[trigger] fills[i]).order_index < (
            #[trigger] fills[j]).order_index,
        forall|i: int|
            0 <= i < queue.len() && i != k ==> (#[trigger] queue[i]).exchange_id@
                != queue[k].exchange_id@,
    ensures
        given(model::trades_of(taker, queue, price, fills), queue[k].exchange_id@)
            == allocation::allotted(fills, k),
    decreases fills.len(),
{
    let trades = model::trades_of(taker, queue, price, fills);
    let name = queue[k].exchange_id@;
    if fills.len() == 0 {
        lemma_given_none(trades, name);
    } else {
        let rest = fills.drop_last();
        let before = model::trades_of(taker, queue, price, rest);
        let last = trades.last();
        assert forall|i: int| 0 <= i < rest.len() implies #[trigger] rest[i] == fills[i] by {}
        lemma_given_allotted(taker, queue, price, rest, k);
        assert(trades =~= before + seq![last]);
        lemma_given_concat(before, seq![last], name);
        assert(fills.last() == fills[fills.len() - 1]);
        let one = parts(seq![last], name);
        assert(one.drop_last() =~= Seq::<int>::empty());
        assert(sums::sum(one.drop_last()) == 0);
        assert(sums::sum(one) == one[0]);
        if fills.last().order_index == k {
            assert forall|j: int| 0 <= j < rest.len() implies (#[trigger] rest[j]).order_index
                < k by {
                assert(fills[j].order_index < fills[fills.len() - 1].order_index);
            }
            matching::lemma_allotted_before(rest, k);
        } else {
            assert(queue[fills.last().order_index as int].exchange_id@ != name);
        }
    }
}

/// Where each order that the fills leave stood, what is left of it, and that all
/// the others are struck out.
proof fn lemma_left_exactly(queue: Seq<Order>, fills: Seq<Fill>, reach: int) -> (places: Seq<int>)
    ensures
        places.len() == model::after_fills(queue, fills, reach).len(),
        forall|m: int|
            0 <= m < places.len() ==> {
                &&& 0 <= #[trigger] places[m] < queue.len()
                &&& model::after_fills(queue, fills, reach)[m] == model::reduced(
                    queue[places[m]],
                    allocation::allotted(fills, places[m]),
                )
                &&& !matching::struck(queue, fills, reach, places[m])
            },
        forall|k: int|
            0 <= k < queue.len() && !#[trigger] matching::struck(queue, fills, reach, k)
                ==> exists|m: int| 0 <= m < places.len() && #[trigger] places[m] == k,
    decreases queue.len(),
{
    if queue.len() == 0 {
        Seq::empty()
    } else {
        let rest = queue.drop_last();
        let n = queue.len() - 1;
        let before = lemma_left_exactly(rest, fills, reach);
        let left = model::after_fills(queue, fills, reach);
        let places = if matching::struck(queue, fills, reach, n) {
            before
        } else {
            before.push(n)
        };
        assert forall|m: int| 0 <= m < places.len() implies {
            &&& 0 <= #[trigger] places[m] < queue.len()
            &&& left[m] == model::reduced(
                queue[places[m]],
                allocation::allotted(fills, places[m]),
            )
            &&& !matching::struck(queue, fills, reach, places[m])
        } by {
            if m < before.len() {
                assert(places[m] == before[m]);
                assert(rest[before[m]] == queue[before[m]]);
                assert(!matching::struck(rest, fills, reach, before[m]));
                assert(left[m] == model::after_fills(rest, fills, reach)[m]);
            }
        }
        assert forall|k: int|
            0 <= k < queue.len() && !#[trigger] matching::struck(queue, fills, reach, k) implies exists|
            m: int,
        | 0 <= m < places.len() && #[trigger] places[m] == k by {
            if k < n {
                assert(rest[k] == queue[k]);
                assert(!matching::struck(rest, fills, reach, k));
                let m = choose|m: int| 0 <= m < before.len() && #[trigger] before[m] == k;
                assert(places[m] == k);
            } else {
                assert(places[before.len() as int] == n);
            }
        }
        places
    }
}

/// A client's own orders are all of that client, and no order of it is missing.
proof fn lemma_owned_members(queue: Seq<Order>, client: Seq<char>)
    ensures
        forall|k: int|
            0 <= k < order_queue::owned(queue, client).len() ==> (
            #[trigger] order_queue::owned(queue, client)[k]).client_id@ == client && exists|i: int|
                0 <= i < queue.len() && #[trigger] queue[i] == order_queue::owned(queue, client)[k],
        forall|i: int|
            0 <= i < queue.len() && (#[trigger] queue[i]).client_id@ == client ==> exists|k: int|
                0 <= k < order_queue::owned(queue, client).len() && #[trigger] order_queue::owned(
                    queue,
                    client,
                )[k] == queue[i],
    decreases queue.len(),
{
    if queue.len() > 0 {
        let rest = queue.drop_last();
        let n = queue.len() - 1;
        let before = order_queue::owned(rest, client);
        let own = order_queue::owned(queue, client);
        lemma_owned_members(rest, client);
        assert(queue.last() == queue[n]);
        assert forall|k: int| 0 <= k < own.len() implies (#[trigger] own[k]).client_id@ == client
            && exists|i: int| 0 <= i < queue.len() && #[trigger] queue[i] == own[k] by {
            if k < before.len() {
                assert(own[k] == before[k]);
                let i = choose|i: int| 0 <= i < rest.len() && #[trigger] rest[i] == before[k];
                assert(queue[i] == own[k]);
            } else {
                assert(queue[n] == own[k]);
            }
        }
        assert forall|i: int| 0 <= i < queue.len() && (#[trigger] queue[i]).client_id@
            == client implies exists|k: int| 0 <= k < own.len() && #[trigger] own[k] == queue[i] by {
            if i < n {
                assert(rest[i] == queue[i]);
                let k = choose|k: int| 0 <= k < before.len() && #[trigger] before[k] == rest[i];
                assert(own[k] == queue[i]);
            } else {
                assert(own[before.len() as int] == queue[n]);
            }
        }
    }
}

/// One level accounts for each of its orders.
proof fn lemma_level_accounts<M: MatchingAlgorithm>(
    matcher: M,
    levels: Map<u64, Seq<Order>>,
    after: Map<u64, Seq<Order>>,
    taker: Order,
    remaining: int,
    now: int,
    p: u64,
    i: int,
)
    requires
        matcher.wf(),
        laws::queue_ok(matcher.spec_lot_size(), levels[p]),
        laws::amount_ok(matcher.spec_lot_size(), remaining),
        apart(levels),
        orderbook::placed(levels, p, i),
        ({
            let (others, fills) = laws::met(matcher, levels[p], taker, remaining, now);
            let rest = remaining - sums::sum(allocation::taken(fills));
            let left = model::level_left(others, fills, rest);
            if left.len() == 0 {
                !after.contains_key(p)
            } else {
                after.contains_key(p) && after[p] == left
            }
        }),
    ensures
        ({
            let (others, fills) = laws::met(matcher, levels[p], taker, remaining, now);
            let trades = model::trades_of(taker, others, model::price_of(p), fills);
            let own = order_queue::owned(levels[p], taker.client_id@);
            &&& accounted(levels, after, trades, model::names(own), taker.client_id@, p, i)
            &&& levels[p][i].client_id@ == taker.client_id@ ==> is_gone(
                after,
                p,
                levels[p][i].exchange_id@,
            )
        }),
{
    let client = taker.client_id@;
    let queue = levels[p];
    let order = queue[i];
    let name = order.exchange_id@;
    let price = model::price_of(p);
    laws::lemma_met(matcher, queue, taker, price, remaining, now);
    let (others, fills) = laws::met(matcher, queue, taker, remaining, now);
    let rest = remaining - sums::sum(allocation::taken(fills));
    let reach = model::passed(others, fills, rest);
    let left = model::level_left(others, fills, rest);
    let trades = model::trades_of(taker, others, price, fills);
    let own = order_queue::owned(queue, client);
    let ids = model::names(own);
    let seats = laws::lemma_others_places(queue, client);
    let places = lemma_left_exactly(others, fills, reach);
    lemma_owned_members(queue, client);
    assert forall|a: int| 0 <= a < others.len() implies (#[trigger] others[a]).client_id@ != client
        && orderbook::placed(levels, p, seats[a]) && others[a] == queue[seats[a]] by {
        assert(0 <= seats[a] < queue.len());
    }
    assert forall|a: int| 0 <= a < fills.len() implies (#[trigger] fills[a]).order_index
        < others.len() by {}
    if order.client_id@ == client {
        assert forall|a: int| 0 <= a < trades.len() implies (
        #[trigger] trades[a]).maker_order_id@ != name by {
            let k = fills[a].order_index as int;
            assert(others[k].client_id@ != client);
            assert(orderbook::placed(levels, p, seats[k]));
        }
        lemma_given_none(trades, name);
        let k = choose|k: int| 0 <= k < own.len() && #[trigger] own[k] == queue[i];
        assert(ids[k]@ == name);
        assert(is_among(ids, name));
        assert forall|j: int| #[trigger] orderbook::placed(after, p, j) implies after[p][j].exchange_id@
            != name by {
            let m = places[j];
            assert(left[j].exchange_id == others[m].exchange_id);
            assert(others[m].client_id@ != client);
            assert(orderbook::placed(levels, p, seats[m]));
        }
    } else {
        let k = choose|k: int| 0 <= k < seats.len() && #[trigger] seats[k] == i;
        assert(others[k] == order);
        assert forall|a: int| 0 <= a < others.len() && a != k implies (
        #[trigger] others[a]).exchange_id@ != others[k].exchange_id@ by {
            assert(orderbook::placed(levels, p, seats[a]));
            if a < k {
                assert(seats[a] < seats[k]);
            } else {
                assert(seats[k] < seats[a]);
            }
        }
        lemma_given_allotted(taker, others, price, fills, k);
        let took = allocation::allotted(fills, k);
        if is_among(ids, name) {
            let a = choose|a: int| 0 <= a < ids.len() && (#[trigger] ids[a])@ == name;
            assert(own[a].client_id@ == client);
            let b = choose|b: int| 0 <= b < queue.len() && #[trigger] queue[b] == own[a];
            assert(orderbook::placed(levels, p, b));
        }
        if matching::struck(others, fills, reach, k) {
            assert forall|j: int| #[trigger] orderbook::placed(after, p, j) implies after[p][j].exchange_id@
                != name by {
                let m = places[j];
                assert(left[j].exchange_id == others[m].exchange_id);
                assert(m != k);
            }
        } else {
            let m = choose|m: int| 0 <= m < places.len() && #[trigger] places[m] == k;
            assert(left[m] == model::reduced(order, took));
            assert(is_left(after, p, order, order.remaining_quantity.base() - took, m));
        }
    }
}

/// A sweep accounts for every order that it faces.
#[verifier::rlimit(40)]
proof fn lemma_sweep_accounts_for_each<M: MatchingAlgorithm>(
    matcher: M,
    levels: Map<u64, Seq<Order>>,
    taker: Order,
    limit: Option<Price>,
    remaining: int,
    now: int,
    p: u64,
    i: int,
)
    requires
        matcher.wf(),
        laws::levels_ok(matcher.spec_lot_size(), levels),
        laws::amount_ok(matcher.spec_lot_size(), remaining),
        apart(levels),
        orderbook::placed(levels, p, i),
    ensures
        ({
            let swept = model::sweep(matcher, levels, taker, limit, remaining, now);
            &&& accounted(
                levels,
                swept.levels,
                swept.trades,
                model::names(swept.cancelled),
                taker.client_id@,
                p,
                i,
            )
            &&& levels[p][i].client_id@ == taker.client_id@ && (exists|t: int|
                0 <= t < swept.trades.len() && (#[trigger] swept.trades[t]).price.minor() == p)
                ==> is_gone(swept.levels, p, levels[p][i].exchange_id@)
        }),
    decreases levels.dom().len(),
{
    let lot = matcher.spec_lot_size();
    let client = taker.client_id@;
    let side = model::opposite(taker.side);
    let swept = model::sweep(matcher, levels, taker, limit, remaining, now);
    let ids = model::names(swept.cancelled);
    let order = levels[p][i];
    let name = order.exchange_id@;
    let held = order.remaining_quantity.base() as int;
    let found = storage::best(levels.dom(), side);
    if remaining <= 0 || found is None || !levels.contains_key(found->0) || !model::acceptable(
        taker.side,
        limit,
        found->0,
    ) {
        lemma_given_none(swept.trades, name);
        lemma_accounted_untouched(levels, swept.levels, swept.trades, ids, client, p, i);
    } else {
        let best = found->0;
        let queue = levels[best];
        let price = model::price_of(best);
        laws::lemma_met(matcher, queue, taker, price, remaining, now);
        let (others, fills) = laws::met(matcher, queue, taker, remaining, now);
        let rest = remaining - sums::sum(allocation::taken(fills));
        let left = model::level_left(others, fills, rest);
        let trades = model::trades_of(taker, others, price, fills);
        let own = order_queue::owned(queue, client);
        let seats = laws::lemma_others_places(queue, client);
        lemma_owned_members(queue, client);
        assert forall|a: int| 0 <= a < fills.len() implies (#[trigger] fills[a]).order_index
            < others.len() by {}
        if p != best {
            // nothing at the best level has the name
            assert forall|a: int| 0 <= a < trades.len() implies (
            #[trigger] trades[a]).maker_order_id@ != name && trades[a].price.minor() != p by {
                let k = fills[a].order_index as int;
                assert(queue[seats[k]] == others[k]);
                assert(orderbook::placed(levels, best, seats[k]));
            }
            lemma_given_none(trades, name);
            if is_among(model::names(own), name) {
                let a = choose|a: int|
                    0 <= a < model::names(own).len() && (#[trigger] model::names(own)[a])@ == name;
                let b = choose|b: int| 0 <= b < queue.len() && #[trigger] queue[b] == own[a];
                assert(orderbook::placed(levels, best, b));
            }
        }
        if left.len() == 0 {
            let fewer = levels.remove(best);
            let next = model::sweep(matcher, fewer, taker, limit, rest, now);
            assert(fewer.dom() =~= levels.dom().remove(best));
            assert forall|q: u64| #[trigger] fewer.contains_key(q) implies laws::queue_ok(
                lot,
                fewer[q],
            ) by {
                assert(levels.contains_key(q));
            }
            assert forall|q: u64, a: int| #[trigger] orderbook::placed(fewer, q, a) implies orderbook::placed(
                levels,
                q,
                a,
            ) && fewer[q][a] == levels[q][a] && q != best by {}
            assert(apart(fewer)) by {
                assert forall|q: u64, a: int, r: u64, b: int|
                    #![trigger orderbook::placed(fewer, q, a), orderbook::placed(fewer, r, b)]
                    orderbook::placed(fewer, q, a) && orderbook::placed(fewer, r, b)
                        && fewer[q][a].exchange_id@ == fewer[r][b].exchange_id@ implies q == r
                    && a == b by {
                    assert(orderbook::placed(levels, q, a));
                    assert(orderbook::placed(levels, r, b));
                }
            }
            lemma_given_concat(trades, next.trades, name);
            assert(swept.trades == trades + next.trades);
            assert(swept.levels == next.levels);
            let first = model::names(own);
            let later = model::names(next.cancelled);
            assert(ids =~= first + later);
            assert(is_among(ids, name) <==> is_among(first, name) || is_among(later, name)) by {
                if is_among(first, name) {
                    let a = choose|a: int| 0 <= a < first.len() && (#[trigger] first[a])@ == name;
                    assert(ids[a]@ == name);
                }
                if is_among(later, name) {
                    let a = choose|a: int| 0 <= a < later.len() && (#[trigger] later[a])@ == name;
                    assert(ids[first.len() + a]@ == name);
                }
                if is_among(ids, name) {
                    let a = choose|a: int| 0 <= a < ids.len() && (#[trigger] ids[a])@ == name;
                    if a < first.len() {
                        assert(first[a]@ == name);
                    } else {
                        assert(later[a - first.len()]@ == name);
                    }
                }
            }
            if p != best {
                assert(orderbook::placed(fewer, p, i));
                lemma_sweep_accounts_for_each(matcher, fewer, taker, limit, rest, now, p, i);
                lemma_accounted_alike(
                    fewer,
                    levels,
                    swept.levels,
                    next.trades,
                    swept.trades,
                    later,
                    ids,
                    client,
                    p,
                    i,
                );
                if exists|t: int|
                    0 <= t < swept.trades.len() && (#[trigger] swept.trades[t]).price.minor() == p {
                    let t = choose|t: int|
                        0 <= t < swept.trades.len() && (#[trigger] swept.trades[t]).price.minor()
                            == p;
                    if t < trades.len() {
                        assert(swept.trades[t] == trades[t]);
                    } else {
                        assert(next.trades[t - trades.len()].price.minor() == p);
                    }
                }
            } else {
                laws::lemma_sweep_exhausts(matcher, fewer, taker, limit, rest, now);
                assert(!swept.levels.contains_key(best)) by {
                    if swept.levels.contains_key(best) {
                        assert(fewer.contains_key(best));
                    }
                }
                lemma_level_accounts(matcher, levels, swept.levels, taker, remaining, now, p, i);
                let there = laws::lemma_sweep_trades(matcher, fewer, taker, limit, rest, now);
                assert forall|a: int| 0 <= a < next.trades.len() implies (
                #[trigger] next.trades[a]).maker_order_id@ != name by {
                    assert(laws::fair_trade(fewer, taker, limit, next.trades[a], there[a]));
                    let q = next.trades[a].price.minor();
                    assert(orderbook::placed(fewer, q, there[a]));
                    assert(orderbook::placed(levels, q, there[a]));
                }
                lemma_given_none(next.trades, name);
                assert(!is_among(later, name)) by {
                    if is_among(later, name) {
                        let a = choose|a: int|
                            0 <= a < later.len() && (#[trigger] later[a])@ == name;
                        let (q, b) = lemma_cancelled_place(
                            matcher,
                            fewer,
                            taker,
                            limit,
                            rest,
                            now,
                            a,
                        );
                        assert(orderbook::placed(fewer, q, b));
                        assert(orderbook::placed(levels, q, b));
                    }
                }
                lemma_accounted_alike(
                    levels,
                    levels,
                    swept.levels,
                    trades,
                    swept.trades,
                    first,
                    ids,
                    client,
                    p,
                    i,
                );
            }
        } else {
            assert(ids =~= model::names(own));
            if p != best {
                lemma_accounted_untouched(levels, swept.levels, swept.trades, ids, client, p, i);
            } else {
                lemma_level_accounts(matcher, levels, swept.levels, taker, remaining, now, p, i);
            }
        }
    }
}

/// An order that a sweep cancels is one of the taker's client that it faced.
proof fn lemma_cancelled_place<M: MatchingAlgorithm>(
    matcher: M,
    levels: Map<u64, Seq<Order>>,
    taker: Order,
    limit: Option<Price>,
    remaining: int,
    now: int,
    a: int,
) -> (place: (u64, int))
    requires
        levels.dom().finite(),
        0 <= a < model::sweep(matcher, levels, taker, limit, remaining, now).cancelled.len(),
    ensures
        orderbook::placed(levels, place.0, place.1),
        levels[place.0][place.1] == model::sweep(
            matcher,
            levels,
            taker,
            limit,
            remaining,
            now,
        ).cancelled[a],
        levels[place.0][place.1].client_id@ == taker.client_id@,
        within(taker.side, limit, place.0),
    decreases levels.dom().len(),
{
    let side = model::opposite(taker.side);
    let swept = model::sweep(matcher, levels, taker, limit, remaining, now);
    let found = storage::best(levels.dom(), side);
    let best = found->0;
    let queue = levels[best];
    let (others, fills) = laws::met(matcher, queue, taker, remaining, now);
    let rest = remaining - sums::sum(allocation::taken(fills));
    let own = order_queue::owned(queue, taker.client_id@);
    lemma_owned_members(queue, taker.client_id@);
    if a < own.len() {
        assert(swept.cancelled[a] == own[a]);
        let b = choose|b: int| 0 <= b < queue.len() && #[trigger] queue[b] == own[a];
        (best, b)
    } else {
        let fewer = levels.remove(best);
        assert(fewer.dom() =~= levels.dom().remove(best));
        let next = model::sweep(matcher, fewer, taker, limit, rest, now);
        assert(swept.cancelled[a] == next.cancelled[a - own.len()]);
        let (q, b) = lemma_cancelled_place(
            matcher,
            fewer,
            taker,
            limit,
            rest,
            now,
            a - own.len(),
        );
        (q, b)
    }
}

/// Nothing is lost and nothing comes from nowhere: an execution accounts for every
/// order that it faces, leaves no order of its own client at a price at which it
/// trades, and leaves no order there that was not there before. What it leaves at a
/// price keeps its order.
pub proof fn executions_account_for_every_order<M: MatchingAlgorithm>(
    venue: Venue<M>,
    state: BookState,
    order: Order,
)
    requires
        laws::valid(venue, state),
        order.order_type is Limit || order.order_type is Market,
        matching::in_lots(venue.matcher.spec_lot_size(), order),
        model::plain_step(venue, state, order).result is Ok,
        apart(facing(state, order.side)),
    ensures
        ({
            let done = model::plain_step(venue, state, order);
            let report = done.result->Ok_0;
            let before = facing(state, order.side);
            let after = facing(done.state, order.side);
            &&& forall|p: u64, i: int| #[trigger]
                orderbook::placed(before, p, i) ==> accounted(
                    before,
                    after,
                    report.trades,
                    report.cancelled,
                    order.client_id@,
                    p,
                    i,
                )
            &&& forall|t: int, p: u64, i: int|
                #![trigger report.trades[t], orderbook::placed(before, p, i)]
                0 <= t < report.trades.len() && orderbook::placed(before, p, i)
                    && report.trades[t].price.minor() == p && before[p][i].client_id@
                    == order.client_id@ ==> is_gone(after, p, before[p][i].exchange_id@)
            &&& agreement::thinned(before, after)
        }),
{
    let side = model::opposite(order.side);
    let before = state.resting(side);
    let limit = laws::limit_of(order);
    let remaining = order.remaining_quantity.base() as int;
    let now = state.next_arrival;
    let done = model::plain_step(venue, state, order);
    let report = done.result->Ok_0;
    let after = facing(done.state, order.side);
    let swept = model::sweep_for(venue, state, order, limit);
    assert(before == facing(state, order.side));
    assert(laws::side_valid(venue.matcher.spec_lot_size(), state, side));
    if report.trades == swept.trades && after == swept.levels && report.cancelled == model::names(
        swept.cancelled,
    ) {
        agreement::lemma_sweep_thins(venue.matcher, before, order, limit, remaining, now);
        assert forall|p: u64, i: int| #[trigger] orderbook::placed(before, p, i) implies accounted(
            before,
            after,
            report.trades,
            report.cancelled,
            order.client_id@,
            p,
            i,
        ) by {
            lemma_sweep_accounts_for_each(
                venue.matcher,
                before,
                order,
                limit,
                remaining,
                now,
                p,
                i,
            );
        }
        assert forall|t: int, p: u64, i: int|
            #![trigger report.trades[t], orderbook::placed(before, p, i)]
            0 <= t < report.trades.len() && orderbook::placed(before, p, i)
                && report.trades[t].price.minor() == p && before[p][i].client_id@
                == order.client_id@ implies is_gone(after, p, before[p][i].exchange_id@) by {
            lemma_sweep_accounts_for_each(
                venue.matcher,
                before,
                order,
                limit,
                remaining,
                now,
                p,
                i,
            );
            assert(swept.trades[t].price.minor() == p);
        }
    } else {
        // a fill-or-kill order that could not be filled
        assert(after == before);
        agreement::lemma_same_thinned(before);
        assert forall|p: u64, i: int| #[trigger] orderbook::placed(before, p, i) implies accounted(
            before,
            after,
            report.trades,
            report.cancelled,
            order.client_id@,
            p,
            i,
        ) by {
            lemma_given_none(report.trades, before[p][i].exchange_id@);
            lemma_accounted_untouched(
                before,
                after,
                report.trades,
                report.cancelled,
                order.client_id@,
                p,
                i,
            );
        }
    }
}

/// An execution cancels nothing but orders of its own client, at prices within its
/// limit.
pub proof fn executions_cancel_their_own_client_alone<M: MatchingAlgorithm>(
    venue: Venue<M>,
    state: BookState,
    order: Order,
    a: int,
)
    requires
        laws::valid(venue, state),
        order.order_type is Limit || order.order_type is Market,
        model::plain_step(venue, state, order).result is Ok,
        0 <= a < model::plain_step(venue, state, order).result->Ok_0.cancelled.len(),
    ensures
        exists|p: u64, i: int|
            #![trigger orderbook::placed(facing(state, order.side), p, i)]
            orderbook::placed(facing(state, order.side), p, i) && within(
                order.side,
                own_limit(order),
                p,
            ) && facing(state, order.side)[p][i].client_id@ == order.client_id@ && facing(
                state,
                order.side,
            )[p][i].exchange_id == model::plain_step(
                venue,
                state,
                order,
            ).result->Ok_0.cancelled[a],
{
    let side = model::opposite(order.side);
    let limit = laws::limit_of(order);
    assert(laws::side_valid(venue.matcher.spec_lot_size(), state, side));
    let (p, i) = lemma_cancelled_place(
        venue.matcher,
        state.resting(side),
        order,
        limit,
        order.remaining_quantity.base() as int,
        state.next_arrival,
        a,
    );
    assert(orderbook::placed(facing(state, order.side), p, i));
}

/// Whether places go from better prices to worse, and at one price from the front of
/// the queue to its back.
pub open spec fn from_the_best_down(side: Side, places: Seq<(u64, int)>) -> bool {
    forall|a: int, b: int|
        #![trigger places[a], places[b]]
        0 <= a < b < places.len() ==> suits_better(side, places[a].0, places[b].0) || (places[a].0
            == places[b].0 && places[a].1 < places[b].1)
}

/// The places of a client's orders in a queue rise.
proof fn lemma_owned_places(queue: Seq<Order>, client: Seq<char>) -> (places: Seq<int>)
    ensures
        places.len() == order_queue::owned(queue, client).len(),
        forall|a: int|
            0 <= a < places.len() ==> 0 <= #[trigger] places[a] < queue.len() && queue[places[a]]
                == order_queue::owned(queue, client)[a] && queue[places[a]].client_id@ == client,
        forall|a: int, b: int|
            #![trigger places[a], places[b]]
            0 <= a < b < places.len() ==> places[a] < places[b],
    decreases queue.len(),
{
    if queue.len() == 0 {
        Seq::empty()
    } else {
        let shorter = queue.drop_last();
        let before = lemma_owned_places(shorter, client);
        assert forall|a: int| 0 <= a < before.len() implies 0 <= #[trigger] before[a]
            < queue.len() - 1 && queue[before[a]] == order_queue::owned(shorter, client)[a]
            && queue[before[a]].client_id@ == client by {
            assert(shorter[before[a]] == queue[before[a]]);
        }
        if queue.last().client_id@ == client {
            before.push(queue.len() - 1)
        } else {
            before
        }
    }
}

/// A sweep cancels from the best price down.
proof fn lemma_cancelled_places<M: MatchingAlgorithm>(
    matcher: M,
    levels: Map<u64, Seq<Order>>,
    taker: Order,
    limit: Option<Price>,
    remaining: int,
    now: int,
) -> (places: Seq<(u64, int)>)
    requires
        levels.dom().finite(),
    ensures
        ({
            let swept = model::sweep(matcher, levels, taker, limit, remaining, now);
            &&& places.len() == swept.cancelled.len()
            &&& from_the_best_down(taker.side, places)
            &&& forall|a: int|
                0 <= a < places.len() ==> orderbook::placed(
                    levels,
                    (#[trigger] places[a]).0,
                    places[a].1,
                ) && levels[places[a].0][places[a].1] == swept.cancelled[a]
                    && swept.cancelled[a].client_id@ == taker.client_id@
        }),
    decreases levels.dom().len(),
{
    let side = model::opposite(taker.side);
    let swept = model::sweep(matcher, levels, taker, limit, remaining, now);
    let found = storage::best(levels.dom(), side);
    if remaining <= 0 || found is None || !levels.contains_key(found->0) || !model::acceptable(
        taker.side,
        limit,
        found->0,
    ) {
        Seq::empty()
    } else {
        let best = found->0;
        let queue = levels[best];
        let (others, fills) = laws::met(matcher, queue, taker, remaining, now);
        let rest = remaining - sums::sum(allocation::taken(fills));
        let left = model::level_left(others, fills, rest);
        let own = order_queue::owned(queue, taker.client_id@);
        let ranks = lemma_owned_places(queue, taker.client_id@);
        let here = Seq::new(ranks.len(), |a: int| (best, ranks[a]));
        storage::lemma_best_exists(levels.dom(), side);
        if left.len() == 0 {
            let fewer = levels.remove(best);
            assert(fewer.dom() =~= levels.dom().remove(best));
            let next = model::sweep(matcher, fewer, taker, limit, rest, now);
            let there = lemma_cancelled_places(matcher, fewer, taker, limit, rest, now);
            let places = here + there;
            assert(swept.cancelled == own + next.cancelled);
            assert forall|a: int| 0 <= a < places.len() implies orderbook::placed(
                levels,
                (#[trigger] places[a]).0,
                places[a].1,
            ) && levels[places[a].0][places[a].1] == swept.cancelled[a]
                && swept.cancelled[a].client_id@ == taker.client_id@ by {
                if a < here.len() {
                    assert(places[a] == (best, ranks[a]));
                } else {
                    assert(places[a] == there[a - here.len()]);
                    assert(fewer.contains_key(places[a].0));
                }
            }
            assert forall|a: int, b: int|
                #![trigger places[a], places[b]]
                0 <= a < b < places.len() implies suits_better(
                taker.side,
                places[a].0,
                places[b].0,
            ) || (places[a].0 == places[b].0 && places[a].1 < places[b].1) by {
                if b < here.len() {
                    assert(places[a] == (best, ranks[a]) && places[b] == (best, ranks[b]));
                } else {
                    assert(places[b] == there[b - here.len()]);
                    if a < here.len() {
                        assert(places[a] == (best, ranks[a]));
                        assert(fewer.contains_key(places[b].0));
                        assert(levels.dom().contains(places[b].0));
                    } else {
                        assert(places[a] == there[a - here.len()]);
                    }
                }
            }
            places
        } else {
            assert(swept.cancelled == own);
            assert forall|a: int| 0 <= a < here.len() implies orderbook::placed(
                levels,
                (#[trigger] here[a]).0,
                here[a].1,
            ) && levels[here[a].0][here[a].1] == swept.cancelled[a]
                && swept.cancelled[a].client_id@ == taker.client_id@ by {
                assert(here[a] == (best, ranks[a]));
            }
            assert forall|a: int, b: int|
                #![trigger here[a], here[b]]
                0 <= a < b < here.len() implies here[a].0 == here[b].0 && here[a].1
                < here[b].1 by {
                assert(here[a] == (best, ranks[a]) && here[b] == (best, ranks[b]));
            }
            here
        }
    }
}

/// A report names the orders that an execution cancels in the order in which it comes
/// to them: each once, from better prices to worse, and at one price from the oldest
/// to the youngest.
pub proof fn executions_cancel_from_the_best_price_down<M: MatchingAlgorithm>(
    venue: Venue<M>,
    state: BookState,
    order: Order,
) -> (places: Seq<(u64, int)>)
    requires
        laws::valid(venue, state),
        order.order_type is Limit || order.order_type is Market,
        model::plain_step(venue, state, order).result is Ok,
    ensures
        ({
            let cancelled = model::plain_step(venue, state, order).result->Ok_0.cancelled;
            let levels = facing(state, order.side);
            &&& places.len() == cancelled.len()
            &&& from_the_best_down(order.side, places)
            &&& forall|a: int|
                0 <= a < places.len() ==> orderbook::placed(
                    levels,
                    (#[trigger] places[a]).0,
                    places[a].1,
                ) && levels[places[a].0][places[a].1].exchange_id == cancelled[a]
                    && levels[places[a].0][places[a].1].client_id@ == order.client_id@
        }),
{
    let side = model::opposite(order.side);
    let limit = laws::limit_of(order);
    let cancelled = model::plain_step(venue, state, order).result->Ok_0.cancelled;
    assert(laws::side_valid(venue.matcher.spec_lot_size(), state, side));
    if cancelled.len() == 0 {
        Seq::empty()
    } else {
        let places = lemma_cancelled_places(
            venue.matcher,
            state.resting(side),
            order,
            limit,
            order.remaining_quantity.base() as int,
            state.next_arrival,
        );
        let levels = facing(state, order.side);
        let swept = model::sweep_for(venue, state, order, limit);
        assert(cancelled == model::names(swept.cancelled));
        assert forall|a: int| 0 <= a < places.len() implies orderbook::placed(
            levels,
            (#[trigger] places[a]).0,
            places[a].1,
        ) && levels[places[a].0][places[a].1].exchange_id == cancelled[a]
            && levels[places[a].0][places[a].1].client_id@ == order.client_id@ by {
            assert(cancelled[a] == swept.cancelled[a].exchange_id);
        }
        places
    }
}

// ---------------------------------------------------------------- who is served

/// The orders of a client, in their order.
pub open spec fn of_client(queue: Seq<Order>, client: Seq<char>) -> Seq<Order> {
    queue.filter(|o: Order| o.client_id@ == client)
}

/// The orders of everybody else, in their order.
pub open spec fn of_others(queue: Seq<Order>, client: Seq<char>) -> Seq<Order> {
    queue.filter(|o: Order| o.client_id@ != client)
}

/// Parting a queue by client is filtering it.
pub proof fn parting_a_queue_is_filtering_it(queue: Seq<Order>, client: Seq<char>)
    ensures
        order_queue::owned(queue, client) == of_client(queue, client),
        order_queue::not_owned(queue, client) == of_others(queue, client),
    decreases queue.len(),
{
    reveal(Seq::filter);
    if queue.len() > 0 {
        parting_a_queue_is_filtering_it(queue.drop_last(), client);
    } else {
        assert(order_queue::owned(queue, client) =~= queue);
        assert(order_queue::not_owned(queue, client) =~= queue);
    }
}

/// A queue as an allocation policy is to see it: what is left of each order, and
/// its place in line.
pub open spec fn on_offer(queue: Seq<Order>) -> Seq<Maker> {
    Seq::new(
        queue.len(),
        |i: int|
            Maker {
                remaining_quantity: queue[i].remaining_quantity,
                arrival: queue[i].arrival as u128,
            },
    )
}

/// The policy decides who is served: at the best price that an execution faces, it
/// trades first, and with each order what the policy gives for what the execution
/// brings, for the orders of others in their queue, and for the next place in line
/// as the time.
pub proof fn the_policy_shares_out_the_best_level<M: MatchingAlgorithm>(
    venue: Venue<M>,
    state: BookState,
    order: Order,
    p: u64,
)
    requires
        laws::valid(venue, state),
        order.order_type is Limit || order.order_type is Market,
        matching::in_lots(venue.matcher.spec_lot_size(), order),
        model::plain_step(venue, state, order).result is Ok,
        !(own_tif(order) == Some(TimeInForce::FOK) && model::plain_step(
            venue,
            state,
            order,
        ).result->Ok_0.outcome == SubmitOutcome::Killed),
        order.remaining_quantity.base() > 0,
        facing(state, order.side).contains_key(p),
        forall|q: u64| #[trigger]
            facing(state, order.side).contains_key(q) ==> !suits_better(order.side, q, p),
        within(order.side, own_limit(order), p),
    ensures
        ({
            let trades = model::plain_step(venue, state, order).result->Ok_0.trades;
            let others = of_others(facing(state, order.side)[p], order.client_id@);
            let fills = venue.matcher.allocation(
                order.remaining_quantity,
                on_offer(others),
                state.next_arrival as u128,
            );
            &&& trades.len() >= fills.len()
            &&& forall|i: int|
                0 <= i < fills.len() ==> {
                    &&& (#[trigger] trades[i]).price.minor() == p
                    &&& trades[i].quantity == fills[i].quantity
                    &&& trades[i].maker_order_id == others[fills[i].order_index as int].exchange_id
                    &&& trades[i].maker_client == others[fills[i].order_index as int].client_id
                }
            &&& forall|i: int|
                fills.len() <= i < trades.len() ==> (#[trigger] trades[i]).price.minor() != p
        }),
{
    let side = model::opposite(order.side);
    let levels = state.resting(side);
    let limit = laws::limit_of(order);
    let remaining = order.remaining_quantity.base() as int;
    let now = state.next_arrival;
    let swept = model::sweep_for(venue, state, order, limit);
    let trades = model::plain_step(venue, state, order).result->Ok_0.trades;
    assert(levels == facing(state, order.side));
    assert(laws::side_valid(venue.matcher.spec_lot_size(), state, side));
    assert(storage::is_best(levels.dom(), side, p)) by {
        assert(levels.dom().contains(p));
        assert forall|q: u64| #[trigger] levels.dom().contains(q) implies storage::no_worse(
            side,
            p,
            q,
        ) by {
            assert(levels.contains_key(q));
        }
    }
    storage::lemma_best_unique(levels.dom(), side, p);
    assert(levels.dom().len() > 0) by {
        if levels.dom().len() == 0 {
            assert(levels.dom() =~= Set::empty());
        }
    }
    parting_a_queue_is_filtering_it(levels[p], order.client_id@);
    let (others, fills) = laws::met(venue.matcher, levels[p], order, remaining, now);
    assert(types::as_makers(others) =~= on_offer(others));
    assert(allocation::qty_of(remaining) == order.remaining_quantity);
    let rest = remaining - sums::sum(allocation::taken(fills));
    let left = model::level_left(others, fills, rest);
    let printed = model::trades_of(order, others, model::price_of(p), fills);
    assert(trades == swept.trades);
    if left.len() == 0 {
        let fewer = levels.remove(p);
        let next = model::sweep(venue.matcher, fewer, order, limit, rest, now);
        laws::lemma_met(venue.matcher, levels[p], order, model::price_of(p), remaining, now);
        assert(fewer.dom() =~= levels.dom().remove(p));
        assert forall|q: u64| #[trigger] fewer.contains_key(q) implies laws::queue_ok(
            venue.matcher.spec_lot_size(),
            fewer[q],
        ) by {
            assert(levels.contains_key(q));
        }
        lemma_sweep_conduct(venue.matcher, fewer, order, limit, rest, now);
        assert(trades == printed + next.trades);
        assert forall|i: int| 0 <= i < fills.len() implies #[trigger] trades[i] == printed[i] by {}
        assert forall|i: int| fills.len() <= i < trades.len() implies (
        #[trigger] trades[i]).price.minor() != p by {
            assert(trades[i] == next.trades[i - fills.len()]);
            assert(fewer.contains_key(next.trades[i - fills.len()].price.minor()));
        }
    }
}

// ---------------------------------------------------------------- admission

/// Whether a price is in an instrument's band.
pub open spec fn in_band(spec: InstrumentSpec, price: Price) -> bool {
    &&& spec.min_price().minor() <= price.minor()
    &&& spec.max_price() matches Some(max) ==> price.minor() <= max.minor()
}

/// Whether an instrument is to admit an order: every price that it names is in the
/// price band, its original quantity is in the quantity band whatever its type, and
/// where it has a limit, price times quantity is not below the notional floor.
pub open spec fn admissible(spec: InstrumentSpec, order: Order) -> bool {
    &&& match order.order_type {
        OrderType::Limit { price, .. } => in_band(spec, price),
        OrderType::StopLimit { trigger, price, .. } => in_band(spec, trigger) && in_band(
            spec,
            price,
        ),
        OrderType::StopMarket { trigger } => in_band(spec, trigger),
        OrderType::Market => true,
    }
    &&& spec.min_qty().base() <= order.original_quantity.base()
    &&& spec.max_qty() matches Some(max) ==> order.original_quantity.base() <= max.base()
    &&& own_limit(order) matches Some(price) ==> (spec.min_notional() matches Some(floor)
        ==> price.minor() * order.original_quantity.base() >= floor.raw())
}

/// Whether an order names a price.
pub open spec fn names_price(order: Order, price: Price) -> bool {
    match order.order_type {
        OrderType::Limit { price: p, .. } => price == p,
        OrderType::StopLimit { trigger, price: p, .. } => price == trigger || price == p,
        OrderType::StopMarket { trigger } => price == trigger,
        OrderType::Market => false,
    }
}

/// Whether a reason to refuse an order is a true one.
pub open spec fn is_true_of(reason: RejectReason, spec: InstrumentSpec, order: Order) -> bool {
    match reason {
        RejectReason::PriceBelowMinimum { price, min } => names_price(order, price) && min
            == spec.min_price() && price.minor() < min.minor(),
        RejectReason::PriceAboveMaximum { price, max } => names_price(order, price) && Some(max)
            == spec.max_price() && price.minor() > max.minor(),
        RejectReason::QuantityBelowMinimum { qty, min } => qty == order.original_quantity && min
            == spec.min_qty() && qty.base() < min.base(),
        RejectReason::QuantityAboveMaximum { qty, max } => qty == order.original_quantity
            && Some(max) == spec.max_qty() && qty.base() > max.base(),
        RejectReason::NotionalBelowMinimum { notional, min } => own_limit(order) is Some
            && notional.raw() == own_limit(order)->0.minor() * order.original_quantity.base()
            && Some(min) == spec.min_notional() && notional.raw() < min.raw(),
    }
}

/// Admission is exact: a submission is refused if and only if the instrument is not
/// to admit the order, for a reason that is true, and then nothing changes.
pub proof fn submissions_are_admitted_by_the_bands<M: MatchingAlgorithm>(
    venue: Venue<M>,
    before: BookState,
    order: Order,
    result: Result<ExecutionReport, OrderBookError>,
    after: BookState,
)
    requires
        laws::valid(venue, before),
        matching::in_lots(venue.matcher.spec_lot_size(), order),
        matching::submits(venue, before, order, result, after),
        after.next_arrival <= u32::MAX,
    ensures
        result is Ok ==> admissible(venue.spec, order),
        !admissible(venue.spec, order) ==> {
            &&& result matches Err(OrderBookError::Rejected(reason))
            &&& is_true_of(result->Err_0->Rejected_0, venue.spec, order)
            &&& after == before
        },
        admissible(venue.spec, order) ==> after.next_seq == before.next_seq + 1,
{
    lemma_refusal(venue.spec, order);
    if admissible(venue.spec, order) {
        let id = streams::lemma_submission(venue, before, order, result, after);
        streams::lemma_submitted(venue, before, order, id);
    }
}

/// What the instrument refuses.
pub(crate) proof fn lemma_refusal(spec: InstrumentSpec, order: Order)
    ensures
        model::refusal(spec, order) is None <==> admissible(spec, order),
        model::refusal(spec, order) matches Some(reason) ==> is_true_of(reason, spec, order),
{
    if let Some(price) = own_limit(order) {
        assert(price.minor() * order.original_quantity.base() <= u128::MAX) by (nonlinear_arith)
            requires
                0 <= price.minor() <= u64::MAX,
                0 <= order.original_quantity.base() <= u64::MAX,
        ;
        assert(0 <= price.minor() * order.original_quantity.base()) by (nonlinear_arith)
            requires
                0 <= price.minor(),
                0 <= order.original_quantity.base(),
        ;
    }
}

// ---------------------------------------------------------------- one submission

/// What a stop is to become when it fires: a market order, or a limit order at its
/// price that stands as long as it says.
pub open spec fn fires_as(stop: Order, order: Order) -> bool {
    &&& order == (Order { order_type: order.order_type, ..stop })
    &&& match stop.order_type {
        OrderType::StopMarket { .. } => order.order_type == OrderType::Market,
        OrderType::StopLimit { price, tif, .. } => order.order_type == (OrderType::Limit {
            price,
            tif,
        }),
        _ => false,
    }
}

/// The trigger of a stop.
pub open spec fn own_trigger(order: Order) -> Option<Price> {
    match order.order_type {
        OrderType::StopMarket { trigger } => Some(trigger),
        OrderType::StopLimit { trigger, .. } => Some(trigger),
        OrderType::Limit { .. } => None,
        OrderType::Market => None,
    }
}

/// Whether the market has reached a trigger: traded up to that of a buy, or down to
/// that of a sell.
pub open spec fn has_reached(last: Option<Price>, side: Side, trigger: u64) -> bool {
    last matches Some(last) && match side {
        Side::Bid => last.minor() >= trigger,
        Side::Ask => last.minor() <= trigger,
    }
}

/// Reaching a trigger makes a stop what it becomes: submitting a stop that the
/// market has reached does what submitting the order does that it fires as.
pub proof fn a_reached_stop_is_what_it_fires_as<M: MatchingAlgorithm>(
    venue: Venue<M>,
    state: BookState,
    stop: Order,
    order: Order,
    id: ExchangeId,
)
    requires
        fires_as(stop, order),
        own_trigger(stop) matches Some(trigger) && has_reached(
            state.last_trade,
            stop.side,
            trigger.minor(),
        ),
    ensures
        model::submitted(venue, state, stop, id) == model::submitted(venue, state, order, id),
{
    let counted = BookState { next_seq: state.next_seq + 1, ..state };
    let named = Order { exchange_id: id, ..stop };
    let other = Order { exchange_id: id, ..order };
    assert(model::activated(named) == other);
    assert(model::step(venue, counted, named) == model::step(venue, counted, other));
}

/// A stop that the market has not reached waits: submitting it trades nothing,
/// cancels nothing and rests nothing, and puts it last among those that wait for its
/// trigger. Where the market has reached none of the others either, nothing else
/// changes but the count of names.
pub proof fn a_stop_waits_until_it_is_reached<M: MatchingAlgorithm>(
    venue: Venue<M>,
    before: BookState,
    order: Order,
    trigger: Price,
    report: ExecutionReport,
    after: BookState,
)
    requires
        laws::valid(venue, before),
        matching::submits(venue, before, order, Ok(report), after),
        own_trigger(order) == Some(trigger),
        !has_reached(before.last_trade, order.side, trigger.minor()),
    ensures
        report.outcome == SubmitOutcome::StopPending,
        report.trades@.len() == 0,
        report.cancelled@.len() == 0,
        (forall|side: Side, t: u64| #[trigger]
            before.stops(side).contains_key(t) ==> !has_reached(before.last_trade, side, t)) ==> ({
            let t = trigger.minor();
            let (was, now, was_other, now_other) = match order.side {
                Side::Bid => (
                    before.stop_bids,
                    after.stop_bids,
                    before.stop_asks,
                    after.stop_asks,
                ),
                Side::Ask => (
                    before.stop_asks,
                    after.stop_asks,
                    before.stop_bids,
                    after.stop_bids,
                ),
            };
            &&& report.triggered@.len() == 0
            &&& after.bids == before.bids
            &&& after.asks == before.asks
            &&& after.last_trade == before.last_trade
            &&& after.next_arrival == before.next_arrival
            &&& after.next_seq == before.next_seq + 1
            &&& now_other == was_other
            &&& now.dom() == was.dom().insert(t)
            &&& forall|u: u64| #![trigger now[u]] was.contains_key(u) && u != t ==> now[u] == was[u]
            &&& now[t] == (if was.contains_key(t) {
                was[t]
            } else {
                Seq::empty()
            }).push(Order { exchange_id: report.order_id, ..order })
        }),
{
    let id = choose|id: ExchangeId|
        {
            &&& id@ == types::sequence_name(before.next_seq as nat)
            &&& matching::answered(
                #[trigger] model::submitted(venue, before, order, id),
                after,
                Ok(report),
            )
        };
    let counted = BookState { next_seq: before.next_seq + 1, ..before };
    let named = Order { exchange_id: id, ..order };
    let first = model::step(venue, counted, named);
    let whole = model::submitted(venue, before, order, id);
    laws::lemma_counted_valid(venue, before, before.next_seq + 1);
    laws::lemma_valid_stops_sound(venue, counted);
    model::lemma_step_keeps_stops_sound(venue, counted, named);
    assert(first == model::parked_step(counted, named, trigger));
    assert(whole.result->Ok_0.0 == first.result->Ok_0);
    if forall|side: Side, t: u64| #[trigger]
        before.stops(side).contains_key(t) ==> !has_reached(before.last_trade, side, t) {
        assert(laws::none_triggered(counted)) by {
            assert forall|side: Side, t: u64| #[trigger]
                counted.stops(side).contains_key(t) implies (counted.last_trade matches Some(last)
                ==> match side {
                Side::Bid => last.minor() < t,
                Side::Ask => last.minor() > t,
            }) by {
                assert(before.stops(side).contains_key(t));
            }
        }
        streams::lemma_parking_fires_nothing(venue, counted, named, trigger);
        assert(model::next_trigger(first.state) is None);
        assert(whole.state == first.state);
        assert(whole.result->Ok_0.1 =~= Seq::empty());
        assert(matching::fired(report.triggered@).len() == report.triggered@.len());
        let t = trigger.minor();
        let was = before.stops(order.side);
        let now = after.stops(order.side);
        assert(now == model::enqueued(was, t, named));
        assert(now.dom() =~= was.dom().insert(t));
        assert(now[t] =~= (if was.contains_key(t) {
            was[t]
        } else {
            Seq::empty()
        }).push(named));
    }
}

/// Whether a stop is the one that fires next, and how: it is the oldest at its
/// trigger, which the market has reached, and it is a buy with the lowest trigger
/// of all, or no buy has been reached and it is a sell with the highest. It leaves
/// the stops, and what it fires as is executed.
pub open spec fn fires_next<M: MatchingAlgorithm>(
    venue: Venue<M>,
    before: BookState,
    stop: Order,
    report: Report,
    after: BookState,
) -> bool {
    let t = own_trigger(stop)->0.minor();
    let queues = match stop.side {
        Side::Bid => before.stop_bids,
        Side::Ask => before.stop_asks,
    };
    let fewer = if queues[t].len() == 1 {
        queues.remove(t)
    } else {
        queues.insert(t, queues[t].skip(1))
    };
    let without = match stop.side {
        Side::Bid => BookState { stop_bids: fewer, ..before },
        Side::Ask => BookState { stop_asks: fewer, ..before },
    };
    &&& own_trigger(stop) is Some
    &&& has_reached(before.last_trade, stop.side, t)
    &&& queues.contains_key(t)
    &&& queues[t].len() > 0
    &&& queues[t][0] == stop
    &&& match stop.side {
        Side::Bid => forall|u: u64| #[trigger] before.stop_bids.contains_key(u) ==> t <= u,
        Side::Ask => {
            &&& forall|u: u64| #[trigger] before.stop_asks.contains_key(u) ==> u <= t
            &&& forall|u: u64| #[trigger]
                before.stop_bids.contains_key(u) ==> !has_reached(before.last_trade, Side::Bid, u)
        },
    }
    &&& exists|order: Order|
        #![trigger fires_as(stop, order)]
        fires_as(stop, order) && model::plain_step(venue, without, order) == (Step {
            result: Ok::<Report, OrderBookError>(report),
            state: after,
        })
}

/// A cascade, stop by stop.
proof fn lemma_cascade_runs<M: MatchingAlgorithm>(venue: Venue<M>, state: BookState) -> (run: (
    Seq<BookState>,
    Seq<Order>,
))
    requires
        laws::valid(venue, state),
        model::cascade(venue, state).result is Ok,
        model::cascade(venue, state).state.next_arrival <= u32::MAX,
    ensures
        ({
            let done = model::cascade(venue, state);
            let reports = done.result->Ok_0;
            &&& run.0.len() == reports.len() + 1
            &&& run.1.len() == reports.len()
            &&& run.0[0] == state
            &&& run.0[reports.len() as int] == done.state
            &&& forall|i: int|
                #![trigger reports[i]]
                0 <= i < reports.len() ==> fires_next(
                    venue,
                    run.0[i],
                    run.1[i],
                    reports[i],
                    run.0[i + 1],
                )
        }),
    decreases model::waiting(state),
{
    laws::lemma_valid_stops_sound(venue, state);
    let done = model::cascade(venue, state);
    let reports = done.result->Ok_0;
    if model::next_trigger(state) is Some {
        let (side, trigger) = model::next_trigger(state)->0;
        let before = model::without_next_stop(state);
        let stop = model::next_stop(state);
        let active = model::activated(stop);
        let fired = model::plain_step(venue, before, active);
        laws::lemma_next_stop_valid(venue, state);
        model::lemma_next_stop_taken(state);
        model::lemma_plain_step_keeps_stops(venue, before, active);
        matching::lemma_cascade_arrivals(venue, fired.state);
        laws::executing_keeps_a_book_valid(venue, before, active);
        let (states, stops) = lemma_cascade_runs(venue, fired.state);
        let rest = model::cascade(venue, fired.state).result->Ok_0;
        assert(reports =~= seq![fired.result->Ok_0] + rest);
        assert(laws::side_valid(venue.matcher.spec_lot_size(), state, side));
        assert(orderbook::waits_at(state.stops(side)[trigger][0], side, trigger));
        assert(fires_as(stop, active));
        let queues = state.stops(side);
        let ends = model::opposite(side);
        assert(queues[trigger].remove(0) =~= queues[trigger].skip(1));
        storage::lemma_best_exists(queues.dom(), ends);
        assert forall|u: u64| #[trigger] queues.contains_key(u) implies storage::no_worse(
            ends,
            trigger,
            u,
        ) by {
            assert(queues.dom().contains(u));
        }
        if side == Side::Ask {
            assert forall|u: u64| #[trigger]
                state.stop_bids.contains_key(u) implies !has_reached(
                state.last_trade,
                Side::Bid,
                u,
            ) by {
                assert(state.stop_bids.dom().contains(u));
                assert(state.stop_bids.dom().len() > 0) by {
                    if state.stop_bids.dom().len() == 0 {
                        assert(state.stop_bids.dom() =~= Set::empty());
                    }
                }
                storage::lemma_best_exists(state.stop_bids.dom(), Side::Ask);
            }
        }
        assert(fired == (Step {
            result: Ok::<Report, OrderBookError>(fired.result->Ok_0),
            state: fired.state,
        }));
        assert(fires_next(venue, state, stop, fired.result->Ok_0, fired.state));
        let run = (seq![state] + states, seq![stop] + stops);
        assert forall|i: int|
            #![trigger reports[i]]
            0 <= i < reports.len() implies fires_next(
            venue,
            run.0[i],
            run.1[i],
            reports[i],
            run.0[i + 1],
        ) by {
            if i == 0 {
                assert(run.0[1] == states[0]);
            } else {
                assert(reports[i] == rest[i - 1]);
                assert(run.0[i] == states[i - 1] && run.0[i + 1] == states[i] && run.1[i]
                    == stops[i - 1]);
            }
        }
        run
    } else {
        (seq![state], Seq::empty())
    }
}

/// Stops fire one after the other: once the order itself has been executed, or
/// parked, the stops that a submission reports on are those that fire next, each in
/// the book that the one before it left, until the market has reached none that
/// waits.
pub proof fn stops_fire_one_after_the_other<M: MatchingAlgorithm>(
    venue: Venue<M>,
    state: BookState,
    order: Order,
    id: ExchangeId,
) -> (run: (Seq<BookState>, Seq<Order>))
    requires
        laws::valid(venue, state),
        matching::in_lots(venue.matcher.spec_lot_size(), order),
        model::submitted(venue, state, order, id).result is Ok,
        model::submitted(venue, state, order, id).state.next_arrival <= u32::MAX,
    ensures
        ({
            let done = model::submitted(venue, state, order, id);
            let (report, reports) = done.result->Ok_0;
            let counted = BookState { next_seq: state.next_seq + 1, ..state };
            let named = Order { exchange_id: id, ..order };
            let n = reports.len() as int;
            &&& run.0.len() == n + 1
            &&& run.1.len() == n
            &&& order.order_type is Limit || order.order_type is Market ==> model::plain_step(
                venue,
                counted,
                named,
            ) == (Step { result: Ok::<Report, OrderBookError>(report), state: run.0[0] })
            &&& forall|i: int|
                #![trigger reports[i]]
                0 <= i < n ==> fires_next(venue, run.0[i], run.1[i], reports[i], run.0[i + 1])
            &&& run.0[n] == done.state
            &&& forall|side: Side, t: u64| #[trigger]
                done.state.stops(side).contains_key(t) ==> !has_reached(
                    done.state.last_trade,
                    side,
                    t,
                )
        }),
{
    let counted = BookState { next_seq: state.next_seq + 1, ..state };
    let named = Order { exchange_id: id, ..order };
    let first = model::step(venue, counted, named);
    let done = model::submitted(venue, state, order, id);
    laws::lemma_counted_valid(venue, state, state.next_seq + 1);
    laws::lemma_valid_stops_sound(venue, counted);
    model::lemma_step_keeps_stops_sound(venue, counted, named);
    matching::lemma_cascade_arrivals(venue, first.state);
    laws::lemma_step_valid(venue, counted, named);
    laws::no_triggered_stop_waits(venue, state, order, id);
    assert forall|side: Side, t: u64| #[trigger]
        done.state.stops(side).contains_key(t) implies !has_reached(
        done.state.last_trade,
        side,
        t,
    ) by {}
    lemma_cascade_runs(venue, first.state)
}

/// The price of the last trade of some executions, or what it was before them.
pub open spec fn last_printed(reports: Seq<Report>, was: Option<Price>) -> Option<Price>
    decreases reports.len(),
{
    if reports.len() == 0 {
        was
    } else if reports.last().trades.len() > 0 {
        Some(reports.last().trades.last().price)
    } else {
        last_printed(reports.drop_last(), was)
    }
}

proof fn lemma_last_printed_first(report: Report, reports: Seq<Report>, was: Option<Price>)
    ensures
        last_printed(seq![report] + reports, was) == last_printed(
            reports,
            if report.trades.len() > 0 {
                Some(report.trades.last().price)
            } else {
                was
            },
        ),
    decreases reports.len(),
{
    let all = seq![report] + reports;
    if reports.len() == 0 {
        assert(all =~= seq![report]);
        assert(all.drop_last() =~= Seq::<Report>::empty());
        assert(last_printed(all.drop_last(), was) == was);
    } else {
        assert(all.last() == reports.last());
        assert(all.drop_last() =~= seq![report] + reports.drop_last());
        lemma_last_printed_first(report, reports.drop_last(), was);
    }
}

proof fn lemma_cascade_last_trade<M: MatchingAlgorithm>(venue: Venue<M>, state: BookState)
    requires
        model::stops_sound(state),
        model::cascade(venue, state).result is Ok,
    ensures
        model::cascade(venue, state).state.last_trade == last_printed(
            model::cascade(venue, state).result->Ok_0,
            state.last_trade,
        ),
    decreases model::waiting(state),
{
    if model::next_trigger(state) is Some {
        let before = model::without_next_stop(state);
        let active = model::activated(model::next_stop(state));
        let fired = model::plain_step(venue, before, active);
        model::lemma_next_stop_taken(state);
        model::lemma_plain_step_keeps_stops(venue, before, active);
        lemma_cascade_last_trade(venue, fired.state);
        executions_note_their_last_trade(venue, before, active);
        let rest = model::cascade(venue, fired.state).result->Ok_0;
        lemma_last_printed_first(fired.result->Ok_0, rest, before.last_trade);
    }
}

/// The last trade price is that of the last trade, over a whole submission, and no
/// stop waits whose trigger it has reached: where the last trade that was printed
/// is at or below the trigger of a sell stop, or at or above that of a buy stop,
/// the stop has fired.
pub proof fn submissions_note_their_last_trade<M: MatchingAlgorithm>(
    venue: Venue<M>,
    before: BookState,
    order: Order,
    report: ExecutionReport,
    after: BookState,
)
    requires
        laws::valid(venue, before),
        matching::in_lots(venue.matcher.spec_lot_size(), order),
        matching::submits(venue, before, order, Ok(report), after),
    ensures
        after.last_trade == last_printed(
            seq![report.own()] + matching::fired(report.triggered@),
            before.last_trade,
        ),
        forall|t: u64| #[trigger]
            after.stop_bids.contains_key(t) ==> (after.last_trade matches Some(last)
                ==> last.minor() < t),
        forall|t: u64| #[trigger]
            after.stop_asks.contains_key(t) ==> (after.last_trade matches Some(last)
                ==> last.minor() > t),
{
    let id = streams::lemma_submission(venue, before, order, Ok(report), after);
    let counted = BookState { next_seq: before.next_seq + 1, ..before };
    let named = Order { exchange_id: id, ..order };
    let first = model::step(venue, counted, named);
    let reports = matching::fired(report.triggered@);
    laws::lemma_counted_valid(venue, before, before.next_seq + 1);
    laws::lemma_valid_stops_sound(venue, counted);
    model::lemma_step_keeps_stops_sound(venue, counted, named);
    laws::no_triggered_stop_waits(venue, before, order, id);
    lemma_cascade_last_trade(venue, first.state);
    laws::lemma_step_cases(venue, counted, named);
    if laws::executes_now(counted, named) {
        executions_note_their_last_trade(venue, counted, model::activated(named));
    }
    lemma_last_printed_first(report.own(), reports, before.last_trade);
    assert forall|t: u64| #[trigger] after.stop_bids.contains_key(t) implies (
    after.last_trade matches Some(last) ==> last.minor() < t) by {
        assert(after.stops(Side::Bid).contains_key(t));
    }
    assert forall|t: u64| #[trigger] after.stop_asks.contains_key(t) implies (
    after.last_trade matches Some(last) ==> last.minor() > t) by {
        assert(after.stops(Side::Ask).contains_key(t));
    }
}

/// Whether a report is that of an order that waited in a book, and keeps to its
/// terms.
pub open spec fn reports_on_one_of(waited: Set<Order>, report: Report) -> bool {
    exists|stop: Order| #[trigger] waited.contains(stop) && keeps_to_its_terms(stop, report)
}

proof fn lemma_terms_of_a_stop(stop: Order, report: Report)
    requires
        keeps_to_its_terms(model::activated(stop), report),
    ensures
        keeps_to_its_terms(stop, report),
{
    assert(own_limit(model::activated(stop)) == own_limit(stop));
    assert(own_tif(model::activated(stop)) == own_tif(stop));
}

proof fn lemma_cascade_terms<M: MatchingAlgorithm>(venue: Venue<M>, state: BookState)
    requires
        laws::valid(venue, state),
        model::cascade(venue, state).result is Ok,
        model::cascade(venue, state).state.next_arrival <= u32::MAX,
    ensures
        ({
            let reports = model::cascade(venue, state).result->Ok_0;
            forall|i: int|
                0 <= i < reports.len() ==> reports_on_one_of(
                    streams::stop_set(state),
                    #[trigger] reports[i],
                )
        }),
    decreases model::waiting(state),
{
    laws::lemma_valid_stops_sound(venue, state);
    if model::next_trigger(state) is Some {
        let before = model::without_next_stop(state);
        let waited = model::next_stop(state);
        let stop = model::activated(waited);
        let fired = model::plain_step(venue, before, stop);
        laws::lemma_next_stop_valid(venue, state);
        streams::lemma_next_taken_out(venue, state);
        model::lemma_next_stop_taken(state);
        model::lemma_plain_step_keeps_stops(venue, before, stop);
        matching::lemma_cascade_arrivals(venue, fired.state);
        laws::executing_keeps_a_book_valid(venue, before, stop);
        executions_keep_to_their_terms(venue, before, stop);
        lemma_terms_of_a_stop(waited, fired.result->Ok_0);
        streams::lemma_same_stops(before, fired.state);
        lemma_cascade_terms(venue, fired.state);
        let rest = model::cascade(venue, fired.state).result->Ok_0;
        let reports = model::cascade(venue, state).result->Ok_0;
        assert forall|i: int| 0 <= i < reports.len() implies reports_on_one_of(
            streams::stop_set(state),
            #[trigger] reports[i],
        ) by {
            if i == 0 {
                assert(reports[0] == fired.result->Ok_0);
                assert(streams::stop_set(state).contains(waited));
            } else {
                assert(reports[i] == rest[i - 1]);
                assert(reports_on_one_of(streams::stop_set(fired.state), rest[i - 1]));
                let other = choose|other: Order| #[trigger]
                    streams::stop_set(fired.state).contains(other) && keeps_to_its_terms(
                        other,
                        reports[i],
                    );
                assert(streams::stop_set(state).contains(other));
            }
        }
    }
}

/// Every report of a submission keeps to the terms of an order: the first to those
/// of the order that was submitted, under the next name, unless it is a stop that is
/// left to wait; each of the others to those of a stop that waited, or of that one.
pub proof fn submissions_keep_to_their_terms<M: MatchingAlgorithm>(
    venue: Venue<M>,
    before: BookState,
    order: Order,
    report: ExecutionReport,
    after: BookState,
)
    requires
        laws::valid(venue, before),
        matching::in_lots(venue.matcher.spec_lot_size(), order),
        matching::submits(venue, before, order, Ok(report), after),
        after.next_arrival <= u32::MAX,
    ensures
        ({
            let named = Order { exchange_id: report.order_id, ..order };
            let waits = own_trigger(order) matches Some(trigger) && !has_reached(
                before.last_trade,
                order.side,
                trigger.minor(),
            );
            &&& report.order_id@ == types::sequence_name(before.next_seq as nat)
            &&& if waits {
                &&& report.outcome == SubmitOutcome::StopPending
                &&& report.trades@.len() == 0
                &&& report.cancelled@.len() == 0
            } else {
                keeps_to_its_terms(named, report.own())
            }
            &&& forall|k: int|
                0 <= k < report.triggered@.len() ==> {
                    &&& (#[trigger] report.triggered@[k]).triggered@.len() == 0
                    &&& reports_on_one_of(
                        if waits {
                            streams::stop_set(before).insert(named)
                        } else {
                            streams::stop_set(before)
                        },
                        report.triggered@[k].own(),
                    )
                }
        }),
{
    let id = streams::lemma_submission(venue, before, order, Ok(report), after);
    let counted = BookState { next_seq: before.next_seq + 1, ..before };
    let named = Order { exchange_id: id, ..order };
    let first = model::step(venue, counted, named);
    let reports = matching::fired(report.triggered@);
    streams::lemma_submitted(venue, before, order, id);
    laws::lemma_counted_valid(venue, before, before.next_seq + 1);
    laws::lemma_valid_stops_sound(venue, counted);
    model::lemma_step_keeps_stops_sound(venue, counted, named);
    matching::lemma_cascade_arrivals(venue, first.state);
    laws::lemma_step_valid(venue, counted, named);
    laws::lemma_step_cases(venue, counted, named);
    streams::lemma_same_stops(before, counted);
    let waits = own_trigger(order) matches Some(trigger) && !has_reached(
        before.last_trade,
        order.side,
        trigger.minor(),
    );
    assert(waits == !laws::executes_now(counted, named));
    if laws::executes_now(counted, named) {
        let active = model::activated(named);
        executions_keep_to_their_terms(venue, counted, active);
        lemma_terms_of_a_stop(named, report.own());
        model::lemma_plain_step_keeps_stops(venue, counted, active);
        streams::lemma_same_stops(counted, first.state);
    } else {
        streams::lemma_parked_stops(counted, named, named.order_type.trigger()->0);
    }
    lemma_cascade_terms(venue, first.state);
    let allowed = if waits {
        streams::stop_set(before).insert(named)
    } else {
        streams::stop_set(before)
    };
    assert forall|k: int| 0 <= k < report.triggered@.len() implies {
        &&& (#[trigger] report.triggered@[k]).triggered@.len() == 0
        &&& reports_on_one_of(allowed, report.triggered@[k].own())
    } by {
        assert(reports_on_one_of(streams::stop_set(first.state), reports[k]));
        let stop = choose|stop: Order| #[trigger]
            streams::stop_set(first.state).contains(stop) && keeps_to_its_terms(stop, reports[k]);
        assert(allowed.contains(stop));
    }
}

} // verus!
