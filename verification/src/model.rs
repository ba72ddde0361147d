//! What the book is and does, in mathematical terms. The contracts of
//! `orderbook` and `matching` speak of this, and so do the laws.

use crate::allocation;
use crate::allocation::Fill;
use crate::allocation::MatchingAlgorithm;
use crate::instrument::InstrumentSpec;
use crate::instrument::Qty;
use crate::instrument::RejectReason;
use crate::matching::SubmitOutcome;
use crate::matching::Trade;
use crate::order_queue;
use crate::orderbook::OrderBookError;
use crate::storage;
use crate::storage::StoreError;
use crate::sums;
use crate::types;
use crate::types::ExchangeId;
use crate::types::Order;
use crate::types::OrderType;
use crate::types::Price;
use crate::types::Side;
use crate::types::TimeInForce;
use vstd::prelude::*;

verus! {

/// The state of a book. Levels and waiting stops are queues of orders, oldest
/// first, by price in minor units.
#[verifier::ext_equal]
pub struct BookState {
    pub bids: Map<u64, Seq<Order>>,
    pub asks: Map<u64, Seq<Order>>,
    pub stop_bids: Map<u64, Seq<Order>>,
    pub stop_asks: Map<u64, Seq<Order>>,
    pub last_trade: Option<Price>,
    pub next_seq: int,
    pub next_arrival: int,
}

/// What does not change over the life of a book: the instrument, the prices that
/// its store can hold, and the allocation policy.
#[verifier::ext_equal]
pub struct Venue<M> {
    pub spec: InstrumentSpec,
    pub span: Set<u64>,
    pub matcher: M,
}

/// What one execution reports.
#[verifier::ext_equal]
pub struct Report {
    pub order_id: ExchangeId,
    pub trades: Seq<Trade>,
    pub outcome: SubmitOutcome,
    pub cancelled: Seq<ExchangeId>,
}

pub open spec fn opposite(side: Side) -> Side {
    match side {
        Side::Bid => Side::Ask,
        Side::Ask => Side::Bid,
    }
}

/// The parts of a book that hold orders.
pub enum Shelf {
    /// The levels of a side.
    Levels(Side),
    /// The waiting stops of a side.
    Stops(Side),
}

impl BookState {
    /// The orders of a part, by price or trigger.
    pub open spec fn on(self, shelf: Shelf) -> Map<u64, Seq<Order>> {
        match shelf {
            Shelf::Levels(side) => self.resting(side),
            Shelf::Stops(side) => self.stops(side),
        }
    }

    /// The book with other orders in a part.
    pub open spec fn with(self, shelf: Shelf, queues: Map<u64, Seq<Order>>) -> Self {
        match shelf {
            Shelf::Levels(side) => self.with_resting(side, queues),
            Shelf::Stops(side) => self.with_stops(side, queues),
        }
    }

    /// Whether a live order has this name.
    pub open spec fn has_id(self, id: Seq<char>) -> bool {
        exists|shelf: Shelf| queues_have(#[trigger] self.on(shelf), id)
    }

    /// Whether no two live orders have the same name.
    pub open spec fn names_unique(self) -> bool {
        forall|a: Shelf, p: u64, i: int, b: Shelf, q: u64, j: int, id: Seq<char>|
            #![trigger queued_at(self.on(a), id, p, i), queued_at(self.on(b), id, q, j)]
            queued_at(self.on(a), id, p, i) && queued_at(self.on(b), id, q, j) ==> a == b && p == q
                && i == j
    }

    /// A book without orders.
    pub open spec fn empty() -> Self {
        BookState {
            bids: Map::empty(),
            asks: Map::empty(),
            stop_bids: Map::empty(),
            stop_asks: Map::empty(),
            last_trade: None,
            next_seq: 1,
            next_arrival: 1,
        }
    }

    /// The levels of one side.
    pub open spec fn resting(self, side: Side) -> Map<u64, Seq<Order>> {
        match side {
            Side::Bid => self.bids,
            Side::Ask => self.asks,
        }
    }

    pub open spec fn with_resting(self, side: Side, levels: Map<u64, Seq<Order>>) -> Self {
        match side {
            Side::Bid => BookState { bids: levels, ..self },
            Side::Ask => BookState { asks: levels, ..self },
        }
    }

    /// The waiting stops of one side, by trigger.
    pub open spec fn stops(self, side: Side) -> Map<u64, Seq<Order>> {
        match side {
            Side::Bid => self.stop_bids,
            Side::Ask => self.stop_asks,
        }
    }

    pub open spec fn with_stops(self, side: Side, stops: Map<u64, Seq<Order>>) -> Self {
        match side {
            Side::Bid => BookState { stop_bids: stops, ..self },
            Side::Ask => BookState { stop_asks: stops, ..self },
        }
    }

    /// The names of the live orders.
    pub open spec fn live_names(self) -> Set<Seq<char>> {
        Set::new(|id: Seq<char>| self.has_id(id))
    }

    /// The prices of a side, best first.
    pub open spec fn ranked(self, side: Side) -> Seq<u64> {
        storage::ranked(self.resting(side).dom(), side)
    }

    /// The best price of a side.
    pub open spec fn best(self, side: Side) -> Option<u64> {
        storage::best(self.resting(side).dom(), side)
    }
}

/// Whether an order of this name is in one of the queues.
pub open spec fn queues_have(queues: Map<u64, Seq<Order>>, id: Seq<char>) -> bool {
    exists|p: u64, i: int| #[trigger] queued_at(queues, id, p, i)
}

/// Whether the order at place `i` of the queue at `p` has this name.
pub open spec fn queued_at(queues: Map<u64, Seq<Order>>, id: Seq<char>, p: u64, i: int) -> bool {
    &&& queues.contains_key(p)
    &&& 0 <= i < queues[p].len()
    &&& queues[p][i].exchange_id@ == id
}

/// Whether the order at place `i` of the queue at `p` is the oldest of this name
/// there.
pub open spec fn first_at(queues: Map<u64, Seq<Order>>, id: Seq<char>, p: u64, i: int) -> bool {
    &&& queued_at(queues, id, p, i)
    &&& forall|j: int| 0 <= j < i ==> !#[trigger] queued_at(queues, id, p, j)
}

/// A queue with an order put at its back, made where there is none.
pub open spec fn enqueued(queues: Map<u64, Seq<Order>>, p: u64, order: Order) -> Map<
    u64,
    Seq<Order>,
> {
    queues.insert(
        p,
        if queues.contains_key(p) {
            queues[p].push(order)
        } else {
            seq![order]
        },
    )
}

/// A queue with the order at place `i` taken out, dropped where it is then
/// empty.
pub open spec fn dequeued(queues: Map<u64, Seq<Order>>, p: u64, i: int) -> Map<u64, Seq<Order>> {
    if queues[p].len() == 1 {
        queues.remove(p)
    } else {
        queues.insert(p, queues[p].remove(i))
    }
}

/// Whether cancelling the order of this name takes one book to another: the order
/// is taken out of the queue that it is in.
pub open spec fn cancels(before: BookState, id: Seq<char>, after: BookState) -> bool {
    exists|shelf: Shelf, p: u64, i: int|
        #[trigger] queued_at(before.on(shelf), id, p, i) && after == before.with(
            shelf,
            dequeued(before.on(shelf), p, i),
        )
}

// ---------------------------------------------------------------- admission and resting

/// Why an instrument refuses an order, or `None`: its trigger and its limit have
/// to be in the price band, its original quantity in the quantity band, and,
/// where it has a limit, price times quantity at the notional floor or above.
pub open spec fn refusal(spec: InstrumentSpec, order: Order) -> Option<RejectReason> {
    let trigger = order.order_type.trigger();
    let limit = order.order_type.limit_price();
    if trigger is Some && spec.price_refusal(trigger->0) is Some {
        spec.price_refusal(trigger->0)
    } else if limit is Some && spec.price_refusal(limit->0) is Some {
        spec.price_refusal(limit->0)
    } else if spec.qty_refusal(order.original_quantity) is Some {
        spec.qty_refusal(order.original_quantity)
    } else if limit is Some {
        spec.notional_refusal(limit->0, order.original_quantity)
    } else {
        None
    }
}

/// Why an order cannot come to rest, or `None`.
pub open spec fn rest_error<M>(venue: Venue<M>, state: BookState, order: Order) -> Option<
    OrderBookError,
> {
    match order.order_type {
        OrderType::Limit { price, .. } => if refusal(venue.spec, order) is Some {
            Some(OrderBookError::Rejected(refusal(venue.spec, order)->0))
        } else if state.has_id(order.exchange_id@) {
            Some(OrderBookError::ExchangeIdDuplicated)
        } else if !venue.span.contains(price.minor()) {
            Some(OrderBookError::Storage(StoreError::PriceOutsideRange))
        } else {
            None
        },
        _ => Some(OrderBookError::NotRestable),
    }
}

/// The book once an order has come to rest at the back of its level, with the
/// next place in line.
pub open spec fn rested(state: BookState, order: Order) -> BookState {
    let stamped = Order { arrival: state.next_arrival as u32, ..order };
    let levels = enqueued(
        state.resting(order.side),
        order.order_type.limit_price()->0.minor(),
        stamped,
    );
    BookState {
        next_arrival: state.next_arrival + 1,
        ..state.with_resting(order.side, levels)
    }
}

// ---------------------------------------------------------------- sweeping

/// Whether a resting price is acceptable to a taker: any price to one without a
/// limit.
pub open spec fn acceptable(taker_side: Side, limit: Option<Price>, p: u64) -> bool {
    match limit {
        None => true,
        Some(limit) => match taker_side {
            Side::Bid => p <= limit.minor(),
            Side::Ask => p >= limit.minor(),
        },
    }
}

/// What is left of an order once so much of it has been filled.
pub open spec fn reduced(order: Order, by: int) -> Order {
    Order {
        remaining_quantity: allocation::qty_of(order.remaining_quantity.base() - by),
        ..order
    }
}

/// How many orders of a queue a taker comes past, where the fills leave `rest` of
/// it: all of them as long as something is left of the taker, else those up to the
/// last that it is filled against.
pub open spec fn passed(queue: Seq<Order>, fills: Seq<Fill>, rest: int) -> int {
    if rest > 0 {
        queue.len() as int
    } else if fills.len() > 0 {
        fills.last().order_index + 1
    } else {
        0
    }
}

/// What is left of a queue once the fills have been taken from it. Of the first
/// `reach` orders, those of which nothing is left are gone.
pub open spec fn after_fills(queue: Seq<Order>, fills: Seq<Fill>, reach: int) -> Seq<Order>
    decreases queue.len(),
{
    if queue.len() == 0 {
        Seq::empty()
    } else {
        let before = after_fills(queue.drop_last(), fills, reach);
        let got = allocation::allotted(fills, queue.len() - 1);
        if queue.len() <= reach && got == queue.last().remaining_quantity.base() {
            before
        } else {
            before.push(reduced(queue.last(), got))
        }
    }
}

/// What a taker leaves of a queue, where the fills leave `rest` of it: an order of
/// which nothing is left is gone once the taker has come past it.
pub open spec fn level_left(queue: Seq<Order>, fills: Seq<Fill>, rest: int) -> Seq<Order> {
    after_fills(queue, fills, passed(queue, fills, rest))
}

/// The trade of a fill.
pub open spec fn trade_of(taker: Order, maker: Order, price: Price, quantity: Qty) -> Trade {
    Trade {
        price,
        quantity,
        maker_order_id: maker.exchange_id,
        taker_order_id: taker.exchange_id,
        maker_client: maker.client_id,
        taker_client: taker.client_id,
        taker_side: taker.side,
        timestamp: taker.timestamp,
    }
}

/// The trades of the fills of one level, in queue order.
pub open spec fn trades_of(
    taker: Order,
    queue: Seq<Order>,
    price: Price,
    fills: Seq<Fill>,
) -> Seq<Trade> {
    fills.map_values(|f: Fill| trade_of(taker, queue[f.order_index as int], price, f.quantity))
}

/// The names of orders.
pub open spec fn names(orders: Seq<Order>) -> Seq<ExchangeId> {
    orders.map_values(|o: Order| o.exchange_id)
}

/// What a sweep leaves behind.
#[verifier::ext_equal]
pub struct Sweep {
    pub levels: Map<u64, Seq<Order>>,
    pub remaining: int,
    pub trades: Seq<Trade>,
    /// The orders that were cancelled, as they stood then.
    pub cancelled: Seq<Order>,
}

/// What the policy hands a taker at one level, once the taker's own orders are
/// out of the way.
pub open spec fn level_fills<M: MatchingAlgorithm>(
    matcher: M,
    queue: Seq<Order>,
    remaining: int,
    now: int,
) -> Seq<Fill> {
    matcher.allocation(
        allocation::qty_of(remaining),
        types::as_makers(queue),
        now as u128,
    )
}

/// The price of so many minor units.
pub open(crate) spec fn price_of(minor: u64) -> Price {
    Price(minor)
}

/// Walks the levels of one side, best price first, and fills the taker against
/// them as long as they are acceptable and something of it is left.
///
/// At each level the taker's own orders are cancelled; what the others hold is
/// shared out by the policy. A level that is then empty is dropped and the walk
/// goes on; otherwise the taker is full and the walk ends.
pub open spec fn sweep<M: MatchingAlgorithm>(
    matcher: M,
    levels: Map<u64, Seq<Order>>,
    taker: Order,
    limit: Option<Price>,
    remaining: int,
    now: int,
) -> Sweep
    decreases levels.dom().len(),
    when levels.dom().finite()
{
    let side = opposite(taker.side);
    let found = storage::best(levels.dom(), side);
    if remaining <= 0 || found is None || !levels.contains_key(found->0) || !acceptable(
        taker.side,
        limit,
        found->0,
    ) {
        Sweep { levels, remaining, trades: Seq::empty(), cancelled: Seq::empty() }
    } else {
        let p = found->0;
        let own = order_queue::owned(levels[p], taker.client_id@);
        let others = order_queue::not_owned(levels[p], taker.client_id@);
        let fills = level_fills(matcher, others, remaining, now);
        let rest = remaining - sums::sum(allocation::taken(fills));
        let left = level_left(others, fills, rest);
        let trades = trades_of(taker, others, price_of(p), fills);
        if left.len() == 0 {
            let next = sweep(matcher, levels.remove(p), taker, limit, rest, now);
            Sweep {
                levels: next.levels,
                remaining: next.remaining,
                trades: trades + next.trades,
                cancelled: own + next.cancelled,
            }
        } else {
            Sweep {
                levels: levels.insert(p, left),
                remaining: rest,
                trades,
                cancelled: own,
            }
        }
    }
}

/// How much a taker could be filled within its limit: what others than its own
/// client hold at acceptable prices.
pub open spec fn reachable(levels: Map<u64, Seq<Order>>, taker: Order, limit: Option<Price>) -> int
    decreases levels.dom().len(),
    when levels.dom().finite()
{
    let found = storage::best(levels.dom(), opposite(taker.side));
    if found is None || !levels.contains_key(found->0) || !acceptable(
        taker.side,
        limit,
        found->0,
    ) {
        0
    } else {
        types::total_remaining(order_queue::not_owned(levels[found->0], taker.client_id@))
            + reachable(levels.remove(found->0), taker, limit)
    }
}

// ---------------------------------------------------------------- one execution

/// The outcome of one step and the book after it.
pub struct Step<T> {
    pub result: Result<T, OrderBookError>,
    pub state: BookState,
}

/// The book after a sweep of the side opposite to the taker.
pub open spec fn swept_state(state: BookState, taker: Order, swept: Sweep) -> BookState {
    state.with_resting(opposite(taker.side), swept.levels)
}

/// The book with the price of the last of the trades noted, if there are any.
pub open spec fn noted(state: BookState, trades: Seq<Trade>) -> BookState {
    if trades.len() == 0 {
        state
    } else {
        BookState { last_trade: Some(trades.last().price), ..state }
    }
}

/// The sweep that an order makes when it executes.
pub open spec fn sweep_for<M: MatchingAlgorithm>(
    venue: Venue<M>,
    state: BookState,
    order: Order,
    limit: Option<Price>,
) -> Sweep {
    sweep(
        venue.matcher,
        state.resting(opposite(order.side)),
        order,
        limit,
        order.remaining_quantity.base() as int,
        state.next_arrival,
    )
}

/// The report of an execution that came to this.
pub open spec fn report_of(order: Order, swept: Sweep, outcome: SubmitOutcome) -> Report {
    Report {
        order_id: order.exchange_id,
        trades: swept.trades,
        outcome,
        cancelled: names(swept.cancelled),
    }
}

/// A limit order that rests or discards its remainder.
pub open spec fn limit_step<M: MatchingAlgorithm>(
    venue: Venue<M>,
    state: BookState,
    order: Order,
    limit: Price,
    tif: TimeInForce,
) -> Step<Report> {
    let swept = sweep_for(venue, state, order, Some(limit));
    let after = swept_state(state, order, swept);
    let remainder = Order { remaining_quantity: allocation::qty_of(swept.remaining), ..order };
    if swept.remaining == 0 {
        Step {
            result: Ok(report_of(order, swept, SubmitOutcome::Filled)),
            state: noted(after, swept.trades),
        }
    } else {
        match tif {
            TimeInForce::GTC => match rest_error(venue, after, remainder) {
                Some(error) => Step { result: Err(error), state: after },
                None => Step {
                    result: Ok(
                        report_of(
                            order,
                            swept,
                            if swept.trades.len() == 0 {
                                SubmitOutcome::Rested
                            } else {
                                SubmitOutcome::PartiallyFilledAndRested
                            },
                        ),
                    ),
                    state: noted(rested(after, remainder), swept.trades),
                },
            },
            TimeInForce::IOC => Step {
                result: Ok(report_of(order, swept, SubmitOutcome::Killed)),
                state: noted(after, swept.trades),
            },
            TimeInForce::FOK => Step { result: Err(OrderBookError::Unsupported), state: after },
        }
    }
}

/// A fill-or-kill order: nothing at all happens unless enough is reachable.
pub open spec fn fok_step<M: MatchingAlgorithm>(
    venue: Venue<M>,
    state: BookState,
    order: Order,
    limit: Price,
) -> Step<Report> {
    if reachable(state.resting(opposite(order.side)), order, Some(limit))
        < order.remaining_quantity.base() {
        Step {
            result: Ok(
                Report {
                    order_id: order.exchange_id,
                    trades: Seq::empty(),
                    outcome: SubmitOutcome::Killed,
                    cancelled: Seq::empty(),
                },
            ),
            state,
        }
    } else {
        let swept = sweep_for(venue, state, order, Some(limit));
        Step {
            result: Ok(report_of(order, swept, SubmitOutcome::Filled)),
            state: noted(swept_state(state, order, swept), swept.trades),
        }
    }
}

/// A market order.
pub open spec fn market_step<M: MatchingAlgorithm>(
    venue: Venue<M>,
    state: BookState,
    order: Order,
) -> Step<Report> {
    let swept = sweep_for(venue, state, order, None);
    let outcome = if swept.remaining == 0 {
        SubmitOutcome::Filled
    } else {
        SubmitOutcome::Killed
    };
    Step {
        result: Ok(report_of(order, swept, outcome)),
        state: noted(swept_state(state, order, swept), swept.trades),
    }
}

/// What a stop becomes when it fires.
pub open spec fn activated(order: Order) -> Order {
    Order {
        order_type: match order.order_type {
            OrderType::StopMarket { .. } => OrderType::Market,
            OrderType::StopLimit { price, tif, .. } => OrderType::Limit { price, tif },
            other => other,
        },
        ..order
    }
}

/// Whether the market has traded at or past the trigger of a stop: up to it for a
/// buy, down to it for a sell.
pub open spec fn triggered(last: Option<Price>, side: Side, trigger: u64) -> bool {
    match last {
        None => false,
        Some(last) => match side {
            Side::Bid => last.minor() >= trigger,
            Side::Ask => last.minor() <= trigger,
        },
    }
}

/// One execution of an order that is no stop.
pub open spec fn plain_step<M: MatchingAlgorithm>(
    venue: Venue<M>,
    state: BookState,
    order: Order,
) -> Step<Report> {
    match order.order_type {
        OrderType::Limit { price, tif } => if tif == TimeInForce::FOK {
            fok_step(venue, state, order, price)
        } else {
            limit_step(venue, state, order, price, tif)
        },
        _ => market_step(venue, state, order),
    }
}

/// A stop that has not fired, put behind those that wait for the same trigger.
pub open spec fn parked_step(state: BookState, order: Order, trigger: Price) -> Step<Report> {
    if state.has_id(order.exchange_id@) {
        Step { result: Err(OrderBookError::ExchangeIdDuplicated), state }
    } else {
        Step {
            result: Ok(
                Report {
                    order_id: order.exchange_id,
                    trades: Seq::empty(),
                    outcome: SubmitOutcome::StopPending,
                    cancelled: Seq::empty(),
                },
            ),
            state: state.with_stops(
                order.side,
                enqueued(state.stops(order.side), trigger.minor(), order),
            ),
        }
    }
}

/// One execution: a stop waits unless the market has already reached its
/// trigger.
pub open spec fn step<M: MatchingAlgorithm>(
    venue: Venue<M>,
    state: BookState,
    order: Order,
) -> Step<Report> {
    match order.order_type.trigger() {
        Some(trigger) => if triggered(state.last_trade, order.side, trigger.minor()) {
            plain_step(venue, state, activated(order))
        } else {
            parked_step(state, order, trigger)
        },
        None => plain_step(venue, state, order),
    }
}

// ---------------------------------------------------------------- the cascade

/// The trigger price whose stops fire next, with their side: the lowest buy
/// trigger that the market has reached, else the highest sell trigger.
pub open spec fn next_trigger(state: BookState) -> Option<(Side, u64)> {
    let buy = storage::best(state.stop_bids.dom(), Side::Ask);
    let sell = storage::best(state.stop_asks.dom(), Side::Bid);
    if state.last_trade is None {
        None
    } else if buy is Some && triggered(state.last_trade, Side::Bid, buy->0) {
        Some((Side::Bid, buy->0))
    } else if sell is Some && triggered(state.last_trade, Side::Ask, sell->0) {
        Some((Side::Ask, sell->0))
    } else {
        None
    }
}

/// The stop that fires next: the oldest of its trigger.
pub open spec fn next_stop(state: BookState) -> Order {
    let (side, trigger) = next_trigger(state)->0;
    state.stops(side)[trigger][0]
}

/// The book without the stop that fires next.
pub open spec fn without_next_stop(state: BookState) -> BookState {
    let (side, trigger) = next_trigger(state)->0;
    state.with_stops(side, dequeued(state.stops(side), trigger, 0))
}

/// How many orders the queues hold.
pub open spec fn queued(queues: Map<u64, Seq<Order>>) -> nat
    decreases queues.dom().len(),
    when queues.dom().finite()
{
    let found = storage::best(queues.dom(), Side::Ask);
    if found is None || !queues.contains_key(found->0) {
        0
    } else {
        queues[found->0].len() + queued(queues.remove(found->0))
    }
}

/// How many stops wait.
pub open spec fn waiting(state: BookState) -> nat {
    queued(state.stop_bids) + queued(state.stop_asks)
}

/// Whether stops wait in queues that are not empty.
pub open spec fn stops_sound(state: BookState) -> bool {
    &&& state.stop_bids.dom().finite()
    &&& state.stop_asks.dom().finite()
    &&& forall|t: u64| #[trigger]
        state.stop_bids.contains_key(t) ==> state.stop_bids[t].len() > 0
    &&& forall|t: u64| #[trigger]
        state.stop_asks.contains_key(t) ==> state.stop_asks[t].len() > 0
}

pub proof fn lemma_queued_remove(queues: Map<u64, Seq<Order>>, k: u64)
    requires
        queues.dom().finite(),
        queues.contains_key(k),
    ensures
        queued(queues) == queues[k].len() + queued(queues.remove(k)),
    decreases queues.dom().len(),
{
    assert(queues.dom().len() > 0) by {
        if queues.dom().len() == 0 {
            assert(queues.dom() =~= Set::empty());
        }
    }
    storage::lemma_best_exists(queues.dom(), Side::Ask);
    let p = storage::best(queues.dom(), Side::Ask)->0;
    if p != k {
        let rest = queues.remove(p);
        assert(rest.dom() =~= queues.dom().remove(p));
        lemma_queued_remove(rest, k);
        let without = queues.remove(k);
        assert(without.dom() =~= queues.dom().remove(k));
        assert(storage::is_best(without.dom(), Side::Ask, p));
        storage::lemma_best_unique(without.dom(), Side::Ask, p);
        assert(without.remove(p) =~= rest.remove(k));
    }
}

pub proof fn lemma_queued_insert(queues: Map<u64, Seq<Order>>, k: u64, queue: Seq<Order>)
    requires
        queues.dom().finite(),
        !queues.contains_key(k),
    ensures
        queued(queues.insert(k, queue)) == queue.len() + queued(queues),
{
    let more = queues.insert(k, queue);
    assert(more.dom() =~= queues.dom().insert(k));
    lemma_queued_remove(more, k);
    assert(more.remove(k) =~= queues);
}

/// Taking the next stop out leaves one less.
pub proof fn lemma_next_stop_taken(state: BookState)
    requires
        stops_sound(state),
        next_trigger(state) is Some,
    ensures
        waiting(without_next_stop(state)) == waiting(state) - 1,
        stops_sound(without_next_stop(state)),
        ({
            let (side, trigger) = next_trigger(state)->0;
            state.stops(side).contains_key(trigger)
        }),
{
    let (side, trigger) = next_trigger(state)->0;
    let stops = state.stops(side);
    let end = opposite(side);
    assert(stops.dom().len() > 0);
    storage::lemma_best_exists(stops.dom(), end);
    assert(stops.contains_key(trigger));
    lemma_queued_remove(stops, trigger);
    let after = dequeued(stops, trigger, 0);
    assert(stops.remove(trigger).dom() =~= stops.dom().remove(trigger));
    if stops[trigger].len() > 1 {
        assert(after =~= stops.remove(trigger).insert(trigger, stops[trigger].remove(0)));
        lemma_queued_insert(stops.remove(trigger), trigger, stops[trigger].remove(0));
    }
}

/// An order that is no stop leaves the waiting stops alone.
pub proof fn lemma_plain_step_keeps_stops<M: MatchingAlgorithm>(
    venue: Venue<M>,
    state: BookState,
    order: Order,
)
    ensures
        plain_step(venue, state, order).state.stop_bids == state.stop_bids,
        plain_step(venue, state, order).state.stop_asks == state.stop_asks,
        plain_step(venue, state, order).state.next_seq == state.next_seq,
{
}

/// A step leaves the waiting stops in queues that are not empty.
pub proof fn lemma_step_keeps_stops_sound<M: MatchingAlgorithm>(
    venue: Venue<M>,
    state: BookState,
    order: Order,
)
    requires
        stops_sound(state),
    ensures
        stops_sound(step(venue, state, order).state),
{
    match order.order_type.trigger() {
        Some(trigger) => {
            if triggered(state.last_trade, order.side, trigger.minor()) {
                lemma_plain_step_keeps_stops(venue, state, activated(order));
            } else {
                let more = enqueued(state.stops(order.side), trigger.minor(), order);
                assert(more.dom() =~= state.stops(order.side).dom().insert(trigger.minor()));
            }
        },
        None => {
            lemma_plain_step_keeps_stops(venue, state, order);
        },
    }
}

/// Fires stops, one after the other, until none is triggered.
pub open spec fn cascade<M: MatchingAlgorithm>(venue: Venue<M>, state: BookState) -> Step<
    Seq<Report>,
>
    decreases waiting(state),
    when stops_sound(state)
{
    if next_trigger(state) is None {
        Step { result: Ok(Seq::empty()), state }
    } else {
        let fired = plain_step(venue, without_next_stop(state), activated(next_stop(state)));
        proof {
            lemma_next_stop_taken(state);
            lemma_plain_step_keeps_stops(
                venue,
                without_next_stop(state),
                activated(next_stop(state)),
            );
        }
        match fired.result {
            Err(error) => Step { result: Err(error), state: fired.state },
            Ok(report) => {
                let rest = cascade(venue, fired.state);
                Step {
                    result: match rest.result {
                        Ok(reports) => Ok(seq![report] + reports),
                        Err(error) => Err(error),
                    },
                    state: rest.state,
                }
            },
        }
    }
}

/// What submitting an order does, once the exchange has named it `id`: it
/// executes, and then the stops fire that its trades set off.
pub open spec fn submitted<M: MatchingAlgorithm>(
    venue: Venue<M>,
    state: BookState,
    order: Order,
    id: ExchangeId,
) -> Step<(Report, Seq<Report>)> {
    let counted = BookState { next_seq: state.next_seq + 1, ..state };
    let first = step(venue, counted, Order { exchange_id: id, ..order });
    match first.result {
        Err(error) => Step { result: Err(error), state: first.state },
        Ok(report) => {
            let rest = cascade(venue, first.state);
            Step {
                result: match rest.result {
                    Ok(reports) => Ok((report, reports)),
                    Err(error) => Err(error),
                },
                state: rest.state,
            }
        },
    }
}

// ---------------------------------------------------------------- places in line

/// Whether a queue is in the order of arrival, and the next to arrive would be
/// last.
pub open spec fn queue_in_line(queue: Seq<Order>, next: int) -> bool {
    &&& forall|i: int, j: int|
        0 <= i < j < queue.len() ==> (#[trigger] queue[i]).arrival < (#[trigger] queue[j]).arrival
    &&& forall|i: int| 0 <= i < queue.len() ==> (#[trigger] queue[i]).arrival < next
}

/// Whether every level is in the order of arrival.
pub open spec fn in_line(state: BookState) -> bool {
    forall|side: Side, p: u64| #[trigger]
        state.resting(side).contains_key(p) ==> queue_in_line(
            state.resting(side)[p],
            state.next_arrival,
        )
}

pub proof fn lemma_rested_in_line(state: BookState, order: Order)
    requires
        in_line(state),
        0 <= state.next_arrival <= u32::MAX,
    ensures
        in_line(rested(state, order)),
{
    let after = rested(state, order);
    let stamped = Order { arrival: state.next_arrival as u32, ..order };
    assert forall|side: Side, p: u64| #[trigger]
        after.resting(side).contains_key(p) implies queue_in_line(
        after.resting(side)[p],
        after.next_arrival,
    ) by {
        let queue = after.resting(side)[p];
        if state.resting(side).contains_key(p) {
            assert(queue_in_line(state.resting(side)[p], state.next_arrival));
            if side == order.side && p == order.order_type.limit_price()->0.minor() {
                let before = state.resting(side)[p];
                assert(queue == before.push(stamped));
            }
        } else {
            assert(queue == seq![stamped]);
        }
    }
}

pub proof fn lemma_dequeued_in_line(state: BookState, side: Side, p: u64, i: int)
    requires
        in_line(state),
        state.resting(side).contains_key(p),
        0 <= i < state.resting(side)[p].len(),
    ensures
        in_line(state.with_resting(side, dequeued(state.resting(side), p, i))),
{
    let after = state.with_resting(side, dequeued(state.resting(side), p, i));
    assert forall|s: Side, q: u64| #[trigger] after.resting(s).contains_key(q) implies queue_in_line(
        after.resting(s)[q],
        after.next_arrival,
    ) by {
        assert(state.resting(s).contains_key(q));
        let before = state.resting(s)[q];
        assert(queue_in_line(before, state.next_arrival));
        if s == side && q == p {
            let queue = after.resting(s)[q];
            assert forall|a: int, b: int| 0 <= a < b < queue.len() implies (
            #[trigger] queue[a]).arrival < (#[trigger] queue[b]).arrival by {
                let c = if a < i {
                    a
                } else {
                    a + 1
                };
                let d = if b < i {
                    b
                } else {
                    b + 1
                };
                assert(queue[a] == before[c] && queue[b] == before[d]);
            }
            assert forall|a: int| 0 <= a < queue.len() implies (#[trigger] queue[a]).arrival
                < after.next_arrival by {
                assert(queue[a] == before[if a < i {
                    a
                } else {
                    a + 1
                }]);
            }
        }
    }
}

proof fn lemma_prefix_in_line(queue: Seq<Order>, next: int)
    requires
        queue_in_line(queue, next),
        queue.len() > 0,
    ensures
        queue_in_line(queue.drop_last(), queue.last().arrival as int),
{
    let rest = queue.drop_last();
    assert forall|i: int| 0 <= i < rest.len() implies (#[trigger] rest[i]).arrival
        < queue.last().arrival by {
        assert(queue[i].arrival < queue[queue.len() - 1].arrival);
    }
}

/// The others of a queue keep their order.
pub proof fn lemma_others_in_line(queue: Seq<Order>, client: Seq<char>, next: int)
    requires
        queue_in_line(queue, next),
    ensures
        queue_in_line(order_queue::not_owned(queue, client), next),
    decreases queue.len(),
{
    if queue.len() > 0 {
        lemma_prefix_in_line(queue, next);
        lemma_others_in_line(queue.drop_last(), client, queue.last().arrival as int);
        assert(queue.last() == queue[queue.len() - 1]);
    }
}

/// What the fills leave of a queue keeps its order.
pub proof fn lemma_left_in_line(queue: Seq<Order>, fills: Seq<Fill>, reach: int, next: int)
    requires
        queue_in_line(queue, next),
    ensures
        queue_in_line(after_fills(queue, fills, reach), next),
    decreases queue.len(),
{
    if queue.len() > 0 {
        lemma_prefix_in_line(queue, next);
        lemma_left_in_line(queue.drop_last(), fills, reach, queue.last().arrival as int);
        assert(queue.last() == queue[queue.len() - 1]);
    }
}

/// A queue in the order of arrival is no longer than the places handed out.
pub proof fn lemma_in_line_bounded(queue: Seq<Order>, next: int)
    requires
        queue_in_line(queue, next),
        0 <= next,
    ensures
        queue.len() <= next,
    decreases queue.len(),
{
    if queue.len() > 0 {
        lemma_prefix_in_line(queue, next);
        lemma_in_line_bounded(queue.drop_last(), queue.last().arrival as int);
        assert(queue.last() == queue[queue.len() - 1]);
    }
}

} // verus!
