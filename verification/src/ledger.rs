//! What the book holds and shows, and how single orders come in and go, in terms of
//! the four maps of queues that it consists of.

use crate::allocation::MatchingAlgorithm;
use crate::conduct;
use crate::instrument::InstrumentSpec;
use crate::instrument::RejectReason;
use crate::laws;
use crate::matching;
use crate::matching::ExecutionReport;
use crate::model;
use crate::model::BookState;
use crate::model::Shelf;
use crate::model::Venue;
use crate::orderbook::OrderBookError;
use crate::storage;
use crate::storage::OrderBookStore;
use crate::storage::StoreError;
use crate::storage::TickLadderStore;
use crate::streams;
use crate::types;
use crate::types::Order;
use crate::types::OrderType;
use crate::types::Side;
use vstd::prelude::*;

verus! {

// ---------------------------------------------------------------- what is shown

/// Readers show the best first: the best bid is the highest and the best ask the
/// lowest, a side without levels has none, and a list of a side has each of its prices
/// once, bids falling and asks rising.
pub proof fn readers_show_the_best_first(state: BookState, side: Side)
    requires
        conduct::behind(state, side).dom().finite(),
    ensures
        ({
            let levels = conduct::behind(state, side);
            let list = state.ranked(side);
            &&& match state.best(side) {
                Some(best) => {
                    &&& levels.contains_key(best)
                    &&& forall|p: u64| #[trigger]
                        levels.contains_key(p) ==> match side {
                            Side::Bid => p <= best,
                            Side::Ask => p >= best,
                        }
                },
                None => forall|p: u64| !#[trigger] levels.contains_key(p),
            }
            &&& forall|i: int| 0 <= i < list.len() ==> levels.contains_key(#[trigger] list[i])
            &&& forall|p: u64| #[trigger] levels.contains_key(p) ==> list.contains(p)
            &&& forall|i: int, j: int|
                #![trigger list[i], list[j]]
                0 <= i < j < list.len() ==> match side {
                    Side::Bid => list[i] > list[j],
                    Side::Ask => list[i] < list[j],
                }
        }),
{
    let levels = conduct::behind(state, side);
    let dom = levels.dom();
    let list = state.ranked(side);
    assert(levels == state.resting(side));
    storage::lemma_ranked(dom, side);
    if dom.len() > 0 {
        storage::lemma_best_exists(dom, side);
        let best = state.best(side)->0;
        assert forall|p: u64| #[trigger] levels.contains_key(p) implies match side {
            Side::Bid => p <= best,
            Side::Ask => p >= best,
        } by {
            assert(dom.contains(p));
        }
    } else {
        assert forall|p: u64| !#[trigger] levels.contains_key(p) by {
            assert(dom =~= Set::empty());
            assert(!dom.contains(p));
        }
    }
    assert forall|i: int| 0 <= i < list.len() implies levels.contains_key(#[trigger] list[i]) by {
        assert(list.contains(list[i]));
        assert(dom.contains(list[i]));
    }
    assert forall|p: u64| #[trigger] levels.contains_key(p) implies list.contains(p) by {
        assert(dom.contains(p));
    }
}

/// The total of a level is what is left of its orders: nothing of none, and what is
/// left of the last more than of those before it.
pub proof fn totals_add_up(orders: Seq<Order>, last: Order)
    ensures
        types::total_remaining(Seq::empty()) == 0,
        types::total_remaining(orders.push(last)) == types::total_remaining(orders)
            + last.remaining_quantity.base(),
{
    assert(types::remainders(Seq::empty()) =~= Seq::<int>::empty());
    let all = types::remainders(orders.push(last));
    assert(all.drop_last() =~= types::remainders(orders));
}

/// A name is live where an order in one of the four maps has it.
pub open spec fn is_in(queues: Map<u64, Seq<Order>>, name: Seq<char>) -> bool {
    exists|p: u64, i: int|
        #![trigger queues[p][i]]
        queues.contains_key(p) && 0 <= i < queues[p].len() && queues[p][i].exchange_id@ == name
}

proof fn lemma_is_in(queues: Map<u64, Seq<Order>>, name: Seq<char>)
    ensures
        is_in(queues, name) == model::queues_have(queues, name),
{
    if is_in(queues, name) {
        let (p, i) = choose|p: u64, i: int|
            #![trigger queues[p][i]]
            queues.contains_key(p) && 0 <= i < queues[p].len() && queues[p][i].exchange_id@
                == name;
        assert(model::queued_at(queues, name, p, i));
    }
    if model::queues_have(queues, name) {
        let (p, i) = choose|p: u64, i: int| #[trigger] model::queued_at(queues, name, p, i);
        assert(queues[p][i].exchange_id@ == name);
    }
}

/// A name is live if and only if an order that rests or waits has it.
pub proof fn live_names_are_those_of_orders(state: BookState, name: Seq<char>)
    ensures
        state.has_id(name) == (is_in(state.bids, name) || is_in(state.asks, name) || is_in(
            state.stop_bids,
            name,
        ) || is_in(state.stop_asks, name)),
{
    lemma_is_in(state.bids, name);
    lemma_is_in(state.asks, name);
    lemma_is_in(state.stop_bids, name);
    lemma_is_in(state.stop_asks, name);
    assert(state.on(Shelf::Levels(Side::Bid)) == state.bids);
    assert(state.on(Shelf::Levels(Side::Ask)) == state.asks);
    assert(state.on(Shelf::Stops(Side::Bid)) == state.stop_bids);
    assert(state.on(Shelf::Stops(Side::Ask)) == state.stop_asks);
    if state.has_id(name) {
        let shelf = choose|shelf: Shelf| model::queues_have(#[trigger] state.on(shelf), name);
        match shelf {
            Shelf::Levels(Side::Bid) => {},
            Shelf::Levels(Side::Ask) => {},
            Shelf::Stops(Side::Bid) => {},
            Shelf::Stops(Side::Ask) => {},
        }
    }
}

// ---------------------------------------------------------------- coming and going

/// Whether an order of a name has been taken out of one queue. The others of that
/// queue keep their order, and a queue that is then empty is gone.
pub open spec fn is_taken_out(
    before: Map<u64, Seq<Order>>,
    name: Seq<char>,
    after: Map<u64, Seq<Order>>,
) -> bool {
    exists|p: u64, i: int|
        #![trigger before[p][i]]
        {
            &&& before.contains_key(p)
            &&& 0 <= i < before[p].len()
            &&& before[p][i].exchange_id@ == name
            &&& forall|q: u64|
                q != p ==> (#[trigger] after.contains_key(q) == before.contains_key(q) && (
                before.contains_key(q) ==> after[q] == before[q]))
            &&& after.contains_key(p) == (before[p].len() > 1)
            &&& before[p].len() > 1 ==> after[p] == before[p].take(i) + before[p].skip(i + 1)
        }
}

proof fn lemma_dequeued_is_taken_out(
    before: Map<u64, Seq<Order>>,
    name: Seq<char>,
    p: u64,
    i: int,
)
    requires
        model::queued_at(before, name, p, i),
    ensures
        is_taken_out(before, name, model::dequeued(before, p, i)),
{
    let after = model::dequeued(before, p, i);
    assert(before[p][i].exchange_id@ == name);
    if before[p].len() > 1 {
        assert(after[p] =~= before[p].take(i) + before[p].skip(i + 1));
    }
}

/// Cancelling takes the named order out of where it rests or waits, and changes
/// nothing else.
pub proof fn cancelling_changes_one_queue(before: BookState, name: Seq<char>, after: BookState)
    requires
        model::cancels(before, name, after),
    ensures
        after.last_trade == before.last_trade,
        after.next_seq == before.next_seq,
        after.next_arrival == before.next_arrival,
        ({
            ||| is_taken_out(before.bids, name, after.bids) && after.asks == before.asks
                && after.stop_bids == before.stop_bids && after.stop_asks == before.stop_asks
            ||| is_taken_out(before.asks, name, after.asks) && after.bids == before.bids
                && after.stop_bids == before.stop_bids && after.stop_asks == before.stop_asks
            ||| is_taken_out(before.stop_bids, name, after.stop_bids) && after.bids == before.bids
                && after.asks == before.asks && after.stop_asks == before.stop_asks
            ||| is_taken_out(before.stop_asks, name, after.stop_asks) && after.bids == before.bids
                && after.asks == before.asks && after.stop_bids == before.stop_bids
        }),
{
    let (shelf, p, i) = choose|shelf: Shelf, p: u64, i: int|
        #[trigger] model::queued_at(before.on(shelf), name, p, i) && after == before.with(
            shelf,
            model::dequeued(before.on(shelf), p, i),
        );
    lemma_dequeued_is_taken_out(before.on(shelf), name, p, i);
    match shelf {
        Shelf::Levels(Side::Bid) => {},
        Shelf::Levels(Side::Ask) => {},
        Shelf::Stops(Side::Bid) => {},
        Shelf::Stops(Side::Ask) => {},
    }
}

/// An order can come to rest if and only if it is a limit order that the instrument
/// is to admit, under a name that is not live, at a price that the book can hold.
pub proof fn only_admitted_limit_orders_rest<M: MatchingAlgorithm>(
    venue: Venue<M>,
    state: BookState,
    order: Order,
)
    ensures
        match model::rest_error(venue, state, order) {
            None => {
                &&& order.order_type matches OrderType::Limit { price, .. } && venue.span.contains(
                    price.minor(),
                )
                &&& conduct::admissible(venue.spec, order)
                &&& !is_in(state.bids, order.exchange_id@)
                &&& !is_in(state.asks, order.exchange_id@)
                &&& !is_in(state.stop_bids, order.exchange_id@)
                &&& !is_in(state.stop_asks, order.exchange_id@)
            },
            Some(OrderBookError::NotRestable) => !(order.order_type is Limit),
            Some(OrderBookError::Rejected(reason)) => {
                &&& order.order_type is Limit
                &&& !conduct::admissible(venue.spec, order)
                &&& conduct::is_true_of(reason, venue.spec, order)
            },
            Some(OrderBookError::ExchangeIdDuplicated) => {
                &&& order.order_type is Limit
                &&& conduct::admissible(venue.spec, order)
                &&& is_in(state.bids, order.exchange_id@) || is_in(state.asks, order.exchange_id@)
                    || is_in(state.stop_bids, order.exchange_id@) || is_in(
                    state.stop_asks,
                    order.exchange_id@,
                )
            },
            Some(OrderBookError::Storage(error)) => {
                &&& error == StoreError::PriceOutsideRange
                &&& conduct::admissible(venue.spec, order)
                &&& !state.has_id(order.exchange_id@)
                &&& order.order_type matches OrderType::Limit { price, .. } && !venue.span.contains(
                    price.minor(),
                )
            },
            Some(_) => false,
        },
{
    conduct::lemma_refusal(venue.spec, order);
    live_names_are_those_of_orders(state, order.exchange_id@);
}

/// Prices are refused before quantities, and quantities before their product; of two
/// prices the trigger is refused before the limit.
pub proof fn prices_are_refused_first(spec: InstrumentSpec, order: Order)
    requires
        model::refusal(spec, order) is Some,
    ensures
        ({
            let trigger = conduct::own_trigger(order);
            let limit = conduct::own_limit(order);
            let trigger_passes = trigger matches Some(price) ==> conduct::in_band(spec, price);
            let limit_passes = limit matches Some(price) ==> conduct::in_band(spec, price);
            let quantity_passes = spec.min_qty().base() <= order.original_quantity.base() && (
            spec.max_qty() matches Some(max) ==> order.original_quantity.base() <= max.base());
            match model::refusal(spec, order)->0 {
                RejectReason::PriceBelowMinimum { price, .. } => if trigger_passes {
                    limit == Some(price)
                } else {
                    trigger == Some(price)
                },
                RejectReason::PriceAboveMaximum { price, .. } => if trigger_passes {
                    limit == Some(price)
                } else {
                    trigger == Some(price)
                },
                RejectReason::QuantityBelowMinimum { .. } => trigger_passes && limit_passes,
                RejectReason::QuantityAboveMaximum { .. } => trigger_passes && limit_passes,
                RejectReason::NotionalBelowMinimum { .. } => {
                    trigger_passes && limit_passes && quantity_passes
                },
            }
        }),
{
}

/// An order comes to rest last in line at its price, with the next place, and nothing
/// else changes.
pub proof fn orders_rest_last_in_line(state: BookState, order: Order)
    requires
        order.order_type is Limit,
        0 <= state.next_arrival <= u32::MAX,
    ensures
        ({
            let price = order.order_type->Limit_price.minor();
            let after = model::rested(state, order);
            let was = conduct::behind(state, order.side);
            let now = conduct::behind(after, order.side);
            let queue = if was.contains_key(price) {
                was[price]
            } else {
                Seq::empty()
            };
            &&& now.contains_key(price)
            &&& now[price].len() == queue.len() + 1
            &&& forall|i: int| 0 <= i < queue.len() ==> #[trigger] now[price][i] == queue[i]
            &&& now[price].last().arrival == state.next_arrival
            &&& now[price].last().exchange_id == order.exchange_id
            &&& now[price].last().client_id == order.client_id
            &&& now[price].last().order_type == order.order_type
            &&& now[price].last().side == order.side
            &&& now[price].last().original_quantity == order.original_quantity
            &&& now[price].last().remaining_quantity == order.remaining_quantity
            &&& now[price].last().timestamp == order.timestamp
            &&& now[price].last().lifecycle == order.lifecycle
            &&& forall|q: u64|
                q != price ==> (#[trigger] now.contains_key(q) == was.contains_key(q) && (
                was.contains_key(q) ==> now[q] == was[q]))
            &&& conduct::facing(after, order.side) == conduct::facing(state, order.side)
            &&& after.stop_bids == state.stop_bids
            &&& after.stop_asks == state.stop_asks
            &&& after.last_trade == state.last_trade
            &&& after.next_seq == state.next_seq
            &&& after.next_arrival == state.next_arrival + 1
        }),
{
}

/// A new book is empty, and counts from one.
pub proof fn a_new_book_is_empty()
    ensures
        ({
            let state = BookState::empty();
            &&& forall|p: u64| !#[trigger] state.bids.contains_key(p)
            &&& forall|p: u64| !#[trigger] state.asks.contains_key(p)
            &&& forall|p: u64| !#[trigger] state.stop_bids.contains_key(p)
            &&& forall|p: u64| !#[trigger] state.stop_asks.contains_key(p)
            &&& state.last_trade is None
            &&& state.next_seq == 1
            &&& state.next_arrival == 1
        }),
{
}

/// Names are handed out one by one: a submission that the instrument is to admit uses
/// one up, and another uses none.
pub proof fn names_are_handed_out_one_by_one<M: MatchingAlgorithm>(
    venue: Venue<M>,
    before: BookState,
    order: Order,
    result: Result<ExecutionReport, OrderBookError>,
    after: BookState,
)
    requires
        laws::valid(venue, before),
        matching::in_lots(venue.matcher.spec_lot_size(), order),
        matching::submits(venue, before, order, result, after),
        after.next_arrival <= u32::MAX,
    ensures
        after.next_seq == before.next_seq + (if conduct::admissible(venue.spec, order) {
            1int
        } else {
            0int
        }),
{
    conduct::lemma_refusal(venue.spec, order);
    if model::refusal(venue.spec, order) is None {
        let id = streams::lemma_submission(venue, before, order, result, after);
        streams::lemma_submitted(venue, before, order, id);
    }
}

// ---------------------------------------------------------------- the ladder

/// A ladder has one slot for each price of the band that is on the tick grid, and can
/// hold those prices and no others. There is none for a band without a maximum.
pub proof fn a_ladder_has_a_slot_for_each_legal_price(spec: InstrumentSpec, p: u64)
    requires
        spec.wf(),
    ensures
        ({
            let min = spec.min_price().minor();
            let tick = spec.tick_size() as int;
            match TickLadderStore::slots_needed(spec) {
                Ok(slots) => {
                    &&& spec.max_price() matches Some(max) && slots * tick > max.minor() - min
                        && (slots - 1) * tick <= max.minor() - min
                    &&& TickLadderStore::refusal(spec) is None
                    &&& TickLadderStore::spans(spec, p) <==> (exists|k: int|
                        0 <= k < slots && p == min + #[trigger] (k * tick))
                },
                Err(error) => {
                    &&& TickLadderStore::refusal(spec) == Some(error)
                    &&& error == StoreError::UnboundedPriceRange <==> spec.max_price() is None
                    &&& spec.max_price() matches Some(max) ==> {
                        &&& error == StoreError::PriceRangeTooLarge
                        &&& usize::MAX * tick <= max.minor() - min
                    }
                },
            }
        }),
{
    let min = spec.min_price().minor();
    let tick = spec.tick_size() as int;
    if let Some(max) = spec.max_price() {
        let gap = max.minor() - min;
        let steps = gap / tick;
        vstd::arithmetic::div_mod::lemma_fundamental_div_mod(gap, tick);
        vstd::arithmetic::div_mod::lemma_div_pos_is_pos(gap, tick);
        assert(steps * tick == tick * steps) by (nonlinear_arith);
        assert((steps + 1) * tick == steps * tick + tick) by (nonlinear_arith);
        if TickLadderStore::slots_needed(spec) is Err {
            assert(steps >= usize::MAX || steps >= u64::MAX);
            assert(usize::MAX * tick <= steps * tick) by (nonlinear_arith)
                requires
                    steps >= usize::MAX,
                    tick >= 1,
            ;
        } else {
            let slots = TickLadderStore::slots_needed(spec)->Ok_0;
            assert(slots == steps + 1);
            if TickLadderStore::spans(spec, p) {
                let k = (p - min) / tick;
                vstd::arithmetic::div_mod::lemma_sub_mod_noop(p as int, min as int, tick);
                vstd::arithmetic::div_mod::lemma_small_mod(0, tick as nat);
                vstd::arithmetic::div_mod::lemma_fundamental_div_mod(p - min, tick);
                vstd::arithmetic::div_mod::lemma_div_pos_is_pos(p - min, tick);
                assert(k * tick == tick * k) by (nonlinear_arith);
                assert(p == min + k * tick);
                assert(k < slots) by (nonlinear_arith)
                    requires
                        k * tick <= gap,
                        gap < (steps + 1) * tick,
                        slots == steps + 1,
                        tick >= 1,
                ;
            }
            if exists|k: int| 0 <= k < slots && p == min + #[trigger] (k * tick) {
                let k = choose|k: int| 0 <= k < slots && p == min + #[trigger] (k * tick);
                assert(0 <= k * tick <= steps * tick) by (nonlinear_arith)
                    requires
                        0 <= k <= steps,
                        tick >= 1,
                ;
                vstd::arithmetic::div_mod::lemma_mod_multiples_basic(k, tick);
                vstd::arithmetic::div_mod::lemma_add_mod_noop(min as int, k * tick, tick);
                vstd::arithmetic::div_mod::lemma_small_mod(0, tick as nat);
            }
        }
    }
}

} // verus!
