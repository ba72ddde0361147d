//! What holds of the book as a whole, whatever the policy and the store.

use crate::allocation;
use crate::allocation::Fill;
use crate::allocation::MatchingAlgorithm;
use crate::instrument::InstrumentSpec;
use crate::matching;
use crate::matching::SubmitOutcome;
use crate::matching::Trade;
use crate::model;
use crate::model::BookState;
use crate::model::Report;
use crate::model::Shelf;
use crate::model::Step;
use crate::model::Sweep;
use crate::model::Venue;
use crate::order_queue;
use crate::orderbook;
use crate::orderbook::OrderBook;
use crate::orderbook::OrderBookError;
use crate::storage;
use crate::storage::OrderBookStore;
use crate::sums;
use crate::types;
use crate::types::ExchangeId;
use crate::types::Order;
use crate::types::OrderType;
use crate::types::Price;
use crate::types::Side;
use crate::types::TimeInForce;
use vstd::prelude::*;

verus! {

// ---------------------------------------------------------------- quantities

/// What the trades moved.
pub open spec fn volume(trades: Seq<Trade>) -> int {
    sums::sum(trades.map_values(|t: Trade| t.quantity.base() as int))
}

/// What rests at all the levels together.
pub open spec fn depth(levels: Map<u64, Seq<Order>>) -> int
    decreases levels.dom().len(),
    when levels.dom().finite()
{
    let found = storage::best(levels.dom(), Side::Ask);
    if found is None || !levels.contains_key(found->0) {
        0
    } else {
        types::total_remaining(levels[found->0]) + depth(levels.remove(found->0))
    }
}

/// Whether a policy may be handed a queue: it is countable, and in whole lots
/// where the policy has a lot.
pub open spec fn queue_ok(lot: Option<u64>, queue: Seq<Order>) -> bool {
    queue.len() <= usize::MAX && matching::lots_fit_queue(lot, queue)
}

/// Whether a policy may be handed all the levels.
pub open spec fn levels_ok(lot: Option<u64>, levels: Map<u64, Seq<Order>>) -> bool {
    &&& levels.dom().finite()
    &&& forall|p: u64| #[trigger] levels.contains_key(p) ==> queue_ok(lot, levels[p])
}

/// Whether so much is whole lots, where there is a lot to keep to.
pub open spec fn amount_ok(lot: Option<u64>, amount: int) -> bool {
    &&& 0 <= amount <= u64::MAX
    &&& lot matches Some(lot) ==> lot > 0 && amount % lot as int == 0
}

proof fn lemma_volume_concat(a: Seq<Trade>, b: Seq<Trade>)
    ensures
        volume(a + b) == volume(a) + volume(b),
{
    let f = |t: Trade| t.quantity.base() as int;
    assert((a + b).map_values(f) =~= a.map_values(f) + b.map_values(f));
    sums::lemma_sum_concat(a.map_values(f), b.map_values(f));
}

proof fn lemma_total_concat(a: Seq<Order>, b: Seq<Order>)
    ensures
        types::total_remaining(a + b) == types::total_remaining(a) + types::total_remaining(b),
{
    assert(types::remainders(a + b) =~= types::remainders(a) + types::remainders(b));
    sums::lemma_sum_concat(types::remainders(a), types::remainders(b));
}

pub(crate) proof fn lemma_total_push(a: Seq<Order>, order: Order)
    ensures
        types::total_remaining(a.push(order)) == types::total_remaining(a)
            + order.remaining_quantity.base(),
{
    assert(types::remainders(a.push(order)) =~= types::remainders(a).push(
        order.remaining_quantity.base() as int,
    ));
    sums::lemma_sum_push(types::remainders(a), order.remaining_quantity.base() as int);
}

proof fn lemma_total_step(a: Seq<Order>)
    requires
        a.len() > 0,
    ensures
        types::total_remaining(a) == types::total_remaining(a.drop_last())
            + a.last().remaining_quantity.base(),
{
    lemma_total_push(a.drop_last(), a.last());
    assert(a.drop_last().push(a.last()) =~= a);
}

pub proof fn lemma_depth_remove(levels: Map<u64, Seq<Order>>, k: u64)
    requires
        levels.dom().finite(),
        levels.contains_key(k),
    ensures
        depth(levels) == types::total_remaining(levels[k]) + depth(levels.remove(k)),
    decreases levels.dom().len(),
{
    assert(levels.dom().len() > 0) by {
        if levels.dom().len() == 0 {
            assert(levels.dom() =~= Set::empty());
        }
    }
    storage::lemma_best_exists(levels.dom(), Side::Ask);
    let p = storage::best(levels.dom(), Side::Ask)->0;
    if p != k {
        let rest = levels.remove(p);
        assert(rest.dom() =~= levels.dom().remove(p));
        lemma_depth_remove(rest, k);
        let without = levels.remove(k);
        assert(without.dom() =~= levels.dom().remove(k));
        assert(storage::is_best(without.dom(), Side::Ask, p));
        storage::lemma_best_unique(without.dom(), Side::Ask, p);
        assert(without.remove(p) =~= rest.remove(k));
    }
}

pub proof fn lemma_depth_insert(levels: Map<u64, Seq<Order>>, k: u64, queue: Seq<Order>)
    requires
        levels.dom().finite(),
    ensures
        depth(levels.insert(k, queue)) == types::total_remaining(queue) + depth(levels.remove(k)),
        levels.insert(k, queue).dom().finite(),
{
    let more = levels.insert(k, queue);
    assert(more.dom() =~= levels.dom().insert(k));
    lemma_depth_remove(more, k);
    assert(more.remove(k) =~= levels.remove(k));
}

// ---------------------------------------------------------------- one level

/// What each order of a queue is given.
spec fn shares(fills: Seq<Fill>, n: nat) -> Seq<int> {
    Seq::new(n, |i: int| allocation::allotted(fills, i))
}

/// What the orders are given is what the fills take.
proof fn lemma_shares_sum(fills: Seq<Fill>, n: nat)
    requires
        forall|i: int, j: int|
            0 <= i < j < fills.len() ==> (#[trigger] fills[i]).order_index < (
            #[trigger] fills[j]).order_index,
        forall|i: int| 0 <= i < fills.len() ==> (#[trigger] fills[i]).order_index < n,
    ensures
        sums::sum(shares(fills, n)) == sums::sum(allocation::taken(fills)),
    decreases fills.len(),
{
    let got = shares(fills, n);
    if fills.len() == 0 {
        assert(allocation::taken(fills) =~= Seq::<int>::empty());
        assert forall|i: int| 0 <= i < got.len() implies got[i] == 0 by {}
        sums::lemma_sum_zero(got);
    } else {
        let rest = fills.drop_last();
        let last = fills.last();
        assert forall|i: int, j: int| 0 <= i < j < rest.len() implies (
        #[trigger] rest[i]).order_index < (#[trigger] rest[j]).order_index by {
            assert(rest[i] == fills[i] && rest[j] == fills[j]);
        }
        assert forall|i: int| 0 <= i < rest.len() implies (#[trigger] rest[i]).order_index < n by {
            assert(rest[i] == fills[i]);
        }
        lemma_shares_sum(rest, n);
        let at = last.order_index as int;
        assert(fills[fills.len() - 1].order_index < n);
        assert forall|j: int| 0 <= j < rest.len() implies (#[trigger] rest[j]).order_index < at by {
            assert(rest[j] == fills[j]);
            assert(fills[j].order_index < fills[fills.len() - 1].order_index);
        }
        matching::lemma_allotted_before(rest, at);
        assert(got =~= shares(rest, n).update(at, last.quantity.base() as int));
        sums::lemma_sum_update(shares(rest, n), at, last.quantity.base() as int);
        assert(allocation::taken(fills) =~= allocation::taken(rest).push(
            last.quantity.base() as int,
        ));
        sums::lemma_sum_push(allocation::taken(rest), last.quantity.base() as int);
    }
}

/// What the fills leave is what was there less what they take.
proof fn lemma_left_total(queue: Seq<Order>, fills: Seq<Fill>, reach: int)
    requires
        forall|i: int|
            0 <= i < queue.len() ==> 0 <= #[trigger] allocation::allotted(fills, i)
                <= queue[i].remaining_quantity.base(),
    ensures
        types::total_remaining(model::after_fills(queue, fills, reach))
            == types::total_remaining(queue) - sums::sum(shares(fills, queue.len())),
        model::after_fills(queue, fills, reach).len() <= queue.len(),
    decreases queue.len(),
{
    if queue.len() > 0 {
        let rest = queue.drop_last();
        assert forall|i: int| 0 <= i < rest.len() implies 0 <= #[trigger] allocation::allotted(
            fills,
            i,
        ) <= rest[i].remaining_quantity.base() by {
            assert(rest[i] == queue[i]);
        }
        lemma_left_total(rest, fills, reach);
        lemma_total_step(queue);
        let n = queue.len() - 1;
        let got = allocation::allotted(fills, n);
        assert(shares(fills, queue.len()) =~= shares(fills, rest.len()).push(got));
        sums::lemma_sum_push(shares(fills, rest.len()), got);
        let before = model::after_fills(rest, fills, reach);
        assert(queue.last() == queue[n]);
        lemma_total_push(before, model::reduced(queue.last(), got));
    } else {
        assert(types::remainders(model::after_fills(queue, fills, reach)) =~= Seq::<int>::empty());
        assert(types::remainders(queue) =~= Seq::<int>::empty());
        assert(shares(fills, 0) =~= Seq::<int>::empty());
    }
}

/// A queue is what a client holds in it and what the others hold.
pub(crate) proof fn lemma_parted_total(queue: Seq<Order>, client: Seq<char>)
    ensures
        types::total_remaining(queue) == types::total_remaining(order_queue::owned(queue, client))
            + types::total_remaining(order_queue::not_owned(queue, client)),
        order_queue::not_owned(queue, client).len() <= queue.len(),
    decreases queue.len(),
{
    if queue.len() > 0 {
        lemma_parted_total(queue.drop_last(), client);
        lemma_total_step(queue);
        lemma_total_push(order_queue::owned(queue.drop_last(), client), queue.last());
        lemma_total_push(order_queue::not_owned(queue.drop_last(), client), queue.last());
    } else {
        assert(types::remainders(order_queue::owned(queue, client)) =~= Seq::<int>::empty());
        assert(types::remainders(order_queue::not_owned(queue, client)) =~= Seq::<int>::empty());
        assert(types::remainders(queue) =~= Seq::<int>::empty());
    }
}

/// What a taker meets at a level, once its own orders are out of the way.
pub open spec fn met<M: MatchingAlgorithm>(
    matcher: M,
    queue: Seq<Order>,
    taker: Order,
    remaining: int,
    now: int,
) -> (Seq<Order>, Seq<Fill>) {
    let others = order_queue::not_owned(queue, taker.client_id@);
    (others, model::level_fills(matcher, others, remaining, now))
}

/// What is known of one meeting.
pub(crate) proof fn lemma_met<M: MatchingAlgorithm>(
    matcher: M,
    queue: Seq<Order>,
    taker: Order,
    price: Price,
    remaining: int,
    now: int,
)
    requires
        matcher.wf(),
        queue_ok(matcher.spec_lot_size(), queue),
        amount_ok(matcher.spec_lot_size(), remaining),
    ensures
        ({
            let (others, fills) = met(matcher, queue, taker, remaining, now);
            let took = sums::sum(allocation::taken(fills));
            let left = model::level_left(others, fills, remaining - took);
            let own = order_queue::owned(queue, taker.client_id@);
            let lot = matcher.spec_lot_size();
            &&& allocation::conforms(
                lot,
                allocation::qty_of(remaining),
                types::as_makers(others),
                fills,
            )
            &&& took == allocation::min(remaining, types::total_remaining(others))
            &&& 0 <= took
            &&& volume(model::trades_of(taker, others, price, fills)) == took
            &&& types::total_remaining(queue) == types::total_remaining(own)
                + types::total_remaining(left) + took
            &&& types::total_remaining(left) == types::total_remaining(others) - took
            &&& took < remaining ==> left.len() == 0
            &&& queue_ok(lot, left)
            &&& amount_ok(lot, remaining - took)
            &&& forall|i: int|
                0 <= i < others.len() ==> 0 <= #[trigger] allocation::allotted(fills, i)
                    <= others[i].remaining_quantity.base()
        }),
{
    let lot = matcher.spec_lot_size();
    let client = taker.client_id@;
    let (others, fills) = met(matcher, queue, taker, remaining, now);
    let makers = types::as_makers(others);
    let available = allocation::qty_of(remaining);
    lemma_parted_total(queue, client);
    matching::lemma_total_nonneg(others);
    if let Some(l) = lot {
        let d = l as int;
        assert forall|i: int| 0 <= i < queue.len() implies (
        #[trigger] queue[i]).remaining_quantity.base() as int % d == 0 by {
            assert(matching::in_lots(lot, queue[i]));
        }
        matching::lemma_not_owned_lots(queue, client, d);
        assert forall|i: int| 0 <= i < makers.len() implies (
        #[trigger] makers[i]).remaining_quantity.base() as int % d == 0 by {
            assert(others[i].remaining_quantity.base() as int % d == 0);
        }
    }
    matcher.allocation_conforms(available, makers, now as u128);
    assert(allocation::holdings(makers) =~= types::remainders(others));
    let took = allocation::taken(fills);
    assert forall|i: int| 0 <= i < took.len() implies #[trigger] took[i] >= 0 by {}
    sums::lemma_sum_nonneg(took);
    let printed = model::trades_of(taker, others, price, fills);
    assert(printed.map_values(|t: Trade| t.quantity.base() as int) =~= took);
    assert forall|i: int| 0 <= i < fills.len() implies (#[trigger] fills[i]).order_index
        < others.len() by {}
    lemma_shares_sum(fills, others.len());
    assert forall|i: int| 0 <= i < others.len() implies 0 <= #[trigger] allocation::allotted(
        fills,
        i,
    ) <= others[i].remaining_quantity.base() by {
        matching::lemma_allotted_is_a_fill(fills, i);
        if allocation::allotted(fills, i) != 0 {
            let j = choose|j: int|
                0 <= j < fills.len() && (#[trigger] fills[j]).order_index == i
                    && fills[j].quantity.base() == allocation::allotted(fills, i);
            assert(makers[i].remaining_quantity == others[i].remaining_quantity);
        }
    }
    let reach = model::passed(others, fills, remaining - sums::sum(took));
    lemma_left_total(others, fills, reach);
    if sums::sum(took) < remaining {
        lemma_left_positive(others, fills, reach);
        lemma_positive_total(model::after_fills(others, fills, reach));
    }
    if let Some(l) = lot {
        let d = l as int;
        matching::lemma_not_owned_lots(queue, client, d);
        assert(allocation::whole_lots(d, available, makers));
        assert forall|i: int| 0 <= i < took.len() implies #[trigger] took[i] % d == 0 by {
            assert(fills[i].quantity.base() as int % d == 0);
        }
        sums::lemma_sum_multiple(took, d);
        sums::lemma_multiples_add(remaining, sums::sum(took), d);
        assert forall|i: int| 0 <= i < others.len() implies {
            let got = #[trigger] allocation::allotted(fills, i);
            0 <= got <= others[i].remaining_quantity.base() && got % d == 0
        } by {
            matching::lemma_allotted_is_a_fill(fills, i);
            if allocation::allotted(fills, i) != 0 {
                let j = choose|j: int|
                    0 <= j < fills.len() && (#[trigger] fills[j]).order_index == i
                        && fills[j].quantity.base() == allocation::allotted(fills, i);
                assert(fills[j].quantity.base() as int % d == 0);
            } else {
                vstd::arithmetic::div_mod::lemma_small_mod(0, d as nat);
            }
        }
        matching::lemma_left_lots(others, fills, reach, d);
    }
}

// ---------------------------------------------------------------- a sweep

/// A sweep moves from the levels to the taker what its trades say, and takes
/// nothing else but what it cancels.
pub proof fn lemma_sweep_accounts<M: MatchingAlgorithm>(
    matcher: M,
    levels: Map<u64, Seq<Order>>,
    taker: Order,
    limit: Option<Price>,
    remaining: int,
    now: int,
)
    requires
        matcher.wf(),
        levels_ok(matcher.spec_lot_size(), levels),
        amount_ok(matcher.spec_lot_size(), remaining),
    ensures
        ({
            let swept = model::sweep(matcher, levels, taker, limit, remaining, now);
            &&& levels_ok(matcher.spec_lot_size(), swept.levels)
            &&& amount_ok(matcher.spec_lot_size(), swept.remaining)
            &&& swept.remaining <= remaining
            &&& volume(swept.trades) == remaining - swept.remaining
            &&& depth(levels) == depth(swept.levels) + volume(swept.trades)
                + types::total_remaining(swept.cancelled)
        }),
    decreases levels.dom().len(),
{
    let lot = matcher.spec_lot_size();
    let swept = model::sweep(matcher, levels, taker, limit, remaining, now);
    let found = storage::best(levels.dom(), model::opposite(taker.side));
    if remaining <= 0 || found is None || !levels.contains_key(found->0) || !model::acceptable(
        taker.side,
        limit,
        found->0,
    ) {
        assert(swept.trades.map_values(|t: Trade| t.quantity.base() as int) =~= Seq::<
            int,
        >::empty());
        assert(types::remainders(swept.cancelled) =~= Seq::<int>::empty());
    } else {
        let p = found->0;
        let queue = levels[p];
        let price = model::price_of(p);
        lemma_met(matcher, queue, taker, price, remaining, now);
        let (others, fills) = met(matcher, queue, taker, remaining, now);
        let own = order_queue::owned(queue, taker.client_id@);
        let rest = remaining - sums::sum(allocation::taken(fills));
        let left = model::level_left(others, fills, rest);
        let trades = model::trades_of(taker, others, price, fills);
        lemma_depth_remove(levels, p);
        if left.len() == 0 {
            let fewer = levels.remove(p);
            assert(fewer.dom() =~= levels.dom().remove(p));
            assert(levels_ok(lot, fewer)) by {
                assert forall|q: u64| #[trigger] fewer.contains_key(q) implies queue_ok(
                    lot,
                    fewer[q],
                ) by {
                    assert(levels.contains_key(q));
                }
            }
            lemma_sweep_accounts(matcher, fewer, taker, limit, rest, now);
            let next = model::sweep(matcher, fewer, taker, limit, rest, now);
            lemma_volume_concat(trades, next.trades);
            lemma_total_concat(own, next.cancelled);
            assert(types::remainders(left) =~= Seq::<int>::empty());
        } else {
            lemma_depth_insert(levels, p, left);
            assert(levels_ok(lot, swept.levels)) by {
                assert forall|q: u64| #[trigger] swept.levels.contains_key(q) implies queue_ok(
                    lot,
                    swept.levels[q],
                ) by {
                    if q != p {
                        assert(levels.contains_key(q));
                    }
                }
            }
        }
    }
}

/// Where the others of a queue stand in it.
pub(crate) proof fn lemma_others_places(queue: Seq<Order>, client: Seq<char>) -> (places: Seq<int>)
    ensures
        places.len() == order_queue::not_owned(queue, client).len(),
        forall|k: int|
            0 <= k < places.len() ==> {
                &&& 0 <= #[trigger] places[k] < queue.len()
                &&& queue[places[k]] == order_queue::not_owned(queue, client)[k]
                &&& queue[places[k]].client_id@ != client
            },
        forall|k: int, l: int|
            0 <= k < l < places.len() ==> #[trigger] places[k] < #[trigger] places[l],
        forall|a: int|
            0 <= a < queue.len() && (#[trigger] queue[a]).client_id@ != client ==> exists|k: int|
                0 <= k < places.len() && #[trigger] places[k] == a,
    decreases queue.len(),
{
    if queue.len() == 0 {
        Seq::empty()
    } else {
        let rest = queue.drop_last();
        let before = lemma_others_places(rest, client);
        let n = queue.len() - 1;
        assert forall|k: int| 0 <= k < before.len() implies 0 <= #[trigger] before[k] < n
            && rest[before[k]] == queue[before[k]] by {}
        let places = if queue.last().client_id@ != client {
            before.push(n)
        } else {
            before
        };
        assert forall|a: int|
            0 <= a < queue.len() && (#[trigger] queue[a]).client_id@ != client implies exists|k: int|
            0 <= k < places.len() && #[trigger] places[k] == a by {
            if a < n {
                assert(rest[a] == queue[a]);
                let k = choose|k: int| 0 <= k < before.len() && #[trigger] before[k] == a;
                assert(places[k] == a);
            } else {
                assert(places[before.len() as int] == a);
            }
        }
        places
    }
}

/// Whether a trade is between the taker and the order at place `k` of its level,
/// which is not the taker's own, at that order's price and within the taker's
/// limit.
pub open spec fn fair_trade(
    levels: Map<u64, Seq<Order>>,
    taker: Order,
    limit: Option<Price>,
    trade: Trade,
    k: int,
) -> bool {
    let p = trade.price.minor();
    let maker = levels[p][k];
    &&& levels.contains_key(p)
    &&& 0 <= k < levels[p].len()
    &&& trade.maker_order_id == maker.exchange_id
    &&& trade.maker_client == maker.client_id
    &&& trade.taker_order_id == taker.exchange_id
    &&& trade.taker_client == taker.client_id
    &&& trade.taker_side == taker.side
    &&& trade.timestamp == taker.timestamp
    &&& maker.client_id@ != taker.client_id@
    &&& 0 < trade.quantity.base() <= maker.remaining_quantity.base()
    &&& limit matches Some(limit) ==> match taker.side {
        Side::Bid => p <= limit.minor(),
        Side::Ask => limit.minor() <= p,
    }
}

/// Whether trades go from better prices to worse, and at one price from older
/// orders to younger.
pub open spec fn in_priority(side: Side, trades: Seq<Trade>, places: Seq<int>) -> bool {
    forall|i: int, j: int|
        #![trigger trades[i], trades[j]]
        0 <= i < j < trades.len() ==> {
            &&& match side {
                Side::Bid => trades[i].price.minor() >= trades[j].price.minor(),
                Side::Ask => trades[i].price.minor() <= trades[j].price.minor(),
            }
            &&& trades[i].price == trades[j].price ==> places[i] < places[j]
        }
}

/// The trades of a sweep are fair and in priority.
pub(crate) proof fn lemma_sweep_trades<M: MatchingAlgorithm>(
    matcher: M,
    levels: Map<u64, Seq<Order>>,
    taker: Order,
    limit: Option<Price>,
    remaining: int,
    now: int,
) -> (places: Seq<int>)
    requires
        matcher.wf(),
        levels_ok(matcher.spec_lot_size(), levels),
        amount_ok(matcher.spec_lot_size(), remaining),
    ensures
        ({
            let swept = model::sweep(matcher, levels, taker, limit, remaining, now);
            &&& places.len() == swept.trades.len()
            &&& forall|i: int|
                0 <= i < swept.trades.len() ==> fair_trade(
                    levels,
                    taker,
                    limit,
                    #[trigger] swept.trades[i],
                    places[i],
                )
            &&& in_priority(model::opposite(taker.side), swept.trades, places)
        }),
    decreases levels.dom().len(),
{
    let lot = matcher.spec_lot_size();
    let side = model::opposite(taker.side);
    let swept = model::sweep(matcher, levels, taker, limit, remaining, now);
    let found = storage::best(levels.dom(), side);
    if remaining <= 0 || found is None || !levels.contains_key(found->0) || !model::acceptable(
        taker.side,
        limit,
        found->0,
    ) {
        Seq::empty()
    } else {
        let p = found->0;
        let queue = levels[p];
        let price = model::price_of(p);
        storage::lemma_best_exists(levels.dom(), side);
        lemma_met(matcher, queue, taker, price, remaining, now);
        let (others, fills) = met(matcher, queue, taker, remaining, now);
        let rest = remaining - sums::sum(allocation::taken(fills));
        let left = model::level_left(others, fills, rest);
        let trades = model::trades_of(taker, others, price, fills);
        let seats = lemma_others_places(queue, taker.client_id@);
        let here = Seq::new(fills.len(), |i: int| seats[fills[i].order_index as int]);
        assert forall|i: int| 0 <= i < trades.len() implies fair_trade(
            levels,
            taker,
            limit,
            #[trigger] trades[i],
            here[i],
        ) && trades[i].price == price by {
            let k = fills[i].order_index as int;
            assert(types::as_makers(others)[k].remaining_quantity
                == others[k].remaining_quantity);
            assert(queue[seats[k]] == others[k]);
        }
        assert(in_priority(side, trades, here)) by {
            assert forall|i: int, j: int|
                #![trigger trades[i], trades[j]]
                0 <= i < j < trades.len() implies storage::no_worse(
                side,
                trades[i].price.minor(),
                trades[j].price.minor(),
            ) && here[i] < here[j] by {
                assert(fills[i].order_index < fills[j].order_index);
                assert(trades[i].price == price && trades[j].price == price);
                assert(seats[fills[i].order_index as int] < seats[fills[j].order_index as int]);
            }
        }
        if left.len() == 0 {
            let fewer = levels.remove(p);
            assert(fewer.dom() =~= levels.dom().remove(p));
            assert(levels_ok(lot, fewer)) by {
                assert forall|q: u64| #[trigger] fewer.contains_key(q) implies queue_ok(
                    lot,
                    fewer[q],
                ) by {
                    assert(levels.contains_key(q));
                }
            }
            let there = lemma_sweep_trades(matcher, fewer, taker, limit, rest, now);
            let next = model::sweep(matcher, fewer, taker, limit, rest, now);
            let places = here + there;
            let all = trades + next.trades;
            assert(swept.trades == all);
            let n = trades.len();
            assert forall|i: int| 0 <= i < all.len() implies fair_trade(
                levels,
                taker,
                limit,
                #[trigger] all[i],
                places[i],
            ) && (i >= n ==> fewer.contains_key(all[i].price.minor())) by {
                if i < n {
                    assert(all[i] == trades[i]);
                } else {
                    assert(all[i] == next.trades[i - n]);
                    assert(fair_trade(fewer, taker, limit, next.trades[i - n], there[i - n]));
                }
            }
            assert forall|i: int, j: int|
                #![trigger all[i], all[j]]
                0 <= i < j < all.len() implies {
                &&& storage::no_worse(side, all[i].price.minor(), all[j].price.minor())
                &&& all[i].price == all[j].price ==> places[i] < places[j]
            } by {
                if j < n {
                    assert(all[i] == trades[i] && all[j] == trades[j]);
                } else if i >= n {
                    assert(all[i] == next.trades[i - n] && all[j] == next.trades[j - n]);
                    assert(places[i] == there[i - n] && places[j] == there[j - n]);
                } else {
                    assert(all[i] == trades[i]);
                    assert(all[i].price.minor() == p);
                    assert(fewer.contains_key(all[j].price.minor()));
                    assert(levels.dom().contains(all[j].price.minor()));
                }
            }
            places
        } else {
            here
        }
    }
}

// ---------------------------------------------------------------- nothing left to cross

/// Whether something is left of every order.
pub open spec fn queues_positive(queues: Map<u64, Seq<Order>>) -> bool {
    forall|p: u64, i: int| #[trigger]
        orderbook::placed(queues, p, i) ==> queues[p][i].remaining_quantity.base() > 0
}

/// What the fills leave of a queue are orders of which something is left, if they
/// leave something of those that the taker does not come past.
pub(crate) proof fn lemma_left_positive(queue: Seq<Order>, fills: Seq<Fill>, reach: int)
    requires
        0 <= reach,
        forall|i: int|
            0 <= i < queue.len() ==> 0 <= #[trigger] allocation::allotted(fills, i)
                <= queue[i].remaining_quantity.base(),
        forall|i: int|
            reach <= i < queue.len() ==> #[trigger] allocation::allotted(fills, i)
                < queue[i].remaining_quantity.base(),
    ensures
        forall|i: int|
            0 <= i < model::after_fills(queue, fills, reach).len() ==> (
            #[trigger] model::after_fills(queue, fills, reach)[i]).remaining_quantity.base() > 0,
    decreases queue.len(),
{
    if queue.len() > 0 {
        let rest = queue.drop_last();
        assert forall|i: int| 0 <= i < rest.len() implies 0 <= #[trigger] allocation::allotted(
            fills,
            i,
        ) <= rest[i].remaining_quantity.base() by {
            assert(rest[i] == queue[i]);
        }
        assert forall|i: int| reach <= i < rest.len() implies #[trigger] allocation::allotted(
            fills,
            i,
        ) < rest[i].remaining_quantity.base() by {
            assert(rest[i] == queue[i]);
        }
        lemma_left_positive(rest, fills, reach);
        let n = queue.len() - 1;
        assert(queue.last() == queue[n]);
        assert(allocation::allotted(fills, n) <= queue[n].remaining_quantity.base());
    }
}

/// Where something is left of every order of a queue, something is left of every
/// order that a taker leaves there.
pub(crate) proof fn lemma_level_positive(queue: Seq<Order>, fills: Seq<Fill>, rest: int)
    requires
        forall|i: int, j: int|
            0 <= i < j < fills.len() ==> (#[trigger] fills[i]).order_index < (
            #[trigger] fills[j]).order_index,
        forall|i: int|
            0 <= i < queue.len() ==> 0 <= #[trigger] allocation::allotted(fills, i)
                <= queue[i].remaining_quantity.base(),
        forall|i: int|
            0 <= i < queue.len() ==> (#[trigger] queue[i]).remaining_quantity.base() > 0,
    ensures
        forall|i: int|
            0 <= i < model::level_left(queue, fills, rest).len() ==> (
            #[trigger] model::level_left(queue, fills, rest)[i]).remaining_quantity.base() > 0,
{
    let reach = model::passed(queue, fills, rest);
    assert forall|i: int| reach <= i < queue.len() implies #[trigger] allocation::allotted(
        fills,
        i,
    ) < queue[i].remaining_quantity.base() by {
        assert forall|j: int| 0 <= j < fills.len() implies (#[trigger] fills[j]).order_index
            < i by {
            assert(fills[fills.len() - 1] == fills.last());
            if j < fills.len() - 1 {
                assert(fills[j].order_index < fills[fills.len() - 1].order_index);
            }
        }
        matching::lemma_allotted_before(fills, i);
        assert(queue[i].remaining_quantity.base() > 0);
    }
    lemma_left_positive(queue, fills, reach);
}

/// A queue of orders with something left of each, of which nothing is left in
/// all, is empty.
pub(crate) proof fn lemma_positive_total(queue: Seq<Order>)
    requires
        forall|i: int|
            0 <= i < queue.len() ==> (#[trigger] queue[i]).remaining_quantity.base() > 0,
    ensures
        queue.len() > 0 ==> types::total_remaining(queue) > 0,
{
    if queue.len() > 0 {
        lemma_total_step(queue);
        matching::lemma_total_nonneg(queue.drop_last());
        assert(queue.last() == queue[queue.len() - 1]);
    }
}

/// A sweep that leaves something of the taker leaves no price that the taker
/// would have taken, and what it leaves of the taker is what it could not reach.
pub(crate) proof fn lemma_sweep_exhausts<M: MatchingAlgorithm>(
    matcher: M,
    levels: Map<u64, Seq<Order>>,
    taker: Order,
    limit: Option<Price>,
    remaining: int,
    now: int,
)
    requires
        matcher.wf(),
        levels_ok(matcher.spec_lot_size(), levels),
        amount_ok(matcher.spec_lot_size(), remaining),
    ensures
        ({
            let swept = model::sweep(matcher, levels, taker, limit, remaining, now);
            &&& queues_positive(levels) ==> queues_positive(swept.levels)
            &&& forall|q: u64| #[trigger]
                swept.levels.contains_key(q) ==> levels.contains_key(q)
            &&& swept.remaining > 0 ==> forall|q: u64| #[trigger]
                swept.levels.contains_key(q) ==> !model::acceptable(taker.side, limit, q)
            &&& swept.remaining == allocation::max(
                0,
                remaining - model::reachable(levels, taker, limit),
            )
        }),
    decreases levels.dom().len(),
{
    let lot = matcher.spec_lot_size();
    let side = model::opposite(taker.side);
    let swept = model::sweep(matcher, levels, taker, limit, remaining, now);
    let found = storage::best(levels.dom(), side);
    matching::lemma_reachable_nonneg(levels, taker, limit);
    if levels.dom().len() > 0 {
        storage::lemma_best_exists(levels.dom(), side);
    }
    if remaining <= 0 {
    } else if found is None {
        assert forall|q: u64| !levels.contains_key(q) by {
            assert(levels.dom().len() == 0);
            assert(levels.dom() =~= Set::empty());
            assert(!levels.dom().contains(q));
        }
    } else if !model::acceptable(taker.side, limit, found->0) {
        assert forall|q: u64| #[trigger] levels.contains_key(q) implies !model::acceptable(
            taker.side,
            limit,
            q,
        ) by {
            assert(levels.dom().contains(q));
        }
    } else {
        let p = found->0;
        let queue = levels[p];
        lemma_met(matcher, queue, taker, model::price_of(p), remaining, now);
        let (others, fills) = met(matcher, queue, taker, remaining, now);
        let rest = remaining - sums::sum(allocation::taken(fills));
        let left = model::level_left(others, fills, rest);
        let fewer = levels.remove(p);
        assert(fewer.dom() =~= levels.dom().remove(p));
        matching::lemma_reachable_nonneg(fewer, taker, limit);
        if left.len() == 0 {
            assert(types::remainders(left) =~= Seq::<int>::empty());
            assert(levels_ok(lot, fewer)) by {
                assert forall|q: u64| #[trigger] fewer.contains_key(q) implies queue_ok(
                    lot,
                    fewer[q],
                ) by {
                    assert(levels.contains_key(q));
                }
            }
            assert(queues_positive(levels) ==> queues_positive(fewer)) by {
                assert forall|q: u64, i: int| queues_positive(levels)
                    && #[trigger] orderbook::placed(fewer, q, i) implies fewer[q][i].remaining_quantity.base()
                    > 0 by {
                    assert(orderbook::placed(levels, q, i));
                }
            }
            lemma_sweep_exhausts(matcher, fewer, taker, limit, rest, now);
        } else {
            assert(rest == 0);
            assert(queues_positive(levels) ==> queues_positive(swept.levels)) by {
                if queues_positive(levels) {
                    let seats = lemma_others_places(queue, taker.client_id@);
                    assert forall|i: int| 0 <= i < others.len() implies (
                    #[trigger] others[i]).remaining_quantity.base() > 0 by {
                        assert(queue[seats[i]] == others[i]);
                        assert(orderbook::placed(levels, p, seats[i]));
                    }
                    lemma_level_positive(others, fills, rest);
                }
                assert forall|q: u64, i: int| queues_positive(levels) && #[trigger]
                    orderbook::placed(swept.levels, q, i) implies swept.levels[q][i].remaining_quantity.base()
                    > 0 by {
                    if q != p {
                        assert(orderbook::placed(levels, q, i));
                    } else {
                        assert(swept.levels[q][i] == left[i]);
                    }
                }
            }
        }
    }
}

// ---------------------------------------------------------------- valid books

/// Whether levels are of a side: finite in number, none empty, each in the order
/// of arrival and of orders that belong there.
pub open spec fn side_sound(levels: Map<u64, Seq<Order>>, side: Side, next: int) -> bool {
    &&& levels.dom().finite()
    &&& forall|p: u64| #[trigger]
        levels.contains_key(p) ==> levels[p].len() > 0 && model::queue_in_line(levels[p], next)
    &&& forall|p: u64, i: int| #[trigger]
        orderbook::placed(levels, p, i) ==> storage::at_home(levels[p][i], side, p)
}

/// Whether stops are of a side: finite in number, no queue empty, each of stops
/// that belong there and in whole lots, where there is a lot to keep to.
pub open spec fn stops_valid(lot: Option<u64>, stops: Map<u64, Seq<Order>>, side: Side) -> bool {
    &&& stops.dom().finite()
    &&& forall|t: u64| #[trigger] stops.contains_key(t) ==> stops[t].len() > 0
    &&& forall|t: u64, i: int| #[trigger]
        orderbook::placed(stops, t, i) ==> {
            &&& orderbook::waits_at(stops[t][i], side, t)
            &&& matching::in_lots(lot, stops[t][i])
        }
}

/// What every book is, whatever has been done to it.
pub open spec fn valid<M: MatchingAlgorithm>(venue: Venue<M>, state: BookState) -> bool {
    let lot = venue.matcher.spec_lot_size();
    &&& venue.spec.wf()
    &&& venue.matcher.wf()
    &&& lot matches Some(lot) ==> lot == venue.spec.lot_size()
    &&& 1 <= state.next_arrival <= u32::MAX
    &&& forall|side: Side| #[trigger] side_valid(lot, state, side)
}

/// What every book is on one side.
pub open spec fn side_valid(lot: Option<u64>, state: BookState, side: Side) -> bool {
    &&& levels_ok(lot, state.resting(side))
    &&& side_sound(state.resting(side), side, state.next_arrival)
    &&& stops_valid(lot, state.stops(side), side)
}

/// Every book is valid.
pub proof fn every_book_is_valid<M: MatchingAlgorithm, S: OrderBookStore>(book: OrderBook<M, S>)
    requires
        book.wf(),
    ensures
        valid(book.venue(), book.state()),
{
    let lot = book.matcher.spec_lot_size();
    let state = book.state();
    assert forall|side: Side| #[trigger] side_valid(lot, state, side) by {
        let held = book.store.levels_on(side);
        let levels = state.resting(side);
        book.lemma_prices(side);
        assert(storage::levels_sound(held, book.nodes@, side));
        assert(levels == storage::orders_on(held, book.nodes@));
        assert forall|p: u64| #[trigger] levels.contains_key(p) implies levels[p].len() > 0
            && model::queue_in_line(levels[p], state.next_arrival) && queue_ok(lot, levels[p]) by {
            assert(held.contains_key(p));
            let queue = held[p].queue;
            assert(queue.chain(book.nodes@, queue.keys(book.nodes@)));
            book.lemma_level_lots(side, p);
        }
        assert forall|p: u64, i: int| #[trigger] orderbook::placed(levels, p, i) implies storage::at_home(
            levels[p][i],
            side,
            p,
        ) by {
            assert(held.contains_key(p));
            let keys = held[p].queue.keys(book.nodes@);
            assert(keys.contains(keys[i]));
        }
        let stops = state.stops(side);
        assert(stops == book.stops_on(side));
        assert forall|t: u64, i: int| #[trigger] orderbook::placed(stops, t, i) implies orderbook::waits_at(
            stops[t][i],
            side,
            t,
        ) && matching::in_lots(lot, stops[t][i]) by {
            assert(orderbook::placed(book.stops_on(side), t, i));
        }
    }
}

/// What a queue loses to a taker, it loses without a change to the rest.
proof fn lemma_left_at_home(
    queue: Seq<Order>,
    fills: Seq<Fill>,
    reach: int,
    side: Side,
    p: u64,
)
    requires
        forall|i: int| 0 <= i < queue.len() ==> storage::at_home(#[trigger] queue[i], side, p),
    ensures
        forall|i: int|
            0 <= i < model::after_fills(queue, fills, reach).len() ==> storage::at_home(
                #[trigger] model::after_fills(queue, fills, reach)[i],
                side,
                p,
            ),
    decreases queue.len(),
{
    if queue.len() > 0 {
        let rest = queue.drop_last();
        assert forall|i: int| 0 <= i < rest.len() implies storage::at_home(
            #[trigger] rest[i],
            side,
            p,
        ) by {
            assert(rest[i] == queue[i]);
        }
        lemma_left_at_home(rest, fills, reach, side, p);
        assert(storage::at_home(queue[queue.len() - 1], side, p));
        let before = model::after_fills(rest, fills, reach);
        let left = model::after_fills(queue, fills, reach);
        let got = allocation::allotted(fills, queue.len() - 1);
        assert(storage::at_home(model::reduced(queue.last(), got), side, p));
        assert forall|i: int| 0 <= i < left.len() implies storage::at_home(
            #[trigger] left[i],
            side,
            p,
        ) by {
            if i < before.len() {
                assert(left[i] == before[i]);
            }
        }
    }
}

/// A sweep leaves levels that are sound.
proof fn lemma_sweep_sound<M: MatchingAlgorithm>(
    matcher: M,
    levels: Map<u64, Seq<Order>>,
    taker: Order,
    limit: Option<Price>,
    remaining: int,
    now: int,
    next: int,
)
    requires
        side_sound(levels, model::opposite(taker.side), next),
    ensures
        ({
            let swept = model::sweep(matcher, levels, taker, limit, remaining, now);
            &&& side_sound(swept.levels, model::opposite(taker.side), next)
            &&& forall|q: u64| #[trigger]
                swept.levels.contains_key(q) ==> levels.contains_key(q)
        }),
    decreases levels.dom().len(),
{
    let side = model::opposite(taker.side);
    let swept = model::sweep(matcher, levels, taker, limit, remaining, now);
    let found = storage::best(levels.dom(), side);
    if !(remaining <= 0 || found is None || !levels.contains_key(found->0) || !model::acceptable(
        taker.side,
        limit,
        found->0,
    )) {
        let p = found->0;
        let queue = levels[p];
        let (others, fills) = met(matcher, queue, taker, remaining, now);
        let rest = remaining - sums::sum(allocation::taken(fills));
        let left = model::level_left(others, fills, rest);
        if left.len() == 0 {
            let fewer = levels.remove(p);
            assert(fewer.dom() =~= levels.dom().remove(p));
            assert(side_sound(fewer, side, next)) by {
                assert forall|q: u64| #[trigger] fewer.contains_key(q) implies levels.contains_key(
                    q,
                ) by {}
                assert forall|q: u64, i: int| #[trigger] orderbook::placed(fewer, q, i) implies storage::at_home(
                    fewer[q][i],
                    side,
                    q,
                ) by {
                    assert(orderbook::placed(levels, q, i));
                }
            }
            lemma_sweep_sound(matcher, fewer, taker, limit, rest, now, next);
        } else {
            model::lemma_others_in_line(queue, taker.client_id@, next);
            let reach = model::passed(others, fills, rest);
            model::lemma_left_in_line(others, fills, reach, next);
            let seats = lemma_others_places(queue, taker.client_id@);
            assert forall|i: int| 0 <= i < others.len() implies storage::at_home(
                #[trigger] others[i],
                side,
                p,
            ) by {
                assert(queue[seats[i]] == others[i]);
                assert(orderbook::placed(levels, p, seats[i]));
            }
            lemma_left_at_home(others, fills, reach, side, p);
            assert(swept.levels.dom() =~= levels.dom());
            assert forall|q: u64| #[trigger] swept.levels.contains_key(q) implies swept.levels[q].len()
                > 0 && model::queue_in_line(swept.levels[q], next) by {
                if q != p {
                    assert(levels.contains_key(q));
                }
            }
            assert forall|q: u64, i: int| #[trigger] orderbook::placed(swept.levels, q, i) implies storage::at_home(
                swept.levels[q][i],
                side,
                q,
            ) by {
                if q != p {
                    assert(orderbook::placed(levels, q, i));
                } else {
                    assert(swept.levels[q][i] == left[i]);
                }
            }
        }
    }
}

/// The book after a sweep of the side opposite to the taker is valid.
proof fn lemma_swept_valid<M: MatchingAlgorithm>(
    venue: Venue<M>,
    state: BookState,
    order: Order,
    limit: Option<Price>,
)
    requires
        valid(venue, state),
        matching::in_lots(venue.matcher.spec_lot_size(), order),
    ensures
        ({
            let swept = model::sweep_for(venue, state, order, limit);
            &&& valid(venue, model::swept_state(state, order, swept))
            &&& amount_ok(venue.matcher.spec_lot_size(), swept.remaining)
            &&& swept.remaining <= order.remaining_quantity.base()
            &&& volume(swept.trades) == order.remaining_quantity.base() - swept.remaining
        }),
{
    let lot = venue.matcher.spec_lot_size();
    let side = model::opposite(order.side);
    let levels = state.resting(side);
    let swept = model::sweep_for(venue, state, order, limit);
    let after = model::swept_state(state, order, swept);
    assert(side_valid(lot, state, side));
    lemma_sweep_accounts(
        venue.matcher,
        levels,
        order,
        limit,
        order.remaining_quantity.base() as int,
        state.next_arrival,
    );
    lemma_sweep_sound(
        venue.matcher,
        levels,
        order,
        limit,
        order.remaining_quantity.base() as int,
        state.next_arrival,
        state.next_arrival,
    );
    assert forall|s: Side| #[trigger] side_valid(lot, after, s) by {
        assert(side_valid(lot, state, s));
    }
}

/// The book once an order has come to rest is valid.
proof fn lemma_rested_valid<M: MatchingAlgorithm>(
    venue: Venue<M>,
    state: BookState,
    order: Order,
)
    requires
        valid(venue, state),
        order.order_type is Limit,
        matching::in_lots(venue.matcher.spec_lot_size(), order),
        state.next_arrival < u32::MAX,
    ensures
        valid(venue, model::rested(state, order)),
{
    let lot = venue.matcher.spec_lot_size();
    let after = model::rested(state, order);
    let p0 = order.order_type.limit_price()->0.minor();
    let stamped = Order { arrival: state.next_arrival as u32, ..order };
    assert(model::in_line(state)) by {
        assert forall|s: Side, p: u64| #[trigger] state.resting(s).contains_key(p) implies model::queue_in_line(
            state.resting(s)[p],
            state.next_arrival,
        ) by {
            assert(side_valid(lot, state, s));
        }
    }
    model::lemma_rested_in_line(state, order);
    assert forall|s: Side| #[trigger] side_valid(lot, after, s) by {
        assert(side_valid(lot, state, s));
        let before = state.resting(s);
        let levels = after.resting(s);
        if s == order.side {
            assert(levels.dom() =~= before.dom().insert(p0));
        }
        assert forall|p: u64| #[trigger] levels.contains_key(p) implies levels[p].len() > 0
            && model::queue_in_line(levels[p], after.next_arrival) && queue_ok(lot, levels[p]) by {
            model::lemma_in_line_bounded(levels[p], after.next_arrival);
            assert(matching::in_lots(lot, stamped));
            if before.contains_key(p) {
                assert(queue_ok(lot, before[p]));
            }
        }
        assert forall|p: u64, i: int| #[trigger] orderbook::placed(levels, p, i) implies storage::at_home(
            levels[p][i],
            s,
            p,
        ) by {
            if orderbook::placed(before, p, i) {
                assert(levels[p][i] == before[p][i]);
            } else {
                assert(levels[p][i] == stamped);
            }
        }
    }
}

proof fn lemma_noted_valid<M: MatchingAlgorithm>(
    venue: Venue<M>,
    state: BookState,
    trades: Seq<Trade>,
)
    requires
        valid(venue, state),
    ensures
        valid(venue, model::noted(state, trades)),
{
    let lot = venue.matcher.spec_lot_size();
    let after = model::noted(state, trades);
    assert forall|s: Side| #[trigger] side_valid(lot, after, s) by {
        assert(side_valid(lot, state, s));
    }
}

/// An execution leaves a valid book valid.
pub proof fn executing_keeps_a_book_valid<M: MatchingAlgorithm>(
    venue: Venue<M>,
    state: BookState,
    order: Order,
)
    requires
        valid(venue, state),
        order.order_type.trigger() is None,
        matching::in_lots(venue.matcher.spec_lot_size(), order),
        model::plain_step(venue, state, order).state.next_arrival <= u32::MAX,
    ensures
        valid(venue, model::plain_step(venue, state, order).state),
{
    match order.order_type {
        OrderType::Limit { price, tif } => {
            lemma_swept_valid(venue, state, order, Some(price));
            let swept = model::sweep_for(venue, state, order, Some(price));
            let after = model::swept_state(state, order, swept);
            lemma_noted_valid(venue, after, swept.trades);
            if tif == TimeInForce::GTC && swept.remaining != 0 {
                let remainder = Order {
                    remaining_quantity: allocation::qty_of(swept.remaining),
                    ..order
                };
                if model::rest_error(venue, after, remainder) is None {
                    assert(remainder.remaining_quantity.base() == swept.remaining);
                    lemma_rested_valid(venue, after, remainder);
                    lemma_noted_valid(venue, model::rested(after, remainder), swept.trades);
                }
            }
        },
        _ => {
            lemma_swept_valid(venue, state, order, None);
            let swept = model::sweep_for(venue, state, order, None);
            lemma_noted_valid(
                venue,
                model::swept_state(state, order, swept),
                swept.trades,
            );
        },
    }
}

/// A stop that is parked leaves a valid book valid.
pub proof fn parking_keeps_a_book_valid<M: MatchingAlgorithm>(
    venue: Venue<M>,
    state: BookState,
    order: Order,
    trigger: Price,
)
    requires
        valid(venue, state),
        order.order_type.trigger() == Some(trigger),
        matching::in_lots(venue.matcher.spec_lot_size(), order),
    ensures
        valid(venue, model::parked_step(state, order, trigger).state),
{
    let lot = venue.matcher.spec_lot_size();
    let after = model::parked_step(state, order, trigger).state;
    assert forall|s: Side| #[trigger] side_valid(lot, after, s) by {
        assert(side_valid(lot, state, s));
        let before = state.stops(s);
        let stops = after.stops(s);
        if s == order.side && !state.has_id(order.exchange_id@) {
            assert(stops.dom() =~= before.dom().insert(trigger.minor()));
            assert forall|t: u64, i: int| #[trigger] orderbook::placed(stops, t, i) implies orderbook::waits_at(
                stops[t][i],
                s,
                t,
            ) && matching::in_lots(lot, stops[t][i]) by {
                if orderbook::placed(before, t, i) {
                    assert(stops[t][i] == before[t][i]);
                } else {
                    assert(stops[t][i] == order);
                }
            }
        }
    }
}

/// Taking the stop that fires next out leaves a valid book valid, and the stop
/// can be executed.
pub(crate) proof fn lemma_next_stop_valid<M: MatchingAlgorithm>(venue: Venue<M>, state: BookState)
    requires
        valid(venue, state),
        model::next_trigger(state) is Some,
    ensures
        model::stops_sound(state),
        valid(venue, model::without_next_stop(state)),
        matching::in_lots(venue.matcher.spec_lot_size(), model::activated(model::next_stop(state))),
        model::activated(model::next_stop(state)).order_type.trigger() is None,
        ({
            let (side, trigger) = model::next_trigger(state)->0;
            orderbook::placed(state.stops(side), trigger, 0)
        }),
{
    let lot = venue.matcher.spec_lot_size();
    let (side, trigger) = model::next_trigger(state)->0;
    lemma_valid_stops_sound(venue, state);
    model::lemma_next_stop_taken(state);
    let after = model::without_next_stop(state);
    assert(side_valid(lot, state, side));
    assert(orderbook::placed(state.stops(side), trigger, 0));
    assert forall|s: Side| #[trigger] side_valid(lot, after, s) by {
        assert(side_valid(lot, state, s));
        let before = state.stops(s);
        let stops = after.stops(s);
        if s == side {
            assert(stops == model::dequeued(before, trigger, 0));
            assert(before.remove(trigger).dom() =~= before.dom().remove(trigger));
            if before[trigger].len() > 1 {
                assert(stops.dom() =~= before.dom());
            }
            assert forall|t: u64, i: int| #[trigger] orderbook::placed(stops, t, i) implies orderbook::waits_at(
                stops[t][i],
                s,
                t,
            ) && matching::in_lots(lot, stops[t][i]) by {
                if t == trigger {
                    assert(orderbook::placed(before, t, i + 1));
                    assert(stops[t][i] == before[t][i + 1]);
                } else {
                    assert(orderbook::placed(before, t, i));
                }
            }
        }
    }
}

pub(crate) proof fn lemma_valid_stops_sound<M: MatchingAlgorithm>(venue: Venue<M>, state: BookState)
    requires
        valid(venue, state),
    ensures
        model::stops_sound(state),
{
    let lot = venue.matcher.spec_lot_size();
    assert(side_valid(lot, state, Side::Bid));
    assert(side_valid(lot, state, Side::Ask));
}

/// A cascade leaves a valid book valid.
pub proof fn a_cascade_keeps_a_book_valid<M: MatchingAlgorithm>(
    venue: Venue<M>,
    state: BookState,
)
    requires
        valid(venue, state),
        model::cascade(venue, state).state.next_arrival <= u32::MAX,
    ensures
        valid(venue, model::cascade(venue, state).state),
    decreases model::waiting(state),
{
    lemma_valid_stops_sound(venue, state);
    if model::next_trigger(state) is Some {
        lemma_next_stop_valid(venue, state);
        let before = model::without_next_stop(state);
        let stop = model::activated(model::next_stop(state));
        let fired = model::plain_step(venue, before, stop);
        model::lemma_next_stop_taken(state);
        model::lemma_plain_step_keeps_stops(venue, before, stop);
        if fired.result is Ok {
            matching::lemma_cascade_arrivals(venue, fired.state);
        }
        executing_keeps_a_book_valid(venue, before, stop);
        if fired.result is Ok {
            a_cascade_keeps_a_book_valid(venue, fired.state);
        }
    }
}

// ---------------------------------------------------------------- one execution

/// The limit of an order that is no stop.
pub open spec fn limit_of(order: Order) -> Option<Price> {
    match order.order_type {
        OrderType::Limit { price, .. } => Some(price),
        _ => None,
    }
}

/// Whether an order is to be filled at once or not at all.
pub open spec fn is_fill_or_kill(order: Order) -> bool {
    order.order_type matches OrderType::Limit { tif, .. } && tif == TimeInForce::FOK
}

/// What an order could be filled with.
pub open spec fn within_reach(state: BookState, order: Order) -> int {
    model::reachable(state.resting(model::opposite(order.side)), order, limit_of(order))
}

/// The sweep that an execution makes: none, where a fill-or-kill order cannot be
/// filled.
pub open spec fn swept_by<M: MatchingAlgorithm>(
    venue: Venue<M>,
    state: BookState,
    order: Order,
) -> Sweep {
    if is_fill_or_kill(order) && within_reach(state, order) < order.remaining_quantity.base() {
        matching::at_rest(
            state.resting(model::opposite(order.side)),
            order.remaining_quantity.base() as int,
        )
    } else {
        model::sweep_for(venue, state, order, limit_of(order))
    }
}

/// Whether so much of an order stands last at its level.
pub open spec fn came_to_rest(
    before: BookState,
    after: BookState,
    order: Order,
    amount: int,
) -> bool {
    let levels = after.resting(order.side);
    let p = order.order_type.limit_price()->0.minor();
    &&& order.order_type is Limit
    &&& levels.contains_key(p)
    &&& levels[p].len() > 0
    &&& levels[p].last() == (Order {
        remaining_quantity: allocation::qty_of(amount),
        arrival: before.next_arrival as u32,
        ..order
    })
}

/// How much of an order comes to rest in an execution.
pub open spec fn resting_part(order: Order, report: Report) -> int {
    match report.outcome {
        SubmitOutcome::Rested => order.remaining_quantity.base() as int,
        SubmitOutcome::PartiallyFilledAndRested => order.remaining_quantity.base() - volume(
            report.trades,
        ),
        _ => 0,
    }
}

/// What rests in the whole book.
pub open spec fn book_depth(state: BookState) -> int {
    depth(state.bids) + depth(state.asks)
}

proof fn lemma_volume_positive(trades: Seq<Trade>)
    requires
        forall|i: int| 0 <= i < trades.len() ==> (#[trigger] trades[i]).quantity.base() > 0,
    ensures
        trades.len() > 0 ==> volume(trades) > 0,
        trades.len() == 0 ==> volume(trades) == 0,
{
    let amounts = trades.map_values(|t: Trade| t.quantity.base() as int);
    if trades.len() > 0 {
        assert(amounts[0] == trades[0].quantity.base());
        assert forall|i: int| 0 <= i < amounts.len() implies #[trigger] amounts[i] >= 0 by {}
        sums::lemma_sum_bounds_element(amounts, 0);
    } else {
        assert(amounts =~= Seq::<int>::empty());
    }
}

/// What is known of the sweep of an execution.
pub(crate) proof fn lemma_swept_by<M: MatchingAlgorithm>(
    venue: Venue<M>,
    state: BookState,
    order: Order,
) -> (places: Seq<int>)
    requires
        valid(venue, state),
        order.order_type.trigger() is None,
        matching::in_lots(venue.matcher.spec_lot_size(), order),
    ensures
        ({
            let levels = state.resting(model::opposite(order.side));
            let swept = swept_by(venue, state, order);
            &&& amount_ok(venue.matcher.spec_lot_size(), swept.remaining)
            &&& swept.remaining <= order.remaining_quantity.base()
            &&& volume(swept.trades) == order.remaining_quantity.base() - swept.remaining
            &&& depth(levels) == depth(swept.levels) + volume(swept.trades)
                + types::total_remaining(swept.cancelled)
            &&& levels_ok(venue.matcher.spec_lot_size(), swept.levels)
            &&& places.len() == swept.trades.len()
            &&& forall|i: int|
                0 <= i < swept.trades.len() ==> fair_trade(
                    levels,
                    order,
                    limit_of(order),
                    #[trigger] swept.trades[i],
                    places[i],
                )
            &&& in_priority(model::opposite(order.side), swept.trades, places)
            &&& swept.trades.len() > 0 ==> volume(swept.trades) > 0
            &&& swept.trades.len() == 0 ==> volume(swept.trades) == 0
        }),
{
    let lot = venue.matcher.spec_lot_size();
    let side = model::opposite(order.side);
    let levels = state.resting(side);
    let limit = limit_of(order);
    let remaining = order.remaining_quantity.base() as int;
    let swept = swept_by(venue, state, order);
    assert(side_valid(lot, state, side));
    let places = if swept == model::sweep_for(venue, state, order, limit) {
        lemma_sweep_accounts(venue.matcher, levels, order, limit, remaining, state.next_arrival);
        lemma_sweep_trades(venue.matcher, levels, order, limit, remaining, state.next_arrival)
    } else {
        assert(types::remainders(swept.cancelled) =~= Seq::<int>::empty());
        assert(swept.trades.map_values(|t: Trade| t.quantity.base() as int) =~= Seq::<
            int,
        >::empty());
        Seq::empty()
    };
    assert forall|i: int| 0 <= i < swept.trades.len() implies (
    #[trigger] swept.trades[i]).quantity.base() > 0 by {
        assert(fair_trade(levels, order, limit, swept.trades[i], places[i]));
    }
    lemma_volume_positive(swept.trades);
    places
}

/// Whether what is left of an order rests in the book.
pub open spec fn may_rest(order: Order) -> bool {
    order.order_type matches OrderType::Limit { tif, .. } && tif == TimeInForce::GTC
}

/// Whether an execution accounts for all that its order brings: it is what the
/// trades move, what comes to rest and what is discarded.
pub open spec fn conserves<M: MatchingAlgorithm>(
    venue: Venue<M>,
    state: BookState,
    order: Order,
) -> bool {
    let step = model::plain_step(venue, state, order);
    let report = step.result->Ok_0;
    let brought = order.remaining_quantity.base();
    let filled = volume(report.trades);
    &&& 0 <= filled <= brought
    &&& match report.outcome {
        SubmitOutcome::Filled => filled == brought,
        SubmitOutcome::Rested => may_rest(order) && filled == 0 && came_to_rest(
            state,
            step.state,
            order,
            brought as int,
        ),
        SubmitOutcome::PartiallyFilledAndRested => may_rest(order) && 0 < filled < brought
            && came_to_rest(state, step.state, order, brought - filled),
        SubmitOutcome::Killed => !may_rest(order) && filled < brought,
        SubmitOutcome::StopPending => false,
    }
}

/// Conservation: what an order brings to an execution is what its trades move,
/// what comes to rest and what is discarded. An order that is filled leaves
/// nothing, one that rests leaves all the rest of it last in line at its price,
/// and one that is killed leaves a part that goes nowhere. Only an order that is
/// good till cancelled rests, and only another is killed.
pub proof fn nothing_is_lost<M: MatchingAlgorithm>(venue: Venue<M>, state: BookState, order: Order)
    requires
        valid(venue, state),
        order.order_type.trigger() is None,
        matching::in_lots(venue.matcher.spec_lot_size(), order),
        model::plain_step(venue, state, order).result is Ok,
    ensures
        conserves(venue, state, order),
{
    lemma_swept_by(venue, state, order);
    let step = model::plain_step(venue, state, order);
    let report = step.result->Ok_0;
    let swept = swept_by(venue, state, order);
    let after = model::swept_state(state, order, swept);
    assert(report.trades == swept.trades);
    let side = model::opposite(order.side);
    assert(side_valid(venue.matcher.spec_lot_size(), state, side));
    matching::lemma_reachable_nonneg(state.resting(side), order, limit_of(order));
    if is_fill_or_kill(order) {
        fill_or_kill_is_all_or_nothing(venue, state, order);
    }
    if report.outcome == SubmitOutcome::Rested || report.outcome
        == SubmitOutcome::PartiallyFilledAndRested {
        let remainder = Order { remaining_quantity: allocation::qty_of(swept.remaining), ..order };
        let p = order.order_type.limit_price()->0.minor();
        let stamped = Order { arrival: state.next_arrival as u32, ..remainder };
        let levels = step.state.resting(order.side);
        assert(levels == model::rested(after, remainder).resting(order.side));
        assert(levels[p].last() == stamped);
        assert(came_to_rest(state, step.state, order, swept.remaining));
    }
}

/// A fill-or-kill order that can be filled is filled completely. One that cannot
/// changes nothing at all: it neither trades nor cancels.
pub proof fn fill_or_kill_is_all_or_nothing<M: MatchingAlgorithm>(
    venue: Venue<M>,
    state: BookState,
    order: Order,
)
    requires
        valid(venue, state),
        is_fill_or_kill(order),
        matching::in_lots(venue.matcher.spec_lot_size(), order),
    ensures
        ({
            let step = model::plain_step(venue, state, order);
            let report = step.result->Ok_0;
            &&& step.result is Ok
            &&& if within_reach(state, order) < order.remaining_quantity.base() {
                &&& report.outcome == SubmitOutcome::Killed
                &&& report.trades.len() == 0
                &&& report.cancelled.len() == 0
                &&& step.state == state
            } else {
                &&& report.outcome == SubmitOutcome::Filled
                &&& volume(report.trades) == order.remaining_quantity.base()
            }
        }),
{
    let side = model::opposite(order.side);
    assert(side_valid(venue.matcher.spec_lot_size(), state, side));
    lemma_swept_by(venue, state, order);
    lemma_sweep_exhausts(
        venue.matcher,
        state.resting(side),
        order,
        limit_of(order),
        order.remaining_quantity.base() as int,
        state.next_arrival,
    );
}

/// Depth: an execution changes what rests in the book by what comes to rest,
/// less what its trades move, less what is left of the orders that it cancels.
pub proof fn depth_accounts_for_everything<M: MatchingAlgorithm>(
    venue: Venue<M>,
    state: BookState,
    order: Order,
)
    requires
        valid(venue, state),
        order.order_type.trigger() is None,
        matching::in_lots(venue.matcher.spec_lot_size(), order),
        model::plain_step(venue, state, order).result is Ok,
    ensures
        ({
            let step = model::plain_step(venue, state, order);
            let report = step.result->Ok_0;
            let cancelled = swept_by(venue, state, order).cancelled;
            &&& report.cancelled == model::names(cancelled)
            &&& book_depth(step.state) == book_depth(state) + resting_part(order, report) - volume(
                report.trades,
            ) - types::total_remaining(cancelled)
        }),
{
    let lot = venue.matcher.spec_lot_size();
    let side = model::opposite(order.side);
    let step = model::plain_step(venue, state, order);
    let swept = swept_by(venue, state, order);
    lemma_swept_by(venue, state, order);
    assert(model::names(Seq::<Order>::empty()) =~= Seq::empty());
    let after = model::swept_state(state, order, swept);
    let report = step.result->Ok_0;
    if report.outcome == SubmitOutcome::Rested || report.outcome
        == SubmitOutcome::PartiallyFilledAndRested {
        let remainder = Order { remaining_quantity: allocation::qty_of(swept.remaining), ..order };
        let p = order.order_type.limit_price()->0.minor();
        let stamped = Order { arrival: state.next_arrival as u32, ..remainder };
        let before = state.resting(order.side);
        assert(side_valid(lot, state, order.side));
        assert(after.resting(order.side) == before);
        let queue = if before.contains_key(p) {
            before[p].push(stamped)
        } else {
            seq![stamped]
        };
        lemma_depth_insert(before, p, queue);
        if before.contains_key(p) {
            lemma_depth_remove(before, p);
            lemma_total_push(before[p], stamped);
        } else {
            assert(before.remove(p) =~= before);
            assert(seq![stamped] =~= Seq::<Order>::empty().push(stamped));
            lemma_total_push(Seq::<Order>::empty(), stamped);
            assert(types::remainders(Seq::<Order>::empty()) =~= Seq::<int>::empty());
        }
    }
}

/// Whether each trade of an execution is with the order that rested at its place
/// of the queue at its price when the execution began, as it should be, and the
/// trades are in priority.
pub open spec fn trades_fairly<M: MatchingAlgorithm>(
    venue: Venue<M>,
    state: BookState,
    order: Order,
    places: Seq<int>,
) -> bool {
    let trades = model::plain_step(venue, state, order).result->Ok_0.trades;
    let levels = state.resting(model::opposite(order.side));
    &&& places.len() == trades.len()
    &&& forall|i: int|
        0 <= i < trades.len() ==> fair_trade(
            levels,
            order,
            limit_of(order),
            #[trigger] trades[i],
            places[i],
        )
    &&& in_priority(model::opposite(order.side), trades, places)
    &&& forall|i: int, j: int|
        #![trigger trades[i], trades[j]]
        0 <= i < j < trades.len() && trades[i].price == trades[j].price
            ==> levels[trades[i].price.minor()][places[i]].arrival
            < levels[trades[j].price.minor()][places[j]].arrival
}

/// Price validity: every trade of an execution is with an order that rested on
/// the other side when it began, at that order's price and within the taker's
/// limit, never with an order of the same client. Trades go from better prices
/// to worse, and at one price from the oldest order to the youngest.
pub proof fn trades_are_fair<M: MatchingAlgorithm>(
    venue: Venue<M>,
    state: BookState,
    order: Order,
) -> (places: Seq<int>)
    requires
        valid(venue, state),
        order.order_type.trigger() is None,
        matching::in_lots(venue.matcher.spec_lot_size(), order),
        model::plain_step(venue, state, order).result is Ok,
    ensures
        trades_fairly(venue, state, order, places),
{
    let side = model::opposite(order.side);
    let levels = state.resting(side);
    assert(side_valid(venue.matcher.spec_lot_size(), state, side));
    let places = lemma_swept_by(venue, state, order);
    let trades = model::plain_step(venue, state, order).result->Ok_0.trades;
    let swept = swept_by(venue, state, order);
    assert(trades =~= swept.trades);
    assert forall|i: int, j: int|
        #![trigger trades[i], trades[j]]
        0 <= i < j < trades.len() && trades[i].price == trades[j].price implies levels[trades[i].price.minor()][places[i]].arrival
        < levels[trades[j].price.minor()][places[j]].arrival by {
        assert(fair_trade(levels, order, limit_of(order), trades[i], places[i]));
        assert(fair_trade(levels, order, limit_of(order), trades[j], places[j]));
        assert(levels.contains_key(trades[i].price.minor()));
        assert(model::queue_in_line(levels[trades[i].price.minor()], state.next_arrival));
    }
    places
}

/// Whether every bid is below every ask.
pub open spec fn uncrossed(state: BookState) -> bool {
    forall|b: u64, a: u64|
        #![trigger state.bids.contains_key(b), state.asks.contains_key(a)]
        state.bids.contains_key(b) && state.asks.contains_key(a) ==> b < a
}

/// Whether something is left of every order, resting or waiting.
pub open spec fn all_positive(state: BookState) -> bool {
    forall|shelf: Shelf| queues_positive(#[trigger] state.on(shelf))
}

/// Whether something is left of every resting order.
pub open spec fn levels_positive(state: BookState) -> bool {
    forall|side: Side| queues_positive(#[trigger] state.resting(side))
}

/// Executing an order leaves something of every resting order, where something
/// was left of each.
pub proof fn executing_leaves_something_of_resting_orders<M: MatchingAlgorithm>(
    venue: Venue<M>,
    state: BookState,
    order: Order,
)
    requires
        valid(venue, state),
        order.order_type.trigger() is None,
        matching::in_lots(venue.matcher.spec_lot_size(), order),
        levels_positive(state),
    ensures
        levels_positive(model::plain_step(venue, state, order).state),
{
    let lot = venue.matcher.spec_lot_size();
    let side = model::opposite(order.side);
    let levels = state.resting(side);
    let limit = limit_of(order);
    let remaining = order.remaining_quantity.base() as int;
    let swept = model::sweep_for(venue, state, order, limit);
    let after = model::swept_state(state, order, swept);
    let done = model::plain_step(venue, state, order).state;
    assert(side_valid(lot, state, side));
    assert(queues_positive(levels));
    lemma_sweep_exhausts(venue.matcher, levels, order, limit, remaining, state.next_arrival);
    lemma_sweep_accounts(venue.matcher, levels, order, limit, remaining, state.next_arrival);
    assert forall|s: Side| queues_positive(#[trigger] after.resting(s)) by {
        assert(queues_positive(state.resting(s)));
    }
    let remainder = Order { remaining_quantity: allocation::qty_of(swept.remaining), ..order };
    let stamped = Order { arrival: state.next_arrival as u32, ..remainder };
    assert forall|s: Side| queues_positive(#[trigger] done.resting(s)) by {
        let was = state.resting(s);
        let before = after.resting(s);
        let now = done.resting(s);
        assert(queues_positive(was));
        assert(queues_positive(before));
        if now != was && now != before {
            // the remainder has come to rest
            assert forall|q: u64, i: int| #[trigger]
                orderbook::placed(now, q, i) implies now[q][i].remaining_quantity.base() > 0 by {
                if orderbook::placed(before, q, i) {
                    assert(now[q][i] == before[q][i]);
                } else {
                    assert(now[q][i] == stamped);
                }
            }
        }
    }
}

/// Executing an order leaves something of every order, where something was left
/// of each.
pub proof fn executing_leaves_something_of_every_order<M: MatchingAlgorithm>(
    venue: Venue<M>,
    state: BookState,
    order: Order,
)
    requires
        valid(venue, state),
        order.order_type.trigger() is None,
        matching::in_lots(venue.matcher.spec_lot_size(), order),
        all_positive(state),
    ensures
        all_positive(model::plain_step(venue, state, order).state),
{
    let done = model::plain_step(venue, state, order).state;
    assert forall|side: Side| queues_positive(#[trigger] state.resting(side)) by {
        assert(queues_positive(state.on(Shelf::Levels(side))));
    }
    executing_leaves_something_of_resting_orders(venue, state, order);
    model::lemma_plain_step_keeps_stops(venue, state, order);
    assert forall|shelf: Shelf| queues_positive(#[trigger] done.on(shelf)) by {
        match shelf {
            Shelf::Levels(side) => {
                assert(queues_positive(done.resting(side)));
            },
            Shelf::Stops(side) => {
                assert(queues_positive(state.on(shelf)));
            },
        }
    }
}

/// No crossing: a book that is not crossed stays so whatever is executed.
pub proof fn executing_never_crosses_the_book<M: MatchingAlgorithm>(
    venue: Venue<M>,
    state: BookState,
    order: Order,
)
    requires
        valid(venue, state),
        order.order_type.trigger() is None,
        matching::in_lots(venue.matcher.spec_lot_size(), order),
        uncrossed(state),
    ensures
        uncrossed(model::plain_step(venue, state, order).state),
{
    let lot = venue.matcher.spec_lot_size();
    let side = model::opposite(order.side);
    let levels = state.resting(side);
    let limit = limit_of(order);
    let remaining = order.remaining_quantity.base() as int;
    let step = model::plain_step(venue, state, order);
    let swept = model::sweep_for(venue, state, order, limit);
    let after = model::swept_state(state, order, swept);
    assert(side_valid(lot, state, side));
    assert(levels == state.on(Shelf::Levels(side)));
    lemma_sweep_exhausts(venue.matcher, levels, order, limit, remaining, state.next_arrival);
    lemma_sweep_accounts(venue.matcher, levels, order, limit, remaining, state.next_arrival);
    assert forall|b: u64, a: u64|
        #![trigger after.bids.contains_key(b), after.asks.contains_key(a)]
        after.bids.contains_key(b) && after.asks.contains_key(a) implies b < a by {
        assert(state.bids.contains_key(b) && state.asks.contains_key(a));
    }
    let done = step.state;
    assert forall|b: u64, a: u64|
        #![trigger done.bids.contains_key(b), done.asks.contains_key(a)]
        done.bids.contains_key(b) && done.asks.contains_key(a) implies b < a by {
        let p = order.order_type.limit_price()->0.minor();
        if done.bids == after.bids && done.asks == after.asks {
            assert(after.bids.contains_key(b) && after.asks.contains_key(a));
        } else if done.bids == state.bids && done.asks == state.asks {
            assert(state.bids.contains_key(b) && state.asks.contains_key(a));
        } else {
            // the remainder has come to rest
            match order.side {
                Side::Bid => {
                    assert(after.asks.contains_key(a));
                    if b == p {
                        assert(!model::acceptable(order.side, limit, a));
                    } else {
                        assert(after.bids.contains_key(b));
                    }
                },
                Side::Ask => {
                    assert(after.bids.contains_key(b));
                    if a == p {
                        assert(!model::acceptable(order.side, limit, b));
                    } else {
                        assert(after.asks.contains_key(a));
                    }
                },
            }
        }
    }
}

// ---------------------------------------------------------------- cascades and submissions

/// Whether an order executes at once: it is no stop, or its trigger has been
/// reached.
pub open spec fn executes_now(state: BookState, order: Order) -> bool {
    let reached = |trigger: Price|
        state.last_trade matches Some(last) && match order.side {
            Side::Bid => last.minor() >= trigger.minor(),
            Side::Ask => last.minor() <= trigger.minor(),
        };
    match order.order_type {
        OrderType::StopMarket { trigger } => reached(trigger),
        OrderType::StopLimit { trigger, .. } => reached(trigger),
        OrderType::Limit { .. } => true,
        OrderType::Market => true,
    }
}

/// Handling an order is executing what it becomes, or parking it.
pub(crate) proof fn lemma_step_cases<M: MatchingAlgorithm>(venue: Venue<M>, state: BookState, order: Order)
    ensures
        executes_now(state, order) ==> model::step(venue, state, order) == model::plain_step(
            venue,
            state,
            model::activated(order),
        ),
        !executes_now(state, order) ==> model::step(venue, state, order) == model::parked_step(
            state,
            order,
            order.order_type.trigger()->0,
        ),
        model::activated(order).order_type.trigger() is None,
        model::activated(order).remaining_quantity == order.remaining_quantity,
{
    if order.order_type.trigger() is None {
        assert(model::activated(order) == order);
    }
}

/// The book once `n` more stops have fired.
pub open spec fn moment<M: MatchingAlgorithm>(venue: Venue<M>, state: BookState, n: nat) -> BookState
    decreases n,
{
    if n == 0 {
        state
    } else {
        moment(
            venue,
            model::plain_step(
                venue,
                model::without_next_stop(state),
                model::activated(model::next_stop(state)),
            ).state,
            (n - 1) as nat,
        )
    }
}

/// The execution of the stop that fires next.
pub open spec fn next_execution<M: MatchingAlgorithm>(venue: Venue<M>, state: BookState) -> Step<
    Report,
> {
    model::plain_step(
        venue,
        model::without_next_stop(state),
        model::activated(model::next_stop(state)),
    )
}

/// Whether the report at place `i` of a cascade is that of the stop that fires
/// then, executed on a valid book.
pub open spec fn fires_in_turn<M: MatchingAlgorithm>(
    venue: Venue<M>,
    state: BookState,
    reports: Seq<Report>,
    i: int,
) -> bool {
    let then = moment(venue, state, i as nat);
    &&& model::next_trigger(then) is Some
    &&& valid(venue, then)
    &&& valid(venue, model::without_next_stop(then))
    &&& next_execution(venue, then).result == Ok::<Report, OrderBookError>(reports[i])
}

/// The cascade is flat: it is a run of executions, one for each stop that fires,
/// each on a valid book, and it ends when no stop is triggered. So what holds of
/// one execution holds of each of them.
pub proof fn a_cascade_is_a_run_of_executions<M: MatchingAlgorithm>(
    venue: Venue<M>,
    state: BookState,
)
    requires
        valid(venue, state),
        model::cascade(venue, state).result is Ok,
        model::cascade(venue, state).state.next_arrival <= u32::MAX,
    ensures
        ({
            let done = model::cascade(venue, state);
            let reports = done.result->Ok_0;
            &&& forall|i: int|
                0 <= i < reports.len() ==> #[trigger] fires_in_turn(venue, state, reports, i)
            &&& moment(venue, state, reports.len()) == done.state
            &&& model::next_trigger(done.state) is None
            &&& model::waiting(done.state) + reports.len() == model::waiting(state)
        }),
    decreases model::waiting(state),
{
    lemma_valid_stops_sound(venue, state);
    let done = model::cascade(venue, state);
    let reports = done.result->Ok_0;
    if model::next_trigger(state) is Some {
        lemma_next_stop_valid(venue, state);
        let before = model::without_next_stop(state);
        let stop = model::activated(model::next_stop(state));
        let fired = model::plain_step(venue, before, stop);
        model::lemma_next_stop_taken(state);
        model::lemma_plain_step_keeps_stops(venue, before, stop);
        matching::lemma_cascade_arrivals(venue, fired.state);
        executing_keeps_a_book_valid(venue, before, stop);
        a_cascade_is_a_run_of_executions(venue, fired.state);
        let rest = model::cascade(venue, fired.state).result->Ok_0;
        assert(reports =~= seq![fired.result->Ok_0] + rest);
        assert forall|i: int| 0 <= i < reports.len() implies #[trigger] fires_in_turn(
            venue,
            state,
            reports,
            i,
        ) by {
            if i == 0 {
                assert(moment(venue, state, 0) == state);
            } else {
                assert(fires_in_turn(venue, fired.state, rest, i - 1));
                assert(moment(venue, state, i as nat) == moment(
                    venue,
                    fired.state,
                    (i - 1) as nat,
                ));
                assert(reports[i] == rest[i - 1]);
            }
        }
        assert(moment(venue, state, reports.len()) == moment(venue, fired.state, rest.len()));
    } else {
        assert(moment(venue, state, 0) == state);
    }
}

/// Whether no waiting stop has been reached by the market.
pub open spec fn none_triggered(state: BookState) -> bool {
    forall|side: Side, t: u64| #[trigger]
        state.stops(side).contains_key(t) ==> (state.last_trade matches Some(last) ==> match side {
            Side::Bid => last.minor() < t,
            Side::Ask => last.minor() > t,
        })
}

/// Where no stop fires next, none is triggered.
proof fn lemma_none_triggered(state: BookState)
    requires
        model::stops_sound(state),
        model::next_trigger(state) is None,
    ensures
        none_triggered(state),
{
    assert forall|side: Side, t: u64| #[trigger] state.stops(side).contains_key(t) implies !model::triggered(
        state.last_trade,
        side,
        t,
    ) by {
        let dom = state.stops(side).dom();
        let end = model::opposite(side);
        assert(dom.contains(t));
        assert(dom.len() > 0) by {
            if dom.len() == 0 {
                assert(dom =~= Set::empty());
            }
        }
        storage::lemma_best_exists(dom, end);
        assert(storage::no_worse(end, storage::best(dom, end)->0, t));
    }
}

/// Stop discipline: when a submission is done, no stop waits that the market has
/// already reached.
pub proof fn no_triggered_stop_waits<M: MatchingAlgorithm>(
    venue: Venue<M>,
    state: BookState,
    order: Order,
    id: ExchangeId,
)
    requires
        valid(venue, state),
        model::submitted(venue, state, order, id).result is Ok,
    ensures
        none_triggered(model::submitted(venue, state, order, id).state),
{
    let counted = BookState { next_seq: state.next_seq + 1, ..state };
    let named = Order { exchange_id: id, ..order };
    let first = model::step(venue, counted, named);
    lemma_valid_stops_sound(venue, state);
    model::lemma_step_keeps_stops_sound(venue, counted, named);
    lemma_cascade_ends(venue, first.state);
}

proof fn lemma_cascade_ends<M: MatchingAlgorithm>(venue: Venue<M>, state: BookState)
    requires
        model::stops_sound(state),
        model::cascade(venue, state).result is Ok,
    ensures
        none_triggered(model::cascade(venue, state).state),
    decreases model::waiting(state),
{
    if model::next_trigger(state) is Some {
        let before = model::without_next_stop(state);
        let stop = model::activated(model::next_stop(state));
        model::lemma_next_stop_taken(state);
        model::lemma_plain_step_keeps_stops(venue, before, stop);
        lemma_cascade_ends(venue, model::plain_step(venue, before, stop).state);
    } else {
        lemma_none_triggered(state);
    }
}

pub(crate) proof fn lemma_counted_valid<M: MatchingAlgorithm>(
    venue: Venue<M>,
    state: BookState,
    seq: int,
)
    requires
        valid(venue, state),
    ensures
        valid(venue, (BookState { next_seq: seq, ..state })),
{
    let after = BookState { next_seq: seq, ..state };
    let lot = venue.matcher.spec_lot_size();
    assert forall|s: Side| #[trigger] side_valid(lot, after, s) by {
        assert(side_valid(lot, state, s));
    }
}

/// Handling an order leaves a valid book valid.
pub(crate) proof fn lemma_step_valid<M: MatchingAlgorithm>(venue: Venue<M>, state: BookState, order: Order)
    requires
        valid(venue, state),
        matching::in_lots(venue.matcher.spec_lot_size(), order),
        model::step(venue, state, order).state.next_arrival <= u32::MAX,
    ensures
        valid(venue, model::step(venue, state, order).state),
{
    lemma_step_cases(venue, state, order);
    if executes_now(state, order) {
        executing_keeps_a_book_valid(venue, state, model::activated(order));
    } else {
        parking_keeps_a_book_valid(venue, state, order, order.order_type.trigger()->0);
    }
}

/// A submission leaves a valid book valid.
pub proof fn submitting_keeps_a_book_valid<M: MatchingAlgorithm>(
    venue: Venue<M>,
    state: BookState,
    order: Order,
    id: ExchangeId,
)
    requires
        valid(venue, state),
        matching::in_lots(venue.matcher.spec_lot_size(), order),
        model::submitted(venue, state, order, id).state.next_arrival <= u32::MAX,
    ensures
        valid(venue, model::submitted(venue, state, order, id).state),
{
    let counted = BookState { next_seq: state.next_seq + 1, ..state };
    let named = Order { exchange_id: id, ..order };
    let first = model::step(venue, counted, named);
    lemma_counted_valid(venue, state, state.next_seq + 1);
    lemma_valid_stops_sound(venue, counted);
    model::lemma_step_keeps_stops_sound(venue, counted, named);
    if first.result is Ok {
        matching::lemma_cascade_arrivals(venue, first.state);
    }
    lemma_step_valid(venue, counted, named);
    if first.result is Ok {
        a_cascade_keeps_a_book_valid(venue, first.state);
    }
}

proof fn lemma_cascade_never_crosses<M: MatchingAlgorithm>(venue: Venue<M>, state: BookState)
    requires
        valid(venue, state),
        uncrossed(state),
        model::cascade(venue, state).state.next_arrival <= u32::MAX,
    ensures
        uncrossed(model::cascade(venue, state).state),
    decreases model::waiting(state),
{
    lemma_valid_stops_sound(venue, state);
    if model::next_trigger(state) is Some {
        lemma_next_stop_valid(venue, state);
        let before = model::without_next_stop(state);
        let stop = model::activated(model::next_stop(state));
        let fired = model::plain_step(venue, before, stop);
        model::lemma_next_stop_taken(state);
        model::lemma_plain_step_keeps_stops(venue, before, stop);
        if fired.result is Ok {
            matching::lemma_cascade_arrivals(venue, fired.state);
        }
        executing_keeps_a_book_valid(venue, before, stop);
        lemma_same_prices_uncrossed(state, before);
        executing_never_crosses_the_book(venue, before, stop);
        if fired.result is Ok {
            lemma_cascade_never_crosses(venue, fired.state);
        }
    }
}

proof fn lemma_same_prices_uncrossed(a: BookState, b: BookState)
    requires
        uncrossed(a),
        a.bids.dom() == b.bids.dom(),
        a.asks.dom() == b.asks.dom(),
    ensures
        uncrossed(b),
{
    assert forall|p: u64, q: u64|
        #![trigger b.bids.contains_key(p), b.asks.contains_key(q)]
        b.bids.contains_key(p) && b.asks.contains_key(q) implies p < q by {
        assert(b.bids.dom().contains(p) && b.asks.dom().contains(q));
        assert(a.bids.contains_key(p) && a.asks.contains_key(q));
    }
}

/// No crossing: a book that is not crossed stays so whatever is submitted.
pub proof fn submitting_never_crosses_the_book<M: MatchingAlgorithm>(
    venue: Venue<M>,
    state: BookState,
    order: Order,
    id: ExchangeId,
)
    requires
        valid(venue, state),
        matching::in_lots(venue.matcher.spec_lot_size(), order),
        uncrossed(state),
        model::submitted(venue, state, order, id).state.next_arrival <= u32::MAX,
    ensures
        uncrossed(model::submitted(venue, state, order, id).state),
{
    let counted = BookState { next_seq: state.next_seq + 1, ..state };
    let named = Order { exchange_id: id, ..order };
    let first = model::step(venue, counted, named);
    lemma_counted_valid(venue, state, state.next_seq + 1);
    lemma_valid_stops_sound(venue, counted);
    model::lemma_step_keeps_stops_sound(venue, counted, named);
    if first.result is Ok {
        matching::lemma_cascade_arrivals(venue, first.state);
    }
    lemma_step_valid(venue, counted, named);
    lemma_same_prices_uncrossed(state, counted);
    lemma_step_cases(venue, counted, named);
    if executes_now(counted, named) {
        executing_never_crosses_the_book(venue, counted, model::activated(named));
    } else {
        lemma_same_prices_uncrossed(counted, first.state);
    }
    if first.result is Ok {
        lemma_cascade_never_crosses(venue, first.state);
    }
}

proof fn lemma_cascade_positive<M: MatchingAlgorithm>(venue: Venue<M>, state: BookState)
    requires
        valid(venue, state),
        all_positive(state),
        model::cascade(venue, state).state.next_arrival <= u32::MAX,
    ensures
        all_positive(model::cascade(venue, state).state),
    decreases model::waiting(state),
{
    lemma_valid_stops_sound(venue, state);
    if model::next_trigger(state) is Some {
        lemma_next_stop_valid(venue, state);
        let (side, trigger) = model::next_trigger(state)->0;
        let before = model::without_next_stop(state);
        let stop = model::activated(model::next_stop(state));
        let fired = model::plain_step(venue, before, stop);
        model::lemma_next_stop_taken(state);
        model::lemma_plain_step_keeps_stops(venue, before, stop);
        if fired.result is Ok {
            matching::lemma_cascade_arrivals(venue, fired.state);
        }
        executing_keeps_a_book_valid(venue, before, stop);
        assert forall|shelf: Shelf| queues_positive(#[trigger] before.on(shelf)) by {
            let was = state.on(shelf);
            let now = before.on(shelf);
            assert(queues_positive(was));
            assert forall|q: u64, i: int| #[trigger] orderbook::placed(now, q, i) implies now[q][i].remaining_quantity.base()
                > 0 by {
                if shelf == Shelf::Stops(side) && q == trigger {
                    assert(orderbook::placed(was, q, i + 1));
                    assert(now[q][i] == was[q][i + 1]);
                } else {
                    assert(orderbook::placed(was, q, i));
                }
            }
        }
        executing_leaves_something_of_every_order(venue, before, stop);
        if fired.result is Ok {
            lemma_cascade_positive(venue, fired.state);
        }
    }
}

/// Submitting an order of which something is left leaves something of every
/// order, resting or waiting, where something was left of each.
pub proof fn submitting_leaves_something_of_every_order<M: MatchingAlgorithm>(
    venue: Venue<M>,
    state: BookState,
    order: Order,
    id: ExchangeId,
)
    requires
        valid(venue, state),
        matching::in_lots(venue.matcher.spec_lot_size(), order),
        all_positive(state),
        order.remaining_quantity.base() > 0,
        model::submitted(venue, state, order, id).state.next_arrival <= u32::MAX,
    ensures
        all_positive(model::submitted(venue, state, order, id).state),
{
    let counted = BookState { next_seq: state.next_seq + 1, ..state };
    let named = Order { exchange_id: id, ..order };
    let first = model::step(venue, counted, named);
    lemma_counted_valid(venue, state, state.next_seq + 1);
    lemma_valid_stops_sound(venue, counted);
    model::lemma_step_keeps_stops_sound(venue, counted, named);
    if first.result is Ok {
        matching::lemma_cascade_arrivals(venue, first.state);
    }
    lemma_step_valid(venue, counted, named);
    assert forall|shelf: Shelf| queues_positive(#[trigger] counted.on(shelf)) by {
        assert(queues_positive(state.on(shelf)));
    }
    lemma_step_cases(venue, counted, named);
    if executes_now(counted, named) {
        executing_leaves_something_of_every_order(venue, counted, model::activated(named));
    } else {
        let after = first.state;
        assert forall|shelf: Shelf| queues_positive(#[trigger] after.on(shelf)) by {
            let was = counted.on(shelf);
            let now = after.on(shelf);
            assert(queues_positive(was));
            assert forall|q: u64, i: int| #[trigger] orderbook::placed(now, q, i) implies now[q][i].remaining_quantity.base()
                > 0 by {
                if orderbook::placed(was, q, i) {
                    assert(now[q][i] == was[q][i]);
                } else {
                    assert(now[q][i] == named);
                }
            }
        }
    }
    if first.result is Ok {
        lemma_cascade_positive(venue, first.state);
    }
}

/// What an execution adds to the depth of the book, on balance.
pub open spec fn net<M: MatchingAlgorithm>(venue: Venue<M>, state: BookState, order: Order) -> int {
    let report = model::plain_step(venue, state, order).result->Ok_0;
    resting_part(order, report) - volume(report.trades) - types::total_remaining(
        swept_by(venue, state, order).cancelled,
    )
}

/// What the next `n` stops that fire add to the depth of the book, on balance.
pub open spec fn net_of_cascade<M: MatchingAlgorithm>(
    venue: Venue<M>,
    state: BookState,
    n: nat,
) -> int
    decreases n,
{
    if n == 0 {
        0
    } else {
        net(venue, model::without_next_stop(state), model::activated(model::next_stop(state)))
            + net_of_cascade(venue, next_execution(venue, state).state, (n - 1) as nat)
    }
}

proof fn lemma_cascade_depth<M: MatchingAlgorithm>(venue: Venue<M>, state: BookState)
    requires
        valid(venue, state),
        model::cascade(venue, state).result is Ok,
        model::cascade(venue, state).state.next_arrival <= u32::MAX,
    ensures
        book_depth(model::cascade(venue, state).state) == book_depth(state) + net_of_cascade(
            venue,
            state,
            model::cascade(venue, state).result->Ok_0.len(),
        ),
    decreases model::waiting(state),
{
    lemma_valid_stops_sound(venue, state);
    if model::next_trigger(state) is Some {
        lemma_next_stop_valid(venue, state);
        let before = model::without_next_stop(state);
        let stop = model::activated(model::next_stop(state));
        let fired = model::plain_step(venue, before, stop);
        model::lemma_next_stop_taken(state);
        model::lemma_plain_step_keeps_stops(venue, before, stop);
        matching::lemma_cascade_arrivals(venue, fired.state);
        executing_keeps_a_book_valid(venue, before, stop);
        depth_accounts_for_everything(venue, before, stop);
        lemma_cascade_depth(venue, fired.state);
        let rest = model::cascade(venue, fired.state).result->Ok_0;
        assert(model::cascade(venue, state).result->Ok_0.len() == rest.len() + 1);
    }
}

/// Depth, for a submission with all that it sets off: what rests in the book
/// changes by what each execution adds on balance.
pub proof fn depth_accounts_for_a_submission<M: MatchingAlgorithm>(
    venue: Venue<M>,
    state: BookState,
    order: Order,
    id: ExchangeId,
)
    requires
        valid(venue, state),
        matching::in_lots(venue.matcher.spec_lot_size(), order),
        model::submitted(venue, state, order, id).result is Ok,
        model::submitted(venue, state, order, id).state.next_arrival <= u32::MAX,
    ensures
        ({
            let counted = BookState { next_seq: state.next_seq + 1, ..state };
            let named = Order { exchange_id: id, ..order };
            let first = model::step(venue, counted, named);
            let done = model::submitted(venue, state, order, id);
            book_depth(done.state) == book_depth(state) + (if executes_now(counted, named) {
                net(venue, counted, model::activated(named))
            } else {
                0
            }) + net_of_cascade(venue, first.state, done.result->Ok_0.1.len())
        }),
{
    let counted = BookState { next_seq: state.next_seq + 1, ..state };
    let named = Order { exchange_id: id, ..order };
    let first = model::step(venue, counted, named);
    lemma_counted_valid(venue, state, state.next_seq + 1);
    lemma_valid_stops_sound(venue, counted);
    model::lemma_step_keeps_stops_sound(venue, counted, named);
    matching::lemma_cascade_arrivals(venue, first.state);
    lemma_step_valid(venue, counted, named);
    lemma_step_cases(venue, counted, named);
    if executes_now(counted, named) {
        depth_accounts_for_everything(venue, counted, model::activated(named));
    }
    lemma_cascade_depth(venue, first.state);
}

// ---------------------------------------------------------------- the grid

/// Whether what is left of every order is a multiple of `d`.
pub open spec fn queues_multiples(queues: Map<u64, Seq<Order>>, d: int) -> bool {
    forall|p: u64, i: int| #[trigger]
        orderbook::placed(queues, p, i) ==> queues[p][i].remaining_quantity.base() as int % d == 0
}

/// A sweep of multiples moves and leaves multiples.
proof fn lemma_sweep_multiples<M: MatchingAlgorithm>(
    matcher: M,
    levels: Map<u64, Seq<Order>>,
    taker: Order,
    limit: Option<Price>,
    remaining: int,
    now: int,
    d: int,
)
    requires
        matcher.wf(),
        levels_ok(matcher.spec_lot_size(), levels),
        amount_ok(matcher.spec_lot_size(), remaining),
        d > 0,
        matcher.spec_lot_size() matches Some(lot) ==> lot == d,
        queues_multiples(levels, d),
        remaining % d == 0,
    ensures
        ({
            let swept = model::sweep(matcher, levels, taker, limit, remaining, now);
            &&& queues_multiples(swept.levels, d)
            &&& swept.remaining % d == 0
            &&& forall|i: int|
                0 <= i < swept.trades.len() ==> (
                #[trigger] swept.trades[i]).quantity.base() as int % d == 0
        }),
    decreases levels.dom().len(),
{
    let lot = matcher.spec_lot_size();
    let side = model::opposite(taker.side);
    let swept = model::sweep(matcher, levels, taker, limit, remaining, now);
    let found = storage::best(levels.dom(), side);
    if !(remaining <= 0 || found is None || !levels.contains_key(found->0) || !model::acceptable(
        taker.side,
        limit,
        found->0,
    )) {
        let p = found->0;
        let queue = levels[p];
        let price = model::price_of(p);
        lemma_met(matcher, queue, taker, price, remaining, now);
        let (others, fills) = met(matcher, queue, taker, remaining, now);
        let makers = types::as_makers(others);
        let took = allocation::taken(fills);
        let rest = remaining - sums::sum(took);
        let left = model::level_left(others, fills, rest);
        let trades = model::trades_of(taker, others, price, fills);
        assert forall|i: int| 0 <= i < queue.len() implies (
        #[trigger] queue[i]).remaining_quantity.base() as int % d == 0 by {
            assert(orderbook::placed(levels, p, i));
        }
        matching::lemma_not_owned_lots(queue, taker.client_id@, d);
        assert(allocation::whole_lots(d, allocation::qty_of(remaining), makers)) by {
            assert forall|i: int| 0 <= i < makers.len() implies (
            #[trigger] makers[i]).remaining_quantity.base() as int % d == 0 by {
                assert(others[i].remaining_quantity.base() as int % d == 0);
            }
        }
        assert forall|i: int| 0 <= i < took.len() implies #[trigger] took[i] % d == 0 by {
            assert(fills[i].quantity.base() as int % d == 0);
        }
        sums::lemma_sum_multiple(took, d);
        sums::lemma_multiples_add(remaining, sums::sum(took), d);
        assert forall|i: int| 0 <= i < trades.len() implies (
        #[trigger] trades[i]).quantity.base() as int % d == 0 by {
            assert(fills[i].quantity.base() as int % d == 0);
        }
        if left.len() == 0 {
            let fewer = levels.remove(p);
            assert(fewer.dom() =~= levels.dom().remove(p));
            assert(levels_ok(lot, fewer)) by {
                assert forall|q: u64| #[trigger] fewer.contains_key(q) implies queue_ok(
                    lot,
                    fewer[q],
                ) by {
                    assert(levels.contains_key(q));
                }
            }
            assert forall|q: u64, i: int| #[trigger] orderbook::placed(fewer, q, i) implies fewer[q][i].remaining_quantity.base() as int
                % d == 0 by {
                assert(orderbook::placed(levels, q, i));
            }
            lemma_sweep_multiples(matcher, fewer, taker, limit, rest, now, d);
            let next = model::sweep(matcher, fewer, taker, limit, rest, now);
            assert forall|i: int| 0 <= i < swept.trades.len() implies (
            #[trigger] swept.trades[i]).quantity.base() as int % d == 0 by {
                if i < trades.len() {
                    assert(swept.trades[i] == trades[i]);
                } else {
                    assert(swept.trades[i] == next.trades[i - trades.len()]);
                }
            }
        } else {
            assert forall|i: int| 0 <= i < others.len() implies {
                let got = #[trigger] allocation::allotted(fills, i);
                0 <= got <= others[i].remaining_quantity.base() && got % d == 0
            } by {
                matching::lemma_allotted_is_a_fill(fills, i);
                if allocation::allotted(fills, i) != 0 {
                    let j = choose|j: int|
                        0 <= j < fills.len() && (#[trigger] fills[j]).order_index == i
                            && fills[j].quantity.base() == allocation::allotted(fills, i);
                    assert(fills[j].quantity.base() as int % d == 0);
                } else {
                    vstd::arithmetic::div_mod::lemma_small_mod(0, d as nat);
                }
            }
            matching::lemma_left_lots(others, fills, model::passed(others, fills, rest), d);
            assert forall|q: u64, i: int| #[trigger] orderbook::placed(swept.levels, q, i) implies swept.levels[q][i].remaining_quantity.base() as int
                % d == 0 by {
                if q != p {
                    assert(orderbook::placed(levels, q, i));
                } else {
                    assert(swept.levels[q][i] == left[i]);
                }
            }
        }
    }
}

/// Whether every price of an order is on the tick grid, and what is left of it on
/// the lot grid.
pub open spec fn order_on_grid(spec: InstrumentSpec, order: Order) -> bool {
    &&& order.order_type.trigger() matches Some(trigger) ==> spec.on_tick(trigger)
    &&& order.order_type.limit_price() matches Some(limit) ==> spec.on_tick(limit)
    &&& spec.on_lot(order.remaining_quantity)
}

/// Whether everything that a part of the book holds is on the grid.
pub open spec fn shelf_on_grid(spec: InstrumentSpec, queues: Map<u64, Seq<Order>>) -> bool {
    forall|p: u64, i: int| #[trigger]
        orderbook::placed(queues, p, i) ==> order_on_grid(spec, queues[p][i])
}

/// Whether everything that the book holds is on the grid.
pub open spec fn book_on_grid(spec: InstrumentSpec, state: BookState) -> bool {
    &&& forall|shelf: Shelf| shelf_on_grid(spec, #[trigger] state.on(shelf))
    &&& state.last_trade matches Some(last) ==> spec.on_tick(last)
}

/// Whether a trade is on the grid.
pub open spec fn trade_on_grid(spec: InstrumentSpec, trade: Trade) -> bool {
    spec.on_tick(trade.price) && spec.on_lot(trade.quantity)
}

/// Whether every price of every order is on the tick grid.
pub open spec fn all_types_on_grid(spec: InstrumentSpec, queues: Map<u64, Seq<Order>>) -> bool {
    forall|p: u64, i: int| #[trigger]
        orderbook::placed(queues, p, i) ==> types_on_grid(spec, queues[p][i])
}

/// A sweep keeps the prices of the orders that it leaves.
proof fn lemma_sweep_keeps_types<M: MatchingAlgorithm>(
    matcher: M,
    levels: Map<u64, Seq<Order>>,
    taker: Order,
    limit: Option<Price>,
    remaining: int,
    now: int,
    spec: InstrumentSpec,
)
    requires
        levels.dom().finite(),
        all_types_on_grid(spec, levels),
    ensures
        all_types_on_grid(
            spec,
            model::sweep(matcher, levels, taker, limit, remaining, now).levels,
        ),
    decreases levels.dom().len(),
{
    let side = model::opposite(taker.side);
    let swept = model::sweep(matcher, levels, taker, limit, remaining, now);
    let found = storage::best(levels.dom(), side);
    if !(remaining <= 0 || found is None || !levels.contains_key(found->0) || !model::acceptable(
        taker.side,
        limit,
        found->0,
    )) {
        let p = found->0;
        let queue = levels[p];
        let (others, fills) = met(matcher, queue, taker, remaining, now);
        let rest = remaining - sums::sum(allocation::taken(fills));
        let left = model::level_left(others, fills, rest);
        if left.len() == 0 {
            let fewer = levels.remove(p);
            assert(fewer.dom() =~= levels.dom().remove(p));
            assert forall|q: u64, i: int| #[trigger] orderbook::placed(fewer, q, i) implies types_on_grid(
                spec,
                fewer[q][i],
            ) by {
                assert(orderbook::placed(levels, q, i));
            }
            lemma_sweep_keeps_types(matcher, fewer, taker, limit, rest, now, spec);
        } else {
            let seats = lemma_others_places(queue, taker.client_id@);
            assert forall|i: int| 0 <= i < others.len() implies types_on_grid(
                spec,
                #[trigger] others[i],
            ) by {
                assert(queue[seats[i]] == others[i]);
                assert(orderbook::placed(levels, p, seats[i]));
            }
            lemma_left_types(others, fills, model::passed(others, fills, rest), spec);
            assert forall|q: u64, i: int| #[trigger] orderbook::placed(swept.levels, q, i) implies types_on_grid(
                spec,
                swept.levels[q][i],
            ) by {
                if q != p {
                    assert(orderbook::placed(levels, q, i));
                } else {
                    assert(swept.levels[q][i] == left[i]);
                }
            }
        }
    }
}

/// Whether every price of an order is on the tick grid.
pub open spec fn types_on_grid(spec: InstrumentSpec, order: Order) -> bool {
    &&& order.order_type.trigger() matches Some(trigger) ==> spec.on_tick(trigger)
    &&& order.order_type.limit_price() matches Some(limit) ==> spec.on_tick(limit)
}

proof fn lemma_left_types(queue: Seq<Order>, fills: Seq<Fill>, reach: int, spec: InstrumentSpec)
    requires
        forall|i: int| 0 <= i < queue.len() ==> types_on_grid(spec, #[trigger] queue[i]),
    ensures
        forall|i: int|
            0 <= i < model::after_fills(queue, fills, reach).len() ==> types_on_grid(
                spec,
                #[trigger] model::after_fills(queue, fills, reach)[i],
            ),
    decreases queue.len(),
{
    if queue.len() > 0 {
        let rest = queue.drop_last();
        assert forall|i: int| 0 <= i < rest.len() implies types_on_grid(
            spec,
            #[trigger] rest[i],
        ) by {
            assert(rest[i] == queue[i]);
        }
        lemma_left_types(rest, fills, reach, spec);
        assert(types_on_grid(spec, queue[queue.len() - 1]));
        let before = model::after_fills(rest, fills, reach);
        let left = model::after_fills(queue, fills, reach);
        let got = allocation::allotted(fills, queue.len() - 1);
        assert(types_on_grid(spec, model::reduced(queue.last(), got)));
        assert forall|i: int| 0 <= i < left.len() implies types_on_grid(
            spec,
            #[trigger] left[i],
        ) by {
            if i < before.len() {
                assert(left[i] == before[i]);
            }
        }
    }
}

/// Lattice closure: where everything that the book holds is on the grid, and so
/// is what is executed, every trade is on the grid and everything stays there.
pub proof fn executing_stays_on_the_grid<M: MatchingAlgorithm>(
    venue: Venue<M>,
    state: BookState,
    order: Order,
)
    requires
        valid(venue, state),
        order.order_type.trigger() is None,
        matching::in_lots(venue.matcher.spec_lot_size(), order),
        book_on_grid(venue.spec, state),
        order_on_grid(venue.spec, order),
    ensures
        ({
            let step = model::plain_step(venue, state, order);
            &&& book_on_grid(venue.spec, step.state)
            &&& step.result matches Ok(report) ==> forall|i: int|
                0 <= i < report.trades.len() ==> trade_on_grid(
                    venue.spec,
                    #[trigger] report.trades[i],
                )
        }),
{
    let spec = venue.spec;
    let lot = venue.matcher.spec_lot_size();
    let d = spec.lot_size() as int;
    let side = model::opposite(order.side);
    let levels = state.resting(side);
    let limit = limit_of(order);
    let remaining = order.remaining_quantity.base() as int;
    let step = model::plain_step(venue, state, order);
    let swept = model::sweep_for(venue, state, order, limit);
    let after = model::swept_state(state, order, swept);
    assert(side_valid(lot, state, side));
    assert(levels == state.on(Shelf::Levels(side)));
    assert(shelf_on_grid(spec, levels));
    assert forall|p: u64, i: int| #[trigger] orderbook::placed(levels, p, i) implies levels[p][i].remaining_quantity.base() as int
        % d == 0 && types_on_grid(spec, levels[p][i]) by {
        assert(order_on_grid(spec, levels[p][i]));
    }
    lemma_sweep_multiples(
        venue.matcher,
        levels,
        order,
        limit,
        remaining,
        state.next_arrival,
        d,
    );
    lemma_sweep_keeps_types(
        venue.matcher,
        levels,
        order,
        limit,
        remaining,
        state.next_arrival,
        spec,
    );
    lemma_sweep_accounts(venue.matcher, levels, order, limit, remaining, state.next_arrival);
    let places = lemma_sweep_trades(
        venue.matcher,
        levels,
        order,
        limit,
        remaining,
        state.next_arrival,
    );
    assert forall|i: int| 0 <= i < swept.trades.len() implies trade_on_grid(
        spec,
        #[trigger] swept.trades[i],
    ) by {
        let p = swept.trades[i].price.minor();
        assert(fair_trade(levels, order, limit, swept.trades[i], places[i]));
        assert(orderbook::placed(levels, p, places[i]));
        assert(storage::at_home(levels[p][places[i]], side, p));
    }
    assert forall|shelf: Shelf| shelf_on_grid(spec, #[trigger] after.on(shelf)) by {
        assert(shelf_on_grid(spec, state.on(shelf)));
        if shelf == Shelf::Levels(side) {
            assert forall|p: u64, i: int| #[trigger] orderbook::placed(swept.levels, p, i) implies order_on_grid(
                spec,
                swept.levels[p][i],
            ) by {
                assert(types_on_grid(spec, swept.levels[p][i]));
                assert(swept.levels[p][i].remaining_quantity.base() as int % d == 0);
            }
        }
    }
    let noted = model::noted(after, swept.trades);
    assert forall|shelf: Shelf| shelf_on_grid(spec, #[trigger] noted.on(shelf)) by {
        assert(shelf_on_grid(spec, after.on(shelf)));
    }
    if swept.trades.len() > 0 {
        assert(trade_on_grid(spec, swept.trades[swept.trades.len() - 1]));
    }
    assert(book_on_grid(spec, noted));
    match order.order_type {
        OrderType::Limit { price, tif } => {
            let remainder = Order {
                remaining_quantity: allocation::qty_of(swept.remaining),
                ..order
            };
            if tif == TimeInForce::GTC && swept.remaining != 0 && model::rest_error(
                venue,
                after,
                remainder,
            ) is None {
                let more = model::rested(after, remainder);
                let stamped = Order { arrival: state.next_arrival as u32, ..remainder };
                assert(order_on_grid(spec, stamped));
                assert forall|shelf: Shelf| shelf_on_grid(spec, #[trigger] more.on(shelf)) by {
                    let before = after.on(shelf);
                    let now = more.on(shelf);
                    assert(shelf_on_grid(spec, before));
                    assert forall|q: u64, i: int| #[trigger] orderbook::placed(now, q, i) implies order_on_grid(
                        spec,
                        now[q][i],
                    ) by {
                        if orderbook::placed(before, q, i) {
                            assert(now[q][i] == before[q][i]);
                        } else {
                            assert(now[q][i] == stamped);
                        }
                    }
                }
                let last = model::noted(more, swept.trades);
                assert forall|shelf: Shelf| shelf_on_grid(spec, #[trigger] last.on(shelf)) by {
                    assert(shelf_on_grid(spec, more.on(shelf)));
                }
            }
        },
        _ => {},
    }
}

/// Taking the next stop out leaves what waits on the grid.
proof fn lemma_next_stop_on_grid<M: MatchingAlgorithm>(venue: Venue<M>, state: BookState)
    requires
        valid(venue, state),
        book_on_grid(venue.spec, state),
        model::next_trigger(state) is Some,
    ensures
        book_on_grid(venue.spec, model::without_next_stop(state)),
        order_on_grid(venue.spec, model::next_stop(state)),
        order_on_grid(venue.spec, model::activated(model::next_stop(state))),
{
    let spec = venue.spec;
    let (side, trigger) = model::next_trigger(state)->0;
    lemma_next_stop_valid(venue, state);
    let stops = state.on(Shelf::Stops(side));
    assert(shelf_on_grid(spec, stops));
    assert(orderbook::placed(stops, trigger, 0));
    let after = model::without_next_stop(state);
    assert forall|shelf: Shelf| shelf_on_grid(spec, #[trigger] after.on(shelf)) by {
        let was = state.on(shelf);
        let now = after.on(shelf);
        assert(shelf_on_grid(spec, was));
        assert forall|q: u64, i: int| #[trigger] orderbook::placed(now, q, i) implies order_on_grid(
            spec,
            now[q][i],
        ) by {
            if shelf == Shelf::Stops(side) && q == trigger {
                assert(orderbook::placed(was, q, i + 1));
                assert(now[q][i] == was[q][i + 1]);
            } else {
                assert(orderbook::placed(was, q, i));
            }
        }
    }
}

proof fn lemma_cascade_on_grid<M: MatchingAlgorithm>(venue: Venue<M>, state: BookState)
    requires
        valid(venue, state),
        book_on_grid(venue.spec, state),
        model::cascade(venue, state).state.next_arrival <= u32::MAX,
    ensures
        ({
            let done = model::cascade(venue, state);
            &&& book_on_grid(venue.spec, done.state)
            &&& done.result matches Ok(reports) ==> forall|i: int, j: int|
                0 <= i < reports.len() && 0 <= j < reports[i].trades.len() ==> trade_on_grid(
                    venue.spec,
                    #[trigger] reports[i].trades[j],
                )
        }),
    decreases model::waiting(state),
{
    lemma_valid_stops_sound(venue, state);
    if model::next_trigger(state) is Some {
        lemma_next_stop_valid(venue, state);
        lemma_next_stop_on_grid(venue, state);
        let before = model::without_next_stop(state);
        let stop = model::activated(model::next_stop(state));
        let fired = model::plain_step(venue, before, stop);
        model::lemma_next_stop_taken(state);
        model::lemma_plain_step_keeps_stops(venue, before, stop);
        if fired.result is Ok {
            matching::lemma_cascade_arrivals(venue, fired.state);
        }
        executing_keeps_a_book_valid(venue, before, stop);
        executing_stays_on_the_grid(venue, before, stop);
        if fired.result is Ok {
            lemma_cascade_on_grid(venue, fired.state);
            let rest = model::cascade(venue, fired.state);
            let done = model::cascade(venue, state);
            if rest.result is Ok {
                let reports = done.result->Ok_0;
                assert forall|i: int, j: int|
                    0 <= i < reports.len() && 0 <= j < reports[i].trades.len() implies trade_on_grid(
                    venue.spec,
                    #[trigger] reports[i].trades[j],
                ) by {
                    if i == 0 {
                        assert(reports[i] == fired.result->Ok_0);
                    } else {
                        assert(reports[i] == rest.result->Ok_0[i - 1]);
                    }
                }
            }
        }
    }
}

/// Lattice closure, for a submission with all that it sets off.
pub proof fn submitting_stays_on_the_grid<M: MatchingAlgorithm>(
    venue: Venue<M>,
    state: BookState,
    order: Order,
    id: ExchangeId,
)
    requires
        valid(venue, state),
        matching::in_lots(venue.matcher.spec_lot_size(), order),
        book_on_grid(venue.spec, state),
        order_on_grid(venue.spec, order),
        model::submitted(venue, state, order, id).state.next_arrival <= u32::MAX,
    ensures
        ({
            let done = model::submitted(venue, state, order, id);
            &&& book_on_grid(venue.spec, done.state)
            &&& done.result matches Ok(all) ==> {
                &&& forall|j: int|
                    0 <= j < all.0.trades.len() ==> trade_on_grid(
                        venue.spec,
                        #[trigger] all.0.trades[j],
                    )
                &&& forall|i: int, j: int|
                    0 <= i < all.1.len() && 0 <= j < all.1[i].trades.len() ==> trade_on_grid(
                        venue.spec,
                        #[trigger] all.1[i].trades[j],
                    )
            }
        }),
{
    let spec = venue.spec;
    let counted = BookState { next_seq: state.next_seq + 1, ..state };
    let named = Order { exchange_id: id, ..order };
    let first = model::step(venue, counted, named);
    lemma_counted_valid(venue, state, state.next_seq + 1);
    lemma_valid_stops_sound(venue, counted);
    model::lemma_step_keeps_stops_sound(venue, counted, named);
    if first.result is Ok {
        matching::lemma_cascade_arrivals(venue, first.state);
    }
    lemma_step_valid(venue, counted, named);
    assert forall|shelf: Shelf| shelf_on_grid(spec, #[trigger] counted.on(shelf)) by {
        assert(shelf_on_grid(spec, state.on(shelf)));
    }
    lemma_step_cases(venue, counted, named);
    if executes_now(counted, named) {
        executing_stays_on_the_grid(venue, counted, model::activated(named));
    } else {
        let after = first.state;
        assert forall|shelf: Shelf| shelf_on_grid(spec, #[trigger] after.on(shelf)) by {
            let was = counted.on(shelf);
            let now = after.on(shelf);
            assert(shelf_on_grid(spec, was));
            assert forall|q: u64, i: int| #[trigger] orderbook::placed(now, q, i) implies order_on_grid(
                spec,
                now[q][i],
            ) by {
                if orderbook::placed(was, q, i) {
                    assert(now[q][i] == was[q][i]);
                } else {
                    assert(now[q][i] == named);
                }
            }
        }
    }
    if first.result is Ok {
        lemma_cascade_on_grid(venue, first.state);
    }
}

// ---------------------------------------------------------------- cancelling

/// What is left in the queues once one order has been taken out is what was
/// there, less that order.
proof fn lemma_dequeued_places(queues: Map<u64, Seq<Order>>, p: u64, i: int, id: Seq<char>, q: u64)
    requires
        queues.contains_key(p),
        0 <= i < queues[p].len(),
    ensures
        forall|j: int| #[trigger]
            model::queued_at(model::dequeued(queues, p, i), id, q, j) ==> model::queued_at(
                queues,
                id,
                q,
                if q == p && j >= i {
                    j + 1
                } else {
                    j
                },
            ),
        forall|j: int|
            !(q == p && j == i) && #[trigger] model::queued_at(queues, id, q, j)
                ==> model::queued_at(
                model::dequeued(queues, p, i),
                id,
                q,
                if q == p && j > i {
                    j - 1
                } else {
                    j
                },
            ),
{
}

/// Cancelling takes one order out and leaves every other live, where no two
/// orders have the same name.
pub proof fn cancelling_forgets_one_order(before: BookState, id: Seq<char>, after: BookState)
    requires
        before.names_unique(),
        model::cancels(before, id, after),
    ensures
        !after.has_id(id),
        after.names_unique(),
        forall|other: Seq<char>|
            other != id ==> (#[trigger] after.has_id(other) <==> before.has_id(other)),
{
    let (shelf, p, i) = choose|shelf: Shelf, p: u64, i: int|
        #[trigger] model::queued_at(before.on(shelf), id, p, i) && after == before.with(
            shelf,
            model::dequeued(before.on(shelf), p, i),
        );
    let queues = before.on(shelf);
    assert(model::queued_at(queues, id, p, i));
    assert forall|s: Shelf| #[trigger] after.on(s) == (if s == shelf {
        model::dequeued(queues, p, i)
    } else {
        before.on(s)
    }) by {}
    assert forall|s: Shelf, q: u64, j: int, name: Seq<char>| #[trigger]
        model::queued_at(after.on(s), name, q, j) implies {
        let k = if s == shelf && q == p && j >= i {
            j + 1
        } else {
            j
        };
        &&& model::queued_at(before.on(s), name, q, k)
        &&& !(s == shelf && q == p && k == i)
        &&& name != id
    } by {
        lemma_dequeued_places(queues, p, i, name, q);
        let k = if s == shelf && q == p && j >= i {
            j + 1
        } else {
            j
        };
        assert(model::queued_at(before.on(s), name, q, k));
        if name == id {
            assert(s == shelf && q == p && k == i);
        }
    }
    if after.has_id(id) {
        let s = choose|s: Shelf| model::queues_have(#[trigger] after.on(s), id);
        let (q, j) = choose|q: u64, j: int| #[trigger] model::queued_at(after.on(s), id, q, j);
        assert(model::queued_at(after.on(s), id, q, j));
    }
    assert forall|other: Seq<char>| other != id implies (#[trigger] after.has_id(other)
        <==> before.has_id(other)) by {
        if after.has_id(other) {
            let s = choose|s: Shelf| model::queues_have(#[trigger] after.on(s), other);
            let (q, j) = choose|q: u64, j: int| #[trigger]
                model::queued_at(after.on(s), other, q, j);
            assert(model::queued_at(after.on(s), other, q, j));
            assert(model::queues_have(before.on(s), other));
        }
        if before.has_id(other) {
            let s = choose|s: Shelf| model::queues_have(#[trigger] before.on(s), other);
            let (q, j) = choose|q: u64, j: int| #[trigger]
                model::queued_at(before.on(s), other, q, j);
            assert(model::queued_at(before.on(s), other, q, j));
            if s == shelf {
                lemma_dequeued_places(queues, p, i, other, q);
                assert(!(q == p && j == i));
                assert(model::queued_at(
                    after.on(s),
                    other,
                    q,
                    if q == p && j > i {
                        j - 1
                    } else {
                        j
                    },
                ));
            } else {
                assert(model::queued_at(after.on(s), other, q, j));
            }
            assert(model::queues_have(after.on(s), other));
        }
    }
    assert forall|a: Shelf, q: u64, j: int, b: Shelf, r: u64, l: int, name: Seq<char>|
        #![trigger model::queued_at(after.on(a), name, q, j), model::queued_at(after.on(b), name, r, l)]
        model::queued_at(after.on(a), name, q, j) && model::queued_at(
            after.on(b),
            name,
            r,
            l,
        ) implies a == b && q == r && j == l by {
        let k = if a == shelf && q == p && j >= i {
            j + 1
        } else {
            j
        };
        let m = if b == shelf && r == p && l >= i {
            l + 1
        } else {
            l
        };
        assert(model::queued_at(before.on(a), name, q, k));
        assert(model::queued_at(before.on(b), name, r, m));
    }
}

/// A valid book in which no name is live holds nothing.
pub proof fn a_book_without_names_is_empty<M: MatchingAlgorithm>(
    venue: Venue<M>,
    state: BookState,
)
    requires
        valid(venue, state),
        forall|id: Seq<char>| !#[trigger] state.has_id(id),
    ensures
        forall|shelf: Shelf| #[trigger] state.on(shelf) == Map::<u64, Seq<Order>>::empty(),
{
    assert forall|shelf: Shelf| #[trigger] state.on(shelf) =~= Map::<
        u64,
        Seq<Order>,
    >::empty() by {
        let queues = state.on(shelf);
        assert forall|p: u64| !queues.contains_key(p) by {
            if queues.contains_key(p) {
                let lot = venue.matcher.spec_lot_size();
                match shelf {
                    Shelf::Levels(side) => {
                        assert(side_valid(lot, state, side));
                    },
                    Shelf::Stops(side) => {
                        assert(side_valid(lot, state, side));
                    },
                }
                let id = queues[p][0].exchange_id@;
                assert(model::queued_at(queues, id, p, 0));
                assert(model::queues_have(queues, id));
                assert(state.has_id(id));
            }
        }
    }
}

/// Index consistency: cancelling the live orders by name, one after the other,
/// ends in a book in which no name is live.
pub proof fn cancelling_every_order_drains_the_book(states: Seq<BookState>, ids: Seq<Seq<char>>)
    requires
        states.len() == ids.len() + 1,
        states[0].names_unique(),
        forall|k: int|
            0 <= k < ids.len() ==> model::cancels(
                states[k],
                #[trigger] ids[k],
                states[k + 1],
            ),
        forall|id: Seq<char>| #[trigger] states[0].has_id(id) ==> ids.contains(id),
    ensures
        forall|id: Seq<char>| !#[trigger] states[ids.len() as int].has_id(id),
    decreases ids.len(),
{
    if ids.len() > 0 {
        let id0 = ids[0];
        assert(model::cancels(states[0], ids[0], states[0int + 1]));
        cancelling_forgets_one_order(states[0], id0, states[1]);
        let later = states.skip(1);
        let rest = ids.skip(1);
        assert forall|k: int| 0 <= k < rest.len() implies model::cancels(
            later[k],
            #[trigger] rest[k],
            later[k + 1],
        ) by {
            assert(model::cancels(states[k + 1], ids[k + 1], states[k + 1 + 1]));
        }
        assert forall|id: Seq<char>| #[trigger] later[0].has_id(id) implies rest.contains(id) by {
            assert(states[1].has_id(id));
            assert(states[0].has_id(id));
            let k = ids.index_of(id);
            assert(ids[k] == id);
            assert(rest[k - 1] == id);
        }
        cancelling_every_order_drains_the_book(later, rest);
        assert(later[rest.len() as int] == states[ids.len() as int]);
    } else {
        assert forall|id: Seq<char>| !#[trigger] states[0].has_id(id) by {
            assert(!ids.contains(id));
        }
    }
}

/// Resting an order and cancelling it puts every queue back as it was: only the
/// place in line is used up.
pub proof fn cancelling_undoes_resting<M: MatchingAlgorithm>(
    venue: Venue<M>,
    state: BookState,
    order: Order,
    after: BookState,
)
    requires
        valid(venue, state),
        model::rest_error(venue, state, order) is None,
        model::cancels(model::rested(state, order), order.exchange_id@, after),
    ensures
        after == (BookState { next_arrival: state.next_arrival + 1, ..state }),
{
    let id = order.exchange_id@;
    let mid = model::rested(state, order);
    let side = order.side;
    let p = order.order_type.limit_price()->0.minor();
    let home = Shelf::Levels(side);
    let stamped = Order { arrival: state.next_arrival as u32, ..order };
    let levels = state.resting(side);
    let more = mid.resting(side);
    let last = more[p].len() - 1;
    let (shelf, q, i) = choose|shelf: Shelf, q: u64, i: int|
        #[trigger] model::queued_at(mid.on(shelf), id, q, i) && after == mid.with(
            shelf,
            model::dequeued(mid.on(shelf), q, i),
        );
    assert(model::queued_at(mid.on(shelf), id, q, i));
    assert(mid.on(home) == more);
    // the order itself is the only one of its name
    assert(shelf == home && q == p && i == last) by {
        if !(shelf == home && q == p && i == last) {
            let queues = state.on(shelf);
            if shelf == home && q == p {
                assert(levels.contains_key(p));
                assert(more[p] == levels[p].push(stamped));
                assert(model::queued_at(queues, id, q, i));
            } else {
                assert(model::queued_at(queues, id, q, i));
            }
            assert(model::queues_have(queues, id));
            assert(state.has_id(id));
        }
    }
    let back = model::dequeued(more, p, last);
    assert(side_valid(venue.matcher.spec_lot_size(), state, side));
    if levels.contains_key(p) {
        assert(more[p].remove(last) =~= levels[p]);
    }
    assert(back =~= levels);
    assert(after =~= (BookState { next_arrival: state.next_arrival + 1, ..state }));
}

// ---------------------------------------------------------------- whole submissions

/// Whether an execution accounts for what its order brings, and its trades are
/// fair.
pub open spec fn keeps_faith<M: MatchingAlgorithm>(
    venue: Venue<M>,
    state: BookState,
    order: Order,
) -> bool {
    &&& conserves(venue, state, order)
    &&& exists|places: Seq<int>| #[trigger] trades_fairly(venue, state, order, places)
}

/// Whether the `i`th stop of a cascade fires in turn, accounts for what it
/// brings, and trades fairly.
pub open spec fn fires_in_good_faith<M: MatchingAlgorithm>(
    venue: Venue<M>,
    state: BookState,
    reports: Seq<Report>,
    i: int,
) -> bool {
    let then = moment(venue, state, i as nat);
    &&& fires_in_turn(venue, state, reports, i)
    &&& keeps_faith(
        venue,
        model::without_next_stop(then),
        model::activated(model::next_stop(then)),
    )
}

/// Conservation and price validity hold of every execution of a submission: of
/// the order itself, where it is not parked, and of each stop that it sets off.
pub proof fn a_submission_keeps_faith<M: MatchingAlgorithm>(
    venue: Venue<M>,
    state: BookState,
    order: Order,
    id: ExchangeId,
)
    requires
        valid(venue, state),
        matching::in_lots(venue.matcher.spec_lot_size(), order),
        model::submitted(venue, state, order, id).result is Ok,
        model::submitted(venue, state, order, id).state.next_arrival <= u32::MAX,
    ensures
        ({
            let counted = BookState { next_seq: state.next_seq + 1, ..state };
            let named = Order { exchange_id: id, ..order };
            let after = model::step(venue, counted, named).state;
            let (report, reports) = model::submitted(venue, state, order, id).result->Ok_0;
            &&& if executes_now(counted, named) {
                &&& keeps_faith(venue, counted, model::activated(named))
                &&& model::plain_step(venue, counted, model::activated(named)).result == Ok::<
                    Report,
                    OrderBookError,
                >(report)
            } else {
                &&& report.outcome == SubmitOutcome::StopPending
                &&& report.trades.len() == 0
                &&& after.stops(order.side) == model::enqueued(
                    state.stops(order.side),
                    order.order_type.trigger()->0.minor(),
                    named,
                )
            }
            &&& forall|i: int|
                0 <= i < reports.len() ==> #[trigger] fires_in_good_faith(
                    venue,
                    after,
                    reports,
                    i,
                )
        }),
{
    let counted = BookState { next_seq: state.next_seq + 1, ..state };
    let named = Order { exchange_id: id, ..order };
    let first = model::step(venue, counted, named);
    let reports = model::submitted(venue, state, order, id).result->Ok_0.1;
    lemma_counted_valid(venue, state, state.next_seq + 1);
    lemma_valid_stops_sound(venue, counted);
    model::lemma_step_keeps_stops_sound(venue, counted, named);
    matching::lemma_cascade_arrivals(venue, first.state);
    lemma_step_valid(venue, counted, named);
    lemma_step_cases(venue, counted, named);
    if executes_now(counted, named) {
        let active = model::activated(named);
        nothing_is_lost(venue, counted, active);
        let places = trades_are_fair(venue, counted, active);
        assert(trades_fairly(venue, counted, active, places));
    }
    a_cascade_is_a_run_of_executions(venue, first.state);
    assert forall|i: int| 0 <= i < reports.len() implies #[trigger] fires_in_good_faith(
        venue,
        first.state,
        reports,
        i,
    ) by {
        assert(fires_in_turn(venue, first.state, reports, i));
        let then = moment(venue, first.state, i as nat);
        let before = model::without_next_stop(then);
        let stop = model::activated(model::next_stop(then));
        lemma_next_stop_valid(venue, then);
        nothing_is_lost(venue, before, stop);
        let places = trades_are_fair(venue, before, stop);
        assert(trades_fairly(venue, before, stop, places));
    }
}

// ---------------------------------------------------------------- counting

proof fn lemma_one_more_waits(queues: Map<u64, Seq<Order>>, t: u64, order: Order)
    requires
        queues.dom().finite(),
    ensures
        model::queued(model::enqueued(queues, t, order)) == model::queued(queues) + 1,
{
    let more = model::enqueued(queues, t, order);
    if queues.contains_key(t) {
        let rest = queues.remove(t);
        assert(rest.dom() =~= queues.dom().remove(t));
        model::lemma_queued_remove(queues, t);
        model::lemma_queued_insert(rest, t, queues[t].push(order));
        assert(more =~= rest.insert(t, queues[t].push(order)));
    } else {
        model::lemma_queued_insert(queues, t, seq![order]);
    }
}

/// Firing stops takes at most one place in line for each that waits.
proof fn lemma_places_of_a_cascade<M: MatchingAlgorithm>(venue: Venue<M>, state: BookState)
    requires
        model::stops_sound(state),
    ensures
        state.next_arrival <= model::cascade(venue, state).state.next_arrival
            <= state.next_arrival + model::waiting(state),
    decreases model::waiting(state),
{
    if model::next_trigger(state) is Some {
        let before = model::without_next_stop(state);
        let stop = model::activated(model::next_stop(state));
        let fired = model::plain_step(venue, before, stop);
        model::lemma_next_stop_taken(state);
        model::lemma_plain_step_keeps_stops(venue, before, stop);
        assert(model::waiting(fired.state) == model::waiting(before));
        if fired.result is Ok {
            lemma_places_of_a_cascade(venue, fired.state);
        }
    }
}

/// A submission takes at most one place in line for its order and one for each
/// waiting stop, and gives none back. A book that has so many places left, and a
/// name, can count it.
pub proof fn a_submission_takes_few_places<M: MatchingAlgorithm>(
    venue: Venue<M>,
    state: BookState,
    order: Order,
    id: ExchangeId,
)
    requires
        model::stops_sound(state),
    ensures
        state.next_arrival <= model::submitted(venue, state, order, id).state.next_arrival
            <= state.next_arrival + model::waiting(state) + 1,
        state.next_seq < u64::MAX && state.next_arrival + model::waiting(state) < u32::MAX
            ==> matching::countable(venue, state, order),
{
    lemma_places_of_a_submission(venue, state, order, id);
    if state.next_arrival + model::waiting(state) < u32::MAX {
        assert forall|name: ExchangeId|
            (#[trigger] model::submitted(venue, state, order, name)).state.next_arrival
                <= u32::MAX by {
            lemma_places_of_a_submission(venue, state, order, name);
        }
    }
}

proof fn lemma_places_of_a_submission<M: MatchingAlgorithm>(
    venue: Venue<M>,
    state: BookState,
    order: Order,
    id: ExchangeId,
)
    requires
        model::stops_sound(state),
    ensures
        state.next_arrival <= model::submitted(venue, state, order, id).state.next_arrival
            <= state.next_arrival + model::waiting(state) + 1,
{
    let counted = BookState { next_seq: state.next_seq + 1, ..state };
    let named = Order { exchange_id: id, ..order };
    let first = model::step(venue, counted, named);
    model::lemma_step_keeps_stops_sound(venue, counted, named);
    match named.order_type.trigger() {
        Some(trigger) => {
            if model::triggered(counted.last_trade, named.side, trigger.minor()) {
                model::lemma_plain_step_keeps_stops(venue, counted, model::activated(named));
            } else {
                lemma_one_more_waits(counted.stops(named.side), trigger.minor(), named);
            }
        },
        None => {
            model::lemma_plain_step_keeps_stops(venue, counted, named);
        },
    }
    if first.result is Ok {
        lemma_places_of_a_cascade(venue, first.state);
    }
}

} // verus!
