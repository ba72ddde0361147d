//! What does not depend on the store, and what does not depend on the policy.

use crate::allocation;
use crate::allocation::Fill;
use crate::allocation::FifoMatcher;
use crate::allocation::MatchingAlgorithm;
use crate::instrument::InstrumentSpec;
use crate::laws;
use crate::matching;
use crate::matching::ExecutionReport;
use crate::matching::Trade;
use crate::model;
use crate::model::BookState;
use crate::model::Report;
use crate::model::Shelf;
use crate::model::Step;
use crate::model::Venue;
use crate::names;
use crate::order_queue;
use crate::orderbook;
use crate::orderbook::OrderBook;
use crate::orderbook::OrderBookError;
use crate::storage;
use crate::storage::OrderBookStore;
use crate::sums;
use crate::types;
use crate::types::ExchangeId;
use crate::types::Order;
use crate::types::OrderType;
use crate::types::Price;
use crate::types::Side;
use crate::types::TimeInForce;
use vstd::prelude::*;

verus! {

// ---------------------------------------------------------------- stores

/// Whether every price that the instrument admits can be held.
pub open spec fn holds_admitted<M>(venue: Venue<M>) -> bool {
    forall|p: Price|
        venue.spec.on_tick(p) && venue.spec.price_refusal(p) is None ==> venue.span.contains(
            #[trigger] p.minor(),
        )
}

/// Whether every price of every waiting stop is on the tick grid.
pub open spec fn stops_on_tick(spec: InstrumentSpec, state: BookState) -> bool {
    &&& laws::all_types_on_grid(spec, state.stop_bids)
    &&& laws::all_types_on_grid(spec, state.stop_asks)
}

/// Whether two venues differ in the prices that their stores can hold alone.
pub open spec fn same_but_for_store<M>(a: Venue<M>, b: Venue<M>) -> bool {
    &&& a.spec == b.spec
    &&& a.matcher == b.matcher
    &&& holds_admitted(a)
    &&& holds_admitted(b)
}

/// An execution does not depend on the store.
proof fn lemma_execution_same<M: MatchingAlgorithm>(
    a: Venue<M>,
    b: Venue<M>,
    state: BookState,
    order: Order,
)
    requires
        same_but_for_store(a, b),
        laws::types_on_grid(a.spec, order),
    ensures
        model::plain_step(a, state, order) == model::plain_step(b, state, order),
{
    match order.order_type {
        OrderType::Limit { price, tif } => {
            let swept = model::sweep_for(a, state, order, Some(price));
            let remainder = Order {
                remaining_quantity: allocation::qty_of(swept.remaining),
                ..order
            };
            if model::refusal(a.spec, remainder) is None {
                assert(a.spec.price_refusal(price) is None);
                assert(a.span.contains(price.minor()));
                assert(b.span.contains(price.minor()));
            }
        },
        _ => {},
    }
}

proof fn lemma_cascade_same<M: MatchingAlgorithm>(a: Venue<M>, b: Venue<M>, state: BookState)
    requires
        same_but_for_store(a, b),
        model::stops_sound(state),
        stops_on_tick(a.spec, state),
    ensures
        model::cascade(a, state) == model::cascade(b, state),
    decreases model::waiting(state),
{
    if model::next_trigger(state) is Some {
        let (side, trigger) = model::next_trigger(state)->0;
        let before = model::without_next_stop(state);
        let stop = model::activated(model::next_stop(state));
        model::lemma_next_stop_taken(state);
        model::lemma_plain_step_keeps_stops(a, before, stop);
        let stops = state.stops(side);
        assert(orderbook::placed(stops, trigger, 0));
        assert(laws::types_on_grid(a.spec, stops[trigger][0]));
        lemma_execution_same(a, b, before, stop);
        let fired = model::plain_step(a, before, stop);
        assert(laws::all_types_on_grid(a.spec, before.stops(side))) by {
            let left = before.stops(side);
            assert forall|t: u64, i: int| #[trigger] orderbook::placed(left, t, i) implies laws::types_on_grid(
                a.spec,
                left[t][i],
            ) by {
                if t == trigger {
                    assert(orderbook::placed(stops, t, i + 1));
                    assert(left[t][i] == stops[t][i + 1]);
                } else {
                    assert(orderbook::placed(stops, t, i));
                }
            }
        }
        assert(stops_on_tick(a.spec, fired.state));
        lemma_cascade_same(a, b, fired.state);
    }
}

/// A submission does not depend on the store, as long as prices are on the tick
/// grid and the store can hold what the instrument admits.
pub proof fn submitting_does_not_depend_on_the_store<M: MatchingAlgorithm>(
    a: Venue<M>,
    b: Venue<M>,
    state: BookState,
    order: Order,
    id: ExchangeId,
)
    requires
        same_but_for_store(a, b),
        model::stops_sound(state),
        stops_on_tick(a.spec, state),
        laws::types_on_grid(a.spec, order),
    ensures
        model::submitted(a, state, order, id) == model::submitted(b, state, order, id),
{
    let counted = BookState { next_seq: state.next_seq + 1, ..state };
    let named = Order { exchange_id: id, ..order };
    let first = model::step(a, counted, named);
    laws::lemma_step_cases(a, counted, named);
    laws::lemma_step_cases(b, counted, named);
    assert(laws::types_on_grid(a.spec, model::activated(named)));
    lemma_execution_same(a, b, counted, model::activated(named));
    assert(first == model::step(b, counted, named));
    model::lemma_step_keeps_stops_sound(a, counted, named);
    if laws::executes_now(counted, named) {
        model::lemma_plain_step_keeps_stops(a, counted, model::activated(named));
    } else {
        let was = counted.stops(named.side);
        let now = first.state.stops(named.side);
        assert forall|t: u64, i: int| #[trigger] orderbook::placed(now, t, i) implies laws::types_on_grid(
            a.spec,
            now[t][i],
        ) by {
            if orderbook::placed(was, t, i) {
                assert(now[t][i] == was[t][i]);
            } else {
                assert(now[t][i] == named);
            }
        }
    }
    lemma_cascade_same(a, b, first.state);
}

/// What a submission was answered.
pub open spec fn answer(result: Result<ExecutionReport, OrderBookError>) -> Result<
    (Report, Seq<Report>),
    OrderBookError,
> {
    match result {
        Ok(report) => Ok((report.own(), matching::fired(report.triggered@))),
        Err(error) => Err(error),
    }
}

/// Whether two submissions were answered alike, down to the names of the orders.
pub open spec fn same_answer(
    a: Result<ExecutionReport, OrderBookError>,
    b: Result<ExecutionReport, OrderBookError>,
) -> bool {
    names::answer_by_name(answer(a)) == names::answer_by_name(answer(b))
}

/// Whether two books hold the same orders under the same names, in the same
/// places.
pub open spec fn same_book(a: BookState, b: BookState) -> bool {
    names::book_by_name(a) == names::book_by_name(b)
}

/// The stops of a book that is the same are on the tick grid as well.
proof fn lemma_stops_on_tick_by_name(spec: InstrumentSpec, state: BookState)
    requires
        stops_on_tick(spec, state),
    ensures
        stops_on_tick(spec, names::book_by_name(state)),
{
    let named = names::book_by_name(state);
    assert forall|t: u64, i: int| #[trigger]
        orderbook::placed(named.stop_bids, t, i) implies laws::types_on_grid(
        spec,
        named.stop_bids[t][i],
    ) by {
        names::lemma_placed(state.stop_bids, t, i);
    }
    assert forall|t: u64, i: int| #[trigger]
        orderbook::placed(named.stop_asks, t, i) implies laws::types_on_grid(
        spec,
        named.stop_asks[t][i],
    ) by {
        names::lemma_placed(state.stop_asks, t, i);
    }
}

/// Stores are interchangeable: two books of the same instrument and policy that
/// are the same, however they hold their levels, answer an order alike and are
/// the same afterwards. So this goes for a whole stream of orders.
pub proof fn stores_are_interchangeable<M: MatchingAlgorithm>(
    v: Venue<M>,
    w: Venue<M>,
    a: BookState,
    b: BookState,
    order: Order,
    r: Result<ExecutionReport, OrderBookError>,
    s: Result<ExecutionReport, OrderBookError>,
    x: BookState,
    y: BookState,
)
    requires
        same_but_for_store(v, w),
        laws::valid(v, a),
        laws::valid(w, b),
        same_book(a, b),
        stops_on_tick(v.spec, a),
        laws::types_on_grid(v.spec, order),
        matching::in_lots(v.matcher.spec_lot_size(), order),
        matching::submits(v, a, order, r, x),
        matching::submits(w, b, order, s, y),
        x.next_arrival <= u32::MAX,
        y.next_arrival <= u32::MAX,
    ensures
        same_answer(r, s),
        same_book(x, y),
{
    if model::refusal(v.spec, order) is None {
        let id = choose|id: ExchangeId|
            {
                &&& id@ == types::sequence_name(a.next_seq as nat)
                &&& matching::answered(#[trigger] model::submitted(v, a, order, id), x, r)
            };
        let other = choose|id: ExchangeId|
            {
                &&& id@ == types::sequence_name(b.next_seq as nat)
                &&& matching::answered(#[trigger] model::submitted(w, b, order, id), y, s)
            };
        assert(a.next_seq == b.next_seq) by {
            assert(names::book_by_name(a).next_seq == names::book_by_name(b).next_seq);
        }
        names::submitting_depends_on_names_alone(v, a, order, id);
        names::submitting_depends_on_names_alone(w, b, order, other);
        let named = names::book_by_name(a);
        names::lemma_valid_by_name(v, a);
        laws::lemma_valid_stops_sound(v, named);
        lemma_stops_on_tick_by_name(v.spec, a);
        submitting_does_not_depend_on_the_store(v, w, named, order, names::known_as(id@));
        assert(model::submitted(v, a, order, id).result == answer(r));
        assert(model::submitted(w, b, order, other).result == answer(s));
    }
}

/// A book can hold every price that its instrument admits.
pub proof fn every_book_holds_what_is_admitted<M: MatchingAlgorithm, S: OrderBookStore>(
    book: OrderBook<M, S>,
)
    requires
        book.wf(),
    ensures
        holds_admitted(book.venue()),
{
}

// ---------------------------------------------------------------- policies

/// Whether levels are at the same prices and hold as much at each.
pub open spec fn alike(a: Map<u64, Seq<Order>>, b: Map<u64, Seq<Order>>) -> bool {
    &&& a.dom() == b.dom()
    &&& forall|p: u64| #[trigger]
        a.contains_key(p) ==> types::total_remaining(a[p]) == types::total_remaining(b[p])
}

/// Whether none of the orders is the client's.
pub open spec fn none_own(queues: Map<u64, Seq<Order>>, client: Seq<char>) -> bool {
    forall|p: u64, i: int| #[trigger]
        orderbook::placed(queues, p, i) ==> queues[p][i].client_id@ != client
}

/// Where none of a queue is the client's, all of it is others'.
proof fn lemma_nothing_owned(queue: Seq<Order>, client: Seq<char>)
    requires
        forall|i: int| 0 <= i < queue.len() ==> (#[trigger] queue[i]).client_id@ != client,
    ensures
        order_queue::owned(queue, client) == Seq::<Order>::empty(),
        order_queue::not_owned(queue, client) == queue,
    decreases queue.len(),
{
    if queue.len() > 0 {
        let rest = queue.drop_last();
        assert forall|i: int| 0 <= i < rest.len() implies (#[trigger] rest[i]).client_id@
            != client by {
            assert(rest[i] == queue[i]);
        }
        lemma_nothing_owned(rest, client);
        assert(queue.last() == queue[queue.len() - 1]);
        assert(rest.push(queue.last()) =~= queue);
    }
}

/// Whether one queue is what is left of another: some orders are gone, of some
/// there is less, and the order of the rest is the same.
pub open spec fn thins(before: Seq<Order>, after: Seq<Order>, places: Seq<int>) -> bool {
    &&& places.len() == after.len()
    &&& forall|k: int|
        0 <= k < places.len() ==> {
            &&& 0 <= #[trigger] places[k] < before.len()
            &&& matching::same_but_for_remainder(before[places[k]], after[k])
        }
    &&& forall|k: int, l: int|
        0 <= k < l < places.len() ==> #[trigger] places[k] < #[trigger] places[l]
}

/// Whether levels are what is left of others.
pub open spec fn thinned(before: Map<u64, Seq<Order>>, after: Map<u64, Seq<Order>>) -> bool {
    forall|p: u64| #[trigger]
        after.contains_key(p) ==> before.contains_key(p) && exists|places: Seq<int>| #[trigger]
            thins(before[p], after[p], places)
}

/// What the fills leave of a queue.
proof fn lemma_left_places(queue: Seq<Order>, fills: Seq<Fill>, reach: int) -> (places: Seq<int>)
    ensures
        thins(queue, model::after_fills(queue, fills, reach), places),
        forall|k: int|
            0 <= k < places.len() ==> !matching::struck(
                queue,
                fills,
                reach,
                #[trigger] places[k],
            ),
    decreases queue.len(),
{
    if queue.len() == 0 {
        Seq::empty()
    } else {
        let rest = queue.drop_last();
        let before = lemma_left_places(rest, fills, reach);
        let n = queue.len() - 1;
        let got = allocation::allotted(fills, n);
        let left = model::after_fills(queue, fills, reach);
        assert forall|k: int| 0 <= k < before.len() implies 0 <= #[trigger] before[k] < n
            && rest[before[k]] == queue[before[k]] by {}
        let places = if matching::struck(queue, fills, reach, n) {
            before
        } else {
            before.push(n)
        };
        assert(thins(queue, left, places)) by {
            assert forall|k: int| 0 <= k < places.len() implies {
                &&& 0 <= #[trigger] places[k] < queue.len()
                &&& matching::same_but_for_remainder(queue[places[k]], left[k])
            } by {
                if k < before.len() {
                    assert(places[k] == before[k]);
                    assert(left[k] == model::after_fills(rest, fills, reach)[k]);
                    assert(rest[before[k]] == queue[before[k]]);
                }
            }
        }
        assert forall|k: int| 0 <= k < places.len() implies !matching::struck(
            queue,
            fills,
            reach,
            #[trigger] places[k],
        ) by {
            if k < before.len() {
                assert(places[k] == before[k]);
                assert(!matching::struck(rest, fills, reach, before[k]));
                assert(rest[before[k]] == queue[before[k]]);
            }
        }
        places
    }
}

proof fn lemma_unchanged_thins(queue: Seq<Order>)
    ensures
        thins(queue, queue, Seq::new(queue.len(), |i: int| i)),
{
}

/// A sweep takes from levels and adds nothing.
pub(crate) proof fn lemma_sweep_thins<M: MatchingAlgorithm>(
    matcher: M,
    levels: Map<u64, Seq<Order>>,
    taker: Order,
    limit: Option<Price>,
    remaining: int,
    now: int,
)
    requires
        levels.dom().finite(),
    ensures
        thinned(levels, model::sweep(matcher, levels, taker, limit, remaining, now).levels),
    decreases levels.dom().len(),
{
    let side = model::opposite(taker.side);
    let swept = model::sweep(matcher, levels, taker, limit, remaining, now);
    let found = storage::best(levels.dom(), side);
    if remaining <= 0 || found is None || !levels.contains_key(found->0) || !model::acceptable(
        taker.side,
        limit,
        found->0,
    ) {
        assert forall|q: u64| #[trigger] levels.contains_key(q) implies exists|places: Seq<int>|
            #[trigger] thins(levels[q], levels[q], places) by {
            lemma_unchanged_thins(levels[q]);
        }
    } else {
        let p = found->0;
        let queue = levels[p];
        let (others, fills) = laws::met(matcher, queue, taker, remaining, now);
        let rest = remaining - sums::sum(allocation::taken(fills));
        let left = model::level_left(others, fills, rest);
        if left.len() == 0 {
            let fewer = levels.remove(p);
            assert(fewer.dom() =~= levels.dom().remove(p));
            lemma_sweep_thins(matcher, fewer, taker, limit, rest, now);
            assert forall|q: u64| #[trigger] swept.levels.contains_key(q) implies levels.contains_key(
                q,
            ) && exists|places: Seq<int>| #[trigger] thins(levels[q], swept.levels[q], places) by {
                assert(fewer.contains_key(q));
                let places = choose|places: Seq<int>| #[trigger]
                    thins(fewer[q], swept.levels[q], places);
                assert(thins(levels[q], swept.levels[q], places));
            }
        } else {
            let seats = laws::lemma_others_places(queue, taker.client_id@);
            let inner = lemma_left_places(others, fills, model::passed(others, fills, rest));
            let places = Seq::new(inner.len(), |k: int| seats[inner[k]]);
            assert(thins(queue, left, places)) by {
                assert forall|k: int| 0 <= k < places.len() implies {
                    &&& 0 <= #[trigger] places[k] < queue.len()
                    &&& matching::same_but_for_remainder(queue[places[k]], left[k])
                } by {
                    assert(0 <= inner[k] < others.len());
                    assert(queue[seats[inner[k]]] == others[inner[k]]);
                }
                assert forall|k: int, l: int| 0 <= k < l < places.len() implies #[trigger] places[k]
                    < #[trigger] places[l] by {
                    assert(inner[k] < inner[l]);
                    assert(seats[inner[k]] < seats[inner[l]]);
                }
            }
            assert forall|q: u64| #[trigger] swept.levels.contains_key(q) implies levels.contains_key(
                q,
            ) && exists|places: Seq<int>| #[trigger] thins(levels[q], swept.levels[q], places) by {
                if q != p {
                    assert(levels.contains_key(q));
                    assert(swept.levels[q] == levels[q]);
                    lemma_unchanged_thins(levels[q]);
                    assert(thins(
                        levels[q],
                        swept.levels[q],
                        Seq::new(levels[q].len(), |i: int| i),
                    ));
                } else {
                    assert(swept.levels[q] == left);
                    assert(thins(levels[q], swept.levels[q], places));
                }
            }
        }
    }
}

/// Fills that take nothing at all are none.
pub(crate) proof fn lemma_taken_something(fills: Seq<Fill>)
    requires
        forall|i: int| 0 <= i < fills.len() ==> 0 < (#[trigger] fills[i]).quantity.base(),
    ensures
        sums::sum(allocation::taken(fills)) > 0 <==> fills.len() > 0,
        sums::sum(allocation::taken(fills)) >= 0,
{
    let took = allocation::taken(fills);
    if fills.len() > 0 {
        assert forall|i: int| 0 <= i < took.len() implies 0 <= #[trigger] took[i] by {
            assert(fills[i].quantity.base() > 0);
        }
        sums::lemma_sum_bounds_element(took, 0);
        assert(fills[0].quantity.base() > 0);
    } else {
        assert(took =~= Seq::<int>::empty());
    }
}

/// Policies decide who is filled, never how much: on levels that are alike, and
/// where the taker has no order of its own, sweeps fill as much, leave levels
/// that are alike, cancel nothing and print their last trade at the same price.
proof fn lemma_sweeps_agree<M: MatchingAlgorithm, N: MatchingAlgorithm>(
    m: M,
    n: N,
    a: Map<u64, Seq<Order>>,
    b: Map<u64, Seq<Order>>,
    taker: Order,
    limit: Option<Price>,
    remaining: int,
    now: int,
)
    requires
        m.wf(),
        n.wf(),
        laws::levels_ok(m.spec_lot_size(), a),
        laws::levels_ok(n.spec_lot_size(), b),
        laws::amount_ok(m.spec_lot_size(), remaining),
        laws::amount_ok(n.spec_lot_size(), remaining),
        alike(a, b),
        none_own(a, taker.client_id@),
        none_own(b, taker.client_id@),
        laws::queues_positive(a),
        laws::queues_positive(b),
    ensures
        ({
            let x = model::sweep(m, a, taker, limit, remaining, now);
            let y = model::sweep(n, b, taker, limit, remaining, now);
            &&& x.remaining == y.remaining
            &&& laws::volume(x.trades) == laws::volume(y.trades)
            &&& alike(x.levels, y.levels)
            &&& x.cancelled.len() == 0
            &&& y.cancelled.len() == 0
            &&& (x.trades.len() == 0 <==> y.trades.len() == 0)
            &&& x.trades.len() > 0 ==> x.trades.last().price == y.trades.last().price
            &&& model::reachable(a, taker, limit) == model::reachable(b, taker, limit)
        }),
    decreases a.dom().len(),
{
    let client = taker.client_id@;
    let side = model::opposite(taker.side);
    let x = model::sweep(m, a, taker, limit, remaining, now);
    let y = model::sweep(n, b, taker, limit, remaining, now);
    laws::lemma_sweep_accounts(m, a, taker, limit, remaining, now);
    laws::lemma_sweep_accounts(n, b, taker, limit, remaining, now);
    lemma_reach_agrees(a, b, taker, limit);
    let found = storage::best(a.dom(), side);
    if found is Some {
        assert(a.dom().len() > 0);
        storage::lemma_best_exists(a.dom(), side);
        assert(a.dom().contains(found->0));
        assert(b.dom().contains(found->0));
        assert(a.contains_key(found->0) && b.contains_key(found->0));
    }
    if !(remaining <= 0 || found is None || !model::acceptable(taker.side, limit, found->0)) {
        let p = found->0;
        let price = model::price_of(p);
        laws::lemma_met(m, a[p], taker, price, remaining, now);
        laws::lemma_met(n, b[p], taker, price, remaining, now);
        assert forall|i: int| 0 <= i < a[p].len() implies (#[trigger] a[p][i]).client_id@ != client by {
            assert(orderbook::placed(a, p, i));
        }
        assert forall|i: int| 0 <= i < b[p].len() implies (#[trigger] b[p][i]).client_id@ != client by {
            assert(orderbook::placed(b, p, i));
        }
        lemma_nothing_owned(a[p], client);
        lemma_nothing_owned(b[p], client);
        let (_, fills_a) = laws::met(m, a[p], taker, remaining, now);
        let (_, fills_b) = laws::met(n, b[p], taker, remaining, now);
        let took = sums::sum(allocation::taken(fills_a));
        assert(took == sums::sum(allocation::taken(fills_b)));
        let left_a = model::level_left(a[p], fills_a, remaining - took);
        let left_b = model::level_left(b[p], fills_b, remaining - took);
        assert forall|i: int| 0 <= i < a[p].len() implies (
        #[trigger] a[p][i]).remaining_quantity.base() > 0 by {
            assert(orderbook::placed(a, p, i));
        }
        assert forall|i: int| 0 <= i < b[p].len() implies (
        #[trigger] b[p][i]).remaining_quantity.base() > 0 by {
            assert(orderbook::placed(b, p, i));
        }
        laws::lemma_level_positive(a[p], fills_a, remaining - took);
        laws::lemma_level_positive(b[p], fills_b, remaining - took);
        laws::lemma_positive_total(left_a);
        laws::lemma_positive_total(left_b);
        if left_a.len() == 0 {
            assert(types::remainders(left_a) =~= Seq::<int>::empty());
        }
        if left_b.len() == 0 {
            assert(types::remainders(left_b) =~= Seq::<int>::empty());
        }
        assert(left_a.len() == 0 <==> left_b.len() == 0);
        let trades_a = model::trades_of(taker, a[p], price, fills_a);
        let trades_b = model::trades_of(taker, b[p], price, fills_b);
        lemma_taken_something(fills_a);
        lemma_taken_something(fills_b);
        assert(fills_a.len() > 0 <==> fills_b.len() > 0);
        if fills_a.len() > 0 {
            assert(trades_a.last().price == price && trades_b.last().price == price);
        }
        if left_a.len() == 0 {
            let fewer_a = a.remove(p);
            let fewer_b = b.remove(p);
            let rest = remaining - took;
            lemma_fewer(m.spec_lot_size(), a, p, client);
            lemma_fewer(n.spec_lot_size(), b, p, client);
            assert(fewer_a.dom() =~= fewer_b.dom());
            assert forall|q: u64| #[trigger] fewer_a.contains_key(q) implies types::total_remaining(
                fewer_a[q],
            ) == types::total_remaining(fewer_b[q]) by {
                assert(a.contains_key(q));
            }
            lemma_sweeps_agree(m, n, fewer_a, fewer_b, taker, limit, rest, now);
            let next_a = model::sweep(m, fewer_a, taker, limit, rest, now);
            let next_b = model::sweep(n, fewer_b, taker, limit, rest, now);
            assert(x.trades == trades_a + next_a.trades);
            assert(y.trades == trades_b + next_b.trades);
            if next_a.trades.len() == 0 {
                assert(x.trades =~= trades_a);
                assert(y.trades =~= trades_b);
            } else {
                assert(x.trades.last() == next_a.trades.last());
                assert(y.trades.last() == next_b.trades.last());
            }
        } else {
            assert(x.levels.dom() =~= y.levels.dom());
            assert forall|q: u64| #[trigger] x.levels.contains_key(q) implies types::total_remaining(
                x.levels[q],
            ) == types::total_remaining(y.levels[q]) by {
                if q != p {
                    assert(a.contains_key(q));
                }
            }
        }
    }
}

/// Taking a level away keeps what is known of the others.
proof fn lemma_fewer(lot: Option<u64>, levels: Map<u64, Seq<Order>>, p: u64, client: Seq<char>)
    requires
        laws::levels_ok(lot, levels),
        none_own(levels, client),
    ensures
        laws::levels_ok(lot, levels.remove(p)),
        none_own(levels.remove(p), client),
        laws::queues_positive(levels) ==> laws::queues_positive(levels.remove(p)),
        levels.contains_key(p) ==> levels.remove(p).dom().len() == levels.dom().len() - 1,
{
    let fewer = levels.remove(p);
    assert(fewer.dom() =~= levels.dom().remove(p));
    assert forall|q: u64| #[trigger] fewer.contains_key(q) implies laws::queue_ok(lot, fewer[q]) by {
        assert(levels.contains_key(q));
    }
    assert forall|q: u64, i: int| #[trigger] orderbook::placed(fewer, q, i) implies fewer[q][i].client_id@
        != client && fewer[q][i] == levels[q][i] && orderbook::placed(levels, q, i) by {
        assert(orderbook::placed(levels, q, i));
    }
}

/// As much is within reach at levels that are alike.
proof fn lemma_reach_agrees(
    a: Map<u64, Seq<Order>>,
    b: Map<u64, Seq<Order>>,
    taker: Order,
    limit: Option<Price>,
)
    requires
        a.dom().finite(),
        alike(a, b),
        none_own(a, taker.client_id@),
        none_own(b, taker.client_id@),
    ensures
        model::reachable(a, taker, limit) == model::reachable(b, taker, limit),
    decreases a.dom().len(),
{
    let client = taker.client_id@;
    let found = storage::best(a.dom(), model::opposite(taker.side));
    if found is Some {
        storage::lemma_best_exists(a.dom(), model::opposite(taker.side));
        let p = found->0;
        assert(a.dom().contains(p) && b.dom().contains(p));
        assert(a.contains_key(p) && b.contains_key(p));
        if model::acceptable(taker.side, limit, p) {
            assert forall|i: int| 0 <= i < a[p].len() implies (#[trigger] a[p][i]).client_id@
                != client by {
                assert(orderbook::placed(a, p, i));
            }
            assert forall|i: int| 0 <= i < b[p].len() implies (#[trigger] b[p][i]).client_id@
                != client by {
                assert(orderbook::placed(b, p, i));
            }
            lemma_nothing_owned(a[p], client);
            lemma_nothing_owned(b[p], client);
            let x = a.remove(p);
            let y = b.remove(p);
            assert(x.dom() =~= a.dom().remove(p));
            assert(x.dom() =~= y.dom());
            assert forall|q: u64| #[trigger] x.contains_key(q) implies types::total_remaining(x[q])
                == types::total_remaining(y[q]) by {
                assert(a.contains_key(q));
            }
            assert forall|q: u64, i: int| #[trigger] orderbook::placed(x, q, i) implies x[q][i].client_id@
                != client by {
                assert(orderbook::placed(a, q, i));
            }
            assert forall|q: u64, i: int| #[trigger] orderbook::placed(y, q, i) implies y[q][i].client_id@
                != client by {
                assert(orderbook::placed(b, q, i));
            }
            lemma_reach_agrees(x, y, taker, limit);
        }
    }
}

/// Whether two books are at the same prices with as much at each, and are the
/// same in everything else but who holds it.
pub open spec fn alike_books(a: BookState, b: BookState) -> bool {
    &&& forall|side: Side| alike(#[trigger] a.resting(side), b.resting(side))
    &&& a.stop_bids == b.stop_bids
    &&& a.stop_asks == b.stop_asks
    &&& a.last_trade == b.last_trade
    &&& a.next_seq == b.next_seq
    &&& a.next_arrival == b.next_arrival
}

/// Whether no two live orders share a name or a client.
pub open spec fn strangers(state: BookState) -> bool {
    forall|x: Shelf, p: u64, i: int, y: Shelf, q: u64, j: int|
        #![trigger orderbook::placed(state.on(x), p, i), orderbook::placed(state.on(y), q, j)]
        orderbook::placed(state.on(x), p, i) && orderbook::placed(state.on(y), q, j) && (
        state.on(x)[p][i].exchange_id@ == state.on(y)[q][j].exchange_id@
            || state.on(x)[p][i].client_id@ == state.on(y)[q][j].client_id@) ==> x == y && p == q && i
            == j
}

/// Whether an order shares neither name nor client with a live one.
pub open spec fn stranger(order: Order, state: BookState) -> bool {
    forall|x: Shelf, p: u64, i: int| #[trigger]
        orderbook::placed(state.on(x), p, i) ==> {
            &&& state.on(x)[p][i].exchange_id@ != order.exchange_id@
            &&& state.on(x)[p][i].client_id@ != order.client_id@
        }
}

/// What is known of a book whose totals are compared with another's. Something is
/// left of every order that rests there, because one of which nothing is left can
/// keep a price in one book, behind the last order that is filled, and be missing
/// in the other.
pub open spec fn comparable<M: MatchingAlgorithm>(venue: Venue<M>, state: BookState) -> bool {
    &&& laws::valid(venue, state)
    &&& strangers(state)
    &&& laws::levels_positive(state)
}

/// A name that no live order has is not live.
proof fn lemma_stranger_not_live(order: Order, state: BookState)
    requires
        stranger(order, state),
    ensures
        !state.has_id(order.exchange_id@),
{
    let id = order.exchange_id@;
    if state.has_id(id) {
        let x = choose|x: Shelf| model::queues_have(#[trigger] state.on(x), id);
        let (p, i) = choose|p: u64, i: int| #[trigger] model::queued_at(state.on(x), id, p, i);
        assert(model::queued_at(state.on(x), id, p, i));
        assert(orderbook::placed(state.on(x), p, i));
    }
}

/// What is left of strangers are strangers.
proof fn lemma_thinned_strangers(before: BookState, after: BookState, order: Order)
    requires
        forall|x: Shelf| thinned(before.on(x), #[trigger] after.on(x)),
    ensures
        strangers(before) ==> strangers(after),
        stranger(order, before) ==> stranger(order, after),
{
    if strangers(before) {
        assert forall|x: Shelf, p: u64, i: int, y: Shelf, q: u64, j: int|
            #![trigger orderbook::placed(after.on(x), p, i), orderbook::placed(after.on(y), q, j)]
            orderbook::placed(after.on(x), p, i) && orderbook::placed(after.on(y), q, j) && (
            after.on(x)[p][i].exchange_id@ == after.on(y)[q][j].exchange_id@
                || after.on(x)[p][i].client_id@ == after.on(y)[q][j].client_id@) implies x == y
            && p == q && i == j by {
            assert(thinned(before.on(x), after.on(x)));
            assert(thinned(before.on(y), after.on(y)));
            assert(after.on(x).contains_key(p));
            assert(after.on(y).contains_key(q));
            let f = choose|f: Seq<int>| #[trigger] thins(before.on(x)[p], after.on(x)[p], f);
            let g = choose|g: Seq<int>| #[trigger] thins(before.on(y)[q], after.on(y)[q], g);
            assert(0 <= f[i] < before.on(x)[p].len());
            assert(0 <= g[j] < before.on(y)[q].len());
            assert(orderbook::placed(before.on(x), p, f[i]));
            assert(orderbook::placed(before.on(y), q, g[j]));
            assert(x == y && p == q && f[i] == g[j]);
            if i < j {
                assert(f[i] < f[j]);
            }
            if j < i {
                assert(f[j] < f[i]);
            }
        }
    }
    if stranger(order, before) {
        assert forall|x: Shelf, p: u64, i: int| #[trigger]
            orderbook::placed(after.on(x), p, i) implies {
            &&& after.on(x)[p][i].exchange_id@ != order.exchange_id@
            &&& after.on(x)[p][i].client_id@ != order.client_id@
        } by {
            assert(thinned(before.on(x), after.on(x)));
            assert(after.on(x).contains_key(p));
            let f = choose|f: Seq<int>| #[trigger] thins(before.on(x)[p], after.on(x)[p], f);
            assert(0 <= f[i] < before.on(x)[p].len());
            assert(orderbook::placed(before.on(x), p, f[i]));
        }
    }
}

pub(crate) proof fn lemma_same_thinned(queues: Map<u64, Seq<Order>>)
    ensures
        thinned(queues, queues),
{
    assert forall|p: u64| #[trigger] queues.contains_key(p) implies exists|places: Seq<int>|
        #[trigger] thins(queues[p], queues[p], places) by {
        lemma_unchanged_thins(queues[p]);
    }
}

/// The book after the sweep of an execution: strangers stay strangers.
proof fn lemma_swept_strangers<M: MatchingAlgorithm>(
    venue: Venue<M>,
    state: BookState,
    order: Order,
    limit: Option<Price>,
)
    requires
        laws::valid(venue, state),
        strangers(state),
        stranger(order, state),
    ensures
        ({
            let after = model::swept_state(
                state,
                order,
                model::sweep_for(venue, state, order, limit),
            );
            strangers(after) && stranger(order, after)
        }),
{
    let side = model::opposite(order.side);
    let swept = model::sweep_for(venue, state, order, limit);
    let after = model::swept_state(state, order, swept);
    assert(laws::side_valid(venue.matcher.spec_lot_size(), state, side));
    lemma_sweep_thins(
        venue.matcher,
        state.resting(side),
        order,
        limit,
        order.remaining_quantity.base() as int,
        state.next_arrival,
    );
    assert forall|x: Shelf| thinned(state.on(x), #[trigger] after.on(x)) by {
        if x == Shelf::Levels(side) {
            assert(after.on(x) == swept.levels);
        } else {
            assert(after.on(x) == state.on(x));
            lemma_same_thinned(state.on(x));
        }
    }
    lemma_thinned_strangers(state, after, order);
}

/// An order put at the back of a queue that shares nothing with what is there
/// leaves strangers.
proof fn lemma_enqueued_strangers(
    before: BookState,
    after: BookState,
    home: Shelf,
    p: u64,
    order: Order,
)
    requires
        strangers(before),
        stranger(order, before),
        after.on(home) == model::enqueued(before.on(home), p, order),
        forall|x: Shelf| x != home ==> #[trigger] after.on(x) == before.on(x),
    ensures
        strangers(after),
{
    let n = if before.on(home).contains_key(p) {
        before.on(home)[p].len() as int
    } else {
        0
    };
    assert forall|x: Shelf, q: u64, i: int| #[trigger]
        orderbook::placed(after.on(x), q, i) implies (if x == home && q == p && i == n {
        after.on(x)[q][i] == order
    } else {
        orderbook::placed(before.on(x), q, i) && after.on(x)[q][i] == before.on(x)[q][i]
    }) by {}
    assert forall|x: Shelf, q: u64, i: int, y: Shelf, r: u64, j: int|
        #![trigger orderbook::placed(after.on(x), q, i), orderbook::placed(after.on(y), r, j)]
        orderbook::placed(after.on(x), q, i) && orderbook::placed(after.on(y), r, j) && (
        after.on(x)[q][i].exchange_id@ == after.on(y)[r][j].exchange_id@
            || after.on(x)[q][i].client_id@ == after.on(y)[r][j].client_id@) implies x == y && q
        == r && i == j by {
        let first = x == home && q == p && i == n;
        let second = y == home && r == p && j == n;
        if !first {
            assert(orderbook::placed(before.on(x), q, i));
        }
        if !second {
            assert(orderbook::placed(before.on(y), r, j));
        }
    }
}

/// Whether two executions came to the same, but for who was filled.
pub open spec fn same_totals(a: Report, b: Report) -> bool {
    &&& a.order_id == b.order_id
    &&& a.outcome == b.outcome
    &&& laws::volume(a.trades) == laws::volume(b.trades)
    &&& a.cancelled.len() == 0
    &&& b.cancelled.len() == 0
}

/// Policies decide who is filled, never how much: one execution.
pub proof fn executions_agree_on_the_totals<M: MatchingAlgorithm, N: MatchingAlgorithm>(
    v: Venue<M>,
    w: Venue<N>,
    a: BookState,
    b: BookState,
    order: Order,
)
    requires
        v.spec == w.spec,
        v.span == w.span,
        comparable(v, a),
        comparable(w, b),
        alike_books(a, b),
        stranger(order, a),
        stranger(order, b),
        order.order_type.trigger() is None,
        matching::in_lots(v.matcher.spec_lot_size(), order),
        matching::in_lots(w.matcher.spec_lot_size(), order),
        model::plain_step(v, a, order).state.next_arrival <= u32::MAX,
        model::plain_step(w, b, order).state.next_arrival <= u32::MAX,
    ensures
        ({
            let x = model::plain_step(v, a, order);
            let y = model::plain_step(w, b, order);
            &&& match (x.result, y.result) {
                (Ok(r), Ok(s)) => same_totals(r, s),
                (Err(e), Err(f)) => e == f,
                _ => false,
            }
            &&& comparable(v, x.state)
            &&& comparable(w, y.state)
            &&& alike_books(x.state, y.state)
        }),
{
    let side = model::opposite(order.side);
    let limit = laws::limit_of(order);
    let remaining = order.remaining_quantity.base() as int;
    let x = model::plain_step(v, a, order);
    let y = model::plain_step(w, b, order);
    laws::executing_keeps_a_book_valid(v, a, order);
    laws::executing_keeps_a_book_valid(w, b, order);
    laws::executing_leaves_something_of_resting_orders(v, a, order);
    laws::executing_leaves_something_of_resting_orders(w, b, order);
    lemma_swept_strangers(v, a, order, limit);
    lemma_swept_strangers(w, b, order, limit);
    assert(laws::side_valid(v.matcher.spec_lot_size(), a, side));
    assert(laws::side_valid(w.matcher.spec_lot_size(), b, side));
    assert(alike(a.resting(side), b.resting(side)));
    let levels_a = a.resting(side);
    let levels_b = b.resting(side);
    assert(laws::queues_positive(levels_a) && laws::queues_positive(levels_b));
    assert(levels_a == a.on(Shelf::Levels(side)));
    assert(levels_b == b.on(Shelf::Levels(side)));
    assert(none_own(levels_a, order.client_id@)) by {
        assert forall|p: u64, i: int| #[trigger] orderbook::placed(levels_a, p, i) implies levels_a[p][i].client_id@
            != order.client_id@ by {
            assert(orderbook::placed(a.on(Shelf::Levels(side)), p, i));
        }
    }
    assert(none_own(levels_b, order.client_id@)) by {
        assert forall|p: u64, i: int| #[trigger] orderbook::placed(levels_b, p, i) implies levels_b[p][i].client_id@
            != order.client_id@ by {
            assert(orderbook::placed(b.on(Shelf::Levels(side)), p, i));
        }
    }
    lemma_sweeps_agree(
        v.matcher,
        w.matcher,
        levels_a,
        levels_b,
        order,
        limit,
        remaining,
        a.next_arrival,
    );
    let swept_a = model::sweep_for(v, a, order, limit);
    let swept_b = model::sweep_for(w, b, order, limit);
    let after_a = model::swept_state(a, order, swept_a);
    let after_b = model::swept_state(b, order, swept_b);
    assert forall|s: Side| alike(#[trigger] after_a.resting(s), after_b.resting(s)) by {
        assert(alike(a.resting(s), b.resting(s)));
    }
    assert(model::names(swept_a.cancelled) =~= Seq::empty());
    assert(model::names(swept_b.cancelled) =~= Seq::empty());
    laws::lemma_swept_by(v, a, order);
    laws::lemma_swept_by(w, b, order);
    lemma_stranger_not_live(order, after_a);
    lemma_stranger_not_live(order, after_b);
    let remainder = Order { remaining_quantity: allocation::qty_of(swept_a.remaining), ..order };
    assert(model::rest_error(v, after_a, remainder) == model::rest_error(w, after_b, remainder));
    let rests = order.order_type matches OrderType::Limit { tif, .. } && tif == TimeInForce::GTC
        && swept_a.remaining != 0 && model::rest_error(v, after_a, remainder) is None;
    let killed = laws::is_fill_or_kill(order) && laws::within_reach(a, order) < remaining;
    let base_a = if rests {
        model::rested(after_a, remainder)
    } else if killed {
        a
    } else {
        after_a
    };
    let base_b = if rests {
        model::rested(after_b, remainder)
    } else if killed {
        b
    } else {
        after_b
    };
    if rests {
        let p = order.order_type.limit_price()->0.minor();
        let stamped = Order { arrival: a.next_arrival as u32, ..remainder };
        lemma_rest_alike(v, w, after_a, after_b, remainder);
        lemma_enqueued_strangers(after_a, base_a, Shelf::Levels(order.side), p, stamped);
        lemma_enqueued_strangers(after_b, base_b, Shelf::Levels(order.side), p, stamped);
    }
    assert(alike_books(base_a, base_b));
    assert(x.state.last_trade == y.state.last_trade);
    assert forall|s: Side| alike(#[trigger] x.state.resting(s), y.state.resting(s)) by {
        assert(x.state.resting(s) == base_a.resting(s));
        assert(y.state.resting(s) == base_b.resting(s));
        assert(alike(base_a.resting(s), base_b.resting(s)));
    }
    assert forall|s: Shelf| #[trigger] x.state.on(s) == base_a.on(s) by {}
    assert forall|s: Shelf| #[trigger] y.state.on(s) == base_b.on(s) by {}
    lemma_same_shelves_strangers(base_a, x.state);
    lemma_same_shelves_strangers(base_b, y.state);
}

proof fn lemma_same_levels_positive(a: BookState, b: BookState)
    requires
        laws::levels_positive(a),
        forall|side: Side| #[trigger] b.resting(side) == a.resting(side),
    ensures
        laws::levels_positive(b),
{
    assert forall|side: Side| laws::queues_positive(#[trigger] b.resting(side)) by {
        assert(laws::queues_positive(a.resting(side)));
    }
}

proof fn lemma_same_shelves_strangers(a: BookState, b: BookState)
    requires
        strangers(a),
        forall|s: Shelf| #[trigger] b.on(s) == a.on(s),
    ensures
        strangers(b),
{
    assert forall|x: Shelf, p: u64, i: int, y: Shelf, q: u64, j: int|
        #![trigger orderbook::placed(b.on(x), p, i), orderbook::placed(b.on(y), q, j)]
        orderbook::placed(b.on(x), p, i) && orderbook::placed(b.on(y), q, j) && (
        b.on(x)[p][i].exchange_id@ == b.on(y)[q][j].exchange_id@ || b.on(x)[p][i].client_id@
            == b.on(y)[q][j].client_id@) implies x == y && p == q && i == j by {
        assert(orderbook::placed(a.on(x), p, i));
        assert(orderbook::placed(a.on(y), q, j));
    }
}

/// The same remainder comes to rest in books that are alike.
proof fn lemma_rest_alike<M: MatchingAlgorithm, N: MatchingAlgorithm>(
    v: Venue<M>,
    w: Venue<N>,
    a: BookState,
    b: BookState,
    order: Order,
)
    requires
        alike_books(a, b),
        order.order_type is Limit,
    ensures
        alike_books(model::rested(a, order), model::rested(b, order)),
{
    let x = model::rested(a, order);
    let y = model::rested(b, order);
    let p = order.order_type.limit_price()->0.minor();
    let stamped = Order { arrival: a.next_arrival as u32, ..order };
    assert forall|s: Side| alike(#[trigger] x.resting(s), y.resting(s)) by {
        assert(alike(a.resting(s), b.resting(s)));
        if s == order.side {
            let la = a.resting(s);
            let lb = b.resting(s);
            assert(x.resting(s).dom() =~= la.dom().insert(p));
            assert(y.resting(s).dom() =~= lb.dom().insert(p));
            assert(la.contains_key(p) <==> lb.contains_key(p)) by {
                assert(la.dom().contains(p) <==> lb.dom().contains(p));
            }
            assert forall|q: u64| #[trigger] x.resting(s).contains_key(q) implies types::total_remaining(
                x.resting(s)[q],
            ) == types::total_remaining(y.resting(s)[q]) by {
                if q == p {
                    if la.contains_key(p) {
                        laws::lemma_total_push(la[p], stamped);
                        laws::lemma_total_push(lb[p], stamped);
                    }
                } else {
                    assert(la.contains_key(q));
                }
            }
        }
    }
}

/// Whether two runs of reports came to the same, but for who was filled.
pub open spec fn all_same_totals(a: Seq<Report>, b: Seq<Report>) -> bool {
    &&& a.len() == b.len()
    &&& forall|i: int| 0 <= i < a.len() ==> same_totals(#[trigger] a[i], b[i])
}

/// Whether two steps came to the same, but for who was filled.
pub open spec fn cascades_agree(x: Step<Seq<Report>>, y: Step<Seq<Report>>) -> bool {
    match (x.result, y.result) {
        (Ok(r), Ok(s)) => all_same_totals(r, s),
        (Err(e), Err(f)) => e == f,
        _ => false,
    }
}

/// The stop that fires next shares nothing with what stays.
proof fn lemma_next_stop_stranger<M: MatchingAlgorithm>(venue: Venue<M>, state: BookState)
    requires
        comparable(venue, state),
        model::next_trigger(state) is Some,
    ensures
        comparable(venue, model::without_next_stop(state)),
        stranger(model::activated(model::next_stop(state)), model::without_next_stop(state)),
{
    let (side, trigger) = model::next_trigger(state)->0;
    let home = Shelf::Stops(side);
    laws::lemma_next_stop_valid(venue, state);
    let after = model::without_next_stop(state);
    let stop = model::next_stop(state);
    let stops = state.on(home);
    lemma_same_levels_positive(state, after);
    assert(orderbook::placed(stops, trigger, 0));
    assert forall|x: Shelf, p: u64, i: int| #[trigger]
        orderbook::placed(after.on(x), p, i) implies {
        let j = if x == home && p == trigger {
            i + 1
        } else {
            i
        };
        orderbook::placed(state.on(x), p, j) && after.on(x)[p][i] == state.on(x)[p][j]
    } by {}
    assert forall|x: Shelf, p: u64, i: int, y: Shelf, q: u64, j: int|
        #![trigger orderbook::placed(after.on(x), p, i), orderbook::placed(after.on(y), q, j)]
        orderbook::placed(after.on(x), p, i) && orderbook::placed(after.on(y), q, j) && (
        after.on(x)[p][i].exchange_id@ == after.on(y)[q][j].exchange_id@
            || after.on(x)[p][i].client_id@ == after.on(y)[q][j].client_id@) implies x == y && p
        == q && i == j by {
        let k = if x == home && p == trigger {
            i + 1
        } else {
            i
        };
        let l = if y == home && q == trigger {
            j + 1
        } else {
            j
        };
        assert(orderbook::placed(state.on(x), p, k));
        assert(orderbook::placed(state.on(y), q, l));
    }
    let active = model::activated(stop);
    assert forall|x: Shelf, p: u64, i: int| #[trigger]
        orderbook::placed(after.on(x), p, i) implies {
        &&& after.on(x)[p][i].exchange_id@ != active.exchange_id@
        &&& after.on(x)[p][i].client_id@ != active.client_id@
    } by {
        let k = if x == home && p == trigger {
            i + 1
        } else {
            i
        };
        assert(orderbook::placed(state.on(x), p, k));
        assert(orderbook::placed(state.on(home), trigger, 0));
    }
}

proof fn lemma_cascades_agree<M: MatchingAlgorithm, N: MatchingAlgorithm>(
    v: Venue<M>,
    w: Venue<N>,
    a: BookState,
    b: BookState,
)
    requires
        v.spec == w.spec,
        v.span == w.span,
        comparable(v, a),
        comparable(w, b),
        alike_books(a, b),
        model::cascade(v, a).state.next_arrival <= u32::MAX,
        model::cascade(w, b).state.next_arrival <= u32::MAX,
    ensures
        cascades_agree(model::cascade(v, a), model::cascade(w, b)),
        comparable(v, model::cascade(v, a).state),
        comparable(w, model::cascade(w, b).state),
        alike_books(model::cascade(v, a).state, model::cascade(w, b).state),
    decreases model::waiting(a),
{
    laws::lemma_valid_stops_sound(v, a);
    laws::lemma_valid_stops_sound(w, b);
    if model::next_trigger(a) is Some {
        assert(model::next_trigger(a) == model::next_trigger(b));
        laws::lemma_next_stop_valid(v, a);
        laws::lemma_next_stop_valid(w, b);
        lemma_next_stop_stranger(v, a);
        lemma_next_stop_stranger(w, b);
        model::lemma_next_stop_taken(a);
        model::lemma_next_stop_taken(b);
        let before_a = model::without_next_stop(a);
        let before_b = model::without_next_stop(b);
        let stop = model::activated(model::next_stop(a));
        assert(model::next_stop(a) == model::next_stop(b));
        let fired_a = model::plain_step(v, before_a, stop);
        let fired_b = model::plain_step(w, before_b, stop);
        model::lemma_plain_step_keeps_stops(v, before_a, stop);
        model::lemma_plain_step_keeps_stops(w, before_b, stop);
        if fired_a.result is Ok {
            matching::lemma_cascade_arrivals(v, fired_a.state);
        }
        if fired_b.result is Ok {
            matching::lemma_cascade_arrivals(w, fired_b.state);
        }
        assert(alike_books(before_a, before_b)) by {
            assert forall|s: Side| alike(#[trigger] before_a.resting(s), before_b.resting(s)) by {
                assert(alike(a.resting(s), b.resting(s)));
            }
        }
        executions_agree_on_the_totals(v, w, before_a, before_b, stop);
        if fired_a.result is Ok {
            lemma_cascades_agree(v, w, fired_a.state, fired_b.state);
            let rest_a = model::cascade(v, fired_a.state);
            let rest_b = model::cascade(w, fired_b.state);
            if rest_a.result is Ok {
                let x = model::cascade(v, a).result->Ok_0;
                let y = model::cascade(w, b).result->Ok_0;
                assert forall|i: int| 0 <= i < x.len() implies same_totals(
                    #[trigger] x[i],
                    y[i],
                ) by {
                    if i > 0 {
                        assert(x[i] == rest_a.result->Ok_0[i - 1]);
                        assert(y[i] == rest_b.result->Ok_0[i - 1]);
                    }
                }
            }
        }
    } else {
        assert(model::next_trigger(b) is None);
    }
}

/// Policies agree on the totals of a submission, where both books name the order
/// by the same identifier and the same stops wait in both.
proof fn lemma_totals_agree<M: MatchingAlgorithm, N: MatchingAlgorithm>(
    v: Venue<M>,
    w: Venue<N>,
    a: BookState,
    b: BookState,
    order: Order,
    id: ExchangeId,
)
    requires
        v.spec == w.spec,
        v.span == w.span,
        comparable(v, a),
        comparable(w, b),
        alike_books(a, b),
        stranger((Order { exchange_id: id, ..order }), a),
        stranger((Order { exchange_id: id, ..order }), b),
        matching::in_lots(v.matcher.spec_lot_size(), order),
        matching::in_lots(w.matcher.spec_lot_size(), order),
        model::submitted(v, a, order, id).state.next_arrival <= u32::MAX,
        model::submitted(w, b, order, id).state.next_arrival <= u32::MAX,
    ensures
        ({
            let x = model::submitted(v, a, order, id);
            let y = model::submitted(w, b, order, id);
            &&& match (x.result, y.result) {
                (Ok(r), Ok(s)) => same_totals(r.0, s.0) && all_same_totals(r.1, s.1),
                (Err(e), Err(f)) => e == f,
                _ => false,
            }
            &&& comparable(v, x.state)
            &&& comparable(w, y.state)
            &&& alike_books(x.state, y.state)
        }),
{
    let counted_a = BookState { next_seq: a.next_seq + 1, ..a };
    let counted_b = BookState { next_seq: b.next_seq + 1, ..b };
    let named = Order { exchange_id: id, ..order };
    let first_a = model::step(v, counted_a, named);
    let first_b = model::step(w, counted_b, named);
    lemma_counted_comparable(v, a, named);
    lemma_counted_comparable(w, b, named);
    laws::lemma_valid_stops_sound(v, counted_a);
    laws::lemma_valid_stops_sound(w, counted_b);
    model::lemma_step_keeps_stops_sound(v, counted_a, named);
    model::lemma_step_keeps_stops_sound(w, counted_b, named);
    if first_a.result is Ok {
        matching::lemma_cascade_arrivals(v, first_a.state);
    }
    if first_b.result is Ok {
        matching::lemma_cascade_arrivals(w, first_b.state);
    }
    assert(alike_books(counted_a, counted_b)) by {
        assert forall|s: Side| alike(#[trigger] counted_a.resting(s), counted_b.resting(s)) by {
            assert(alike(a.resting(s), b.resting(s)));
        }
    }
    laws::lemma_step_cases(v, counted_a, named);
    laws::lemma_step_cases(w, counted_b, named);
    if laws::executes_now(counted_a, named) {
        let active = model::activated(named);
        lemma_same_stranger(named, active, counted_a);
        lemma_same_stranger(named, active, counted_b);
        executions_agree_on_the_totals(v, w, counted_a, counted_b, active);
    } else {
        let trigger = named.order_type.trigger()->0;
        lemma_parked_comparable(v, counted_a, named, trigger);
        lemma_parked_comparable(w, counted_b, named, trigger);
        assert(alike_books(first_a.state, first_b.state)) by {
            assert forall|s: Side| alike(
                #[trigger] first_a.state.resting(s),
                first_b.state.resting(s),
            ) by {
                assert(alike(counted_a.resting(s), counted_b.resting(s)));
            }
        }
        assert(laws::volume(Seq::<Trade>::empty()) == laws::volume(Seq::<Trade>::empty()));
    }
    if first_a.result is Ok {
        lemma_cascades_agree(v, w, first_a.state, first_b.state);
    }
}

proof fn lemma_same_stranger(a: Order, b: Order, state: BookState)
    requires
        stranger(a, state),
        a.exchange_id == b.exchange_id,
        a.client_id == b.client_id,
    ensures
        stranger(b, state),
{
}

proof fn lemma_counted_comparable<M: MatchingAlgorithm>(
    venue: Venue<M>,
    state: BookState,
    order: Order,
)
    requires
        comparable(venue, state),
        stranger(order, state),
    ensures
        comparable(venue, (BookState { next_seq: state.next_seq + 1, ..state })),
        stranger(order, (BookState { next_seq: state.next_seq + 1, ..state })),
{
    let after = BookState { next_seq: state.next_seq + 1, ..state };
    laws::lemma_counted_valid(venue, state, state.next_seq + 1);
    assert forall|x: Shelf| #[trigger] after.on(x) == state.on(x) by {}
    lemma_same_shelves_strangers(state, after);
    lemma_same_levels_positive(state, after);
    assert forall|x: Shelf, p: u64, i: int| #[trigger]
        orderbook::placed(after.on(x), p, i) implies orderbook::placed(state.on(x), p, i) by {}
}

/// A stop that is parked and shares nothing with what is there.
proof fn lemma_parked_comparable<M: MatchingAlgorithm>(
    venue: Venue<M>,
    state: BookState,
    order: Order,
    trigger: Price,
)
    requires
        comparable(venue, state),
        stranger(order, state),
        order.order_type.trigger() == Some(trigger),
        matching::in_lots(venue.matcher.spec_lot_size(), order),
    ensures
        model::parked_step(state, order, trigger).result is Ok,
        comparable(venue, model::parked_step(state, order, trigger).state),
{
    let after = model::parked_step(state, order, trigger).state;
    let home = Shelf::Stops(order.side);
    lemma_stranger_not_live(order, state);
    laws::parking_keeps_a_book_valid(venue, state, order, trigger);
    lemma_same_levels_positive(state, after);
    lemma_enqueued_strangers(state, after, home, trigger.minor(), order);
}

/// Whether two books are at the same prices with as much at each, and the same
/// stops wait in both, under the same names.
pub open spec fn alike_by_name(a: BookState, b: BookState) -> bool {
    &&& forall|side: Side| alike(#[trigger] a.resting(side), b.resting(side))
    &&& names::shelf_by_name(a.stop_bids) == names::shelf_by_name(b.stop_bids)
    &&& names::shelf_by_name(a.stop_asks) == names::shelf_by_name(b.stop_asks)
    &&& a.last_trade == b.last_trade
    &&& a.next_seq == b.next_seq
    &&& a.next_arrival == b.next_arrival
}

/// Books are alike if they are by name.
proof fn lemma_alike_by_name(a: BookState, b: BookState)
    ensures
        alike_books(names::book_by_name(a), names::book_by_name(b)) == alike_by_name(a, b),
{
    let x = names::book_by_name(a);
    let y = names::book_by_name(b);
    assert forall|side: Side| #[trigger]
        alike(x.resting(side), y.resting(side)) == alike(a.resting(side), b.resting(side)) by {
        let l = a.resting(side);
        let m = b.resting(side);
        names::lemma_book(a);
        names::lemma_book(b);
        names::lemma_shelf(l);
        names::lemma_shelf(m);
        if l.dom() == m.dom() {
            assert forall|p: u64| #[trigger] l.contains_key(p) implies {
                &&& m.contains_key(p)
                &&& x.resting(side).contains_key(p)
                &&& types::total_remaining(x.resting(side)[p]) == types::total_remaining(l[p])
                &&& types::total_remaining(y.resting(side)[p]) == types::total_remaining(m[p])
            } by {
                assert(m.dom().contains(p));
                assert(x.resting(side).dom().contains(p));
                names::lemma_queue_holds_as_much(l[p]);
                names::lemma_queue_holds_as_much(m[p]);
            }
            assert forall|p: u64| #[trigger]
                x.resting(side).contains_key(p) implies l.contains_key(p) by {
                assert(x.resting(side).dom().contains(p));
            }
        }
    }
    if alike_by_name(a, b) {
        assert forall|side: Side| alike(#[trigger] x.resting(side), y.resting(side)) by {
            assert(alike(a.resting(side), b.resting(side)));
        }
    }
    if alike_books(x, y) {
        assert forall|side: Side| alike(#[trigger] a.resting(side), b.resting(side)) by {
            assert(alike(x.resting(side), y.resting(side)));
        }
    }
}

/// No two orders of a book share a name or a client if none do by name.
proof fn lemma_strangers_by_name(state: BookState, order: Order)
    ensures
        strangers(names::book_by_name(state)) == strangers(state),
        stranger(order, names::book_by_name(state)) == stranger(order, state),
{
    let named = names::book_by_name(state);
    names::lemma_book(state);
    assert forall|x: Shelf, p: u64, i: int| #[trigger]
        orderbook::placed(state.on(x), p, i) implies {
        &&& orderbook::placed(named.on(x), p, i)
        &&& named.on(x)[p][i].exchange_id@ == state.on(x)[p][i].exchange_id@
        &&& named.on(x)[p][i].client_id@ == state.on(x)[p][i].client_id@
    } by {
        names::lemma_placed(state.on(x), p, i);
        names::lemma_known_as(state.on(x)[p][i].exchange_id);
    }
    assert forall|x: Shelf, p: u64, i: int| #[trigger]
        orderbook::placed(named.on(x), p, i) implies orderbook::placed(state.on(x), p, i) by {
        names::lemma_placed(state.on(x), p, i);
    }
    if strangers(named) {
        assert forall|x: Shelf, p: u64, i: int, y: Shelf, q: u64, j: int|
            #![trigger orderbook::placed(state.on(x), p, i), orderbook::placed(state.on(y), q, j)]
            orderbook::placed(state.on(x), p, i) && orderbook::placed(state.on(y), q, j) && (
            state.on(x)[p][i].exchange_id@ == state.on(y)[q][j].exchange_id@
                || state.on(x)[p][i].client_id@ == state.on(y)[q][j].client_id@) implies x == y
            && p == q && i == j by {
            assert(orderbook::placed(named.on(x), p, i));
            assert(orderbook::placed(named.on(y), q, j));
        }
    }
    if strangers(state) {
        assert forall|x: Shelf, p: u64, i: int, y: Shelf, q: u64, j: int|
            #![trigger orderbook::placed(named.on(x), p, i), orderbook::placed(named.on(y), q, j)]
            orderbook::placed(named.on(x), p, i) && orderbook::placed(named.on(y), q, j) && (
            named.on(x)[p][i].exchange_id@ == named.on(y)[q][j].exchange_id@
                || named.on(x)[p][i].client_id@ == named.on(y)[q][j].client_id@) implies x == y
            && p == q && i == j by {
            assert(orderbook::placed(state.on(x), p, i));
            assert(orderbook::placed(state.on(y), q, j));
        }
    }
    if stranger(order, named) {
        assert forall|x: Shelf, p: u64, i: int| #[trigger]
            orderbook::placed(state.on(x), p, i) implies {
            &&& state.on(x)[p][i].exchange_id@ != order.exchange_id@
            &&& state.on(x)[p][i].client_id@ != order.client_id@
        } by {
            assert(orderbook::placed(named.on(x), p, i));
        }
    }
}

/// Something is left of every resting order of a book if it is by name.
proof fn lemma_positive_by_name(state: BookState)
    ensures
        laws::levels_positive(names::book_by_name(state)) == laws::levels_positive(state),
{
    let named = names::book_by_name(state);
    names::lemma_book(state);
    assert forall|side: Side| #[trigger]
        laws::queues_positive(named.resting(side)) == laws::queues_positive(
            state.resting(side),
        ) by {
        let l = state.resting(side);
        let m = named.resting(side);
        assert forall|p: u64, i: int| #[trigger] orderbook::placed(l, p, i) implies {
            &&& orderbook::placed(m, p, i)
            &&& m[p][i].remaining_quantity == l[p][i].remaining_quantity
        } by {
            names::lemma_placed(l, p, i);
        }
        assert forall|p: u64, i: int| #[trigger] orderbook::placed(m, p, i) implies {
            &&& orderbook::placed(l, p, i)
            &&& m[p][i].remaining_quantity == l[p][i].remaining_quantity
        } by {
            names::lemma_placed(l, p, i);
        }
    }
    if laws::levels_positive(state) {
        assert forall|side: Side| laws::queues_positive(#[trigger] named.resting(side)) by {
            assert(laws::queues_positive(state.resting(side)));
        }
    }
    if laws::levels_positive(named) {
        assert forall|side: Side| laws::queues_positive(#[trigger] state.resting(side)) by {
            assert(laws::queues_positive(named.resting(side)));
        }
    }
}

/// Whether two executions came to the same, but for who was filled: the order of
/// the same name, the same outcome, as much traded, and nothing cancelled.
pub open spec fn same_totals_by_name(a: Report, b: Report) -> bool {
    &&& a.order_id@ == b.order_id@
    &&& a.outcome == b.outcome
    &&& laws::volume(a.trades) == laws::volume(b.trades)
    &&& a.cancelled.len() == 0
    &&& b.cancelled.len() == 0
}

/// Whether two submissions came to the same, but for who was filled: the order,
/// and as many stops, one by one.
pub open spec fn same_totals_answered(
    a: Result<(Report, Seq<Report>), OrderBookError>,
    b: Result<(Report, Seq<Report>), OrderBookError>,
) -> bool {
    match (a, b) {
        (Ok(r), Ok(s)) => {
            &&& same_totals_by_name(r.0, s.0)
            &&& r.1.len() == s.1.len()
            &&& forall|i: int| 0 <= i < r.1.len() ==> same_totals_by_name(#[trigger] r.1[i], s.1[i])
        },
        (Err(e), Err(f)) => e == f,
        _ => false,
    }
}

proof fn lemma_report_totals(a: Report, b: Report)
    requires
        same_totals(names::report_by_name(a), names::report_by_name(b)),
    ensures
        same_totals_by_name(a, b),
{
    names::lemma_known_as(a.order_id);
    names::lemma_known_as(b.order_id);
    assert(names::trades_by_name(a.trades).map_values(|t: Trade| t.quantity.base() as int)
        =~= a.trades.map_values(|t: Trade| t.quantity.base() as int));
    assert(names::trades_by_name(b.trades).map_values(|t: Trade| t.quantity.base() as int)
        =~= b.trades.map_values(|t: Trade| t.quantity.base() as int));
}

/// Policies decide who is filled, never how much. Two books of the same
/// instrument that are alike, in which no two orders share a client and something
/// is left of every order that rests, answer a new client's order with the same outcome, the same quantity and as many stops
/// fired, each with the same outcome and quantity. They cancel nothing, and they
/// are alike again afterwards.
pub proof fn policies_agree_on_the_totals<M: MatchingAlgorithm, N: MatchingAlgorithm>(
    v: Venue<M>,
    w: Venue<N>,
    a: BookState,
    b: BookState,
    order: Order,
    id: ExchangeId,
    other: ExchangeId,
)
    requires
        v.spec == w.spec,
        v.span == w.span,
        comparable(v, a),
        comparable(w, b),
        alike_by_name(a, b),
        id@ == other@,
        stranger((Order { exchange_id: id, ..order }), a),
        stranger((Order { exchange_id: other, ..order }), b),
        matching::in_lots(v.matcher.spec_lot_size(), order),
        matching::in_lots(w.matcher.spec_lot_size(), order),
        model::submitted(v, a, order, id).state.next_arrival <= u32::MAX,
        model::submitted(w, b, order, other).state.next_arrival <= u32::MAX,
    ensures
        ({
            let x = model::submitted(v, a, order, id);
            let y = model::submitted(w, b, order, other);
            &&& same_totals_answered(x.result, y.result)
            &&& comparable(v, x.state)
            &&& comparable(w, y.state)
            &&& alike_by_name(x.state, y.state)
        }),
{
    let x = model::submitted(v, a, order, id);
    let y = model::submitted(w, b, order, other);
    let known = names::known_as(id@);
    let under = Order { exchange_id: known, ..order };
    let c = names::book_by_name(a);
    let d = names::book_by_name(b);
    names::submitting_depends_on_names_alone(v, a, order, id);
    names::submitting_depends_on_names_alone(w, b, order, other);
    names::lemma_known_as(id);
    names::lemma_valid_by_name(v, a);
    names::lemma_valid_by_name(w, b);
    names::lemma_valid_by_name(v, x.state);
    names::lemma_valid_by_name(w, y.state);
    lemma_positive_by_name(a);
    lemma_positive_by_name(b);
    lemma_positive_by_name(x.state);
    lemma_positive_by_name(y.state);
    lemma_alike_by_name(a, b);
    lemma_alike_by_name(x.state, y.state);
    lemma_strangers_by_name(a, under);
    lemma_strangers_by_name(b, under);
    lemma_strangers_by_name(x.state, under);
    lemma_strangers_by_name(y.state, under);
    assert(stranger(under, a)) by {
        assert(stranger((Order { exchange_id: id, ..order }), a));
    }
    assert(stranger(under, b)) by {
        assert(stranger((Order { exchange_id: other, ..order }), b));
    }
    lemma_totals_agree(v, w, c, d, order, known);
    if x.result is Ok {
        let r = x.result->Ok_0;
        let s = y.result->Ok_0;
        lemma_report_totals(r.0, s.0);
        assert forall|i: int| 0 <= i < r.1.len() implies same_totals_by_name(
            #[trigger] r.1[i],
            s.1[i],
        ) by {
            let m = names::reports_by_name(r.1);
            let n = names::reports_by_name(s.1);
            assert(same_totals(m[i], n[i]));
            lemma_report_totals(r.1[i], s.1[i]);
        }
    }
}

// ---------------------------------------------------------------- time priority

/// Whether every older order at a trade's price that is not the taker's own, and
/// of which something was left, has been filled completely by an earlier trade.
pub open spec fn front_first(
    levels: Map<u64, Seq<Order>>,
    taker: Order,
    trades: Seq<Trade>,
    places: Seq<int>,
) -> bool {
    forall|i: int, a: int|
        #![trigger trades[i], levels[trades[i].price.minor()][a]]
        0 <= i < trades.len() && 0 <= a < places[i] ==> {
            let older = levels[trades[i].price.minor()][a];
            ||| older.client_id@ == taker.client_id@
            ||| older.remaining_quantity.base() == 0
            ||| filled_before(trades, places, i, a, older)
        }
}

/// Whether a trade before `i`, at the same price, has filled the order at place
/// `a` completely.
pub open spec fn filled_before(
    trades: Seq<Trade>,
    places: Seq<int>,
    i: int,
    a: int,
    order: Order,
) -> bool {
    exists|j: int|
        0 <= j < i && (#[trigger] trades[j]).price == trades[i].price && places[j] == a
            && trades[j].quantity == order.remaining_quantity
}

/// Whether what is left at a trade's price is no older than the order that
/// traded.
pub open spec fn nobody_left_behind(
    levels: Map<u64, Seq<Order>>,
    after: Map<u64, Seq<Order>>,
    trades: Seq<Trade>,
    places: Seq<int>,
) -> bool {
    forall|i: int, k: int|
        #![trigger trades[i], after[trades[i].price.minor()][k]]
        0 <= i < trades.len() && orderbook::placed(after, trades[i].price.minor(), k)
            ==> after[trades[i].price.minor()][k].arrival
            >= levels[trades[i].price.minor()][places[i]].arrival
}

/// The trades of a first-in-first-out sweep.
#[verifier::rlimit(40)]
proof fn lemma_fifo_sweep(
    levels: Map<u64, Seq<Order>>,
    taker: Order,
    limit: Option<Price>,
    remaining: int,
    now: int,
    next: int,
) -> (places: Seq<int>)
    requires
        laws::levels_ok(None, levels),
        laws::amount_ok(None, remaining),
        laws::side_sound(levels, model::opposite(taker.side), next),
    ensures
        ({
            let swept = model::sweep(FifoMatcher, levels, taker, limit, remaining, now);
            &&& places.len() == swept.trades.len()
            &&& forall|i: int|
                0 <= i < swept.trades.len() ==> laws::fair_trade(
                    levels,
                    taker,
                    limit,
                    #[trigger] swept.trades[i],
                    places[i],
                )
            &&& laws::in_priority(model::opposite(taker.side), swept.trades, places)
            &&& front_first(levels, taker, swept.trades, places)
            &&& nobody_left_behind(levels, swept.levels, swept.trades, places)
            &&& forall|q: u64| #[trigger]
                swept.levels.contains_key(q) ==> levels.contains_key(q)
        }),
    decreases levels.dom().len(),
{
    let side = model::opposite(taker.side);
    let client = taker.client_id@;
    let swept = model::sweep(FifoMatcher, levels, taker, limit, remaining, now);
    let found = storage::best(levels.dom(), side);
    if remaining <= 0 || found is None || !levels.contains_key(found->0) || !model::acceptable(
        taker.side,
        limit,
        found->0,
    ) {
        Seq::empty()
    } else {
        let p = found->0;
        let queue = levels[p];
        let price = model::price_of(p);
        storage::lemma_best_exists(levels.dom(), side);
        laws::lemma_met(FifoMatcher, queue, taker, price, remaining, now);
        let (others, fills) = laws::met(FifoMatcher, queue, taker, remaining, now);
        let makers = types::as_makers(others);
        let rest = remaining - sums::sum(allocation::taken(fills));
        let left = model::level_left(others, fills, rest);
        let trades = model::trades_of(taker, others, price, fills);
        let seats = laws::lemma_others_places(queue, client);
        let here = Seq::new(fills.len(), |i: int| seats[fills[i].order_index as int]);
        assert(levels.contains_key(p));
        assert(queue.len() <= usize::MAX);
        laws::lemma_parted_total(queue, client);
        assert forall|i: int| 0 <= i < trades.len() implies laws::fair_trade(
            levels,
            taker,
            limit,
            #[trigger] trades[i],
            here[i],
        ) && trades[i].price == price by {
            let k = fills[i].order_index as int;
            assert(makers[k].remaining_quantity == others[k].remaining_quantity);
            assert(queue[seats[k]] == others[k]);
        }
        assert forall|i: int, k: int|
            0 <= i < fills.len() && 0 <= k < fills[i].order_index implies #[trigger] matching::spent(
            others,
            fills,
            k,
        ) && (#[trigger] fills[i]).order_index >= 0 && (others[k].remaining_quantity.base() > 0
            ==> filled_by(fills, k, others[k])) by {
            let at = fills[i].order_index as int;
            lemma_allotted_of(fills, i);
            allocation::fifo_serves_the_front_first(
                allocation::qty_of(remaining),
                makers,
                now as u128,
                k,
                at,
            );
            assert(makers[k].remaining_quantity == others[k].remaining_quantity);
            assert(queue[seats[k]] == others[k]);
            assert(orderbook::placed(levels, p, seats[k]));
            matching::lemma_allotted_is_a_fill(fills, k);
            if others[k].remaining_quantity.base() > 0 {
                let j = choose|j: int|
                    0 <= j < fills.len() && (#[trigger] fills[j]).order_index == k
                        && fills[j].quantity.base() == allocation::allotted(fills, k);
                assert(fills[j].quantity == others[k].remaining_quantity);
                assert(filled_by(fills, k, others[k]));
            }
        }
        assert(front_first(levels, taker, trades, here)) by {
            assert forall|i: int, a: int|
                #![trigger trades[i], levels[trades[i].price.minor()][a]]
                0 <= i < trades.len() && 0 <= a < here[i] implies {
                let older = levels[trades[i].price.minor()][a];
                ||| older.client_id@ == client
                ||| older.remaining_quantity.base() == 0
                ||| filled_before(trades, here, i, a, older)
            } by {
                assert(trades[i].price == price);
                let older = queue[a];
                if older.client_id@ != client && older.remaining_quantity.base() > 0 {
                    let k = choose|k: int| 0 <= k < seats.len() && #[trigger] seats[k] == a;
                    let at = fills[i].order_index as int;
                    if k >= at {
                        if k > at {
                            assert(seats[at] < seats[k]);
                        }
                    }
                    assert(matching::spent(others, fills, k));
                    let j = choose|j: int|
                        0 <= j < fills.len() && (#[trigger] fills[j]).order_index == k
                            && fills[j].quantity == others[k].remaining_quantity;
                    assert(fills[j].order_index < fills[i].order_index);
                    if j > i {
                        assert(fills[i].order_index < fills[j].order_index);
                    }
                    assert(trades[j].price == price && here[j] == a);
                    assert(filled_before(trades, here, i, a, older));
                }
            }
        }
        assert(laws::in_priority(side, trades, here)) by {
            assert forall|i: int, j: int|
                #![trigger trades[i], trades[j]]
                0 <= i < j < trades.len() implies storage::no_worse(
                side,
                trades[i].price.minor(),
                trades[j].price.minor(),
            ) && here[i] < here[j] by {
                assert(fills[i].order_index < fills[j].order_index);
                assert(trades[i].price == price && trades[j].price == price);
                assert(seats[fills[i].order_index as int] < seats[fills[j].order_index as int]);
            }
        }
        if left.len() == 0 {
            let fewer = levels.remove(p);
            assert(fewer.dom() =~= levels.dom().remove(p));
            assert forall|q: u64| #[trigger] fewer.contains_key(q) implies laws::queue_ok(
                None,
                fewer[q],
            ) by {
                assert(levels.contains_key(q));
            }
            assert forall|q: u64, i: int| #[trigger] orderbook::placed(fewer, q, i) implies storage::at_home(
                fewer[q][i],
                side,
                q,
            ) by {
                assert(orderbook::placed(levels, q, i));
            }
            assert(laws::side_sound(fewer, side, next)) by {
                assert forall|q: u64| #[trigger] fewer.contains_key(q) implies levels.contains_key(
                    q,
                ) by {}
            }
            let there = lemma_fifo_sweep(fewer, taker, limit, rest, now, next);
            let after = model::sweep(FifoMatcher, fewer, taker, limit, rest, now);
            let places = here + there;
            let all = trades + after.trades;
            assert(swept.trades == all);
            let n = trades.len();
            assert forall|i: int| 0 <= i < all.len() implies laws::fair_trade(
                levels,
                taker,
                limit,
                #[trigger] all[i],
                places[i],
            ) && (i >= n ==> fewer.contains_key(all[i].price.minor())) by {
                if i < n {
                    assert(all[i] == trades[i]);
                } else {
                    assert(all[i] == after.trades[i - n]);
                    assert(laws::fair_trade(
                        fewer,
                        taker,
                        limit,
                        after.trades[i - n],
                        there[i - n],
                    ));
                }
            }
            assert(laws::in_priority(side, all, places)) by {
                assert forall|i: int, j: int|
                    #![trigger all[i], all[j]]
                    0 <= i < j < all.len() implies {
                    &&& storage::no_worse(side, all[i].price.minor(), all[j].price.minor())
                    &&& all[i].price == all[j].price ==> places[i] < places[j]
                } by {
                    if j < n {
                        assert(all[i] == trades[i] && all[j] == trades[j]);
                    } else if i >= n {
                        assert(all[i] == after.trades[i - n] && all[j] == after.trades[j - n]);
                        assert(places[i] == there[i - n] && places[j] == there[j - n]);
                    } else {
                        assert(all[i] == trades[i]);
                        assert(all[i].price.minor() == p);
                        assert(fewer.contains_key(all[j].price.minor()));
                        assert(levels.dom().contains(all[j].price.minor()));
                    }
                }
            }
            assert(front_first(levels, taker, all, places)) by {
                assert forall|i: int, a: int|
                    #![trigger all[i], levels[all[i].price.minor()][a]]
                    0 <= i < all.len() && 0 <= a < places[i] implies {
                    let older = levels[all[i].price.minor()][a];
                    ||| older.client_id@ == client
                    ||| older.remaining_quantity.base() == 0
                    ||| filled_before(all, places, i, a, older)
                } by {
                    let older = levels[all[i].price.minor()][a];
                    if older.client_id@ != client && older.remaining_quantity.base() > 0 {
                        if i < n {
                            assert(all[i] == trades[i]);
                            assert(filled_before(trades, here, i, a, older));
                            let j = choose|j: int|
                                0 <= j < i && (#[trigger] trades[j]).price == trades[i].price
                                    && here[j] == a && trades[j].quantity
                                    == older.remaining_quantity;
                            assert(all[j] == trades[j] && places[j] == here[j]);
                        } else {
                            let m = i - n;
                            assert(all[i] == after.trades[m] && places[i] == there[m]);
                            assert(fewer.contains_key(all[i].price.minor()));
                            assert(fewer[after.trades[m].price.minor()][a] == older);
                            assert(filled_before(after.trades, there, m, a, older));
                            let j = choose|j: int|
                                0 <= j < m && (#[trigger] after.trades[j]).price
                                    == after.trades[m].price && there[j] == a
                                    && after.trades[j].quantity == older.remaining_quantity;
                            assert(all[j + n] == after.trades[j] && places[j + n] == there[j]);
                        }
                        assert(filled_before(all, places, i, a, older));
                    }
                }
            }
            assert(nobody_left_behind(levels, swept.levels, all, places)) by {
                assert forall|i: int, k: int|
                    #![trigger all[i], swept.levels[all[i].price.minor()][k]]
                    0 <= i < all.len() && orderbook::placed(
                        swept.levels,
                        all[i].price.minor(),
                        k,
                    ) implies swept.levels[all[i].price.minor()][k].arrival
                    >= levels[all[i].price.minor()][places[i]].arrival by {
                    if i < n {
                        assert(all[i] == trades[i]);
                        assert(swept.levels.contains_key(p));
                        assert(fewer.contains_key(p));
                    } else {
                        assert(all[i] == after.trades[i - n]);
                        assert(after.levels[after.trades[i - n].price.minor()][k].arrival
                            >= fewer[after.trades[i - n].price.minor()][there[i - n]].arrival);
                    }
                }
            }
            places
        } else {
            let inner = lemma_left_places(others, fills, model::passed(others, fills, rest));
            assert(nobody_left_behind(levels, swept.levels, trades, here)) by {
                assert forall|i: int, k: int|
                    #![trigger trades[i], swept.levels[trades[i].price.minor()][k]]
                    0 <= i < trades.len() && orderbook::placed(
                        swept.levels,
                        trades[i].price.minor(),
                        k,
                    ) implies swept.levels[trades[i].price.minor()][k].arrival
                    >= levels[trades[i].price.minor()][here[i]].arrival by {
                    assert(trades[i].price == price);
                    assert(swept.levels[p] == left);
                    let at = fills[i].order_index as int;
                    let m = inner[k];
                    assert(!matching::struck(
                        others,
                        fills,
                        model::passed(others, fills, rest),
                        m,
                    ));
                    if m < at {
                        assert(matching::spent(others, fills, m));
                        assert(fills.last() == fills[fills.len() - 1]);
                        if i < fills.len() - 1 {
                            assert(fills[i].order_index < fills[fills.len() - 1].order_index);
                        }
                    }
                    assert(queue[seats[m]] == others[m]);
                    assert(queue[seats[at]] == others[at]);
                    if at < m {
                        assert(seats[at] < seats[m]);
                        assert(queue[seats[at]].arrival < queue[seats[m]].arrival);
                    }
                }
            }
            here
        }
    }
}

/// Whether a fill fills the order at place `k` completely.
pub open spec fn filled_by(fills: Seq<Fill>, k: int, order: Order) -> bool {
    exists|j: int|
        0 <= j < fills.len() && (#[trigger] fills[j]).order_index == k && fills[j].quantity
            == order.remaining_quantity
}

/// An order that a fill names is given what the fill takes.
proof fn lemma_allotted_of(fills: Seq<Fill>, i: int)
    requires
        0 <= i < fills.len(),
        forall|i: int, j: int|
            0 <= i < j < fills.len() ==> (#[trigger] fills[i]).order_index < (
            #[trigger] fills[j]).order_index,
    ensures
        allocation::allotted(fills, fills[i].order_index as int) == fills[i].quantity.base(),
    decreases fills.len(),
{
    let rest = fills.drop_last();
    if i < fills.len() - 1 {
        assert(fills[i].order_index < fills[fills.len() - 1].order_index);
        assert forall|a: int, b: int| 0 <= a < b < rest.len() implies (
        #[trigger] rest[a]).order_index < (#[trigger] rest[b]).order_index by {
            assert(rest[a] == fills[a] && rest[b] == fills[b]);
        }
        lemma_allotted_of(rest, i);
        assert(rest[i] == fills[i]);
    }
}

/// Time priority, under first in, first out: an order trades only when every
/// older order at its price has been filled completely, had nothing left to fill,
/// or was the taker's own. What is left at that price afterwards is no older, so
/// across any number of executions the orders at a price are consumed in the order
/// in which they came to rest.
pub proof fn first_in_is_first_out(venue: Venue<FifoMatcher>, state: BookState, order: Order) -> (places:
    Seq<int>)
    requires
        laws::valid(venue, state),
        order.order_type.trigger() is None,
        model::plain_step(venue, state, order).result is Ok,
    ensures
        ({
            let step = model::plain_step(venue, state, order);
            let trades = step.result->Ok_0.trades;
            let side = model::opposite(order.side);
            let levels = state.resting(side);
            &&& places.len() == trades.len()
            &&& forall|i: int|
                0 <= i < trades.len() ==> laws::fair_trade(
                    levels,
                    order,
                    laws::limit_of(order),
                    #[trigger] trades[i],
                    places[i],
                )
            &&& front_first(levels, order, trades, places)
            &&& nobody_left_behind(levels, step.state.resting(side), trades, places)
        }),
{
    let side = model::opposite(order.side);
    let levels = state.resting(side);
    let step = model::plain_step(venue, state, order);
    let trades = step.result->Ok_0.trades;
    assert(laws::side_valid(None, state, side));
    assert(levels == state.on(Shelf::Levels(side)));
    let places = lemma_fifo_sweep(
        levels,
        order,
        laws::limit_of(order),
        order.remaining_quantity.base() as int,
        state.next_arrival,
        state.next_arrival,
    );
    let swept = model::sweep_for(venue, state, order, laws::limit_of(order));
    assert(venue.matcher == FifoMatcher);
    if trades.len() == 0 {
        Seq::empty()
    } else {
        assert(trades == swept.trades);
        assert(step.state.resting(side) == swept.levels);
        places
    }
}

} // verus!
