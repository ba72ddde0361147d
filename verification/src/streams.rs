//! What holds of a book through a whole stream of orders.

use crate::agreement;
use crate::allocation;
use crate::allocation::MatchingAlgorithm;
use crate::instrument::InstrumentSpec;
use crate::laws;
use crate::matching;
use crate::matching::ExecutionReport;
use crate::matching::SubmitOutcome;
use crate::model;
use crate::model::BookState;
use crate::model::Report;
use crate::model::Shelf;
use crate::model::Venue;
use crate::orderbook;
use crate::orderbook::OrderBook;
use crate::orderbook::OrderBookError;
use crate::storage;
use crate::storage::OrderBookStore;
use crate::sums;
use crate::types;
use crate::types::ExchangeId;
use crate::types::Order;
use crate::types::OrderType;
use crate::types::Price;
use crate::types::Side;
use crate::types::TimeInForce;
use vstd::prelude::*;

verus! {

// ---------------------------------------------------------------- who is live

/// The name of an order and that of its client.
pub open spec fn who(order: Order) -> (Seq<char>, Seq<char>) {
    (order.exchange_id@, order.client_id@)
}

/// The names of the live orders, each with its client.
pub open spec fn people(state: BookState) -> Set<(Seq<char>, Seq<char>)> {
    Set::new(
        |person: (Seq<char>, Seq<char>)|
            exists|x: Shelf, p: u64, i: int| #[trigger]
                orderbook::placed(state.on(x), p, i) && who(state.on(x)[p][i]) == person,
    )
}

/// A name is live if it is that of one of the people.
proof fn lemma_live(state: BookState, name: Seq<char>)
    requires
        state.has_id(name),
    ensures
        exists|client: Seq<char>| #[trigger] people(state).contains((name, client)),
{
    let x = choose|x: Shelf| model::queues_have(#[trigger] state.on(x), name);
    let (p, i) = choose|p: u64, i: int| #[trigger] model::queued_at(state.on(x), name, p, i);
    assert(orderbook::placed(state.on(x), p, i));
    assert(people(state).contains((name, state.on(x)[p][i].client_id@)));
}

/// What is left of a book is left of its people.
proof fn lemma_people_thinned(before: BookState, after: BookState)
    requires
        forall|x: Shelf| agreement::thinned(before.on(x), #[trigger] after.on(x)),
    ensures
        people(after).subset_of(people(before)),
{
    assert forall|person: (Seq<char>, Seq<char>)| #[trigger]
        people(after).contains(person) implies people(before).contains(person) by {
        let (x, p, i) = choose|x: Shelf, p: u64, i: int| #[trigger]
            orderbook::placed(after.on(x), p, i) && who(after.on(x)[p][i]) == person;
        assert(agreement::thinned(before.on(x), after.on(x)));
        assert(after.on(x).contains_key(p));
        let f = choose|f: Seq<int>| #[trigger]
            agreement::thins(before.on(x)[p], after.on(x)[p], f);
        assert(0 <= f[i] < before.on(x)[p].len());
        assert(orderbook::placed(before.on(x), p, f[i]));
    }
}

proof fn lemma_people_enqueued(
    before: BookState,
    after: BookState,
    home: Shelf,
    p: u64,
    order: Order,
)
    requires
        after.on(home) == model::enqueued(before.on(home), p, order),
        forall|x: Shelf| x != home ==> #[trigger] after.on(x) == before.on(x),
    ensures
        people(after).subset_of(people(before).insert(who(order))),
{
    assert forall|person: (Seq<char>, Seq<char>)| #[trigger]
        people(after).contains(person) implies people(before).insert(who(order)).contains(
        person,
    ) by {
        let (x, q, i) = choose|x: Shelf, q: u64, i: int| #[trigger]
            orderbook::placed(after.on(x), q, i) && who(after.on(x)[q][i]) == person;
        if orderbook::placed(before.on(x), q, i) {
            assert(after.on(x)[q][i] == before.on(x)[q][i]);
        } else {
            assert(after.on(x)[q][i] == order);
        }
    }
}

proof fn lemma_same_shelves(a: BookState, b: BookState)
    requires
        forall|x: Shelf| #[trigger] b.on(x) == a.on(x),
    ensures
        people(b) == people(a),
        well_named(a) ==> well_named(b),
{
    assert forall|person: (Seq<char>, Seq<char>)| #[trigger]
        people(a).contains(person) == people(b).contains(person) by {
        if people(a).contains(person) {
            let (x, p, i) = choose|x: Shelf, p: u64, i: int| #[trigger]
                orderbook::placed(a.on(x), p, i) && who(a.on(x)[p][i]) == person;
            assert(orderbook::placed(b.on(x), p, i));
        }
        if people(b).contains(person) {
            let (x, p, i) = choose|x: Shelf, p: u64, i: int| #[trigger]
                orderbook::placed(b.on(x), p, i) && who(b.on(x)[p][i]) == person;
            assert(orderbook::placed(a.on(x), p, i));
        }
    }
    assert(people(a) =~= people(b));
    if well_named(a) {
        assert forall|x: Shelf, p: u64, i: int, y: Shelf, q: u64, j: int|
            #![trigger orderbook::placed(b.on(x), p, i), orderbook::placed(b.on(y), q, j)]
            orderbook::placed(b.on(x), p, i) && orderbook::placed(b.on(y), q, j)
                && b.on(x)[p][i].exchange_id@ == b.on(y)[q][j].exchange_id@ implies x == y && p
            == q && i == j by {
            assert(orderbook::placed(a.on(x), p, i));
            assert(orderbook::placed(a.on(y), q, j));
        }
    }
}

/// Whether no two live orders share a name.
pub open spec fn well_named(state: BookState) -> bool {
    forall|x: Shelf, p: u64, i: int, y: Shelf, q: u64, j: int|
        #![trigger orderbook::placed(state.on(x), p, i), orderbook::placed(state.on(y), q, j)]
        orderbook::placed(state.on(x), p, i) && orderbook::placed(state.on(y), q, j)
            && state.on(x)[p][i].exchange_id@ == state.on(y)[q][j].exchange_id@ ==> x == y && p == q
            && i == j
}

proof fn lemma_thinned_well_named(before: BookState, after: BookState)
    requires
        forall|x: Shelf| agreement::thinned(before.on(x), #[trigger] after.on(x)),
        well_named(before),
    ensures
        well_named(after),
{
    assert forall|x: Shelf, p: u64, i: int, y: Shelf, q: u64, j: int|
        #![trigger orderbook::placed(after.on(x), p, i), orderbook::placed(after.on(y), q, j)]
        orderbook::placed(after.on(x), p, i) && orderbook::placed(after.on(y), q, j)
            && after.on(x)[p][i].exchange_id@ == after.on(y)[q][j].exchange_id@ implies x == y
        && p == q && i == j by {
        assert(agreement::thinned(before.on(x), after.on(x)));
        assert(agreement::thinned(before.on(y), after.on(y)));
        assert(after.on(x).contains_key(p));
        assert(after.on(y).contains_key(q));
        let f = choose|f: Seq<int>| #[trigger]
            agreement::thins(before.on(x)[p], after.on(x)[p], f);
        let g = choose|g: Seq<int>| #[trigger]
            agreement::thins(before.on(y)[q], after.on(y)[q], g);
        assert(0 <= f[i] < before.on(x)[p].len());
        assert(0 <= g[j] < before.on(y)[q].len());
        assert(orderbook::placed(before.on(x), p, f[i]));
        assert(orderbook::placed(before.on(y), q, g[j]));
        assert(x == y && p == q && f[i] == g[j]);
        if i < j {
            assert(f[i] < f[j]);
        }
        if j < i {
            assert(f[j] < f[i]);
        }
    }
}

proof fn lemma_enqueued_well_named(
    before: BookState,
    after: BookState,
    home: Shelf,
    p: u64,
    order: Order,
)
    requires
        well_named(before),
        !before.has_id(order.exchange_id@),
        after.on(home) == model::enqueued(before.on(home), p, order),
        forall|x: Shelf| x != home ==> #[trigger] after.on(x) == before.on(x),
    ensures
        well_named(after),
{
    let n = if before.on(home).contains_key(p) {
        before.on(home)[p].len() as int
    } else {
        0
    };
    assert forall|x: Shelf, q: u64, i: int| #[trigger]
        orderbook::placed(after.on(x), q, i) implies (if x == home && q == p && i == n {
        after.on(x)[q][i] == order
    } else {
        &&& orderbook::placed(before.on(x), q, i)
        &&& after.on(x)[q][i] == before.on(x)[q][i]
        &&& before.on(x)[q][i].exchange_id@ != order.exchange_id@
    }) by {
        if !(x == home && q == p && i == n) {
            assert(orderbook::placed(before.on(x), q, i));
            if before.on(x)[q][i].exchange_id@ == order.exchange_id@ {
                assert(model::queued_at(before.on(x), order.exchange_id@, q, i));
                assert(model::queues_have(before.on(x), order.exchange_id@));
            }
        }
    }
    assert forall|x: Shelf, q: u64, i: int, y: Shelf, r: u64, j: int|
        #![trigger orderbook::placed(after.on(x), q, i), orderbook::placed(after.on(y), r, j)]
        orderbook::placed(after.on(x), q, i) && orderbook::placed(after.on(y), r, j)
            && after.on(x)[q][i].exchange_id@ == after.on(y)[r][j].exchange_id@ implies x == y
        && q == r && i == j by {
        let first = x == home && q == p && i == n;
        let second = y == home && r == p && j == n;
        if !first {
            assert(orderbook::placed(before.on(x), q, i));
        }
        if !second {
            assert(orderbook::placed(before.on(y), r, j));
        }
    }
}

// ---------------------------------------------------------------- one execution

/// The book after the sweep of an execution is what is left of it.
proof fn lemma_swept_thins<M: MatchingAlgorithm>(
    venue: Venue<M>,
    state: BookState,
    order: Order,
    limit: Option<Price>,
)
    requires
        laws::valid(venue, state),
    ensures
        ({
            let after = model::swept_state(
                state,
                order,
                model::sweep_for(venue, state, order, limit),
            );
            &&& people(after).subset_of(people(state))
            &&& well_named(state) ==> well_named(after)
        }),
{
    let side = model::opposite(order.side);
    let swept = model::sweep_for(venue, state, order, limit);
    let after = model::swept_state(state, order, swept);
    assert(laws::side_valid(venue.matcher.spec_lot_size(), state, side));
    agreement::lemma_sweep_thins(
        venue.matcher,
        state.resting(side),
        order,
        limit,
        order.remaining_quantity.base() as int,
        state.next_arrival,
    );
    assert forall|x: Shelf| agreement::thinned(state.on(x), #[trigger] after.on(x)) by {
        if x == Shelf::Levels(side) {
            assert(after.on(x) == swept.levels);
        } else {
            assert(after.on(x) == state.on(x));
            agreement::lemma_same_thinned(state.on(x));
        }
    }
    lemma_people_thinned(state, after);
    if well_named(state) {
        lemma_thinned_well_named(state, after);
    }
}

/// Where a remainder of an execution rests.
spec fn rests<M: MatchingAlgorithm>(venue: Venue<M>, state: BookState, order: Order) -> bool {
    let swept = model::sweep_for(venue, state, order, laws::limit_of(order));
    let after = model::swept_state(state, order, swept);
    let remainder = Order { remaining_quantity: allocation::qty_of(swept.remaining), ..order };
    &&& order.order_type matches OrderType::Limit { tif, .. } && tif == TimeInForce::GTC
    &&& swept.remaining != 0
    &&& model::rest_error(venue, after, remainder) is None
}

/// An execution brings in nobody but the order, and keeps names apart.
proof fn lemma_executed_people<M: MatchingAlgorithm>(
    venue: Venue<M>,
    state: BookState,
    order: Order,
)
    requires
        laws::valid(venue, state),
    ensures
        ({
            let after = model::plain_step(venue, state, order).state;
            &&& people(after).subset_of(people(state).insert(who(order)))
            &&& well_named(state) ==> well_named(after)
        }),
{
    let limit = laws::limit_of(order);
    let done = model::plain_step(venue, state, order).state;
    let swept = model::sweep_for(venue, state, order, limit);
    let after = model::swept_state(state, order, swept);
    let remainder = Order { remaining_quantity: allocation::qty_of(swept.remaining), ..order };
    lemma_swept_thins(venue, state, order, limit);
    if rests(venue, state, order) {
        let p = order.order_type.limit_price()->0.minor();
        let stamped = Order { arrival: after.next_arrival as u32, ..remainder };
        let base = model::rested(after, remainder);
        lemma_people_enqueued(after, base, Shelf::Levels(order.side), p, stamped);
        if well_named(state) {
            lemma_enqueued_well_named(after, base, Shelf::Levels(order.side), p, stamped);
        }
        assert forall|x: Shelf| #[trigger] done.on(x) == base.on(x) by {}
        lemma_same_shelves(base, done);
    } else if laws::is_fill_or_kill(order) && laws::within_reach(state, order)
        < order.remaining_quantity.base() {
        assert(done == state);
    } else {
        assert forall|x: Shelf| #[trigger] done.on(x) == after.on(x) by {}
        lemma_same_shelves(after, done);
    }
}

/// An execution reports on its order, and nothing waits for a trigger by it.
proof fn lemma_executed_report<M: MatchingAlgorithm>(
    venue: Venue<M>,
    state: BookState,
    order: Order,
)
    ensures
        model::plain_step(venue, state, order).result matches Ok(report) ==> {
            &&& report.order_id == order.exchange_id
            &&& report.outcome != SubmitOutcome::StopPending
        },
{
}

/// An order that the instrument admits, on the tick grid and under a name that no
/// live order has, is executed without an error.
proof fn lemma_executed_without_error<M: MatchingAlgorithm>(
    venue: Venue<M>,
    state: BookState,
    order: Order,
)
    requires
        laws::valid(venue, state),
        agreement::holds_admitted(venue),
        laws::types_on_grid(venue.spec, order),
        model::refusal(venue.spec, order) is None,
        order.order_type.trigger() is None,
        !state.has_id(order.exchange_id@),
    ensures
        model::plain_step(venue, state, order).result is Ok,
{
    match order.order_type {
        OrderType::Limit { price, tif } => {
            let swept = model::sweep_for(venue, state, order, Some(price));
            let after = model::swept_state(state, order, swept);
            let remainder = Order {
                remaining_quantity: allocation::qty_of(swept.remaining),
                ..order
            };
            lemma_swept_thins(venue, state, order, Some(price));
            if after.has_id(order.exchange_id@) {
                lemma_live(after, order.exchange_id@);
                let client = choose|client: Seq<char>| #[trigger]
                    people(after).contains((order.exchange_id@, client));
                assert(people(state).contains((order.exchange_id@, client)));
                lemma_person_live(state, (order.exchange_id@, client));
            }
            assert(model::refusal(venue.spec, remainder) is None);
            assert(venue.spec.price_refusal(price) is None);
            assert(venue.span.contains(price.minor()));
        },
        _ => {},
    }
}

proof fn lemma_person_live(state: BookState, person: (Seq<char>, Seq<char>))
    requires
        people(state).contains(person),
    ensures
        state.has_id(person.0),
{
    let (x, p, i) = choose|x: Shelf, p: u64, i: int| #[trigger]
        orderbook::placed(state.on(x), p, i) && who(state.on(x)[p][i]) == person;
    assert(model::queued_at(state.on(x), person.0, p, i));
    assert(model::queues_have(state.on(x), person.0));
}

// ---------------------------------------------------------------- waiting stops

/// The stops that wait.
pub open spec fn stop_set(state: BookState) -> Set<Order> {
    Set::new(
        |order: Order|
            exists|side: Side, t: u64, i: int| #[trigger]
                orderbook::placed(state.stops(side), t, i) && state.stops(side)[t][i] == order,
    )
}

pub(crate) proof fn lemma_same_stops(a: BookState, b: BookState)
    requires
        a.stop_bids == b.stop_bids,
        a.stop_asks == b.stop_asks,
    ensures
        stop_set(a) == stop_set(b),
{
    assert forall|side: Side| #[trigger] a.stops(side) == b.stops(side) by {}
    assert forall|order: Order| #[trigger]
        stop_set(a).contains(order) == stop_set(b).contains(order) by {
        if stop_set(a).contains(order) {
            let (side, t, i) = choose|side: Side, t: u64, i: int| #[trigger]
                orderbook::placed(a.stops(side), t, i) && a.stops(side)[t][i] == order;
            assert(a.stops(side) == b.stops(side));
            assert(orderbook::placed(b.stops(side), t, i));
        }
        if stop_set(b).contains(order) {
            let (side, t, i) = choose|side: Side, t: u64, i: int| #[trigger]
                orderbook::placed(b.stops(side), t, i) && b.stops(side)[t][i] == order;
            assert(a.stops(side) == b.stops(side));
            assert(orderbook::placed(a.stops(side), t, i));
        }
    }
    assert(stop_set(a) =~= stop_set(b));
}

/// The place that an order had before the one at `gone` was taken out of its
/// queue.
spec fn seat(same_queue: bool, gone: int, k: int) -> int {
    if same_queue && k >= gone {
        k + 1
    } else {
        k
    }
}

/// Taking an order off a shelf leaves the people and the stops that are left.
proof fn lemma_taken_out(before: BookState, home: Shelf, p: u64, i: int)
    requires
        orderbook::placed(before.on(home), p, i),
    ensures
        ({
            let after = before.with(home, model::dequeued(before.on(home), p, i));
            &&& people(after).subset_of(people(before))
            &&& stop_set(after).subset_of(stop_set(before))
            &&& people(before).contains(who(before.on(home)[p][i]))
            &&& well_named(before) ==> well_named(after) && !after.has_id(
                before.on(home)[p][i].exchange_id@,
            )
            &&& after.last_trade == before.last_trade
            &&& after.next_seq == before.next_seq
            &&& forall|x: Shelf| (#[trigger] after.on(x)).dom().subset_of(before.on(x).dom())
        }),
{
    let after = before.with(home, model::dequeued(before.on(home), p, i));
    assert forall|x: Shelf| #[trigger]
        after.on(x) == (if x == home {
            model::dequeued(before.on(x), p, i)
        } else {
            before.on(x)
        }) by {}
    assert forall|x: Shelf, q: u64, k: int| #[trigger]
        orderbook::placed(after.on(x), q, k) implies {
        let j = seat(x == home && q == p, i, k);
        orderbook::placed(before.on(x), q, j) && after.on(x)[q][k] == before.on(x)[q][j]
    } by {}
    assert forall|person: (Seq<char>, Seq<char>)| #[trigger]
        people(after).contains(person) implies people(before).contains(person) by {
        let (x, q, k) = choose|x: Shelf, q: u64, k: int| #[trigger]
            orderbook::placed(after.on(x), q, k) && who(after.on(x)[q][k]) == person;
        let j = seat(x == home && q == p, i, k);
        assert(orderbook::placed(before.on(x), q, j));
    }
    assert forall|order: Order| #[trigger] stop_set(after).contains(order) implies stop_set(
        before,
    ).contains(order) by {
        let (side, q, k) = choose|side: Side, q: u64, k: int| #[trigger]
            orderbook::placed(after.stops(side), q, k) && after.stops(side)[q][k] == order;
        let x = Shelf::Stops(side);
        assert(after.on(x) == after.stops(side) && before.on(x) == before.stops(side));
        assert(orderbook::placed(after.on(x), q, k));
        let j = seat(x == home && q == p, i, k);
        assert(orderbook::placed(before.stops(side), q, j));
    }
    if well_named(before) {
        assert forall|x: Shelf, q: u64, k: int, y: Shelf, r: u64, l: int|
            #![trigger orderbook::placed(after.on(x), q, k), orderbook::placed(after.on(y), r, l)]
            orderbook::placed(after.on(x), q, k) && orderbook::placed(after.on(y), r, l)
                && after.on(x)[q][k].exchange_id@ == after.on(y)[r][l].exchange_id@ implies x == y
            && q == r && k == l by {
            let j = seat(x == home && q == p, i, k);
            let m = seat(y == home && r == p, i, l);
            assert(orderbook::placed(before.on(x), q, j));
            assert(orderbook::placed(before.on(y), r, m));
        }
        let name = before.on(home)[p][i].exchange_id@;
        if after.has_id(name) {
            let x = choose|x: Shelf| model::queues_have(#[trigger] after.on(x), name);
            let (q, k) = choose|q: u64, k: int| #[trigger]
                model::queued_at(after.on(x), name, q, k);
            assert(orderbook::placed(after.on(x), q, k));
            let j = seat(x == home && q == p, i, k);
            assert(orderbook::placed(before.on(x), q, j));
            assert(orderbook::placed(before.on(home), p, i));
        }
    }
}

/// A stop that is parked joins those that wait.
pub(crate) proof fn lemma_parked_stops(state: BookState, order: Order, trigger: Price)
    ensures
        ({
            let done = model::parked_step(state, order, trigger);
            &&& stop_set(done.state).subset_of(stop_set(state).insert(order))
            &&& people(done.state).subset_of(people(state).insert(who(order)))
            &&& well_named(state) ==> well_named(done.state)
        }),
{
    let after = model::parked_step(state, order, trigger).state;
    let home = Shelf::Stops(order.side);
    let p = trigger.minor();
    if !state.has_id(order.exchange_id@) {
        lemma_people_enqueued(state, after, home, p, order);
        if well_named(state) {
            lemma_enqueued_well_named(state, after, home, p, order);
        }
        assert forall|stop: Order| #[trigger] stop_set(after).contains(stop) implies stop_set(
            state,
        ).insert(order).contains(stop) by {
            let (side, t, i) = choose|side: Side, t: u64, i: int| #[trigger]
                orderbook::placed(after.stops(side), t, i) && after.stops(side)[t][i] == stop;
            if orderbook::placed(state.stops(side), t, i) {
                assert(after.stops(side)[t][i] == state.stops(side)[t][i]);
            } else {
                assert(after.stops(side)[t][i] == order);
            }
        }
    }
}

/// The stop that fires next waited, and it is gone.
pub(crate) proof fn lemma_next_taken_out<M: MatchingAlgorithm>(venue: Venue<M>, state: BookState)
    requires
        laws::valid(venue, state),
        model::next_trigger(state) is Some,
    ensures
        ({
            let after = model::without_next_stop(state);
            let stop = model::next_stop(state);
            &&& stop_set(state).contains(stop)
            &&& stop_set(after).subset_of(stop_set(state))
            &&& people(state).contains(who(stop))
            &&& people(after).subset_of(people(state))
            &&& well_named(state) ==> well_named(after) && !after.has_id(stop.exchange_id@)
            &&& after.next_seq == state.next_seq
        }),
{
    let (side, trigger) = model::next_trigger(state)->0;
    laws::lemma_next_stop_valid(venue, state);
    assert(orderbook::placed(state.stops(side), trigger, 0));
    assert(state.on(Shelf::Stops(side)) == state.stops(side));
    lemma_taken_out(state, Shelf::Stops(side), trigger, 0);
}

/// What is known of a stop that waits: that it was admitted and is on the tick
/// grid.
pub open spec fn stops_admitted<M>(venue: Venue<M>, state: BookState) -> bool {
    forall|stop: Order| #[trigger]
        stop_set(state).contains(stop) ==> {
            &&& laws::types_on_grid(venue.spec, stop)
            &&& model::refusal(venue.spec, stop) is None
        }
}

/// What a stop becomes is admitted and on the tick grid if it was.
proof fn lemma_activated_admitted<M>(venue: Venue<M>, order: Order)
    requires
        laws::types_on_grid(venue.spec, order),
        model::refusal(venue.spec, order) is None,
    ensures
        laws::types_on_grid(venue.spec, model::activated(order)),
        model::refusal(venue.spec, model::activated(order)) is None,
        model::activated(order).order_type.trigger() is None,
{
}

/// A cascade brings in nobody, fires stops that waited, and leaves others
/// waiting.
proof fn lemma_cascaded<M: MatchingAlgorithm>(venue: Venue<M>, state: BookState)
    requires
        laws::valid(venue, state),
        model::cascade(venue, state).state.next_arrival <= u32::MAX,
    ensures
        ({
            let done = model::cascade(venue, state);
            &&& people(done.state).subset_of(people(state))
            &&& stop_set(done.state).subset_of(stop_set(state))
            &&& done.state.next_seq == state.next_seq
            &&& well_named(state) ==> well_named(done.state)
            &&& done.result matches Ok(reports) ==> forall|i: int|
                0 <= i < reports.len() ==> fired_from(state, #[trigger] reports[i])
            &&& well_named(state) && stops_admitted(venue, state) && agreement::holds_admitted(venue)
                ==> done.result is Ok
        }),
    decreases model::waiting(state),
{
    laws::lemma_valid_stops_sound(venue, state);
    if model::next_trigger(state) is Some {
        let before = model::without_next_stop(state);
        let waited = model::next_stop(state);
        let stop = model::activated(waited);
        let fired = model::plain_step(venue, before, stop);
        laws::lemma_next_stop_valid(venue, state);
        lemma_next_taken_out(venue, state);
        model::lemma_next_stop_taken(state);
        model::lemma_plain_step_keeps_stops(venue, before, stop);
        if fired.result is Ok {
            matching::lemma_cascade_arrivals(venue, fired.state);
        }
        laws::executing_keeps_a_book_valid(venue, before, stop);
        lemma_executed_people(venue, before, stop);
        lemma_executed_report(venue, before, stop);
        lemma_same_stops(before, fired.state);
        assert(who(stop) == who(waited));
        if stops_admitted(venue, state) && well_named(state) && agreement::holds_admitted(venue) {
            lemma_activated_admitted(venue, waited);
            lemma_executed_without_error(venue, before, stop);
        }
        if fired.result is Ok {
            lemma_cascaded(venue, fired.state);
            let rest = model::cascade(venue, fired.state);
            if rest.result is Ok {
                let reports = model::cascade(venue, state).result->Ok_0;
                assert forall|i: int| 0 <= i < reports.len() implies fired_from(
                    state,
                    #[trigger] reports[i],
                ) by {
                    if i == 0 {
                        assert(reports[0] == fired.result->Ok_0);
                        assert(is_report_of(reports[0], waited));
                    } else {
                        assert(reports[i] == rest.result->Ok_0[i - 1]);
                        assert(fired_from(fired.state, rest.result->Ok_0[i - 1]));
                        let other = choose|other: Order| #[trigger]
                            is_report_of(reports[i], other) && stop_set(fired.state).contains(
                                other,
                            );
                        assert(stop_set(state).contains(other));
                        assert(is_report_of(reports[i], other));
                    }
                }
            }
        }
    }
}

/// Whether a report is on an order, and says that it was executed.
pub open spec fn is_report_of(report: Report, order: Order) -> bool {
    &&& report.order_id == order.exchange_id
    &&& report.outcome != SubmitOutcome::StopPending
}

/// Whether a report is on a stop that waited in a book.
pub open spec fn fired_from(state: BookState, report: Report) -> bool {
    exists|stop: Order| #[trigger] is_report_of(report, stop) && stop_set(state).contains(stop)
}

// ---------------------------------------------------------------- one submission

/// Where no waiting stop has been reached, none fires when another is parked that
/// has not been reached either.
pub(crate) proof fn lemma_parking_fires_nothing<M: MatchingAlgorithm>(
    venue: Venue<M>,
    state: BookState,
    order: Order,
    trigger: Price,
)
    requires
        laws::valid(venue, state),
        laws::none_triggered(state),
        !model::triggered(state.last_trade, order.side, trigger.minor()),
        model::stops_sound(model::parked_step(state, order, trigger).state),
    ensures
        model::next_trigger(model::parked_step(state, order, trigger).state) is None,
{
    let after = model::parked_step(state, order, trigger).state;
    if model::next_trigger(after) is Some {
        let (side, t) = model::next_trigger(after)->0;
        let dom = after.stops(side).dom();
        storage::lemma_best_exists(dom, model::opposite(side));
        assert(after.stops(side).contains_key(t));
        assert(model::triggered(state.last_trade, side, t));
        assert(!state.stops(side).contains_key(t));
    }
}

/// What is known of a submission: nobody comes in but the order, the stops that
/// fire waited, and it ends without an error where everything was admitted.
pub(crate) proof fn lemma_submitted<M: MatchingAlgorithm>(
    venue: Venue<M>,
    state: BookState,
    order: Order,
    id: ExchangeId,
)
    requires
        laws::valid(venue, state),
        matching::in_lots(venue.matcher.spec_lot_size(), order),
        model::submitted(venue, state, order, id).state.next_arrival <= u32::MAX,
    ensures
        ({
            let done = model::submitted(venue, state, order, id);
            let named = Order { exchange_id: id, ..order };
            &&& people(done.state).subset_of(people(state).insert((id@, order.client_id@)))
            &&& stop_set(done.state).subset_of(stop_set(state).insert(named))
            &&& done.state.next_seq == state.next_seq + 1
            &&& well_named(state) ==> well_named(done.state)
            &&& done.result matches Ok(reports) ==> {
                &&& reports.0.order_id == id
                &&& laws::none_triggered(state) ==> forall|i: int|
                    0 <= i < reports.1.len() ==> fired_from(state, #[trigger] reports.1[i])
                &&& forall|i: int|
                    0 <= i < reports.1.len() ==> (#[trigger] reports.1[i]).outcome
                        != SubmitOutcome::StopPending
            }
            &&& well_named(state) && !state.has_id(id@) && stops_admitted(venue, state)
                && agreement::holds_admitted(venue) && laws::types_on_grid(venue.spec, order)
                && model::refusal(venue.spec, order) is None ==> done.result is Ok
        }),
{
    let counted = BookState { next_seq: state.next_seq + 1, ..state };
    let named = Order { exchange_id: id, ..order };
    let active = model::activated(named);
    let first = model::step(venue, counted, named);
    let done = model::submitted(venue, state, order, id);
    laws::lemma_counted_valid(venue, state, state.next_seq + 1);
    laws::lemma_valid_stops_sound(venue, counted);
    model::lemma_step_keeps_stops_sound(venue, counted, named);
    if first.result is Ok {
        matching::lemma_cascade_arrivals(venue, first.state);
    }
    laws::lemma_step_valid(venue, counted, named);
    laws::lemma_step_cases(venue, counted, named);
    assert forall|x: Shelf| #[trigger] counted.on(x) == state.on(x) by {}
    lemma_same_shelves(state, counted);
    lemma_same_stops(state, counted);
    let fine = well_named(state) && !state.has_id(id@) && stops_admitted(venue, state)
        && agreement::holds_admitted(venue) && laws::types_on_grid(venue.spec, order)
        && model::refusal(venue.spec, order) is None;
    if fine {
        assert(!counted.has_id(id@)) by {
            if counted.has_id(id@) {
                lemma_live(counted, id@);
                let client = choose|client: Seq<char>| #[trigger]
                    people(counted).contains((id@, client));
                lemma_person_live(state, (id@, client));
            }
        }
    }
    if laws::executes_now(counted, named) {
        model::lemma_plain_step_keeps_stops(venue, counted, active);
        lemma_executed_people(venue, counted, active);
        lemma_executed_report(venue, counted, active);
        lemma_same_stops(counted, first.state);
        if fine {
            lemma_activated_admitted(venue, named);
            lemma_executed_without_error(venue, counted, active);
        }
    } else {
        let trigger = named.order_type.trigger()->0;
        lemma_parked_stops(counted, named, trigger);
        if laws::none_triggered(state) {
            assert(laws::none_triggered(counted)) by {
                assert forall|side: Side, t: u64| #[trigger]
                    counted.stops(side).contains_key(t) implies !model::triggered(
                    counted.last_trade,
                    side,
                    t,
                ) by {
                    assert(state.stops(side).contains_key(t));
                }
            }
            lemma_parking_fires_nothing(venue, counted, named, trigger);
        }
    }
    if first.result is Ok {
        lemma_cascaded(venue, first.state);
        if done.result is Ok {
            let reports = done.result->Ok_0.1;
            assert forall|i: int| 0 <= i < reports.len() implies (
            #[trigger] reports[i]).outcome != SubmitOutcome::StopPending by {
                assert(fired_from(first.state, reports[i]));
            }
            if laws::none_triggered(state) && laws::executes_now(counted, named) {
                assert forall|i: int| 0 <= i < reports.len() implies fired_from(
                    state,
                    #[trigger] reports[i],
                ) by {
                    assert(fired_from(first.state, reports[i]));
                    let stop = choose|stop: Order| #[trigger]
                        is_report_of(reports[i], stop) && stop_set(first.state).contains(stop);
                    assert(is_report_of(reports[i], stop) && stop_set(state).contains(stop));
                }
            }
        }
    }
}

// ---------------------------------------------------------------- names in sequence

/// Whether every live order was named in sequence, before the next name.
pub open spec fn numbered(state: BookState) -> bool {
    &&& state.next_seq >= 0
    &&& forall|person: (Seq<char>, Seq<char>)| #[trigger]
        people(state).contains(person) ==> exists|n: nat|
            n < state.next_seq && person.0 == #[trigger] types::sequence_name(n)
}

/// The next name in sequence is no live order's.
proof fn lemma_next_name_is_new(state: BookState)
    requires
        numbered(state),
    ensures
        !state.has_id(types::sequence_name(state.next_seq as nat)),
{
    let name = types::sequence_name(state.next_seq as nat);
    if state.has_id(name) {
        lemma_live(state, name);
        let client = choose|client: Seq<char>| #[trigger] people(state).contains((name, client));
        let n = choose|n: nat|
            n < state.next_seq && (name, client).0 == #[trigger] types::sequence_name(n);
        types::sequence_names_are_distinct(n, state.next_seq as nat);
    }
}

proof fn lemma_numbered<M: MatchingAlgorithm>(
    venue: Venue<M>,
    state: BookState,
    order: Order,
    id: ExchangeId,
)
    requires
        laws::valid(venue, state),
        matching::in_lots(venue.matcher.spec_lot_size(), order),
        model::submitted(venue, state, order, id).state.next_arrival <= u32::MAX,
        numbered(state),
        id@ == types::sequence_name(state.next_seq as nat),
    ensures
        numbered(model::submitted(venue, state, order, id).state),
{
    let after = model::submitted(venue, state, order, id).state;
    lemma_submitted(venue, state, order, id);
    assert forall|person: (Seq<char>, Seq<char>)| #[trigger]
        people(after).contains(person) implies exists|n: nat|
        n < after.next_seq && person.0 == #[trigger] types::sequence_name(n) by {
        assert(people(state).insert((id@, order.client_id@)).contains(person));
        if people(state).contains(person) {
            let n = choose|n: nat|
                n < state.next_seq && person.0 == #[trigger] types::sequence_name(n);
            assert(n < after.next_seq && person.0 == types::sequence_name(n));
        } else {
            let n = state.next_seq as nat;
            assert(n < after.next_seq && person.0 == types::sequence_name(n));
        }
    }
}

proof fn lemma_nobody_at_first()
    ensures
        people(BookState::empty()) == Set::<(Seq<char>, Seq<char>)>::empty(),
        stop_set(BookState::empty()) == Set::<Order>::empty(),
        well_named(BookState::empty()),
        numbered(BookState::empty()),
        laws::uncrossed(BookState::empty()),
        laws::none_triggered(BookState::empty()),
{
    let state = BookState::empty();
    assert forall|x: Shelf, p: u64, i: int| !#[trigger] orderbook::placed(state.on(x), p, i) by {}
    assert(people(state) =~= Set::<(Seq<char>, Seq<char>)>::empty());
    assert forall|side: Side, p: u64, i: int| !#[trigger]
        orderbook::placed(state.stops(side), p, i) by {}
    assert(stop_set(state) =~= Set::<Order>::empty());
}

// ---------------------------------------------------------------- histories

/// What can be done to a book: submitting an order, with the result of that, or
/// cancelling the order of a name.
pub enum Event {
    Submitted { order: Order, result: Result<ExecutionReport, OrderBookError> },
    Cancelled { name: Seq<char> },
}

/// Whether an event takes one book to another.
pub open spec fn takes<M: MatchingAlgorithm>(
    venue: Venue<M>,
    before: BookState,
    event: Event,
    after: BookState,
) -> bool {
    match event {
        Event::Submitted { order, result } => {
            &&& matching::in_lots(venue.matcher.spec_lot_size(), order)
            &&& matching::submits(venue, before, order, result, after)
        },
        Event::Cancelled { name } => if before.has_id(name) {
            model::cancels(before, name, after)
        } else {
            after == before
        },
    }
}

/// Whether the event at place `i` takes the book at that place to the next.
pub open spec fn turn<M: MatchingAlgorithm, S: OrderBookStore>(
    books: Seq<OrderBook<M, S>>,
    events: Seq<Event>,
    i: int,
) -> bool {
    &&& books[i + 1].venue() == books[i].venue()
    &&& takes(books[i].venue(), books[i].state(), events[i], books[i + 1].state())
}

/// Whether a book has come to each of these in turn from a new one, by
/// submissions and cancellations alone.
pub open spec fn lived<M: MatchingAlgorithm, S: OrderBookStore>(
    books: Seq<OrderBook<M, S>>,
    events: Seq<Event>,
) -> bool {
    &&& books.len() == events.len() + 1
    &&& books[0].state() == BookState::empty()
    &&& forall|i: int| 0 <= i < books.len() ==> (#[trigger] books[i]).wf()
    &&& forall|i: int| 0 <= i < events.len() ==> #[trigger] turn(books, events, i)
}

/// The identifier of a submission, where the instrument admits the order.
pub(crate) proof fn lemma_submission<M: MatchingAlgorithm>(
    venue: Venue<M>,
    before: BookState,
    order: Order,
    result: Result<ExecutionReport, OrderBookError>,
    after: BookState,
) -> (id: ExchangeId)
    requires
        matching::submits(venue, before, order, result, after),
        model::refusal(venue.spec, order) is None,
    ensures
        id@ == types::sequence_name(before.next_seq as nat),
        model::submitted(venue, before, order, id).state == after,
        model::submitted(venue, before, order, id).result == agreement::answer(result),
        matching::answered(model::submitted(venue, before, order, id), after, result),
{
    choose|id: ExchangeId|
        {
            &&& id@ == types::sequence_name(before.next_seq as nat)
            &&& matching::answered(
                #[trigger] model::submitted(venue, before, order, id),
                after,
                result,
            )
        }
}

/// What cancelling leaves.
proof fn lemma_cancelled(before: BookState, name: Seq<char>, after: BookState)
    requires
        model::cancels(before, name, after),
    ensures
        people(after).subset_of(people(before)),
        stop_set(after).subset_of(stop_set(before)),
        after.next_seq == before.next_seq,
        well_named(before) ==> well_named(after),
        laws::uncrossed(before) ==> laws::uncrossed(after),
        laws::none_triggered(before) ==> laws::none_triggered(after),
{
    let (home, p, i) = choose|home: Shelf, p: u64, i: int|
        #[trigger] model::queued_at(before.on(home), name, p, i) && after == before.with(
            home,
            model::dequeued(before.on(home), p, i),
        );
    assert(orderbook::placed(before.on(home), p, i));
    lemma_taken_out(before, home, p, i);
    if laws::uncrossed(before) {
        assert forall|b: u64, a: u64|
            #![trigger after.bids.contains_key(b), after.asks.contains_key(a)]
            after.bids.contains_key(b) && after.asks.contains_key(a) implies b < a by {
            assert(after.on(Shelf::Levels(Side::Bid)).dom().contains(b));
            assert(after.on(Shelf::Levels(Side::Ask)).dom().contains(a));
            assert(before.on(Shelf::Levels(Side::Bid)).dom().contains(b));
            assert(before.on(Shelf::Levels(Side::Ask)).dom().contains(a));
            assert(before.bids.contains_key(b) && before.asks.contains_key(a));
        }
    }
    if laws::none_triggered(before) {
        assert forall|side: Side, t: u64| #[trigger]
            after.stops(side).contains_key(t) implies !model::triggered(
            after.last_trade,
            side,
            t,
        ) by {
            assert(after.on(Shelf::Stops(side)).dom().contains(t));
            assert(before.on(Shelf::Stops(side)).dom().contains(t));
            assert(before.stops(side).contains_key(t));
        }
    }
}

/// No crossing: whatever is submitted to a new book and cancelled in it, every
/// bid is below every ask at every moment.
pub proof fn a_book_is_never_crossed<M: MatchingAlgorithm, S: OrderBookStore>(
    books: Seq<OrderBook<M, S>>,
    events: Seq<Event>,
    i: int,
)
    requires
        lived(books, events),
        0 <= i < books.len(),
    ensures
        laws::uncrossed(books[i].state()),
        ({
            let state = books[i].state();
            state.best(Side::Bid) is Some && state.best(Side::Ask) is Some ==> state.best(
                Side::Bid,
            )->0 < state.best(Side::Ask)->0
        }),
    decreases i,
{
    let state = books[i].state();
    if i == 0 {
        lemma_nobody_at_first();
    } else {
        a_book_is_never_crossed(books, events, i - 1);
        assert(turn(books, events, i - 1));
        let venue = books[i - 1].venue();
        let before = books[i - 1].state();
        laws::every_book_is_valid(books[i - 1]);
        laws::every_book_is_valid(books[i]);
        match events[i - 1] {
            Event::Submitted { order, result } => {
                if model::refusal(venue.spec, order) is None {
                    let id = lemma_submission(venue, before, order, result, state);
                    laws::submitting_never_crosses_the_book(venue, before, order, id);
                }
            },
            Event::Cancelled { name } => {
                if before.has_id(name) {
                    lemma_cancelled(before, name, state);
                }
            },
        }
    }
    laws::every_book_is_valid(books[i]);
    let lot = books[i].venue().matcher.spec_lot_size();
    assert(laws::side_valid(lot, state, Side::Bid));
    assert(laws::side_valid(lot, state, Side::Ask));
    if state.best(Side::Bid) is Some && state.best(Side::Ask) is Some {
        storage::lemma_best_exists(state.bids.dom(), Side::Bid);
        storage::lemma_best_exists(state.asks.dom(), Side::Ask);
        assert(state.bids.contains_key(state.best(Side::Bid)->0));
        assert(state.asks.contains_key(state.best(Side::Ask)->0));
    }
}

/// Stop discipline: once a submission has succeeded no stop waits that the market
/// has reached. The reports of the stops that it fired have none of their own, and
/// none of them is left waiting.
pub proof fn stops_fire_in_time<M: MatchingAlgorithm, S: OrderBookStore>(
    books: Seq<OrderBook<M, S>>,
    events: Seq<Event>,
    i: int,
    order: Order,
    report: ExecutionReport,
)
    requires
        lived(books, events),
        0 <= i < events.len(),
        events[i] == (Event::Submitted { order, result: Ok(report) }),
    ensures
        laws::none_triggered(books[i + 1].state()),
        forall|k: int|
            0 <= k < report.triggered@.len() ==> {
                &&& (#[trigger] report.triggered@[k]).triggered@.len() == 0
                &&& report.triggered@[k].outcome != SubmitOutcome::StopPending
            },
{
    assert(turn(books, events, i));
    let venue = books[i].venue();
    let before = books[i].state();
    let after = books[i + 1].state();
    laws::every_book_is_valid(books[i]);
    laws::every_book_is_valid(books[i + 1]);
    let id = lemma_submission(venue, before, order, Ok(report), after);
    laws::no_triggered_stop_waits(venue, before, order, id);
    lemma_submitted(venue, before, order, id);
    let reports = matching::fired(report.triggered@);
    assert forall|k: int| 0 <= k < report.triggered@.len() implies {
        &&& (#[trigger] report.triggered@[k]).triggered@.len() == 0
        &&& report.triggered@[k].outcome != SubmitOutcome::StopPending
    } by {
        assert(reports[k] == report.triggered@[k].own());
        assert(reports[k].outcome != SubmitOutcome::StopPending);
    }
}

/// Whether every order that was submitted has its prices on the tick grid.
pub open spec fn all_on_tick<M: MatchingAlgorithm, S: OrderBookStore>(
    books: Seq<OrderBook<M, S>>,
    events: Seq<Event>,
) -> bool {
    forall|i: int|
        0 <= i < events.len() ==> (#[trigger] events[i] matches Event::Submitted { order, .. }
            ==> laws::types_on_grid(books[0].venue().spec, order))
}

/// What a book is between the events of a history on the tick grid.
pub open spec fn settled<M: MatchingAlgorithm>(venue: Venue<M>, state: BookState) -> bool {
    &&& laws::none_triggered(state)
    &&& well_named(state)
    &&& numbered(state)
    &&& stops_admitted(venue, state)
}

/// A submission to a settled book leaves it settled, and succeeds if the
/// instrument admits the order.
proof fn lemma_submission_settles<M: MatchingAlgorithm>(
    venue: Venue<M>,
    before: BookState,
    order: Order,
    result: Result<ExecutionReport, OrderBookError>,
    after: BookState,
)
    requires
        laws::valid(venue, before),
        settled(venue, before),
        agreement::holds_admitted(venue),
        laws::types_on_grid(venue.spec, order),
        matching::in_lots(venue.matcher.spec_lot_size(), order),
        matching::submits(venue, before, order, result, after),
        after.next_arrival <= u32::MAX,
    ensures
        settled(venue, after),
        result is Ok <==> model::refusal(venue.spec, order) is None,
        result matches Ok(report) ==> {
            &&& report.order_id@ == types::sequence_name(before.next_seq as nat)
            &&& forall|k: int|
                0 <= k < report.triggered@.len() ==> fired_from(
                    before,
                    (#[trigger] report.triggered@[k]).own(),
                )
        },
{
    if model::refusal(venue.spec, order) is None {
        let id = lemma_submission(venue, before, order, result, after);
        let named = Order { exchange_id: id, ..order };
        lemma_next_name_is_new(before);
        lemma_submitted(venue, before, order, id);
        lemma_numbered(venue, before, order, id);
        laws::no_triggered_stop_waits(venue, before, order, id);
        assert forall|stop: Order| #[trigger] stop_set(after).contains(stop) implies {
            &&& laws::types_on_grid(venue.spec, stop)
            &&& model::refusal(venue.spec, stop) is None
        } by {
            assert(stop_set(before).insert(named).contains(stop));
        }
        let report = result->Ok_0;
        let reports = matching::fired(report.triggered@);
        assert forall|k: int| 0 <= k < report.triggered@.len() implies fired_from(
            before,
            (#[trigger] report.triggered@[k]).own(),
        ) by {
            assert(fired_from(before, reports[k]));
        }
    }
}

proof fn lemma_history_settled<M: MatchingAlgorithm, S: OrderBookStore>(
    books: Seq<OrderBook<M, S>>,
    events: Seq<Event>,
    i: int,
)
    requires
        lived(books, events),
        all_on_tick(books, events),
        0 <= i < books.len(),
    ensures
        settled(books[i].venue(), books[i].state()),
        books[i].venue() == books[0].venue(),
    decreases i,
{
    if i == 0 {
        lemma_nobody_at_first();
    } else {
        lemma_history_settled(books, events, i - 1);
        assert(turn(books, events, i - 1));
        let venue = books[i - 1].venue();
        let before = books[i - 1].state();
        let after = books[i].state();
        laws::every_book_is_valid(books[i - 1]);
        laws::every_book_is_valid(books[i]);
        agreement::every_book_holds_what_is_admitted(books[i - 1]);
        match events[i - 1] {
            Event::Submitted { order, result } => {
                lemma_submission_settles(venue, before, order, result, after);
            },
            Event::Cancelled { name } => {
                if before.has_id(name) {
                    lemma_cancelled(before, name, after);
                }
            },
        }
    }
}

/// On the tick grid nothing goes wrong: whatever is submitted to a new book and
/// cancelled in it, a submission succeeds if and only if the instrument admits the
/// order, no stop waits at any moment that the market has reached, and every stop
/// that a submission fires was waiting before it.
pub proof fn submissions_succeed_and_fire_what_waited<M: MatchingAlgorithm, S: OrderBookStore>(
    books: Seq<OrderBook<M, S>>,
    events: Seq<Event>,
    i: int,
    order: Order,
    result: Result<ExecutionReport, OrderBookError>,
)
    requires
        lived(books, events),
        all_on_tick(books, events),
        0 <= i < events.len(),
        events[i] == (Event::Submitted { order, result }),
    ensures
        result is Ok <==> model::refusal(books[i].venue().spec, order) is None,
        laws::none_triggered(books[i].state()),
        laws::none_triggered(books[i + 1].state()),
        result matches Ok(report) ==> {
            &&& report.order_id@ == types::sequence_name(books[i].state().next_seq as nat)
            &&& forall|k: int|
                0 <= k < report.triggered@.len() ==> fired_from(
                    books[i].state(),
                    (#[trigger] report.triggered@[k]).own(),
                )
        },
{
    lemma_history_settled(books, events, i);
    lemma_history_settled(books, events, i + 1);
    assert(turn(books, events, i));
    laws::every_book_is_valid(books[i]);
    laws::every_book_is_valid(books[i + 1]);
    agreement::every_book_holds_what_is_admitted(books[i]);
    lemma_submission_settles(
        books[i].venue(),
        books[i].state(),
        order,
        result,
        books[i + 1].state(),
    );
}

// ---------------------------------------------------------------- streams

/// Whether submitting the order at place `i` takes the book at that place to the
/// next, with the result at that place.
pub open spec fn answers<M: MatchingAlgorithm>(
    venue: Venue<M>,
    orders: Seq<Order>,
    states: Seq<BookState>,
    results: Seq<Result<ExecutionReport, OrderBookError>>,
    i: int,
) -> bool {
    matching::submits(venue, states[i], orders[i], results[i], states[i + 1])
}

/// Whether a new book goes through these states with these results when the
/// orders are submitted one after the other.
pub open spec fn streamed<M: MatchingAlgorithm>(
    venue: Venue<M>,
    orders: Seq<Order>,
    states: Seq<BookState>,
    results: Seq<Result<ExecutionReport, OrderBookError>>,
) -> bool {
    &&& states.len() == orders.len() + 1
    &&& results.len() == orders.len()
    &&& states[0] == BookState::empty()
    &&& laws::valid(venue, states[0])
    &&& forall|i: int|
        0 <= i < orders.len() ==> matching::in_lots(
            venue.matcher.spec_lot_size(),
            #[trigger] orders[i],
        )
    &&& forall|i: int| 0 <= i < states.len() ==> (#[trigger] states[i]).next_arrival <= u32::MAX
    &&& forall|i: int|
        0 <= i < orders.len() ==> #[trigger] answers(venue, orders, states, results, i)
}

/// A stream takes valid books to valid books, with every order on the tick grid
/// where those submitted are.
proof fn lemma_stream_valid<M: MatchingAlgorithm>(
    venue: Venue<M>,
    orders: Seq<Order>,
    states: Seq<BookState>,
    results: Seq<Result<ExecutionReport, OrderBookError>>,
    i: int,
)
    requires
        streamed(venue, orders, states, results),
        0 <= i < states.len(),
    ensures
        laws::valid(venue, states[i]),
        numbered(states[i]),
        (forall|k: int|
            0 <= k < orders.len() ==> laws::types_on_grid(venue.spec, #[trigger] orders[k]))
            ==> agreement::stops_on_tick(venue.spec, states[i]),
        forall|person: (Seq<char>, Seq<char>)| #[trigger]
            people(states[i]).contains(person) ==> exists|k: int|
                0 <= k < i && person.1 == (#[trigger] orders[k]).client_id@,
    decreases i,
{
    if i == 0 {
        lemma_nobody_at_first();
        assert forall|side: Side, p: u64, k: int| !#[trigger]
            orderbook::placed(states[0].stops(side), p, k) by {}
        assert(states[0].stops(Side::Bid) == states[0].stop_bids);
        assert(states[0].stops(Side::Ask) == states[0].stop_asks);
    } else {
        let before = states[i - 1];
        let after = states[i];
        let order = orders[i - 1];
        let on_tick = forall|k: int|
            0 <= k < orders.len() ==> laws::types_on_grid(venue.spec, #[trigger] orders[k]);
        lemma_stream_valid(venue, orders, states, results, i - 1);
        assert(answers(venue, orders, states, results, i - 1));
        assert(states[i].next_arrival <= u32::MAX);
        if model::refusal(venue.spec, order) is None {
            let id = lemma_submission(venue, before, order, results[i - 1], after);
            let named = Order { exchange_id: id, ..order };
            laws::submitting_keeps_a_book_valid(venue, before, order, id);
            lemma_numbered(venue, before, order, id);
            lemma_submitted(venue, before, order, id);
            if on_tick {
                assert(laws::types_on_grid(venue.spec, order));
                lemma_stops_on_tick(venue.spec, before, after, named);
            }
            assert forall|person: (Seq<char>, Seq<char>)| #[trigger]
                people(after).contains(person) implies exists|k: int|
                0 <= k < i && person.1 == (#[trigger] orders[k]).client_id@ by {
                assert(people(before).insert((id@, order.client_id@)).contains(person));
                if people(before).contains(person) {
                    let k = choose|k: int|
                        0 <= k < i - 1 && person.1 == (#[trigger] orders[k]).client_id@;
                    assert(0 <= k < i && person.1 == orders[k].client_id@);
                } else {
                    assert(person.1 == orders[i - 1].client_id@);
                }
            }
        } else {
            assert forall|person: (Seq<char>, Seq<char>)| #[trigger]
                people(after).contains(person) implies exists|k: int|
                0 <= k < i && person.1 == (#[trigger] orders[k]).client_id@ by {
                let k = choose|k: int|
                    0 <= k < i - 1 && person.1 == (#[trigger] orders[k]).client_id@;
                assert(0 <= k < i && person.1 == orders[k].client_id@);
            }
        }
    }
}

/// Stops that waited, and one more on the tick grid.
proof fn lemma_stops_on_tick(
    spec: InstrumentSpec,
    before: BookState,
    after: BookState,
    order: Order,
)
    requires
        agreement::stops_on_tick(spec, before),
        laws::types_on_grid(spec, order),
        stop_set(after).subset_of(stop_set(before).insert(order)),
    ensures
        agreement::stops_on_tick(spec, after),
{
    assert forall|side: Side, t: u64, i: int| #[trigger]
        orderbook::placed(after.stops(side), t, i) implies laws::types_on_grid(
        spec,
        after.stops(side)[t][i],
    ) by {
        let stop = after.stops(side)[t][i];
        assert(stop_set(after).contains(stop));
        assert(stop_set(before).insert(order).contains(stop));
        if stop_set(before).contains(stop) {
            let (s, u, k) = choose|s: Side, u: u64, k: int| #[trigger]
                orderbook::placed(before.stops(s), u, k) && before.stops(s)[u][k] == stop;
            assert(before.stops(s) == before.stop_bids || before.stops(s) == before.stop_asks);
            assert(orderbook::placed(before.stops(s), u, k));
        }
    }
    assert(after.stops(Side::Bid) == after.stop_bids);
    assert(after.stops(Side::Ask) == after.stop_asks);
}

/// Stores are interchangeable: however two new books of the same instrument and
/// policy hold their levels, they answer a stream of orders on the tick grid
/// alike, and they are the same after each.
pub proof fn stores_agree_on_a_stream<M: MatchingAlgorithm>(
    v: Venue<M>,
    w: Venue<M>,
    orders: Seq<Order>,
    a: Seq<BookState>,
    b: Seq<BookState>,
    r: Seq<Result<ExecutionReport, OrderBookError>>,
    s: Seq<Result<ExecutionReport, OrderBookError>>,
    i: int,
)
    requires
        agreement::same_but_for_store(v, w),
        streamed(v, orders, a, r),
        streamed(w, orders, b, s),
        forall|k: int|
            0 <= k < orders.len() ==> laws::types_on_grid(v.spec, #[trigger] orders[k]),
        0 <= i <= orders.len(),
    ensures
        agreement::same_book(a[i], b[i]),
        forall|k: int| 0 <= k < i ==> agreement::same_answer(#[trigger] r[k], s[k]),
    decreases i,
{
    if i > 0 {
        stores_agree_on_a_stream(v, w, orders, a, b, r, s, i - 1);
        lemma_stream_valid(v, orders, a, r, i - 1);
        lemma_stream_valid(w, orders, b, s, i - 1);
        assert(answers(v, orders, a, r, i - 1));
        assert(answers(w, orders, b, s, i - 1));
        assert(laws::types_on_grid(v.spec, orders[i - 1]));
        assert(a[i].next_arrival <= u32::MAX && b[i].next_arrival <= u32::MAX);
        agreement::stores_are_interchangeable(
            v,
            w,
            a[i - 1],
            b[i - 1],
            orders[i - 1],
            r[i - 1],
            s[i - 1],
            a[i],
            b[i],
        );
    }
}

/// Whether no two of the orders are of the same client.
pub open spec fn clients_differ(orders: Seq<Order>) -> bool {
    forall|i: int, j: int|
        0 <= i < j < orders.len() ==> (#[trigger] orders[i]).client_id@ != (
        #[trigger] orders[j]).client_id@
}

/// What a submission traded altogether, with the stops that it fired.
pub open spec fn traded(report: Report, fired: Seq<Report>) -> int {
    laws::volume(report.trades) + sums::sum(
        fired.map_values(|r: Report| laws::volume(r.trades)),
    )
}

/// Whether two submissions came to the same, but for who was filled.
pub open spec fn same_totals(
    a: Result<ExecutionReport, OrderBookError>,
    b: Result<ExecutionReport, OrderBookError>,
) -> bool {
    &&& agreement::same_totals_answered(agreement::answer(a), agreement::answer(b))
    &&& match (a, b) {
        (Ok(r), Ok(s)) => {
            &&& r.order_id@ == s.order_id@
            &&& r.outcome == s.outcome
            &&& r.cancelled@.len() == 0
            &&& s.cancelled@.len() == 0
            &&& r.triggered@.len() == s.triggered@.len()
            &&& traded(r.own(), matching::fired(r.triggered@)) == traded(
                s.own(),
                matching::fired(s.triggered@),
            )
        },
        (Err(e), Err(f)) => e == f,
        _ => false,
    }
}

proof fn lemma_same_totals(
    a: Result<ExecutionReport, OrderBookError>,
    b: Result<ExecutionReport, OrderBookError>,
)
    requires
        agreement::same_totals_answered(agreement::answer(a), agreement::answer(b)),
    ensures
        same_totals(a, b),
{
    if a is Ok && b is Ok {
        let x = matching::fired(a->Ok_0.triggered@);
        let y = matching::fired(b->Ok_0.triggered@);
        assert forall|i: int| 0 <= i < x.len() implies laws::volume((#[trigger] x[i]).trades)
            == laws::volume(y[i].trades) by {
            assert(agreement::same_totals_by_name(x[i], y[i]));
        }
        assert(x.map_values(|r: Report| laws::volume(r.trades)) =~= y.map_values(
            |r: Report| laws::volume(r.trades),
        ));
    }
}

/// An order that is nobody's who is live.
proof fn lemma_newcomer(
    state: BookState,
    orders: Seq<Order>,
    i: int,
    id: ExchangeId,
)
    requires
        clients_differ(orders),
        0 <= i < orders.len(),
        numbered(state),
        id@ == types::sequence_name(state.next_seq as nat),
        forall|person: (Seq<char>, Seq<char>)| #[trigger]
            people(state).contains(person) ==> exists|k: int|
                0 <= k < i && person.1 == (#[trigger] orders[k]).client_id@,
    ensures
        agreement::stranger((Order { exchange_id: id, ..orders[i] }), state),
{
    let order = Order { exchange_id: id, ..orders[i] };
    lemma_next_name_is_new(state);
    assert forall|x: Shelf, p: u64, j: int| #[trigger]
        orderbook::placed(state.on(x), p, j) implies {
        &&& state.on(x)[p][j].exchange_id@ != order.exchange_id@
        &&& state.on(x)[p][j].client_id@ != order.client_id@
    } by {
        let person = who(state.on(x)[p][j]);
        assert(people(state).contains(person));
        lemma_person_live(state, person);
        let k = choose|k: int| 0 <= k < i && person.1 == (#[trigger] orders[k]).client_id@;
        assert(orders[k].client_id@ != orders[i].client_id@);
    }
}

/// Policies decide who is filled, never how much: whatever the policies of two new
/// books of the same instrument, a stream of orders of different clients comes to
/// the same in both. Each order has the same outcome, as much is traded by it and
/// by the stops that it fires, as many of those fire, and nothing is cancelled.
/// After each order both books have the same prices with as much at each, and the
/// same last trade price.
pub proof fn policies_agree_on_a_stream<M: MatchingAlgorithm, N: MatchingAlgorithm>(
    v: Venue<M>,
    w: Venue<N>,
    orders: Seq<Order>,
    a: Seq<BookState>,
    b: Seq<BookState>,
    r: Seq<Result<ExecutionReport, OrderBookError>>,
    s: Seq<Result<ExecutionReport, OrderBookError>>,
    i: int,
)
    requires
        v.spec == w.spec,
        v.span == w.span,
        streamed(v, orders, a, r),
        streamed(w, orders, b, s),
        clients_differ(orders),
        0 <= i <= orders.len(),
    ensures
        agreement::comparable(v, a[i]),
        agreement::comparable(w, b[i]),
        agreement::alike_by_name(a[i], b[i]),
        a[i].last_trade == b[i].last_trade,
        forall|side: Side| #[trigger] a[i].best(side) == b[i].best(side),
        forall|side: Side| #[trigger] a[i].ranked(side) == b[i].ranked(side),
        forall|side: Side, p: u64| #[trigger]
            a[i].resting(side).contains_key(p) ==> types::total_remaining(a[i].resting(side)[p])
                == types::total_remaining(b[i].resting(side)[p]),
        forall|k: int| 0 <= k < i ==> same_totals(#[trigger] r[k], s[k]),
    decreases i,
{
    if i == 0 {
        assert forall|x: Shelf, p: u64, k: int| !#[trigger]
            orderbook::placed(a[0].on(x), p, k) by {}
    } else {
        let order = orders[i - 1];
        policies_agree_on_a_stream(v, w, orders, a, b, r, s, i - 1);
        lemma_stream_valid(v, orders, a, r, i - 1);
        lemma_stream_valid(w, orders, b, s, i - 1);
        assert(answers(v, orders, a, r, i - 1));
        assert(answers(w, orders, b, s, i - 1));
        assert(a[i].next_arrival <= u32::MAX && b[i].next_arrival <= u32::MAX);
        if model::refusal(v.spec, order) is None {
            let id = lemma_submission(v, a[i - 1], order, r[i - 1], a[i]);
            let other = lemma_submission(w, b[i - 1], order, s[i - 1], b[i]);
            lemma_newcomer(a[i - 1], orders, i - 1, id);
            lemma_newcomer(b[i - 1], orders, i - 1, other);
            agreement::policies_agree_on_the_totals(
                v,
                w,
                a[i - 1],
                b[i - 1],
                order,
                id,
                other,
            );
        }
        lemma_same_totals(r[i - 1], s[i - 1]);
    }
    assert forall|side: Side| #[trigger] a[i].resting(side).dom() == b[i].resting(side).dom() by {
        assert(agreement::alike(a[i].resting(side), b[i].resting(side)));
    }
    assert forall|side: Side| #[trigger] a[i].best(side) == b[i].best(side) by {
        assert(a[i].resting(side).dom() == b[i].resting(side).dom());
    }
    assert forall|side: Side| #[trigger] a[i].ranked(side) == b[i].ranked(side) by {
        assert(a[i].resting(side).dom() == b[i].resting(side).dom());
    }
    assert forall|side: Side, p: u64| #[trigger]
        a[i].resting(side).contains_key(p) implies types::total_remaining(a[i].resting(side)[p])
        == types::total_remaining(b[i].resting(side)[p]) by {
        assert(agreement::alike(a[i].resting(side), b[i].resting(side)));
    }
}

} // verus!
