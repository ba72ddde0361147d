//! What a book does depends on the names of orders and not on the identifiers
//! that spell them: books whose orders go by the same names answer alike.

use crate::allocation;
use crate::allocation::Fill;
use crate::allocation::MatchingAlgorithm;
use crate::laws;
use crate::matching;
use crate::matching::Trade;
use crate::model;
use crate::model::BookState;
use crate::model::Report;
use crate::model::Shelf;
use crate::model::Step;
use crate::model::Sweep;
use crate::model::Venue;
use crate::order_queue;
use crate::orderbook;
use crate::orderbook::OrderBookError;
use crate::storage;
use crate::sums;
use crate::types;
use crate::types::ExchangeId;
use crate::types::Order;
use crate::types::OrderType;
use crate::types::Price;
use crate::types::Side;
use crate::types::TimeInForce;
use vstd::prelude::*;

verus! {

// ---------------------------------------------------------------- going by name

/// One identifier for all that spell the same name.
pub open spec fn known_as(name: Seq<char>) -> ExchangeId {
    choose|id: ExchangeId| id@ == name
}

/// An order under the identifier that stands for its name.
pub open spec fn by_name(order: Order) -> Order {
    Order { exchange_id: known_as(order.exchange_id@), ..order }
}

/// A queue of orders by name.
pub open spec fn queue_by_name(queue: Seq<Order>) -> Seq<Order> {
    queue.map_values(|order: Order| by_name(order))
}

/// A part of a book by name.
pub open spec fn shelf_by_name(queues: Map<u64, Seq<Order>>) -> Map<u64, Seq<Order>> {
    queues.map_values(|queue: Seq<Order>| queue_by_name(queue))
}

/// A book with one identifier for each name. Two books in which the same orders
/// go by the same names are the same by name.
pub open spec fn book_by_name(state: BookState) -> BookState {
    BookState {
        bids: shelf_by_name(state.bids),
        asks: shelf_by_name(state.asks),
        stop_bids: shelf_by_name(state.stop_bids),
        stop_asks: shelf_by_name(state.stop_asks),
        ..state
    }
}

/// A trade by name.
pub open spec fn trade_by_name(trade: Trade) -> Trade {
    Trade {
        maker_order_id: known_as(trade.maker_order_id@),
        taker_order_id: known_as(trade.taker_order_id@),
        ..trade
    }
}

/// Trades by name.
pub open spec fn trades_by_name(trades: Seq<Trade>) -> Seq<Trade> {
    trades.map_values(|trade: Trade| trade_by_name(trade))
}

/// The identifiers that stand for these names.
pub open spec fn ids_by_name(ids: Seq<ExchangeId>) -> Seq<ExchangeId> {
    ids.map_values(|id: ExchangeId| known_as(id@))
}

/// What one execution reports, by name.
pub open spec fn report_by_name(report: Report) -> Report {
    Report {
        order_id: known_as(report.order_id@),
        trades: trades_by_name(report.trades),
        outcome: report.outcome,
        cancelled: ids_by_name(report.cancelled),
    }
}

/// What several executions report, by name.
pub open spec fn reports_by_name(reports: Seq<Report>) -> Seq<Report> {
    reports.map_values(|report: Report| report_by_name(report))
}

/// What an execution comes to, by name.
pub open spec fn execution_by_name(step: Step<Report>) -> Step<Report> {
    Step {
        result: match step.result {
            Ok(report) => Ok(report_by_name(report)),
            Err(error) => Err(error),
        },
        state: book_by_name(step.state),
    }
}

/// What a cascade comes to, by name.
pub open spec fn cascade_by_name(step: Step<Seq<Report>>) -> Step<Seq<Report>> {
    Step {
        result: match step.result {
            Ok(reports) => Ok(reports_by_name(reports)),
            Err(error) => Err(error),
        },
        state: book_by_name(step.state),
    }
}

/// What a submission is answered, by name.
pub open spec fn answer_by_name(
    answer: Result<(Report, Seq<Report>), OrderBookError>,
) -> Result<(Report, Seq<Report>), OrderBookError> {
    match answer {
        Ok(reports) => Ok((report_by_name(reports.0), reports_by_name(reports.1))),
        Err(error) => Err(error),
    }
}

/// What a submission comes to, by name.
pub open spec fn submission_by_name(
    step: Step<(Report, Seq<Report>)>,
) -> Step<(Report, Seq<Report>)> {
    Step { result: answer_by_name(step.result), state: book_by_name(step.state) }
}

spec fn sweep_by_name(swept: Sweep) -> Sweep {
    Sweep {
        levels: shelf_by_name(swept.levels),
        remaining: swept.remaining,
        trades: trades_by_name(swept.trades),
        cancelled: queue_by_name(swept.cancelled),
    }
}

/// The identifier that stands for a name spells it.
pub proof fn lemma_known_as(id: ExchangeId)
    ensures
        known_as(id@)@ == id@,
        known_as(known_as(id@)@) == known_as(id@),
{
}

// ---------------------------------------------------------------- queues

proof fn lemma_queue(queue: Seq<Order>)
    ensures
        queue_by_name(queue).len() == queue.len(),
        forall|i: int|
            0 <= i < queue.len() ==> #[trigger] queue_by_name(queue)[i] == by_name(queue[i]),
        queue.len() > 0 ==> queue_by_name(queue.drop_last()) == queue_by_name(queue).drop_last(),
        queue.len() > 0 ==> queue_by_name(queue).last() == by_name(queue.last()),
{
    if queue.len() > 0 {
        assert(queue_by_name(queue.drop_last()) =~= queue_by_name(queue).drop_last());
    }
}

proof fn lemma_queue_push(queue: Seq<Order>, order: Order)
    ensures
        queue_by_name(queue.push(order)) == queue_by_name(queue).push(by_name(order)),
{
    assert(queue_by_name(queue.push(order)) =~= queue_by_name(queue).push(by_name(order)));
}

proof fn lemma_parted(queue: Seq<Order>, client: Seq<char>)
    ensures
        order_queue::owned(queue_by_name(queue), client) == queue_by_name(
            order_queue::owned(queue, client),
        ),
        order_queue::not_owned(queue_by_name(queue), client) == queue_by_name(
            order_queue::not_owned(queue, client),
        ),
    decreases queue.len(),
{
    lemma_queue(queue);
    if queue.len() > 0 {
        let rest = queue.drop_last();
        lemma_parted(rest, client);
        lemma_queue_push(order_queue::owned(rest, client), queue.last());
        lemma_queue_push(order_queue::not_owned(rest, client), queue.last());
    } else {
        assert(queue_by_name(queue) =~= Seq::empty());
    }
}

/// As much is left of the orders, and a policy sees the same makers.
pub proof fn lemma_queue_holds_as_much(queue: Seq<Order>)
    ensures
        types::as_makers(queue_by_name(queue)) == types::as_makers(queue),
        types::total_remaining(queue_by_name(queue)) == types::total_remaining(queue),
{
    assert(types::as_makers(queue_by_name(queue)) =~= types::as_makers(queue));
    assert(types::remainders(queue_by_name(queue)) =~= types::remainders(queue));
}

proof fn lemma_left(queue: Seq<Order>, fills: Seq<Fill>, reach: int)
    ensures
        model::after_fills(queue_by_name(queue), fills, reach) == queue_by_name(
            model::after_fills(queue, fills, reach),
        ),
    decreases queue.len(),
{
    lemma_queue(queue);
    if queue.len() > 0 {
        let rest = queue.drop_last();
        let got = allocation::allotted(fills, queue.len() - 1);
        lemma_left(rest, fills, reach);
        lemma_queue_push(model::after_fills(rest, fills, reach), model::reduced(queue.last(), got));
        assert(model::reduced(by_name(queue.last()), got) == by_name(
            model::reduced(queue.last(), got),
        ));
    } else {
        assert(queue_by_name(queue) =~= Seq::empty());
    }
}

proof fn lemma_trades(taker: Order, queue: Seq<Order>, price: Price, fills: Seq<Fill>)
    requires
        forall|i: int| 0 <= i < fills.len() ==> (#[trigger] fills[i]).order_index < queue.len(),
    ensures
        model::trades_of(by_name(taker), queue_by_name(queue), price, fills) == trades_by_name(
            model::trades_of(taker, queue, price, fills),
        ),
{
    let x = model::trades_of(by_name(taker), queue_by_name(queue), price, fills);
    let y = trades_by_name(model::trades_of(taker, queue, price, fills));
    assert forall|i: int| 0 <= i < fills.len() implies #[trigger] x[i] == y[i] by {
        assert(fills[i].order_index < queue.len());
        let maker = queue[fills[i].order_index as int];
        assert(queue_by_name(queue)[fills[i].order_index as int] == by_name(maker));
    }
    assert(x =~= y);
}

// ---------------------------------------------------------------- levels

/// A part of a book has the same prices by name, with the same queues by name.
pub(crate) proof fn lemma_shelf(queues: Map<u64, Seq<Order>>)
    ensures
        shelf_by_name(queues).dom() == queues.dom(),
        forall|p: u64| #[trigger]
            queues.contains_key(p) ==> shelf_by_name(queues)[p] == queue_by_name(queues[p]),
{
    assert(shelf_by_name(queues).dom() =~= queues.dom());
}

proof fn lemma_shelf_remove(queues: Map<u64, Seq<Order>>, p: u64)
    ensures
        shelf_by_name(queues.remove(p)) == shelf_by_name(queues).remove(p),
{
    assert(shelf_by_name(queues.remove(p)) =~= shelf_by_name(queues).remove(p));
}

proof fn lemma_shelf_insert(queues: Map<u64, Seq<Order>>, p: u64, queue: Seq<Order>)
    ensures
        shelf_by_name(queues.insert(p, queue)) == shelf_by_name(queues).insert(
            p,
            queue_by_name(queue),
        ),
{
    assert(shelf_by_name(queues.insert(p, queue)) =~= shelf_by_name(queues).insert(
        p,
        queue_by_name(queue),
    ));
}

proof fn lemma_enqueued(queues: Map<u64, Seq<Order>>, p: u64, order: Order)
    ensures
        model::enqueued(shelf_by_name(queues), p, by_name(order)) == shelf_by_name(
            model::enqueued(queues, p, order),
        ),
{
    lemma_shelf(queues);
    assert(shelf_by_name(queues).contains_key(p) <==> queues.contains_key(p)) by {
        assert(shelf_by_name(queues).dom().contains(p) <==> queues.dom().contains(p));
    }
    if queues.contains_key(p) {
        lemma_queue_push(queues[p], order);
        lemma_shelf_insert(queues, p, queues[p].push(order));
    } else {
        assert(queue_by_name(seq![order]) =~= seq![by_name(order)]);
        lemma_shelf_insert(queues, p, seq![order]);
    }
}

proof fn lemma_dequeued(queues: Map<u64, Seq<Order>>, p: u64, i: int)
    requires
        queues.contains_key(p),
        0 <= i < queues[p].len(),
    ensures
        model::dequeued(shelf_by_name(queues), p, i) == shelf_by_name(
            model::dequeued(queues, p, i),
        ),
{
    lemma_shelf(queues);
    lemma_queue(queues[p]);
    if queues[p].len() == 1 {
        lemma_shelf_remove(queues, p);
    } else {
        assert(queue_by_name(queues[p].remove(i)) =~= queue_by_name(queues[p]).remove(i));
        lemma_shelf_insert(queues, p, queues[p].remove(i));
    }
}

proof fn lemma_sweep<M: MatchingAlgorithm>(
    matcher: M,
    levels: Map<u64, Seq<Order>>,
    taker: Order,
    limit: Option<Price>,
    remaining: int,
    now: int,
)
    requires
        matcher.wf(),
        laws::levels_ok(matcher.spec_lot_size(), levels),
        laws::amount_ok(matcher.spec_lot_size(), remaining),
    ensures
        model::sweep(matcher, shelf_by_name(levels), by_name(taker), limit, remaining, now)
            == sweep_by_name(model::sweep(matcher, levels, taker, limit, remaining, now)),
    decreases levels.dom().len(),
{
    let lot = matcher.spec_lot_size();
    let named = shelf_by_name(levels);
    let x = model::sweep(matcher, named, by_name(taker), limit, remaining, now);
    let swept = model::sweep(matcher, levels, taker, limit, remaining, now);
    let y = sweep_by_name(swept);
    lemma_shelf(levels);
    let found = storage::best(levels.dom(), model::opposite(taker.side));
    if remaining <= 0 || found is None || !levels.contains_key(found->0) || !model::acceptable(
        taker.side,
        limit,
        found->0,
    ) {
        assert(x.trades =~= y.trades);
        assert(x.cancelled =~= y.cancelled);
    } else {
        let p = found->0;
        let queue = levels[p];
        let price = model::price_of(p);
        assert(named.dom().contains(p) && named.contains_key(p));
        laws::lemma_met(matcher, queue, taker, price, remaining, now);
        let (others, fills) = laws::met(matcher, queue, taker, remaining, now);
        let own = order_queue::owned(queue, taker.client_id@);
        let rest = remaining - sums::sum(allocation::taken(fills));
        let left = model::level_left(others, fills, rest);
        let trades = model::trades_of(taker, others, price, fills);
        lemma_parted(queue, taker.client_id@);
        lemma_queue_holds_as_much(others);
        lemma_queue(others);
        lemma_left(others, fills, model::passed(others, fills, rest));
        lemma_queue(left);
        assert forall|i: int| 0 <= i < fills.len() implies (#[trigger] fills[i]).order_index
            < others.len() by {}
        lemma_trades(taker, others, price, fills);
        if left.len() == 0 {
            let fewer = levels.remove(p);
            assert(fewer.dom() =~= levels.dom().remove(p));
            assert forall|q: u64| #[trigger] fewer.contains_key(q) implies laws::queue_ok(
                lot,
                fewer[q],
            ) by {
                assert(levels.contains_key(q));
            }
            lemma_shelf_remove(levels, p);
            lemma_sweep(matcher, fewer, taker, limit, rest, now);
            let next = model::sweep(matcher, fewer, taker, limit, rest, now);
            assert(trades_by_name(trades + next.trades) =~= trades_by_name(trades)
                + trades_by_name(next.trades));
            assert(queue_by_name(own + next.cancelled) =~= queue_by_name(own) + queue_by_name(
                next.cancelled,
            ));
        } else {
            lemma_shelf_insert(levels, p, left);
        }
    }
}

proof fn lemma_reachable(levels: Map<u64, Seq<Order>>, taker: Order, limit: Option<Price>)
    requires
        levels.dom().finite(),
    ensures
        model::reachable(shelf_by_name(levels), by_name(taker), limit) == model::reachable(
            levels,
            taker,
            limit,
        ),
    decreases levels.dom().len(),
{
    lemma_shelf(levels);
    let found = storage::best(levels.dom(), model::opposite(taker.side));
    if !(found is None || !levels.contains_key(found->0) || !model::acceptable(
        taker.side,
        limit,
        found->0,
    )) {
        let p = found->0;
        assert(shelf_by_name(levels).dom().contains(p) && shelf_by_name(levels).contains_key(p));
        lemma_parted(levels[p], taker.client_id@);
        lemma_queue_holds_as_much(order_queue::not_owned(levels[p], taker.client_id@));
        lemma_shelf_remove(levels, p);
        assert(levels.remove(p).dom() =~= levels.dom().remove(p));
        lemma_reachable(levels.remove(p), taker, limit);
    }
}

// ---------------------------------------------------------------- books

/// A book by name has the same parts, by name.
pub(crate) proof fn lemma_book(state: BookState)
    ensures
        forall|side: Side| #[trigger]
            book_by_name(state).resting(side) == shelf_by_name(state.resting(side)),
        forall|side: Side| #[trigger]
            book_by_name(state).stops(side) == shelf_by_name(state.stops(side)),
        forall|shelf: Shelf| #[trigger]
            book_by_name(state).on(shelf) == shelf_by_name(state.on(shelf)),
        forall|side: Side, levels: Map<u64, Seq<Order>>| #[trigger]
            book_by_name(state.with_resting(side, levels)) == book_by_name(state).with_resting(
                side,
                shelf_by_name(levels),
            ),
        forall|side: Side, stops: Map<u64, Seq<Order>>| #[trigger]
            book_by_name(state.with_stops(side, stops)) == book_by_name(state).with_stops(
                side,
                shelf_by_name(stops),
            ),
{
}

/// The same orders are in the same places.
pub(crate) proof fn lemma_placed(queues: Map<u64, Seq<Order>>, p: u64, i: int)
    ensures
        orderbook::placed(shelf_by_name(queues), p, i) == orderbook::placed(queues, p, i),
        orderbook::placed(queues, p, i) ==> shelf_by_name(queues)[p][i] == by_name(queues[p][i]),
        shelf_by_name(queues).contains_key(p) == queues.contains_key(p),
        queues.contains_key(p) ==> shelf_by_name(queues)[p].len() == queues[p].len(),
{
    lemma_shelf(queues);
    assert(shelf_by_name(queues).dom().contains(p) == queues.dom().contains(p));
    if queues.contains_key(p) {
        lemma_queue(queues[p]);
    }
}

/// The same names are live.
proof fn lemma_has_id(state: BookState, name: Seq<char>)
    ensures
        book_by_name(state).has_id(name) == state.has_id(name),
{
    let named = book_by_name(state);
    lemma_book(state);
    if state.has_id(name) {
        let x = choose|x: Shelf| model::queues_have(#[trigger] state.on(x), name);
        let (p, i) = choose|p: u64, i: int| #[trigger] model::queued_at(state.on(x), name, p, i);
        lemma_placed(state.on(x), p, i);
        lemma_known_as(state.on(x)[p][i].exchange_id);
        assert(model::queued_at(named.on(x), name, p, i));
        assert(model::queues_have(named.on(x), name));
    }
    if named.has_id(name) {
        let x = choose|x: Shelf| model::queues_have(#[trigger] named.on(x), name);
        let (p, i) = choose|p: u64, i: int| #[trigger] model::queued_at(named.on(x), name, p, i);
        lemma_placed(state.on(x), p, i);
        lemma_known_as(state.on(x)[p][i].exchange_id);
        assert(model::queued_at(state.on(x), name, p, i));
        assert(model::queues_have(state.on(x), name));
    }
}

proof fn lemma_rest<M: MatchingAlgorithm>(venue: Venue<M>, state: BookState, order: Order)
    ensures
        model::rest_error(venue, book_by_name(state), by_name(order)) == model::rest_error(
            venue,
            state,
            order,
        ),
        model::rested(book_by_name(state), by_name(order)) == book_by_name(
            model::rested(state, order),
        ),
{
    lemma_known_as(order.exchange_id);
    lemma_has_id(state, order.exchange_id@);
    lemma_book(state);
    let stamped = Order { arrival: state.next_arrival as u32, ..order };
    let p = order.order_type.limit_price()->0.minor();
    lemma_enqueued(state.resting(order.side), p, stamped);
    assert(by_name(stamped) == (Order { arrival: state.next_arrival as u32, ..by_name(order) }));
}

proof fn lemma_noted(state: BookState, trades: Seq<Trade>)
    ensures
        model::noted(book_by_name(state), trades_by_name(trades)) == book_by_name(
            model::noted(state, trades),
        ),
{
}

proof fn lemma_report(order: Order, swept: Sweep, outcome: matching::SubmitOutcome)
    ensures
        model::report_of(by_name(order), sweep_by_name(swept), outcome) == report_by_name(
            model::report_of(order, swept, outcome),
        ),
{
    assert(model::names(queue_by_name(swept.cancelled)) =~= ids_by_name(
        model::names(swept.cancelled),
    ));
}

/// The sweep of an execution, and the book after it.
proof fn lemma_swept<M: MatchingAlgorithm>(
    venue: Venue<M>,
    state: BookState,
    order: Order,
    limit: Option<Price>,
)
    requires
        laws::valid(venue, state),
        matching::in_lots(venue.matcher.spec_lot_size(), order),
    ensures
        ({
            let swept = model::sweep_for(venue, state, order, limit);
            &&& model::sweep_for(venue, book_by_name(state), by_name(order), limit)
                == sweep_by_name(swept)
            &&& model::swept_state(book_by_name(state), by_name(order), sweep_by_name(swept))
                == book_by_name(model::swept_state(state, order, swept))
        }),
{
    let side = model::opposite(order.side);
    let lot = venue.matcher.spec_lot_size();
    assert(laws::side_valid(lot, state, side));
    lemma_book(state);
    lemma_sweep(
        venue.matcher,
        state.resting(side),
        order,
        limit,
        order.remaining_quantity.base() as int,
        state.next_arrival,
    );
}

/// An execution depends on names alone.
proof fn lemma_execution<M: MatchingAlgorithm>(venue: Venue<M>, state: BookState, order: Order)
    requires
        laws::valid(venue, state),
        matching::in_lots(venue.matcher.spec_lot_size(), order),
    ensures
        model::plain_step(venue, book_by_name(state), by_name(order)) == execution_by_name(
            model::plain_step(venue, state, order),
        ),
{
    let limit = laws::limit_of(order);
    let named = book_by_name(state);
    let swept = model::sweep_for(venue, state, order, limit);
    let after = model::swept_state(state, order, swept);
    let side = model::opposite(order.side);
    assert(laws::side_valid(venue.matcher.spec_lot_size(), state, side));
    lemma_swept(venue, state, order, limit);
    lemma_book(state);
    lemma_noted(after, swept.trades);
    lemma_report(order, swept, matching::SubmitOutcome::Filled);
    lemma_report(order, swept, matching::SubmitOutcome::Killed);
    match order.order_type {
        OrderType::Limit { price, tif } => {
            if tif == TimeInForce::FOK {
                lemma_reachable(state.resting(side), order, limit);
                assert(trades_by_name(Seq::empty()) =~= Seq::empty());
                assert(ids_by_name(Seq::empty()) =~= Seq::empty());
            } else {
                let remainder = Order {
                    remaining_quantity: allocation::qty_of(swept.remaining),
                    ..order
                };
                lemma_rest(venue, after, remainder);
                lemma_noted(model::rested(after, remainder), swept.trades);
                lemma_report(order, swept, matching::SubmitOutcome::Rested);
                lemma_report(order, swept, matching::SubmitOutcome::PartiallyFilledAndRested);
                assert(by_name(remainder) == (Order {
                    remaining_quantity: allocation::qty_of(swept.remaining),
                    ..by_name(order)
                }));
            }
        },
        _ => {},
    }
}

proof fn lemma_parked(state: BookState, order: Order, trigger: Price)
    ensures
        model::parked_step(book_by_name(state), by_name(order), trigger) == execution_by_name(
            model::parked_step(state, order, trigger),
        ),
{
    lemma_known_as(order.exchange_id);
    lemma_has_id(state, order.exchange_id@);
    lemma_book(state);
    lemma_enqueued(state.stops(order.side), trigger.minor(), order);
    assert(trades_by_name(Seq::empty()) =~= Seq::empty());
    assert(ids_by_name(Seq::empty()) =~= Seq::empty());
}

proof fn lemma_handled<M: MatchingAlgorithm>(venue: Venue<M>, state: BookState, order: Order)
    requires
        laws::valid(venue, state),
        matching::in_lots(venue.matcher.spec_lot_size(), order),
    ensures
        model::step(venue, book_by_name(state), by_name(order)) == execution_by_name(
            model::step(venue, state, order),
        ),
{
    laws::lemma_step_cases(venue, state, order);
    laws::lemma_step_cases(venue, book_by_name(state), by_name(order));
    assert(model::activated(by_name(order)) == by_name(model::activated(order)));
    if laws::executes_now(state, order) {
        lemma_execution(venue, state, model::activated(order));
    } else {
        lemma_parked(state, order, order.order_type.trigger()->0);
    }
}

/// The same stop fires next.
proof fn lemma_next<M: MatchingAlgorithm>(venue: Venue<M>, state: BookState)
    requires
        laws::valid(venue, state),
    ensures
        model::next_trigger(book_by_name(state)) == model::next_trigger(state),
        model::next_trigger(state) is Some ==> {
            &&& model::next_stop(book_by_name(state)) == by_name(model::next_stop(state))
            &&& model::without_next_stop(book_by_name(state)) == book_by_name(
                model::without_next_stop(state),
            )
        },
{
    lemma_shelf(state.stop_bids);
    lemma_shelf(state.stop_asks);
    lemma_book(state);
    if model::next_trigger(state) is Some {
        let (side, trigger) = model::next_trigger(state)->0;
        laws::lemma_next_stop_valid(venue, state);
        lemma_placed(state.stops(side), trigger, 0);
        lemma_dequeued(state.stops(side), trigger, 0);
    }
}

proof fn lemma_cascade<M: MatchingAlgorithm>(venue: Venue<M>, state: BookState)
    requires
        laws::valid(venue, state),
        model::cascade(venue, state).state.next_arrival <= u32::MAX,
    ensures
        model::cascade(venue, book_by_name(state)) == cascade_by_name(
            model::cascade(venue, state),
        ),
    decreases model::waiting(state),
{
    let named = book_by_name(state);
    laws::lemma_valid_stops_sound(venue, state);
    lemma_valid_by_name(venue, state);
    laws::lemma_valid_stops_sound(venue, named);
    lemma_next(venue, state);
    let x = model::cascade(venue, named);
    let y = model::cascade(venue, state);
    if model::next_trigger(state) is Some {
        let before = model::without_next_stop(state);
        let stop = model::activated(model::next_stop(state));
        laws::lemma_next_stop_valid(venue, state);
        assert(by_name(stop) == model::activated(by_name(model::next_stop(state))));
        let fired = model::plain_step(venue, before, stop);
        model::lemma_next_stop_taken(state);
        model::lemma_plain_step_keeps_stops(venue, before, stop);
        if fired.result is Ok {
            matching::lemma_cascade_arrivals(venue, fired.state);
        }
        lemma_execution(venue, before, stop);
        laws::executing_keeps_a_book_valid(venue, before, stop);
        if fired.result is Ok {
            lemma_cascade(venue, fired.state);
            let rest = model::cascade(venue, fired.state);
            if rest.result is Ok {
                let report = fired.result->Ok_0;
                let reports = rest.result->Ok_0;
                assert(reports_by_name(seq![report] + reports) =~= seq![report_by_name(report)]
                    + reports_by_name(reports));
            }
        }
    } else {
        assert(reports_by_name(Seq::empty()) =~= Seq::empty());
    }
}

/// A book is valid if it is by name.
pub proof fn lemma_valid_by_name<M: MatchingAlgorithm>(venue: Venue<M>, state: BookState)
    ensures
        laws::valid(venue, book_by_name(state)) == laws::valid(venue, state),
{
    let named = book_by_name(state);
    let lot = venue.matcher.spec_lot_size();
    lemma_book(state);
    assert forall|side: Side| #[trigger]
        laws::side_valid(lot, named, side) == laws::side_valid(lot, state, side) by {
        lemma_levels_valid_by_name(lot, state.resting(side), side, state.next_arrival);
        lemma_stops_valid_by_name(lot, state.stops(side), side);
    }
    if laws::valid(venue, state) {
        assert forall|side: Side| #[trigger] laws::side_valid(lot, named, side) by {
            assert(laws::side_valid(lot, state, side));
        }
    }
    if laws::valid(venue, named) {
        assert forall|side: Side| #[trigger] laws::side_valid(lot, state, side) by {
            assert(laws::side_valid(lot, named, side));
        }
    }
}

/// What is known of a queue, place by place, and of its length is known by name.
proof fn lemma_queue_ok_by_name(lot: Option<u64>, queue: Seq<Order>, next: int)
    ensures
        laws::queue_ok(lot, queue_by_name(queue)) == laws::queue_ok(lot, queue),
        model::queue_in_line(queue_by_name(queue), next) == model::queue_in_line(queue, next),
{
    let named = queue_by_name(queue);
    lemma_queue(queue);
    assert forall|i: int| 0 <= i < queue.len() implies #[trigger] named[i] == by_name(
        queue[i],
    ) by {}
    if laws::queue_ok(lot, named) {
        assert forall|i: int| 0 <= i < queue.len() implies matching::in_lots(
            lot,
            #[trigger] queue[i],
        ) by {
            assert(matching::in_lots(lot, named[i]));
        }
    }
    if model::queue_in_line(named, next) {
        assert forall|i: int, j: int| 0 <= i < j < queue.len() implies (
        #[trigger] queue[i]).arrival < (#[trigger] queue[j]).arrival by {
            assert(named[i].arrival < named[j].arrival);
        }
        assert forall|i: int| 0 <= i < queue.len() implies (#[trigger] queue[i]).arrival
            < next by {
            assert(named[i].arrival < next);
        }
    }
}

proof fn lemma_levels_valid_by_name(
    lot: Option<u64>,
    levels: Map<u64, Seq<Order>>,
    side: Side,
    next: int,
)
    ensures
        laws::levels_ok(lot, shelf_by_name(levels)) == laws::levels_ok(lot, levels),
        laws::side_sound(shelf_by_name(levels), side, next) == laws::side_sound(
            levels,
            side,
            next,
        ),
{
    let named = shelf_by_name(levels);
    lemma_shelf(levels);
    assert forall|p: u64| #[trigger] levels.contains_key(p) implies named.contains_key(p)
        && named[p].len() == levels[p].len() && laws::queue_ok(lot, named[p]) == laws::queue_ok(
        lot,
        levels[p],
    ) && model::queue_in_line(named[p], next) == model::queue_in_line(levels[p], next) by {
        lemma_placed(levels, p, 0);
        lemma_queue_ok_by_name(lot, levels[p], next);
    }
    assert forall|p: u64| #[trigger] named.contains_key(p) implies levels.contains_key(p) by {
        lemma_placed(levels, p, 0);
    }
    assert forall|p: u64, i: int| #[trigger] orderbook::placed(levels, p, i) implies {
        &&& orderbook::placed(named, p, i)
        &&& storage::at_home(named[p][i], side, p) == storage::at_home(levels[p][i], side, p)
    } by {
        lemma_placed(levels, p, i);
    }
    assert forall|p: u64, i: int| #[trigger]
        orderbook::placed(named, p, i) implies orderbook::placed(levels, p, i) by {
        lemma_placed(levels, p, i);
    }
}

proof fn lemma_stops_valid_by_name(lot: Option<u64>, stops: Map<u64, Seq<Order>>, side: Side)
    ensures
        laws::stops_valid(lot, shelf_by_name(stops), side) == laws::stops_valid(lot, stops, side),
{
    let named = shelf_by_name(stops);
    lemma_shelf(stops);
    assert forall|t: u64| #[trigger] stops.contains_key(t) implies named.contains_key(t)
        && named[t].len() == stops[t].len() by {
        lemma_placed(stops, t, 0);
    }
    assert forall|t: u64| #[trigger] named.contains_key(t) implies stops.contains_key(t) by {
        lemma_placed(stops, t, 0);
    }
    assert forall|t: u64, i: int| #[trigger] orderbook::placed(stops, t, i) implies {
        &&& orderbook::placed(named, t, i)
        &&& named[t][i] == by_name(stops[t][i])
    } by {
        lemma_placed(stops, t, i);
    }
    assert forall|t: u64, i: int| #[trigger]
        orderbook::placed(named, t, i) implies orderbook::placed(stops, t, i) by {
        lemma_placed(stops, t, i);
    }
}

/// A submission depends on names alone: what it comes to by name is what it would
/// come to in the book by name.
pub proof fn submitting_depends_on_names_alone<M: MatchingAlgorithm>(
    venue: Venue<M>,
    state: BookState,
    order: Order,
    id: ExchangeId,
)
    requires
        laws::valid(venue, state),
        matching::in_lots(venue.matcher.spec_lot_size(), order),
        model::submitted(venue, state, order, id).state.next_arrival <= u32::MAX,
    ensures
        model::submitted(venue, book_by_name(state), order, known_as(id@)) == submission_by_name(
            model::submitted(venue, state, order, id),
        ),
{
    let counted = BookState { next_seq: state.next_seq + 1, ..state };
    let named = Order { exchange_id: id, ..order };
    let first = model::step(venue, counted, named);
    laws::lemma_counted_valid(venue, state, state.next_seq + 1);
    laws::lemma_valid_stops_sound(venue, counted);
    model::lemma_step_keeps_stops_sound(venue, counted, named);
    if first.result is Ok {
        matching::lemma_cascade_arrivals(venue, first.state);
    }
    lemma_handled(venue, counted, named);
    assert(by_name(named) == (Order { exchange_id: known_as(id@), ..order }));
    assert(book_by_name(counted) == (BookState {
        next_seq: state.next_seq + 1,
        ..book_by_name(state)
    }));
    laws::lemma_step_valid(venue, counted, named);
    if first.result is Ok {
        lemma_cascade(venue, first.state);
    }
}

} // verus!
