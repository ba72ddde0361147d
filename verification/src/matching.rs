//! Matching: what becomes of an order that is submitted to the book.

use crate::allocation;
use crate::allocation::Fill;
use crate::allocation::Maker;
use crate::allocation::MatchingAlgorithm;
use crate::conduct;
use crate::instrument::Qty;
use crate::model;
use crate::model::BookState;
use crate::model::Report;
use crate::model::Step;
use crate::model::Sweep;
use crate::model::Venue;
use crate::order_queue;
use crate::order_index::OrderAddress;
use crate::order_index::OrderIndex;
use crate::order_queue::LevelQueue;
use crate::order_queue::Node;
use crate::order_queue::OrderArena;
use crate::order_queue::OrderKey;
use crate::orderbook;
use crate::orderbook::OrderBook;
use crate::orderbook::OrderBookError;
use crate::orderbook::PriceLevelView;
use crate::stops;
use crate::storage;
use crate::storage::BookLevel;
use crate::storage::OrderBookStore;
use crate::sums;
use crate::types;
use crate::types::ClientId;
use crate::types::ExchangeId;
use crate::types::Order;
use crate::types::OrderType;
use crate::types::Price;
use crate::types::Side;
use crate::types::TimeInForce;
use vstd::prelude::*;

verus! {

/// One executed fill between a resting maker and an incoming taker. It prints at
/// the maker's price.
#[derive(Debug, PartialEq)]
pub struct Trade {
    pub price: Price,
    pub quantity: Qty,
    pub maker_order_id: ExchangeId,
    pub taker_order_id: ExchangeId,
    pub maker_client: ClientId,
    pub taker_client: ClientId,
    pub taker_side: Side,
    pub timestamp: u128,
}

impl Clone for Trade {
    fn clone(&self) -> (r: Self)
        ensures
            r == *self,
    {
        Trade {
            price: self.price,
            quantity: self.quantity,
            maker_order_id: self.maker_order_id.clone(),
            taker_order_id: self.taker_order_id.clone(),
            maker_client: self.maker_client.clone(),
            taker_client: self.taker_client.clone(),
            taker_side: self.taker_side,
            timestamp: self.timestamp,
        }
    }
}

/// What became of a submitted order.
#[derive(Debug, Clone, Copy, PartialEq, Eq, Structural)]
pub enum SubmitOutcome {
    /// The whole order rests in the book.
    Rested,
    /// A part was filled and the remainder rests.
    PartiallyFilledAndRested,
    /// Nothing is left to rest.
    Filled,
    /// The unfilled remainder was discarded, or a fill-or-kill order could not
    /// be filled and executed nothing.
    Killed,
    /// A stop waits for its trigger.
    StopPending,
}

/// What submitting one order did.
#[derive(Debug, PartialEq)]
pub struct ExecutionReport {
    pub order_id: ExchangeId,
    pub trades: Vec<Trade>,
    pub outcome: SubmitOutcome,
    /// Resting orders of the taker's own client that were cancelled rather than
    /// traded against.
    pub cancelled: Vec<ExchangeId>,
    /// The reports of the stops that the trades set off, in the order in which
    /// they fired. The list is flat: none of these reports has any of its own.
    pub triggered: Vec<ExecutionReport>,
}

/// A copy of a list of trades.
fn copy_trades(trades: &Vec<Trade>) -> (r: Vec<Trade>)
    ensures
        r@ == trades@,
{
    let mut copy: Vec<Trade> = Vec::new();
    let mut i: usize = 0;
    while i < trades.len()
        invariant
            i <= trades@.len(),
            copy@ == trades@.take(i as int),
        decreases trades@.len() - i,
    {
        copy.push(trades[i].clone());
        proof {
            assert(copy@ =~= trades@.take(i + 1));
        }
        i = i + 1;
    }
    proof {
        assert(trades@.take(i as int) =~= trades@);
    }
    copy
}

/// A copy of a list of names.
fn copy_ids(ids: &Vec<ExchangeId>) -> (r: Vec<ExchangeId>)
    ensures
        r@ == ids@,
{
    let mut copy: Vec<ExchangeId> = Vec::new();
    let mut i: usize = 0;
    while i < ids.len()
        invariant
            i <= ids@.len(),
            copy@ == ids@.take(i as int),
        decreases ids@.len() - i,
    {
        copy.push(ids[i].clone());
        proof {
            assert(copy@ =~= ids@.take(i + 1));
        }
        i = i + 1;
    }
    proof {
        assert(ids@.take(i as int) =~= ids@);
    }
    copy
}

impl ExecutionReport {
    /// Whether two reports say the same.
    pub open spec fn same(self, other: ExecutionReport) -> bool
        decreases self,
    {
        &&& self.order_id == other.order_id
        &&& self.trades@ == other.trades@
        &&& self.outcome == other.outcome
        &&& self.cancelled@ == other.cancelled@
        &&& self.triggered@.len() == other.triggered@.len()
        &&& forall|i: int|
            0 <= i < self.triggered@.len() ==> (#[trigger] self.triggered@[i]).same(
                other.triggered@[i],
            )
    }
}

impl Clone for ExecutionReport {
    fn clone(&self) -> (r: Self)
        ensures
            self.same(r),
        decreases self,
    {
        let mut triggered: Vec<ExecutionReport> = Vec::new();
        let mut i: usize = 0;
        while i < self.triggered.len()
            invariant
                i <= self.triggered@.len(),
                triggered@.len() == i,
                forall|j: int|
                    0 <= j < i ==> (#[trigger] self.triggered@[j]).same(triggered@[j]),
            decreases self.triggered@.len() - i,
        {
            triggered.push(self.triggered[i].clone());
            i = i + 1;
        }
        ExecutionReport {
            order_id: self.order_id.clone(),
            trades: copy_trades(&self.trades),
            outcome: self.outcome,
            cancelled: copy_ids(&self.cancelled),
            triggered,
        }
    }
}

// ---------------------------------------------------------------- one level

/// Whether the order at place `i` has this name.
pub open spec fn name_at(orders: Seq<Order>, id: Seq<char>, i: int) -> bool {
    0 <= i < orders.len() && orders[i].exchange_id@ == id
}

/// Whether one of the orders has this name.
pub open spec fn has_name(orders: Seq<Order>, id: Seq<char>) -> bool {
    exists|i: int| #[trigger] name_at(orders, id, i)
}

/// Whether no two of the orders have the same name.
pub open spec fn distinct_names(orders: Seq<Order>) -> bool {
    forall|i: int, j: int|
        0 <= i < j < orders.len() ==> (#[trigger] orders[i]).exchange_id@ != (
        #[trigger] orders[j]).exchange_id@
}

proof fn lemma_has_name_push(orders: Seq<Order>, order: Order, id: Seq<char>)
    ensures
        has_name(orders.push(order), id) <==> has_name(orders, id) || order.exchange_id@ == id,
{
    let more = orders.push(order);
    if has_name(orders, id) {
        let i = choose|i: int| #[trigger] name_at(orders, id, i);
        assert(name_at(more, id, i));
    }
    if order.exchange_id@ == id {
        assert(name_at(more, id, orders.len() as int));
    }
    if has_name(more, id) {
        let i = choose|i: int| #[trigger] name_at(more, id, i);
        if i < orders.len() {
            assert(name_at(orders, id, i));
        }
    }
}

/// Parting a queue by client parts its names.
proof fn lemma_names_parted(orders: Seq<Order>, client: Seq<char>)
    requires
        distinct_names(orders),
    ensures
        distinct_names(order_queue::not_owned(orders, client)),
        forall|id: Seq<char>| #[trigger]
            has_name(orders, id) <==> has_name(order_queue::owned(orders, client), id) || has_name(
                order_queue::not_owned(orders, client),
                id,
            ),
        forall|id: Seq<char>|
            !(#[trigger] has_name(order_queue::owned(orders, client), id) && has_name(
                order_queue::not_owned(orders, client),
                id,
            )),
    decreases orders.len(),
{
    let own = order_queue::owned(orders, client);
    let others = order_queue::not_owned(orders, client);
    if orders.len() > 0 {
        let rest = orders.drop_last();
        let last = orders.last();
        assert(distinct_names(rest));
        lemma_names_parted(rest, client);
        let own0 = order_queue::owned(rest, client);
        let others0 = order_queue::not_owned(rest, client);
        assert(orders =~= rest.push(last));
        assert(!has_name(rest, last.exchange_id@)) by {
            if has_name(rest, last.exchange_id@) {
                let i = choose|i: int| #[trigger] name_at(rest, last.exchange_id@, i);
                assert(orders[i].exchange_id@ != orders[orders.len() - 1].exchange_id@);
            }
        }
        assert forall|id: Seq<char>| #[trigger]
            has_name(orders, id) <==> has_name(own, id) || has_name(others, id) by {
            lemma_has_name_push(rest, last, id);
            lemma_has_name_push(own0, last, id);
            lemma_has_name_push(others0, last, id);
            assert(has_name(rest, id) <==> has_name(own0, id) || has_name(others0, id));
        }
        assert forall|id: Seq<char>| !(#[trigger] has_name(own, id) && has_name(others, id)) by {
            lemma_has_name_push(own0, last, id);
            lemma_has_name_push(others0, last, id);
            assert(has_name(rest, id) <==> has_name(own0, id) || has_name(others0, id));
            assert(!(has_name(own0, id) && has_name(others0, id)));
        }
        assert forall|i: int, j: int| 0 <= i < j < others.len() implies (
        #[trigger] others[i]).exchange_id@ != (#[trigger] others[j]).exchange_id@ by {
            if last.client_id@ != client && j == others.len() - 1 {
                assert(others[i] == others0[i]);
                assert(name_at(others0, others[i].exchange_id@, i));
                assert(has_name(rest, others[i].exchange_id@));
            }
        }
    } else {
        assert forall|id: Seq<char>| !has_name(orders, id) && !has_name(own, id) && !has_name(
            others,
            id,
        ) by {}
    }
}

/// Whether the fills leave nothing of an order.
pub open spec fn spent(queue: Seq<Order>, fills: Seq<Fill>, i: int) -> bool {
    allocation::allotted(fills, i) == queue[i].remaining_quantity.base()
}

/// The keys of a queue without those of the first `upto` orders that the fills
/// leave nothing of.
spec fn kept(keys: Seq<OrderKey>, queue: Seq<Order>, fills: Seq<Fill>, upto: int) -> Seq<OrderKey>
    decreases keys.len(),
{
    if keys.len() == 0 {
        Seq::empty()
    } else {
        let before = kept(keys.drop_last(), queue, fills, upto);
        if struck(queue, fills, upto, keys.len() - 1) {
            before
        } else {
            before.push(keys.last())
        }
    }
}

/// Whether an order is one of the first `upto`, and the fills leave nothing of
/// it.
pub open spec fn struck(queue: Seq<Order>, fills: Seq<Fill>, upto: int, i: int) -> bool {
    i < upto && spent(queue, fills, i)
}

proof fn lemma_kept_members(keys: Seq<OrderKey>, queue: Seq<Order>, fills: Seq<Fill>, upto: int)
    ensures
        forall|k: OrderKey| #[trigger]
            kept(keys, queue, fills, upto).contains(k) <==> exists|i: int|
                0 <= i < keys.len() && #[trigger] keys[i] == k && !struck(queue, fills, upto, i),
    decreases keys.len(),
{
    let all = kept(keys, queue, fills, upto);
    if keys.len() > 0 {
        let rest = keys.drop_last();
        lemma_kept_members(rest, queue, fills, upto);
        let n = keys.len() - 1;
        assert forall|k: OrderKey| #[trigger] all.contains(k) <==> exists|i: int|
            0 <= i < keys.len() && #[trigger] keys[i] == k && !struck(queue, fills, upto, i) by {
            let before = kept(rest, queue, fills, upto);
            order_queue::lemma_push_contains(before, keys.last(), k);
            if before.contains(k) {
                let i = choose|i: int|
                    0 <= i < rest.len() && #[trigger] rest[i] == k && !struck(
                        queue,
                        fills,
                        upto,
                        i,
                    );
                assert(keys[i] == k);
            }
            if exists|i: int|
                0 <= i < keys.len() && #[trigger] keys[i] == k && !struck(queue, fills, upto, i) {
                let i = choose|i: int|
                    0 <= i < keys.len() && #[trigger] keys[i] == k && !struck(
                        queue,
                        fills,
                        upto,
                        i,
                    );
                if i < n {
                    assert(rest[i] == k);
                    assert(before.contains(k));
                }
            }
            if !struck(queue, fills, upto, n) && keys.last() == k {
                assert(keys[n] == k);
            }
        }
    }
}

pub(crate) proof fn lemma_allotted_before(fills: Seq<Fill>, i: int)
    requires
        forall|j: int| 0 <= j < fills.len() ==> (#[trigger] fills[j]).order_index < i,
    ensures
        allocation::allotted(fills, i) == 0,
    decreases fills.len(),
{
    if fills.len() > 0 {
        assert(fills[fills.len() - 1].order_index < i);
        assert forall|j: int| 0 <= j < fills.drop_last().len() implies (
        #[trigger] fills.drop_last()[j]).order_index < i by {
            assert(fills.drop_last()[j] == fills[j]);
        }
        lemma_allotted_before(fills.drop_last(), i);
    }
}

/// What the order at `i` has been given, where the fills before `j` are for
/// orders before it and the others are not: the fill at `j`, if it is for this
/// order.
proof fn lemma_allotted_next(fills: Seq<Fill>, j: int, i: int)
    requires
        0 <= j <= fills.len(),
        forall|a: int, b: int|
            0 <= a < b < fills.len() ==> (#[trigger] fills[a]).order_index < (
            #[trigger] fills[b]).order_index,
        forall|a: int| 0 <= a < j ==> (#[trigger] fills[a]).order_index < i,
        forall|a: int| j <= a < fills.len() ==> (#[trigger] fills[a]).order_index >= i,
    ensures
        allocation::allotted(fills, i) == (if j < fills.len() && fills[j].order_index == i {
            fills[j].quantity.base() as int
        } else {
            0
        }),
    decreases fills.len(),
{
    if j == fills.len() {
        lemma_allotted_before(fills, i);
    } else {
        let n = fills.len() - 1;
        let rest = fills.drop_last();
        assert(fills[n].order_index >= i);
        if fills[n].order_index == i {
            if j < n {
                assert(fills[j].order_index < fills[n].order_index);
            }
        } else {
            assert forall|a: int| 0 <= a < rest.len() implies #[trigger] rest[a] == fills[a] by {}
            lemma_allotted_next(
                rest,
                if j < n {
                    j
                } else {
                    n
                },
                i,
            );
        }
    }
}

/// Going one order further strikes that order out if nothing is left of it.
proof fn lemma_kept_further(
    keys: Seq<OrderKey>,
    queue: Seq<Order>,
    fills: Seq<Fill>,
    upto: int,
)
    requires
        keys.no_duplicates(),
        0 <= upto,
    ensures
        ({
            let old_kept = kept(keys, queue, fills, upto);
            let new_kept = kept(keys, queue, fills, upto + 1);
            if upto < keys.len() && spent(queue, fills, upto) {
                &&& old_kept.contains(keys[upto])
                &&& new_kept == old_kept.remove(old_kept.index_of(keys[upto]))
            } else {
                new_kept == old_kept
            }
        }),
        kept(keys, queue, fills, upto).no_duplicates(),
    decreases keys.len(),
{
    let old_kept = kept(keys, queue, fills, upto);
    let new_kept = kept(keys, queue, fills, upto + 1);
    if keys.len() > 0 {
        let rest = keys.drop_last();
        let last = keys.last();
        let n = keys.len() - 1;
        lemma_kept_further(rest, queue, fills, upto);
        let before = kept(rest, queue, fills, upto);
        let after = kept(rest, queue, fills, upto + 1);
        lemma_kept_members(rest, queue, fills, upto);
        assert(!before.contains(last)) by {
            if before.contains(last) {
                let i = choose|i: int|
                    0 <= i < rest.len() && #[trigger] rest[i] == last && !struck(
                        queue,
                        fills,
                        upto,
                        i,
                    );
                assert(keys[i] == keys[n]);
            }
        }
        assert(old_kept.no_duplicates()) by {
            assert forall|i: int, j: int|
                0 <= i < old_kept.len() && 0 <= j < old_kept.len() && i != j implies old_kept[i]
                != old_kept[j] by {
                if !struck(queue, fills, upto, n) {
                    if i == before.len() {
                        assert(before.contains(before[j]));
                    }
                    if j == before.len() {
                        assert(before.contains(before[i]));
                    }
                }
            }
        }
        if upto < keys.len() && spent(queue, fills, upto) {
            if upto == n {
                assert(after == before);
                assert(old_kept == before.push(last));
                assert(old_kept[before.len() as int] == last);
                assert(old_kept.index_of(last) == before.len());
                assert(new_kept =~= old_kept.remove(before.len() as int));
            } else {
                let key = keys[upto];
                assert(rest[upto] == key);
                let place = before.index_of(key);
                assert(before[place] == key);
                assert(old_kept[place] == key);
                assert(old_kept.index_of(key) == place);
                assert(new_kept =~= old_kept.remove(place));
            }
        }
    }
}

/// The orders that are kept are what the fills leave of the queue.
proof fn lemma_kept_orders(
    nodes: Map<OrderKey, Node>,
    keys: Seq<OrderKey>,
    queue: Seq<Order>,
    fills: Seq<Fill>,
    reach: int,
    n: int,
)
    requires
        0 <= n <= keys.len(),
        keys.len() == queue.len(),
        forall|i: int|
            0 <= i < keys.len() && !#[trigger] struck(queue, fills, reach, i)
                ==> nodes[keys[i]].order == model::reduced(
                queue[i],
                allocation::allotted(fills, i),
            ),
    ensures
        order_queue::orders_at(nodes, kept(keys.take(n), queue, fills, reach))
            == model::after_fills(queue.take(n), fills, reach),
    decreases n,
{
    let some = kept(keys.take(n), queue, fills, reach);
    let left = model::after_fills(queue.take(n), fills, reach);
    if n > 0 {
        lemma_kept_orders(nodes, keys, queue, fills, reach, n - 1);
        assert(keys.take(n).drop_last() =~= keys.take(n - 1));
        assert(queue.take(n).drop_last() =~= queue.take(n - 1));
        assert(queue.take(n).last() == queue[n - 1]);
        let before = kept(keys.take(n - 1), queue, fills, reach);
        if !struck(queue, fills, reach, n - 1) {
            assert(order_queue::orders_at(nodes, some) =~= order_queue::orders_at(
                nodes,
                before,
            ).push(nodes[keys[n - 1]].order));
        }
    } else {
        assert(order_queue::orders_at(nodes, some) =~= left);
    }
}

/// An order that is not struck out keeps its name; the others are gone.
proof fn lemma_names_left(queue: Seq<Order>, fills: Seq<Fill>, reach: int, n: int)
    requires
        0 <= n <= queue.len(),
    ensures
        forall|id: Seq<char>| #[trigger]
            has_name(model::after_fills(queue.take(n), fills, reach), id) <==> exists|i: int|
                0 <= i < n && !#[trigger] struck(queue, fills, reach, i) && queue[i].exchange_id@ == id,
    decreases n,
{
    let left = model::after_fills(queue.take(n), fills, reach);
    if n > 0 {
        lemma_names_left(queue, fills, reach, n - 1);
        let before = model::after_fills(queue.take(n - 1), fills, reach);
        assert(queue.take(n).drop_last() =~= queue.take(n - 1));
        assert(queue.take(n).last() == queue[n - 1]);
        let got = allocation::allotted(fills, n - 1);
        assert forall|id: Seq<char>| #[trigger] has_name(left, id) <==> exists|i: int|
            0 <= i < n && !#[trigger] struck(queue, fills, reach, i) && queue[i].exchange_id@ == id by {
            lemma_has_name_push(before, model::reduced(queue[n - 1], got), id);
            if has_name(before, id) {
                let i = choose|i: int|
                    0 <= i < n - 1 && !#[trigger] struck(queue, fills, reach, i) && queue[i].exchange_id@
                        == id;
                assert(!struck(queue, fills, reach, i));
            }
            if !struck(queue, fills, reach, n - 1) && queue[n - 1].exchange_id@ == id {
                assert(has_name(left, id));
            }
            if exists|i: int|
                0 <= i < n && !#[trigger] struck(queue, fills, reach, i) && queue[i].exchange_id@ == id {
                let i = choose|i: int|
                    0 <= i < n && !#[trigger] struck(queue, fills, reach, i) && queue[i].exchange_id@ == id;
                if i < n - 1 {
                    assert(has_name(before, id));
                }
            }
        }
    } else {
        assert forall|id: Seq<char>| !has_name(left, id) by {}
    }
}

/// Whether two orders differ in what is left of them alone.
pub open spec fn same_but_for_remainder(a: Order, b: Order) -> bool {
    b == (Order { remaining_quantity: b.remaining_quantity, ..a })
}

/// Whether what is left of an order is whole lots, where there is a lot to keep
/// to.
pub open spec fn in_lots(lot: Option<u64>, order: Order) -> bool {
    lot matches Some(lot) ==> lot > 0 && order.remaining_quantity.base() as int % lot as int == 0
}

/// Whether all that is left of a queue is whole lots.
pub open spec fn lots_fit_queue(lot: Option<u64>, queue: Seq<Order>) -> bool {
    forall|i: int| 0 <= i < queue.len() ==> in_lots(lot, #[trigger] queue[i])
}

/// What a policy with a lot may be handed at a level.
pub open spec fn lots_fit(lot: Option<u64>, taker: Order, queue: Seq<Order>) -> bool {
    in_lots(lot, taker) && lots_fit_queue(lot, queue)
}

/// Notes that orders have been cancelled: they leave the index, and their names
/// go into the report.
fn strike_cancelled(
    removed: &Vec<Order>,
    index: &mut OrderIndex,
    cancelled: &mut Vec<ExchangeId>,
)
    requires
        old(index).wf(),
    ensures
        final(index).wf(),
        forall|id: Seq<char>| #[trigger]
            final(index)@.contains_key(id) <==> old(index)@.contains_key(id) && !has_name(
                removed@,
                id,
            ),
        forall|id: Seq<char>| #[trigger]
            final(index)@.contains_key(id) ==> final(index)@[id] == old(index)@[id],
        final(cancelled)@ == old(cancelled)@ + model::names(removed@),
{
    let ghost index0 = index@;
    let ghost cancelled0 = cancelled@;
    let mut i: usize = 0;
    proof {
        assert(model::names(removed@).take(0) =~= Seq::<ExchangeId>::empty());
        assert(cancelled@ =~= cancelled0 + model::names(removed@).take(0));
        assert forall|id: Seq<char>| !has_name(removed@.take(0), id) by {}
    }
    while i < removed.len()
        invariant
            i <= removed@.len(),
            index.wf(),
            forall|id: Seq<char>| #[trigger]
                index@.contains_key(id) <==> index0.contains_key(id) && !has_name(
                    removed@.take(i as int),
                    id,
                ),
            forall|id: Seq<char>| #[trigger] index@.contains_key(id) ==> index@[id] == index0[id],
            cancelled@ == cancelled0 + model::names(removed@).take(i as int),
        decreases removed@.len() - i,
    {
        let id: &ExchangeId = &removed[i].exchange_id;
        index.remove(id);
        cancelled.push(id.clone());
        proof {
            let before = removed@.take(i as int);
            assert(removed@.take(i + 1) =~= before.push(removed@[i as int]));
            assert forall|name: Seq<char>| #[trigger]
                index@.contains_key(name) <==> index0.contains_key(name) && !has_name(
                    removed@.take(i + 1),
                    name,
                ) by {
                lemma_has_name_push(before, removed@[i as int], name);
            }
            assert(cancelled@ =~= cancelled0 + model::names(removed@).take(i + 1));
        }
        i = i + 1;
    }
    proof {
        assert(removed@.take(i as int) =~= removed@);
        assert(model::names(removed@).take(i as int) =~= model::names(removed@));
    }
}

/// Whether one of the first `upto` orders has this name, and the fills leave
/// nothing of it.
spec fn struck_name(queue: Seq<Order>, fills: Seq<Fill>, upto: int, id: Seq<char>) -> bool {
    exists|i: int|
        0 <= i < queue.len() && #[trigger] struck(queue, fills, upto, i) && queue[i].exchange_id@
            == id
}

/// Carries fills out: walks the queue as long as there are fills to carry out or
/// something is left of the taker, prints a trade for each fill, and takes the
/// orders on the way of which nothing is left out of the queue and the index.
#[verifier::rlimit(40)]
fn apply_fills(
    queue: &mut LevelQueue,
    nodes: &mut OrderArena,
    index: &mut OrderIndex,
    keys: &Vec<OrderKey>,
    fills: &Vec<Fill>,
    taker: &mut Order,
    price: Price,
    trades: &mut Vec<Trade>,
)
    requires
        old(queue).wf(old(nodes)@),
        keys@ == old(queue).keys(old(nodes)@),
        old(index).wf(),
        distinct_names(old(queue).orders(old(nodes)@)),
        forall|i: int, j: int|
            0 <= i < j < fills@.len() ==> (#[trigger] fills@[i]).order_index < (
            #[trigger] fills@[j]).order_index,
        forall|i: int|
            0 <= i < fills@.len() ==> {
                &&& (#[trigger] fills@[i]).order_index < keys@.len()
                &&& 0 < fills@[i].quantity.base()
                &&& fills@[i].quantity.base() <= old(queue).orders(
                    old(nodes)@,
                )[fills@[i].order_index as int].remaining_quantity.base()
            },
        sums::sum(allocation::taken(fills@)) <= old(taker).remaining_quantity.base(),
    ensures
        final(queue).wf(final(nodes)@),
        final(queue).orders(final(nodes)@) == model::level_left(
            old(queue).orders(old(nodes)@),
            fills@,
            old(taker).remaining_quantity.base() - sums::sum(allocation::taken(fills@)),
        ),
        forall|k: OrderKey| #[trigger]
            final(queue).keys(final(nodes)@).contains(k) ==> keys@.contains(k),
        forall|k: OrderKey| #[trigger]
            final(nodes)@.contains_key(k) <==> old(nodes)@.contains_key(k) && (keys@.contains(k)
                ==> final(queue).keys(final(nodes)@).contains(k)),
        forall|k: OrderKey| #[trigger]
            final(nodes)@.contains_key(k) ==> same_but_for_remainder(
                old(nodes)@[k].order,
                final(nodes)@[k].order,
            ),
        order_queue::same_outside(old(nodes)@, final(nodes)@, keys@),
        final(index).wf(),
        forall|id: Seq<char>| #[trigger]
            final(index)@.contains_key(id) <==> old(index)@.contains_key(id) && (has_name(
                old(queue).orders(old(nodes)@),
                id,
            ) ==> has_name(final(queue).orders(final(nodes)@), id)),
        forall|id: Seq<char>| #[trigger]
            final(index)@.contains_key(id) ==> final(index)@[id] == old(index)@[id],
        *final(taker) == model::reduced(*old(taker), sums::sum(allocation::taken(fills@))),
        final(trades)@ == old(trades)@ + model::trades_of(
            *old(taker),
            old(queue).orders(old(nodes)@),
            price,
            fills@,
        ),
{
    let ghost nodes0 = nodes@;
    let ghost queue0 = *queue;
    let ghost index0 = index@;
    let ghost taker0 = *taker;
    let ghost trades0 = trades@;
    let ghost orders = queue.orders(nodes@);
    let ghost all = model::trades_of(taker0, orders, price, fills@);
    let ghost took = allocation::taken(fills@);
    let ghost n = keys@.len() as int;
    let ghost rest = taker0.remaining_quantity.base() - sums::sum(took);
    let ghost reach = model::passed(orders, fills@, rest);
    let mut i: usize = 0;
    let mut j: usize = 0;
    proof {
        assert(queue0.chain(nodes0, keys@));
        order_queue::lemma_chain_distinct(queue0, nodes0, keys@);
        lemma_kept_all(keys@, orders, fills@);
        assert(took.take(0) =~= Seq::<int>::empty());
        assert(trades@ =~= trades0 + all.take(0));
        assert forall|id: Seq<char>| !struck_name(orders, fills@, 0, id) by {}
    }
    while i < keys.len() && (j < fills.len() || !taker.remaining_quantity.is_zero())
        invariant
            i <= keys@.len(),
            j <= fills@.len(),
            i <= reach <= n,
            rest == taker0.remaining_quantity.base() - sums::sum(took),
            reach == model::passed(orders, fills@, rest),
            n == keys@.len(),
            orders.len() == n,
            keys@.no_duplicates(),
            distinct_names(orders),
            forall|a: int|
                0 <= a < n ==> nodes0.contains_key(#[trigger] keys@[a]) && nodes0[keys@[a]].order
                    == orders[a],
            forall|a: int, b: int|
                0 <= a < b < fills@.len() ==> (#[trigger] fills@[a]).order_index < (
                #[trigger] fills@[b]).order_index,
            forall|a: int|
                0 <= a < fills@.len() ==> {
                    &&& (#[trigger] fills@[a]).order_index < n
                    &&& 0 < fills@[a].quantity.base()
                    &&& fills@[a].quantity.base()
                        <= orders[fills@[a].order_index as int].remaining_quantity.base()
                },
            forall|a: int| 0 <= a < j ==> (#[trigger] fills@[a]).order_index < i,
            forall|a: int| j <= a < fills@.len() ==> (#[trigger] fills@[a]).order_index >= i,
            took == allocation::taken(fills@),
            sums::sum(took) <= taker0.remaining_quantity.base(),
            all == model::trades_of(taker0, orders, price, fills@),
            queue.wf(nodes@),
            queue.keys(nodes@) == kept(keys@, orders, fills@, i as int),
            forall|a: int|
                0 <= a < n && !struck(orders, fills@, i as int, a) ==> nodes@.contains_key(
                    #[trigger] keys@[a],
                ),
            forall|a: int|
                0 <= a < i && !spent(orders, fills@, a) ==> nodes@[#[trigger] keys@[a]].order
                    == model::reduced(orders[a], allocation::allotted(fills@, a)),
            forall|a: int| i <= a < n ==> nodes@[#[trigger] keys@[a]].order == orders[a],
            forall|a: int|
                0 <= a < n && struck(orders, fills@, i as int, a) ==> !nodes@.contains_key(
                    #[trigger] keys@[a],
                ),
            forall|k: OrderKey| #[trigger] nodes@.contains_key(k) ==> nodes0.contains_key(k),
            forall|k: OrderKey| #[trigger]
                nodes@.contains_key(k) ==> same_but_for_remainder(
                    nodes0[k].order,
                    nodes@[k].order,
                ),
            order_queue::same_outside(nodes0, nodes@, keys@),
            index.wf(),
            forall|id: Seq<char>| #[trigger]
                index@.contains_key(id) <==> index0.contains_key(id) && !struck_name(
                    orders,
                    fills@,
                    i as int,
                    id,
                ),
            forall|id: Seq<char>| #[trigger] index@.contains_key(id) ==> index@[id] == index0[id],
            *taker == model::reduced(taker0, sums::sum(took.take(j as int))),
            trades@ == trades0 + all.take(j as int),
        decreases keys@.len() - i,
    {
        let key: OrderKey = keys[i];
        let ghost at = i as int;
        let ghost mid = nodes@;
        let ghost mid_queue = *queue;
        let ghost current = queue.keys(nodes@);
        proof {
            assert(i < reach) by {
                if j == fills@.len() {
                    assert(took.take(j as int) =~= took);
                } else {
                    let m = fills@.len() - 1;
                    assert(fills@[m].order_index >= i);
                    assert(fills@.last() == fills@[m]);
                }
            }
            assert(!struck(orders, fills@, at, at));
            lemma_allotted_next(fills@, j as int, at);
            lemma_kept_further(keys@, orders, fills@, at);
            lemma_kept_members(keys@, orders, fills@, at);
            assert(keys@[at] == key);
            assert(current.contains(key));
            assert(mid_queue.chain(mid, current));
            order_queue::lemma_chain_distinct(mid_queue, mid, current);
            assert(keys@.contains(key));
            assert(mid[key].order == orders[at]);
        }
        let node = nodes.get(key).expect("queued node must be live");
        let held: u64 = node.order.remaining_quantity.base();
        let id: ExchangeId = node.order.exchange_id.clone();
        let mut got: u64 = 0;
        if j < fills.len() && fills[j].order_index == i {
            let fill: Fill = fills[j];
            got = fill.quantity.base();
            trades.push(
                Trade {
                    price,
                    quantity: fill.quantity,
                    maker_order_id: id.clone(),
                    taker_order_id: taker.exchange_id.clone(),
                    maker_client: node.order.client_id.clone(),
                    taker_client: taker.client_id.clone(),
                    taker_side: taker.side,
                    timestamp: taker.timestamp,
                },
            );
            proof {
                sums::lemma_sum_step(took, j as int);
                assert forall|a: int| 0 <= a < took.len() implies 0 <= #[trigger] took[a] by {}
                sums::lemma_sum_prefix(took, j as int);
                sums::lemma_sum_prefix(took, j + 1);
                assert(took[j as int] == got);
                assert(trades@ =~= trades0 + all.take(j + 1));
                assert forall|a: int| j < a < fills@.len() implies (
                #[trigger] fills@[a]).order_index >= i + 1 by {
                    assert(fills@[j as int].order_index < fills@[a].order_index);
                }
            }
            taker.remaining_quantity = Qty::from_base_unchecked(
                taker.remaining_quantity.base() - got,
            );
            j = j + 1;
        }
        if held == got {
            queue.remove_key(nodes, key);
            index.remove(&id);
        } else if got > 0 {
            nodes.set_remaining(key, Qty::from_base_unchecked(held - got));
            proof {
                assert forall|a: int| 0 <= a < current.len() implies {
                    &&& nodes@.contains_key(#[trigger] current[a])
                    &&& nodes@[current[a]].previous == mid[current[a]].previous
                    &&& nodes@[current[a]].next == mid[current[a]].next
                } by {}
                order_queue::lemma_chain_relinked(*queue, mid, nodes@, current);
            }
        }
        proof {
            assert(got == allocation::allotted(fills@, at));
            assert(spent(orders, fills@, at) <==> held == got);
            assert forall|a: int| #[trigger] struck(orders, fills@, at + 1, a) <==> struck(
                orders,
                fills@,
                at,
                a,
            ) || (a == at && held == got) by {}
            assert forall|a: int| 0 <= a < n && a != at implies #[trigger] keys@[a] != key by {
                assert(keys@[at] == key);
            }
            assert forall|a: int|
                0 <= a < n && !struck(orders, fills@, at + 1, a) implies nodes@.contains_key(
                #[trigger] keys@[a],
            ) by {
                assert(!struck(orders, fills@, at, a));
                assert(mid.contains_key(keys@[a]));
            }
            assert forall|a: int|
                0 <= a < at + 1 && !spent(orders, fills@, a) implies nodes@[#[trigger] keys@[a]].order
                == model::reduced(orders[a], allocation::allotted(fills@, a)) by {
                assert(!struck(orders, fills@, at, a));
                assert(mid.contains_key(keys@[a]));
            }
            assert forall|a: int|
                0 <= a < n && struck(orders, fills@, at + 1, a) implies !nodes@.contains_key(
                #[trigger] keys@[a],
            ) by {
                if a != at {
                    assert(struck(orders, fills@, at, a));
                    assert(!mid.contains_key(keys@[a]));
                }
            }
            assert forall|k: OrderKey| #[trigger] nodes@.contains_key(k) implies same_but_for_remainder(
                nodes0[k].order,
                nodes@[k].order,
            ) && nodes0.contains_key(k) by {
                assert(mid.contains_key(k));
            }
            assert(order_queue::same_outside(nodes0, nodes@, keys@)) by {
                assert forall|k: OrderKey| #[trigger]
                    nodes0.contains_key(k) && !keys@.contains(k) implies nodes@.contains_key(k)
                    && nodes@[k] == nodes0[k] by {
                    assert(mid.contains_key(k) && mid[k] == nodes0[k]);
                    assert(!current.contains(k)) by {
                        if current.contains(k) {
                            let a = choose|a: int|
                                0 <= a < n && #[trigger] keys@[a] == k && !struck(
                                    orders,
                                    fills@,
                                    at,
                                    a,
                                );
                            assert(keys@.contains(keys@[a]));
                        }
                    }
                }
            }
            assert forall|name: Seq<char>| #[trigger]
                index@.contains_key(name) <==> index0.contains_key(name) && !struck_name(
                    orders,
                    fills@,
                    at + 1,
                    name,
                ) by {
                lemma_struck_name_further(orders, fills@, at, name);
            }
        }
        i = i + 1;
    }
    proof {
        assert(j == fills@.len()) by {
            if j < fills@.len() {
                assert(fills@[j as int].order_index >= n);
            }
        }
        assert(took.take(j as int) =~= took);
        assert(all.take(j as int) =~= all);
        assert(keys@.take(n) =~= keys@);
        assert(orders.take(n) =~= orders);
        assert(i == reach) by {
            assert forall|a: int| 0 <= a < took.len() implies 0 <= #[trigger] took[a] by {}
            sums::lemma_sum_nonneg(took);
            if i < n && fills@.len() > 0 {
                assert(fills@.last() == fills@[fills@.len() - 1]);
            }
        }
        assert forall|a: int| 0 <= a < n && !#[trigger] struck(orders, fills@, reach, a) implies nodes@[keys@[a]].order
            == model::reduced(orders[a], allocation::allotted(fills@, a)) by {
            assert(nodes0.contains_key(keys@[a]));
            if a >= reach {
                assert forall|b: int| 0 <= b < fills@.len() implies (
                #[trigger] fills@[b]).order_index < a by {}
                lemma_allotted_before(fills@, a);
                assert(model::reduced(orders[a], 0) == orders[a]);
            }
        }
        lemma_kept_orders(nodes@, keys@, orders, fills@, reach, n);
        lemma_kept_members(keys@, orders, fills@, reach);
        lemma_names_left(orders, fills@, reach, n);
        let left_keys = queue.keys(nodes@);
        let left = queue.orders(nodes@);
        assert forall|k: OrderKey| #[trigger] left_keys.contains(k) implies keys@.contains(k) by {
            let a = choose|a: int|
                0 <= a < n && #[trigger] keys@[a] == k && !struck(orders, fills@, reach, a);
            assert(keys@.contains(keys@[a]));
        }
        assert forall|k: OrderKey| #[trigger]
            nodes@.contains_key(k) <==> nodes0.contains_key(k) && (keys@.contains(k)
                ==> left_keys.contains(k)) by {
            if keys@.contains(k) {
                let a = keys@.index_of(k);
                assert(keys@[a] == k);
                if struck(orders, fills@, reach, a) {
                    assert(!nodes@.contains_key(k));
                    if left_keys.contains(k) {
                        let m = choose|m: int|
                            0 <= m < n && #[trigger] keys@[m] == k && !struck(
                                orders,
                                fills@,
                                reach,
                                m,
                            );
                        assert(m == a);
                    }
                } else {
                    assert(nodes@.contains_key(k));
                    assert(left_keys.contains(k));
                }
            }
        }
        assert forall|id: Seq<char>| #[trigger]
            index@.contains_key(id) <==> index0.contains_key(id) && (has_name(orders, id)
                ==> has_name(left, id)) by {
            if has_name(orders, id) {
                let a = choose|a: int| #[trigger] name_at(orders, id, a);
                assert(name_at(orders, id, a));
                if struck(orders, fills@, reach, a) {
                    assert(struck_name(orders, fills@, reach, id));
                    if has_name(left, id) {
                        let m = choose|m: int|
                            0 <= m < n && !#[trigger] struck(orders, fills@, reach, m)
                                && orders[m].exchange_id@ == id;
                        assert(m == a);
                    }
                } else {
                    assert(has_name(left, id));
                    if struck_name(orders, fills@, reach, id) {
                        let m = choose|m: int|
                            0 <= m < orders.len() && #[trigger] struck(orders, fills@, reach, m)
                                && orders[m].exchange_id@ == id;
                        assert(m == a);
                    }
                }
            } else if struck_name(orders, fills@, reach, id) {
                let m = choose|m: int|
                    0 <= m < orders.len() && #[trigger] struck(orders, fills@, reach, m)
                        && orders[m].exchange_id@ == id;
                assert(name_at(orders, id, m));
            }
        }
    }
}

proof fn lemma_struck_name_further(orders: Seq<Order>, fills: Seq<Fill>, upto: int, id: Seq<char>)
    requires
        0 <= upto < orders.len(),
    ensures
        struck_name(orders, fills, upto + 1, id) <==> struck_name(orders, fills, upto, id) || (
        spent(orders, fills, upto) && orders[upto].exchange_id@ == id),
{
    if struck_name(orders, fills, upto + 1, id) {
        let i = choose|i: int|
            0 <= i < orders.len() && #[trigger] struck(orders, fills, upto + 1, i)
                && orders[i].exchange_id@ == id;
        if i != upto {
            assert(struck(orders, fills, upto, i));
        }
    }
    if struck_name(orders, fills, upto, id) {
        let i = choose|i: int|
            0 <= i < orders.len() && #[trigger] struck(orders, fills, upto, i)
                && orders[i].exchange_id@ == id;
        assert(struck(orders, fills, upto + 1, i));
    }
    if spent(orders, fills, upto) {
        assert(struck(orders, fills, upto + 1, upto));
    }
}

/// Where no order has been looked at, everything is kept.
proof fn lemma_kept_all(keys: Seq<OrderKey>, queue: Seq<Order>, fills: Seq<Fill>)
    ensures
        kept(keys, queue, fills, 0) == keys,
    decreases keys.len(),
{
    if keys.len() > 0 {
        lemma_kept_all(keys.drop_last(), queue, fills);
        assert(keys.drop_last().push(keys.last()) =~= keys);
    } else {
        assert(kept(keys, queue, fills, 0) =~= keys);
    }
}

/// Where all that is left of a queue is whole lots, so is what is left of the
/// orders of others than one client.
pub(crate) proof fn lemma_not_owned_lots(orders: Seq<Order>, client: Seq<char>, lot: int)
    requires
        forall|i: int|
            0 <= i < orders.len() ==> (#[trigger] orders[i]).remaining_quantity.base() as int % lot
                == 0,
    ensures
        forall|i: int|
            0 <= i < order_queue::not_owned(orders, client).len() ==> (
            #[trigger] order_queue::not_owned(orders, client)[i]).remaining_quantity.base() as int
                % lot == 0,
    decreases orders.len(),
{
    if orders.len() > 0 {
        let rest = orders.drop_last();
        assert forall|i: int| 0 <= i < rest.len() implies (
        #[trigger] rest[i]).remaining_quantity.base() as int % lot == 0 by {
            assert(rest[i] == orders[i]);
        }
        lemma_not_owned_lots(rest, client, lot);
    }
}

/// What the fills leave of whole lots is whole lots.
pub(crate) proof fn lemma_left_lots(queue: Seq<Order>, fills: Seq<Fill>, reach: int, lot: int)
    requires
        lot > 0,
        forall|i: int|
            0 <= i < queue.len() ==> (#[trigger] queue[i]).remaining_quantity.base() as int % lot
                == 0,
        forall|i: int|
            0 <= i < queue.len() ==> {
                let got = #[trigger] allocation::allotted(fills, i);
                0 <= got <= queue[i].remaining_quantity.base() && got % lot == 0
            },
    ensures
        forall|i: int|
            0 <= i < model::after_fills(queue, fills, reach).len() ==> (
            #[trigger] model::after_fills(queue, fills, reach)[i]).remaining_quantity.base() as int
                % lot == 0,
    decreases queue.len(),
{
    if queue.len() > 0 {
        let rest = queue.drop_last();
        assert forall|i: int| 0 <= i < rest.len() implies (
        #[trigger] rest[i]).remaining_quantity.base() as int % lot == 0 by {
            assert(rest[i] == queue[i]);
        }
        assert forall|i: int| 0 <= i < rest.len() implies {
            let got = #[trigger] allocation::allotted(fills, i);
            0 <= got <= rest[i].remaining_quantity.base() && got % lot == 0
        } by {
            assert(rest[i] == queue[i]);
        }
        lemma_left_lots(rest, fills, reach, lot);
        let n = queue.len() - 1;
        let got = allocation::allotted(fills, n);
        assert(queue[n].remaining_quantity.base() as int % lot == 0);
        sums::lemma_multiples_add(queue[n].remaining_quantity.base() as int, got, lot);
        assert(model::reduced(queue[n], got).remaining_quantity.base()
            == queue[n].remaining_quantity.base() - got);
    }
}

/// What an order is given is one of the fills, or nothing.
pub(crate) proof fn lemma_allotted_is_a_fill(fills: Seq<Fill>, i: int)
    ensures
        allocation::allotted(fills, i) == 0 || exists|j: int|
            0 <= j < fills.len() && (#[trigger] fills[j]).order_index == i
                && fills[j].quantity.base() == allocation::allotted(fills, i),
    decreases fills.len(),
{
    if fills.len() > 0 {
        if fills.last().order_index == i {
            assert(fills[fills.len() - 1].order_index == i);
        } else {
            lemma_allotted_is_a_fill(fills.drop_last(), i);
            if allocation::allotted(fills.drop_last(), i) != 0 {
                let j = choose|j: int|
                    0 <= j < fills.drop_last().len() && (
                    #[trigger] fills.drop_last()[j]).order_index == i
                        && fills.drop_last()[j].quantity.base() == allocation::allotted(
                        fills.drop_last(),
                        i,
                    );
                assert(fills[j] == fills.drop_last()[j]);
            }
        }
    }
}

/// Lets a taker meet one level: cancels what its own client has there, and has
/// the policy share the rest out.
fn match_queue<M: MatchingAlgorithm>(
    queue: &mut LevelQueue,
    nodes: &mut OrderArena,
    index: &mut OrderIndex,
    matcher: &M,
    taker: &mut Order,
    price: Price,
    now: u128,
    trades: &mut Vec<Trade>,
    cancelled: &mut Vec<ExchangeId>,
)
    requires
        old(queue).wf(old(nodes)@),
        old(index).wf(),
        matcher.wf(),
        distinct_names(old(queue).orders(old(nodes)@)),
        lots_fit(matcher.spec_lot_size(), *old(taker), old(queue).orders(old(nodes)@)),
    ensures
        ({
            let others = order_queue::not_owned(
                old(queue).orders(old(nodes)@),
                old(taker).client_id@,
            );
            let own = order_queue::owned(old(queue).orders(old(nodes)@), old(taker).client_id@);
            let fills = model::level_fills(
                *matcher,
                others,
                old(taker).remaining_quantity.base() as int,
                now as int,
            );
            &&& final(queue).orders(final(nodes)@) == model::level_left(
                others,
                fills,
                old(taker).remaining_quantity.base() - sums::sum(allocation::taken(fills)),
            )
            &&& *final(taker) == model::reduced(*old(taker), sums::sum(allocation::taken(fills)))
            &&& sums::sum(allocation::taken(fills)) <= old(taker).remaining_quantity.base()
            &&& final(trades)@ == old(trades)@ + model::trades_of(*old(taker), others, price, fills)
            &&& final(cancelled)@ == old(cancelled)@ + model::names(own)
        }),
        final(queue).wf(final(nodes)@),
        lots_fit(matcher.spec_lot_size(), *final(taker), final(queue).orders(final(nodes)@)),
        forall|k: OrderKey| #[trigger]
            final(queue).keys(final(nodes)@).contains(k) ==> old(queue).keys(
                old(nodes)@,
            ).contains(k),
        forall|k: OrderKey| #[trigger]
            final(nodes)@.contains_key(k) <==> old(nodes)@.contains_key(k) && (old(queue).keys(
                old(nodes)@,
            ).contains(k) ==> final(queue).keys(final(nodes)@).contains(k)),
        forall|k: OrderKey| #[trigger]
            final(nodes)@.contains_key(k) ==> same_but_for_remainder(
                old(nodes)@[k].order,
                final(nodes)@[k].order,
            ),
        order_queue::same_outside(old(nodes)@, final(nodes)@, old(queue).keys(old(nodes)@)),
        final(index).wf(),
        forall|id: Seq<char>| #[trigger]
            final(index)@.contains_key(id) <==> old(index)@.contains_key(id) && (has_name(
                old(queue).orders(old(nodes)@),
                id,
            ) ==> has_name(final(queue).orders(final(nodes)@), id)),
        forall|id: Seq<char>| #[trigger]
            final(index)@.contains_key(id) ==> final(index)@[id] == old(index)@[id],
{
    let ghost nodes0 = nodes@;
    let ghost queue0 = *queue;
    let ghost index0 = index@;
    let ghost taker0 = *taker;
    let ghost client = taker.client_id@;
    let ghost orders = queue.orders(nodes@);
    let ghost own = order_queue::owned(orders, client);
    let ghost others = order_queue::not_owned(orders, client);
    let ghost keys0 = queue.keys(nodes@);
    let removed: Vec<Order> = queue.remove_client(nodes, &taker.client_id);
    strike_cancelled(&removed, index, cancelled);
    let ghost nodes1 = nodes@;
    let ghost index1 = index@;
    let mut makers: Vec<Maker> = Vec::new();
    let mut keys: Vec<OrderKey> = Vec::new();
    queue.collect_makers(nodes, &mut makers, &mut keys);
    let ghost lot = matcher.spec_lot_size();
    proof {
        lemma_names_parted(orders, client);
        if let Some(l) = lot {
            assert forall|i: int| 0 <= i < orders.len() implies (
            #[trigger] orders[i]).remaining_quantity.base() as int % l as int == 0 by {
                assert(in_lots(lot, orders[i]));
            }
            lemma_not_owned_lots(orders, client, l as int);
            assert forall|i: int| 0 <= i < makers@.len() implies (
            #[trigger] makers@[i]).remaining_quantity.base() as int % l as int == 0 by {
                assert(others[i].remaining_quantity.base() as int % l as int == 0);
            }
        }
        assert(allocation::on_grid(lot, taker.remaining_quantity, makers@));
    }
    let fills: Vec<Fill> = matcher.allocate(taker.remaining_quantity, makers.as_slice(), now);
    proof {
        assert(allocation::qty_of(taker0.remaining_quantity.base() as int)
            == taker0.remaining_quantity);
        assert(fills@ == model::level_fills(
            *matcher,
            others,
            taker0.remaining_quantity.base() as int,
            now as int,
        ));
        assert forall|i: int| 0 <= i < fills@.len() implies {
            &&& (#[trigger] fills@[i]).order_index < keys@.len()
            &&& 0 < fills@[i].quantity.base()
            &&& fills@[i].quantity.base()
                <= others[fills@[i].order_index as int].remaining_quantity.base()
        } by {
            assert(makers@[fills@[i].order_index as int].remaining_quantity
                == others[fills@[i].order_index as int].remaining_quantity);
        }
        order_queue::lemma_kept_member_keys(nodes0, keys0, client);
    }
    apply_fills(queue, nodes, index, &keys, &fills, taker, price, trades);
    proof {
        let after = nodes@;
        let left_keys = queue.keys(after);
        let left = queue.orders(after);
        let reach = model::passed(
            others,
            fills@,
            taker0.remaining_quantity.base() - sums::sum(allocation::taken(fills@)),
        );
        assert(queue0.chain(nodes0, keys0));
        order_queue::lemma_chain_distinct(queue0, nodes0, keys0);
        assert forall|k: OrderKey| #[trigger] left_keys.contains(k) implies keys0.contains(k) by {
            assert(keys@.contains(k));
        }
        assert forall|k: OrderKey| #[trigger]
            after.contains_key(k) <==> nodes0.contains_key(k) && (keys0.contains(k)
                ==> left_keys.contains(k)) by {
            assert(keys@.contains(k) <==> keys0.contains(k) && nodes0[k].order.client_id@
                != client);
            assert(nodes1.contains_key(k) <==> nodes0.contains_key(k) && !(keys0.contains(k)
                && nodes0[k].order.client_id@ == client));
        }
        assert forall|k: OrderKey| #[trigger] after.contains_key(k) implies same_but_for_remainder(
            nodes0[k].order,
            after[k].order,
        ) by {
            assert(nodes1.contains_key(k));
        }
        assert(order_queue::same_outside(nodes0, after, keys0)) by {
            assert forall|k: OrderKey| #[trigger]
                nodes0.contains_key(k) && !keys0.contains(k) implies after.contains_key(k)
                && after[k] == nodes0[k] by {
                assert(nodes1.contains_key(k) && nodes1[k] == nodes0[k]);
                assert(!keys@.contains(k));
            }
        }
        assert forall|id: Seq<char>| #[trigger]
            index@.contains_key(id) <==> index0.contains_key(id) && (has_name(orders, id)
                ==> has_name(left, id)) by {
            assert(index1.contains_key(id) <==> index0.contains_key(id) && !has_name(own, id));
            assert(has_name(orders, id) <==> has_name(own, id) || has_name(others, id));
            assert(!(has_name(own, id) && has_name(others, id)));
            if has_name(left, id) {
                lemma_names_left(others, fills@, reach, others.len() as int);
                assert(others.take(others.len() as int) =~= others);
                let i = choose|i: int|
                    0 <= i < others.len() && !#[trigger] struck(others, fills@, reach, i)
                        && others[i].exchange_id@ == id;
                assert(name_at(others, id, i));
            }
        }
        if let Some(l) = lot {
            let d = l as int;
            assert forall|i: int| 0 <= i < orders.len() implies (
            #[trigger] orders[i]).remaining_quantity.base() as int % d == 0 by {
                assert(in_lots(lot, orders[i]));
            }
            lemma_not_owned_lots(orders, client, d);
            assert(allocation::whole_lots(d, taker0.remaining_quantity, makers@));
            let took = allocation::taken(fills@);
            assert forall|i: int| 0 <= i < took.len() implies #[trigger] took[i] % d == 0 by {
                assert(fills@[i].quantity.base() as int % d == 0);
            }
            sums::lemma_sum_multiple(took, d);
            assert forall|i: int| 0 <= i < took.len() implies #[trigger] took[i] >= 0 by {}
            sums::lemma_sum_nonneg(took);
            sums::lemma_multiples_add(
                taker0.remaining_quantity.base() as int,
                sums::sum(took),
                d,
            );
            assert forall|i: int| 0 <= i < others.len() implies {
                let got = #[trigger] allocation::allotted(fills@, i);
                0 <= got <= others[i].remaining_quantity.base() && got % d == 0
            } by {
                lemma_allotted_is_a_fill(fills@, i);
                if allocation::allotted(fills@, i) != 0 {
                    let j = choose|j: int|
                        0 <= j < fills@.len() && (#[trigger] fills@[j]).order_index == i
                            && fills@[j].quantity.base() == allocation::allotted(fills@, i);
                    assert(fills@[j].quantity.base() as int % d == 0);
                }
            }
            lemma_left_lots(others, fills@, reach, d);
        }
    }
}

// ---------------------------------------------------------------- sweeping a side

/// Fewer nodes, or as many.
proof fn lemma_no_more_nodes(before: Map<OrderKey, Node>, after: Map<OrderKey, Node>)
    requires
        before.dom().finite(),
        forall|k: OrderKey| #[trigger] after.contains_key(k) ==> before.contains_key(k),
    ensures
        after.dom().finite(),
        after.dom().len() <= before.dom().len(),
{
    assert(after.dom().subset_of(before.dom())) by {
        assert forall|k: OrderKey| #[trigger] after.dom().contains(k) implies before.dom().contains(
            k,
        ) by {
            assert(after.contains_key(k));
        }
    }
    vstd::set_lib::lemma_len_subset(after.dom(), before.dom());
}

impl<M: MatchingAlgorithm, S: OrderBookStore> OrderBook<M, S> {
    /// A level that a taker has met leaves the book sound.
    #[verifier::rlimit(40)]
    proof fn lemma_level_met(&self, now: Self, side: Side, p: u64, left: BookLevel)
        requires
            self.wf(),
            self.store.levels_on(side).contains_key(p),
            now == (OrderBook { store: now.store, nodes: now.nodes, index: now.index, ..*self }),
            now.store.wf(),
            forall|q: u64| now.store.covers(q) == #[trigger] self.store.covers(q),
            now.store.levels_on(side) == (if left.queue.len() == 0 {
                self.store.levels_on(side).remove(p)
            } else {
                self.store.levels_on(side).insert(p, left)
            }),
            now.store.levels_on(model::opposite(side)) == self.store.levels_on(
                model::opposite(side),
            ),
            left.price == self.store.levels_on(side)[p].price,
            left.side == self.store.levels_on(side)[p].side,
            left.queue.wf(now.nodes@),
            lots_fit_queue(self.matcher.spec_lot_size(), left.queue.orders(now.nodes@)),
            model::queue_in_line(left.queue.orders(now.nodes@), self.next_arrival as int),
            ({
                let queue = self.store.levels_on(side)[p].queue;
                let keys = queue.keys(self.nodes@);
                &&& forall|k: OrderKey| #[trigger]
                    left.queue.keys(now.nodes@).contains(k) ==> keys.contains(k)
                &&& forall|k: OrderKey| #[trigger]
                    now.nodes@.contains_key(k) <==> self.nodes@.contains_key(k) && (keys.contains(k)
                        ==> left.queue.keys(now.nodes@).contains(k))
                &&& forall|k: OrderKey| #[trigger]
                    now.nodes@.contains_key(k) ==> same_but_for_remainder(
                        self.nodes@[k].order,
                        now.nodes@[k].order,
                    )
                &&& order_queue::same_outside(self.nodes@, now.nodes@, keys)
                &&& forall|id: Seq<char>| #[trigger]
                    now.index@.contains_key(id) <==> self.index@.contains_key(id) && (has_name(
                        queue.orders(self.nodes@),
                        id,
                    ) ==> has_name(left.queue.orders(now.nodes@), id))
            }),
            now.index.wf(),
            forall|id: Seq<char>| #[trigger]
                now.index@.contains_key(id) ==> now.index@[id] == self.index@[id],
        ensures
            now.wf(),
            now.venue() == self.venue(),
            now.state() == self.state().with_resting(
                side,
                if left.queue.len() == 0 {
                    self.state().resting(side).remove(p)
                } else {
                    self.state().resting(side).insert(p, left.queue.orders(now.nodes@))
                },
            ),
    {
        let before = self.nodes@;
        let after = now.nodes@;
        let levels = self.store.levels_on(side);
        let met = now.store.levels_on(side);
        let queue = levels[p].queue;
        let keys = queue.keys(before);
        let orders = queue.orders(before);
        let left_keys = left.queue.keys(after);
        let left_orders = left.queue.orders(after);
        let lot = self.matcher.spec_lot_size();
        let other = model::opposite(side);
        assert(storage::levels_sound(levels, before, side));
        assert(storage::levels_sound(self.store.levels_on(other), before, other));
        assert(queue.chain(before, keys));
        order_queue::lemma_chain_distinct(queue, before, keys);
        assert(left.queue.chain(after, left_keys));
        order_queue::lemma_chain_distinct(left.queue, after, left_keys);
        // the level itself, and those beside it
        if left.queue.len() > 0 {
            assert(storage::level_sound(left, after, side, p)) by {
                assert forall|k: OrderKey| #[trigger] left_keys.contains(k) implies storage::at_home(
                    after[k].order,
                    side,
                    p,
                ) by {
                    assert(keys.contains(k));
                    let i = keys.index_of(k);
                    assert(keys[i] == k);
                    assert(before.contains_key(k));
                    assert(after.contains_key(k));
                    assert(storage::at_home(before[k].order, side, p));
                }
            }
        }
        assert(met.remove(p) =~= levels.remove(p));
        assert forall|k: OrderKey| #[trigger] keys.contains(k) implies storage::at_home(
            before[k].order,
            side,
            p,
        ) by {}
        storage::lemma_level_put(levels, met, before, after, side, p, keys);
        storage::lemma_levels_framed(
            self.store.levels_on(other),
            before,
            after,
            other,
            keys,
            side,
            p,
        );
        assert forall|s: Side| storage::levels_sound(
            #[trigger] now.store.levels_on(s),
            after,
            s,
        ) by {
            assert(s == side || s == other);
        }
        assert forall|s: Side, q: u64, k: OrderKey| #[trigger]
            storage::seated(now.store.levels_on(s), after, q, k) <==> storage::seated(
                self.store.levels_on(s),
                before,
                q,
                k,
            ) && (s == side && q == p ==> left_keys.contains(k)) by {
            assert(s == side || s == other);
            if s == side && q == p {
                if left.queue.len() > 0 {
                    assert(met[p] == left);
                } else {
                    assert(!met.contains_key(p));
                    assert(left_keys.len() == 0);
                    assert(!left_keys.contains(k));
                }
            }
        }
        // names and keys of the level
        assert forall|k: OrderKey| #[trigger] keys.contains(k) implies self.index@.contains_key(
            before[k].order.exchange_id@,
        ) && self.index@[before[k].order.exchange_id@] == (OrderAddress::Book {
            side,
            price: model::price_of(p),
            key: k,
        }) && before.contains_key(k) && has_name(orders, before[k].order.exchange_id@) by {
            let i = keys.index_of(k);
            assert(keys[i] == k);
            assert(storage::seated(levels, before, p, k));
            assert(name_at(orders, before[k].order.exchange_id@, i));
        }
        assert forall|id: Seq<char>| has_name(orders, id) implies self.index@.contains_key(id)
            && #[trigger] self.index@[id] is Book && self.index@[id]->Book_side == side
            && self.index@[id]->price == model::price_of(p) by {
            let i = choose|i: int| #[trigger] name_at(orders, id, i);
            assert(keys.contains(keys[i]));
        }
        assert forall|k: OrderKey| #[trigger] left_keys.contains(k) implies has_name(
            left_orders,
            after[k].order.exchange_id@,
        ) by {
            let i = left_keys.index_of(k);
            assert(left_keys[i] == k);
            assert(name_at(left_orders, after[k].order.exchange_id@, i));
        }
        assert forall|s: Side, q: u64, k: OrderKey| #[trigger]
            storage::seated(now.store.levels_on(s), after, q, k) implies {
            let id = after[k].order.exchange_id@;
            &&& now.index@.contains_key(id)
            &&& now.index@[id] == (OrderAddress::Book {
                side: s,
                price: model::price_of(q),
                key: k,
            })
            &&& in_lots(lot, after[k].order)
        } by {
            assert(storage::seated(self.store.levels_on(s), before, q, k));
            self.lemma_seated(s, q, k);
            now.lemma_seated(s, q, k);
            let id = after[k].order.exchange_id@;
            assert(id == before[k].order.exchange_id@);
            if s == side && q == p {
                assert(left_keys.contains(k));
                let i = left_keys.index_of(k);
                assert(left_keys[i] == k);
                assert(left_orders[i] == after[k].order);
            } else {
                if has_name(orders, id) {
                    assert(self.index@[id]->Book_side == side);
                    assert(model::price_of(q) == model::price_of(p));
                    assert(model::price_of(q).minor() == q);
                    assert(model::price_of(p).minor() == p);
                }
                assert(!has_name(orders, id));
                assert(now.index@.contains_key(id));
                assert(!keys.contains(k)) by {
                    if keys.contains(k) {
                        assert(storage::seated(levels, before, p, k));
                        storage::lemma_one_seat(
                            self.store.levels_on(s),
                            levels,
                            before,
                            s,
                            q,
                            side,
                            p,
                            k,
                        );
                    }
                }
                assert(after[k] == before[k]);
            }
        }
        assert forall|s: Side, t: u64, i: int| #[trigger] orderbook::placed(
            now.stops_on(s),
            t,
            i,
        ) implies {
            let waiting = now.stops_on(s)[t][i];
            &&& orderbook::waits_at(waiting, s, t)
            &&& now.index@.contains_key(waiting.exchange_id@)
            &&& now.index@[waiting.exchange_id@] == (OrderAddress::StopBook {
                side: s,
                trigger: model::price_of(t),
            })
            &&& in_lots(lot, waiting)
        } by {
            assert(orderbook::placed(self.stops_on(s), t, i));
            let id = self.stops_on(s)[t][i].exchange_id@;
            if has_name(orders, id) {
                assert(self.index@[id] is Book);
            }
            assert(self.index@.contains_key(id));
            assert(!has_name(orders, id));
            assert(now.index@.contains_key(id));
            assert(now.stops_on(s)[t][i] == self.stops_on(s)[t][i]);
            assert(in_lots(lot, self.stops_on(s)[t][i]));
        }
        assert forall|s: Side, t: u64| #[trigger] now.stops_on(s).contains_key(t) implies self.stops_on(
            s,
        ).contains_key(t) by {}
        assert forall|id: Seq<char>| #[trigger] now.index@.contains_key(id) implies now.live_at(
            id,
            now.index@[id],
        ) by {
            assert(self.index@.contains_key(id));
            assert(self.live_at(id, self.index@[id]));
            match self.index@[id] {
                OrderAddress::Book { side: s, price, key: k } => {
                    let q = price.minor();
                    self.lemma_seated(s, q, k);
                    if s == side && q == p {
                        assert(keys.contains(k));
                        assert(has_name(orders, id));
                        let i = choose|i: int| #[trigger] name_at(left_orders, id, i);
                        let k2 = left_keys[i];
                        assert(left_keys.contains(k2));
                        assert(keys.contains(k2));
                        assert(after.contains_key(k2));
                        assert(before[k2].order.exchange_id@ == id);
                        assert(k2 == k);
                    } else {
                        assert(!keys.contains(k)) by {
                            if keys.contains(k) {
                                assert(storage::seated(levels, before, p, k));
                                storage::lemma_one_seat(
                                    self.store.levels_on(s),
                                    levels,
                                    before,
                                    s,
                                    q,
                                    side,
                                    p,
                                    k,
                                );
                            }
                        }
                        assert(after.contains_key(k) && after[k] == before[k]);
                    }
                    assert(storage::seated(now.store.levels_on(s), after, q, k));
                },
                OrderAddress::StopBook { side: s, trigger } => {},
            }
        }
        lemma_no_more_nodes(before, after);
        // what the book holds
        assert(now.venue() =~= self.venue());
        let was_held = self.state().resting(side);
        let held = now.state().resting(side);
        assert(was_held == storage::orders_on(levels, before));
        assert(held == storage::orders_on(met, after));
        let expected = if left.queue.len() == 0 {
            was_held.remove(p)
        } else {
            was_held.insert(p, left_orders)
        };
        assert(held =~= expected) by {
            assert(held.remove(p) == was_held.remove(p));
            if left.queue.len() == 0 {
                assert(held =~= held.remove(p));
            } else {
                assert(held[p] == left_orders);
                assert(held =~= held.remove(p).insert(p, left_orders));
                assert(expected =~= was_held.remove(p).insert(p, left_orders));
            }
        }
        assert(now.state() =~= self.state().with_resting(side, expected));
        assert(model::in_line(now.state())) by {
            assert forall|s: Side, q: u64| #[trigger]
                now.state().resting(s).contains_key(q) implies model::queue_in_line(
                now.state().resting(s)[q],
                now.state().next_arrival,
            ) by {
                if !(s == side && q == p) {
                    assert(self.state().resting(s).contains_key(q));
                }
            }
        }
    }

    /// Lets a taker meet the level of a side at a price. Says whether the level
    /// is gone.
    fn match_level(
        &mut self,
        side: Side,
        price: Price,
        taker: &mut Order,
        trades: &mut Vec<Trade>,
        cancelled: &mut Vec<ExchangeId>,
    ) -> (r: bool)
        requires
            old(self).wf(),
            old(self).state().resting(side).contains_key(price.minor()),
            in_lots(old(self).venue().matcher.spec_lot_size(), *old(taker)),
        ensures
            final(self).wf(),
            final(self).venue() == old(self).venue(),
            in_lots(old(self).venue().matcher.spec_lot_size(), *final(taker)),
            ({
                let p = price.minor();
                let levels = old(self).state().resting(side);
                let own = order_queue::owned(levels[p], old(taker).client_id@);
                let others = order_queue::not_owned(levels[p], old(taker).client_id@);
                let fills = model::level_fills(
                    old(self).venue().matcher,
                    others,
                    old(taker).remaining_quantity.base() as int,
                    old(self).state().next_arrival,
                );
                let left = model::level_left(
                    others,
                    fills,
                    old(taker).remaining_quantity.base() - sums::sum(allocation::taken(fills)),
                );
                &&& *final(taker) == model::reduced(
                    *old(taker),
                    sums::sum(allocation::taken(fills)),
                )
                &&& sums::sum(allocation::taken(fills)) <= old(taker).remaining_quantity.base()
                &&& final(trades)@ == old(trades)@ + model::trades_of(
                    *old(taker),
                    others,
                    price,
                    fills,
                )
                &&& final(cancelled)@ == old(cancelled)@ + model::names(own)
                &&& r == (left.len() == 0)
                &&& final(self).state() == old(self).state().with_resting(
                    side,
                    if left.len() == 0 {
                        levels.remove(p)
                    } else {
                        levels.insert(p, left)
                    },
                )
            }),
    {
        let ghost was = *self;
        let ghost p = price.minor();
        let ghost queue = self.store.levels_on(side)[p].queue;
        proof {
            self.lemma_prices(side);
            assert(self.store.levels_on(side).dom().contains(p));
            assert(storage::levels_sound(self.store.levels_on(side), self.nodes@, side));
            self.lemma_queue_names(side, p);
            self.lemma_level_lots(side, p);
            assert(self.state().resting(side)[p] == queue.orders(self.nodes@));
        }
        let now: u128 = self.next_arrival as u128;
        let level = self.store.level_mut(side, price).expect("level must exist");
        match_queue(
            &mut level.queue,
            &mut self.nodes,
            &mut self.index,
            &self.matcher,
            taker,
            price,
            now,
            trades,
            cancelled,
        );
        let emptied = level.is_empty();
        let ghost left = *level;
        if emptied {
            self.store.remove_level(side, price);
        }
        proof {
            assert(self.store.levels_on(side) =~= (if left.queue.len() == 0 {
                was.store.levels_on(side).remove(p)
            } else {
                was.store.levels_on(side).insert(p, left)
            }));
            assert(self.store.levels_on(model::opposite(side)) =~= was.store.levels_on(
                model::opposite(side),
            ));
            let orders = queue.orders(was.nodes@);
            let others = order_queue::not_owned(orders, old(taker).client_id@);
            assert(was.state().resting(side).contains_key(p));
            model::lemma_others_in_line(
                orders,
                old(taker).client_id@,
                was.next_arrival as int,
            );
            let fills = model::level_fills(
                was.matcher,
                others,
                old(taker).remaining_quantity.base() as int,
                was.state().next_arrival,
            );
            let rest = old(taker).remaining_quantity.base() - sums::sum(allocation::taken(fills));
            model::lemma_left_in_line(
                others,
                fills,
                model::passed(others, fills, rest),
                was.next_arrival as int,
            );
            was.lemma_level_met(*self, side, p, left);
            assert(left.queue.chain(self.nodes@, left.queue.keys(self.nodes@)));
        }
        emptied
    }

    pub(crate) proof fn lemma_level_lots(&self, side: Side, p: u64)
        requires
            self.wf(),
            self.store.levels_on(side).contains_key(p),
        ensures
            lots_fit_queue(
                self.matcher.spec_lot_size(),
                self.store.levels_on(side)[p].queue.orders(self.nodes@),
            ),
    {
        let levels = self.store.levels_on(side);
        let keys = levels[p].queue.keys(self.nodes@);
        assert forall|i: int| 0 <= i < keys.len() implies in_lots(
            self.matcher.spec_lot_size(),
            #[trigger] levels[p].queue.orders(self.nodes@)[i],
        ) by {
            assert(keys.contains(keys[i]));
            assert(storage::seated(levels, self.nodes@, p, keys[i]));
        }
    }
}

/// What a sweep comes to, given what it has done so far and what it has yet to
/// do.
pub open spec fn resumed(trades: Seq<Trade>, cancelled: Seq<Order>, rest: Sweep) -> Sweep {
    Sweep {
        levels: rest.levels,
        remaining: rest.remaining,
        trades: trades + rest.trades,
        cancelled: cancelled + rest.cancelled,
    }
}

/// A sweep that has ended.
pub open spec fn at_rest(levels: Map<u64, Seq<Order>>, remaining: int) -> Sweep {
    Sweep { levels, remaining, trades: Seq::empty(), cancelled: Seq::empty() }
}

/// Trades do not depend on what is left of the taker.
proof fn lemma_trades_of_same(
    a: Order,
    b: Order,
    queue: Seq<Order>,
    price: Price,
    fills: Seq<Fill>,
)
    requires
        same_but_for_remainder(a, b),
    ensures
        model::trades_of(a, queue, price, fills) == model::trades_of(b, queue, price, fills),
{
    assert(model::trades_of(a, queue, price, fills) =~= model::trades_of(b, queue, price, fills));
}

impl<M: MatchingAlgorithm, S: OrderBookStore> OrderBook<M, S> {
    /// Walks the side opposite to the taker, best price first, and fills the
    /// taker as long as the prices are within its limit. Orders of the taker's own
    /// client are cancelled on the way.
    fn fill_against(&mut self, taker: &mut Order, limit: Option<Price>) -> (r: (
        Vec<Trade>,
        Vec<ExchangeId>,
    ))
        requires
            old(self).wf(),
            in_lots(old(self).venue().matcher.spec_lot_size(), *old(taker)),
        ensures
            final(self).wf(),
            final(self).venue() == old(self).venue(),
            in_lots(old(self).venue().matcher.spec_lot_size(), *final(taker)),
            ({
                let swept = model::sweep_for(
                    old(self).venue(),
                    old(self).state(),
                    *old(taker),
                    limit,
                );
                &&& final(self).state() == model::swept_state(
                    old(self).state(),
                    *old(taker),
                    swept,
                )
                &&& 0 <= swept.remaining <= old(taker).remaining_quantity.base()
                &&& *final(taker) == (Order {
                    remaining_quantity: allocation::qty_of(swept.remaining),
                    ..*old(taker)
                })
                &&& r.0@ == swept.trades
                &&& r.1@ == model::names(swept.cancelled)
            }),
    {
        let ghost was = *self;
        let ghost taker0 = *taker;
        let ghost venue = self.venue();
        let ghost now = self.state().next_arrival;
        let ghost whole = model::sweep_for(venue, self.state(), taker0, limit);
        let side = match taker.side {
            Side::Bid => Side::Ask,
            Side::Ask => Side::Bid,
        };
        let mut trades: Vec<Trade> = Vec::new();
        let mut cancelled: Vec<ExchangeId> = Vec::new();
        let ghost mut struck: Seq<Order> = Seq::empty();
        let mut open: bool = true;
        proof {
            self.lemma_prices(side);
            assert(self.state().with_resting(side, self.state().resting(side)) =~= self.state());
            let rest = model::sweep(
                venue.matcher,
                self.state().resting(side),
                taker0,
                limit,
                taker0.remaining_quantity.base() as int,
                now,
            );
            assert(resumed(trades@, struck, rest) =~= rest);
            assert(cancelled@ =~= model::names(struck));
        }
        while open && !taker.remaining_quantity.is_zero()
            invariant
                self.wf(),
                self.venue() == venue,
                venue == was.venue(),
                self.state() == was.state().with_resting(side, self.state().resting(side)),
                self.state().next_arrival == now,
                side == model::opposite(taker0.side),
                same_but_for_remainder(taker0, *taker),
                taker.remaining_quantity.base() <= taker0.remaining_quantity.base(),
                in_lots(venue.matcher.spec_lot_size(), *taker),
                cancelled@ == model::names(struck),
                whole == resumed(
                    trades@,
                    struck,
                    if open {
                        model::sweep(
                            venue.matcher,
                            self.state().resting(side),
                            taker0,
                            limit,
                            taker.remaining_quantity.base() as int,
                            now,
                        )
                    } else {
                        at_rest(
                            self.state().resting(side),
                            taker.remaining_quantity.base() as int,
                        )
                    },
                ),
            decreases
                    self.state().resting(side).dom().len() + (if open {
                        1nat
                    } else {
                        0nat
                    }),
        {
            let ghost levels = self.state().resting(side);
            let ghost rest = model::sweep(
                venue.matcher,
                levels,
                taker0,
                limit,
                taker.remaining_quantity.base() as int,
                now,
            );
            let ghost stopped = at_rest(levels, taker.remaining_quantity.base() as int);
            let ghost trades1 = trades@;
            let ghost struck1 = struck;
            let ghost taker1 = *taker;
            proof {
                self.lemma_prices(side);
            }
            let price = match self.best_of(side) {
                Some(price) => price,
                None => {
                    proof {
                        assert(rest == stopped);
                    }
                    open = false;
                    continue;
                },
            };
            let ghost p = price.minor();
            let within = match limit {
                None => true,
                Some(limit) => match taker.side {
                    Side::Bid => price.minor() <= limit.minor(),
                    Side::Ask => price.minor() >= limit.minor(),
                },
            };
            proof {
                assert(storage::best(levels.dom(), side) == Some(p));
                assert(levels.contains_key(p));
                assert(within == model::acceptable(taker0.side, limit, p));
            }
            if !within {
                proof {
                    assert(rest == stopped);
                }
                open = false;
                continue;
            }
            open = self.match_level(side, price, taker, &mut trades, &mut cancelled);
            proof {
                let own = order_queue::owned(levels[p], taker0.client_id@);
                struck = struck1 + own;
                assert(cancelled@ =~= model::names(struck));
                let others = order_queue::not_owned(levels[p], taker0.client_id@);
                let fills = model::level_fills(
                    venue.matcher,
                    others,
                    taker1.remaining_quantity.base() as int,
                    now,
                );
                let took = allocation::taken(fills);
                let left = model::level_left(
                    others,
                    fills,
                    taker1.remaining_quantity.base() - sums::sum(took),
                );
                assert forall|i: int| 0 <= i < took.len() implies 0 <= #[trigger] took[i] by {}
                sums::lemma_sum_nonneg(took);
                lemma_trades_of_same(taker0, taker1, others, price, fills);
                let printed = model::trades_of(taker0, others, price, fills);
                assert(price == model::price_of(p));
                let remaining = taker1.remaining_quantity.base() - sums::sum(took);
                assert(taker.remaining_quantity.base() == remaining);
                assert(self.state().resting(side) == (if left.len() == 0 {
                    levels.remove(p)
                } else {
                    levels.insert(p, left)
                }));
                if left.len() == 0 {
                    assert(levels.remove(p).dom() =~= levels.dom().remove(p));
                    let next = model::sweep(
                        venue.matcher,
                        levels.remove(p),
                        taker0,
                        limit,
                        remaining,
                        now,
                    );
                    assert(rest == resumed(printed, own, next));
                    assert(resumed(trades1, struck1, rest) =~= resumed(
                        trades1 + printed,
                        struck1 + own,
                        next,
                    ));
                } else {
                    let ended = at_rest(levels.insert(p, left), remaining);
                    assert(rest =~= resumed(printed, own, ended));
                    assert(resumed(trades1, struck1, rest) =~= resumed(
                        trades1 + printed,
                        struck1 + own,
                        ended,
                    ));
                    assert(levels.insert(p, left).dom() =~= levels.dom());
                }
                assert(self.state() =~= was.state().with_resting(
                    side,
                    self.state().resting(side),
                ));
            }
        }
        proof {
            let levels = self.state().resting(side);
            self.lemma_prices(side);
            let stopped = at_rest(levels, taker.remaining_quantity.base() as int);
            if open {
                assert(model::sweep(
                    venue.matcher,
                    levels,
                    taker0,
                    limit,
                    taker.remaining_quantity.base() as int,
                    now,
                ) == stopped);
            }
            assert(whole.trades =~= trades@);
            assert(whole.cancelled =~= struck);
        }
        (trades, cancelled)
    }
}

// ---------------------------------------------------------------- the dry run

/// One more order adds what is left of it, unless it is the client's own.
proof fn lemma_others_step(orders: Seq<Order>, client: Seq<char>, j: int)
    requires
        0 <= j < orders.len(),
    ensures
        types::total_remaining(order_queue::not_owned(orders.take(j + 1), client))
            == types::total_remaining(order_queue::not_owned(orders.take(j), client)) + (if orders[j].client_id@
            == client {
            0
        } else {
            orders[j].remaining_quantity.base() as int
        }),
{
    assert(orders.take(j + 1).drop_last() =~= orders.take(j));
    let before = order_queue::not_owned(orders.take(j), client);
    if orders[j].client_id@ != client {
        let after = before.push(orders[j]);
        assert(types::remainders(after) =~= types::remainders(before).push(
            orders[j].remaining_quantity.base() as int,
        ));
        sums::lemma_sum_push(
            types::remainders(before),
            orders[j].remaining_quantity.base() as int,
        );
    }
}

pub proof fn lemma_total_nonneg(orders: Seq<Order>)
    ensures
        types::total_remaining(orders) >= 0,
{
    let all = types::remainders(orders);
    assert forall|i: int| 0 <= i < all.len() implies #[trigger] all[i] >= 0 by {}
    sums::lemma_sum_nonneg(all);
}

/// What others hold in part of a queue is no more than what they hold in all of
/// it.
proof fn lemma_others_prefix(orders: Seq<Order>, client: Seq<char>, j: int)
    requires
        0 <= j <= orders.len(),
    ensures
        0 <= types::total_remaining(order_queue::not_owned(orders.take(j), client))
            <= types::total_remaining(order_queue::not_owned(orders, client)),
    decreases orders.len() - j,
{
    lemma_total_nonneg(order_queue::not_owned(orders.take(j), client));
    if j < orders.len() {
        lemma_others_step(orders, client, j);
        lemma_others_prefix(orders, client, j + 1);
    } else {
        assert(orders.take(j) =~= orders);
    }
}

pub proof fn lemma_reachable_nonneg(
    levels: Map<u64, Seq<Order>>,
    taker: Order,
    limit: Option<Price>,
)
    requires
        levels.dom().finite(),
    ensures
        model::reachable(levels, taker, limit) >= 0,
    decreases levels.dom().len(),
{
    let found = storage::best(levels.dom(), model::opposite(taker.side));
    if found is Some && levels.contains_key(found->0) && model::acceptable(
        taker.side,
        limit,
        found->0,
    ) {
        lemma_total_nonneg(order_queue::not_owned(levels[found->0], taker.client_id@));
        assert(levels.remove(found->0).dom() =~= levels.dom().remove(found->0));
        lemma_reachable_nonneg(levels.remove(found->0), taker, limit);
    }
}

/// Adds up what others than a client hold in a queue, up to what is needed.
fn count_others(
    orders: &Vec<&Order>,
    client: &ClientId,
    needed: u64,
    so_far: u128,
    Ghost(queue): Ghost<Seq<Order>>,
) -> (r: u128)
    requires
        orders@.len() == queue.len(),
        forall|i: int| 0 <= i < orders@.len() ==> *#[trigger] orders@[i] == queue[i],
        so_far < needed,
    ensures
        ({
            let total = so_far + types::total_remaining(order_queue::not_owned(queue, client@));
            &&& r <= total
            &&& r < needed ==> r == total
        }),
{
    let mut available: u128 = so_far;
    let mut i: usize = 0;
    proof {
        assert(queue.take(0) =~= Seq::<Order>::empty());
        assert(types::remainders(order_queue::not_owned(queue.take(0), client@)) =~= Seq::<
            int,
        >::empty());
    }
    while i < orders.len() && available < needed as u128
        invariant
            i <= orders@.len(),
            orders@.len() == queue.len(),
            forall|j: int| 0 <= j < orders@.len() ==> *#[trigger] orders@[j] == queue[j],
            available == so_far + types::total_remaining(
                order_queue::not_owned(queue.take(i as int), client@),
            ),
        decreases orders@.len() - i,
    {
        let order: &Order = orders[i];
        proof {
            assert(*orders@[i as int] == queue[i as int]);
            lemma_others_step(queue, client@, i as int);
        }
        if !order.client_id.same(client) {
            available = available + order.remaining_quantity.base() as u128;
        }
        i = i + 1;
    }
    proof {
        lemma_others_prefix(queue, client@, i as int);
        if i == orders@.len() {
            assert(queue.take(i as int) =~= queue);
        }
    }
    available
}

impl<M: MatchingAlgorithm, S: OrderBookStore> OrderBook<M, S> {
    /// How much of a taker the book could fill right now within a limit, without
    /// touching anything. Orders of the taker's own client do not count, and the
    /// count stops once it comes to what the taker needs.
    fn fillable_quantity(&self, taker: &Order, limit: Price) -> (r: u128)
        requires
            self.wf(),
        ensures
            ({
                let reachable = model::reachable(
                    self.state().resting(model::opposite(taker.side)),
                    *taker,
                    Some(limit),
                );
                &&& r <= reachable
                &&& r < taker.remaining_quantity.base() ==> r == reachable
            }),
    {
        let side = match taker.side {
            Side::Bid => Side::Ask,
            Side::Ask => Side::Bid,
        };
        let ghost all = self.state().resting(side);
        let ghost ranked = self.state().ranked(side);
        let ghost mut rest = all;
        let levels: Vec<PriceLevelView> = self.levels(side);
        let needed: u64 = taker.remaining_quantity.base();
        let mut available: u128 = 0;
        let mut i: usize = 0;
        proof {
            self.lemma_prices(side);
            assert(ranked.skip(0) =~= ranked);
            lemma_reachable_nonneg(all, *taker, Some(limit));
        }
        while i < levels.len() && available < needed as u128
            invariant
                i <= levels@.len(),
                levels@.len() == ranked.len(),
                side == model::opposite(taker.side),
                all == self.state().resting(side),
                needed == taker.remaining_quantity.base(),
                forall|j: int|
                    0 <= j < levels@.len() ==> orderbook::shows(
                        #[trigger] levels@[j],
                        self.state(),
                        side,
                        ranked[j],
                    ),
                rest.dom().finite(),
                forall|p: u64| #[trigger]
                    rest.contains_key(p) ==> all.contains_key(p) && rest[p] == all[p],
                storage::ranked(rest.dom(), side) == ranked.skip(i as int),
                available <= model::reachable(all, *taker, Some(limit)),
                available < needed ==> available + model::reachable(rest, *taker, Some(limit))
                    == model::reachable(all, *taker, Some(limit)),
            decreases levels@.len() - i,
        {
            let level: &PriceLevelView = &levels[i];
            let price = level.price;
            let ghost p = ranked[i as int];
            proof {
                assert(orderbook::shows(levels@[i as int], self.state(), side, p));
                storage::lemma_ranked(rest.dom(), side);
                assert(ranked.skip(i as int)[0] == p);
                assert(rest.dom().len() > 0);
                storage::lemma_best_exists(rest.dom(), side);
                assert(storage::best(rest.dom(), side) == Some(p));
                assert(rest.dom().contains(p));
                assert(rest.contains_key(p));
                assert(rest.remove(p).dom() =~= rest.dom().remove(p));
                assert(ranked.skip(i as int) =~= seq![p] + storage::ranked(
                    rest.dom().remove(p),
                    side,
                ));
                assert(storage::ranked(rest.dom().remove(p), side) =~= ranked.skip(i as int).skip(
                    1,
                ));
                assert(ranked.skip(i as int).skip(1) =~= ranked.skip(i + 1));
                lemma_reachable_nonneg(rest, *taker, Some(limit));
                lemma_reachable_nonneg(rest.remove(p), *taker, Some(limit));
                lemma_total_nonneg(order_queue::not_owned(rest[p], taker.client_id@));
            }
            let within = match taker.side {
                Side::Bid => price.minor() <= limit.minor(),
                Side::Ask => price.minor() >= limit.minor(),
            };
            if !within {
                return available;
            }
            let orders: Vec<&Order> = level.orders();
            available = count_others(
                &orders,
                &taker.client_id,
                needed,
                available,
                Ghost(rest[p]),
            );
            proof {
                rest = rest.remove(p);
            }
            i = i + 1;
        }
        proof {
            if available < needed {
                assert(ranked.skip(i as int).len() == 0);
                storage::lemma_ranked(rest.dom(), side);
                assert(rest.dom().len() == 0);
                assert(model::reachable(rest, *taker, Some(limit)) == 0);
            }
        }
        available
    }
}

// ---------------------------------------------------------------- one execution

/// What one execution came to.
#[derive(Debug)]
struct MatchingResult {
    trades: Vec<Trade>,
    cancelled: Vec<ExchangeId>,
    outcome: SubmitOutcome,
}

impl MatchingResult {
    /// The report of the order of this name.
    spec fn report(self, order_id: ExchangeId) -> Report {
        Report {
            order_id,
            trades: self.trades@,
            outcome: self.outcome,
            cancelled: self.cancelled@,
        }
    }
}

impl ExecutionReport {
    /// The report without what it triggered.
    pub open spec fn own(self) -> Report {
        Report {
            order_id: self.order_id,
            trades: self.trades@,
            outcome: self.outcome,
            cancelled: self.cancelled@,
        }
    }
}

/// What a triggered stop becomes. Its name, side, quantities and timestamp stay.
fn activate(order: Order) -> (r: Order)
    ensures
        r == model::activated(order),
{
    let mut order = order;
    order.order_type = match order.order_type {
        OrderType::StopMarket { .. } => OrderType::Market,
        OrderType::StopLimit { price, tif, .. } => OrderType::Limit { price, tif },
        other => other,
    };
    order
}

/// Whether a step of the engine, before the price of its last trade is noted, is
/// this step of the model.
spec fn carried_out(
    step: Step<Report>,
    order_id: ExchangeId,
    before: BookState,
    after: BookState,
    result: Result<MatchingResult, OrderBookError>,
) -> bool {
    match result {
        Ok(done) => {
            &&& step.result == Ok::<Report, OrderBookError>(done.report(order_id))
            &&& step.state == model::noted(after, done.trades@)
            &&& after.last_trade == before.last_trade
        },
        Err(error) => {
            &&& step.result == Err::<Report, OrderBookError>(error)
            &&& step.state == after
        },
    }
}

impl<M: MatchingAlgorithm, S: OrderBookStore> OrderBook<M, S> {
    /// Fills a limit order as far as prices are within its limit, and rests or
    /// discards what is left of it.
    fn process_limit_order(&mut self, order: Order, limit: Price, tif: TimeInForce) -> (r: Result<
        MatchingResult,
        OrderBookError,
    >)
        requires
            old(self).wf(),
            in_lots(old(self).venue().matcher.spec_lot_size(), order),
            model::limit_step(
                old(self).venue(),
                old(self).state(),
                order,
                limit,
                tif,
            ).state.next_arrival <= u32::MAX,
        ensures
            final(self).wf(),
            final(self).venue() == old(self).venue(),
            carried_out(
                model::limit_step(old(self).venue(), old(self).state(), order, limit, tif),
                order.exchange_id,
                old(self).state(),
                final(self).state(),
                r,
            ),
    {
        let mut order = order;
        let (trades, cancelled) = self.fill_against(&mut order, Some(limit));
        if order.remaining_quantity.is_zero() {
            return Ok(MatchingResult { trades, cancelled, outcome: SubmitOutcome::Filled });
        }
        let outcome = match tif {
            TimeInForce::GTC => {
                let outcome = if trades.len() == 0 {
                    SubmitOutcome::Rested
                } else {
                    SubmitOutcome::PartiallyFilledAndRested
                };
                if let Err(error) = self.add_order(order) {
                    return Err(error);
                }
                outcome
            },
            TimeInForce::IOC => SubmitOutcome::Killed,
            TimeInForce::FOK => return Err(OrderBookError::Unsupported),
        };
        Ok(MatchingResult { trades, cancelled, outcome })
    }

    /// Fills a fill-or-kill order completely, or not at all: whether it can be
    /// filled is decided before anything is touched.
    fn process_fok_limit_order(&mut self, order: Order, limit: Price) -> (r: Result<
        MatchingResult,
        OrderBookError,
    >)
        requires
            old(self).wf(),
            in_lots(old(self).venue().matcher.spec_lot_size(), order),
        ensures
            final(self).wf(),
            final(self).venue() == old(self).venue(),
            carried_out(
                model::fok_step(old(self).venue(), old(self).state(), order, limit),
                order.exchange_id,
                old(self).state(),
                final(self).state(),
                r,
            ),
    {
        let ghost was = *self;
        let mut order = order;
        let available = self.fillable_quantity(&order, limit);
        if available < order.remaining_quantity.base() as u128 {
            let result = MatchingResult {
                trades: Vec::new(),
                cancelled: Vec::new(),
                outcome: SubmitOutcome::Killed,
            };
            proof {
                assert(result.report(order.exchange_id) =~= model::fok_step(
                    was.venue(),
                    was.state(),
                    order,
                    limit,
                ).result->Ok_0);
            }
            return Ok(result);
        }
        let (trades, cancelled) = self.fill_against(&mut order, Some(limit));
        Ok(MatchingResult { trades, cancelled, outcome: SubmitOutcome::Filled })
    }

    /// Fills a market order as far as there is anything to fill it with, and
    /// discards what is left of it.
    fn process_market_order(&mut self, order: Order) -> (r: Result<MatchingResult, OrderBookError>)
        requires
            old(self).wf(),
            in_lots(old(self).venue().matcher.spec_lot_size(), order),
        ensures
            final(self).wf(),
            final(self).venue() == old(self).venue(),
            carried_out(
                model::market_step(old(self).venue(), old(self).state(), order),
                order.exchange_id,
                old(self).state(),
                final(self).state(),
                r,
            ),
    {
        let mut order = order;
        let (trades, cancelled) = self.fill_against(&mut order, None);
        let outcome = if order.remaining_quantity.is_zero() {
            SubmitOutcome::Filled
        } else {
            SubmitOutcome::Killed
        };
        Ok(MatchingResult { trades, cancelled, outcome })
    }

    /// Executes one order that is no stop.
    fn execute_now(&mut self, order: Order) -> (r: Result<ExecutionReport, OrderBookError>)
        requires
            old(self).wf(),
            in_lots(old(self).venue().matcher.spec_lot_size(), order),
            order.order_type.trigger() is None,
            model::plain_step(
                old(self).venue(),
                old(self).state(),
                order,
            ).state.next_arrival <= u32::MAX,
        ensures
            final(self).wf(),
            final(self).venue() == old(self).venue(),
            executed(
                model::plain_step(old(self).venue(), old(self).state(), order),
                final(self).state(),
                r,
            ),
    {
        let order_id = order.exchange_id.clone();
        let done = match order.order_type {
            OrderType::Limit { price, tif } => match tif {
                TimeInForce::GTC => self.process_limit_order(order, price, tif),
                TimeInForce::IOC => self.process_limit_order(order, price, tif),
                TimeInForce::FOK => self.process_fok_limit_order(order, price),
            },
            _ => self.process_market_order(order),
        };
        let result = match done {
            Ok(result) => result,
            Err(error) => return Err(error),
        };
        let ghost matched = *self;
        if result.trades.len() > 0 {
            self.last_trade_price = Some(result.trades[result.trades.len() - 1].price);
        }
        proof {
            matched.lemma_noted(*self);
            assert(self.state() =~= model::noted(matched.state(), result.trades@));
        }
        let report = ExecutionReport {
            order_id,
            trades: result.trades,
            outcome: result.outcome,
            cancelled: result.cancelled,
            triggered: Vec::new(),
        };
        Ok(report)
    }

    /// The price of the last trade is no part of the invariant.
    proof fn lemma_noted(&self, now: Self)
        requires
            self.wf(),
            now == (OrderBook { last_trade_price: now.last_trade_price, ..*self }),
        ensures
            now.wf(),
            now.venue() == self.venue(),
    {
        self.lemma_same_parts(now);
    }

    /// The counters and the price of the last trade are no part of the invariant,
    /// as long as the arrivals do not go back.
    proof fn lemma_same_parts(&self, now: Self)
        requires
            self.wf(),
            now == (OrderBook {
                last_trade_price: now.last_trade_price,
                next_seq: now.next_seq,
                ..*self
            }),
        ensures
            now.wf(),
            now.venue() == self.venue(),
    {
        assert(now.venue() =~= self.venue());
        assert forall|s: Side| #[trigger] now.stops_on(s) == self.stops_on(s) by {}
        assert forall|s: Side, p: u64| #[trigger] now.state().resting(s).contains_key(p) implies self.state().resting(
            s,
        ).contains_key(p) by {}
        assert forall|s: Side, p: u64, k: OrderKey| #[trigger]
            storage::seated(now.store.levels_on(s), now.nodes@, p, k) implies storage::seated(
            self.store.levels_on(s),
            self.nodes@,
            p,
            k,
        ) by {}
        assert forall|s: Side, t: u64, i: int| #[trigger]
            orderbook::placed(now.stops_on(s), t, i) implies orderbook::placed(
            self.stops_on(s),
            t,
            i,
        ) by {}
        assert forall|s: Side, t: u64| #[trigger] now.stops_on(s).contains_key(t) implies self.stops_on(
            s,
        ).contains_key(t) by {}
        assert forall|id: Seq<char>| #[trigger] now.index@.contains_key(id) implies now.live_at(
            id,
            now.index@[id],
        ) by {
            assert(self.index@.contains_key(id));
            assert(self.live_at(id, self.index@[id]));
        }
    }
}

/// Whether an execution of the engine is this step of the model.
pub open spec fn executed(
    step: Step<Report>,
    after: BookState,
    result: Result<ExecutionReport, OrderBookError>,
) -> bool {
    &&& step.state == after
    &&& match result {
        Ok(report) => {
            &&& step.result == Ok::<Report, OrderBookError>(report.own())
            &&& report.triggered@.len() == 0
        },
        Err(error) => step.result == Err::<Report, OrderBookError>(error),
    }
}

// ---------------------------------------------------------------- stops

impl<M: MatchingAlgorithm, S: OrderBookStore> OrderBook<M, S> {
    /// Executes a stop whose trigger the market has already reached, and has any
    /// other wait.
    fn park_or_activate_stop(&mut self, order: Order, trigger: Price) -> (r: Result<
        ExecutionReport,
        OrderBookError,
    >)
        requires
            old(self).wf(),
            in_lots(old(self).venue().matcher.spec_lot_size(), order),
            order.order_type.trigger() == Some(trigger),
            model::step(
                old(self).venue(),
                old(self).state(),
                order,
            ).state.next_arrival <= u32::MAX,
        ensures
            final(self).wf(),
            final(self).venue() == old(self).venue(),
            executed(
                model::step(old(self).venue(), old(self).state(), order),
                final(self).state(),
                r,
            ),
    {
        let already_triggered = match (self.last_trade_price, order.side) {
            (None, _) => false,
            (Some(last), Side::Bid) => last.minor() >= trigger.minor(),
            (Some(last), Side::Ask) => last.minor() <= trigger.minor(),
        };
        if already_triggered {
            return self.execute_now(activate(order));
        }
        let ghost was = *self;
        let ghost waiting = order;
        let order_id = order.exchange_id.clone();
        let side = order.side;
        proof {
            self.lemma_index();
        }
        if self.index.get(&order_id).is_some() {
            return Err(OrderBookError::ExchangeIdDuplicated);
        }
        self.index.insert(order_id.clone(), OrderAddress::StopBook { side, trigger });
        match side {
            Side::Bid => stops::park(&mut self.stop_bids, trigger.minor(), order),
            Side::Ask => stops::park(&mut self.stop_asks, trigger.minor(), order),
        }
        let report = ExecutionReport {
            order_id,
            trades: Vec::new(),
            outcome: SubmitOutcome::StopPending,
            cancelled: Vec::new(),
            triggered: Vec::new(),
        };
        proof {
            was.lemma_parked(*self, waiting, trigger);
            assert(report.own() =~= model::step(
                was.venue(),
                was.state(),
                waiting,
            ).result->Ok_0);
            assert(self.state() =~= model::step(was.venue(), was.state(), waiting).state);
        }
        Ok(report)
    }

    /// A stop that is parked leaves the book sound.
    proof fn lemma_parked(&self, now: Self, order: Order, trigger: Price)
        requires
            self.wf(),
            order.order_type.trigger() == Some(trigger),
            in_lots(self.matcher.spec_lot_size(), order),
            !self.index@.contains_key(order.exchange_id@),
            now == (OrderBook {
                stop_bids: now.stop_bids,
                stop_asks: now.stop_asks,
                index: now.index,
                ..*self
            }),
            now.stop_bids@.dom().finite(),
            now.stop_asks@.dom().finite(),
            now.stops_on(order.side) == model::enqueued(
                self.stops_on(order.side),
                trigger.minor(),
                order,
            ),
            now.stops_on(model::opposite(order.side)) == self.stops_on(
                model::opposite(order.side),
            ),
            now.index.wf(),
            now.index@ == self.index@.insert(
                order.exchange_id@,
                OrderAddress::StopBook { side: order.side, trigger },
            ),
        ensures
            now.wf(),
            now.venue() == self.venue(),
    {
        let side = order.side;
        let t0 = trigger.minor();
        let other = model::opposite(side);
        let lot = self.matcher.spec_lot_size();
        let id0 = order.exchange_id@;
        let queues = self.stops_on(side);
        let more = now.stops_on(side);
        assert(now.venue() =~= self.venue());
        assert forall|s: Side, p: u64, k: OrderKey| #[trigger]
            storage::seated(now.store.levels_on(s), now.nodes@, p, k) implies {
            let id = now.nodes@[k].order.exchange_id@;
            &&& now.index@.contains_key(id)
            &&& now.index@[id] == (OrderAddress::Book {
                side: s,
                price: model::price_of(p),
                key: k,
            })
            &&& in_lots(lot, now.nodes@[k].order)
        } by {
            assert(storage::seated(self.store.levels_on(s), self.nodes@, p, k));
        }
        assert forall|s: Side, t: u64, i: int| #[trigger] orderbook::placed(
            now.stops_on(s),
            t,
            i,
        ) implies {
            let waiting = now.stops_on(s)[t][i];
            &&& orderbook::waits_at(waiting, s, t)
            &&& now.index@.contains_key(waiting.exchange_id@)
            &&& now.index@[waiting.exchange_id@] == (OrderAddress::StopBook {
                side: s,
                trigger: model::price_of(t),
            })
            &&& in_lots(lot, waiting)
        } by {
            assert(s == side || s == other);
            if s == side && t == t0 && i == more[t0].len() - 1 {
                assert(now.stops_on(s)[t][i] == order);
            } else {
                assert(orderbook::placed(self.stops_on(s), t, i));
                assert(now.stops_on(s)[t][i] == self.stops_on(s)[t][i]);
            }
        }
        assert forall|s: Side, t: u64| #[trigger] now.stops_on(s).contains_key(t) implies distinct_names(
            now.stops_on(s)[t],
        ) && now.stops_on(s)[t].len() > 0 by {
            assert(s == side || s == other);
            if s == side && t == t0 {
                if queues.contains_key(t0) {
                    let queue = queues[t0];
                    assert forall|i: int, j: int| 0 <= i < j < more[t0].len() implies (
                    #[trigger] more[t0][i]).exchange_id@ != (
                    #[trigger] more[t0][j]).exchange_id@ by {
                        if j == queue.len() {
                            assert(orderbook::placed(queues, t0, i));
                            assert(more[t0][i] == queue[i]);
                        }
                    }
                }
            } else {
                assert(self.stops_on(s).contains_key(t));
                assert(self.stops_on(s) == self.state().stops(s));
            }
        }
        assert forall|id: Seq<char>| #[trigger] now.index@.contains_key(id) implies now.live_at(
            id,
            now.index@[id],
        ) by {
            if id == id0 {
                assert(name_at(more[t0], id, more[t0].len() - 1));
            } else {
                assert(self.index@.contains_key(id));
                assert(self.live_at(id, self.index@[id]));
                match self.index@[id] {
                    OrderAddress::Book { side: s, price, key } => {},
                    OrderAddress::StopBook { side: s, trigger: t } => {
                        assert(s == side || s == other);
                        if s == side && t.minor() == t0 {
                            let i = choose|i: int| #[trigger] name_at(queues[t0], id, i);
                            assert(name_at(more[t0], id, i));
                        }
                    },
                }
            }
        }
        assert forall|s: Side, p: u64| #[trigger] now.state().resting(s).contains_key(p) implies self.state().resting(
            s,
        ).contains_key(p) by {}
        assert(model::stops_sound(now.state())) by {
            assert(now.state().stop_bids.dom() =~= now.stop_bids@.dom());
            assert(now.state().stop_asks.dom() =~= now.stop_asks@.dom());
            assert forall|t: u64| #[trigger]
                now.state().stop_bids.contains_key(t) implies now.state().stop_bids[t].len()
                > 0 by {
                assert(now.stops_on(Side::Bid).contains_key(t));
            }
            assert forall|t: u64| #[trigger]
                now.state().stop_asks.contains_key(t) implies now.state().stop_asks[t].len()
                > 0 by {
                assert(now.stops_on(Side::Ask).contains_key(t));
            }
        }
    }

    /// Takes the stop that fires next out of the book, if one is triggered: buy
    /// stops before sell stops, the nearest trigger first, the oldest first.
    fn pop_triggered_stop(&mut self) -> (r: Option<Order>)
        requires
            old(self).wf(),
        ensures
            final(self).wf(),
            final(self).venue() == old(self).venue(),
            match model::next_trigger(old(self).state()) {
                Some(_) => {
                    &&& r == Some(model::next_stop(old(self).state()))
                    &&& final(self).state() == model::without_next_stop(old(self).state())
                    &&& in_lots(old(self).venue().matcher.spec_lot_size(), r->0)
                },
                None => {
                    &&& r is None
                    &&& final(self).state() == old(self).state()
                },
            },
    {
        let last = match self.last_trade_price {
            Some(last) => last,
            None => return None,
        };
        let buy = match stops::lowest(&self.stop_bids) {
            Some(trigger) => if trigger <= last.minor() {
                Some(trigger)
            } else {
                None
            },
            None => None,
        };
        let next = match buy {
            Some(trigger) => Some((Side::Bid, trigger)),
            None => match stops::highest(&self.stop_asks) {
                Some(trigger) => if trigger >= last.minor() {
                    Some((Side::Ask, trigger))
                } else {
                    None
                },
                None => None,
            },
        };
        proof {
            assert(next == model::next_trigger(self.state()));
        }
        match next {
            Some((side, trigger)) => {
                proof {
                    model::lemma_next_stop_taken(self.state());
                    assert(self.stops_on(side) == self.state().stops(side));
                    assert(self.stops_on(side).contains_key(trigger));
                    assert(self.stops_on(side)[trigger].len() > 0);
                    assert(orderbook::placed(self.stops_on(side), trigger, 0));
                }
                Some(self.drop_stop(side, trigger, 0))
            },
            None => None,
        }
    }

    /// Executes one order, whose name it already has: no stop that its trades
    /// trigger fires here.
    fn execute(&mut self, order: Order) -> (r: Result<ExecutionReport, OrderBookError>)
        requires
            old(self).wf(),
            in_lots(old(self).venue().matcher.spec_lot_size(), order),
            model::step(
                old(self).venue(),
                old(self).state(),
                order,
            ).state.next_arrival <= u32::MAX,
        ensures
            final(self).wf(),
            final(self).venue() == old(self).venue(),
            executed(
                model::step(old(self).venue(), old(self).state(), order),
                final(self).state(),
                r,
            ),
    {
        match order.order_type.trigger() {
            Some(trigger) => self.park_or_activate_stop(order, trigger),
            None => self.execute_now(order),
        }
    }
}

/// Neither a step nor a cascade gives places in line back.
pub(crate) proof fn lemma_cascade_arrivals<M: MatchingAlgorithm>(venue: Venue<M>, state: BookState)
    requires
        model::stops_sound(state),
    ensures
        model::cascade(venue, state).state.next_arrival >= state.next_arrival,
    decreases model::waiting(state),
{
    if model::next_trigger(state) is Some {
        let before = model::without_next_stop(state);
        let stop = model::activated(model::next_stop(state));
        let fired = model::plain_step(venue, before, stop);
        model::lemma_next_stop_taken(state);
        model::lemma_plain_step_keeps_stops(venue, before, stop);
        assert(fired.state.next_arrival >= state.next_arrival);
        if fired.result is Ok {
            lemma_cascade_arrivals(venue, fired.state);
        }
    }
}

/// The reports of the stops that fired.
pub open spec fn fired(reports: Seq<ExecutionReport>) -> Seq<Report> {
    reports.map_values(|report: ExecutionReport| report.own())
}

/// What a cascade comes to, given the stops that have fired so far.
spec fn cascaded(done: Seq<Report>, rest: Step<Seq<Report>>) -> Step<Seq<Report>> {
    Step {
        result: match rest.result {
            Ok(reports) => Ok(done + reports),
            Err(error) => Err(error),
        },
        state: rest.state,
    }
}

/// Whether a submission is this step of the model. The reports of the stops that
/// fired have none of their own.
pub open spec fn answered(
    step: Step<(Report, Seq<Report>)>,
    after: BookState,
    result: Result<ExecutionReport, OrderBookError>,
) -> bool {
    &&& step.state == after
    &&& match result {
        Ok(report) => {
            &&& step.result == Ok::<(Report, Seq<Report>), OrderBookError>(
                (report.own(), fired(report.triggered@)),
            )
            &&& forall|i: int|
                0 <= i < report.triggered@.len() ==> (
                #[trigger] report.triggered@[i]).triggered@.len() == 0
        },
        Err(error) => step.result == Err::<(Report, Seq<Report>), OrderBookError>(error),
    }
}

/// Whether submitting an order takes one book to another with this result. An
/// order that the instrument refuses changes nothing; any other is given the next
/// name in sequence and executed.
pub open spec fn submits<M: MatchingAlgorithm>(
    venue: Venue<M>,
    before: BookState,
    order: Order,
    result: Result<ExecutionReport, OrderBookError>,
    after: BookState,
) -> bool {
    match model::refusal(venue.spec, order) {
        Some(reason) => {
            &&& result == Err::<ExecutionReport, OrderBookError>(OrderBookError::Rejected(reason))
            &&& after == before
        },
        None => exists|id: ExchangeId|
            {
                &&& id@ == types::sequence_name(before.next_seq as nat)
                &&& answered(#[trigger] model::submitted(venue, before, order, id), after, result)
            },
    }
}

/// Whether the book can count what submitting an order takes: one name, and a
/// place in line for each order that comes to rest.
pub open spec fn countable<M: MatchingAlgorithm>(
    venue: Venue<M>,
    state: BookState,
    order: Order,
) -> bool {
    model::refusal(venue.spec, order) is None ==> {
        &&& state.next_seq < u64::MAX
        &&& forall|id: ExchangeId|
            id@ == types::sequence_name(state.next_seq as nat) ==> (#[trigger] model::submitted(
                venue,
                state,
                order,
                id,
            )).state.next_arrival <= u32::MAX
    }
}

impl<M: MatchingAlgorithm, S: OrderBookStore> OrderBook<M, S> {
    /// Submits an order: admits it, names it, executes it, and then fires the
    /// stops that the trades have triggered until none is left. An order that the
    /// instrument does not admit leaves the book as it was.
    pub fn submit(&mut self, order: Order) -> (r: Result<ExecutionReport, OrderBookError>)
        requires
            old(self).wf(),
            in_lots(old(self).venue().matcher.spec_lot_size(), order),
            countable(old(self).venue(), old(self).state(), order),
        ensures
            final(self).wf(),
            final(self).venue() == old(self).venue(),
            submits(old(self).venue(), old(self).state(), order, r, final(self).state()),
            r is Ok ==> conduct::admissible(old(self).venue().spec, order),
            !conduct::admissible(old(self).venue().spec, order) ==> (r matches Err(
                OrderBookError::Rejected(reason),
            ) && conduct::is_true_of(reason, old(self).venue().spec, order)) && final(self).state()
                == old(self).state(),
    {
        proof {
            conduct::lemma_refusal(self.venue().spec, order);
        }
        let ghost was = *self;
        let ghost venue = self.venue();
        let ghost given = order;
        if let Err(error) = self.admission(&order) {
            return Err(error);
        }
        let order_id = ExchangeId::from_sequence(self.next_seq);
        let ghost id = order_id;
        self.next_seq = self.next_seq + 1;
        let mut taken = order;
        taken.exchange_id = order_id;
        let ghost named = taken;
        let ghost counted = self.state();
        let ghost first = model::step(venue, counted, named);
        let ghost whole = model::submitted(venue, was.state(), given, id);
        proof {
            was.lemma_same_parts(*self);
            assert(counted =~= (BookState {
                next_seq: was.state().next_seq + 1,
                ..was.state()
            }));
            model::lemma_step_keeps_stops_sound(venue, counted, named);
            if first.result is Ok {
                lemma_cascade_arrivals(venue, first.state);
            }
            assert(whole.state.next_arrival <= u32::MAX);
        }
        let mut report = match self.execute(taken) {
            Ok(report) => report,
            Err(error) => {
                proof {
                    assert(answered(
                        whole,
                        self.state(),
                        Err::<ExecutionReport, OrderBookError>(error),
                    ));
                }
                return Err(error);
            },
        };
        let ghost own = report.own();
        let mut triggered: Vec<ExecutionReport> = Vec::new();
        let ghost cascade = model::cascade(venue, self.state());
        let mut more: bool = true;
        proof {
            assert(fired(triggered@) =~= Seq::<Report>::empty());
            assert(cascade.result is Ok ==> fired(triggered@) + cascade.result->Ok_0
                =~= cascade.result->Ok_0);
            assert(cascaded(fired(triggered@), cascade) == cascade);
        }
        while more
            invariant
                self.wf(),
                self.venue() == venue,
                cascaded(fired(triggered@), model::cascade(venue, self.state())) == cascade,
                cascade.state.next_arrival <= u32::MAX,
                forall|i: int|
                    0 <= i < triggered@.len() ==> (#[trigger] triggered@[i]).triggered@.len() == 0,
                !more ==> model::next_trigger(self.state()) is None,
                whole == (Step {
                    result: match cascade.result {
                        Ok(reports) => Ok((own, reports)),
                        Err(error) => Err(error),
                    },
                    state: cascade.state,
                }),
                id@ == types::sequence_name(was.state().next_seq as nat),
                whole == model::submitted(was.venue(), was.state(), given, id),
                venue == was.venue(),
                was == *old(self),
                given == order,
                model::refusal(was.venue().spec, given) is None,
            decreases
                    model::waiting(self.state()) + (if more {
                        1nat
                    } else {
                        0nat
                    }),
        {
            let ghost state = self.state();
            let ghost done = fired(triggered@);
            let ghost rest = model::cascade(venue, state);
            match self.pop_triggered_stop() {
                Some(stop) => {
                    let ghost without = model::without_next_stop(state);
                    let ghost active = model::activated(stop);
                    let ghost shot = model::plain_step(venue, without, active);
                    proof {
                        model::lemma_next_stop_taken(state);
                        model::lemma_plain_step_keeps_stops(venue, without, active);
                        if shot.result is Ok {
                            lemma_cascade_arrivals(venue, shot.state);
                        }
                    }
                    match self.execute_now(activate(stop)) {
                        Ok(next) => {
                            let ghost single = next.own();
                            let ghost tail = model::cascade(venue, shot.state);
                            triggered.push(next);
                            proof {
                                assert(fired(triggered@) =~= done.push(single));
                                if tail.result is Ok {
                                    assert(done + (seq![single] + tail.result->Ok_0) =~= done.push(
                                        single,
                                    ) + tail.result->Ok_0);
                                }
                                assert(cascaded(fired(triggered@), tail) == cascaded(done, rest));
                            }
                        },
                        Err(error) => {
                            proof {
                                assert(answered(
                                    whole,
                                    self.state(),
                                    Err::<ExecutionReport, OrderBookError>(error),
                                ));
                            }
                            return Err(error);
                        },
                    }
                },
                None => {
                    more = false;
                },
            }
        }
        report.triggered = triggered;
        proof {
            assert(model::cascade(venue, self.state()).result->Ok_0 =~= Seq::<Report>::empty());
            assert(fired(report.triggered@) + Seq::<Report>::empty() =~= fired(report.triggered@));
            assert(report.own() == own);
            assert(answered(whole, self.state(), Ok::<ExecutionReport, OrderBookError>(report)));
        }
        Ok(report)
    }
}

} // verus!
