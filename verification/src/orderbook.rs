//! The book: both sides, the waiting stops and the index of live orders.

use crate::allocation;
use crate::allocation::Maker;
use crate::allocation::MatchingAlgorithm;
use crate::conduct;
use crate::instrument::InstrumentSpec;
use crate::instrument::Qty;
use crate::instrument::RejectReason;
use crate::instrument::Ticks;
use crate::ledger;
use crate::matching;
use crate::model;
use crate::model::BookState;
use crate::model::Shelf;
use crate::model::Venue;
use crate::order_index::OrderAddress;
use crate::order_index::OrderIndex;
use crate::order_queue;
use crate::order_queue::LevelQueue;
use crate::order_queue::OrderArena;
use crate::order_queue::OrderKey;
use crate::stops;
use crate::storage;
use crate::storage::BTreeStore;
use crate::storage::BookLevel;
use crate::storage::OrderBookStore;
use crate::storage::StoreError;
use crate::sums;
use crate::types;
use crate::types::ExchangeId;
use crate::types::Order;
use crate::types::OrderType;
use crate::types::Price;
use crate::types::PriceLevel;
use crate::types::Side;
use std::collections::BTreeMap;
use vstd::prelude::*;

verus! {

/// Where a live order is.
#[derive(Debug, Clone, Copy, PartialEq, Eq, Structural)]
pub enum OrderLocation {
    /// Resting in the book at this price.
    Book { side: Side, price: Price },
    /// Waiting for the market to reach `trigger`.
    StopBook { side: Side, trigger: Price },
}

#[derive(Debug, Clone, Copy, PartialEq, Eq, Structural)]
pub enum OrderBookError {
    Generic,
    ExchangeIdDuplicated,
    OrderNotFound,
    /// Order type that the matching engine does not handle.
    Unsupported,
    /// Only limit orders can rest in the book.
    NotRestable,
    /// On the grid, and outside what the instrument accepts.
    Rejected(RejectReason),
    Storage(StoreError),
}

/// A book for one instrument. How a level is shared out among its orders (`M`)
/// and how levels are held (`S`) are chosen independently.
#[derive(Debug)]
pub struct OrderBook<M: MatchingAlgorithm, S: OrderBookStore = BTreeStore> {
    /// The levels of both sides.
    pub(crate) store: S,
    /// The nodes of all resting orders.
    pub(crate) nodes: OrderArena,
    /// Buy stops by trigger in minor units, oldest first. One fires when the
    /// market trades up to its trigger, so the lowest is nearest to firing.
    pub stop_bids: BTreeMap<u64, Vec<Order>>,
    /// Sell stops by trigger in minor units, oldest first. One fires when the
    /// market trades down to its trigger, so the highest is nearest to firing.
    pub stop_asks: BTreeMap<u64, Vec<Order>>,
    /// The price of the most recent trade, which triggers are compared to.
    pub last_trade_price: Option<Price>,
    /// Where each live order is.
    pub(crate) index: OrderIndex,
    /// The number in the name of the next order that is submitted.
    pub next_seq: u64,
    /// The place in line of the next order that comes to rest. It is apart from
    /// `next_seq`: an order can be submitted and never rest.
    pub next_arrival: u32,
    pub(crate) spec: InstrumentSpec,
    pub(crate) matcher: M,
}

/// Whether a stop belongs on a side at a trigger.
pub open spec fn waits_at(order: Order, side: Side, t: u64) -> bool {
    &&& order.side == side
    &&& order.order_type.trigger() matches Some(trigger) && trigger.minor() == t
}

/// Whether `i` is a place in the queue at `t`.
pub open spec fn placed(queues: Map<u64, Seq<Order>>, t: u64, i: int) -> bool {
    queues.contains_key(t) && 0 <= i < queues[t].len()
}

impl<M: MatchingAlgorithm, S: OrderBookStore> OrderBook<M, S> {
    /// The waiting stops of a side.
    pub open(crate) spec fn stops_on(&self, side: Side) -> Map<u64, Seq<Order>> {
        match side {
            Side::Bid => stops::parked(self.stop_bids@),
            Side::Ask => stops::parked(self.stop_asks@),
        }
    }

    /// What the book holds.
    pub open(crate) spec fn state(&self) -> BookState {
        BookState {
            bids: storage::orders_on(self.store.levels_on(Side::Bid), self.nodes@),
            asks: storage::orders_on(self.store.levels_on(Side::Ask), self.nodes@),
            stop_bids: stops::parked(self.stop_bids@),
            stop_asks: stops::parked(self.stop_asks@),
            last_trade: self.last_trade_price,
            next_seq: self.next_seq as int,
            next_arrival: self.next_arrival as int,
        }
    }

    /// The orders that rest, by key, with their neighbours.
    pub open(crate) spec fn nodes_held(&self) -> Map<OrderKey, order_queue::Node> {
        self.nodes@
    }

    /// The instrument, the prices that can be held, and the policy.
    pub open(crate) spec fn venue(&self) -> Venue<M> {
        Venue {
            spec: self.spec,
            span: Set::new(|p: u64| self.store.covers(p)),
            matcher: self.matcher,
        }
    }

    /// Whether every resting order is indexed at its place.
    pub open(crate) spec fn resting_indexed(&self) -> bool {
        forall|s: Side, p: u64, k: OrderKey| #[trigger]
            storage::seated(self.store.levels_on(s), self.nodes@, p, k) ==> {
                let id = self.nodes@[k].order.exchange_id@;
                &&& self.index@.contains_key(id)
                &&& self.index@[id] == (OrderAddress::Book {
                    side: s,
                    price: model::price_of(p),
                    key: k,
                })
            }
    }

    /// Whether every waiting stop is indexed at its place.
    pub open(crate) spec fn waiting_indexed(&self) -> bool {
        forall|s: Side, t: u64, i: int| #[trigger]
            placed(self.stops_on(s), t, i) ==> {
                let order = self.stops_on(s)[t][i];
                &&& waits_at(order, s, t)
                &&& self.index@.contains_key(order.exchange_id@)
                &&& self.index@[order.exchange_id@] == (OrderAddress::StopBook {
                    side: s,
                    trigger: model::price_of(t),
                })
            }
    }

    /// Whether an indexed order is where the index says.
    pub open(crate) spec fn live_at(&self, id: Seq<char>, address: OrderAddress) -> bool {
        match address {
            OrderAddress::Book { side, price, key } => {
                &&& storage::seated(self.store.levels_on(side), self.nodes@, price.minor(), key)
                &&& self.nodes@[key].order.exchange_id@ == id
            },
            OrderAddress::StopBook { side, trigger } => {
                &&& self.stops_on(side).contains_key(trigger.minor())
                &&& matching::has_name(self.stops_on(side)[trigger.minor()], id)
            },
        }
    }

    /// Whether every indexed order is live.
    pub open(crate) spec fn index_live(&self) -> bool {
        forall|id: Seq<char>| #[trigger]
            self.index@.contains_key(id) ==> self.live_at(id, self.index@[id])
    }

    /// Whether the names in each queue of stops are distinct.
    pub open(crate) spec fn stops_distinct(&self) -> bool {
        forall|s: Side, t: u64| #[trigger]
            self.stops_on(s).contains_key(t) ==> matching::distinct_names(self.stops_on(s)[t])
    }

    /// Whether all that rests or waits is whole lots, where the policy has a lot.
    pub open(crate) spec fn lots_kept(&self) -> bool {
        let lot = self.matcher.spec_lot_size();
        &&& lot matches Some(lot) ==> lot == self.spec.lot_size()
        &&& forall|s: Side, p: u64, k: OrderKey| #[trigger]
            storage::seated(self.store.levels_on(s), self.nodes@, p, k) ==> matching::in_lots(
                lot,
                self.nodes@[k].order,
            )
        &&& forall|s: Side, t: u64, i: int| #[trigger]
            placed(self.stops_on(s), t, i) ==> matching::in_lots(lot, self.stops_on(s)[t][i])
    }

    /// The invariant of a book: its levels are queues of orders that belong
    /// there, every live order is indexed once and at its place, and the prices
    /// that the instrument admits can be held.
    pub open(crate) spec fn wf(&self) -> bool {
        &&& self.spec.wf()
        &&& self.matcher.wf()
        &&& self.store.wf()
        &&& forall|side: Side|
            storage::levels_sound(#[trigger] self.store.levels_on(side), self.nodes@, side)
        &&& self.nodes@.dom().finite()
        &&& self.nodes@.dom().len() < self.next_arrival
        &&& self.index.wf()
        &&& self.resting_indexed()
        &&& self.waiting_indexed()
        &&& self.index_live()
        &&& self.stops_distinct()
        &&& model::stops_sound(self.state())
        &&& model::in_line(self.state())
        &&& self.stop_bids@.dom().finite()
        &&& self.stop_asks@.dom().finite()
        &&& self.lots_kept()
        &&& forall|p: Price|
            self.spec.on_tick(p) && self.spec.price_refusal(p) is None ==> self.store.covers(
                #[trigger] p.minor(),
            )
    }

    /// The index holds the names of the live orders, and no others.
    pub(crate) proof fn lemma_index(&self)
        requires
            self.wf(),
        ensures
            forall|id: Seq<char>| #[trigger]
                self.index@.contains_key(id) <==> self.state().has_id(id),
    {
        assert forall|id: Seq<char>| #[trigger]
            self.index@.contains_key(id) <==> self.state().has_id(id) by {
            if self.index@.contains_key(id) {
                match self.index@[id] {
                    OrderAddress::Book { side, price, key } => {
                        let levels = self.store.levels_on(side);
                        let queue = levels[price.minor()].queue;
                        let keys = queue.keys(self.nodes@);
                        let i = keys.index_of(key);
                        assert(keys[i] == key);
                        assert(model::queued_at(
                            storage::orders_on(levels, self.nodes@),
                            id,
                            price.minor(),
                            i,
                        ));
                        assert(self.state().on(Shelf::Levels(side)) == storage::orders_on(
                            levels,
                            self.nodes@,
                        ));
                    },
                    OrderAddress::StopBook { side, trigger } => {
                        let queues = self.stops_on(side);
                        let i = choose|i: int| #[trigger]
                            matching::name_at(queues[trigger.minor()], id, i);
                        assert(model::queued_at(queues, id, trigger.minor(), i));
                        assert(self.state().on(Shelf::Stops(side)) == queues);
                    },
                }
            }
            assert forall|s: Side| model::queues_have(
                storage::orders_on(#[trigger] self.store.levels_on(s), self.nodes@),
                id,
            ) implies self.index@.contains_key(id) by {
                let levels = self.store.levels_on(s);
                let (p, i) = choose|p: u64, i: int| #[trigger]
                    model::queued_at(storage::orders_on(levels, self.nodes@), id, p, i);
                let keys = levels[p].queue.keys(self.nodes@);
                assert(keys.contains(keys[i]));
                assert(storage::seated(levels, self.nodes@, p, keys[i]));
            }
            assert forall|s: Side| model::queues_have(#[trigger] self.stops_on(s), id) implies self.index@.contains_key(
                id,
            ) by {
                let (t, i) = choose|t: u64, i: int| #[trigger]
                    model::queued_at(self.stops_on(s), id, t, i);
                assert(placed(self.stops_on(s), t, i));
            }
            if self.state().has_id(id) {
                let shelf = choose|shelf: Shelf|
                    model::queues_have(#[trigger] self.state().on(shelf), id);
                match shelf {
                    Shelf::Levels(s) => {
                        assert(self.state().on(shelf) == storage::orders_on(
                            self.store.levels_on(s),
                            self.nodes@,
                        ));
                    },
                    Shelf::Stops(s) => {
                        assert(self.state().on(shelf) == self.stops_on(s));
                    },
                }
            }
        }
    }
}

impl<M: MatchingAlgorithm, S: OrderBookStore> OrderBook<M, S> {
    /// A book that holds the same as a sound one is sound.
    proof fn lemma_copied(&self, copy: Self)
        requires
            self.wf(),
            copy.store.wf(),
            forall|side: Side| #[trigger]
                copy.store.levels_on(side) == self.store.levels_on(side),
            forall|p: u64| #[trigger] copy.store.covers(p) == self.store.covers(p),
            copy.nodes@ == self.nodes@,
            copy.stop_bids@ == self.stop_bids@,
            copy.stop_asks@ == self.stop_asks@,
            copy.index.wf(),
            copy.index@ == self.index@,
            copy.state() == self.state(),
            copy.spec == self.spec,
            copy.matcher == self.matcher,
            copy.next_arrival == self.next_arrival,
        ensures
            copy.wf(),
    {
        assert forall|side: Side| storage::levels_sound(
            #[trigger] copy.store.levels_on(side),
            copy.nodes@,
            side,
        ) by {
            assert(storage::levels_sound(self.store.levels_on(side), self.nodes@, side));
        }
        assert forall|side: Side| #[trigger] copy.stops_on(side) == self.stops_on(side) by {}
        assert forall|s: Side, p: u64, k: OrderKey| #[trigger]
            storage::seated(copy.store.levels_on(s), copy.nodes@, p, k) implies storage::seated(
            self.store.levels_on(s),
            self.nodes@,
            p,
            k,
        ) by {}
        assert(copy.resting_indexed());
        assert(copy.waiting_indexed());
        assert(copy.index_live());
        assert(copy.stops_distinct());
        assert(copy.lots_kept());
        assert forall|p: Price|
            copy.spec.on_tick(p) && copy.spec.price_refusal(p) is None implies copy.store.covers(
            #[trigger] p.minor(),
        ) by {
            assert(self.store.covers(p.minor()));
        }
    }
}

impl<M: MatchingAlgorithm + Clone, S: OrderBookStore> Clone for OrderBook<M, S> {
    /// A copy holds what the book holds, under the same names and in the same
    /// order, and shares nothing with it. It is a sound book where the copied
    /// policy is the policy.
    fn clone(&self) -> (r: Self)
        ensures
            r.state() == self.state(),
            cloned(self.venue().matcher, r.venue().matcher),
            r.venue() == (Venue { matcher: r.venue().matcher, ..self.venue() }),
            self.wf() && r.venue().matcher == self.venue().matcher ==> r.wf(),
    {
        let r = OrderBook {
            store: self.store.clone(),
            nodes: self.nodes.clone(),
            stop_bids: self.stop_bids.clone(),
            stop_asks: self.stop_asks.clone(),
            last_trade_price: self.last_trade_price,
            index: self.index.clone(),
            next_seq: self.next_seq,
            next_arrival: self.next_arrival,
            spec: self.spec,
            matcher: self.matcher.clone(),
        };
        proof {
            S::lemma_cloned(&self.store, &r.store);
            assert(r.nodes@ =~= self.nodes@) by {
                assert forall|k: OrderKey| #[trigger] r.nodes@.contains_key(k) implies r.nodes@[k]
                    == self.nodes@[k] by {
                    assert(cloned(self.nodes@[k], r.nodes@[k]));
                }
            }
            assert(r.state() =~= self.state());
            assert(r.venue().span =~= self.venue().span);
            if self.wf() && r.matcher == self.matcher {
                self.lemma_copied(r);
            }
        }
        r
    }
}

impl<M: MatchingAlgorithm> OrderBook<M, BTreeStore> {
    /// A book with the levels of each side in an ordered map.
    pub fn new(spec: InstrumentSpec, matcher: M) -> (r: Self)
        requires
            spec.wf(),
            matcher.wf(),
            matcher.spec_lot_size() matches Some(lot) ==> lot == spec.lot_size(),
        ensures
            r.wf(),
            r.state() == BookState::empty(),
            r.venue().spec == spec,
            r.venue().span == Set::<u64>::full(),
            r.venue().matcher == matcher,
    {
        Self::try_new(spec, matcher).expect("an ordered map can always be made")
    }
}

impl<M: MatchingAlgorithm, S: OrderBookStore> OrderBook<M, S> {
    /// A book with levels held as `S` does. A policy that floors to a lot has to
    /// floor to the instrument's.
    pub fn try_new(spec: InstrumentSpec, matcher: M) -> (r: Result<Self, StoreError>)
        requires
            spec.wf(),
            matcher.wf(),
            matcher.spec_lot_size() matches Some(lot) ==> lot == spec.lot_size(),
        ensures
            match r {
                Ok(book) => {
                    &&& S::refusal(spec) is None
                    &&& book.wf()
                    &&& book.state() == BookState::empty()
                    &&& book.venue().spec == spec
                    &&& book.venue().span == Set::new(|p: u64| S::spans(spec, p))
                    &&& book.venue().matcher == matcher
                },
                Err(error) => {
                    ||| S::refusal(spec) == Some(error)
                    ||| S::refusal(spec) is None && S::reserves(spec) && error
                        == StoreError::PriceRangeTooLarge
                },
            },
    {
        let store = match S::try_new(spec) {
            Ok(store) => store,
            Err(error) => return Err(error),
        };
        let book = OrderBook {
            store,
            nodes: OrderArena::with_key(),
            stop_bids: stops::none_parked(),
            stop_asks: stops::none_parked(),
            last_trade_price: None,
            index: OrderIndex::new(),
            next_seq: 1,
            next_arrival: 1,
            spec,
            matcher,
        };
        proof {
            assert(book.state() =~= BookState::empty());
            assert forall|s: Side, p: u64, k: OrderKey| !#[trigger] storage::seated(
                book.store.levels_on(s),
                book.nodes@,
                p,
                k,
            ) by {
                assert(book.store.levels_on(s) == Map::<u64, storage::BookLevel>::empty());
            }
            assert forall|s: Side, t: u64, i: int| !#[trigger] placed(book.stops_on(s), t, i) by {}
        }
        Ok(book)
    }

    /// The instrument.
    pub fn spec(&self) -> (r: InstrumentSpec)
        ensures
            r == self.venue().spec,
    {
        self.spec
    }

    /// The instrument's lot.
    pub fn lot_size(&self) -> (r: u64)
        ensures
            r == self.venue().spec.lot_size(),
    {
        self.spec.lot_size()
    }

    /// The allocation policy.
    pub fn matcher(&self) -> (r: &M)
        ensures
            *r == self.venue().matcher,
    {
        &self.matcher
    }

    /// The store of the levels. Its levels are at the prices of the book, and the
    /// queue of each is that of the orders that rest there.
    pub fn store(&self) -> (r: &S)
        ensures
            self.wf() ==> r.wf(),
            forall|p: u64| #[trigger] r.covers(p) <==> self.venue().span.contains(p),
            forall|side: Side|
                (#[trigger] r.levels_on(side)).dom() == self.state().resting(side).dom(),
            forall|side: Side, p: u64| #[trigger]
                r.levels_on(side).contains_key(p) ==> {
                    &&& r.levels_on(side)[p].queue.orders(self.nodes_held())
                        == self.state().resting(side)[p]
                    &&& self.wf() ==> r.levels_on(side)[p].queue.spec_len()
                        == self.state().resting(side)[p].len()
                },
    {
        proof {
            assert forall|side: Side|
                (#[trigger] self.store.levels_on(side)).dom() =~= self.state().resting(
                    side,
                ).dom() by {}
        }
        &self.store
    }

    /// Whether the instrument admits an order.
    pub fn admission(&self, order: &Order) -> (r: Result<(), OrderBookError>)
        ensures
            r == (match model::refusal(self.venue().spec, *order) {
                Some(reason) => Err::<(), OrderBookError>(OrderBookError::Rejected(reason)),
                None => Ok(()),
            }),
            r is Ok <==> conduct::admissible(self.venue().spec, *order),
    {
        proof {
            conduct::lemma_refusal(self.venue().spec, *order);
        }
        let prices: [Option<Price>; 2] = order.order_type.prices();
        let mut i: usize = 0;
        while i < 2
            invariant
                i <= 2,
                prices@ == seq![order.order_type.trigger(), order.order_type.limit_price()],
                forall|j: int|
                    0 <= j < i && (#[trigger] prices@[j]) is Some ==> self.spec.price_refusal(
                        prices@[j]->0,
                    ) is None,
            decreases 2 - i,
        {
            if let Some(price) = prices[i] {
                if let Err(reason) = self.spec.admits_price(price) {
                    proof {
                        if i == 1 {
                            assert(prices@[0] == order.order_type.trigger());
                        }
                    }
                    return Err(OrderBookError::Rejected(reason));
                }
            }
            i = i + 1;
        }
        proof {
            assert(prices@[0] == order.order_type.trigger());
            assert(prices@[1] == order.order_type.limit_price());
        }
        if let Err(reason) = self.spec.admits_qty(order.original_quantity) {
            return Err(OrderBookError::Rejected(reason));
        }
        if let Some(price) = order.order_type.limit_price() {
            if let Err(reason) = self.spec.admits_notional(price, order.original_quantity) {
                return Err(OrderBookError::Rejected(reason));
            }
        }
        Ok(())
    }
}

impl<M: MatchingAlgorithm, S: OrderBookStore> OrderBook<M, S> {
    /// A key in a queue is live, and its order belongs there.
    pub(crate) proof fn lemma_seated(&self, s: Side, p: u64, k: OrderKey)
        requires
            forall|side: Side|
                storage::levels_sound(#[trigger] self.store.levels_on(side), self.nodes@, side),
            storage::seated(self.store.levels_on(s), self.nodes@, p, k),
        ensures
            self.nodes@.contains_key(k),
            storage::at_home(self.nodes@[k].order, s, p),
    {
        let levels = self.store.levels_on(s);
        assert(storage::levels_sound(levels, self.nodes@, s));
        assert(levels.contains_key(p));
        let queue = levels[p].queue;
        let keys = queue.keys(self.nodes@);
        assert(queue.chain(self.nodes@, keys));
        order_queue::lemma_chain_distinct(queue, self.nodes@, keys);
        let i = keys.index_of(k);
        assert(keys[i] == k);
    }

    /// Rests an order without matching it.
    pub fn add_order(&mut self, order: Order) -> (r: Result<(), OrderBookError>)
        requires
            old(self).wf(),
            model::rest_error(old(self).venue(), old(self).state(), order) is None ==> {
                &&& old(self).state().next_arrival < u32::MAX
                &&& matching::in_lots(old(self).venue().matcher.spec_lot_size(), order)
            },
        ensures
            final(self).wf(),
            final(self).venue() == old(self).venue(),
            match model::rest_error(old(self).venue(), old(self).state(), order) {
                Some(error) => {
                    &&& r == Err::<(), OrderBookError>(error)
                    &&& final(self).state() == old(self).state()
                },
                None => {
                    &&& r is Ok
                    &&& final(self).state() == model::rested(old(self).state(), order)
                },
            },
            r is Ok ==> order.order_type is Limit && conduct::admissible(
                old(self).venue().spec,
                order,
            ),
    {
        let ghost was = *self;
        proof {
            conduct::lemma_refusal(self.venue().spec, order);
        }
        let price = match order.order_type {
            OrderType::Limit { price, .. } => price,
            _ => return Err(OrderBookError::NotRestable),
        };
        if let Err(error) = self.admission(&order) {
            return Err(error);
        }
        proof {
            self.lemma_index();
        }
        if self.index.get(&order.exchange_id).is_some() {
            return Err(OrderBookError::ExchangeIdDuplicated);
        }
        let side = order.side;
        let id = order.exchange_id.clone();
        let ghost given = order;
        let mut order = order;
        order.arrival = self.next_arrival;
        let ghost stamped = order;
        proof {
            if self.store.covers(price.minor()) {
                assert(model::rest_error(was.venue(), was.state(), given) is None);
            }
        }
        match self.store.add(&mut self.nodes, order) {
            Ok(key) => {
                self.index.insert(id, OrderAddress::Book { side, price, key });
                self.next_arrival = self.next_arrival + 1;
                proof {
                    assert(self.state() =~= model::rested(was.state(), given));
                    model::lemma_rested_in_line(was.state(), given);
                    was.lemma_rested(*self, stamped, key);
                    assert(self.venue() =~= was.venue());
                }
                Ok(())
            },
            Err(error) => {
                proof {
                    was.lemma_unchanged(*self);
                }
                Err(OrderBookError::Storage(error))
            },
        }
    }

    /// A book whose levels are the same is the same.
    pub(crate) proof fn lemma_unchanged(&self, now: Self)
        requires
            self.wf(),
            now.store.wf(),
            forall|p: u64| now.store.covers(p) == #[trigger] self.store.covers(p),
            forall|s: Side| #[trigger] now.store.levels_on(s) =~= self.store.levels_on(s),
            now == (OrderBook { store: now.store, nodes: now.nodes, ..*self }),
            now.nodes@ == self.nodes@,
        ensures
            now.wf(),
            now.state() == self.state(),
            now.venue() == self.venue(),
    {
        assert forall|s: Side| #[trigger] now.store.levels_on(s) == self.store.levels_on(s) by {}
        assert(now.state() == self.state());
        assert(now.venue() =~= self.venue());
        assert forall|s: Side, p: u64, k: OrderKey| #[trigger]
            storage::seated(now.store.levels_on(s), now.nodes@, p, k) implies storage::seated(
            self.store.levels_on(s),
            self.nodes@,
            p,
            k,
        ) by {}
        assert forall|s: Side, t: u64, i: int| #[trigger] placed(now.stops_on(s), t, i) implies placed(
            self.stops_on(s),
            t,
            i,
        ) by {}
        assert forall|s: Side, t: u64| #[trigger] now.stops_on(s).contains_key(t) implies self.stops_on(
            s,
        ).contains_key(t) by {}
        assert forall|id: Seq<char>| #[trigger] now.index@.contains_key(id) implies now.live_at(
            id,
            now.index@[id],
        ) by {
            assert(self.index@.contains_key(id));
            assert(self.live_at(id, self.index@[id]));
        }
    }

    /// Resting an order keeps the invariant.
    proof fn lemma_rested(&self, now: Self, order: Order, key: OrderKey)
        requires
            self.wf(),
            order.order_type is Limit,
            !self.index@.contains_key(order.exchange_id@),
            matching::in_lots(self.matcher.spec_lot_size(), order),
            now.store.wf(),
            forall|p: u64| now.store.covers(p) == #[trigger] self.store.covers(p),
            forall|s: Side|
                storage::levels_sound(#[trigger] now.store.levels_on(s), now.nodes@, s),
            !self.nodes@.contains_key(key),
            now.nodes@.dom() == self.nodes@.dom().insert(key),
            now.nodes@[key].order == order,
            forall|k: OrderKey| #[trigger]
                self.nodes@.contains_key(k) ==> now.nodes@[k].order == self.nodes@[k].order,
            forall|s: Side, q: u64, k: OrderKey| #[trigger]
                storage::seated(now.store.levels_on(s), now.nodes@, q, k) <==> storage::seated(
                    self.store.levels_on(s),
                    self.nodes@,
                    q,
                    k,
                ) || (s == order.side && q == order.order_type.limit_price()->0.minor() && k
                    == key),
            now.index.wf(),
            now.index@ == self.index@.insert(
                order.exchange_id@,
                OrderAddress::Book {
                    side: order.side,
                    price: order.order_type.limit_price()->0,
                    key,
                },
            ),
            now == (OrderBook {
                store: now.store,
                nodes: now.nodes,
                index: now.index,
                next_arrival: now.next_arrival,
                ..*self
            }),
            now.next_arrival == self.next_arrival + 1,
            model::in_line(now.state()),
        ensures
            now.wf(),
    {
        let lot = self.matcher.spec_lot_size();
        assert forall|s: Side, p: u64, k: OrderKey| #[trigger]
            storage::seated(now.store.levels_on(s), now.nodes@, p, k) implies {
            let id = now.nodes@[k].order.exchange_id@;
            &&& now.index@.contains_key(id)
            &&& now.index@[id] == (OrderAddress::Book {
                side: s,
                price: model::price_of(p),
                key: k,
            })
            &&& matching::in_lots(lot, now.nodes@[k].order)
        } by {
            if storage::seated(self.store.levels_on(s), self.nodes@, p, k) {
                self.lemma_seated(s, p, k);
            }
        }
        assert forall|s: Side, t: u64, i: int| #[trigger] placed(now.stops_on(s), t, i) implies {
            let waiting = now.stops_on(s)[t][i];
            &&& waits_at(waiting, s, t)
            &&& now.index@.contains_key(waiting.exchange_id@)
            &&& now.index@[waiting.exchange_id@] == (OrderAddress::StopBook {
                side: s,
                trigger: model::price_of(t),
            })
            &&& matching::in_lots(lot, waiting)
        } by {
            assert(placed(self.stops_on(s), t, i));
        }
        assert forall|s: Side, t: u64| #[trigger] now.stops_on(s).contains_key(t) implies self.stops_on(
            s,
        ).contains_key(t) by {}
        assert forall|id: Seq<char>| #[trigger] now.index@.contains_key(id) implies now.live_at(
            id,
            now.index@[id],
        ) by {
            if id != order.exchange_id@ {
                assert(self.index@.contains_key(id));
                assert(self.live_at(id, self.index@[id]));
                match self.index@[id] {
                    OrderAddress::Book { side, price, key: k } => {
                        self.lemma_seated(side, price.minor(), k);
                        assert(storage::seated(
                            now.store.levels_on(side),
                            now.nodes@,
                            price.minor(),
                            k,
                        ));
                    },
                    OrderAddress::StopBook { side, trigger } => {},
                }
            } else {
                assert(storage::seated(
                    now.store.levels_on(order.side),
                    now.nodes@,
                    order.order_type.limit_price()->0.minor(),
                    key,
                ));
            }
        }
    }
}

/// Taking one order out of a queue takes its name and no other.
proof fn lemma_names_without(queue: Seq<Order>, i: int)
    requires
        matching::distinct_names(queue),
        0 <= i < queue.len(),
    ensures
        matching::distinct_names(queue.remove(i)),
        forall|id: Seq<char>| #[trigger]
            matching::has_name(queue.remove(i), id) <==> matching::has_name(queue, id) && id
                != queue[i].exchange_id@,
{
    let left = queue.remove(i);
    assert forall|a: int| 0 <= a < left.len() implies (#[trigger] left[a]) == queue[if a < i {
        a
    } else {
        a + 1
    }] by {}
    assert forall|a: int, b: int| 0 <= a < b < left.len() implies (
    #[trigger] left[a]).exchange_id@ != (#[trigger] left[b]).exchange_id@ by {
        let c = if a < i {
            a
        } else {
            a + 1
        };
        let d = if b < i {
            b
        } else {
            b + 1
        };
        assert(queue[c].exchange_id@ != queue[d].exchange_id@);
    }
    assert forall|id: Seq<char>| #[trigger]
        matching::has_name(left, id) <==> matching::has_name(queue, id) && id
            != queue[i].exchange_id@ by {
        if matching::has_name(left, id) {
            let a = choose|a: int| #[trigger] matching::name_at(left, id, a);
            let c = if a < i {
                a
            } else {
                a + 1
            };
            assert(left[a] == queue[c]);
            assert(matching::name_at(queue, id, c));
            if c < i {
                assert(queue[c].exchange_id@ != queue[i].exchange_id@);
            } else {
                assert(queue[i].exchange_id@ != queue[c].exchange_id@);
            }
        }
        if matching::has_name(queue, id) && id != queue[i].exchange_id@ {
            let c = choose|c: int| #[trigger] matching::name_at(queue, id, c);
            let a = if c < i {
                c
            } else {
                c - 1
            };
            assert(left[a] == queue[c]);
            assert(matching::name_at(left, id, a));
        }
    }
}

impl<M: MatchingAlgorithm, S: OrderBookStore> OrderBook<M, S> {
    /// Two orders of one queue differ in name.
    pub(crate) proof fn lemma_queue_names(&self, s: Side, p: u64)
        requires
            self.wf(),
            self.store.levels_on(s).contains_key(p),
        ensures
            matching::distinct_names(self.store.levels_on(s)[p].queue.orders(self.nodes@)),
    {
        let levels = self.store.levels_on(s);
        assert(storage::levels_sound(levels, self.nodes@, s));
        let queue = levels[p].queue;
        let keys = queue.keys(self.nodes@);
        let orders = queue.orders(self.nodes@);
        assert(queue.chain(self.nodes@, keys));
        order_queue::lemma_chain_distinct(queue, self.nodes@, keys);
        assert forall|i: int, j: int| 0 <= i < j < orders.len() implies (
        #[trigger] orders[i]).exchange_id@ != (#[trigger] orders[j]).exchange_id@ by {
            assert(keys.contains(keys[i]));
            assert(keys.contains(keys[j]));
            assert(storage::seated(levels, self.nodes@, p, keys[i]));
            assert(storage::seated(levels, self.nodes@, p, keys[j]));
        }
    }

    /// Takes the stop at a place of a queue out of the book.
    pub(crate) fn drop_stop(&mut self, side: Side, trigger: u64, place: usize) -> (r: Order)
        requires
            old(self).wf(),
            placed(old(self).stops_on(side), trigger, place as int),
        ensures
            final(self).wf(),
            final(self).venue() == old(self).venue(),
            r == old(self).stops_on(side)[trigger][place as int],
            final(self).state() == old(self).state().with_stops(
                side,
                model::dequeued(old(self).state().stops(side), trigger, place as int),
            ),
            final(self).store == old(self).store,
            final(self).nodes == old(self).nodes,
            final(self).index@ == old(self).index@.remove(r.exchange_id@),
    {
        let ghost was = *self;
        let order = match side {
            Side::Bid => stops::unpark(&mut self.stop_bids, trigger, place),
            Side::Ask => stops::unpark(&mut self.stop_asks, trigger, place),
        };
        self.index.remove(&order.exchange_id);
        proof {
            let at = place as int;
            let queues = was.stops_on(side);
            let queue = queues[trigger];
            let left = model::dequeued(queues, trigger, at);
            let lot = was.matcher.spec_lot_size();
            assert(placed(queues, trigger, at));
            assert(queues.contains_key(trigger));
            lemma_names_without(queue, at);
            assert(self.stops_on(side) == left);
            assert(self.state() =~= was.state().with_stops(side, left));
            assert(self.venue() =~= was.venue());
            assert forall|s: Side, t: u64, i: int| #[trigger] placed(self.stops_on(s), t, i) implies {
                let waiting = self.stops_on(s)[t][i];
                &&& waits_at(waiting, s, t)
                &&& self.index@.contains_key(waiting.exchange_id@)
                &&& self.index@[waiting.exchange_id@] == (OrderAddress::StopBook {
                    side: s,
                    trigger: model::price_of(t),
                })
                &&& matching::in_lots(lot, waiting)
            } by {
                let waiting = self.stops_on(s)[t][i];
                if s == side && t == trigger {
                    let from = if i < at {
                        i
                    } else {
                        i + 1
                    };
                    assert(waiting == queue[from]);
                    assert(placed(was.stops_on(s), t, from));
                    if from < at {
                        assert(queue[from].exchange_id@ != queue[at].exchange_id@);
                    } else {
                        assert(queue[at].exchange_id@ != queue[from].exchange_id@);
                    }
                } else {
                    assert(placed(was.stops_on(s), t, i));
                    assert(waiting == was.stops_on(s)[t][i]);
                }
            }
            assert forall|s: Side, p: u64, k: OrderKey| #[trigger]
                storage::seated(self.store.levels_on(s), self.nodes@, p, k) implies {
                let name = self.nodes@[k].order.exchange_id@;
                &&& self.index@.contains_key(name)
                &&& self.index@[name] == was.index@[name]
            } by {
                assert(storage::seated(was.store.levels_on(s), was.nodes@, p, k));
            }
            assert forall|s: Side, t: u64| #[trigger] self.stops_on(s).contains_key(t) implies matching::distinct_names(
                self.stops_on(s)[t],
            ) && self.stops_on(s)[t].len() > 0 by {
                assert(was.stops_on(s).contains_key(t));
                assert(was.stops_on(s) == was.state().stops(s));
            }
            assert forall|name: Seq<char>| #[trigger] self.index@.contains_key(name) implies self.live_at(
                name,
                self.index@[name],
            ) by {
                assert(was.index@.contains_key(name));
                assert(was.live_at(name, was.index@[name]));
                match was.index@[name] {
                    OrderAddress::Book { side: s, price, key } => {},
                    OrderAddress::StopBook { side: s, trigger: t } => {
                        if s == side && t.minor() == trigger {
                            assert(matching::has_name(queue.remove(at), name));
                            let j = choose|j: int| #[trigger]
                                matching::name_at(queue.remove(at), name, j);
                            assert(queue.len() > 1);
                        }
                    },
                }
            }
            assert(model::in_line(self.state())) by {
                assert forall|s: Side, p: u64| #[trigger]
                    self.state().resting(s).contains_key(p) implies was.state().resting(
                    s,
                ).contains_key(p) by {}
            }
            assert(model::stops_sound(self.state())) by {
                assert(self.stop_bids@.dom().finite());
                assert(self.stop_asks@.dom().finite());
                assert(self.state().stop_bids.dom() =~= self.stop_bids@.dom());
                assert(self.state().stop_asks.dom() =~= self.stop_asks@.dom());
                assert forall|t: u64| #[trigger]
                    self.state().stop_bids.contains_key(t) implies self.state().stop_bids[t].len()
                    > 0 by {
                    assert(self.stops_on(Side::Bid).contains_key(t));
                }
                assert forall|t: u64| #[trigger]
                    self.state().stop_asks.contains_key(t) implies self.state().stop_asks[t].len()
                    > 0 by {
                    assert(self.stops_on(Side::Ask).contains_key(t));
                }
            }
        }
        order
    }

    /// Takes a live order out of the book.
    pub fn cancel_order(&mut self, exchange_id: ExchangeId) -> (r: Result<(), OrderBookError>)
        requires
            old(self).wf(),
        ensures
            final(self).wf(),
            final(self).venue() == old(self).venue(),
            if old(self).state().has_id(exchange_id@) {
                &&& r is Ok
                &&& model::cancels(old(self).state(), exchange_id@, final(self).state())
            } else {
                &&& r == Err::<(), OrderBookError>(OrderBookError::OrderNotFound)
                &&& final(self).state() == old(self).state()
            },
    {
        let ghost was = *self;
        proof {
            self.lemma_index();
        }
        let address = match self.index.get(&exchange_id) {
            Some(address) => address,
            None => return Err(OrderBookError::OrderNotFound),
        };
        proof {
            assert(was.live_at(exchange_id@, address));
        }
        match address {
            OrderAddress::Book { side, price, key } => {
                let ghost keys = self.store.levels_on(side)[price.minor()].queue.keys(self.nodes@);
                let ghost place = keys.index_of(key);
                self.index.remove(&exchange_id);
                self.store.take_out(&mut self.nodes, side, price, key);
                proof {
                    let shelf = Shelf::Levels(side);
                    let queues = was.state().on(shelf);
                    assert(queues == storage::orders_on(was.store.levels_on(side), was.nodes@));
                    assert(keys[place] == key);
                    assert(model::queued_at(queues, exchange_id@, price.minor(), place));
                    assert(self.state() =~= was.state().with(
                        shelf,
                        model::dequeued(queues, price.minor(), place),
                    ));
                    model::lemma_dequeued_in_line(was.state(), side, price.minor(), place);
                    was.lemma_taken_out(*self, exchange_id@, key);
                }
            },
            OrderAddress::StopBook { side, trigger } => {
                let queue = match side {
                    Side::Bid => storage::btree_get(&self.stop_bids, trigger.minor()),
                    Side::Ask => storage::btree_get(&self.stop_asks, trigger.minor()),
                };
                let place = stops::place_of(
                    queue.expect("indexed queue must exist"),
                    &exchange_id,
                );
                proof {
                    let i = choose|i: int| #[trigger]
                        matching::name_at(self.stops_on(side)[trigger.minor()], exchange_id@, i);
                    assert(matching::name_at(
                        self.stops_on(side)[trigger.minor()],
                        exchange_id@,
                        i,
                    ));
                    assert(place is Some);
                }
                let place: usize = place.expect("indexed stop must be waiting");
                self.drop_stop(side, trigger.minor(), place);
                proof {
                    let shelf = Shelf::Stops(side);
                    let queues = was.state().on(shelf);
                    assert(queues == was.stops_on(side));
                    assert(model::queued_at(queues, exchange_id@, trigger.minor(), place as int));
                }
            },
        }
        Ok(())
    }

    /// Taking an order out of its level and the index keeps the invariant.
    proof fn lemma_taken_out(&self, now: Self, id: Seq<char>, key: OrderKey)
        requires
            self.wf(),
            self.nodes@.contains_key(key),
            self.nodes@[key].order.exchange_id@ == id,
            self.index@.contains_key(id),
            self.index@[id] is Book,
            self.index@[id]->key == key,
            now.store.wf(),
            forall|p: u64| now.store.covers(p) == #[trigger] self.store.covers(p),
            forall|s: Side|
                storage::levels_sound(#[trigger] now.store.levels_on(s), now.nodes@, s),
            now.nodes@.dom() == self.nodes@.dom().remove(key),
            forall|k: OrderKey| #[trigger]
                self.nodes@.contains_key(k) && k != key ==> now.nodes@[k].order
                    == self.nodes@[k].order,
            forall|s: Side, p: u64, k: OrderKey| #[trigger]
                storage::seated(now.store.levels_on(s), now.nodes@, p, k) <==> k != key
                    && storage::seated(self.store.levels_on(s), self.nodes@, p, k),
            now.index.wf(),
            now.index@ == self.index@.remove(id),
            now == (OrderBook { store: now.store, nodes: now.nodes, index: now.index, ..*self }),
            model::in_line(now.state()),
        ensures
            now.wf(),
            now.venue() == self.venue(),
    {
        let lot = self.matcher.spec_lot_size();
        assert(now.venue() =~= self.venue());
        assert forall|s: Side, p: u64, k: OrderKey| #[trigger]
            storage::seated(now.store.levels_on(s), now.nodes@, p, k) implies {
            let name = now.nodes@[k].order.exchange_id@;
            &&& now.index@.contains_key(name)
            &&& now.index@[name] == (OrderAddress::Book {
                side: s,
                price: model::price_of(p),
                key: k,
            })
            &&& matching::in_lots(lot, now.nodes@[k].order)
        } by {
            assert(storage::seated(self.store.levels_on(s), self.nodes@, p, k));
            self.lemma_seated(s, p, k);
        }
        assert forall|s: Side, t: u64, i: int| #[trigger] placed(now.stops_on(s), t, i) implies {
            let waiting = now.stops_on(s)[t][i];
            &&& waits_at(waiting, s, t)
            &&& now.index@.contains_key(waiting.exchange_id@)
            &&& now.index@[waiting.exchange_id@] == (OrderAddress::StopBook {
                side: s,
                trigger: model::price_of(t),
            })
            &&& matching::in_lots(lot, waiting)
        } by {
            assert(placed(self.stops_on(s), t, i));
        }
        assert forall|s: Side, t: u64| #[trigger] now.stops_on(s).contains_key(t) implies self.stops_on(
            s,
        ).contains_key(t) by {}
        assert forall|name: Seq<char>| #[trigger] now.index@.contains_key(name) implies now.live_at(
            name,
            now.index@[name],
        ) by {
            assert(self.index@.contains_key(name));
            assert(self.live_at(name, self.index@[name]));
            match self.index@[name] {
                OrderAddress::Book { side, price, key: k } => {
                    self.lemma_seated(side, price.minor(), k);
                    assert(k != key);
                    assert(storage::seated(
                        now.store.levels_on(side),
                        now.nodes@,
                        price.minor(),
                        k,
                    ));
                },
                OrderAddress::StopBook { side, trigger } => {},
            }
        }
    }
}

// ---------------------------------------------------------------- queries

/// One level as it is in the book, without a copy of its orders.
pub struct PriceLevelView<'a> {
    pub price: Price,
    pub side: Side,
    pub(crate) queue: &'a LevelQueue,
    pub(crate) nodes: &'a OrderArena,
}

impl<'a> PriceLevelView<'a> {
    pub open(crate) spec fn wf(&self) -> bool {
        self.queue.wf(self.nodes@)
    }

    pub open(crate) spec fn at(&self) -> Price {
        self.price
    }

    pub open(crate) spec fn on_side(&self) -> Side {
        self.side
    }

    /// The orders of the level, oldest first.
    pub open(crate) spec fn queued(&self) -> Seq<Order> {
        self.queue.orders(self.nodes@)
    }

    fn new(level: &'a BookLevel, nodes: &'a OrderArena) -> (r: Self)
        requires
            level.queue.wf(nodes@),
        ensures
            r.wf(),
            r.price == level.price,
            r.side == level.side,
            r.queued() == level.queue.orders(nodes@),
    {
        PriceLevelView { price: level.price, side: level.side, queue: &level.queue, nodes }
    }

    pub fn is_empty(&self) -> (r: bool)
        requires
            self.wf(),
        ensures
            r == (self.queued().len() == 0),
    {
        proof {
            assert(self.queue.chain(self.nodes@, self.queue.keys(self.nodes@)));
        }
        self.queue.is_empty()
    }

    pub fn order_count(&self) -> (r: usize)
        requires
            self.wf(),
        ensures
            r == self.queued().len(),
    {
        proof {
            assert(self.queue.chain(self.nodes@, self.queue.keys(self.nodes@)));
        }
        self.queue.len()
    }

    /// The orders of the level, oldest first.
    pub fn orders(&self) -> (r: Vec<&'a Order>)
        requires
            self.wf(),
        ensures
            r@.len() == self.queued().len(),
            forall|i: int| 0 <= i < r@.len() ==> *#[trigger] r@[i] == self.queued()[i],
    {
        self.queue.iter(self.nodes)
    }

    /// What is left of the level. A level that holds more than 64 bits can count
    /// has no total.
    pub fn total_quantity(&self) -> (r: Qty)
        requires
            self.wf(),
            types::total_remaining(self.queued()) <= u64::MAX,
        ensures
            r.base() == types::total_remaining(self.queued()),
    {
        let orders: Vec<&Order> = self.queue.iter(self.nodes);
        let ghost all = types::remainders(self.queued());
        let mut total: u64 = 0;
        let mut i: usize = 0;
        proof {
            assert(all.take(0) =~= Seq::<int>::empty());
        }
        while i < orders.len()
            invariant
                i <= orders@.len(),
                orders@.len() == self.queued().len(),
                forall|j: int|
                    0 <= j < orders@.len() ==> *#[trigger] orders@[j] == self.queued()[j],
                all == types::remainders(self.queued()),
                sums::sum(all) <= u64::MAX,
                total == sums::sum(all.take(i as int)),
            decreases orders@.len() - i,
        {
            proof {
                sums::lemma_sum_step(all, i as int);
                sums::lemma_sum_prefix(all, i + 1);
                assert(*orders@[i as int] == self.queued()[i as int]);
            }
            total = total + orders[i].remaining_quantity.base();
            i = i + 1;
        }
        proof {
            assert(all.take(i as int) =~= all);
        }
        Qty::from_base_unchecked(total)
    }

    /// The level as an allocation policy sees it.
    pub fn makers(&self) -> (r: Vec<Maker>)
        requires
            self.wf(),
        ensures
            r@ == types::as_makers(self.queued()),
    {
        let mut makers: Vec<Maker> = Vec::new();
        let mut keys: Vec<OrderKey> = Vec::new();
        self.queue.collect_makers(self.nodes, &mut makers, &mut keys);
        makers
    }

    /// A copy of the level.
    pub fn to_owned(&self) -> (r: PriceLevel)
        requires
            self.wf(),
        ensures
            r.price == self.at(),
            r.side == self.on_side(),
            r.orders@ == self.queued(),
    {
        let orders: Vec<&Order> = self.queue.iter(self.nodes);
        let mut copy: Vec<Order> = Vec::new();
        let mut i: usize = 0;
        while i < orders.len()
            invariant
                i <= orders@.len(),
                orders@.len() == self.queued().len(),
                forall|j: int|
                    0 <= j < orders@.len() ==> *#[trigger] orders@[j] == self.queued()[j],
                copy@ == self.queued().take(i as int),
            decreases orders@.len() - i,
        {
            copy.push(orders[i].clone());
            proof {
                assert(copy@ =~= self.queued().take(i + 1));
            }
            i = i + 1;
        }
        proof {
            assert(self.queued().take(i as int) =~= self.queued());
        }
        PriceLevel { price: self.price, side: self.side, orders: copy }
    }
}

/// Whether a view is of the level of a side at a price.
pub open spec fn shows(view: PriceLevelView, state: BookState, side: Side, p: u64) -> bool {
    &&& view.wf()
    &&& view.at().minor() == p
    &&& view.on_side() == side
    &&& state.resting(side).contains_key(p)
    &&& view.queued() == state.resting(side)[p]
}

/// Whether an order of this name is at this place.
pub open spec fn located(state: BookState, id: Seq<char>, location: OrderLocation) -> bool {
    match location {
        OrderLocation::Book { side, price } => {
            &&& state.resting(side).contains_key(price.minor())
            &&& matching::has_name(state.resting(side)[price.minor()], id)
        },
        OrderLocation::StopBook { side, trigger } => {
            &&& state.stops(side).contains_key(trigger.minor())
            &&& matching::has_name(state.stops(side)[trigger.minor()], id)
        },
    }
}

impl<M: MatchingAlgorithm, S: OrderBookStore> OrderBook<M, S> {
    /// What is known of the level at a price.
    proof fn lemma_level(&self, side: Side, p: u64)
        requires
            self.wf(),
            self.store.levels_on(side).contains_key(p),
        ensures
            ({
                let level = self.store.levels_on(side)[p];
                &&& level.price.minor() == p
                &&& level.side == side
                &&& level.queue.wf(self.nodes@)
                &&& self.state().resting(side).contains_key(p)
                &&& self.state().resting(side)[p] == level.queue.orders(self.nodes@)
            }),
    {
        assert(storage::levels_sound(self.store.levels_on(side), self.nodes@, side));
    }

    /// The prices of a side are the same in the store and in the book.
    pub(crate) proof fn lemma_prices(&self, side: Side)
        requires
            self.wf(),
        ensures
            self.store.levels_on(side).dom() == self.state().resting(side).dom(),
            self.store.levels_on(side).dom().finite(),
            self.state().best(side) matches Some(p) ==> self.store.levels_on(side).contains_key(p),
    {
        self.store.lemma_wf();
        let dom = self.store.levels_on(side).dom();
        assert(dom.finite());
        assert(dom =~= self.state().resting(side).dom());
        if dom.len() > 0 {
            storage::lemma_best_exists(dom, side);
        }
    }

    /// The best price of a side.
    pub(crate) fn best_of(&self, side: Side) -> (r: Option<Price>)
        requires
            self.wf(),
        ensures
            r == (match self.state().best(side) {
                Some(p) => Some(model::price_of(p)),
                None => None,
            }),
    {
        proof {
            self.lemma_prices(side);
            if let Some(p) = self.state().best(side) {
                self.lemma_level(side, p);
            }
        }
        self.store.best_price(side)
    }

    /// The highest bid.
    pub fn best_bid(&self) -> (r: Option<Price>)
        requires
            self.wf(),
        ensures
            r == (match self.state().best(Side::Bid) {
                Some(p) => Some(model::price_of(p)),
                None => None,
            }),
            match r {
                Some(best) => {
                    &&& self.state().bids.contains_key(best.minor())
                    &&& forall|p: u64| #[trigger]
                        self.state().bids.contains_key(p) ==> p <= best.minor()
                },
                None => forall|p: u64| !#[trigger] self.state().bids.contains_key(p),
            },
    {
        proof {
            self.lemma_prices(Side::Bid);
            ledger::readers_show_the_best_first(self.state(), Side::Bid);
        }
        self.best_of(Side::Bid)
    }

    /// The lowest ask.
    pub fn best_ask(&self) -> (r: Option<Price>)
        requires
            self.wf(),
        ensures
            r == (match self.state().best(Side::Ask) {
                Some(p) => Some(model::price_of(p)),
                None => None,
            }),
            match r {
                Some(best) => {
                    &&& self.state().asks.contains_key(best.minor())
                    &&& forall|p: u64| #[trigger]
                        self.state().asks.contains_key(p) ==> p >= best.minor()
                },
                None => forall|p: u64| !#[trigger] self.state().asks.contains_key(p),
            },
    {
        proof {
            self.lemma_prices(Side::Ask);
            ledger::readers_show_the_best_first(self.state(), Side::Ask);
        }
        self.best_of(Side::Ask)
    }

    /// How far the best prices are apart, in ticks.
    pub fn spread(&self) -> (r: Option<Ticks>)
        requires
            self.wf(),
        ensures
            match r {
                Some(ticks) => {
                    let ask = self.state().best(Side::Ask);
                    let bid = self.state().best(Side::Bid);
                    &&& ask is Some
                    &&& bid is Some
                    &&& ticks.count() == self.venue().spec.spec_ticks_between(
                        model::price_of(ask->0),
                        model::price_of(bid->0),
                    )
                },
                None => self.state().best(Side::Ask) is None || self.state().best(Side::Bid)
                    is None,
            },
    {
        match (self.best_ask(), self.best_bid()) {
            (Some(ask), Some(bid)) => Some(self.spec.ticks_between(ask, bid)),
            _ => None,
        }
    }

    /// A copy of the best bid level.
    pub fn best_bid_level(&self) -> (r: Option<PriceLevel>)
        requires
            self.wf(),
        ensures
            match r {
                Some(level) => {
                    &&& self.state().best(Side::Bid) == Some(level.price.minor())
                    &&& level.side == Side::Bid
                    &&& level.orders@ == self.state().bids[level.price.minor()]
                },
                None => self.state().best(Side::Bid) is None,
            },
    {
        match self.best_level(Side::Bid) {
            Some(level) => Some(level.to_owned()),
            None => None,
        }
    }

    /// A copy of the best ask level.
    pub fn best_ask_level(&self) -> (r: Option<PriceLevel>)
        requires
            self.wf(),
        ensures
            match r {
                Some(level) => {
                    &&& self.state().best(Side::Ask) == Some(level.price.minor())
                    &&& level.side == Side::Ask
                    &&& level.orders@ == self.state().asks[level.price.minor()]
                },
                None => self.state().best(Side::Ask) is None,
            },
    {
        match self.best_level(Side::Ask) {
            Some(level) => Some(level.to_owned()),
            None => None,
        }
    }

    /// The best `levels` prices of a side, best first, each with what is left of
    /// its level. No level may hold more than 64 bits can count.
    pub fn depth(&self, side: Side, levels: usize) -> (r: Vec<(Price, Qty)>)
        requires
            self.wf(),
            forall|i: int|
                0 <= i < self.state().ranked(side).len() && i < levels ==> types::total_remaining(
                    self.state().resting(side)[#[trigger] self.state().ranked(side)[i]],
                ) <= u64::MAX,
        ensures
            r@.len() == allocation::min(
                levels as int,
                self.state().ranked(side).len() as int,
            ),
            r@.len() == (if levels < self.state().ranked(side).len() {
                levels as nat
            } else {
                self.state().ranked(side).len()
            }),
            forall|i: int|
                0 <= i < r@.len() ==> {
                    let p = self.state().ranked(side)[i];
                    &&& (#[trigger] r@[i]).0.minor() == p
                    &&& r@[i].1.base() == types::total_remaining(self.state().resting(side)[p])
                },
            forall|i: int, j: int|
                #![trigger r@[i], r@[j]]
                0 <= i < j < r@.len() ==> match side {
                    Side::Bid => r@[i].0.minor() > r@[j].0.minor(),
                    Side::Ask => r@[i].0.minor() < r@[j].0.minor(),
                },
    {
        proof {
            self.lemma_prices(side);
            ledger::readers_show_the_best_first(self.state(), side);
        }
        let all: Vec<PriceLevelView> = self.levels(side);
        let ghost ranked = self.state().ranked(side);
        let mut depth: Vec<(Price, Qty)> = Vec::new();
        let mut i: usize = 0;
        while i < all.len() && i < levels
            invariant
                i <= all@.len(),
                i <= levels,
                ranked == self.state().ranked(side),
                all@.len() == ranked.len(),
                forall|j: int|
                    0 <= j < all@.len() ==> shows(#[trigger] all@[j], self.state(), side, ranked[j]),
                forall|j: int|
                    0 <= j < ranked.len() && j < levels ==> types::total_remaining(
                        self.state().resting(side)[#[trigger] ranked[j]],
                    ) <= u64::MAX,
                depth@.len() == i,
                forall|j: int|
                    0 <= j < i ==> {
                        &&& (#[trigger] depth@[j]).0.minor() == ranked[j]
                        &&& depth@[j].1.base() == types::total_remaining(
                            self.state().resting(side)[ranked[j]],
                        )
                    },
            decreases all@.len() - i,
        {
            let level: &PriceLevelView = &all[i];
            proof {
                assert(shows(all@[i as int], self.state(), side, ranked[i as int]));
            }
            depth.push((level.price, level.total_quantity()));
            i = i + 1;
        }
        depth
    }

    /// The levels of a side, best price first.
    pub fn levels(&self, side: Side) -> (r: Vec<PriceLevelView<'_>>)
        requires
            self.wf(),
        ensures
            r@.len() == self.state().ranked(side).len(),
            forall|i: int|
                0 <= i < r@.len() ==> shows(
                    #[trigger] r@[i],
                    self.state(),
                    side,
                    self.state().ranked(side)[i],
                ),
            forall|i: int, j: int|
                #![trigger r@[i], r@[j]]
                0 <= i < j < r@.len() ==> match side {
                    Side::Bid => r@[i].at().minor() > r@[j].at().minor(),
                    Side::Ask => r@[i].at().minor() < r@[j].at().minor(),
                },
    {
        proof {
            self.lemma_prices(side);
            ledger::readers_show_the_best_first(self.state(), side);
            storage::lemma_ranked(self.store.levels_on(side).dom(), side);
        }
        let ghost ranked = self.state().ranked(side);
        let held: Vec<&BookLevel> = self.store.levels(side);
        let mut views: Vec<PriceLevelView> = Vec::new();
        let mut i: usize = 0;
        while i < held.len()
            invariant
                i <= held@.len(),
                self.wf(),
                ranked == self.state().ranked(side),
                held@.len() == ranked.len(),
                forall|j: int|
                    0 <= j < held@.len() ==> *#[trigger] held@[j] == self.store.levels_on(
                        side,
                    )[ranked[j]],
                forall|j: int|
                    0 <= j < ranked.len() ==> self.store.levels_on(side).contains_key(
                        #[trigger] ranked[j],
                    ),
                views@.len() == i,
                forall|j: int|
                    0 <= j < i ==> shows(#[trigger] views@[j], self.state(), side, ranked[j]),
            decreases held@.len() - i,
        {
            proof {
                assert(*held@[i as int] == self.store.levels_on(side)[ranked[i as int]]);
                self.lemma_level(side, ranked[i as int]);
            }
            views.push(PriceLevelView::new(held[i], &self.nodes));
            i = i + 1;
        }
        views
    }

    /// The level of a side at a price.
    pub fn level(&self, side: Side, price: Price) -> (r: Option<PriceLevelView<'_>>)
        requires
            self.wf(),
        ensures
            match r {
                Some(view) => shows(view, self.state(), side, price.minor()),
                None => !self.state().resting(side).contains_key(price.minor()),
            },
    {
        proof {
            self.lemma_prices(side);
            if self.store.levels_on(side).contains_key(price.minor()) {
                self.lemma_level(side, price.minor());
            }
        }
        match self.store.level(side, price) {
            Some(level) => Some(PriceLevelView::new(level, &self.nodes)),
            None => {
                proof {
                    assert(!self.state().resting(side).dom().contains(price.minor()));
                }
                None
            },
        }
    }

    /// The level of a side at its best price.
    pub fn best_level(&self, side: Side) -> (r: Option<PriceLevelView<'_>>)
        requires
            self.wf(),
        ensures
            match r {
                Some(view) => {
                    &&& self.state().best(side) == Some(view.at().minor())
                    &&& shows(view, self.state(), side, view.at().minor())
                },
                None => self.state().best(side) is None,
            },
    {
        proof {
            self.lemma_prices(side);
            if let Some(p) = self.state().best(side) {
                self.lemma_level(side, p);
            }
        }
        match self.store.best_level(side) {
            Some(level) => Some(PriceLevelView::new(level, &self.nodes)),
            None => None,
        }
    }

    /// Where a live order is.
    pub fn order_location(&self, id: &ExchangeId) -> (r: Option<OrderLocation>)
        requires
            self.wf(),
        ensures
            match r {
                Some(location) => located(self.state(), id@, location),
                None => !self.state().has_id(id@),
            },
    {
        proof {
            self.lemma_index();
        }
        let address = match self.index.get(id) {
            Some(address) => address,
            None => return None,
        };
        let ghost i = self.lemma_found(id@);
        let location = address.location();
        proof {
            match address {
                OrderAddress::Book { side, price, key } => {
                    assert(location == (OrderLocation::Book { side, price }));
                    assert(model::queued_at(self.state().resting(side), id@, price.minor(), i));
                    assert(matching::name_at(self.state().resting(side)[price.minor()], id@, i));
                },
                OrderAddress::StopBook { side, trigger } => {
                    assert(location == (OrderLocation::StopBook { side, trigger }));
                    assert(model::queued_at(self.state().stops(side), id@, trigger.minor(), i));
                    assert(matching::name_at(self.state().stops(side)[trigger.minor()], id@, i));
                },
            }
        }
        Some(location)
    }

    /// An indexed order is in the book at the place that the index names.
    proof fn lemma_found(&self, id: Seq<char>) -> (i: int)
        requires
            self.wf(),
            self.index@.contains_key(id),
        ensures
            match self.index@[id] {
                OrderAddress::Book { side, price, key } => {
                    &&& model::queued_at(self.state().resting(side), id, price.minor(), i)
                    &&& self.nodes@.contains_key(key)
                    &&& self.state().resting(side)[price.minor()][i] == self.nodes@[key].order
                },
                OrderAddress::StopBook { side, trigger } => {
                    model::queued_at(self.state().stops(side), id, trigger.minor(), i)
                },
            },
    {
        assert(self.live_at(id, self.index@[id]));
        match self.index@[id] {
            OrderAddress::Book { side, price, key } => {
                let levels = self.store.levels_on(side);
                let keys = levels[price.minor()].queue.keys(self.nodes@);
                let i = keys.index_of(key);
                assert(keys[i] == key);
                self.lemma_seated(side, price.minor(), key);
                self.lemma_level(side, price.minor());
                i
            },
            OrderAddress::StopBook { side, trigger } => {
                assert(self.stops_on(side) == self.state().stops(side));
                choose|i: int| #[trigger]
                    matching::name_at(self.stops_on(side)[trigger.minor()], id, i)
            },
        }
    }

    /// How many orders are live, waiting stops among them.
    pub fn order_count(&self) -> (r: usize)
        requires
            self.wf(),
        ensures
            self.state().live_names().finite(),
            r == self.state().live_names().len(),
    {
        proof {
            self.lemma_index();
            assert(self.index@.dom() =~= self.state().live_names()) by {
                assert forall|id: Seq<char>| #[trigger]
                    self.index@.dom().contains(id) <==> self.state().live_names().contains(id) by {
                    assert(self.index@.contains_key(id) <==> self.state().has_id(id));
                }
            }
        }
        self.index.len()
    }

    /// The names of the live orders, waiting stops among them, each once, in no
    /// particular order.
    pub fn order_ids(&self) -> (r: Vec<&ExchangeId>)
        requires
            self.wf(),
        ensures
            forall|i: int| 0 <= i < r@.len() ==> self.state().has_id((#[trigger] r@[i])@),
            forall|i: int, j: int|
                0 <= i < j < r@.len() ==> (#[trigger] r@[i])@ != (#[trigger] r@[j])@,
            forall|id: Seq<char>| #[trigger]
                self.state().has_id(id) ==> exists|i: int|
                    0 <= i < r@.len() && (#[trigger] r@[i])@ == id,
    {
        proof {
            self.lemma_index();
        }
        let ids = self.index.ids();
        proof {
            assert forall|i: int| 0 <= i < ids@.len() implies self.state().has_id(
                (#[trigger] ids@[i])@,
            ) by {
                assert(self.index@.contains_key(ids@[i]@));
            }
            assert forall|id: Seq<char>| #[trigger] self.state().has_id(id) implies exists|i: int|
                0 <= i < ids@.len() && (#[trigger] ids@[i])@ == id by {
                assert(self.index@.contains_key(id));
            }
        }
        ids
    }

    /// The live order of a name, resting or waiting.
    pub fn get_order(&self, exchange_id: &ExchangeId) -> (r: Option<&Order>)
        requires
            self.wf(),
        ensures
            match r {
                Some(order) => exists|shelf: Shelf, p: u64, i: int|
                    #[trigger] model::queued_at(self.state().on(shelf), exchange_id@, p, i)
                        && *order == self.state().on(shelf)[p][i],
                None => !self.state().has_id(exchange_id@),
            },
    {
        proof {
            self.lemma_index();
        }
        let address = match self.index.get(exchange_id) {
            Some(address) => address,
            None => return None,
        };
        let ghost i = self.lemma_found(exchange_id@);
        match address {
            OrderAddress::Book { side, price, key } => {
                let node = self.nodes.get(key).expect("indexed node must be live");
                proof {
                    assert(model::queued_at(
                        self.state().on(Shelf::Levels(side)),
                        exchange_id@,
                        price.minor(),
                        i,
                    ));
                }
                Some(&node.order)
            },
            OrderAddress::StopBook { side, trigger } => {
                let found = match side {
                    Side::Bid => stops::find(&self.stop_bids, trigger.minor(), exchange_id),
                    Side::Ask => stops::find(&self.stop_asks, trigger.minor(), exchange_id),
                };
                proof {
                    let queues = self.state().on(Shelf::Stops(side));
                    assert(queues == self.stops_on(side));
                    assert(model::queued_at(queues, exchange_id@, trigger.minor(), i));
                    let j = choose|j: int| #[trigger]
                        model::first_at(queues, exchange_id@, trigger.minor(), j)
                            && *found->0 == queues[trigger.minor()][j];
                    assert(model::queued_at(queues, exchange_id@, trigger.minor(), j));
                }
                found
            },
        }
    }

    /// Whether a limit order would trade at once.
    pub fn crosses(&self, side: Side, price: Price) -> (r: bool)
        requires
            self.wf(),
        ensures
            r == (match self.state().best(model::opposite(side)) {
                Some(p) => model::acceptable(side, Some(price), p),
                None => false,
            }),
            r <==> (match side {
                Side::Bid => exists|p: u64| #[trigger]
                    self.state().asks.contains_key(p) && p <= price.minor(),
                Side::Ask => exists|p: u64| #[trigger]
                    self.state().bids.contains_key(p) && p >= price.minor(),
            }),
    {
        match side {
            Side::Ask => match self.best_bid() {
                None => false,
                Some(best_bid) => price.minor() <= best_bid.minor(),
            },
            Side::Bid => match self.best_ask() {
                None => false,
                Some(best_ask) => price.minor() >= best_ask.minor(),
            },
        }
    }
}

// ---------------------------------------------------------------- laws

/// No two live orders have the same name.
pub proof fn live_names_are_distinct<M: MatchingAlgorithm, S: OrderBookStore>(
    book: OrderBook<M, S>,
)
    requires
        book.wf(),
    ensures
        book.state().names_unique(),
{
    let state = book.state();
    assert forall|a: Shelf, p: u64, i: int, id: Seq<char>| #[trigger]
        model::queued_at(state.on(a), id, p, i) implies book.index@.contains_key(id) && (match a {
        Shelf::Levels(side) => {
            let keys = book.store.levels_on(side)[p].queue.keys(book.nodes@);
            &&& 0 <= i < keys.len()
            &&& keys.no_duplicates()
            &&& book.index@[id] == (OrderAddress::Book {
                side,
                price: model::price_of(p),
                key: keys[i],
            })
        },
        Shelf::Stops(side) => {
            &&& book.index@[id] == (OrderAddress::StopBook {
                side,
                trigger: model::price_of(p),
            })
            &&& matching::distinct_names(state.stops(side)[p])
        },
    }) by {
        match a {
            Shelf::Levels(side) => {
                let levels = book.store.levels_on(side);
                assert(state.on(a) == storage::orders_on(levels, book.nodes@));
                assert(storage::levels_sound(levels, book.nodes@, side));
                let queue = levels[p].queue;
                let keys = queue.keys(book.nodes@);
                assert(queue.chain(book.nodes@, keys));
                order_queue::lemma_chain_distinct(queue, book.nodes@, keys);
                assert(keys.contains(keys[i]));
                assert(storage::seated(levels, book.nodes@, p, keys[i]));
            },
            Shelf::Stops(side) => {
                assert(state.on(a) == book.stops_on(side));
                assert(placed(book.stops_on(side), p, i));
                assert(book.stops_on(side).contains_key(p));
            },
        }
    }
    assert forall|a: Shelf, p: u64, i: int, b: Shelf, q: u64, j: int, id: Seq<char>|
        #![trigger model::queued_at(state.on(a), id, p, i), model::queued_at(state.on(b), id, q, j)]
        model::queued_at(state.on(a), id, p, i) && model::queued_at(
            state.on(b),
            id,
            q,
            j,
        ) implies a == b && p == q && i == j by {
        match (a, b) {
            (Shelf::Levels(s), Shelf::Levels(t)) => {},
            (Shelf::Stops(s), Shelf::Stops(t)) => {
                assert(s == t && p == q);
                let queue = state.stops(s)[p];
                if i < j {
                    assert(queue[i].exchange_id@ != queue[j].exchange_id@);
                }
                if j < i {
                    assert(queue[j].exchange_id@ != queue[i].exchange_id@);
                }
            },
            _ => {},
        }
    }
}

} // verus!
