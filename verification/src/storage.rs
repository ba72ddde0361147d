//! Where the price levels of a book are held. How levels are found is one
//! choice, how a level is shared out among its orders is another; the two are
//! independent.

use crate::instrument::InstrumentSpec;
use crate::model;
use crate::order_queue;
use crate::order_queue::LevelQueue;
use crate::order_queue::Node;
use crate::order_queue::OrderArena;
use crate::order_queue::OrderKey;
use crate::types::ExchangeId;
use crate::types::Order;
use crate::types::OrderType;
use crate::types::Price;
use crate::types::Side;
use std::collections::hash_map::Entry;
use std::collections::BTreeMap;
use std::collections::HashMap;
use std::collections::TryReserveError;
use vstd::prelude::*;

verus! {

#[derive(Debug, Clone, Copy, PartialEq, Eq, Structural)]
pub enum StoreError {
    /// A dense ladder needs an upper price bound.
    UnboundedPriceRange,
    /// The price span cannot be represented or allocated.
    PriceRangeTooLarge,
    /// The price is outside the span that the store was made for.
    PriceOutsideRange,
    /// Only limit orders can rest.
    NotRestable,
    /// An order was offered to a level of the other side.
    InvalidSide,
}

/// One price on one side, and the queue of its orders.
#[derive(Debug)]
pub struct BookLevel {
    pub price: Price,
    pub side: Side,
    pub queue: LevelQueue,
}

impl Clone for BookLevel {
    fn clone(&self) -> (r: Self)
        ensures
            r == *self,
    {
        BookLevel { price: self.price, side: self.side, queue: self.queue.clone() }
    }
}

impl BookLevel {
    /// A level without orders.
    pub open(crate) spec fn fresh(price: Price, side: Side) -> BookLevel {
        BookLevel { price, side, queue: LevelQueue { head: None, tail: None, len: 0 } }
    }

    pub fn new(price: Price, side: Side) -> (r: Self)
        ensures
            r == Self::fresh(price, side),
            r.price == price,
            r.side == side,
            r.queue.len() == 0,
    {
        BookLevel { price, side, queue: LevelQueue { head: None, tail: None, len: 0 } }
    }

    pub fn is_empty(&self) -> (r: bool)
        ensures
            r == (self.queue.len() == 0),
    {
        self.queue.is_empty()
    }
}

// ---------------------------------------------------------------- best price first

/// Whether price `p` is at least as good as `q`: a bid is better when it is
/// higher, an ask when it is lower.
pub open spec fn no_worse(side: Side, p: u64, q: u64) -> bool {
    match side {
        Side::Bid => p >= q,
        Side::Ask => p <= q,
    }
}

/// Whether `p` is the best of the prices.
pub open spec fn is_best(prices: Set<u64>, side: Side, p: u64) -> bool {
    &&& prices.contains(p)
    &&& forall|q: u64| #[trigger] prices.contains(q) ==> no_worse(side, p, q)
}

/// The best of the prices, if there are any.
pub open spec fn best(prices: Set<u64>, side: Side) -> Option<u64> {
    if prices.len() == 0 {
        None
    } else {
        Some(choose|p: u64| is_best(prices, side, p))
    }
}

/// The prices, best first.
pub open spec fn ranked(prices: Set<u64>, side: Side) -> Seq<u64>
    decreases prices.len(),
    when prices.finite()
{
    if prices.len() == 0 {
        Seq::empty()
    } else {
        let p = best(prices, side)->0;
        if prices.contains(p) {
            seq![p] + ranked(prices.remove(p), side)
        } else {
            Seq::empty()
        }
    }
}

/// A finite set of prices that is not empty has a best one.
pub proof fn lemma_best_exists(prices: Set<u64>, side: Side)
    requires
        prices.finite(),
        prices.len() > 0,
    ensures
        best(prices, side) is Some,
        is_best(prices, side, best(prices, side)->0),
    decreases prices.len(),
{
    let a = prices.choose();
    assert(prices.contains(a));
    let rest = prices.remove(a);
    if rest.len() == 0 {
        assert forall|q: u64| #[trigger] prices.contains(q) implies no_worse(side, a, q) by {
            if q != a {
                assert(rest.contains(q));
                assert(rest =~= Set::empty());
            }
        }
        assert(is_best(prices, side, a));
    } else {
        lemma_best_exists(rest, side);
        let b = best(rest, side)->0;
        assert(rest.contains(b));
        let p = if no_worse(side, a, b) {
            a
        } else {
            b
        };
        assert forall|q: u64| #[trigger] prices.contains(q) implies no_worse(side, p, q) by {
            if q != a {
                assert(rest.contains(q));
            }
        }
        assert(is_best(prices, side, p));
    }
}

/// There is one best price only.
pub proof fn lemma_best_unique(prices: Set<u64>, side: Side, p: u64)
    requires
        prices.finite(),
        is_best(prices, side, p),
    ensures
        best(prices, side) == Some(p),
        prices.len() > 0,
{
    assert(prices.len() > 0) by {
        if prices.len() == 0 {
            assert(prices =~= Set::empty());
        }
    }
    lemma_best_exists(prices, side);
    let b = best(prices, side)->0;
    assert(prices.contains(b));
    assert(prices.contains(p));
    assert(no_worse(side, p, b));
    assert(no_worse(side, b, p));
}

/// Whether a list of prices goes strictly from better to worse.
pub open spec fn descends(list: Seq<u64>, side: Side) -> bool {
    forall|i: int, j: int|
        #![trigger list[i], list[j]]
        0 <= i < j < list.len() ==> no_worse(side, list[i], list[j]) && list[i] != list[j]
}

/// A list from better to worse that has exactly the given prices is the ranking.
pub proof fn lemma_ranked_unique(prices: Set<u64>, side: Side, list: Seq<u64>)
    requires
        prices.finite(),
        descends(list, side),
        forall|p: u64| #[trigger] prices.contains(p) <==> list.contains(p),
    ensures
        ranked(prices, side) == list,
    decreases list.len(),
{
    if list.len() == 0 {
        if prices.len() > 0 {
            let p = prices.choose();
            assert(prices.contains(p));
            assert(list.contains(p));
        }
        assert(ranked(prices, side) =~= list);
    } else {
        let p = list[0];
        assert(list.contains(p));
        assert forall|q: u64| #[trigger] prices.contains(q) implies no_worse(side, p, q) by {
            assert(list.contains(q));
            let j = choose|j: int| 0 <= j < list.len() && list[j] == q;
            if j > 0 {
                assert(list[0] == p && list[j] == q);
            }
        }
        lemma_best_unique(prices, side, p);
        let rest = list.skip(1);
        let others = prices.remove(p);
        assert forall|q: u64| #[trigger] others.contains(q) <==> rest.contains(q) by {
            if others.contains(q) {
                assert(list.contains(q));
                let j = choose|j: int| 0 <= j < list.len() && list[j] == q;
                assert(rest[j - 1] == q);
            }
            if rest.contains(q) {
                let j = choose|j: int| 0 <= j < rest.len() && rest[j] == q;
                assert(list[j + 1] == q && list[0] == p);
                assert(list.contains(q));
            }
        }
        assert(descends(rest, side)) by {
            assert forall|i: int, j: int| 0 <= i < j < rest.len() implies #[trigger] no_worse(
                side,
                rest[i],
                rest[j],
            ) && rest[i] != rest[j] by {
                assert(rest[i] == list[i + 1] && rest[j] == list[j + 1]);
            }
        }
        lemma_ranked_unique(others, side, rest);
        assert(seq![p] + rest =~= list);
    }
}

/// The ranking goes from better to worse and has exactly the given prices.
pub proof fn lemma_ranked(prices: Set<u64>, side: Side)
    requires
        prices.finite(),
    ensures
        descends(ranked(prices, side), side),
        forall|p: u64| #[trigger] prices.contains(p) <==> ranked(prices, side).contains(p),
        ranked(prices, side).len() == prices.len(),
        prices.len() > 0 ==> ranked(prices, side)[0] == best(prices, side)->0,
    decreases prices.len(),
{
    let list = ranked(prices, side);
    if prices.len() == 0 {
        assert(prices =~= Set::empty());
        assert forall|p: u64| #[trigger] prices.contains(p) <==> list.contains(p) by {}
    } else {
        lemma_best_exists(prices, side);
        let p = best(prices, side)->0;
        let others = prices.remove(p);
        let rest = ranked(others, side);
        lemma_ranked(others, side);
        assert(list == seq![p] + rest);
        assert forall|q: u64| #[trigger] prices.contains(q) <==> list.contains(q) by {
            if prices.contains(q) && q != p {
                assert(others.contains(q));
                assert(rest.contains(q));
                let j = choose|j: int| 0 <= j < rest.len() && rest[j] == q;
                assert(list[j + 1] == q);
            }
            assert(list[0] == p);
            if list.contains(q) && q != p {
                let j = choose|j: int| 0 <= j < list.len() && list[j] == q;
                assert(rest[j - 1] == q);
                assert(rest.contains(q));
                assert(others.contains(q));
            }
        }
        assert forall|i: int, j: int|
            #![trigger list[i], list[j]]
            0 <= i < j < list.len() implies no_worse(side, list[i], list[j]) && list[i]
            != list[j] by {
            assert(list[j] == rest[j - 1]);
            assert(rest.contains(rest[j - 1]));
            assert(others.contains(rest[j - 1]));
            assert(prices.contains(rest[j - 1]));
            if i > 0 {
                assert(list[i] == rest[i - 1]);
            }
        }
    }
}

// ---------------------------------------------------------------- the interface

/// The store interface that matching and queries need. What a store holds is,
/// for each side, a map from price in minor units to level.
pub trait OrderBookStore: Sized + Clone {
    /// Whether the store's own bookkeeping is sound.
    spec fn wf(&self) -> bool;

    /// The levels of one side, by price in minor units.
    spec fn levels_on(&self, side: Side) -> Map<u64, BookLevel>;

    /// Whether the store can hold a level at a price.
    spec fn covers(&self, price: u64) -> bool;

    /// Whether a store that is made for an instrument can hold a level at a price.
    spec fn spans(spec: InstrumentSpec, price: u64) -> bool;

    /// Why no store can be made for an instrument, or `None`.
    spec fn refusal(spec: InstrumentSpec) -> Option<StoreError>;

    /// Whether making a store takes memory in proportion to the price span, so
    /// that it can fail for want of it.
    spec fn reserves(spec: InstrumentSpec) -> bool;

    /// What a sound store holds is finite, and within what it covers.
    proof fn lemma_wf(&self)
        requires
            self.wf(),
        ensures
            forall|side: Side| #[trigger] self.levels_on(side).dom().finite(),
            forall|side: Side, p: u64| #[trigger]
                self.levels_on(side).contains_key(p) ==> self.covers(p),
    ;

    /// A copy of a store holds the same levels and is as sound.
    proof fn lemma_cloned(a: &Self, b: &Self)
        requires
            cloned(*a, *b),
        ensures
            a.wf() ==> b.wf(),
            forall|side: Side| #[trigger] b.levels_on(side) == a.levels_on(side),
            forall|p: u64| #[trigger] b.covers(p) == a.covers(p),
    ;

    /// An empty store for an instrument. Apart from memory, it holds every price
    /// of the instrument's band that is on the tick grid.
    fn try_new(spec: InstrumentSpec) -> (r: Result<Self, StoreError>)
        requires
            spec.wf(),
        ensures
            match r {
                Ok(store) => {
                    &&& Self::refusal(spec) is None
                    &&& store.wf()
                    &&& forall|side: Side| #[trigger]
                        store.levels_on(side) == Map::<u64, BookLevel>::empty()
                    &&& forall|p: u64| #[trigger] store.covers(p) == Self::spans(spec, p)
                    &&& forall|p: Price|
                        spec.on_tick(p) && spec.price_refusal(p) is None ==> store.covers(
                            #[trigger] p.minor(),
                        )
                },
                Err(error) => {
                    ||| Self::refusal(spec) == Some(error)
                    ||| Self::refusal(spec) is None && Self::reserves(spec) && error
                        == StoreError::PriceRangeTooLarge
                },
            },
    ;

    /// The level at a price, made empty where there is none.
    fn ensure_level(&mut self, side: Side, price: Price) -> (r: Result<&mut BookLevel, StoreError>)
        requires
            old(self).wf(),
        ensures
            forall|p: u64| final(self).covers(p) == #[trigger] old(self).covers(p),
            final(self).wf(),
            match r {
                Ok(level) => {
                    &&& old(self).covers(price.minor())
                    &&& *level == (if old(self).levels_on(side).contains_key(price.minor()) {
                        old(self).levels_on(side)[price.minor()]
                    } else {
                        BookLevel::fresh(price, side)
                    })
                    &&& forall|s: Side| #[trigger]
                        final(self).levels_on(s) =~= (if s == side {
                            old(self).levels_on(s).insert(price.minor(), *final(level))
                        } else {
                            old(self).levels_on(s)
                        })
                },
                Err(error) => {
                    &&& !old(self).covers(price.minor())
                    &&& error == StoreError::PriceOutsideRange
                    &&& forall|s: Side| #[trigger]
                        final(self).levels_on(s) =~= old(self).levels_on(s)
                },
            },
    ;

    /// The level at a price.
    fn level(&self, side: Side, price: Price) -> (r: Option<&BookLevel>)
        requires
            self.wf(),
        ensures
            r == (if self.levels_on(side).contains_key(price.minor()) {
                Some(&self.levels_on(side)[price.minor()])
            } else {
                None
            }),
    ;

    /// The level at a price, to be changed.
    fn level_mut(&mut self, side: Side, price: Price) -> (r: Option<&mut BookLevel>)
        requires
            old(self).wf(),
        ensures
            forall|p: u64| final(self).covers(p) == #[trigger] old(self).covers(p),
            final(self).wf(),
            match r {
                Some(level) => {
                    &&& old(self).levels_on(side).contains_key(price.minor())
                    &&& *level == old(self).levels_on(side)[price.minor()]
                    &&& forall|s: Side| #[trigger]
                        final(self).levels_on(s) =~= (if s == side {
                            old(self).levels_on(s).insert(price.minor(), *final(level))
                        } else {
                            old(self).levels_on(s)
                        })
                },
                None => {
                    &&& !old(self).levels_on(side).contains_key(price.minor())
                    &&& forall|s: Side| #[trigger]
                        final(self).levels_on(s) =~= old(self).levels_on(s)
                },
            },
    ;

    /// The level at the best price of a side.
    fn best_level(&self, side: Side) -> (r: Option<&BookLevel>)
        requires
            self.wf(),
        ensures
            r == (match best(self.levels_on(side).dom(), side) {
                Some(p) => Some(&self.levels_on(side)[p]),
                None => None,
            }),
    ;

    /// The level at the best price of a side, to be changed.
    fn best_level_mut(&mut self, side: Side) -> (r: Option<&mut BookLevel>)
        requires
            old(self).wf(),
        ensures
            forall|p: u64| final(self).covers(p) == #[trigger] old(self).covers(p),
            final(self).wf(),
            match r {
                Some(level) => {
                    let p = best(old(self).levels_on(side).dom(), side);
                    &&& p is Some
                    &&& *level == old(self).levels_on(side)[p->0]
                    &&& forall|s: Side| #[trigger]
                        final(self).levels_on(s) =~= (if s == side {
                            old(self).levels_on(s).insert(p->0, *final(level))
                        } else {
                            old(self).levels_on(s)
                        })
                },
                None => {
                    &&& best(old(self).levels_on(side).dom(), side) is None
                    &&& forall|s: Side| #[trigger]
                        final(self).levels_on(s) =~= old(self).levels_on(s)
                },
            },
    ;

    /// Takes a level out.
    fn remove_level(&mut self, side: Side, price: Price) -> (r: Option<BookLevel>)
        requires
            old(self).wf(),
        ensures
            forall|p: u64| final(self).covers(p) == #[trigger] old(self).covers(p),
            final(self).wf(),
            r == (if old(self).levels_on(side).contains_key(price.minor()) {
                Some(old(self).levels_on(side)[price.minor()])
            } else {
                None
            }),
            forall|s: Side| #[trigger]
                final(self).levels_on(s) =~= (if s == side {
                    old(self).levels_on(s).remove(price.minor())
                } else {
                    old(self).levels_on(s)
                }),
    ;

    /// The levels of a side, best price first.
    fn levels(&self, side: Side) -> (r: Vec<&BookLevel>)
        requires
            self.wf(),
        ensures
            r@.len() == ranked(self.levels_on(side).dom(), side).len(),
            forall|i: int|
                0 <= i < r@.len() ==> *#[trigger] r@[i] == self.levels_on(side)[ranked(
                    self.levels_on(side).dom(),
                    side,
                )[i]],
    ;

    /// The price of the best level of a side.
    fn best_price(&self, side: Side) -> (r: Option<Price>)
        requires
            self.wf(),
        ensures
            r == (match best(self.levels_on(side).dom(), side) {
                Some(p) => Some(self.levels_on(side)[p].price),
                None => None,
            }),
    {
        match self.best_level(side) {
            Some(level) => Some(level.price),
            None => None,
        }
    }

    /// Puts a limit order at the back of its level, which is made where there is
    /// none.
    fn add(&mut self, nodes: &mut OrderArena, order: Order) -> (r: Result<OrderKey, StoreError>)
        requires
            old(self).wf(),
            forall|side: Side| levels_sound(#[trigger] old(self).levels_on(side), old(nodes)@, side),
            old(nodes)@.dom().finite(),
            order.order_type is Limit && old(self).covers(
                order.order_type.limit_price()->0.minor(),
            ) ==> old(nodes)@.dom().len() < u32::MAX - 1,
        ensures
            final(self).wf(),
            forall|p: u64| final(self).covers(p) == #[trigger] old(self).covers(p),
            forall|side: Side| levels_sound(#[trigger] final(self).levels_on(side), final(nodes)@, side),
            match r {
                Ok(key) => {
                    let p = order.order_type.limit_price()->0.minor();
                    &&& order.order_type is Limit
                    &&& old(self).covers(p)
                    &&& !old(nodes)@.contains_key(key)
                    &&& final(nodes)@.dom() == old(nodes)@.dom().insert(key)
                    &&& final(nodes)@[key].order == order
                    &&& forall|k: OrderKey| #[trigger]
                        old(nodes)@.contains_key(k) ==> final(nodes)@[k].order
                            == old(nodes)@[k].order
                    &&& forall|s: Side, q: u64, k: OrderKey| #[trigger]
                        seated(final(self).levels_on(s), final(nodes)@, q, k) <==> seated(
                            old(self).levels_on(s),
                            old(nodes)@,
                            q,
                            k,
                        ) || (s == order.side && q == p && k == key)
                    &&& forall|s: Side|
                        orders_on(#[trigger] final(self).levels_on(s), final(nodes)@) == (if s
                            == order.side {
                            model::enqueued(orders_on(old(self).levels_on(s), old(nodes)@), p, order)
                        } else {
                            orders_on(old(self).levels_on(s), old(nodes)@)
                        })
                },
                Err(error) => {
                    &&& final(nodes)@ == old(nodes)@
                    &&& forall|s: Side| #[trigger]
                        final(self).levels_on(s) =~= old(self).levels_on(s)
                    &&& if order.order_type is Limit {
                        &&& error == StoreError::PriceOutsideRange
                        &&& !old(self).covers(order.order_type.limit_price()->0.minor())
                    } else {
                        error == StoreError::NotRestable
                    }
                },
            },
    {
        let price = match order.order_type {
            OrderType::Limit { price, .. } => price,
            _ => return Err(StoreError::NotRestable),
        };
        let side = order.side;
        let ghost before = nodes@;
        let ghost was = *self;
        let ghost p = price.minor();
        let ghost levels = self.levels_on(side);
        let ghost start = if levels.contains_key(p) {
            levels[p]
        } else {
            BookLevel::fresh(price, side)
        };
        let ghost keys = if levels.contains_key(p) {
            start.queue.keys(before)
        } else {
            Seq::<OrderKey>::empty()
        };
        proof {
            assert(levels_sound(levels, before, side));
            if levels.contains_key(p) {
                assert(start.queue.chain(before, keys));
            } else {
                assert(start.queue.chain(before, keys));
            }
            order_queue::lemma_keys(start.queue, before, keys);
            lemma_queue_bounded(start.queue, before);
            assert forall|k: OrderKey| #[trigger] keys.contains(k) implies at_home(
                before[k].order,
                side,
                p,
            ) && before.contains_key(k) by {
                let i = keys.index_of(k);
                assert(keys[i] == k);
                order_queue::lemma_chain_distinct(start.queue, before, keys);
            }
        }
        let level = match self.ensure_level(side, price) {
            Ok(level) => level,
            Err(error) => return Err(error),
        };
        let ghost added = order;
        let key = level.queue.push_back(nodes, order);
        let ghost left = *level;
        proof {
            let after = nodes@;
            let more = keys.push(key);
            assert forall|k: OrderKey| #[trigger] more.contains(k) <==> keys.contains(k) || k
                == key by {
                order_queue::lemma_push_contains(keys, key, k);
            }
            assert(level_sound(left, after, side, p)) by {
                assert forall|k: OrderKey| #[trigger] left.queue.keys(after).contains(k) implies at_home(
                    after[k].order,
                    side,
                    p,
                ) by {
                    assert(more.contains(k));
                }
            }
            let now = self.levels_on(side);
            assert(now == levels.insert(p, left));
            assert(now.remove(p) =~= levels.remove(p));
            lemma_level_put(levels, now, before, after, side, p, keys);
            let old_orders = orders_on(levels, before);
            let new_orders = orders_on(now, after);
            assert(new_orders =~= model::enqueued(old_orders, p, added)) by {
                assert(new_orders[p] == left.queue.orders(after));
                assert(new_orders[p] == start.queue.orders(before).push(added));
                if !levels.contains_key(p) {
                    assert(start.queue.orders(before) =~= Seq::<Order>::empty());
                    assert(new_orders[p] =~= seq![added]);
                }
                assert(new_orders =~= new_orders.remove(p).insert(p, new_orders[p]));
            }
            let other = model::opposite(side);
            assert(self.levels_on(other) == was.levels_on(other));
            assert(levels_sound(was.levels_on(other), before, other));
            lemma_levels_framed(was.levels_on(other), before, after, other, keys, side, p);
            assert forall|s: Side| levels_sound(#[trigger] self.levels_on(s), after, s) by {
                assert(s == side || s == other);
            }
            assert forall|s: Side, q: u64, k: OrderKey| #[trigger]
                seated(self.levels_on(s), after, q, k) <==> seated(was.levels_on(s), before, q, k)
                    || (s == side && q == p && k == key) by {
                assert(s == side || s == other);
                if s == side && q == p {
                    assert(now[p] == left);
                    assert(more.contains(k) <==> keys.contains(k) || k == key);
                }
            }
            assert forall|s: Side|
                orders_on(#[trigger] self.levels_on(s), after) == (if s == side {
                    model::enqueued(orders_on(was.levels_on(s), before), p, added)
                } else {
                    orders_on(was.levels_on(s), before)
                }) by {
                assert(s == side || s == other);
            }
        }
        Ok(key)
    }

    /// Takes the order of a key out of its level, and drops the level where it is
    /// then empty.
    fn take_out(
        &mut self,
        nodes: &mut OrderArena,
        side: Side,
        price: Price,
        key: OrderKey,
    ) -> (r: Order)
        requires
            old(self).wf(),
            forall|side: Side| levels_sound(#[trigger] old(self).levels_on(side), old(nodes)@, side),
            seated(old(self).levels_on(side), old(nodes)@, price.minor(), key),
        ensures
            final(self).wf(),
            forall|p: u64| final(self).covers(p) == #[trigger] old(self).covers(p),
            forall|side: Side| levels_sound(#[trigger] final(self).levels_on(side), final(nodes)@, side),
            old(nodes)@.contains_key(key),
            r == old(nodes)@[key].order,
            final(nodes)@.dom() == old(nodes)@.dom().remove(key),
            forall|k: OrderKey| #[trigger]
                old(nodes)@.contains_key(k) && k != key ==> final(nodes)@[k].order
                    == old(nodes)@[k].order,
            forall|s: Side, p: u64, k: OrderKey| #[trigger]
                seated(final(self).levels_on(s), final(nodes)@, p, k) <==> k != key && seated(
                    old(self).levels_on(s),
                    old(nodes)@,
                    p,
                    k,
                ),
            forall|s: Side|
                orders_on(#[trigger] final(self).levels_on(s), final(nodes)@) == (if s == side {
                    model::dequeued(
                        orders_on(old(self).levels_on(s), old(nodes)@),
                        price.minor(),
                        old(self).levels_on(side)[price.minor()].queue.keys(old(nodes)@).index_of(key),
                    )
                } else {
                    orders_on(old(self).levels_on(s), old(nodes)@)
                }),
    {
        let ghost before = nodes@;
        let ghost was = *self;
        let ghost p = price.minor();
        let ghost queue = self.levels_on(side)[p].queue;
        let ghost keys = queue.keys(before);
        let ghost place = keys.index_of(key);
        proof {
            assert(levels_sound(was.levels_on(side), before, side));
            assert(queue.chain(before, keys));
            order_queue::lemma_chain_distinct(queue, before, keys);
            assert(keys[place] == key);
            assert forall|k: OrderKey| #[trigger] keys.contains(k) implies at_home(
                before[k].order,
                side,
                p,
            ) by {}
        }
        let level = self.level_mut(side, price).expect("indexed level must exist");
        let order = level.queue.remove_key(nodes, key).expect("indexed node must be live");
        let emptied = level.is_empty();
        let ghost left = *level;
        if emptied {
            self.remove_level(side, price);
        }
        proof {
            let after = nodes@;
            let kept = keys.remove(place);
            assert forall|k: OrderKey| #[trigger] kept.contains(k) <==> k != key && keys.contains(
                k,
            ) by {
                lemma_removed_members(keys, place, k);
            }
            if !emptied {
                assert(level_sound(left, after, side, p)) by {
                    assert forall|k: OrderKey| #[trigger] left.queue.keys(after).contains(k) implies at_home(
                        after[k].order,
                        side,
                        p,
                    ) by {
                        assert(keys.contains(k));
                        let i = keys.index_of(k);
                        assert(keys[i] == k);
                        assert(before.contains_key(k));
                    }
                }
            }
            let now = self.levels_on(side);
            assert(now.remove(p) =~= was.levels_on(side).remove(p));
            lemma_level_put(was.levels_on(side), now, before, after, side, p, keys);
            let old_orders = orders_on(was.levels_on(side), before);
            let new_orders = orders_on(now, after);
            assert(old_orders[p] == queue.orders(before));
            assert(new_orders =~= model::dequeued(old_orders, p, place)) by {
                assert(old_orders[p].len() == keys.len());
                if emptied {
                    assert(keys.len() == 1);
                    assert(new_orders =~= new_orders.remove(p));
                } else {
                    assert(new_orders[p] == left.queue.orders(after));
                    assert(new_orders =~= new_orders.remove(p).insert(p, new_orders[p]));
                }
            }
            let other = model::opposite(side);
            assert(self.levels_on(other) == was.levels_on(other));
            assert(levels_sound(was.levels_on(other), before, other));
            lemma_levels_framed(was.levels_on(other), before, after, other, keys, side, p);
            assert forall|s: Side| levels_sound(#[trigger] self.levels_on(s), after, s) by {
                assert(s == side || s == other);
            }
            assert forall|s: Side, q: u64, k: OrderKey| #[trigger]
                seated(self.levels_on(s), after, q, k) <==> k != key && seated(
                    was.levels_on(s),
                    before,
                    q,
                    k,
                ) by {
                assert(s == side || s == other);
                if k == key && seated(was.levels_on(s), before, q, k) {
                    assert(levels_sound(was.levels_on(s), before, s));
                    lemma_one_seat(
                        was.levels_on(s),
                        was.levels_on(side),
                        before,
                        s,
                        q,
                        side,
                        p,
                        k,
                    );
                }
                if s == side && q == p {
                    if !emptied {
                        assert(now[p] == left);
                        assert(kept.contains(k) <==> k != key && keys.contains(k));
                    } else {
                        assert(keys.len() == 1);
                        if keys.contains(k) {
                            assert(keys[keys.index_of(k)] == k);
                        }
                    }
                }
            }
            assert forall|s: Side|
                orders_on(#[trigger] self.levels_on(s), after) == (if s == side {
                    model::dequeued(orders_on(was.levels_on(s), before), p, place)
                } else {
                    orders_on(was.levels_on(s), before)
                }) by {
                assert(s == side || s == other);
            }
        }
        order
    }

    /// Takes the oldest order of a name out of a level, and drops the level where
    /// it is then empty.
    fn cancel(
        &mut self,
        nodes: &mut OrderArena,
        side: Side,
        price: Price,
        id: &ExchangeId,
    ) -> (r: Option<Order>)
        requires
            old(self).wf(),
            forall|side: Side| levels_sound(#[trigger] old(self).levels_on(side), old(nodes)@, side),
        ensures
            final(self).wf(),
            forall|p: u64| final(self).covers(p) == #[trigger] old(self).covers(p),
            forall|side: Side| levels_sound(#[trigger] final(self).levels_on(side), final(nodes)@, side),
            match r {
                Some(order) => exists|i: int|
                    {
                        &&& #[trigger] model::first_at(
                            orders_on(old(self).levels_on(side), old(nodes)@),
                            id@,
                            price.minor(),
                            i,
                        )
                        &&& order == orders_on(
                            old(self).levels_on(side),
                            old(nodes)@,
                        )[price.minor()][i]
                        &&& orders_on(final(self).levels_on(side), final(nodes)@)
                            == model::dequeued(
                            orders_on(old(self).levels_on(side), old(nodes)@),
                            price.minor(),
                            i,
                        )
                        &&& orders_on(final(self).levels_on(model::opposite(side)), final(nodes)@)
                            == orders_on(old(self).levels_on(model::opposite(side)), old(nodes)@)
                    },
                None => {
                    &&& *final(self) == *old(self)
                    &&& final(nodes)@ == old(nodes)@
                    &&& forall|i: int|
                        !#[trigger] model::queued_at(
                            orders_on(old(self).levels_on(side), old(nodes)@),
                            id@,
                            price.minor(),
                            i,
                        )
                },
            },
    {
        let ghost p = price.minor();
        let ghost was = orders_on(self.levels_on(side), nodes@);
        let level = match self.level(side, price) {
            Some(level) => level,
            None => return None,
        };
        proof {
            assert(levels_sound(self.levels_on(side), nodes@, side));
            assert(level_sound(*level, nodes@, side, p));
        }
        let orders: Vec<(OrderKey, &Order)> = level.queue.iter_with_keys(nodes);
        let mut i: usize = 0;
        while i < orders.len()
            invariant
                i <= orders@.len(),
                orders@.len() == was[p].len(),
                forall|j: int|
                    0 <= j < orders@.len() ==> *(#[trigger] orders@[j]).1 == was[p][j],
                forall|j: int| 0 <= j < i ==> !#[trigger] model::queued_at(was, id@, p, j),
            ensures
                i <= orders@.len(),
                forall|j: int| 0 <= j < i ==> !#[trigger] model::queued_at(was, id@, p, j),
                i < orders@.len() ==> was[p][i as int].exchange_id@ == id@,
            decreases orders@.len() - i,
        {
            if orders[i].1.exchange_id.same(id) {
                break;
            }
            i = i + 1;
        }
        if i == orders.len() {
            return None;
        }
        let key: OrderKey = orders[i].0;
        proof {
            let queue = level.queue;
            let keys = queue.keys(nodes@);
            assert(queue.chain(nodes@, keys));
            order_queue::lemma_chain_distinct(queue, nodes@, keys);
            assert(keys[i as int] == key);
            assert(keys.contains(key));
            assert(seated(self.levels_on(side), nodes@, p, key));
            assert(keys.index_of(key) == i);
            assert(model::first_at(was, id@, p, i as int));
        }
        let order = self.take_out(nodes, side, price, key);
        Some(order)
    }
}

// ---------------------------------------------------------------- levels and their orders

/// Whether an order belongs on a side at a price.
pub open spec fn at_home(order: Order, side: Side, p: u64) -> bool {
    &&& order.side == side
    &&& order.order_type matches OrderType::Limit { price, .. } && price.minor() == p
}

/// Whether the order of a key is in the queue at a price.
pub open(crate) spec fn seated(
    levels: Map<u64, BookLevel>,
    nodes: Map<OrderKey, Node>,
    p: u64,
    k: OrderKey,
) -> bool {
    levels.contains_key(p) && levels[p].queue.keys(nodes).contains(k)
}

/// Whether a level is one of a side and price, has orders, and holds only orders
/// that belong there.
pub open(crate) spec fn level_sound(
    level: BookLevel,
    nodes: Map<OrderKey, Node>,
    side: Side,
    p: u64,
) -> bool {
    &&& level.price.minor() == p
    &&& level.side == side
    &&& level.queue.wf(nodes)
    &&& level.queue.len() > 0
    &&& forall|k: OrderKey| #[trigger]
        level.queue.keys(nodes).contains(k) ==> at_home(nodes[k].order, side, p)
}

/// Whether every level of a side is sound.
pub open(crate) spec fn levels_sound(
    levels: Map<u64, BookLevel>,
    nodes: Map<OrderKey, Node>,
    side: Side,
) -> bool {
    forall|p: u64| #[trigger] levels.contains_key(p) ==> level_sound(levels[p], nodes, side, p)
}

/// The orders of the levels, by price, oldest first.
pub open(crate) spec fn orders_on(
    levels: Map<u64, BookLevel>,
    nodes: Map<OrderKey, Node>,
) -> Map<u64, Seq<Order>> {
    Map::new(|p: u64| levels.contains_key(p), |p: u64| levels[p].queue.orders(nodes))
}

/// Levels do not depend on nodes that belong elsewhere.
pub(crate) proof fn lemma_levels_framed(
    levels: Map<u64, BookLevel>,
    before: Map<OrderKey, Node>,
    after: Map<OrderKey, Node>,
    side: Side,
    touched: Seq<OrderKey>,
    home_side: Side,
    home: u64,
)
    requires
        levels_sound(levels, before, side),
        forall|k: OrderKey| #[trigger]
            touched.contains(k) ==> at_home(before[k].order, home_side, home),
        side == home_side ==> !levels.contains_key(home),
        order_queue::same_outside(before, after, touched),
    ensures
        levels_sound(levels, after, side),
        orders_on(levels, after) == orders_on(levels, before),
        forall|p: u64| #[trigger]
            levels.contains_key(p) ==> levels[p].queue.keys(after) == levels[p].queue.keys(before),
        forall|p: u64, k: OrderKey| #[trigger]
            seated(levels, after, p, k) <==> seated(levels, before, p, k),
{
    assert forall|p: u64| #[trigger] levels.contains_key(p) implies level_sound(
        levels[p],
        after,
        side,
        p,
    ) && levels[p].queue.keys(after) == levels[p].queue.keys(before) && levels[p].queue.orders(
        after,
    ) == levels[p].queue.orders(before) by {
        let queue = levels[p].queue;
        let keys = queue.keys(before);
        assert(queue.chain(before, keys));
        order_queue::lemma_chain_distinct(queue, before, keys);
        assert forall|i: int| 0 <= i < keys.len() implies after.contains_key(#[trigger] keys[i])
            && after[keys[i]] == before[keys[i]] by {
            assert(keys.contains(keys[i]));
            assert(at_home(before[keys[i]].order, side, p));
        }
        order_queue::lemma_chain_framed(queue, before, after, keys);
        order_queue::lemma_keys(queue, after, keys);
        assert forall|k: OrderKey| #[trigger] queue.keys(after).contains(k) implies at_home(
            after[k].order,
            side,
            p,
        ) by {
            let i = keys.index_of(k);
            assert(keys[i] == k);
        }
    }
    assert(orders_on(levels, after) =~= orders_on(levels, before));
}

/// Putting a level on one side leaves the other levels as they were.
pub(crate) proof fn lemma_level_put(
    before_levels: Map<u64, BookLevel>,
    after_levels: Map<u64, BookLevel>,
    before: Map<OrderKey, Node>,
    after: Map<OrderKey, Node>,
    side: Side,
    p: u64,
    touched: Seq<OrderKey>,
)
    requires
        levels_sound(before_levels, before, side),
        after_levels.remove(p) == before_levels.remove(p),
        after_levels.contains_key(p) ==> level_sound(after_levels[p], after, side, p),
        forall|k: OrderKey| #[trigger]
            touched.contains(k) ==> at_home(before[k].order, side, p),
        order_queue::same_outside(before, after, touched),
    ensures
        levels_sound(after_levels, after, side),
        orders_on(after_levels, after).remove(p) == orders_on(before_levels, before).remove(p),
        forall|q: u64, k: OrderKey|
            q != p ==> (#[trigger] seated(after_levels, after, q, k) <==> seated(
                before_levels,
                before,
                q,
                k,
            )),
        forall|q: u64|
            q != p && #[trigger] after_levels.contains_key(q) ==> after_levels[q].queue.keys(after)
                == before_levels[q].queue.keys(before),
{
    let rest = before_levels.remove(p);
    assert(levels_sound(rest, before, side)) by {
        assert forall|q: u64| #[trigger] rest.contains_key(q) implies level_sound(
            rest[q],
            before,
            side,
            q,
        ) by {
            assert(before_levels.contains_key(q));
        }
    }
    lemma_levels_framed(rest, before, after, side, touched, side, p);
    assert forall|q: u64| #[trigger] after_levels.contains_key(q) implies level_sound(
        after_levels[q],
        after,
        side,
        q,
    ) by {
        if q != p {
            assert(after_levels.remove(p).contains_key(q));
            assert(rest.contains_key(q));
            assert(after_levels[q] == after_levels.remove(p)[q]);
        }
    }
    assert(orders_on(after_levels, after).remove(p) =~= orders_on(rest, after));
    assert(orders_on(before_levels, before).remove(p) =~= orders_on(rest, before));
    assert forall|q: u64, k: OrderKey| q != p implies (#[trigger] seated(
        after_levels,
        after,
        q,
        k,
    ) <==> seated(before_levels, before, q, k)) by {
        assert(seated(rest, after, q, k) <==> seated(rest, before, q, k));
        assert(after_levels.remove(p).contains_key(q) <==> rest.contains_key(q));
        assert(after_levels.contains_key(q) ==> after_levels[q] == after_levels.remove(p)[q]);
    }
    assert forall|q: u64|
        q != p && #[trigger] after_levels.contains_key(q) implies after_levels[q].queue.keys(after)
        == before_levels[q].queue.keys(before) by {
        assert(after_levels.remove(p).contains_key(q));
        assert(rest.contains_key(q));
        assert(after_levels[q] == after_levels.remove(p)[q]);
    }
}

/// A queue has no more orders than the arena.
pub(crate) proof fn lemma_queue_bounded(queue: LevelQueue, nodes: Map<OrderKey, Node>)
    requires
        queue.wf(nodes),
        nodes.dom().finite(),
    ensures
        queue.len() <= nodes.dom().len(),
{
    let keys = queue.keys(nodes);
    assert(queue.chain(nodes, keys));
    order_queue::lemma_chain_distinct(queue, nodes, keys);
    keys.unique_seq_to_set();
    assert forall|k: OrderKey| #[trigger] keys.to_set().contains(k) implies nodes.dom().contains(
        k,
    ) by {
        let i = keys.index_of(k);
        assert(keys[i] == k);
    }
    vstd::set_lib::lemma_len_subset(keys.to_set(), nodes.dom());
}

/// A key is in one queue only.
pub(crate) proof fn lemma_one_seat(
    a: Map<u64, BookLevel>,
    b: Map<u64, BookLevel>,
    nodes: Map<OrderKey, Node>,
    s: Side,
    p: u64,
    t: Side,
    q: u64,
    k: OrderKey,
)
    requires
        levels_sound(a, nodes, s),
        levels_sound(b, nodes, t),
        seated(a, nodes, p, k),
        seated(b, nodes, q, k),
    ensures
        s == t,
        p == q,
{
    assert(a.contains_key(p));
    assert(b.contains_key(q));
    assert(at_home(nodes[k].order, s, p));
    assert(at_home(nodes[k].order, t, q));
}

proof fn lemma_removed_members(keys: Seq<OrderKey>, place: int, k: OrderKey)
    requires
        keys.no_duplicates(),
        0 <= place < keys.len(),
    ensures
        keys.remove(place).contains(k) <==> k != keys[place] && keys.contains(k),
{
    let kept = keys.remove(place);
    if kept.contains(k) {
        let i = kept.index_of(k);
        assert(kept[i] == keys[if i < place {
            i
        } else {
            i + 1
        }]);
    }
    if keys.contains(k) && k != keys[place] {
        let i = keys.index_of(k);
        assert(kept[if i < place {
            i
        } else {
            i - 1
        }] == k);
    }
}

// ---------------------------------------------------------------- ordered maps

/// The levels of each side in an ordered map.
#[derive(Debug)]
pub struct BTreeStore {
    pub(crate) bids: BTreeMap<u64, BookLevel>,
    pub(crate) asks: BTreeMap<u64, BookLevel>,
}

impl BTreeStore {
    /// Whether the two hold the same levels in the same way.
    pub open(crate) spec fn same(&self, other: &Self) -> bool {
        &&& other.bids@ == self.bids@
        &&& other.asks@ == self.asks@
    }
}

impl Default for BTreeStore {
    /// A store without levels.
    fn default() -> (r: Self)
        ensures
            r.wf(),
            forall|side: Side| #[trigger] r.levels_on(side) == Map::<u64, BookLevel>::empty(),
    {
        BTreeStore { bids: BTreeMap::new(), asks: BTreeMap::new() }
    }
}

impl Clone for BTreeStore {
    fn clone(&self) -> (r: Self)
        ensures
            self.same(&r),
    {
        BTreeStore { bids: self.bids.clone(), asks: self.asks.clone() }
    }
}

/// `BTreeMap::get_mut` lends the value of a key, if the key is there. What the
/// borrower leaves is what the map holds afterwards.
#[verifier::external_body]
pub(crate) fn btree_get_mut<T>(map: &mut BTreeMap<u64, T>, key: u64) -> (r: Option<&mut T>)
    ensures
        match r {
            Some(value) => {
                &&& old(map)@.contains_key(key)
                &&& *value == old(map)@[key]
                &&& final(map)@ == old(map)@.insert(key, *final(value))
            },
            None => {
                &&& !old(map)@.contains_key(key)
                &&& final(map)@ == old(map)@
            },
        },
{
    map.get_mut(&key)
}

/// `BTreeMap::first_key_value` finds the pair of the smallest key, if there is
/// any.
#[verifier::external_body]
pub(crate) fn btree_first<T>(map: &BTreeMap<u64, T>) -> (r: Option<(&u64, &T)>)
    ensures
        match r {
            Some((key, value)) => {
                &&& map@.contains_key(*key)
                &&& *value == map@[*key]
                &&& forall|q: u64| #[trigger] map@.contains_key(q) ==> *key <= q
            },
            None => map@.dom() == Set::<u64>::empty(),
        },
{
    map.first_key_value()
}

/// `BTreeMap::last_key_value` finds the pair of the largest key, if there is any.
#[verifier::external_body]
pub(crate) fn btree_last<T>(map: &BTreeMap<u64, T>) -> (r: Option<(&u64, &T)>)
    ensures
        match r {
            Some((key, value)) => {
                &&& map@.contains_key(*key)
                &&& *value == map@[*key]
                &&& forall|q: u64| #[trigger] map@.contains_key(q) ==> q <= *key
            },
            None => map@.dom() == Set::<u64>::empty(),
        },
{
    map.last_key_value()
}

proof fn lemma_take_all<A>(s: Seq<A>)
    ensures
        s.take(s.len() as int) == s,
{
    assert(s.take(s.len() as int) =~= s);
}

/// The keys of an ordered map, smallest first.
fn ascending_keys(map: &BTreeMap<u64, BookLevel>) -> (r: Vec<u64>)
    ensures
        descends(r@, Side::Ask),
        forall|p: u64| #[trigger] map@.contains_key(p) <==> r@.contains(p),
{
    broadcast use vstd::std_specs::btree::group_btree_axioms;
    broadcast use vstd::laws_cmp::group_laws_cmp;

    let entries = map.iter();
    let ghost pairs = vstd::std_specs::iter::IteratorSpec::remaining(&entries);
    let mut keys: Vec<u64> = Vec::new();
    for pair in iter: entries
        invariant
            iter.seq() == pairs,
            keys@ == pairs.take(iter.index()).map_values(|kv: (&u64, &BookLevel)| *kv.0),
    {
        keys.push(*pair.0);
        proof {
            assert(keys@ =~= pairs.take(iter.index() + 1).map_values(
                |kv: (&u64, &BookLevel)| *kv.0,
            ));
        }
    }
    proof {
        let all = pairs.map_values(|kv: (&u64, &BookLevel)| *kv.0);
        lemma_take_all(pairs);
        assert(keys@ == all);
        assert(vstd::std_specs::btree::increasing_seq(all));
        assert(vstd::laws_cmp::obeys_cmp::<u64>());
        assert forall|i: int, j: int|
            #![trigger all[i], all[j]]
            0 <= i < j < all.len() implies all[i] < all[j] by {
            assert(vstd::std_specs::cmp::OrdSpec::cmp_spec(&all[i], &all[j]) is Less);
        }
        assert forall|p: u64| #[trigger] map@.contains_key(p) <==> all.contains(p) by {
            if map@.contains_key(p) {
                assert(pairs.contains((&p, &map@[p])));
                let i = choose|i: int| 0 <= i < pairs.len() && pairs[i] == (&p, &map@[p]);
                assert(all[i] == p);
            }
            if all.contains(p) {
                let i = choose|i: int| 0 <= i < all.len() && all[i] == p;
                assert(map@.contains_key(*pairs[i].0));
            }
        }
    }
    keys
}

/// The same keys from the largest down go from better to worse for bids.
proof fn lemma_reversed(list: Seq<u64>)
    requires
        descends(list, Side::Ask),
    ensures
        descends(list.reverse(), Side::Bid),
        forall|p: u64| #[trigger] list.reverse().contains(p) <==> list.contains(p),
{
    let back = list.reverse();
    let n = list.len() as int;
    assert forall|i: int, j: int|
        #![trigger back[i], back[j]]
        0 <= i < j < back.len() implies no_worse(Side::Bid, back[i], back[j]) && back[i]
        != back[j] by {
        assert(back[i] == list[n - 1 - i] && back[j] == list[n - 1 - j]);
    }
    assert forall|p: u64| #[trigger] back.contains(p) <==> list.contains(p) by {
        if back.contains(p) {
            let i = choose|i: int| 0 <= i < back.len() && back[i] == p;
            assert(list[n - 1 - i] == p);
        }
        if list.contains(p) {
            let i = choose|i: int| 0 <= i < list.len() && list[i] == p;
            assert(back[n - 1 - i] == p);
        }
    }
}

/// What an ordered map holds at a key.
pub(crate) fn btree_get<T>(map: &BTreeMap<u64, T>, key: u64) -> (r: Option<&T>)
    ensures
        r == (if map@.contains_key(key) {
            Some(&map@[key])
        } else {
            None
        }),
{
    broadcast use vstd::std_specs::btree::group_btree_axioms;
    broadcast use vstd::laws_cmp::group_laws_cmp;

    map.get(&key)
}

/// The levels of an ordered map, best price first.
fn btree_levels(map: &BTreeMap<u64, BookLevel>, side: Side) -> (r: Vec<&BookLevel>)
    ensures
        r@.len() == ranked(map@.dom(), side).len(),
        forall|i: int|
            0 <= i < r@.len() ==> *#[trigger] r@[i] == map@[ranked(map@.dom(), side)[i]],
{
    broadcast use vstd::std_specs::btree::group_btree_axioms;

    let keys: Vec<u64> = ascending_keys(map);
    let ghost list = match side {
        Side::Ask => keys@,
        Side::Bid => keys@.reverse(),
    };
    proof {
        lemma_reversed(keys@);
        assert forall|p: u64| #[trigger] map@.dom().contains(p) <==> list.contains(p) by {
            assert(map@.contains_key(p) <==> keys@.contains(p));
        }
        lemma_ranked_unique(map@.dom(), side, list);
    }
    let mut found: Vec<&BookLevel> = Vec::new();
    let mut i: usize = 0;
    let count: usize = keys.len();
    while i < count
        invariant
            i <= count,
            count == keys@.len(),
            list == (match side {
                Side::Ask => keys@,
                Side::Bid => keys@.reverse(),
            }),
            forall|p: u64| #[trigger] map@.contains_key(p) <==> keys@.contains(p),
            found@.len() == i,
            forall|j: int| 0 <= j < i ==> *#[trigger] found@[j] == map@[list[j]],
        decreases count - i,
    {
        let place: usize = match side {
            Side::Ask => i,
            Side::Bid => count - 1 - i,
        };
        let key: u64 = keys[place];
        proof {
            assert(keys@.contains(keys@[place as int]));
            assert(map@.contains_key(key));
            assert(list[i as int] == key);
        }
        let level: &BookLevel = btree_get(map, key).expect("a key of the map has a level");
        found.push(level);
        i = i + 1;
    }
    found
}

/// Makes a level where there is none, and lends it.
fn btree_ensure(map: &mut BTreeMap<u64, BookLevel>, side: Side, price: Price) -> (r: &mut BookLevel)
    ensures
        *r == (if old(map)@.contains_key(price.minor()) {
            old(map)@[price.minor()]
        } else {
            BookLevel::fresh(price, side)
        }),
        final(map)@ =~= old(map)@.insert(price.minor(), *final(r)),
{
    broadcast use vstd::std_specs::btree::group_btree_axioms;
    broadcast use vstd::laws_cmp::group_laws_cmp;

    let key: u64 = price.minor();
    if !map.contains_key(&key) {
        map.insert(key, BookLevel::new(price, side));
    }
    btree_get_mut(map, key).expect("the level was just made")
}

impl OrderBookStore for BTreeStore {
    open(crate) spec fn wf(&self) -> bool {
        true
    }

    open(crate) spec fn levels_on(&self, side: Side) -> Map<u64, BookLevel> {
        match side {
            Side::Bid => self.bids@,
            Side::Ask => self.asks@,
        }
    }

    open spec fn covers(&self, price: u64) -> bool {
        true
    }

    open spec fn spans(spec: InstrumentSpec, price: u64) -> bool {
        true
    }

    open spec fn refusal(spec: InstrumentSpec) -> Option<StoreError> {
        None
    }

    open spec fn reserves(spec: InstrumentSpec) -> bool {
        false
    }

    proof fn lemma_cloned(a: &Self, b: &Self) {
    }

    proof fn lemma_wf(&self) {
        broadcast use vstd::std_specs::btree::group_btree_axioms;

        assert forall|side: Side, p: u64| #[trigger]
            self.levels_on(side).contains_key(p) implies self.covers(p) by {
            assert(self.covers(p) == true);
        }
    }

    fn try_new(spec: InstrumentSpec) -> (r: Result<Self, StoreError>) {
        Ok(BTreeStore::default())
    }

    fn ensure_level(
        &mut self,
        side: Side,
        price: Price,
    ) -> (r: Result<&mut BookLevel, StoreError>) {
        match side {
            Side::Bid => Ok(btree_ensure(&mut self.bids, side, price)),
            Side::Ask => Ok(btree_ensure(&mut self.asks, side, price)),
        }
    }

    fn level(&self, side: Side, price: Price) -> (r: Option<&BookLevel>) {
        match side {
            Side::Bid => btree_get(&self.bids, price.minor()),
            Side::Ask => btree_get(&self.asks, price.minor()),
        }
    }

    fn level_mut(&mut self, side: Side, price: Price) -> (r: Option<&mut BookLevel>) {
        match side {
            Side::Bid => btree_get_mut(&mut self.bids, price.minor()),
            Side::Ask => btree_get_mut(&mut self.asks, price.minor()),
        }
    }

    fn best_level(&self, side: Side) -> (r: Option<&BookLevel>) {
        proof {
            self.lemma_wf();
        }
        let found = match side {
            Side::Bid => btree_last(&self.bids),
            Side::Ask => btree_first(&self.asks),
        };
        match found {
            Some((key, level)) => {
                proof {
                    let dom = self.levels_on(side).dom();
                    assert(is_best(dom, side, *key)) by {
                        assert forall|q: u64| #[trigger] dom.contains(q) implies no_worse(
                            side,
                            *key,
                            q,
                        ) by {
                            assert(self.levels_on(side).contains_key(q));
                        }
                    }
                    lemma_best_unique(dom, side, *key);
                }
                Some(level)
            },
            None => None,
        }
    }

    fn best_level_mut(&mut self, side: Side) -> (r: Option<&mut BookLevel>) {
        proof {
            self.lemma_wf();
        }
        let found = match side {
            Side::Bid => btree_last(&self.bids),
            Side::Ask => btree_first(&self.asks),
        };
        let key: u64 = match found {
            Some((key, _)) => *key,
            None => {
                return None;
            },
        };
        proof {
            let dom = self.levels_on(side).dom();
            assert(is_best(dom, side, key)) by {
                assert forall|q: u64| #[trigger] dom.contains(q) implies no_worse(
                    side,
                    key,
                    q,
                ) by {
                    assert(self.levels_on(side).contains_key(q));
                }
            }
            lemma_best_unique(dom, side, key);
        }
        match side {
            Side::Bid => btree_get_mut(&mut self.bids, key),
            Side::Ask => btree_get_mut(&mut self.asks, key),
        }
    }

    fn remove_level(&mut self, side: Side, price: Price) -> (r: Option<BookLevel>) {
        broadcast use vstd::std_specs::btree::group_btree_axioms;
        broadcast use vstd::laws_cmp::group_laws_cmp;

        match side {
            Side::Bid => self.bids.remove(&price.minor()),
            Side::Ask => self.asks.remove(&price.minor()),
        }
    }

    fn levels(&self, side: Side) -> (r: Vec<&BookLevel>) {
        match side {
            Side::Bid => btree_levels(&self.bids, side),
            Side::Ask => btree_levels(&self.asks, side),
        }
    }
}

// ---------------------------------------------------------------- hash maps

/// The levels of each side in a hash map, with the prices beside it, the best
/// last.
#[derive(Debug)]
pub struct HashMapStore {
    pub(crate) bids: HashMap<u64, BookLevel>,
    pub(crate) asks: HashMap<u64, BookLevel>,
    pub(crate) bids_index: Vec<u64>,
    pub(crate) asks_index: Vec<u64>,
}

impl HashMapStore {
    /// Whether the two hold the same levels in the same way.
    pub open(crate) spec fn same(&self, other: &Self) -> bool {
        &&& other.bids@ == self.bids@
        &&& other.asks@ == self.asks@
        &&& other.bids_index@ == self.bids_index@
        &&& other.asks_index@ == self.asks_index@
    }
}

impl Default for HashMapStore {
    /// A store without levels.
    fn default() -> (r: Self)
        ensures
            r.wf(),
            forall|side: Side| #[trigger] r.levels_on(side) == Map::<u64, BookLevel>::empty(),
    {
        HashMapStore {
            bids: HashMap::new(),
            asks: HashMap::new(),
            bids_index: Vec::new(),
            asks_index: Vec::new(),
        }
    }
}

impl Clone for HashMapStore {
    fn clone(&self) -> (r: Self)
        ensures
            self.same(&r),
    {
        HashMapStore {
            bids: self.bids.clone(),
            asks: self.asks.clone(),
            bids_index: self.bids_index.clone(),
            asks_index: self.asks_index.clone(),
        }
    }
}

/// Whether a list of prices goes strictly from worse to better.
pub open spec fn climbs(list: Seq<u64>, side: Side) -> bool {
    forall|i: int, j: int|
        #![trigger list[i], list[j]]
        0 <= i < j < list.len() ==> no_worse(side, list[j], list[i]) && list[i] != list[j]
}

/// Whether the index lists the prices of the map, the best last.
pub open spec fn indexes(index: Seq<u64>, map: Map<u64, BookLevel>, side: Side) -> bool {
    &&& climbs(index, side)
    &&& forall|p: u64| #[trigger] map.contains_key(p) <==> index.contains(p)
}

/// Whether price `p` is worse than `q`.
fn worse(side: Side, p: u64, q: u64) -> (r: bool)
    ensures
        r == !no_worse(side, p, q),
{
    match side {
        Side::Bid => p < q,
        Side::Ask => p > q,
    }
}

/// Puts a new price in its place in the index.
fn index_insert(index: &mut Vec<u64>, side: Side, price: u64)
    requires
        climbs(old(index)@, side),
        !old(index)@.contains(price),
    ensures
        climbs(final(index)@, side),
        forall|p: u64| #[trigger]
            final(index)@.contains(p) <==> old(index)@.contains(p) || p == price,
{
    let ghost before = index@;
    let mut place: usize = 0;
    while place < index.len() && worse(side, index[place], price)
        invariant
            place <= index@.len(),
            index@ == before,
            forall|j: int| 0 <= j < place ==> no_worse(side, price, #[trigger] before[j]),
        decreases index@.len() - place,
    {
        place = place + 1;
    }
    proof {
        assert forall|j: int| place <= j < before.len() implies no_worse(
            side,
            #[trigger] before[j],
            price,
        ) by {
            assert(before[place as int] == before[place as int]);
        }
    }
    index.insert(place, price);
    proof {
        let after = index@;
        assert(after =~= before.insert(place as int, price));
        assert forall|i: int, j: int|
            #![trigger after[i], after[j]]
            0 <= i < j < after.len() implies no_worse(side, after[j], after[i]) && after[i]
            != after[j] by {
            let a = if i < place {
                i
            } else {
                i - 1
            };
            let b = if j < place {
                j
            } else {
                j - 1
            };
            if i != place {
                assert(after[i] == before[a]);
                assert(before.contains(before[a]));
            }
            if j != place {
                assert(after[j] == before[b]);
                assert(before.contains(before[b]));
            }
        }
        assert forall|p: u64| #[trigger] after.contains(p) <==> before.contains(p) || p
            == price by {
            if after.contains(p) {
                let i = choose|i: int| 0 <= i < after.len() && after[i] == p;
                if i < place {
                    assert(before[i] == p);
                } else if i > place {
                    assert(before[i - 1] == p);
                }
            }
            if before.contains(p) {
                let i = choose|i: int| 0 <= i < before.len() && before[i] == p;
                if i < place {
                    assert(after[i] == p);
                } else {
                    assert(after[i + 1] == p);
                }
            }
            assert(after[place as int] == price);
        }
    }
}

/// Takes a price out of the index.
fn index_remove(index: &mut Vec<u64>, side: Side, price: u64)
    requires
        climbs(old(index)@, side),
    ensures
        climbs(final(index)@, side),
        forall|p: u64| #[trigger]
            final(index)@.contains(p) <==> old(index)@.contains(p) && p != price,
{
    let ghost before = index@;
    let mut place: usize = 0;
    while place < index.len() && index[place] != price
        invariant
            place <= index@.len(),
            index@ == before,
            forall|j: int| 0 <= j < place ==> #[trigger] before[j] != price,
        decreases index@.len() - place,
    {
        place = place + 1;
    }
    if place < index.len() {
        index.remove(place);
        proof {
            let after = index@;
            assert(after =~= before.remove(place as int));
            assert forall|p: u64| #[trigger] after.contains(p) <==> before.contains(p) && p
                != price by {
                if after.contains(p) {
                    let i = choose|i: int| 0 <= i < after.len() && after[i] == p;
                    let from = if i < place {
                        i
                    } else {
                        i + 1
                    };
                    assert(before[from] == p);
                    assert(before[place as int] == price);
                }
                if before.contains(p) && p != price {
                    let i = choose|i: int| 0 <= i < before.len() && before[i] == p;
                    if i < place {
                        assert(after[i] == p);
                    } else {
                        assert(after[i - 1] == p);
                    }
                }
            }
            assert forall|i: int, j: int|
                #![trigger after[i], after[j]]
                0 <= i < j < after.len() implies no_worse(side, after[j], after[i]) && after[i]
                != after[j] by {
                let a = if i < place {
                    i
                } else {
                    i + 1
                };
                let b = if j < place {
                    j
                } else {
                    j + 1
                };
                assert(after[i] == before[a] && after[j] == before[b]);
            }
        }
    } else {
        proof {
            assert forall|p: u64| #[trigger] index@.contains(p) <==> before.contains(p) && p
                != price by {
                if before.contains(p) {
                    let i = choose|i: int| 0 <= i < before.len() && before[i] == p;
                    assert(before[i] != price);
                }
            }
        }
    }
}

/// The last price of an index is the best.
proof fn lemma_index_best(index: Seq<u64>, map: Map<u64, BookLevel>, side: Side)
    requires
        indexes(index, map, side),
        map.dom().finite(),
    ensures
        best(map.dom(), side) == (if index.len() == 0 {
            None
        } else {
            Some(index[index.len() - 1])
        }),
{
    if index.len() == 0 {
        assert forall|p: u64| !#[trigger] map.dom().contains(p) by {
            assert(map.contains_key(p) <==> index.contains(p));
        }
        assert(map.dom() =~= Set::empty());
    } else {
        let p = index[index.len() - 1];
        assert(index.contains(p));
        assert(map.contains_key(p));
        assert forall|q: u64| #[trigger] map.dom().contains(q) implies no_worse(side, p, q) by {
            assert(map.contains_key(q));
            let i = choose|i: int| 0 <= i < index.len() && index[i] == q;
            if i < index.len() - 1 {
                assert(index[i] == q && index[index.len() - 1] == p);
            }
        }
        lemma_best_unique(map.dom(), side, p);
    }
}

/// An index from the end is the ranking.
proof fn lemma_index_ranked(index: Seq<u64>, map: Map<u64, BookLevel>, side: Side)
    requires
        indexes(index, map, side),
        map.dom().finite(),
    ensures
        ranked(map.dom(), side) == index.reverse(),
{
    let back = index.reverse();
    let n = index.len() as int;
    assert forall|i: int, j: int|
        #![trigger back[i], back[j]]
        0 <= i < j < back.len() implies no_worse(side, back[i], back[j]) && back[i] != back[j] by {
        assert(back[i] == index[n - 1 - i] && back[j] == index[n - 1 - j]);
    }
    assert forall|p: u64| #[trigger] map.dom().contains(p) <==> back.contains(p) by {
        assert(map.contains_key(p) <==> index.contains(p));
        if back.contains(p) {
            let i = choose|i: int| 0 <= i < back.len() && back[i] == p;
            assert(index[n - 1 - i] == p);
        }
        if index.contains(p) {
            let i = choose|i: int| 0 <= i < index.len() && index[i] == p;
            assert(back[n - 1 - i] == p);
        }
    }
    lemma_ranked_unique(map.dom(), side, back);
}

/// Lends the level at a price, if there is one.
fn hash_get_mut(map: &mut HashMap<u64, BookLevel>, price: u64) -> (r: Option<&mut BookLevel>)
    ensures
        match r {
            Some(level) => {
                &&& old(map)@.contains_key(price)
                &&& *level == old(map)@[price]
                &&& final(map)@ =~= old(map)@.insert(price, *final(level))
            },
            None => {
                &&& !old(map)@.contains_key(price)
                &&& final(map)@ =~= old(map)@
            },
        },
{
    broadcast use vstd::std_specs::hash::group_hash_axioms;

    match map.entry(price) {
        Entry::Occupied(entry) => Some(entry.into_mut()),
        Entry::Vacant(_) => None,
    }
}

/// Makes a level where there is none, lists its price, and lends it.
fn hash_ensure<'a>(
    map: &'a mut HashMap<u64, BookLevel>,
    index: &mut Vec<u64>,
    side: Side,
    price: Price,
) -> (r: &'a mut BookLevel)
    requires
        indexes(old(index)@, old(map)@, side),
    ensures
        *r == (if old(map)@.contains_key(price.minor()) {
            old(map)@[price.minor()]
        } else {
            BookLevel::fresh(price, side)
        }),
        final(map)@ =~= old(map)@.insert(price.minor(), *final(r)),
        indexes(final(index)@, final(map)@, side),
{
    broadcast use vstd::std_specs::hash::group_hash_axioms;

    match map.entry(price.minor()) {
        Entry::Occupied(entry) => entry.into_mut(),
        Entry::Vacant(entry) => {
            index_insert(index, side, price.minor());
            entry.insert(BookLevel::new(price, side))
        },
    }
}

/// The levels of a hash map in the order of its index.
fn hash_levels<'a>(map: &'a HashMap<u64, BookLevel>, index: &Vec<u64>, side: Side) -> (r: Vec<
    &'a BookLevel,
>)
    requires
        indexes(index@, map@, side),
    ensures
        r@.len() == ranked(map@.dom(), side).len(),
        forall|i: int|
            0 <= i < r@.len() ==> *#[trigger] r@[i] == map@[ranked(map@.dom(), side)[i]],
{
    broadcast use vstd::std_specs::hash::group_hash_axioms;

    proof {
        lemma_index_ranked(index@, map@, side);
    }
    let ghost list = index@.reverse();
    let count: usize = index.len();
    let mut found: Vec<&BookLevel> = Vec::new();
    let mut i: usize = 0;
    while i < count
        invariant
            i <= count,
            count == index@.len(),
            list == index@.reverse(),
            indexes(index@, map@, side),
            found@.len() == i,
            forall|j: int| 0 <= j < i ==> *#[trigger] found@[j] == map@[list[j]],
        decreases count - i,
    {
        broadcast use vstd::std_specs::hash::group_hash_axioms;

        let key: u64 = index[count - 1 - i];
        proof {
            assert(index@.contains(key));
            assert(map@.contains_key(key));
            assert(list[i as int] == key);
        }
        let level: &BookLevel = map.get(&key).expect("a listed price has a level");
        found.push(level);
        i = i + 1;
    }
    found
}

impl OrderBookStore for HashMapStore {
    open(crate) spec fn wf(&self) -> bool {
        &&& indexes(self.bids_index@, self.bids@, Side::Bid)
        &&& indexes(self.asks_index@, self.asks@, Side::Ask)
    }

    open(crate) spec fn levels_on(&self, side: Side) -> Map<u64, BookLevel> {
        match side {
            Side::Bid => self.bids@,
            Side::Ask => self.asks@,
        }
    }

    open spec fn covers(&self, price: u64) -> bool {
        true
    }

    open spec fn spans(spec: InstrumentSpec, price: u64) -> bool {
        true
    }

    open spec fn refusal(spec: InstrumentSpec) -> Option<StoreError> {
        None
    }

    open spec fn reserves(spec: InstrumentSpec) -> bool {
        false
    }

    proof fn lemma_cloned(a: &Self, b: &Self) {
    }

    proof fn lemma_wf(&self) {
        broadcast use vstd::std_specs::hash::group_hash_axioms;

        assert forall|side: Side, p: u64| #[trigger]
            self.levels_on(side).contains_key(p) implies self.covers(p) by {
            assert(self.covers(p) == true);
        }
    }

    fn try_new(spec: InstrumentSpec) -> (r: Result<Self, StoreError>) {
        Ok(HashMapStore::default())
    }

    fn ensure_level(
        &mut self,
        side: Side,
        price: Price,
    ) -> (r: Result<&mut BookLevel, StoreError>) {
        match side {
            Side::Bid => Ok(hash_ensure(&mut self.bids, &mut self.bids_index, side, price)),
            Side::Ask => Ok(hash_ensure(&mut self.asks, &mut self.asks_index, side, price)),
        }
    }

    fn level(&self, side: Side, price: Price) -> (r: Option<&BookLevel>) {
        broadcast use vstd::std_specs::hash::group_hash_axioms;

        match side {
            Side::Bid => self.bids.get(&price.minor()),
            Side::Ask => self.asks.get(&price.minor()),
        }
    }

    fn level_mut(&mut self, side: Side, price: Price) -> (r: Option<&mut BookLevel>) {
        match side {
            Side::Bid => hash_get_mut(&mut self.bids, price.minor()),
            Side::Ask => hash_get_mut(&mut self.asks, price.minor()),
        }
    }

    fn best_level(&self, side: Side) -> (r: Option<&BookLevel>) {
        broadcast use vstd::std_specs::hash::group_hash_axioms;

        proof {
            self.lemma_wf();
            match side {
                Side::Bid => lemma_index_best(self.bids_index@, self.bids@, side),
                Side::Ask => lemma_index_best(self.asks_index@, self.asks@, side),
            }
        }
        match side {
            Side::Bid => {
                let count: usize = self.bids_index.len();
                if count == 0 {
                    None
                } else {
                    proof {
                        assert(self.bids_index@.contains(self.bids_index@[count - 1]));
                    }
                    self.bids.get(&self.bids_index[count - 1])
                }
            },
            Side::Ask => {
                let count: usize = self.asks_index.len();
                if count == 0 {
                    None
                } else {
                    proof {
                        assert(self.asks_index@.contains(self.asks_index@[count - 1]));
                    }
                    self.asks.get(&self.asks_index[count - 1])
                }
            },
        }
    }

    fn best_level_mut(&mut self, side: Side) -> (r: Option<&mut BookLevel>) {
        proof {
            self.lemma_wf();
            match side {
                Side::Bid => lemma_index_best(self.bids_index@, self.bids@, side),
                Side::Ask => lemma_index_best(self.asks_index@, self.asks@, side),
            }
        }
        match side {
            Side::Bid => {
                let count: usize = self.bids_index.len();
                if count == 0 {
                    None
                } else {
                    proof {
                        assert(self.bids_index@.contains(self.bids_index@[count - 1]));
                    }
                    hash_get_mut(&mut self.bids, self.bids_index[count - 1])
                }
            },
            Side::Ask => {
                let count: usize = self.asks_index.len();
                if count == 0 {
                    None
                } else {
                    proof {
                        assert(self.asks_index@.contains(self.asks_index@[count - 1]));
                    }
                    hash_get_mut(&mut self.asks, self.asks_index[count - 1])
                }
            },
        }
    }

    fn remove_level(&mut self, side: Side, price: Price) -> (r: Option<BookLevel>) {
        broadcast use vstd::std_specs::hash::group_hash_axioms;

        match side {
            Side::Bid => {
                index_remove(&mut self.bids_index, side, price.minor());
                self.bids.remove(&price.minor())
            },
            Side::Ask => {
                index_remove(&mut self.asks_index, side, price.minor());
                self.asks.remove(&price.minor())
            },
        }
    }

    fn levels(&self, side: Side) -> (r: Vec<&BookLevel>) {
        match side {
            Side::Bid => hash_levels(&self.bids, &self.bids_index, side),
            Side::Ask => hash_levels(&self.asks, &self.asks_index, side),
        }
    }
}

// ---------------------------------------------------------------- a dense ladder

/// One slot for each legal price of the band, for each side, with the place of
/// the best level kept beside it.
#[derive(Debug)]
pub struct TickLadderStore {
    pub(crate) bids: Vec<Option<BookLevel>>,
    pub(crate) asks: Vec<Option<BookLevel>>,
    pub(crate) min_minor: u64,
    pub(crate) tick_size: u64,
    pub(crate) best_bid: Option<usize>,
    pub(crate) best_ask: Option<usize>,
}

/// A copy of the slots of one side.
fn copied_slots(slots: &Vec<Option<BookLevel>>) -> (r: Vec<Option<BookLevel>>)
    ensures
        r@ == slots@,
{
    let copy = slots.clone();
    proof {
        assert forall|i: int| 0 <= i < slots@.len() implies copy@[i] == #[trigger] slots@[i] by {
            assert(cloned(slots@[i], copy@[i]));
        }
        assert(copy@ =~= slots@);
    }
    copy
}

impl TickLadderStore {
    /// Whether the two hold the same levels in the same way.
    pub open(crate) spec fn same(&self, other: &Self) -> bool {
        &&& other.bids@ == self.bids@
        &&& other.asks@ == self.asks@
        &&& other.min_minor == self.min_minor
        &&& other.tick_size == self.tick_size
        &&& other.best_bid == self.best_bid
        &&& other.best_ask == self.best_ask
    }
}

impl Clone for TickLadderStore {
    fn clone(&self) -> (r: Self)
        ensures
            self.same(&r),
    {
        TickLadderStore {
            bids: copied_slots(&self.bids),
            asks: copied_slots(&self.asks),
            min_minor: self.min_minor,
            tick_size: self.tick_size,
            best_bid: self.best_bid,
            best_ask: self.best_ask,
        }
    }
}

/// The price of a slot.
pub open spec fn rung(min_minor: u64, tick: u64, i: int) -> int {
    min_minor + i * tick
}

/// The slot of a price, where the price is on a ladder of `count` slots.
pub open spec fn slot_of(min_minor: u64, tick: u64, count: nat, p: u64) -> Option<int> {
    if p >= min_minor && (p - min_minor) % (tick as int) == 0 && (p - min_minor) / (tick as int)
        < count {
        Some((p - min_minor) / (tick as int))
    } else {
        None
    }
}

/// The levels in the slots, by price.
pub open spec fn rungs(min_minor: u64, tick: u64, slots: Seq<Option<BookLevel>>) -> Map<
    u64,
    BookLevel,
> {
    Map::new(
        |p: u64|
            slot_of(min_minor, tick, slots.len(), p) is Some && slots[slot_of(
                min_minor,
                tick,
                slots.len(),
                p,
            )->0] is Some,
        |p: u64| slots[slot_of(min_minor, tick, slots.len(), p)->0]->0,
    )
}

/// Whether `place` is the first filled slot, or there is none.
pub open spec fn is_first(slots: Seq<Option<BookLevel>>, place: Option<usize>) -> bool {
    match place {
        Some(place) => {
            &&& place < slots.len()
            &&& slots[place as int] is Some
            &&& forall|j: int| 0 <= j < place ==> #[trigger] slots[j] is None
        },
        None => forall|j: int| 0 <= j < slots.len() ==> #[trigger] slots[j] is None,
    }
}

/// Whether `place` is the last filled slot, or there is none.
pub open spec fn is_last(slots: Seq<Option<BookLevel>>, place: Option<usize>) -> bool {
    match place {
        Some(place) => {
            &&& place < slots.len()
            &&& slots[place as int] is Some
            &&& forall|j: int| place < j < slots.len() ==> #[trigger] slots[j] is None
        },
        None => forall|j: int| 0 <= j < slots.len() ==> #[trigger] slots[j] is None,
    }
}

proof fn lemma_rung(min_minor: u64, tick: u64, count: nat, i: int)
    requires
        tick > 0,
        0 <= i < count,
        rung(min_minor, tick, count - 1) <= u64::MAX,
    ensures
        min_minor <= rung(min_minor, tick, i) <= u64::MAX,
        slot_of(min_minor, tick, count, rung(min_minor, tick, i) as u64) == Some(i),
{
    let t = tick as int;
    assert(0 <= i * t <= (count - 1) * t) by (nonlinear_arith)
        requires
            0 <= i <= count - 1,
            t > 0,
    ;
    vstd::arithmetic::div_mod::lemma_div_multiples_vanish(i, t);
    vstd::arithmetic::div_mod::lemma_mod_multiples_basic(i, t);
}

/// The slot of a price has that price.
proof fn lemma_slot(min_minor: u64, tick: u64, count: nat, p: u64)
    requires
        tick > 0,
        slot_of(min_minor, tick, count, p) is Some,
    ensures
        rung(min_minor, tick, slot_of(min_minor, tick, count, p)->0) == p,
        0 <= slot_of(min_minor, tick, count, p)->0 < count,
{
    let t = tick as int;
    vstd::arithmetic::div_mod::lemma_fundamental_div_mod(p - min_minor, t);
    vstd::arithmetic::div_mod::lemma_div_pos_is_pos(p - min_minor, t);
    vstd::arithmetic::mul::lemma_mul_is_commutative(t, (p - min_minor) / t);
}

proof fn lemma_rungs_rise(min_minor: u64, tick: u64, i: int, j: int)
    requires
        tick > 0,
        i < j,
    ensures
        rung(min_minor, tick, i) < rung(min_minor, tick, j),
{
    assert(i * tick < j * tick) by (nonlinear_arith)
        requires
            i < j,
            tick > 0,
    ;
}

/// The prices of the first `n` slots that are filled.
spec fn filled(min_minor: u64, tick: u64, slots: Seq<Option<BookLevel>>, n: nat) -> Set<u64>
    decreases n,
{
    if n == 0 {
        Set::empty()
    } else {
        let before = filled(min_minor, tick, slots, (n - 1) as nat);
        if slots[n - 1] is Some {
            before.insert(rung(min_minor, tick, n - 1) as u64)
        } else {
            before
        }
    }
}

proof fn lemma_filled(min_minor: u64, tick: u64, slots: Seq<Option<BookLevel>>, n: nat)
    requires
        tick > 0,
        n <= slots.len(),
        slots.len() > 0 ==> rung(min_minor, tick, slots.len() - 1) <= u64::MAX,
    ensures
        filled(min_minor, tick, slots, n).finite(),
        forall|p: u64| #[trigger]
            filled(min_minor, tick, slots, n).contains(p) <==> slot_of(
                min_minor,
                tick,
                slots.len(),
                p,
            ) is Some && slot_of(min_minor, tick, slots.len(), p)->0 < n && slots[slot_of(
                min_minor,
                tick,
                slots.len(),
                p,
            )->0] is Some,
    decreases n,
{
    if n > 0 {
        lemma_filled(min_minor, tick, slots, (n - 1) as nat);
        lemma_rung(min_minor, tick, slots.len(), n - 1);
        let set = filled(min_minor, tick, slots, n);
        assert forall|p: u64| #[trigger] set.contains(p) <==> slot_of(
            min_minor,
            tick,
            slots.len(),
            p,
        ) is Some && slot_of(min_minor, tick, slots.len(), p)->0 < n && slots[slot_of(
            min_minor,
            tick,
            slots.len(),
            p,
        )->0] is Some by {
            if slot_of(min_minor, tick, slots.len(), p) is Some {
                lemma_slot(min_minor, tick, slots.len(), p);
            }
        }
    } else {
        assert forall|p: u64| #[trigger] filled(min_minor, tick, slots, n).contains(p)
            <==> slot_of(min_minor, tick, slots.len(), p) is Some && slot_of(
            min_minor,
            tick,
            slots.len(),
            p,
        )->0 < n && slots[slot_of(min_minor, tick, slots.len(), p)->0] is Some by {
            if slot_of(min_minor, tick, slots.len(), p) is Some {
                lemma_slot(min_minor, tick, slots.len(), p);
            }
        }
    }
}

proof fn lemma_rungs_finite(min_minor: u64, tick: u64, slots: Seq<Option<BookLevel>>)
    requires
        tick > 0,
        slots.len() > 0 ==> rung(min_minor, tick, slots.len() - 1) <= u64::MAX,
    ensures
        rungs(min_minor, tick, slots).dom().finite(),
{
    lemma_filled(min_minor, tick, slots, slots.len());
    assert forall|p: u64| rungs(min_minor, tick, slots).dom().contains(p) <==> #[trigger] filled(
        min_minor,
        tick,
        slots,
        slots.len(),
    ).contains(p) by {
        if slot_of(min_minor, tick, slots.len(), p) is Some {
            lemma_slot(min_minor, tick, slots.len(), p);
        }
    }
    assert(rungs(min_minor, tick, slots).dom() =~= filled(
        min_minor,
        tick,
        slots,
        slots.len(),
    ));
}

/// Changing one slot changes one price.
proof fn lemma_rungs_update(
    min_minor: u64,
    tick: u64,
    slots: Seq<Option<BookLevel>>,
    i: int,
    value: Option<BookLevel>,
)
    requires
        tick > 0,
        0 <= i < slots.len(),
        rung(min_minor, tick, slots.len() - 1) <= u64::MAX,
    ensures
        rungs(min_minor, tick, slots.update(i, value)) == (match value {
            Some(level) => rungs(min_minor, tick, slots).insert(
                rung(min_minor, tick, i) as u64,
                level,
            ),
            None => rungs(min_minor, tick, slots).remove(rung(min_minor, tick, i) as u64),
        }),
{
    lemma_rung(min_minor, tick, slots.len(), i);
    let after = rungs(min_minor, tick, slots.update(i, value));
    let p0 = rung(min_minor, tick, i) as u64;
    assert forall|p: u64| p != p0 && slot_of(
        min_minor,
        tick,
        slots.len(),
        p,
    ) is Some implies #[trigger] slot_of(min_minor, tick, slots.len(), p)->0 != i by {
        lemma_slot(min_minor, tick, slots.len(), p);
    }
    assert forall|p: u64| #[trigger] slot_of(min_minor, tick, slots.len(), p) is Some implies 0
        <= slot_of(min_minor, tick, slots.len(), p)->0 < slots.len() by {
        lemma_slot(min_minor, tick, slots.len(), p);
    }
    match value {
        Some(level) => {
            assert(after =~= rungs(min_minor, tick, slots).insert(p0, level));
        },
        None => {
            assert(after =~= rungs(min_minor, tick, slots).remove(p0));
        },
    }
}

/// The last filled slot has the best bid; the first has the best ask.
proof fn lemma_rungs_best(
    min_minor: u64,
    tick: u64,
    slots: Seq<Option<BookLevel>>,
    side: Side,
    place: Option<usize>,
)
    requires
        tick > 0,
        slots.len() > 0 ==> rung(min_minor, tick, slots.len() - 1) <= u64::MAX,
        side == Side::Bid ==> is_last(slots, place),
        side == Side::Ask ==> is_first(slots, place),
    ensures
        best(rungs(min_minor, tick, slots).dom(), side) == (match place {
            Some(place) => Some(rung(min_minor, tick, place as int) as u64),
            None => None,
        }),
        place matches Some(place) ==> rungs(min_minor, tick, slots).contains_key(
            rung(min_minor, tick, place as int) as u64,
        ) && rungs(min_minor, tick, slots)[rung(min_minor, tick, place as int) as u64]
            == slots[place as int]->0,
{
    let map = rungs(min_minor, tick, slots);
    lemma_rungs_finite(min_minor, tick, slots);
    match place {
        Some(place) => {
            lemma_rung(min_minor, tick, slots.len(), place as int);
            let p = rung(min_minor, tick, place as int) as u64;
            assert(map.contains_key(p));
            assert forall|q: u64| #[trigger] map.dom().contains(q) implies no_worse(
                side,
                p,
                q,
            ) by {
                lemma_slot(min_minor, tick, slots.len(), q);
                let j = slot_of(min_minor, tick, slots.len(), q)->0;
                if j < place {
                    lemma_rungs_rise(min_minor, tick, j, place as int);
                }
                if j > place {
                    lemma_rungs_rise(min_minor, tick, place as int, j);
                }
                assert(slots[j] is Some);
            }
            lemma_best_unique(map.dom(), side, p);
        },
        None => {
            assert forall|q: u64| !#[trigger] map.dom().contains(q) by {
                if map.dom().contains(q) {
                    lemma_slot(min_minor, tick, slots.len(), q);
                }
            }
            assert(map.dom() =~= Set::empty());
        },
    }
}

impl TickLadderStore {
    /// The slot of a price.
    fn index(&self, price: Price) -> (r: Option<usize>)
        requires
            self.wf(),
        ensures
            match r {
                Some(i) => slot_of(
                    self.min_minor,
                    self.tick_size,
                    self.bids@.len(),
                    price.minor(),
                ) == Some(i as int) && i < self.bids@.len(),
                None => slot_of(
                    self.min_minor,
                    self.tick_size,
                    self.bids@.len(),
                    price.minor(),
                ) is None,
            },
    {
        if price.minor() < self.min_minor {
            return None;
        }
        let offset: u64 = price.minor() - self.min_minor;
        if offset % self.tick_size != 0 {
            return None;
        }
        let place: u64 = offset / self.tick_size;
        if place < self.bids.len() as u64 {
            Some(place as usize)
        } else {
            None
        }
    }

    /// The last filled slot before a place.
    fn last_before(slots: &Vec<Option<BookLevel>>, end: usize) -> (r: Option<usize>)
        requires
            end <= slots@.len(),
        ensures
            match r {
                Some(place) => {
                    &&& place < end
                    &&& slots@[place as int] is Some
                    &&& forall|j: int| place < j < end ==> #[trigger] slots@[j] is None
                },
                None => forall|j: int| 0 <= j < end ==> #[trigger] slots@[j] is None,
            },
    {
        let mut i: usize = end;
        while i > 0
            invariant
                i <= end <= slots@.len(),
                forall|j: int| i <= j < end ==> #[trigger] slots@[j] is None,
            decreases i,
        {
            i = i - 1;
            if slots[i].is_some() {
                return Some(i);
            }
        }
        None
    }

    /// The first filled slot from a place on.
    fn first_from(slots: &Vec<Option<BookLevel>>, start: usize) -> (r: Option<usize>)
        requires
            start <= slots@.len(),
        ensures
            match r {
                Some(place) => {
                    &&& start <= place < slots@.len()
                    &&& slots@[place as int] is Some
                    &&& forall|j: int| start <= j < place ==> #[trigger] slots@[j] is None
                },
                None => forall|j: int| start <= j < slots@.len() ==> #[trigger] slots@[j] is None,
            },
    {
        let mut i: usize = start;
        while i < slots.len()
            invariant
                start <= i <= slots@.len(),
                forall|j: int| start <= j < i ==> #[trigger] slots@[j] is None,
            decreases slots@.len() - i,
        {
            if slots[i].is_some() {
                return Some(i);
            }
            i = i + 1;
        }
        None
    }

    /// Finds the best level of a side again after the best was taken out of the
    /// slot `removed`.
    fn repair_best_after_removal(&mut self, side: Side, removed: usize)
        requires
            removed < old(self).bids@.len() == old(self).asks@.len(),
            side == Side::Bid ==> old(self).bids@[removed as int] is None && forall|j: int|
                removed < j < old(self).bids@.len() ==> #[trigger] old(self).bids@[j] is None,
            side == Side::Ask ==> old(self).asks@[removed as int] is None && forall|j: int|
                0 <= j < removed ==> #[trigger] old(self).asks@[j] is None,
        ensures
            final(self).bids == old(self).bids,
            final(self).asks == old(self).asks,
            final(self).min_minor == old(self).min_minor,
            final(self).tick_size == old(self).tick_size,
            side == Side::Bid ==> is_last(final(self).bids@, final(self).best_bid)
                && final(self).best_ask == old(self).best_ask,
            side == Side::Ask ==> is_first(final(self).asks@, final(self).best_ask)
                && final(self).best_bid == old(self).best_bid,
    {
        match side {
            Side::Bid => {
                self.best_bid = Self::last_before(&self.bids, removed);
            },
            Side::Ask => {
                let count: usize = self.asks.len();
                proof {
                    assert(removed < count);
                }
                self.best_ask = Self::first_from(&self.asks, removed + 1);
            },
        }
    }

    pub open(crate) spec fn spec_slots_per_side(&self) -> nat {
        self.bids@.len()
    }

    /// The number of legal prices, which is the number of slots of each side.
    pub fn slots_per_side(&self) -> (r: usize)
        ensures
            r == self.spec_slots_per_side(),
    {
        self.bids.len()
    }

    /// The number of slots that an instrument's band needs.
    pub open(crate) spec fn slots_needed(spec: InstrumentSpec) -> Result<nat, StoreError> {
        match spec.max_price() {
            None => Err(StoreError::UnboundedPriceRange),
            Some(max) => {
                let count = (max.minor() - spec.min_price().minor()) / spec.tick_size() as int + 1;
                if count > u64::MAX || count > usize::MAX {
                    Err(StoreError::PriceRangeTooLarge)
                } else {
                    Ok(count as nat)
                }
            },
        }
    }

    /// How many slots an instrument's band needs, or why no ladder can hold it.
    pub fn count_slots(spec: InstrumentSpec) -> (r: Result<usize, StoreError>)
        requires
            spec.wf(),
        ensures
            match r {
                Ok(count) => Self::slots_needed(spec) == Ok::<nat, StoreError>(count as nat)
                    && count > 0,
                Err(error) => Self::slots_needed(spec) == Err::<nat, StoreError>(error),
            },
    {
        let max = match spec.max_price() {
            Some(max) => max,
            None => {
                return Err(StoreError::UnboundedPriceRange);
            },
        };
        let span: u64 = max.minor() - spec.min_price().minor();
        proof {
            vstd::arithmetic::div_mod::lemma_div_pos_is_pos(
                span as int,
                spec.tick_size() as int,
            );
        }
        let ticks: u64 = span / spec.tick_size();
        match ticks.checked_add(1) {
            Some(count) => {
                if count > usize::MAX as u64 {
                    Err(StoreError::PriceRangeTooLarge)
                } else {
                    Ok(count as usize)
                }
            },
            None => Err(StoreError::PriceRangeTooLarge),
        }
    }

    /// So many empty slots, or `None` where memory does not suffice. Whether it
    /// does is up to the machine.
    fn empty_slots(count: usize) -> (r: Option<Vec<Option<BookLevel>>>)
        ensures
            r matches Some(slots) ==> slots@.len() == count && forall|i: int|
                0 <= i < count ==> #[trigger] slots@[i] is None,
    {
        let mut slots: Vec<Option<BookLevel>> = Vec::new();
        let reserved = slots.try_reserve(count);
        TickLadderStore::filled_slots(slots, reserved, count)
    }

    /// What becomes of a list without slots once room for `count` has been asked
    /// for: that many empty slots where the room was there, else `None`.
    fn filled_slots(
        slots: Vec<Option<BookLevel>>,
        reserved: Result<(), TryReserveError>,
        count: usize,
    ) -> (r: Option<Vec<Option<BookLevel>>>)
        requires
            slots@.len() == 0,
        ensures
            r is Some <==> reserved is Ok,
            r matches Some(filled) ==> filled@.len() == count && forall|i: int|
                0 <= i < count ==> #[trigger] filled@[i] is None,
    {
        if reserved.is_err() {
            return None;
        }
        let mut filled: Vec<Option<BookLevel>> = slots;
        let mut i: usize = 0;
        while i < count
            invariant
                i <= count,
                filled@.len() == i,
                forall|j: int| 0 <= j < i ==> #[trigger] filled@[j] is None,
            decreases count - i,
        {
            filled.push(None);
            i = i + 1;
        }
        Some(filled)
    }

    /// The ladder of an instrument from the slots that memory gave: an error
    /// where it gave none.
    fn from_slots(
        spec: InstrumentSpec,
        bids: Option<Vec<Option<BookLevel>>>,
        asks: Option<Vec<Option<BookLevel>>>,
    ) -> (r: Result<Self, StoreError>)
        requires
            spec.wf(),
            Self::slots_needed(spec) is Ok,
            bids matches Some(slots) ==> slots@.len() == Self::slots_needed(spec)->Ok_0 && forall|
                i: int,
            |
                0 <= i < slots@.len() ==> #[trigger] slots@[i] is None,
            asks matches Some(slots) ==> slots@.len() == Self::slots_needed(spec)->Ok_0 && forall|
                i: int,
            |
                0 <= i < slots@.len() ==> #[trigger] slots@[i] is None,
        ensures
            r is Ok <==> bids is Some && asks is Some,
            match r {
                Ok(store) => {
                    &&& store.wf()
                    &&& store.bids@ == bids->0@
                    &&& store.asks@ == asks->0@
                    &&& store.min_minor == spec.min_price().minor()
                    &&& store.tick_size == spec.tick_size()
                    &&& forall|side: Side| #[trigger]
                        store.levels_on(side) == Map::<u64, BookLevel>::empty()
                    &&& forall|p: u64| #[trigger] store.covers(p) == Self::spans(spec, p)
                },
                Err(error) => error == StoreError::PriceRangeTooLarge,
            },
    {
        let bids = match bids {
            Some(bids) => bids,
            None => {
                return Err(StoreError::PriceRangeTooLarge);
            },
        };
        let asks = match asks {
            Some(asks) => asks,
            None => {
                return Err(StoreError::PriceRangeTooLarge);
            },
        };
        let store = TickLadderStore {
            bids,
            asks,
            min_minor: spec.min_price().minor(),
            tick_size: spec.tick_size(),
            best_bid: None,
            best_ask: None,
        };
        proof {
            let min = spec.min_price().minor();
            let max = spec.max_price()->0.minor();
            let tick = spec.tick_size() as int;
            let count = store.bids@.len();
            vstd::arithmetic::div_mod::lemma_fundamental_div_mod(max - min, tick);
            vstd::arithmetic::mul::lemma_mul_is_commutative(tick, (max - min) / tick);
            assert(rung(min, spec.tick_size(), count - 1) <= max);
            assert forall|side: Side| #[trigger]
                store.levels_on(side) == Map::<u64, BookLevel>::empty() by {
                assert forall|p: u64| !#[trigger] store.levels_on(side).contains_key(p) by {
                    if slot_of(min, spec.tick_size(), count, p) is Some {
                        lemma_slot(min, spec.tick_size(), count, p);
                    }
                }
                assert(store.levels_on(side) =~= Map::<u64, BookLevel>::empty());
            }
            assert forall|p: u64| #[trigger] store.covers(p) == Self::spans(spec, p) by {
                if Self::spans(spec, p) {
                    crate::sums::lemma_multiples_add(p as int, min as int, tick);
                    vstd::arithmetic::div_mod::lemma_div_is_ordered(p - min, max - min, tick);
                }
                if store.covers(p) {
                    lemma_slot(min, spec.tick_size(), count, p);
                    let i = slot_of(min, spec.tick_size(), count, p)->0;
                    assert(i * tick <= (count - 1) * tick) by (nonlinear_arith)
                        requires
                            0 <= i <= count - 1,
                            tick > 0,
                    ;
                    crate::sums::lemma_multiples_add(p - min, min as int, tick);
                }
            }
        }
        Ok(store)
    }
}

/// Lends the level of a slot, made empty where there is none.
fn slot_ensure(slots: &mut Vec<Option<BookLevel>>, place: usize, side: Side, price: Price) -> (r:
    &mut BookLevel)
    requires
        place < old(slots)@.len(),
    ensures
        *r == (match old(slots)@[place as int] {
            Some(level) => level,
            None => BookLevel::fresh(price, side),
        }),
        final(slots)@ == old(slots)@.update(place as int, Some(*final(r))),
{
    if slots[place].is_none() {
        slots.set(place, Some(BookLevel::new(price, side)));
    }
    slots[place].as_mut().expect("the level was just made")
}

impl OrderBookStore for TickLadderStore {
    open(crate) spec fn wf(&self) -> bool {
        &&& self.tick_size > 0
        &&& self.bids@.len() == self.asks@.len()
        &&& self.bids@.len() > 0
        &&& rung(self.min_minor, self.tick_size, self.bids@.len() - 1) <= u64::MAX
        &&& is_last(self.bids@, self.best_bid)
        &&& is_first(self.asks@, self.best_ask)
    }

    open(crate) spec fn levels_on(&self, side: Side) -> Map<u64, BookLevel> {
        match side {
            Side::Bid => rungs(self.min_minor, self.tick_size, self.bids@),
            Side::Ask => rungs(self.min_minor, self.tick_size, self.asks@),
        }
    }

    open(crate) spec fn covers(&self, price: u64) -> bool {
        slot_of(self.min_minor, self.tick_size, self.bids@.len(), price) is Some
    }

    /// The prices of the band that are on the tick grid.
    open spec fn spans(spec: InstrumentSpec, price: u64) -> bool {
        &&& price as int % spec.tick_size() as int == 0
        &&& spec.min_price().minor() <= price
        &&& spec.max_price() matches Some(max) && price <= max.minor()
    }

    open(crate) spec fn refusal(spec: InstrumentSpec) -> Option<StoreError> {
        match Self::slots_needed(spec) {
            Ok(_) => None,
            Err(error) => Some(error),
        }
    }

    open spec fn reserves(spec: InstrumentSpec) -> bool {
        true
    }

    proof fn lemma_cloned(a: &Self, b: &Self) {
    }

    proof fn lemma_wf(&self) {
        lemma_rungs_finite(self.min_minor, self.tick_size, self.bids@);
        lemma_rungs_finite(self.min_minor, self.tick_size, self.asks@);
    }

    /// An empty ladder with a slot for each legal price.
    fn try_new(spec: InstrumentSpec) -> (r: Result<Self, StoreError>)
        ensures
            r matches Ok(store) ==> Self::slots_needed(spec) == Ok::<nat, StoreError>(
                store.spec_slots_per_side(),
            ),
    {
        let count: usize = match TickLadderStore::count_slots(spec) {
            Ok(count) => count,
            Err(error) => {
                return Err(error);
            },
        };
        let bids = TickLadderStore::empty_slots(count);
        let asks = TickLadderStore::empty_slots(count);
        TickLadderStore::from_slots(spec, bids, asks)
    }

    fn ensure_level(
        &mut self,
        side: Side,
        price: Price,
    ) -> (r: Result<&mut BookLevel, StoreError>) {
        let place: usize = match self.index(price) {
            Some(place) => place,
            None => {
                return Err(StoreError::PriceOutsideRange);
            },
        };
        proof {
            lemma_slot(self.min_minor, self.tick_size, self.bids@.len(), price.minor());
            assert forall|slots: Seq<Option<BookLevel>>, level: BookLevel|
                slots.len() == self.bids@.len() implies #[trigger] rungs(
                self.min_minor,
                self.tick_size,
                slots.update(place as int, Some(level)),
            ) == rungs(self.min_minor, self.tick_size, slots).insert(price.minor(), level) by {
                lemma_rungs_update(
                    self.min_minor,
                    self.tick_size,
                    slots,
                    place as int,
                    Some(level),
                );
            }
        }
        match side {
            Side::Bid => {
                let better: bool = match self.best_bid {
                    Some(best) => place > best,
                    None => true,
                };
                if better {
                    self.best_bid = Some(place);
                }
                Ok(slot_ensure(&mut self.bids, place, side, price))
            },
            Side::Ask => {
                let better: bool = match self.best_ask {
                    Some(best) => place < best,
                    None => true,
                };
                if better {
                    self.best_ask = Some(place);
                }
                Ok(slot_ensure(&mut self.asks, place, side, price))
            },
        }
    }

    fn level(&self, side: Side, price: Price) -> (r: Option<&BookLevel>) {
        match self.index(price) {
            Some(place) => match side {
                Side::Bid => self.bids[place].as_ref(),
                Side::Ask => self.asks[place].as_ref(),
            },
            None => None,
        }
    }

    fn level_mut(&mut self, side: Side, price: Price) -> (r: Option<&mut BookLevel>) {
        let place: usize = match self.index(price) {
            Some(place) => place,
            None => {
                return None;
            },
        };
        proof {
            lemma_slot(self.min_minor, self.tick_size, self.bids@.len(), price.minor());
            assert forall|slots: Seq<Option<BookLevel>>, level: BookLevel|
                slots.len() == self.bids@.len() implies #[trigger] rungs(
                self.min_minor,
                self.tick_size,
                slots.update(place as int, Some(level)),
            ) == rungs(self.min_minor, self.tick_size, slots).insert(price.minor(), level) by {
                lemma_rungs_update(
                    self.min_minor,
                    self.tick_size,
                    slots,
                    place as int,
                    Some(level),
                );
            }
        }
        match side {
            Side::Bid => self.bids[place].as_mut(),
            Side::Ask => self.asks[place].as_mut(),
        }
    }

    fn best_level(&self, side: Side) -> (r: Option<&BookLevel>) {
        proof {
            match side {
                Side::Bid => lemma_rungs_best(
                    self.min_minor,
                    self.tick_size,
                    self.bids@,
                    side,
                    self.best_bid,
                ),
                Side::Ask => lemma_rungs_best(
                    self.min_minor,
                    self.tick_size,
                    self.asks@,
                    side,
                    self.best_ask,
                ),
            }
        }
        match side {
            Side::Bid => match self.best_bid {
                Some(place) => self.bids[place].as_ref(),
                None => None,
            },
            Side::Ask => match self.best_ask {
                Some(place) => self.asks[place].as_ref(),
                None => None,
            },
        }
    }

    fn best_level_mut(&mut self, side: Side) -> (r: Option<&mut BookLevel>) {
        let best: Option<usize> = match side {
            Side::Bid => self.best_bid,
            Side::Ask => self.best_ask,
        };
        proof {
            match side {
                Side::Bid => lemma_rungs_best(
                    self.min_minor,
                    self.tick_size,
                    self.bids@,
                    side,
                    self.best_bid,
                ),
                Side::Ask => lemma_rungs_best(
                    self.min_minor,
                    self.tick_size,
                    self.asks@,
                    side,
                    self.best_ask,
                ),
            }
        }
        let place: usize = match best {
            Some(place) => place,
            None => {
                return None;
            },
        };
        proof {
            assert forall|slots: Seq<Option<BookLevel>>, level: BookLevel|
                slots.len() == self.bids@.len() implies #[trigger] rungs(
                self.min_minor,
                self.tick_size,
                slots.update(place as int, Some(level)),
            ) == rungs(self.min_minor, self.tick_size, slots).insert(
                rung(self.min_minor, self.tick_size, place as int) as u64,
                level,
            ) by {
                lemma_rungs_update(
                    self.min_minor,
                    self.tick_size,
                    slots,
                    place as int,
                    Some(level),
                );
            }
        }
        match side {
            Side::Bid => self.bids[place].as_mut(),
            Side::Ask => self.asks[place].as_mut(),
        }
    }

    fn remove_level(&mut self, side: Side, price: Price) -> (r: Option<BookLevel>) {
        let place: usize = match self.index(price) {
            Some(place) => place,
            None => {
                proof {
                    assert forall|s: Side| #[trigger]
                        self.levels_on(s) =~= (if s == side {
                            self.levels_on(s).remove(price.minor())
                        } else {
                            self.levels_on(s)
                        }) by {}
                }
                return None;
            },
        };
        let ghost before = *self;
        proof {
            lemma_slot(self.min_minor, self.tick_size, self.bids@.len(), price.minor());
            lemma_rungs_update(self.min_minor, self.tick_size, self.bids@, place as int, None);
            lemma_rungs_update(self.min_minor, self.tick_size, self.asks@, place as int, None);
        }
        let removed: Option<BookLevel>;
        let at_touch: bool;
        match side {
            Side::Bid => {
                removed = self.bids[place].take();
                at_touch = match self.best_bid {
                    Some(best) => best == place,
                    None => false,
                };
                proof {
                    assert(self.bids@ =~= before.bids@.update(place as int, None));
                }
            },
            Side::Ask => {
                removed = self.asks[place].take();
                at_touch = match self.best_ask {
                    Some(best) => best == place,
                    None => false,
                };
                proof {
                    assert(self.asks@ =~= before.asks@.update(place as int, None));
                }
            },
        }
        if removed.is_some() && at_touch {
            self.repair_best_after_removal(side, place);
        }
        removed
    }

    fn levels(&self, side: Side) -> (r: Vec<&BookLevel>) {
        match side {
            Side::Bid => ladder_levels(
                &self.bids,
                Ghost(self.min_minor),
                Ghost(self.tick_size),
                side,
            ),
            Side::Ask => ladder_levels(
                &self.asks,
                Ghost(self.min_minor),
                Ghost(self.tick_size),
                side,
            ),
        }
    }
}

/// The levels of a ladder, best price first.
fn ladder_levels(
    slots: &Vec<Option<BookLevel>>,
    Ghost(min_minor): Ghost<u64>,
    Ghost(tick): Ghost<u64>,
    side: Side,
) -> (r: Vec<&BookLevel>)
    requires
        tick > 0,
        slots@.len() > 0 ==> rung(min_minor, tick, slots@.len() - 1) <= u64::MAX,
    ensures
        r@.len() == ranked(rungs(min_minor, tick, slots@).dom(), side).len(),
        forall|i: int|
            0 <= i < r@.len() ==> *#[trigger] r@[i] == rungs(min_minor, tick, slots@)[ranked(
                rungs(min_minor, tick, slots@).dom(),
                side,
            )[i]],
{
    let ghost map = rungs(min_minor, tick, slots@);
    let ghost mut list: Seq<u64> = Seq::empty();
    let count: usize = slots.len();
    let mut found: Vec<&BookLevel> = Vec::new();
    let mut i: usize = 0;
    while i < count
        invariant
            i <= count,
            count == slots@.len(),
            tick > 0,
            count > 0 ==> rung(min_minor, tick, count - 1) <= u64::MAX,
            map == rungs(min_minor, tick, slots@),
            found@.len() == list.len(),
            forall|j: int|
                0 <= j < list.len() ==> *#[trigger] found@[j] == map[list[j]] && map.contains_key(
                    list[j],
                ),
            forall|j: int|
                0 <= j < list.len() ==> {
                    let slot = slot_of(min_minor, tick, count as nat, #[trigger] list[j]);
                    &&& slot is Some
                    &&& match side {
                        Side::Ask => slot->0 < i,
                        Side::Bid => count - i <= slot->0,
                    }
                },
            forall|k: int|
                0 <= k < count && (match side {
                    Side::Ask => k < i,
                    Side::Bid => count - i <= k,
                }) && #[trigger] slots@[k] is Some ==> list.contains(
                    rung(min_minor, tick, k) as u64,
                ),
            descends(list, side),
        decreases count - i,
    {
        let place: usize = match side {
            Side::Ask => i,
            Side::Bid => count - 1 - i,
        };
        proof {
            lemma_rung(min_minor, tick, count as nat, place as int);
        }
        if let Some(level) = &slots[place] {
            found.push(level);
            proof {
                let before = list;
                let p = rung(min_minor, tick, place as int) as u64;
                list = list.push(p);
                assert(map.contains_key(p));
                assert forall|a: int, b: int|
                    #![trigger list[a], list[b]]
                    0 <= a < b < list.len() implies no_worse(side, list[a], list[b]) && list[a]
                    != list[b] by {
                    if b == before.len() {
                        assert(list[a] == before[a]);
                        let slot = slot_of(min_minor, tick, count as nat, before[a])->0;
                        lemma_slot(min_minor, tick, count as nat, before[a]);
                        match side {
                            Side::Ask => lemma_rungs_rise(min_minor, tick, slot, place as int),
                            Side::Bid => lemma_rungs_rise(min_minor, tick, place as int, slot),
                        }
                    } else {
                        assert(list[a] == before[a] && list[b] == before[b]);
                    }
                }
                assert forall|k: int|
                    0 <= k < count && (match side {
                        Side::Ask => k < i + 1,
                        Side::Bid => count - (i + 1) <= k,
                    }) && #[trigger] slots@[k] is Some implies list.contains(
                    rung(min_minor, tick, k) as u64,
                ) by {
                    if k == place {
                        assert(list[before.len() as int] == p);
                    } else {
                        assert(before.contains(rung(min_minor, tick, k) as u64));
                        let j = choose|j: int|
                            0 <= j < before.len() && before[j] == rung(min_minor, tick, k) as u64;
                        assert(list[j] == before[j]);
                    }
                }
            }
        }
        i = i + 1;
    }
    proof {
        lemma_rungs_finite(min_minor, tick, slots@);
        assert forall|p: u64| #[trigger] map.dom().contains(p) <==> list.contains(p) by {
            if map.dom().contains(p) {
                lemma_slot(min_minor, tick, count as nat, p);
                let k = slot_of(min_minor, tick, count as nat, p)->0;
                assert(slots@[k] is Some);
            }
            if list.contains(p) {
                let j = choose|j: int| 0 <= j < list.len() && list[j] == p;
                assert(*found@[j] == map[list[j]]);
            }
        }
        lemma_ranked_unique(map.dom(), side, list);
    }
    found
}

} // verus!
