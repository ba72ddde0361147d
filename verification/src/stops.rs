//! Stops that wait for the market: queues by trigger price, oldest first.

use crate::model;
use crate::storage;
use crate::types::ExchangeId;
use crate::types::Order;
use crate::types::Side;
use std::collections::BTreeMap;
use vstd::prelude::*;

verus! {

/// What the queues hold.
pub open spec fn parked(stops: Map<u64, Vec<Order>>) -> Map<u64, Seq<Order>> {
    Map::new(|t: u64| stops.contains_key(t), |t: u64| stops[t]@)
}

/// No queues.
pub fn none_parked() -> (r: BTreeMap<u64, Vec<Order>>)
    ensures
        parked(r@) == Map::<u64, Seq<Order>>::empty(),
        r@.dom().finite(),
{
    broadcast use vstd::std_specs::btree::group_btree_axioms;
    broadcast use vstd::laws_cmp::group_laws_cmp;

    let stops: BTreeMap<u64, Vec<Order>> = BTreeMap::new();
    proof {
        assert(parked(stops@) =~= Map::<u64, Seq<Order>>::empty());
    }
    stops
}

/// Takes the queue of a trigger out.
fn take_queue(stops: &mut BTreeMap<u64, Vec<Order>>, trigger: u64) -> (r: Option<Vec<Order>>)
    ensures
        final(stops)@ == old(stops)@.remove(trigger),
        r == (if old(stops)@.contains_key(trigger) {
            Some(old(stops)@[trigger])
        } else {
            None
        }),
{
    broadcast use vstd::std_specs::btree::group_btree_axioms;
    broadcast use vstd::laws_cmp::group_laws_cmp;

    let queue = stops.remove(&trigger);
    proof {
        assert(stops@ =~= old(stops)@.remove(trigger));
    }
    queue
}

/// Puts the queue of a trigger in.
fn put_queue(stops: &mut BTreeMap<u64, Vec<Order>>, trigger: u64, queue: Vec<Order>)
    ensures
        final(stops)@ == old(stops)@.insert(trigger, queue),
{
    broadcast use vstd::std_specs::btree::group_btree_axioms;
    broadcast use vstd::laws_cmp::group_laws_cmp;

    stops.insert(trigger, queue);
}

/// Puts a stop behind those that wait for the same trigger.
pub fn park(stops: &mut BTreeMap<u64, Vec<Order>>, trigger: u64, order: Order)
    ensures
        parked(final(stops)@) == model::enqueued(parked(old(stops)@), trigger, order),
        old(stops)@.dom().finite() ==> final(stops)@.dom().finite(),
{
    let ghost was = stops@;
    let ghost added = order;
    match take_queue(stops, trigger) {
        Some(queue) => {
            let mut queue: Vec<Order> = queue;
            queue.push(order);
            put_queue(stops, trigger, queue);
        },
        None => {
            let mut queue: Vec<Order> = Vec::new();
            queue.push(order);
            put_queue(stops, trigger, queue);
            proof {
                assert(stops@[trigger]@ =~= seq![added]);
            }
        },
    }
    proof {
        assert(parked(stops@) =~= model::enqueued(parked(was), trigger, added));
        assert(stops@.dom() =~= was.dom().insert(trigger));
    }
}

/// Takes the stop at a place of a queue out.
pub fn unpark(stops: &mut BTreeMap<u64, Vec<Order>>, trigger: u64, place: usize) -> (r: Order)
    requires
        old(stops)@.contains_key(trigger),
        place < old(stops)@[trigger]@.len(),
    ensures
        r == old(stops)@[trigger]@[place as int],
        parked(final(stops)@) == model::dequeued(parked(old(stops)@), trigger, place as int),
        old(stops)@.dom().finite() ==> final(stops)@.dom().finite(),
{
    let ghost was = stops@;
    let mut queue: Vec<Order> = take_queue(stops, trigger).expect("queue must exist");
    let order = queue.remove(place);
    if queue.len() > 0 {
        put_queue(stops, trigger, queue);
        proof {
            assert(stops@.dom() =~= was.dom());
        }
    }
    proof {
        assert(was.remove(trigger).dom() =~= was.dom().remove(trigger));
        assert(parked(stops@) =~= model::dequeued(parked(was), trigger, place as int));
    }
    order
}

/// The place of the stop of a name in a queue.
pub fn place_of(queue: &Vec<Order>, id: &ExchangeId) -> (r: Option<usize>)
    ensures
        match r {
            Some(i) => {
                &&& i < queue@.len()
                &&& queue@[i as int].exchange_id@ == id@
                &&& forall|j: int| 0 <= j < i ==> (#[trigger] queue@[j]).exchange_id@ != id@
            },
            None => forall|j: int|
                0 <= j < queue@.len() ==> (#[trigger] queue@[j]).exchange_id@ != id@,
        },
{
    let mut i: usize = 0;
    while i < queue.len()
        invariant
            i <= queue@.len(),
            forall|j: int| 0 <= j < i ==> (#[trigger] queue@[j]).exchange_id@ != id@,
        decreases queue@.len() - i,
    {
        if queue[i].exchange_id.same(id) {
            return Some(i);
        }
        i = i + 1;
    }
    None
}

/// The stop of a name in the queue of a trigger.
pub fn find<'a>(
    stops: &'a BTreeMap<u64, Vec<Order>>,
    trigger: u64,
    id: &ExchangeId,
) -> (r: Option<&'a Order>)
    ensures
        match r {
            Some(order) => exists|i: int|
                #[trigger] model::first_at(parked(stops@), id@, trigger, i) && *order == parked(
                    stops@,
                )[trigger][i],
            None => forall|i: int| !#[trigger] model::queued_at(parked(stops@), id@, trigger, i),
        },
{
    let queue: &Vec<Order> = match storage::btree_get(stops, trigger) {
        Some(queue) => queue,
        None => return None,
    };
    match place_of(queue, id) {
        Some(i) => {
            proof {
                assert(model::first_at(parked(stops@), id@, trigger, i as int));
            }
            Some(&queue[i])
        },
        None => None,
    }
}

/// The trigger nearest to a rising market: the lowest.
pub fn lowest(stops: &BTreeMap<u64, Vec<Order>>) -> (r: Option<u64>)
    requires
        stops@.dom().finite(),
    ensures
        r == storage::best(parked(stops@).dom(), Side::Ask),
{
    proof {
        assert(parked(stops@).dom() =~= stops@.dom());
    }
    match storage::btree_first(stops) {
        Some((key, _)) => {
            proof {
                let dom = stops@.dom();
                assert(storage::is_best(dom, Side::Ask, *key)) by {
                    assert forall|q: u64| #[trigger] dom.contains(q) implies storage::no_worse(
                        Side::Ask,
                        *key,
                        q,
                    ) by {
                        assert(stops@.contains_key(q));
                    }
                }
                storage::lemma_best_unique(dom, Side::Ask, *key);
            }
            Some(*key)
        },
        None => None,
    }
}

/// The trigger nearest to a falling market: the highest.
pub fn highest(stops: &BTreeMap<u64, Vec<Order>>) -> (r: Option<u64>)
    requires
        stops@.dom().finite(),
    ensures
        r == storage::best(parked(stops@).dom(), Side::Bid),
{
    proof {
        assert(parked(stops@).dom() =~= stops@.dom());
    }
    match storage::btree_last(stops) {
        Some((key, _)) => {
            proof {
                let dom = stops@.dom();
                assert(storage::is_best(dom, Side::Bid, *key)) by {
                    assert forall|q: u64| #[trigger] dom.contains(q) implies storage::no_worse(
                        Side::Bid,
                        *key,
                        q,
                    ) by {
                        assert(stops@.contains_key(q));
                    }
                }
                storage::lemma_best_unique(dom, Side::Bid, *key);
            }
            Some(*key)
        },
        None => None,
    }
}

} // verus!
