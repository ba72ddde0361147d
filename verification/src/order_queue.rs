//! The queues of the price levels. All nodes of a book live in one slot map;
//! each level threads its own through it as a doubly linked list.

use crate::allocation::Maker;
use crate::instrument::Qty;
use crate::types;
use crate::types::ClientId;
use crate::types::Order;
use slotmap::SlotMap;
use vstd::prelude::*;

verus! {

/// The keys of `slotmap`. A key names one node for as long as the node lives;
/// after 2^31 reuses of one slot a key can come back.
#[verifier::external_type_specification]
#[verifier::external_body]
pub struct ExDefaultKey(slotmap::DefaultKey);

/// The identity of a resting order within one book.
pub type OrderKey = slotmap::DefaultKey;

/// A resting order and its neighbours in the queue.
#[derive(Debug)]
pub struct Node {
    pub order: Order,
    pub previous: Option<OrderKey>,
    pub next: Option<OrderKey>,
}

impl Clone for Node {
    fn clone(&self) -> (r: Self)
        ensures
            r == *self,
    {
        Node { order: self.order.clone(), previous: self.previous, next: self.next }
    }
}

/// All resting orders of a book, in a slot map.
#[verifier::external_body]
#[derive(Debug)]
pub struct OrderArena {
    map: SlotMap<OrderKey, Node>,
}

/// What the slot map holds, by key.
pub uninterp spec fn arena_contents(arena: OrderArena) -> Map<OrderKey, Node>;

impl View for OrderArena {
    type V = Map<OrderKey, Node>;

    open spec fn view(&self) -> Map<OrderKey, Node> {
        arena_contents(*self)
    }
}

/// `SlotMap::with_key` makes an empty map.
#[verifier::external_body]
fn arena_new() -> (r: OrderArena)
    ensures
        arena_contents(r).dom() == Set::<OrderKey>::empty(),
{
    OrderArena { map: SlotMap::with_key() }
}

/// `SlotMap::insert` stores the value under a key that no live value has, and
/// returns the key. It panics when `u32::MAX - 1` values are live and every slot
/// is taken, so that many are not admitted.
#[verifier::external_body]
fn arena_insert(arena: &mut OrderArena, node: Node) -> (r: OrderKey)
    requires
        arena_contents(*old(arena)).dom().finite(),
        arena_contents(*old(arena)).dom().len() < u32::MAX - 1,
    ensures
        !arena_contents(*old(arena)).contains_key(r),
        arena_contents(*final(arena)) == arena_contents(*old(arena)).insert(r, node),
{
    arena.map.insert(node)
}

/// `SlotMap::get` finds the value of a live key, and nothing for any other.
#[verifier::external_body]
fn arena_get(arena: &OrderArena, key: OrderKey) -> (r: Option<&Node>)
    ensures
        r == (if arena_contents(*arena).contains_key(key) {
            Some(&arena_contents(*arena)[key])
        } else {
            None
        }),
{
    arena.map.get(key)
}

/// `SlotMap::get_mut` lends the value of a live key, and nothing for any other.
/// What the borrower leaves there is what the map holds afterwards.
#[verifier::external_body]
fn arena_get_mut(arena: &mut OrderArena, key: OrderKey) -> (r: Option<&mut Node>)
    ensures
        match r {
            Some(node) => {
                &&& arena_contents(*old(arena)).contains_key(key)
                &&& *node == arena_contents(*old(arena))[key]
                &&& arena_contents(*final(arena)) == arena_contents(*old(arena)).insert(
                    key,
                    *final(node),
                )
            },
            None => {
                &&& !arena_contents(*old(arena)).contains_key(key)
                &&& arena_contents(*final(arena)) == arena_contents(*old(arena))
            },
        },
{
    arena.map.get_mut(key)
}

/// `SlotMap::remove` takes the value of a live key out and leaves every other
/// alone; for any other key it does nothing.
#[verifier::external_body]
fn arena_remove(arena: &mut OrderArena, key: OrderKey) -> (r: Option<Node>)
    ensures
        r == (if arena_contents(*old(arena)).contains_key(key) {
            Some(arena_contents(*old(arena))[key])
        } else {
            None
        }),
        arena_contents(*final(arena)) == arena_contents(*old(arena)).remove(key),
{
    arena.map.remove(key)
}

/// `SlotMap::len` counts the live values.
#[verifier::external_body]
fn arena_len(arena: &OrderArena) -> (r: usize)
    ensures
        r == arena_contents(*arena).dom().len(),
{
    arena.map.len()
}

/// `==` on the keys of `slotmap` compares slot and version.
#[verifier::external_body]
fn same_key(a: OrderKey, b: OrderKey) -> (r: bool)
    ensures
        r == (a == b),
{
    a == b
}

impl Clone for OrderArena {
    /// `SlotMap::clone` keeps every key and clones every value.
    #[verifier::external_body]
    fn clone(&self) -> (r: Self)
        ensures
            arena_contents(r).dom() == arena_contents(*self).dom(),
            forall|k: OrderKey| #[trigger]
                arena_contents(r).contains_key(k) ==> cloned(
                    arena_contents(*self)[k],
                    arena_contents(r)[k],
                ),
    {
        OrderArena { map: self.map.clone() }
    }
}

impl OrderArena {
    /// An arena without orders.
    pub fn with_key() -> (r: Self)
        ensures
            r@ == Map::<OrderKey, Node>::empty(),
    {
        let arena = arena_new();
        proof {
            assert(arena@ =~= Map::<OrderKey, Node>::empty());
        }
        arena
    }

    /// The node of a live key.
    pub fn get(&self, key: OrderKey) -> (r: Option<&Node>)
        ensures
            r == (if self@.contains_key(key) {
                Some(&self@[key])
            } else {
                None
            }),
    {
        arena_get(self, key)
    }

    /// How many orders are live.
    pub fn len(&self) -> (r: usize)
        ensures
            r == self@.dom().len(),
    {
        arena_len(self)
    }

    pub fn is_empty(&self) -> (r: bool)
        ensures
            r == (self@.dom().len() == 0),
    {
        arena_len(self) == 0
    }

    fn set_next(&mut self, key: OrderKey, next: Option<OrderKey>)
        requires
            old(self)@.contains_key(key),
        ensures
            final(self)@ == old(self)@.insert(key, (Node { next, ..old(self)@[key] })),
    {
        if let Some(node) = arena_get_mut(self, key) {
            node.next = next;
        }
    }

    fn set_previous(&mut self, key: OrderKey, previous: Option<OrderKey>)
        requires
            old(self)@.contains_key(key),
        ensures
            final(self)@ == old(self)@.insert(key, (Node { previous, ..old(self)@[key] })),
    {
        if let Some(node) = arena_get_mut(self, key) {
            node.previous = previous;
        }
    }
}

impl OrderArena {
    /// Notes what is left of an order.
    pub(crate) fn set_remaining(&mut self, key: OrderKey, remaining: Qty)
        requires
            old(self)@.contains_key(key),
        ensures
            final(self)@ == old(self)@.insert(
                key,
                (Node {
                    order: Order { remaining_quantity: remaining, ..old(self)@[key].order },
                    ..old(self)@[key]
                }),
            ),
    {
        if let Some(node) = arena_get_mut(self, key) {
            node.order.remaining_quantity = remaining;
        }
    }
}

/// Whether two optional keys are the same.
fn same_link(a: Option<OrderKey>, b: Option<OrderKey>) -> (r: bool)
    ensures
        r == (a == b),
{
    match (a, b) {
        (Some(a), Some(b)) => same_key(a, b),
        (None, None) => true,
        _ => false,
    }
}

/// The first-in-first-out queue of one level: the ends of its list and its
/// length. The nodes are in the arena.
#[derive(Debug)]
pub struct LevelQueue {
    pub(crate) head: Option<OrderKey>,
    pub(crate) tail: Option<OrderKey>,
    pub(crate) len: usize,
}

impl Clone for LevelQueue {
    fn clone(&self) -> (r: Self)
        ensures
            r == *self,
    {
        LevelQueue { head: self.head, tail: self.tail, len: self.len }
    }
}

/// Whether the node at place `i` of a queue is live and points to its neighbours.
pub open(crate) spec fn link_ok(nodes: Map<OrderKey, Node>, keys: Seq<OrderKey>, i: int) -> bool {
    &&& nodes.contains_key(keys[i])
    &&& nodes[keys[i]].previous == (if i == 0 {
        None
    } else {
        Some(keys[i - 1])
    })
    &&& nodes[keys[i]].next == (if i == keys.len() - 1 {
        None
    } else {
        Some(keys[i + 1])
    })
}

/// The orders of a list of keys.
pub open(crate) spec fn orders_at(nodes: Map<OrderKey, Node>, keys: Seq<OrderKey>) -> Seq<Order> {
    keys.map_values(|k: OrderKey| nodes[k].order)
}

/// Whether `after` differs from `before` in the nodes of `keys` alone.
pub open(crate) spec fn same_outside(
    before: Map<OrderKey, Node>,
    after: Map<OrderKey, Node>,
    keys: Seq<OrderKey>,
) -> bool {
    forall|k: OrderKey| #[trigger]
        before.contains_key(k) && !keys.contains(k) ==> after.contains_key(k) && after[k]
            == before[k]
}

impl LevelQueue {
    /// Whether the queue is the list of these keys, front first.
    pub open(crate) spec fn chain(self, nodes: Map<OrderKey, Node>, keys: Seq<OrderKey>) -> bool {
        &&& self.len == keys.len()
        &&& self.head == (if keys.len() == 0 {
            None
        } else {
            Some(keys[0])
        })
        &&& self.tail == (if keys.len() == 0 {
            None
        } else {
            Some(keys[keys.len() - 1])
        })
        &&& forall|i: int| 0 <= i < keys.len() ==> #[trigger] link_ok(nodes, keys, i)
    }

    /// Whether the queue is a list of live nodes, linked both ways.
    pub open(crate) spec fn wf(self, nodes: Map<OrderKey, Node>) -> bool {
        exists|keys: Seq<OrderKey>| self.chain(nodes, keys)
    }

    /// The keys of the queue, front first.
    pub open(crate) spec fn keys(self, nodes: Map<OrderKey, Node>) -> Seq<OrderKey> {
        choose|keys: Seq<OrderKey>| self.chain(nodes, keys)
    }

    /// The orders of the queue, front first.
    pub open(crate) spec fn orders(self, nodes: Map<OrderKey, Node>) -> Seq<Order> {
        orders_at(nodes, self.keys(nodes))
    }
}

proof fn lemma_chain_agrees(
    q: LevelQueue,
    nodes: Map<OrderKey, Node>,
    a: Seq<OrderKey>,
    b: Seq<OrderKey>,
    i: int,
)
    requires
        q.chain(nodes, a),
        q.chain(nodes, b),
        0 <= i < a.len(),
    ensures
        a[i] == b[i],
    decreases i,
{
    if i > 0 {
        lemma_chain_agrees(q, nodes, a, b, i - 1);
        assert(link_ok(nodes, a, i - 1));
        assert(link_ok(nodes, b, i - 1));
    }
}

/// A queue is the list of one sequence of keys only.
pub(crate) proof fn lemma_keys(q: LevelQueue, nodes: Map<OrderKey, Node>, keys: Seq<OrderKey>)
    requires
        q.chain(nodes, keys),
    ensures
        q.wf(nodes),
        q.keys(nodes) == keys,
{
    let chosen = q.keys(nodes);
    assert(q.chain(nodes, chosen));
    assert forall|i: int| 0 <= i < keys.len() implies keys[i] == chosen[i] by {
        lemma_chain_agrees(q, nodes, keys, chosen, i);
    }
    assert(keys =~= chosen);
}

proof fn lemma_places_differ(
    q: LevelQueue,
    nodes: Map<OrderKey, Node>,
    keys: Seq<OrderKey>,
    i: int,
    j: int,
)
    requires
        q.chain(nodes, keys),
        0 <= i < j < keys.len(),
    ensures
        keys[i] != keys[j],
    decreases i,
{
    assert(link_ok(nodes, keys, i));
    assert(link_ok(nodes, keys, j));
    if i > 0 {
        lemma_places_differ(q, nodes, keys, i - 1, j - 1);
    }
}

/// No key is in a queue twice, and every key is live.
pub(crate) proof fn lemma_chain_distinct(
    q: LevelQueue,
    nodes: Map<OrderKey, Node>,
    keys: Seq<OrderKey>,
)
    requires
        q.chain(nodes, keys),
    ensures
        keys.no_duplicates(),
        forall|i: int| 0 <= i < keys.len() ==> nodes.contains_key(#[trigger] keys[i]),
{
    assert forall|i: int, j: int|
        0 <= i < keys.len() && 0 <= j < keys.len() && i != j implies keys[i] != keys[j] by {
        if i < j {
            lemma_places_differ(q, nodes, keys, i, j);
        } else {
            lemma_places_differ(q, nodes, keys, j, i);
        }
    }
    assert forall|i: int| 0 <= i < keys.len() implies nodes.contains_key(#[trigger] keys[i]) by {
        assert(link_ok(nodes, keys, i));
    }
}

/// A queue does not depend on nodes that are not its own.
pub(crate) proof fn lemma_chain_framed(
    q: LevelQueue,
    before: Map<OrderKey, Node>,
    after: Map<OrderKey, Node>,
    keys: Seq<OrderKey>,
)
    requires
        q.chain(before, keys),
        forall|i: int|
            0 <= i < keys.len() ==> after.contains_key(#[trigger] keys[i]) && after[keys[i]]
                == before[keys[i]],
    ensures
        q.chain(after, keys),
        orders_at(after, keys) == orders_at(before, keys),
{
    assert forall|i: int| 0 <= i < keys.len() implies #[trigger] link_ok(after, keys, i) by {
        assert(link_ok(before, keys, i));
        assert(after[keys[i]] == before[keys[i]]);
    }
    assert(orders_at(after, keys) =~= orders_at(before, keys));
}

/// A queue depends on the links of its nodes alone.
pub(crate) proof fn lemma_chain_relinked(
    q: LevelQueue,
    before: Map<OrderKey, Node>,
    after: Map<OrderKey, Node>,
    keys: Seq<OrderKey>,
)
    requires
        q.chain(before, keys),
        forall|i: int|
            0 <= i < keys.len() ==> {
                &&& after.contains_key(#[trigger] keys[i])
                &&& after[keys[i]].previous == before[keys[i]].previous
                &&& after[keys[i]].next == before[keys[i]].next
            },
    ensures
        q.chain(after, keys),
        q.wf(after),
        q.keys(after) == keys,
{
    assert forall|i: int| 0 <= i < keys.len() implies #[trigger] link_ok(after, keys, i) by {
        assert(link_ok(before, keys, i));
        assert(after.contains_key(keys[i]));
    }
    lemma_keys(q, after, keys);
}

impl Default for LevelQueue {
    fn default() -> (r: Self)
        ensures
            forall|nodes: Map<OrderKey, Node>| #[trigger]
                r.chain(nodes, Seq::<OrderKey>::empty()),
            r.len() == 0,
    {
        LevelQueue { head: None, tail: None, len: 0 }
    }
}

impl LevelQueue {
    pub fn is_empty(&self) -> (r: bool)
        ensures
            r == (self.spec_len() == 0),
    {
        self.len == 0
    }

    pub open(crate) spec fn spec_len(&self) -> usize {
        self.len
    }

    #[verifier::when_used_as_spec(spec_len)]
    pub fn len(&self) -> (r: usize)
        ensures
            r == self.len(),
    {
        self.len
    }

    /// Puts an order at the back of the queue.
    pub fn push_back(&mut self, nodes: &mut OrderArena, order: Order) -> (r: OrderKey)
        requires
            old(self).wf(old(nodes)@),
            old(nodes)@.dom().finite(),
            old(nodes)@.dom().len() < u32::MAX - 1,
            old(self).len() < usize::MAX,
        ensures
            !old(nodes)@.contains_key(r),
            final(nodes)@.dom() == old(nodes)@.dom().insert(r),
            final(self).wf(final(nodes)@),
            final(self).keys(final(nodes)@) == old(self).keys(old(nodes)@).push(r),
            final(self).orders(final(nodes)@) == old(self).orders(old(nodes)@).push(order),
            final(nodes)@[r].order == order,
            forall|k: OrderKey| #[trigger]
                old(nodes)@.contains_key(k) ==> final(nodes)@[k].order == old(nodes)@[k].order,
            same_outside(old(nodes)@, final(nodes)@, old(self).keys(old(nodes)@)),
            final(self).len() == old(self).len() + 1,
    {
        let ghost before = nodes@;
        let ghost keys = self.keys(before);
        let ghost start = *self;
        proof {
            assert(start.chain(before, keys));
            lemma_chain_distinct(start, before, keys);
        }
        let key = arena_insert(nodes, Node { order, previous: self.tail, next: None });
        match self.tail {
            Some(tail) => {
                proof {
                    assert(link_ok(before, keys, keys.len() - 1));
                }
                nodes.set_next(tail, Some(key));
            },
            None => {
                self.head = Some(key);
            },
        }
        self.tail = Some(key);
        self.len = self.len + 1;
        proof {
            let after = nodes@;
            let longer = keys.push(key);
            let n = keys.len() as int;
            assert forall|i: int| 0 <= i < n implies (#[trigger] keys[i]) != key by {
                assert(before.contains_key(keys[i]));
            }
            assert forall|i: int| 0 <= i < longer.len() implies #[trigger] link_ok(
                after,
                longer,
                i,
            ) by {
                if i < n {
                    assert(link_ok(before, keys, i));
                    assert(longer[i] == keys[i]);
                    assert(keys[i] != key);
                    if i < n - 1 {
                        assert(keys[i] != keys[n - 1]);
                        assert(longer[i + 1] == keys[i + 1]);
                    }
                    if i > 0 {
                        assert(longer[i - 1] == keys[i - 1]);
                    }
                } else if n > 0 {
                    assert(longer[i - 1] == keys[n - 1]);
                }
            }
            assert(self.chain(after, longer));
            lemma_keys(*self, after, longer);
            assert(after.dom() =~= before.dom().insert(key));
            assert forall|i: int| 0 <= i < n implies (#[trigger] after[keys[i]]).order
                == before[keys[i]].order by {
                assert(before.contains_key(keys[i]));
            }
            assert(orders_at(after, longer) =~= orders_at(before, keys).push(order));
            assert forall|k: OrderKey| #[trigger]
                before.contains_key(k) && !keys.contains(k) implies after.contains_key(k)
                && after[k] == before[k] by {
                if n > 0 {
                    assert(keys.contains(keys[n - 1]));
                }
            }
        }
        key
    }

    /// Takes the order of a key out of the queue. A key that is no longer live
    /// does nothing; a live key has to be of this queue.
    pub fn remove_key(&mut self, nodes: &mut OrderArena, key: OrderKey) -> (r: Option<Order>)
        requires
            old(self).wf(old(nodes)@),
            old(nodes)@.contains_key(key) ==> old(self).keys(old(nodes)@).contains(key),
        ensures
            r is Some <==> old(nodes)@.contains_key(key),
            r is None ==> *final(self) == *old(self) && final(nodes)@ == old(nodes)@,
            r matches Some(order) ==> {
                let keys = old(self).keys(old(nodes)@);
                let place = keys.index_of(key);
                &&& order == old(nodes)@[key].order
                &&& final(nodes)@.dom() == old(nodes)@.dom().remove(key)
                &&& final(self).wf(final(nodes)@)
                &&& final(self).keys(final(nodes)@) == keys.remove(place)
                &&& final(self).orders(final(nodes)@) == old(self).orders(old(nodes)@).remove(place)
                &&& forall|k: OrderKey| #[trigger]
                    old(nodes)@.contains_key(k) && k != key ==> final(nodes)@[k].order
                        == old(nodes)@[k].order
                &&& same_outside(old(nodes)@, final(nodes)@, keys)
                &&& final(self).len() == old(self).len() - 1
            },
    {
        let ghost before = nodes@;
        let ghost keys = self.keys(before);
        let ghost start = *self;
        let ghost place = keys.index_of(key);
        proof {
            assert(start.chain(before, keys));
            lemma_chain_distinct(start, before, keys);
        }
        let node = match arena_remove(nodes, key) {
            Some(node) => node,
            None => {
                proof {
                    assert(before.remove(key) =~= before);
                }
                return None;
            },
        };
        let ghost n = keys.len() as int;
        proof {
            assert(keys[place] == key);
            assert(link_ok(before, keys, place));
        }
        match node.previous {
            Some(previous) => {
                proof {
                    assert(link_ok(before, keys, place - 1));
                    assert(keys[place - 1] != keys[place]);
                }
                nodes.set_next(previous, node.next);
            },
            None => {
                self.head = node.next;
            },
        }
        match node.next {
            Some(next) => {
                proof {
                    assert(link_ok(before, keys, place + 1));
                    assert(keys[place + 1] != keys[place]);
                }
                nodes.set_previous(next, node.previous);
            },
            None => {
                self.tail = node.previous;
            },
        }
        self.len = self.len - 1;
        proof {
            let after = nodes@;
            let shorter = keys.remove(place);
            assert forall|i: int| 0 <= i < shorter.len() implies #[trigger] link_ok(
                after,
                shorter,
                i,
            ) by {
                let from = if i < place {
                    i
                } else {
                    i + 1
                };
                assert(shorter[i] == keys[from]);
                assert(link_ok(before, keys, from));
                assert(keys[from] != keys[place]);
                if place > 0 {
                    assert(from != place - 1 ==> keys[from] != keys[place - 1]);
                }
                if place < n - 1 {
                    assert(from != place + 1 ==> keys[from] != keys[place + 1]);
                    if place > 0 {
                        assert(keys[place - 1] != keys[place + 1]);
                    }
                }
                if i > 0 {
                    assert(shorter[i - 1] == keys[if i - 1 < place {
                        i - 1
                    } else {
                        i
                    }]);
                }
                if i < shorter.len() - 1 {
                    assert(shorter[i + 1] == keys[if i + 1 < place {
                        i + 1
                    } else {
                        i + 2
                    }]);
                }
            }
            assert(self.chain(after, shorter));
            lemma_keys(*self, after, shorter);
            assert(after.dom() =~= before.dom().remove(key));
            assert forall|k: OrderKey| #[trigger]
                before.contains_key(k) && k != key implies after[k].order == before[k].order by {}
            assert(orders_at(after, shorter) =~= orders_at(before, keys).remove(place)) by {
                assert forall|i: int| 0 <= i < shorter.len() implies orders_at(after, shorter)[i]
                    == orders_at(before, keys).remove(place)[i] by {
                    let from = if i < place {
                        i
                    } else {
                        i + 1
                    };
                    assert(shorter[i] == keys[from]);
                    assert(keys[from] != keys[place]);
                    assert(before.contains_key(keys[from]));
                }
            }
            assert forall|k: OrderKey| #[trigger]
                before.contains_key(k) && !keys.contains(k) implies after.contains_key(k)
                && after[k] == before[k] by {
                if place > 0 {
                    assert(keys.contains(keys[place - 1]));
                }
                if place < n - 1 {
                    assert(keys.contains(keys[place + 1]));
                }
                assert(keys.contains(keys[place]));
            }
        }
        Some(node.order)
    }
}

/// The orders of a client.
pub open spec fn owned(orders: Seq<Order>, client: Seq<char>) -> Seq<Order>
    decreases orders.len(),
{
    if orders.len() == 0 {
        Seq::empty()
    } else {
        let before = owned(orders.drop_last(), client);
        if orders.last().client_id@ == client {
            before.push(orders.last())
        } else {
            before
        }
    }
}

/// The orders of everyone else.
pub open spec fn not_owned(orders: Seq<Order>, client: Seq<char>) -> Seq<Order>
    decreases orders.len(),
{
    if orders.len() == 0 {
        Seq::empty()
    } else {
        let before = not_owned(orders.drop_last(), client);
        if orders.last().client_id@ != client {
            before.push(orders.last())
        } else {
            before
        }
    }
}

/// The keys of the orders of everyone else.
pub open spec fn keys_not_owned(
    nodes: Map<OrderKey, Node>,
    keys: Seq<OrderKey>,
    client: Seq<char>,
) -> Seq<OrderKey>
    decreases keys.len(),
{
    if keys.len() == 0 {
        Seq::empty()
    } else {
        let before = keys_not_owned(nodes, keys.drop_last(), client);
        if nodes[keys.last()].order.client_id@ != client {
            before.push(keys.last())
        } else {
            before
        }
    }
}

proof fn lemma_owned_step(
    nodes: Map<OrderKey, Node>,
    keys: Seq<OrderKey>,
    client: Seq<char>,
    i: int,
)
    requires
        0 <= i < keys.len(),
    ensures
        ({
            let order = nodes[keys[i]].order;
            let own = order.client_id@ == client;
            let before = keys.take(i);
            let after = keys.take(i + 1);
            &&& owned(orders_at(nodes, after), client) == (if own {
                owned(orders_at(nodes, before), client).push(order)
            } else {
                owned(orders_at(nodes, before), client)
            })
            &&& keys_not_owned(nodes, after, client) == (if own {
                keys_not_owned(nodes, before, client)
            } else {
                keys_not_owned(nodes, before, client).push(keys[i])
            })
        }),
{
    assert(keys.take(i + 1).drop_last() =~= keys.take(i));
    assert(orders_at(nodes, keys.take(i + 1)).drop_last() =~= orders_at(nodes, keys.take(i)));
}

/// Selecting keys by their orders selects the orders.
pub(crate) proof fn lemma_kept_orders(
    nodes: Map<OrderKey, Node>,
    keys: Seq<OrderKey>,
    client: Seq<char>,
)
    ensures
        orders_at(nodes, keys_not_owned(nodes, keys, client)) =~= not_owned(
            orders_at(nodes, keys),
            client,
        ),
    decreases keys.len(),
{
    if keys.len() > 0 {
        lemma_kept_orders(nodes, keys.drop_last(), client);
        assert(orders_at(nodes, keys).drop_last() =~= orders_at(nodes, keys.drop_last()));
    }
}

pub(crate) proof fn lemma_kept_member_keys(nodes: Map<OrderKey, Node>, keys: Seq<OrderKey>, client: Seq<char>)
    ensures
        forall|k: OrderKey| #[trigger]
            keys_not_owned(nodes, keys, client).contains(k) <==> keys.contains(k)
                && nodes[k].order.client_id@ != client,
    decreases keys.len(),
{
    if keys.len() > 0 {
        let rest = keys.drop_last();
        let key = keys.last();
        let kept = keys_not_owned(nodes, keys, client);
        let before = keys_not_owned(nodes, rest, client);
        lemma_kept_member_keys(nodes, rest, client);
        assert forall|k: OrderKey| #[trigger]
            kept.contains(k) <==> keys.contains(k) && nodes[k].order.client_id@ != client by {
            assert(keys =~= rest.push(key));
            lemma_push_contains(rest, key, k);
            lemma_push_contains(before, key, k);
            assert(before.contains(k) <==> rest.contains(k) && nodes[k].order.client_id@ != client);
        }
    }
}

pub(crate) proof fn lemma_push_contains(s: Seq<OrderKey>, x: OrderKey, k: OrderKey)
    ensures
        s.push(x).contains(k) <==> s.contains(k) || k == x,
{
    let t = s.push(x);
    if s.contains(k) {
        let j = choose|j: int| 0 <= j < s.len() && s[j] == k;
        assert(t[j] == k);
    }
    if k == x {
        assert(t[s.len() as int] == k);
    }
    if t.contains(k) {
        let j = choose|j: int| 0 <= j < t.len() && t[j] == k;
        if j < s.len() {
            assert(s[j] == k);
        }
    }
}

impl LevelQueue {
    /// Takes every order of a client out of the queue and returns them, oldest
    /// first.
    pub fn remove_client(&mut self, nodes: &mut OrderArena, client: &ClientId) -> (r: Vec<Order>)
        requires
            old(self).wf(old(nodes)@),
        ensures
            r@ == owned(old(self).orders(old(nodes)@), client@),
            final(self).wf(final(nodes)@),
            final(self).orders(final(nodes)@) == not_owned(
                old(self).orders(old(nodes)@),
                client@,
            ),
            final(self).keys(final(nodes)@) == keys_not_owned(
                old(nodes)@,
                old(self).keys(old(nodes)@),
                client@,
            ),
            forall|k: OrderKey| #[trigger]
                final(nodes)@.contains_key(k) <==> old(nodes)@.contains_key(k) && !(old(self).keys(
                    old(nodes)@,
                ).contains(k) && old(nodes)@[k].order.client_id@ == client@),
            forall|k: OrderKey| #[trigger]
                final(nodes)@.contains_key(k) ==> final(nodes)@[k].order == old(nodes)@[k].order,
            same_outside(old(nodes)@, final(nodes)@, old(self).keys(old(nodes)@)),
    {
        let ghost before = nodes@;
        let ghost keys = self.keys(before);
        let ghost n = keys.len() as int;
        let mut removed: Vec<Order> = Vec::new();
        let mut cursor: Option<OrderKey> = self.head;
        let ghost mut i: int = 0;
        proof {
            assert(self.chain(before, keys));
            lemma_chain_distinct(*self, before, keys);
            assert(keys.take(0) =~= Seq::<OrderKey>::empty());
            assert(keys_not_owned(before, keys.take(0), client@) =~= Seq::<OrderKey>::empty());
            assert(orders_at(before, keys.take(0)) =~= Seq::<Order>::empty());
            assert(owned(orders_at(before, keys.take(0)), client@) =~= Seq::<Order>::empty());
            assert(keys_not_owned(before, keys.take(0), client@) + keys.skip(0) =~= keys);
        }
        while cursor.is_some()
            invariant
                0 <= i <= n,
                n == keys.len(),
                keys.no_duplicates(),
                forall|j: int| 0 <= j < n ==> before.contains_key(#[trigger] keys[j]),
                cursor == (if i < n {
                    Some(keys[i])
                } else {
                    None
                }),
                self.chain(
                    nodes@,
                    keys_not_owned(before, keys.take(i), client@) + keys.skip(i),
                ),
                removed@ == owned(orders_at(before, keys.take(i)), client@),
                forall|k: OrderKey| #[trigger]
                    nodes@.contains_key(k) <==> before.contains_key(k) && !(keys.take(i).contains(k)
                        && before[k].order.client_id@ == client@),
                forall|k: OrderKey| #[trigger]
                    nodes@.contains_key(k) ==> nodes@[k].order == before[k].order,
                same_outside(before, nodes@, keys),
            decreases n - i,
        {
            let ghost current = nodes@;
            let ghost kept = keys_not_owned(before, keys.take(i), client@);
            let ghost list = kept + keys.skip(i);
            let ghost place = kept.len() as int;
            let key = cursor.unwrap();
            proof {
                assert(list[place] == keys[i]);
                assert(link_ok(current, list, place));
                lemma_keys(*self, current, list);
                lemma_chain_distinct(*self, current, list);
                lemma_owned_step(before, keys, client@, i);
                if i + 1 < n {
                    assert(list[place + 1] == keys[i + 1]);
                }
                assert(keys.take(i + 1) =~= keys.take(i).push(keys[i]));
            }
            let node = nodes.get(key).expect("a link leads to a live node");
            cursor = node.next;
            if node.order.client_id.same(client) {
                proof {
                    assert(list.contains(list[place]));
                    assert(list.index_of(key) == place);
                }
                removed.push(self.remove_key(nodes, key).expect("a link leads to a live node"));
                proof {
                    let next_kept = keys_not_owned(before, keys.take(i + 1), client@);
                    assert(next_kept == kept);
                    assert(list.remove(place) =~= next_kept + keys.skip(i + 1));
                    assert(self.chain(nodes@, self.keys(nodes@)));
                    assert forall|k: OrderKey| #[trigger]
                        nodes@.contains_key(k) <==> before.contains_key(k) && !(keys.take(
                            i + 1,
                        ).contains(k) && before[k].order.client_id@ == client@) by {
                        lemma_take_contains(keys, i, k);
                    }
                    assert forall|k: OrderKey| #[trigger]
                        before.contains_key(k) && !keys.contains(k) implies nodes@.contains_key(k)
                        && nodes@[k] == before[k] by {
                        assert(current.contains_key(k) && current[k] == before[k]);
                        assert(!list.contains(k)) by {
                            if list.contains(k) {
                                let j = choose|j: int| 0 <= j < list.len() && list[j] == k;
                                if j < place {
                                    lemma_kept_member_keys(before, keys.take(i), client@);
                                    assert(kept.contains(k));
                                    assert(keys.take(i).contains(k));
                                    let m = choose|m: int| 0 <= m < i && keys.take(i)[m] == k;
                                    assert(keys[m] == k);
                                } else {
                                    assert(list[j] == keys[i + (j - place)]);
                                }
                            }
                        }
                    }
                }
            } else {
                proof {
                    let next_kept = keys_not_owned(before, keys.take(i + 1), client@);
                    assert(next_kept == kept.push(keys[i]));
                    assert(list =~= next_kept + keys.skip(i + 1));
                    assert forall|k: OrderKey| #[trigger]
                        nodes@.contains_key(k) <==> before.contains_key(k) && !(keys.take(
                            i + 1,
                        ).contains(k) && before[k].order.client_id@ == client@) by {
                        lemma_take_contains(keys, i, k);
                    }
                }
            }
            proof {
                i = i + 1;
            }
        }
        proof {
            assert(keys.take(n) =~= keys);
            let kept = keys_not_owned(before, keys, client@);
            assert(kept + keys.skip(n) =~= kept);
            lemma_keys(*self, nodes@, kept);
            lemma_kept_orders(before, keys, client@);
            lemma_kept_member_keys(before, keys, client@);
            assert(orders_at(nodes@, kept) =~= orders_at(before, kept)) by {
                lemma_chain_distinct(*self, nodes@, kept);
            }
        }
        removed
    }

    /// Reads the queue, oldest first, as an allocation policy sees it, with the
    /// key of each order beside it.
    pub fn collect_makers(
        &self,
        nodes: &OrderArena,
        makers: &mut Vec<Maker>,
        keys: &mut Vec<OrderKey>,
    )
        requires
            self.wf(nodes@),
        ensures
            final(makers)@ == types::as_makers(self.orders(nodes@)),
            final(keys)@ == self.keys(nodes@),
    {
        makers.clear();
        keys.clear();
        let pairs: Vec<(OrderKey, &Order)> = self.iter_with_keys(nodes);
        let ghost orders = self.orders(nodes@);
        let mut i: usize = 0;
        while i < pairs.len()
            invariant
                i <= pairs@.len(),
                pairs@.len() == orders.len(),
                orders == self.orders(nodes@),
                forall|j: int|
                    0 <= j < pairs@.len() ==> (#[trigger] pairs@[j]).0 == self.keys(nodes@)[j]
                        && *pairs@[j].1 == orders[j],
                makers@ == types::as_makers(orders).take(i as int),
                keys@ == self.keys(nodes@).take(i as int),
            decreases pairs@.len() - i,
        {
            let order: &Order = pairs[i].1;
            makers.push(
                Maker {
                    remaining_quantity: order.remaining_quantity,
                    arrival: order.arrival as u128,
                },
            );
            keys.push(pairs[i].0);
            proof {
                assert(makers@ =~= types::as_makers(orders).take(i + 1));
                assert(keys@ =~= self.keys(nodes@).take(i + 1));
            }
            i = i + 1;
        }
        proof {
            assert(types::as_makers(orders).take(i as int) =~= types::as_makers(orders));
            assert(self.keys(nodes@).take(i as int) =~= self.keys(nodes@));
        }
    }

    /// The orders of the queue, oldest first.
    pub fn iter<'a>(&self, nodes: &'a OrderArena) -> (r: Vec<&'a Order>)
        requires
            self.wf(nodes@),
        ensures
            r@.len() == self.orders(nodes@).len(),
            forall|i: int| 0 <= i < r@.len() ==> *#[trigger] r@[i] == self.orders(nodes@)[i],
    {
        let pairs: Vec<(OrderKey, &Order)> = self.iter_with_keys(nodes);
        let ghost orders = self.orders(nodes@);
        let mut found: Vec<&Order> = Vec::new();
        let mut i: usize = 0;
        while i < pairs.len()
            invariant
                i <= pairs@.len(),
                pairs@.len() == orders.len(),
                forall|j: int| 0 <= j < pairs@.len() ==> *(#[trigger] pairs@[j]).1 == orders[j],
                found@.len() == i,
                forall|j: int| 0 <= j < i ==> *#[trigger] found@[j] == orders[j],
            decreases pairs@.len() - i,
        {
            found.push(pairs[i].1);
            i = i + 1;
        }
        found
    }

    /// The orders of the queue, oldest first, each with its key.
    pub fn iter_with_keys<'a>(&self, nodes: &'a OrderArena) -> (r: Vec<(OrderKey, &'a Order)>)
        requires
            self.wf(nodes@),
        ensures
            r@.len() == self.keys(nodes@).len(),
            self.orders(nodes@).len() == self.keys(nodes@).len(),
            forall|i: int|
                0 <= i < r@.len() ==> (#[trigger] r@[i]).0 == self.keys(nodes@)[i] && *r@[i].1
                    == self.orders(nodes@)[i],
    {
        let ghost keys = self.keys(nodes@);
        let ghost n = keys.len() as int;
        let mut found: Vec<(OrderKey, &Order)> = Vec::new();
        let mut cursor: Option<OrderKey> = self.head;
        proof {
            assert(self.chain(nodes@, keys));
        }
        while cursor.is_some()
            invariant
                self.chain(nodes@, keys),
                n == keys.len(),
                found@.len() <= n,
                cursor == (if found@.len() < n {
                    Some(keys[found@.len() as int])
                } else {
                    None
                }),
                forall|j: int|
                    0 <= j < found@.len() ==> (#[trigger] found@[j]).0 == keys[j] && *found@[j].1
                        == nodes@[keys[j]].order,
            decreases n - found@.len(),
        {
            let key = cursor.unwrap();
            proof {
                assert(link_ok(nodes@, keys, found@.len() as int));
            }
            let node = nodes.get(key).expect("a link leads to a live node");
            found.push((key, &node.order));
            cursor = node.next;
        }
        found
    }

    /// Whether the queue is a list of live nodes, linked both ways.
    pub fn links_are_consistent(&self, nodes: &OrderArena) -> (r: bool)
        ensures
            r == self.wf(nodes@),
    {
        if self.head.is_none() || self.tail.is_none() {
            let empty: bool = self.head.is_none() && self.tail.is_none() && self.len == 0;
            proof {
                if empty {
                    assert(self.chain(nodes@, Seq::<OrderKey>::empty()));
                }
            }
            return empty;
        }
        let mut previous: Option<OrderKey> = None;
        let mut cursor: Option<OrderKey> = self.head;
        let mut visited: usize = 0;
        let ghost mut seen: Seq<OrderKey> = Seq::empty();
        while cursor.is_some()
            invariant
                self.head is Some,
                seen.len() == visited,
                visited <= self.len,
                previous == (if seen.len() == 0 {
                    None
                } else {
                    Some(seen[seen.len() - 1])
                }),
                seen.len() > 0 ==> self.head == Some(seen[0]),
                seen.len() == 0 ==> cursor == self.head,
                seen.len() > 0 ==> cursor == nodes@[seen[seen.len() - 1]].next,
                forall|i: int|
                    0 <= i < seen.len() ==> {
                        &&& nodes@.contains_key(#[trigger] seen[i])
                        &&& nodes@[seen[i]].previous == (if i == 0 {
                            None
                        } else {
                            Some(seen[i - 1])
                        })
                    },
                forall|i: int|
                    0 <= i < seen.len() - 1 ==> nodes@[#[trigger] seen[i]].next == Some(
                        seen[i + 1],
                    ),
                forall|keys: Seq<OrderKey>| #[trigger]
                    self.chain(nodes@, keys) ==> seen.len() <= keys.len() && seen =~= keys.take(
                        seen.len() as int,
                    ),
            decreases self.len - visited,
        {
            let key = cursor.unwrap();
            proof {
                assert forall|keys: Seq<OrderKey>| #[trigger]
                    self.chain(nodes@, keys) implies seen.len() < keys.len() && keys[seen.len() as int]
                    == key && link_ok(nodes@, keys, seen.len() as int) by {
                    let n = seen.len() as int;
                    if n > 0 {
                        assert(seen[n - 1] == keys.take(n)[n - 1]);
                        assert(link_ok(nodes@, keys, n - 1));
                    }
                    if n < keys.len() {
                        assert(link_ok(nodes@, keys, n));
                    }
                }
            }
            let node = match nodes.get(key) {
                Some(node) => node,
                None => {
                    return false;
                },
            };
            if !same_link(node.previous, previous) {
                proof {
                    assert forall|keys: Seq<OrderKey>| !#[trigger] self.chain(nodes@, keys) by {
                        if self.chain(nodes@, keys) {
                            let n = seen.len() as int;
                            assert(link_ok(nodes@, keys, n));
                            if n > 0 {
                                assert(seen[n - 1] == keys.take(n)[n - 1]);
                            }
                        }
                    }
                }
                return false;
            }
            if visited >= self.len {
                proof {
                    assert forall|keys: Seq<OrderKey>| !#[trigger] self.chain(nodes@, keys) by {
                        if self.chain(nodes@, keys) {
                            assert(link_ok(nodes@, keys, seen.len() as int));
                        }
                    }
                }
                return false;
            }
            previous = Some(key);
            cursor = node.next;
            visited = visited + 1;
            proof {
                let longer = seen.push(key);
                assert forall|keys: Seq<OrderKey>| #[trigger]
                    self.chain(nodes@, keys) implies longer.len() <= keys.len() && longer
                    =~= keys.take(longer.len() as int) by {
                    assert(link_ok(nodes@, keys, seen.len() as int));
                }
                seen = longer;
            }
        }
        let consistent: bool = same_link(previous, self.tail) && visited == self.len;
        proof {
            if consistent {
                assert forall|i: int| 0 <= i < seen.len() implies #[trigger] link_ok(
                    nodes@,
                    seen,
                    i,
                ) by {
                    assert(nodes@.contains_key(seen[i]));
                }
                assert(self.chain(nodes@, seen));
            } else {
                assert forall|keys: Seq<OrderKey>| !#[trigger] self.chain(nodes@, keys) by {
                    if self.chain(nodes@, keys) {
                        let n = seen.len() as int;
                        if n < keys.len() {
                            assert(link_ok(nodes@, keys, n));
                            if n > 0 {
                                assert(seen[n - 1] == keys.take(n)[n - 1]);
                                assert(link_ok(nodes@, keys, n - 1));
                            }
                        } else {
                            assert(seen[n - 1] == keys.take(n)[n - 1]);
                        }
                    }
                }
            }
        }
        consistent
    }
}

proof fn lemma_take_contains(keys: Seq<OrderKey>, i: int, k: OrderKey)
    requires
        0 <= i < keys.len(),
    ensures
        keys.take(i + 1).contains(k) <==> keys.take(i).contains(k) || k == keys[i],
{
    let longer = keys.take(i + 1);
    let shorter = keys.take(i);
    if longer.contains(k) {
        let j = choose|j: int| 0 <= j < longer.len() && longer[j] == k;
        if j < i {
            assert(shorter[j] == k);
        }
    }
    if shorter.contains(k) {
        let j = choose|j: int| 0 <= j < shorter.len() && shorter[j] == k;
        assert(longer[j] == k);
    }
    assert(longer[i] == keys[i]);
}

} // verus!
