//! Where each live order is, by name.

use crate::order_queue::OrderKey;
use crate::orderbook::OrderLocation;
use crate::types::ExchangeId;
use crate::types::Price;
use crate::types::Side;
use std::collections::HashMap;
use vstd::prelude::*;

verus! {

/// Where a live order is, with the key by which a resting one is reached.
#[derive(Debug, Clone, Copy)]
pub enum OrderAddress {
    Book { side: Side, price: Price, key: OrderKey },
    StopBook { side: Side, trigger: Price },
}

impl OrderAddress {
    pub open spec fn spec_location(self) -> OrderLocation {
        match self {
            OrderAddress::Book { side, price, .. } => OrderLocation::Book { side, price },
            OrderAddress::StopBook { side, trigger } => OrderLocation::StopBook { side, trigger },
        }
    }

    /// The address without the key.
    #[verifier::when_used_as_spec(spec_location)]
    pub fn location(self) -> (r: OrderLocation)
        ensures
            r == self.location(),
    {
        match self {
            OrderAddress::Book { side, price, .. } => OrderLocation::Book { side, price },
            OrderAddress::StopBook { side, trigger } => OrderLocation::StopBook { side, trigger },
        }
    }
}

/// A name and where its order is.
#[derive(Debug)]
pub struct IndexEntry {
    pub id: ExchangeId,
    pub address: OrderAddress,
}

impl Clone for IndexEntry {
    fn clone(&self) -> (r: Self)
        ensures
            r == *self,
    {
        IndexEntry { id: self.id.clone(), address: self.address }
    }
}

/// A number for a name, by which its entry is found.
pub open spec fn fingerprint(id: Seq<char>) -> int
    decreases id.len(),
{
    if id.len() == 0 {
        0
    } else {
        (fingerprint(id.drop_last()) * 31 + (id.last() as u32) as int) % 4_294_967_291
    }
}

/// The fingerprint of a name.
fn fingerprint_of(id: &ExchangeId) -> (r: u64)
    ensures
        r == fingerprint(id@),
{
    broadcast use vstd::string::axiom_spec_iter;

    let mut mark: u64 = 0;
    let ghost name = id@;
    for c in iter: id.0.as_str().chars()
        invariant
            iter.seq() == name,
            mark < 4_294_967_291,
            mark == fingerprint(name.take(iter.index())),
    {
        proof {
            let done = name.take(iter.index() + 1);
            assert(done.drop_last() =~= name.take(iter.index()));
            assert(done.last() == c);
        }
        let code: u32 = c as u32;
        mark = (mark * 31 + code as u64) % 4_294_967_291;
    }
    proof {
        assert(name.take(name.len() as int) =~= name);
    }
    mark
}

/// The places that are filed under a fingerprint.
pub open spec fn filed(places: Map<u64, Vec<usize>>, mark: u64) -> Seq<usize> {
    if places.contains_key(mark) {
        places[mark]@
    } else {
        Seq::empty()
    }
}

/// Files a place under a fingerprint.
fn file(places: &mut HashMap<u64, Vec<usize>>, mark: u64, place: usize)
    ensures
        forall|m: u64| #[trigger]
            filed(final(places)@, m) == (if m == mark {
                filed(old(places)@, m).push(place)
            } else {
                filed(old(places)@, m)
            }),
{
    broadcast use vstd::std_specs::hash::group_hash_axioms;

    let mut list: Vec<usize> = match places.remove(&mark) {
        Some(list) => list,
        None => Vec::new(),
    };
    list.push(place);
    places.insert(mark, list);
}

/// Where a place stands in a list.
fn find(list: &Vec<usize>, place: usize) -> (r: usize)
    requires
        list@.contains(place),
        list@.no_duplicates(),
    ensures
        r < list@.len(),
        r == list@.index_of(place),
        list@[r as int] == place,
{
    let mut i: usize = 0;
    while i < list.len()
        invariant
            i <= list@.len(),
            list@.contains(place),
            list@.no_duplicates(),
            forall|j: int| 0 <= j < i ==> list@[j] != place,
        decreases list@.len() - i,
    {
        if list[i] == place {
            proof {
                assert(list@[list@.index_of(place)] == place);
            }
            return i;
        }
        i = i + 1;
    }
    proof {
        let j = list@.index_of(place);
        assert(list@[j] == place);
    }
    vstd::pervasive::unreached()
}

/// Strikes a place out from under a fingerprint.
fn strike(places: &mut HashMap<u64, Vec<usize>>, mark: u64, place: usize)
    requires
        filed(old(places)@, mark).contains(place),
        filed(old(places)@, mark).no_duplicates(),
    ensures
        forall|m: u64| #[trigger]
            filed(final(places)@, m) == (if m == mark {
                filed(old(places)@, m).remove(filed(old(places)@, m).index_of(place))
            } else {
                filed(old(places)@, m)
            }),
{
    broadcast use vstd::std_specs::hash::group_hash_axioms;

    let mut list: Vec<usize> = places.remove(&mark).expect("a filed place has a list");
    let at: usize = find(&list, place);
    list.remove(at);
    if list.len() > 0 {
        places.insert(mark, list);
    } else {
        proof {
            assert(list@ =~= Seq::<usize>::empty());
        }
    }
}

/// Files what stood at one place under another.
fn refile(places: &mut HashMap<u64, Vec<usize>>, mark: u64, from: usize, to: usize)
    requires
        filed(old(places)@, mark).contains(from),
        filed(old(places)@, mark).no_duplicates(),
    ensures
        forall|m: u64| #[trigger]
            filed(final(places)@, m) == (if m == mark {
                filed(old(places)@, m).update(filed(old(places)@, m).index_of(from), to)
            } else {
                filed(old(places)@, m)
            }),
{
    broadcast use vstd::std_specs::hash::group_hash_axioms;

    let mut list: Vec<usize> = places.remove(&mark).expect("a filed place has a list");
    let at: usize = find(&list, from);
    list.set(at, to);
    places.insert(mark, list);
}

/// The addresses of the live orders, by name. The entries stand in no order; the
/// places of those with a fingerprint are filed under it.
#[derive(Debug)]
pub struct OrderIndex {
    pub(crate) entries: Vec<IndexEntry>,
    pub(crate) places: HashMap<u64, Vec<usize>>,
}

/// Whether the entry at `i` has this name.
pub open spec fn named(entries: Seq<IndexEntry>, id: Seq<char>, i: int) -> bool {
    0 <= i < entries.len() && entries[i].id@ == id
}

/// Whether no name occurs twice.
pub open spec fn names_differ(entries: Seq<IndexEntry>) -> bool {
    forall|i: int, j: int|
        0 <= i < j < entries.len() ==> (#[trigger] entries[i]).id@ != (#[trigger] entries[j]).id@
}

/// Whether the place of every entry is filed under its fingerprint, once, and
/// nothing else is filed.
pub open spec fn well_filed(entries: Seq<IndexEntry>, places: Map<u64, Vec<usize>>) -> bool {
    &&& forall|i: int|
        0 <= i < entries.len() ==> filed(
            places,
            fingerprint((#[trigger] entries[i]).id@) as u64,
        ).contains(i as usize)
    &&& forall|m: u64, a: int|
        0 <= a < filed(places, m).len() ==> (#[trigger] filed(places, m)[a]) < entries.len()
            && fingerprint(entries[filed(places, m)[a] as int].id@) == m
    &&& forall|m: u64| (#[trigger] filed(places, m)).no_duplicates()
}

impl View for OrderIndex {
    type V = Map<Seq<char>, OrderAddress>;

    open(crate) spec fn view(&self) -> Map<Seq<char>, OrderAddress> {
        Map::new(
            |id: Seq<char>| exists|i: int| #[trigger] named(self.entries@, id, i),
            |id: Seq<char>| self.entries@[choose|i: int| #[trigger] named(self.entries@, id, i)].address,
        )
    }
}

impl Clone for OrderIndex {
    fn clone(&self) -> (r: Self)
        ensures
            r@ == self@,
            self.wf() ==> r.wf(),
    {
        let mut entries: Vec<IndexEntry> = Vec::new();
        let mut i: usize = 0;
        while i < self.entries.len()
            invariant
                i <= self.entries@.len(),
                entries@ == self.entries@.take(i as int),
            decreases self.entries@.len() - i,
        {
            entries.push(self.entries[i].clone());
            proof {
                assert(entries@ =~= self.entries@.take(i + 1));
            }
            i = i + 1;
        }
        proof {
            assert(self.entries@.take(i as int) =~= self.entries@);
        }
        OrderIndex { entries, places: self.places.clone() }
    }
}

/// Striking a place out takes that place and no other.
proof fn lemma_struck(list: Seq<usize>, place: usize)
    requires
        list.contains(place),
        list.no_duplicates(),
    ensures
        list.remove(list.index_of(place)).no_duplicates(),
        forall|x: usize| #[trigger]
            list.remove(list.index_of(place)).contains(x) <==> list.contains(x) && x != place,
{
    let at = list.index_of(place);
    let left = list.remove(at);
    assert(list[at] == place);
    assert forall|x: usize| #[trigger] left.contains(x) <==> list.contains(x) && x != place by {
        if left.contains(x) {
            let a = left.index_of(x);
            let b = if a < at {
                a
            } else {
                a + 1
            };
            assert(left[a] == list[b]);
        }
        if list.contains(x) && x != place {
            let b = list.index_of(x);
            let a = if b < at {
                b
            } else {
                b - 1
            };
            assert(left[a] == list[b]);
        }
    }
}

/// Filing anew puts one place for another.
proof fn lemma_refiled(list: Seq<usize>, from: usize, to: usize)
    requires
        list.contains(from),
        !list.contains(to),
        list.no_duplicates(),
    ensures
        list.update(list.index_of(from), to).no_duplicates(),
        forall|x: usize| #[trigger]
            list.update(list.index_of(from), to).contains(x) <==> (list.contains(x) && x != from)
                || x == to,
{
    let at = list.index_of(from);
    let now = list.update(at, to);
    assert(list[at] == from);
    assert forall|x: usize| #[trigger] now.contains(x) <==> (list.contains(x) && x != from) || x
        == to by {
        if now.contains(x) {
            let a = now.index_of(x);
            if a != at {
                assert(list[a] == x);
            }
        }
        if list.contains(x) && x != from {
            let a = list.index_of(x);
            assert(now[a] == x);
        }
        if x == to {
            assert(now[at] == x);
        }
    }
    assert forall|a: int, b: int|
        0 <= a < now.len() && 0 <= b < now.len() && a != b implies now[a] != now[b] by {
        assert(list[a] != list[b]);
        assert(list.contains(list[a]) && list.contains(list[b]));
    }
}

impl OrderIndex {
    /// Whether no name occurs twice, and every entry is found by its fingerprint.
    pub open(crate) spec fn wf(&self) -> bool {
        &&& names_differ(self.entries@)
        &&& well_filed(self.entries@, self.places@)
    }

    proof fn lemma_entry(&self, i: int)
        requires
            names_differ(self.entries@),
            0 <= i < self.entries@.len(),
        ensures
            self@.contains_key(self.entries@[i].id@),
            self@[self.entries@[i].id@] == self.entries@[i].address,
    {
        let id = self.entries@[i].id@;
        assert(named(self.entries@, id, i));
        let j = choose|j: int| #[trigger] named(self.entries@, id, j);
        assert(named(self.entries@, id, j));
        assert(i == j);
    }

    /// An index without orders.
    pub fn new() -> (r: Self)
        ensures
            r.wf(),
            r@ == Map::<Seq<char>, OrderAddress>::empty(),
    {
        let index = OrderIndex { entries: Vec::new(), places: HashMap::new() };
        proof {
            assert forall|id: Seq<char>| !index@.contains_key(id) by {}
            assert(index@ =~= Map::<Seq<char>, OrderAddress>::empty());
        }
        index
    }

    /// The place of the entry of a name.
    fn position(&self, id: &ExchangeId) -> (r: Option<usize>)
        requires
            self.wf(),
        ensures
            match r {
                Some(i) => named(self.entries@, id@, i as int) && self@.contains_key(id@)
                    && self@[id@] == self.entries@[i as int].address,
                None => !self@.contains_key(id@),
            },
    {
        broadcast use vstd::std_specs::hash::group_hash_axioms;

        let mark: u64 = fingerprint_of(id);
        let ghost list = filed(self.places@, mark);
        if let Some(found) = self.places.get(&mark) {
            let mut a: usize = 0;
            while a < found.len()
                invariant
                    a <= found@.len(),
                    found@ == list,
                    list == filed(self.places@, mark),
                    self.wf(),
                    forall|b: int| 0 <= b < a ==> !named(self.entries@, id@, #[trigger] list[b] as int),
                decreases found@.len() - a,
            {
                let i: usize = found[a];
                proof {
                    assert(filed(self.places@, mark)[a as int] == i);
                }
                if self.entries[i].id.same(id) {
                    proof {
                        self.lemma_entry(i as int);
                    }
                    return Some(i);
                }
                a = a + 1;
            }
        }
        proof {
            assert forall|i: int| !#[trigger] named(self.entries@, id@, i) by {
                if named(self.entries@, id@, i) {
                    assert(self.entries@.len() == self.entries.len());
                    assert(self.entries@[i].id@ == id@);
                    assert(list.contains(i as usize));
                    let b = list.index_of(i as usize);
                    assert(list[b] == i);
                }
            }
        }
        None
    }

    /// The address of a live order.
    pub fn get(&self, id: &ExchangeId) -> (r: Option<OrderAddress>)
        requires
            self.wf(),
        ensures
            r == (if self@.contains_key(id@) {
                Some(self@[id@])
            } else {
                None
            }),
    {
        match self.position(id) {
            Some(i) => Some(self.entries[i].address),
            None => None,
        }
    }

    /// Enters a name that is not there yet.
    pub fn insert(&mut self, id: ExchangeId, address: OrderAddress)
        requires
            old(self).wf(),
            !old(self)@.contains_key(id@),
        ensures
            final(self).wf(),
            final(self)@ == old(self)@.insert(id@, address),
    {
        let ghost was = *self;
        let ghost name = id@;
        let mark: u64 = fingerprint_of(&id);
        let place: usize = self.entries.len();
        self.entries.push(IndexEntry { id, address });
        file(&mut self.places, mark, place);
        proof {
            let n = was.entries@.len() as int;
            assert forall|i: int| 0 <= i < n implies (#[trigger] was.entries@[i]).id@ != name by {
                if was.entries@[i].id@ == name {
                    assert(named(was.entries@, name, i));
                }
            }
            assert forall|i: int, j: int| 0 <= i < j < self.entries@.len() implies (
            #[trigger] self.entries@[i]).id@ != (#[trigger] self.entries@[j]).id@ by {
                assert(self.entries@[i] == was.entries@[i]);
            }
            assert(self.entries@.len() == self.entries.len());
            assert(self.entries@.drop_last() =~= was.entries@);
            was.lemma_filed_one_more(*self, mark);
            assert forall|other: Seq<char>| #[trigger]
                self@.contains_key(other) <==> was@.contains_key(other) || other == name by {
                if was@.contains_key(other) {
                    let i = choose|i: int| #[trigger] named(was.entries@, other, i);
                    assert(named(self.entries@, other, i));
                }
                if other == name {
                    assert(named(self.entries@, other, n));
                }
                if self@.contains_key(other) {
                    let i = choose|i: int| #[trigger] named(self.entries@, other, i);
                    if i < n {
                        assert(named(was.entries@, other, i));
                    }
                }
            }
            assert forall|other: Seq<char>| #[trigger] self@.contains_key(other) implies self@[other]
                == was@.insert(name, address)[other] by {
                let i = choose|i: int| #[trigger] named(self.entries@, other, i);
                assert(named(self.entries@, other, i));
                self.lemma_entry(i);
                if i < n {
                    was.lemma_entry(i);
                    assert(self.entries@[i] == was.entries@[i]);
                }
            }
            assert(self@ =~= was@.insert(name, address));
        }
    }

    /// An entry at the back, filed under its fingerprint, is found there.
    proof fn lemma_filed_one_more(&self, now: Self, mark: u64)
        requires
            self.wf(),
            now.entries@.len() == self.entries@.len() + 1,
            now.entries@.len() <= usize::MAX,
            now.entries@.drop_last() == self.entries@,
            mark == fingerprint(now.entries@.last().id@),
            forall|m: u64| #[trigger]
                filed(now.places@, m) == (if m == mark {
                    filed(self.places@, m).push(self.entries@.len() as usize)
                } else {
                    filed(self.places@, m)
                }),
        ensures
            well_filed(now.entries@, now.places@),
    {
        let n = self.entries@.len() as int;
        assert forall|i: int| 0 <= i < now.entries@.len() implies filed(
            now.places@,
            fingerprint((#[trigger] now.entries@[i]).id@) as u64,
        ).contains(i as usize) by {
            let m = fingerprint(now.entries@[i].id@) as u64;
            let list = filed(now.places@, m);
            if i < n {
                assert(now.entries@[i] == self.entries@[i]);
                let before = filed(self.places@, m);
                assert(before.contains(i as usize));
                let a = before.index_of(i as usize);
                assert(list[a] == i as usize);
            } else {
                assert(list[list.len() - 1] == i as usize);
            }
        }
        assert forall|m: u64, a: int| 0 <= a < filed(now.places@, m).len() implies (
        #[trigger] filed(now.places@, m)[a]) < now.entries@.len() && fingerprint(
            now.entries@[filed(now.places@, m)[a] as int].id@,
        ) == m by {
            let before = filed(self.places@, m);
            if a < before.len() {
                assert(filed(now.places@, m)[a] == before[a]);
                assert(now.entries@[before[a] as int] == self.entries@[before[a] as int]);
            }
        }
        assert forall|m: u64| (#[trigger] filed(now.places@, m)).no_duplicates() by {
            let before = filed(self.places@, m);
            assert(before.no_duplicates());
            assert forall|a: int| 0 <= a < before.len() implies #[trigger] before[a] != n by {}
        }
    }

    /// Once the entry at `at` has given way to the last one, and both are filed
    /// accordingly, every entry is found.
    proof fn lemma_filed_one_less(
        &self,
        now: Self,
        at: int,
        mark: u64,
        moved: u64,
        struck: Map<u64, Vec<usize>>,
    )
        requires
            self.wf(),
            self.entries@.len() <= usize::MAX,
            0 <= at < self.entries@.len(),
            mark == fingerprint(self.entries@[at].id@),
            moved == fingerprint(self.entries@.last().id@),
            now.entries@ == self.entries@.update(at, self.entries@.last()).drop_last(),
            forall|m: u64| #[trigger]
                filed(struck, m) == (if m == mark {
                    filed(self.places@, m).remove(filed(self.places@, m).index_of(at as usize))
                } else {
                    filed(self.places@, m)
                }),
            at == self.entries@.len() - 1 ==> now.places@ == struck,
            at != self.entries@.len() - 1 ==> forall|m: u64| #[trigger]
                filed(now.places@, m) == (if m == moved {
                    filed(struck, m).update(
                        filed(struck, m).index_of((self.entries@.len() - 1) as usize),
                        at as usize,
                    )
                } else {
                    filed(struck, m)
                }),
        ensures
            well_filed(now.entries@, now.places@),
    {
        let was = self.entries@;
        let last = was.len() - 1;
        assert(filed(self.places@, mark).contains(at as usize)) by {
            assert(fingerprint(was[at].id@) as u64 == mark);
        }
        assert(filed(self.places@, moved).contains(last as usize)) by {
            assert(fingerprint(was[last].id@) as u64 == moved);
        }
        lemma_struck(filed(self.places@, mark), at as usize);
        assert forall|m: u64, x: usize| #[trigger] filed(struck, m).contains(x) <==> filed(
            self.places@,
            m,
        ).contains(x) && !(m == mark && x == at) by {}
        assert forall|m: u64, x: usize| #[trigger]
            filed(self.places@, m).contains(x) implies x < was.len() && fingerprint(
            was[x as int].id@,
        ) == m by {
            let a = filed(self.places@, m).index_of(x);
            assert(filed(self.places@, m)[a] == x);
        }
        assert forall|m: u64| (#[trigger] filed(struck, m)).no_duplicates() by {
            assert(filed(self.places@, m).no_duplicates());
        }
        if at != last {
            assert(!filed(struck, moved).contains(at as usize)) by {
                if filed(struck, moved).contains(at as usize) {
                    assert(filed(self.places@, moved).contains(at as usize));
                }
            }
            lemma_refiled(filed(struck, moved), last as usize, at as usize);
        }
        assert forall|m: u64, x: usize| #[trigger] filed(now.places@, m).contains(x) <==> (filed(
            self.places@,
            m,
        ).contains(x) && x != at && x != last) || (at != last && m == moved && x == at) by {
            assert(filed(struck, m).contains(x) <==> filed(self.places@, m).contains(x) && !(m
                == mark && x == at));
        }
        assert forall|i: int| 0 <= i < now.entries@.len() implies filed(
            now.places@,
            fingerprint((#[trigger] now.entries@[i]).id@) as u64,
        ).contains(i as usize) by {
            let m = fingerprint(now.entries@[i].id@) as u64;
            if i != at {
                assert(now.entries@[i] == was[i]);
                assert(filed(self.places@, m).contains(i as usize));
            }
        }
        assert forall|m: u64, a: int| 0 <= a < filed(now.places@, m).len() implies (
        #[trigger] filed(now.places@, m)[a]) < now.entries@.len() && fingerprint(
            now.entries@[filed(now.places@, m)[a] as int].id@,
        ) == m by {
            let x = filed(now.places@, m)[a];
            assert(filed(now.places@, m).contains(x));
            if !(at != last && m == moved && x == at) {
                assert(filed(self.places@, m).contains(x));
                assert(now.entries@[x as int] == was[x as int]);
            }
        }
        assert forall|m: u64| (#[trigger] filed(now.places@, m)).no_duplicates() by {
            assert(filed(struck, m).no_duplicates());
        }
    }

    /// An index whose entry at `at` has given way to the last one has lost that
    /// name and no other.
    proof fn lemma_one_less(&self, now: Self, at: int)
        requires
            names_differ(self.entries@),
            0 <= at < self.entries@.len(),
            now.entries@ == self.entries@.update(at, self.entries@.last()).drop_last(),
        ensures
            names_differ(now.entries@),
            now@ == self@.remove(self.entries@[at].id@),
    {
        let was = self.entries@;
        let last = was.len() - 1;
        let id = was[at].id@;
        let source = |a: int|
            if a == at {
                last
            } else {
                a
            };
        assert forall|a: int| 0 <= a < last implies (#[trigger] now.entries@[a]) == was[source(
            a,
        )] by {}
        assert forall|a: int, b: int| 0 <= a < b < now.entries@.len() implies (
        #[trigger] now.entries@[a]).id@ != (#[trigger] now.entries@[b]).id@ by {
            let i = source(a);
            let j = source(b);
            assert(i != j);
            if i < j {
                assert(was[i].id@ != was[j].id@);
            } else {
                assert(was[j].id@ != was[i].id@);
            }
        }
        assert forall|other: Seq<char>| #[trigger]
            now@.contains_key(other) <==> self@.contains_key(other) && other != id by {
            if now@.contains_key(other) {
                let a = choose|a: int| #[trigger] named(now.entries@, other, a);
                let b = source(a);
                assert(now.entries@[a] == was[b]);
                assert(named(was, other, b));
                if b < at {
                    assert(was[b].id@ != was[at].id@);
                } else {
                    assert(was[at].id@ != was[b].id@);
                }
            }
            if self@.contains_key(other) && other != id {
                let b = choose|b: int| #[trigger] named(was, other, b);
                let a = if b == last {
                    at
                } else {
                    b
                };
                assert(now.entries@[a] == was[b]);
                assert(named(now.entries@, other, a));
            }
        }
        assert forall|other: Seq<char>| #[trigger] now@.contains_key(other) implies now@[other]
            == self@[other] by {
            let a = choose|a: int| #[trigger] named(now.entries@, other, a);
            assert(named(now.entries@, other, a));
            now.lemma_entry(a);
            self.lemma_entry(source(a));
            assert(now.entries@[a] == was[source(a)]);
        }
        assert(now@ =~= self@.remove(id));
    }

    /// Strikes a name out, and returns where its order was.
    pub fn remove(&mut self, id: &ExchangeId) -> (r: Option<OrderAddress>)
        requires
            old(self).wf(),
        ensures
            final(self).wf(),
            final(self)@ == old(self)@.remove(id@),
            r == (if old(self)@.contains_key(id@) {
                Some(old(self)@[id@])
            } else {
                None
            }),
    {
        let ghost was = *self;
        let i: usize = match self.position(id) {
            Some(i) => i,
            None => {
                proof {
                    assert(was@.remove(id@) =~= was@);
                }
                return None;
            },
        };
        let last: usize = self.entries.len() - 1;
        let mark: u64 = fingerprint_of(id);
        let moved: u64 = fingerprint_of(&self.entries[last].id);
        proof {
            assert(was.entries@[i as int].id@ == id@);
            assert(filed(was.places@, mark).contains(i));
            assert(was.entries@[last as int] == was.entries@.last());
            assert(filed(was.places@, moved).contains(last));
        }
        strike(&mut self.places, mark, i);
        let ghost struck = self.places@;
        if i != last {
            proof {
                lemma_struck(filed(was.places@, mark), i);
                assert(filed(struck, moved).contains(last));
                assert(filed(struck, moved).no_duplicates());
            }
            refile(&mut self.places, moved, last, i);
        }
        let entry = self.entries.swap_remove(i);
        proof {
            let at = i as int;
            was.lemma_filed_one_less(*self, at, mark, moved, struck);
            was.lemma_one_less(*self, at);
        }
        Some(entry.address)
    }

    proof fn lemma_domain(entries: Seq<IndexEntry>) -> (names: Seq<Seq<char>>)
        requires
            names_differ(entries),
        ensures
            names == entries.map_values(|e: IndexEntry| e.id@),
            names.no_duplicates(),
            names.to_set().finite(),
            names.to_set().len() == entries.len(),
    {
        let names = entries.map_values(|e: IndexEntry| e.id@);
        assert forall|i: int, j: int|
            0 <= i < names.len() && 0 <= j < names.len() && i != j implies names[i] != names[j] by {
            if i < j {
                assert(entries[i].id@ != entries[j].id@);
            } else {
                assert(entries[j].id@ != entries[i].id@);
            }
        }
        names.unique_seq_to_set();
        names
    }

    /// How many orders are live.
    pub fn len(&self) -> (r: usize)
        requires
            self.wf(),
        ensures
            self@.dom().finite(),
            r == self@.dom().len(),
    {
        proof {
            let names = Self::lemma_domain(self.entries@);
            assert(self@.dom() =~= names.to_set()) by {
                assert forall|id: Seq<char>| #[trigger]
                    self@.dom().contains(id) <==> names.to_set().contains(id) by {
                    if self@.dom().contains(id) {
                        let i = choose|i: int| #[trigger] named(self.entries@, id, i);
                        assert(names[i] == id);
                    }
                    if names.to_set().contains(id) {
                        let i = names.index_of(id);
                        assert(names[i] == id);
                        assert(named(self.entries@, id, i));
                    }
                }
            }
        }
        self.entries.len()
    }

    /// The names of the live orders, each once.
    pub fn ids(&self) -> (r: Vec<&ExchangeId>)
        requires
            self.wf(),
        ensures
            forall|i: int| 0 <= i < r@.len() ==> self@.contains_key((#[trigger] r@[i])@),
            forall|i: int, j: int|
                0 <= i < j < r@.len() ==> (#[trigger] r@[i])@ != (#[trigger] r@[j])@,
            forall|id: Seq<char>| #[trigger]
                self@.contains_key(id) ==> exists|i: int| 0 <= i < r@.len() && (#[trigger] r@[i])@ == id,
    {
        let mut found: Vec<&ExchangeId> = Vec::new();
        let mut i: usize = 0;
        while i < self.entries.len()
            invariant
                i <= self.entries@.len(),
                found@.len() == i,
                forall|j: int| 0 <= j < i ==> (#[trigger] found@[j])@ == self.entries@[j].id@,
            decreases self.entries@.len() - i,
        {
            found.push(&self.entries[i].id);
            i = i + 1;
        }
        proof {
            assert forall|i: int| 0 <= i < found@.len() implies self@.contains_key(
                (#[trigger] found@[i])@,
            ) by {
                self.lemma_entry(i);
            }
            assert forall|id: Seq<char>| #[trigger] self@.contains_key(id) implies exists|i: int|
                0 <= i < found@.len() && (#[trigger] found@[i])@ == id by {
                let i = choose|i: int| #[trigger] named(self.entries@, id, i);
                assert(found@[i]@ == id);
            }
        }
        found
    }
}

} // verus!
