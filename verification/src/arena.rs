//! A generational arena: values are reached by handles, and a handle to a value
//! that is gone reaches nothing, even where its place has been given away.

use vstd::pervasive::cloned;
use vstd::pervasive::unreached;
use vstd::prelude::*;

verus! {

/// What names one occupant of an arena. The index chooses a slot, the generation
/// says which of the slot's occupants is meant.
#[derive(Debug, Clone, Copy, PartialEq, Eq, Hash, Structural)]
pub struct Handle {
    pub index: u32,
    pub generation: u32,
}

/// A place for one value.
#[derive(Debug)]
pub struct Slot<T> {
    pub(crate) value: Option<T>,
    pub(crate) index: u32,
    pub(crate) generation: u32,
}

impl<T> Slot<T> {
    /// The occupant of the slot.
    pub open(crate) spec fn occupant(self) -> Option<T> {
        self.value
    }

    /// The handle of the slot's present or next occupant.
    pub open(crate) spec fn handle(self) -> Handle {
        Handle { index: self.index, generation: self.generation }
    }

    /// A slot without a value.
    pub fn vacant(index: u32) -> (r: Self)
        ensures
            r.occupant() is None,
            r.handle() == (Handle { index, generation: 0 }),
    {
        Slot { value: None, index, generation: 0 }
    }

    /// Fills a vacant slot. A slot that is occupied hands the value back.
    pub fn insert(&mut self, value: T) -> (r: Result<Handle, T>)
        ensures
            final(self).handle() == old(self).handle(),
            match r {
                Ok(handle) => {
                    &&& old(self).occupant() is None
                    &&& handle == old(self).handle()
                    &&& final(self).occupant() == Some(value)
                },
                Err(back) => {
                    &&& old(self).occupant() is Some
                    &&& back == value
                    &&& final(self).occupant() == old(self).occupant()
                },
            },
    {
        if self.value.is_some() {
            return Err(value);
        }
        self.value = Some(value);
        Ok(Handle { index: self.index, generation: self.generation })
    }

    /// The occupant, if this is its handle.
    pub fn get(&self, handle: Handle) -> (r: Option<&T>)
        ensures
            r == (if self.handle() == handle && self.occupant() is Some {
                Some(&self.occupant()->0)
            } else {
                None
            }),
    {
        if !self.matches(handle) {
            return None;
        }
        self.value.as_ref()
    }

    /// The occupant, if this is its handle, to be changed.
    pub fn get_mut(&mut self, handle: Handle) -> (r: Option<&mut T>)
        ensures
            final(self).handle() == old(self).handle(),
            match r {
                Some(value) => {
                    &&& old(self).handle() == handle
                    &&& old(self).occupant() == Some(*value)
                    &&& final(self).occupant() == Some(*final(value))
                },
                None => {
                    &&& !(old(self).handle() == handle && old(self).occupant() is Some)
                    &&& final(self).occupant() == old(self).occupant()
                },
            },
    {
        if !self.matches(handle) {
            return None;
        }
        match &mut self.value {
            Some(value) => Some(value),
            None => None,
        }
    }

    /// Takes the occupant out, if this is its handle, and moves on to the next
    /// generation. There are only so many.
    pub fn remove(&mut self, handle: Handle) -> (r: Option<T>)
        requires
            old(self).handle() == handle && old(self).occupant() is Some ==> handle.generation
                < u32::MAX,
        ensures
            if old(self).handle() == handle && old(self).occupant() is Some {
                &&& r == old(self).occupant()
                &&& final(self).occupant() is None
                &&& final(self).handle() == (Handle {
                    generation: (handle.generation + 1) as u32,
                    ..handle
                })
            } else {
                &&& r is None
                &&& *final(self) == *old(self)
            },
    {
        if !self.matches(handle) {
            return None;
        }
        self.generation = self.generation + 1;
        self.value.take()
    }

    /// Whether this is the handle of the slot's occupant.
    pub fn matches(&self, handle: Handle) -> (r: bool)
        ensures
            r == (self.handle() == handle && self.occupant() is Some),
    {
        self.value.is_some() && self.index == handle.index && self.generation == handle.generation
    }
}

impl<T: Clone> Clone for Slot<T> {
    fn clone(&self) -> (r: Self)
        ensures
            r.handle() == self.handle(),
            match self.occupant() {
                Some(value) => r.occupant() is Some && cloned::<T>(value, r.occupant()->0),
                None => r.occupant() is None,
            },
    {
        let value = match &self.value {
            Some(value) => Some(value.clone()),
            None => None,
        };
        Slot { value, index: self.index, generation: self.generation }
    }
}

/// A generational arena.
#[derive(Debug)]
pub struct Arena<T> {
    pub(crate) slots: Vec<Slot<T>>,
    pub(crate) free: Vec<u32>,
    pub(crate) len: usize,
}

impl<T> View for Arena<T> {
    type V = Map<Handle, T>;

    open(crate) spec fn view(&self) -> Map<Handle, T> {
        Map::new(
            |h: Handle| live(self.slots@, h),
            |h: Handle| self.slots@[h.index as int].occupant()->0,
        )
    }
}

/// The handles of the occupants.
pub open(crate) spec fn handles<T>(slots: Seq<Slot<T>>) -> Set<Handle> {
    Set::new(|h: Handle| live(slots, h))
}

/// Whether a handle is that of an occupant.
pub open(crate) spec fn live<T>(slots: Seq<Slot<T>>, h: Handle) -> bool {
    &&& h.index < slots.len()
    &&& slots[h.index as int].handle() == h
    &&& slots[h.index as int].occupant() is Some
}

impl<T> Arena<T> {
    /// Whether each slot knows its place, the free list names vacant slots, each
    /// once, and the occupants are counted.
    pub open(crate) spec fn wf(&self) -> bool {
        &&& forall|i: int|
            0 <= i < self.slots@.len() ==> (#[trigger] self.slots@[i]).handle().index == i
        &&& forall|k: int|
            0 <= k < self.free@.len() ==> {
                &&& (#[trigger] self.free@[k]) < self.slots@.len()
                &&& self.slots@[self.free@[k] as int].occupant() is None
            }
        &&& self.free@.no_duplicates()
        &&& handles(self.slots@).finite()
        &&& self.len == handles(self.slots@).len()
    }

    proof fn lemma_dom(&self)
        ensures
            self@.dom() == handles(self.slots@),
    {
        assert(self@.dom() =~= handles(self.slots@));
    }

    /// The generation of each slot: that of its occupant, or of its next one.
    pub open(crate) spec fn generations(&self) -> Seq<u32> {
        self.slots@.map_values(|slot: Slot<T>| slot.handle().generation)
    }

    /// The slots that values have been taken out of and none put back, the one
    /// vacated last at the end.
    pub open(crate) spec fn vacated(&self) -> Seq<u32> {
        self.free@
    }

    /// Whether a place can be found for one more value.
    pub open spec fn has_room(&self) -> bool {
        self.vacated().len() > 0 || self.generations().len() <= u32::MAX
    }

    /// Whether a handle is that of a value that is gone.
    pub open spec fn retired(&self, h: Handle) -> bool {
        h.index < self.generations().len() && h.generation < self.generations()[h.index as int]
    }

    /// An arena without values.
    pub fn new() -> (r: Self)
        ensures
            r.wf(),
            r@ == Map::<Handle, T>::empty(),
            r.generations() == Seq::<u32>::empty(),
            r.vacated() == Seq::<u32>::empty(),
    {
        let arena = Arena { slots: Vec::new(), free: Vec::new(), len: 0 };
        proof {
            assert(handles(arena.slots@) =~= Set::<Handle>::empty());
            assert(arena@ =~= Map::<Handle, T>::empty());
            assert(arena.generations() =~= Seq::<u32>::empty());
            assert(arena.vacated() =~= Seq::<u32>::empty());
        }
        arena
    }

    /// Puts a value into the slot that was vacated last, under the slot's next
    /// generation, or into a new slot where none has been.
    pub fn insert(&mut self, value: T) -> (r: Handle)
        requires
            old(self).wf(),
            old(self).has_room(),
        ensures
            final(self).wf(),
            !old(self)@.contains_key(r),
            !old(self).retired(r),
            final(self)@ == old(self)@.insert(r, value),
            if old(self).vacated().len() > 0 {
                &&& r.index == old(self).vacated().last()
                &&& r.index < old(self).generations().len()
                &&& r.generation == old(self).generations()[r.index as int]
                &&& final(self).generations() == old(self).generations()
                &&& final(self).vacated() == old(self).vacated().drop_last()
            } else {
                &&& r.index == old(self).generations().len()
                &&& r.generation == 0
                &&& final(self).generations() == old(self).generations().push(0)
                &&& final(self).vacated() == old(self).vacated()
            },
            forall|h: Handle| #[trigger] old(self).retired(h) ==> final(self).retired(h),
    {
        let ghost was = *self;
        let ghost given = value;
        let handle = match self.free.pop() {
            Some(index) => {
                proof {
                    assert(was.free@[was.free@.len() - 1] == index);
                    assert(self.slots@[index as int].handle().index == index);
                }
                let filled = self.slots[index as usize].insert(value);
                proof {
                    assert(filled is Ok);
                }
                match filled {
                    Ok(handle) => handle,
                    Err(_) => unreached(),
                }
            },
            None => {
                let index: u32 = self.slots.len() as u32;
                let mut slot: Slot<T> = Slot::vacant(index);
                let filled = slot.insert(value);
                self.slots.push(slot);
                match filled {
                    Ok(handle) => handle,
                    Err(_) => unreached(),
                }
            },
        };
        let count: usize = self.slots.len();
        proof {
            assert(self@ =~= was@.insert(handle, given)) by {
                assert forall|h: Handle| #[trigger]
                    self@.contains_key(h) <==> was@.contains_key(h) || h == handle by {}
            }
            self.lemma_dom();
            was.lemma_dom();
            assert(handles(self.slots@) =~= handles(was.slots@).insert(handle));
            lemma_no_more_than_slots(self.slots@, count as nat);
            assert(handles(self.slots@) =~= Set::new(
                |h: Handle| h.index < count && live(self.slots@, h),
            ));
        }
        self.len = self.len + 1;
        proof {
            assert forall|k: int| 0 <= k < self.free@.len() implies {
                &&& (#[trigger] self.free@[k]) < self.slots@.len()
                &&& self.slots@[self.free@[k] as int].occupant() is None
            } by {
                assert(self.free@[k] == was.free@[k]);
                if was.free@.len() > 0 {
                    assert(was.free@[k] != was.free@[was.free@.len() - 1]);
                }
            }
            if was.free@.len() > 0 {
                assert(self.generations() =~= was.generations());
            } else {
                assert(self.generations() =~= was.generations().push(0));
            }
        }
        handle
    }

    /// The value of a handle.
    pub fn get(&self, handle: Handle) -> (r: Option<&T>)
        ensures
            r == (if self@.contains_key(handle) {
                Some(&self@[handle])
            } else {
                None
            }),
    {
        if (handle.index as usize) < self.slots.len() {
            self.slots[handle.index as usize].get(handle)
        } else {
            None
        }
    }

    /// The value of a handle, to be changed.
    pub fn get_mut(&mut self, handle: Handle) -> (r: Option<&mut T>)
        requires
            old(self).wf(),
        ensures
            final(self).wf(),
            match r {
                Some(value) => {
                    &&& old(self)@.contains_key(handle)
                    &&& *value == old(self)@[handle]
                    &&& final(self)@ =~= old(self)@.insert(handle, *final(value))
                },
                None => {
                    &&& !old(self)@.contains_key(handle)
                    &&& final(self)@ =~= old(self)@
                },
            },
            final(self).generations() =~= old(self).generations(),
            final(self).vacated() == old(self).vacated(),
    {
        if (handle.index as usize) < self.slots.len() {
            proof {
                let at = handle.index as int;
                let slots = self.slots@;
                assert forall|slot: Slot<T>|
                    slot.handle() == slots[at].handle() && (slot.occupant() is Some)
                        == (slots[at].occupant() is Some) implies #[trigger] handles(
                    slots.update(at, slot),
                ) == handles(slots) by {
                    assert(handles(slots.update(at, slot)) =~= handles(slots));
                }
            }
            self.slots[handle.index as usize].get_mut(handle)
        } else {
            None
        }
    }

    /// Takes the value of a handle out. Its slot moves on to the next generation
    /// and is the first to be filled again; the handle, and every handle that was
    /// retired before, stays without a value. A handle that is not live changes
    /// nothing.
    pub fn remove(&mut self, handle: Handle) -> (r: Option<T>)
        requires
            old(self).wf(),
            old(self)@.contains_key(handle) ==> handle.generation < u32::MAX,
        ensures
            final(self).wf(),
            r == (if old(self)@.contains_key(handle) {
                Some(old(self)@[handle])
            } else {
                None
            }),
            final(self)@ == old(self)@.remove(handle),
            if old(self)@.contains_key(handle) {
                &&& handle.index < old(self).generations().len()
                &&& final(self).generations() == old(self).generations().update(
                    handle.index as int,
                    (handle.generation + 1) as u32,
                )
                &&& final(self).vacated() == old(self).vacated().push(handle.index)
                &&& final(self).has_room()
                &&& final(self).retired(handle)
            } else {
                *final(self) == *old(self)
            },
            forall|h: Handle| #[trigger] old(self).retired(h) ==> final(self).retired(h),
    {
        let ghost was = *self;
        if self.get(handle).is_none() {
            proof {
                assert(was@.remove(handle) =~= was@);
            }
            return None;
        }
        let value = self.slots[handle.index as usize].remove(handle);
        self.free.push(handle.index);
        proof {
            assert(was.len > 0) by {
                assert(handles(was.slots@).contains(handle));
                if handles(was.slots@).len() == 0 {
                    assert(handles(was.slots@) =~= Set::empty());
                }
            }
        }
        self.len = self.len - 1;
        proof {
            assert(self@ =~= was@.remove(handle)) by {
                assert forall|h: Handle| #[trigger]
                    self@.contains_key(h) <==> was@.contains_key(h) && h != handle by {}
            }
            assert(handles(self.slots@) =~= handles(was.slots@).remove(handle));
            assert forall|k: int| 0 <= k < was.free@.len() implies (#[trigger] was.free@[k])
                != handle.index by {}
            assert(self.generations() =~= was.generations().update(
                handle.index as int,
                (handle.generation + 1) as u32,
            ));
        }
        value
    }

    /// How many values there are.
    pub fn len(&self) -> (r: usize)
        requires
            self.wf(),
        ensures
            r == self@.dom().len(),
    {
        proof {
            self.lemma_dom();
        }
        self.len
    }

    pub fn is_empty(&self) -> (r: bool)
        requires
            self.wf(),
        ensures
            r == (self@.dom().len() == 0),
    {
        proof {
            self.lemma_dom();
        }
        self.len == 0
    }
}

/// The handles of the first `n` slots are no more than the slots.
proof fn lemma_no_more_than_slots<T>(slots: Seq<Slot<T>>, n: nat)
    requires
        n <= slots.len(),
    ensures
        Set::new(|h: Handle| h.index < n && live(slots, h)).finite(),
        Set::new(|h: Handle| h.index < n && live(slots, h)).len() <= n,
    decreases n,
{
    let some = Set::new(|h: Handle| h.index < n && live(slots, h));
    if n == 0 {
        assert(some =~= Set::empty());
    } else {
        let m = (n - 1) as nat;
        lemma_no_more_than_slots(slots, m);
        let fewer = Set::new(|h: Handle| h.index < m && live(slots, h));
        let last = slots[m as int].handle();
        if some.contains(last) && last.index == m {
            assert(some =~= fewer.insert(last));
        } else {
            assert(some =~= fewer);
        }
    }
}

impl<T> Default for Arena<T> {
    fn default() -> (r: Self)
        ensures
            r.wf(),
            r@ == Map::<Handle, T>::empty(),
            r.generations() == Seq::<u32>::empty(),
            r.vacated() == Seq::<u32>::empty(),
    {
        Self::new()
    }
}

impl<T: Clone> Clone for Arena<T> {
    fn clone(&self) -> (r: Self)
        ensures
            self.wf() ==> r.wf(),
            r@.dom() == self@.dom(),
            forall|h: Handle| #[trigger] self@.contains_key(h) ==> cloned::<T>(self@[h], r@[h]),
            r.generations() == self.generations(),
            r.vacated() == self.vacated(),
    {
        let mut slots: Vec<Slot<T>> = Vec::new();
        let mut i: usize = 0;
        while i < self.slots.len()
            invariant
                i <= self.slots@.len(),
                slots@.len() == i,
                forall|j: int|
                    0 <= j < i ==> {
                        &&& (#[trigger] slots@[j]).handle() == self.slots@[j].handle()
                        &&& slots@[j].occupant() is Some == self.slots@[j].occupant() is Some
                        &&& self.slots@[j].occupant() matches Some(value) ==> cloned::<T>(
                            value,
                            slots@[j].occupant()->0,
                        )
                    },
            decreases self.slots@.len() - i,
        {
            slots.push(self.slots[i].clone());
            i = i + 1;
        }
        let mut free: Vec<u32> = Vec::new();
        let mut k: usize = 0;
        while k < self.free.len()
            invariant
                k <= self.free@.len(),
                free@ == self.free@.take(k as int),
            decreases self.free@.len() - k,
        {
            free.push(self.free[k]);
            proof {
                assert(free@ =~= self.free@.take(k + 1));
            }
            k = k + 1;
        }
        proof {
            assert(self.free@.take(k as int) =~= self.free@);
        }
        let copy = Arena { slots, free, len: self.len };
        proof {
            assert(copy@.dom() =~= self@.dom()) by {
                assert forall|h: Handle| #[trigger]
                    copy@.contains_key(h) <==> self@.contains_key(h) by {
                    if h.index < slots@.len() {
                        assert(slots@[h.index as int].handle()
                            == self.slots@[h.index as int].handle());
                    }
                }
            }
            assert forall|h: Handle| #[trigger] self@.contains_key(h) implies cloned::<T>(
                self@[h],
                copy@[h],
            ) by {
                assert(slots@[h.index as int].handle() == self.slots@[h.index as int].handle());
            }
            assert(copy.generations() =~= self.generations()) by {
                assert forall|j: int| 0 <= j < slots@.len() implies #[trigger] copy.generations()[j]
                    == self.generations()[j] by {
                    assert(slots@[j].handle() == self.slots@[j].handle());
                }
            }
            copy.lemma_dom();
            self.lemma_dom();
            if self.wf() {
                assert forall|j: int| 0 <= j < free@.len() implies {
                    &&& (#[trigger] free@[j]) < slots@.len()
                    &&& slots@[free@[j] as int].occupant() is None
                } by {
                    assert(self.free@[j] == free@[j]);
                    assert(slots@[free@[j] as int].handle()
                        == self.slots@[free@[j] as int].handle());
                }
            }
        }
        copy
    }
}

// ---------------------------------------------------------------- laws

/// A slot is used again under a new name: the value that follows one that was
/// taken out has its index and another generation.
pub proof fn vacated_slots_are_used_again<T>(
    before: Arena<T>,
    gone: Handle,
    between: Arena<T>,
    handle: Handle,
)
    requires
        gone.generation < u32::MAX,
        gone.index < before.generations().len(),
        between.vacated() == before.vacated().push(gone.index),
        between.generations() == before.generations().update(
            gone.index as int,
            (gone.generation + 1) as u32,
        ),
        handle.index == between.vacated().last(),
        handle.generation == between.generations()[handle.index as int],
    ensures
        handle.index == gone.index,
        handle.generation == gone.generation + 1,
{
}

/// A handle of a value that is gone reaches nothing.
pub proof fn retired_handles_reach_nothing<T>(arena: Arena<T>, h: Handle)
    requires
        arena.retired(h),
    ensures
        !arena@.contains_key(h),
{
}

} // verus!
