use order_book::arena::{Arena, Handle, Slot};
use slotmap::{DefaultKey, SlotMap};
use std::cell::Cell;
use std::rc::Rc;

#[derive(Debug)]
struct DropSpy(Rc<Cell<usize>>);

impl Drop for DropSpy {
    fn drop(&mut self) {
        self.0.set(self.0.get() + 1);
    }
}

#[test]
fn vacant_slot_returns_none() {
    let slot = Slot::<String>::vacant(7);
    assert_eq!(
        slot.get(Handle {
            index: 7,
            generation: 0
        }),
        None
    );
}

#[test]
fn insert_makes_value_accessible() {
    let mut slot = Slot::vacant(7);
    let handle = slot.insert(String::from("maker")).unwrap();
    assert_eq!(slot.get(handle).map(String::as_str), Some("maker"));
}

#[test]
fn get_mut_updates_the_value() {
    let mut slot = Slot::vacant(7);
    let handle = slot.insert(String::from("maker")).unwrap();
    slot.get_mut(handle).unwrap().push_str(" order");
    assert_eq!(slot.get(handle).map(String::as_str), Some("maker order"));
}

#[test]
fn occupied_slot_rejects_second_insert() {
    let mut slot = Slot::vacant(7);
    let first = slot.insert(String::from("first")).unwrap();
    let second = slot.insert(String::from("second")).unwrap_err();
    assert_eq!(second, "second");
    assert_eq!(slot.get(first).map(String::as_str), Some("first"));
}

#[test]
fn remove_returns_the_owned_value() {
    let mut slot = Slot::vacant(7);
    let handle = slot.insert(String::from("maker")).unwrap();
    assert_eq!(slot.remove(handle), Some(String::from("maker")));
}

#[test]
fn removed_handle_is_invalid() {
    let mut slot = Slot::vacant(7);
    let handle = slot.insert(String::from("maker")).unwrap();
    slot.remove(handle).unwrap();
    assert_eq!(slot.get(handle), None);
    assert_eq!(slot.remove(handle), None);
}

#[test]
fn stale_handle_cannot_access_reused_slot() {
    let mut slot = Slot::vacant(7);
    let stale = slot.insert(String::from("old")).unwrap();
    slot.remove(stale).unwrap();
    let current = slot.insert(String::from("new")).unwrap();
    assert_eq!(stale.index, current.index);
    assert_ne!(stale.generation, current.generation);
    assert_eq!(slot.get(stale), None);
    assert_eq!(slot.get(current).map(String::as_str), Some("new"));
}

#[test]
fn dropping_an_occupied_slot_drops_value_once() {
    let drops = Rc::new(Cell::new(0));
    {
        let mut slot = Slot::vacant(0);
        slot.insert(DropSpy(Rc::clone(&drops))).unwrap();
    }
    assert_eq!(drops.get(), 1);
}

#[test]
fn removing_then_dropping_slot_does_not_double_drop() {
    let drops = Rc::new(Cell::new(0));
    let removed = {
        let mut slot = Slot::vacant(0);
        let handle = slot.insert(DropSpy(Rc::clone(&drops))).unwrap();
        let removed = slot.remove(handle).unwrap();
        drop(slot);
        assert_eq!(drops.get(), 0);
        removed
    };
    drop(removed);
    assert_eq!(drops.get(), 1);
}

#[test]
fn arena_reuses_storage_but_not_identity() {
    let mut arena = Arena::new();
    let old = arena.insert(String::from("old"));
    assert_eq!(arena.remove(old).as_deref(), Some("old"));
    let new = arena.insert(String::from("new"));

    assert_eq!(old.index, new.index);
    assert_ne!(old.generation, new.generation);
    assert!(arena.get(old).is_none());
    assert_eq!(arena.get(new).map(String::as_str), Some("new"));
    assert_eq!(arena.len(), 1);
}

#[test]
fn cloned_arena_has_independent_values_and_matching_handles() {
    let mut arena = Arena::new();
    let key = arena.insert(String::from("maker"));
    let mut cloned = arena.clone();
    cloned.get_mut(key).unwrap().push_str(" clone");

    assert_eq!(arena.get(key).map(String::as_str), Some("maker"));
    assert_eq!(cloned.get(key).map(String::as_str), Some("maker clone"));
}

struct Random(u64);

impl Random {
    fn below(&mut self, bound: u64) -> u64 {
        self.0 = self
            .0
            .wrapping_mul(6_364_136_223_846_793_005)
            .wrapping_add(1_442_695_040_888_963_407);
        (self.0 >> 33) % bound
    }
}

#[test]
fn random_operations_match_slotmap() {
    for seed in 0..64 {
        let mut random = Random(seed);
        let mut subject = Arena::new();
        let mut oracle: SlotMap<DefaultKey, u64> = SlotMap::with_key();
        let mut handles: Vec<Option<(Handle, DefaultKey)>> = Vec::new();

        for _ in 0..1 + random.below(499) {
            let value = random.below(1 << 30);
            if random.below(2) == 0 || handles.is_empty() {
                handles.push(Some((subject.insert(value), oracle.insert(value))));
                continue;
            }

            let position = random.below(handles.len() as u64) as usize;
            if let Some((subject_key, oracle_key)) = handles[position].take() {
                assert_eq!(subject.get(subject_key), oracle.get(oracle_key));
                assert_eq!(subject.remove(subject_key), oracle.remove(oracle_key));
                assert!(subject.get(subject_key).is_none());
                assert!(oracle.get(oracle_key).is_none());
            }
        }

        assert_eq!(subject.len(), oracle.len());
        assert_eq!(subject.is_empty(), oracle.is_empty());
        for (subject_key, oracle_key) in handles.into_iter().flatten() {
            assert_eq!(subject.get(subject_key), oracle.get(oracle_key));
        }
    }
}

#[test]
fn a_retired_handle_stays_dead_through_many_reuses() {
    let mut arena = Arena::new();
    let first = arena.insert(0u32);
    assert_eq!(arena.remove(first), Some(0));
    for round in 1..50u32 {
        let handle = arena.insert(round);
        assert_eq!(handle.index, first.index);
        assert_eq!(arena.get(first), None);
        assert_eq!(arena.remove(first), None);
        assert_eq!(arena.get(handle), Some(&round));
        assert_eq!(arena.remove(handle), Some(round));
    }
    assert!(arena.is_empty());
}

#[test]
fn a_default_arena_is_empty() {
    let arena: Arena<u8> = Arena::default();
    assert_eq!(arena.len(), 0);
    assert!(arena.is_empty());
}

#[test]
fn slots_are_filled_again_last_vacated_first() {
    let mut arena = Arena::new();
    let a = arena.insert('a');
    let b = arena.insert('b');
    let c = arena.insert('c');
    assert_eq!((a.index, b.index, c.index), (0, 1, 2));
    assert_eq!((a.generation, b.generation, c.generation), (0, 0, 0));

    assert_eq!(arena.remove(a), Some('a'));
    assert_eq!(arena.remove(c), Some('c'));
    assert_eq!(arena.remove(c), None);

    let d = arena.insert('d');
    let e = arena.insert('e');
    let f = arena.insert('f');
    assert_eq!((d.index, d.generation), (2, 1));
    assert_eq!((e.index, e.generation), (0, 1));
    assert_eq!((f.index, f.generation), (3, 0));
    assert_eq!(arena.len(), 4);
}

#[test]
fn a_cloned_arena_fills_the_same_slot_next() {
    let mut arena = Arena::new();
    let a = arena.insert(1);
    let b = arena.insert(2);
    arena.remove(a);
    let mut copy = arena.clone();
    assert_eq!(arena.insert(3), copy.insert(4));
    assert_eq!(arena.insert(5), copy.insert(6));
    assert_eq!(arena.get(b), copy.get(b));
}
