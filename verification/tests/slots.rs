use quadtree::slot_map::{SlotId, SlotMap};

#[test]
fn a_new_map_knows_no_handle() {
    let map: SlotMap<u32> = SlotMap::new();
    let h = SlotId { index: 0, generation: 0 };
    assert!(!map.contains(h));
    assert_eq!(map.get(h), None);
}

#[test]
fn insert_then_get_returns_the_value() {
    let mut map = SlotMap::new();
    let a = map.insert("a".to_string());
    let b = map.insert("b".to_string());
    assert_ne!(a, b);
    assert_eq!(a, SlotId { index: 0, generation: 0 });
    assert_eq!(b, SlotId { index: 1, generation: 0 });
    assert_eq!(map.get(a), Some(&"a".to_string()));
    assert_eq!(map.get(b), Some(&"b".to_string()));
    assert!(map.contains(a) && map.contains(b));
}

#[test]
fn remove_returns_the_value_once() {
    let mut map = SlotMap::new();
    let a = map.insert(11);
    let b = map.insert(22);
    assert_eq!(map.remove(a), Some(11));
    assert_eq!(map.remove(a), None);
    assert_eq!(map.get(a), None);
    assert!(!map.contains(a));
    assert_eq!(map.get(b), Some(&22));
}

#[test]
fn remove_of_a_handle_never_issued_does_nothing() {
    let mut map = SlotMap::new();
    let a = map.insert(5);
    assert_eq!(map.remove(SlotId { index: 7, generation: 0 }), None);
    assert_eq!(map.remove(SlotId { index: a.index, generation: a.generation + 1 }), None);
    assert_eq!(map.get(a), Some(&5));
}

#[test]
fn the_most_recently_vacated_slot_is_used_first() {
    let mut map = SlotMap::new();
    let a = map.insert('a');
    let b = map.insert('b');
    let c = map.insert('c');
    assert_eq!(map.remove(a), Some('a'));
    assert_eq!(map.remove(c), Some('c'));
    let d = map.insert('d');
    assert_eq!(d, SlotId { index: c.index, generation: c.generation + 1 });
    let e = map.insert('e');
    assert_eq!(e, SlotId { index: a.index, generation: a.generation + 1 });
    let f = map.insert('f');
    assert_eq!(f, SlotId { index: 3, generation: 0 });
    assert_eq!(map.get(b), Some(&'b'));
    assert_eq!(map.get(d), Some(&'d'));
    assert_eq!(map.get(e), Some(&'e'));
}

#[test]
fn a_stale_handle_does_not_reach_the_new_value_in_its_slot() {
    let mut map = SlotMap::new();
    let old = map.insert(1);
    map.remove(old);
    let new = map.insert(2);
    assert_eq!(new.index, old.index);
    assert_ne!(new, old);
    assert_eq!(map.get(old), None);
    assert_eq!(map.remove(old), None);
    assert_eq!(map.get(new), Some(&2));
}

#[test]
fn get_mut_changes_the_value_in_place() {
    let mut map = SlotMap::new();
    let a = map.insert(10);
    let b = map.insert(20);
    if let Some(v) = map.get_mut(a) {
        *v += 5;
    }
    assert_eq!(map.get(a), Some(&15));
    assert_eq!(map.get(b), Some(&20));
    map.remove(a);
    assert!(map.get_mut(a).is_none());
    assert!(map.get_mut(SlotId { index: 9, generation: 0 }).is_none());
}

#[test]
fn clear_makes_every_handle_stale() {
    let mut map = SlotMap::new();
    let handles: Vec<SlotId> = (0..20).map(|i| map.insert(i)).collect();
    map.remove(handles[3]);
    map.clear();
    for h in &handles {
        assert_eq!(map.get(*h), None);
        assert!(!map.contains(*h));
        assert_eq!(map.remove(*h), None);
    }
    let fresh: Vec<SlotId> = (0..25).map(|i| map.insert(100 + i)).collect();
    for h in &handles {
        assert!(!fresh.contains(h));
        assert_eq!(map.get(*h), None);
    }
    for (i, h) in fresh.iter().enumerate() {
        assert_eq!(map.get(*h), Some(&(100 + i as i32)));
    }
}

#[test]
fn clear_of_an_empty_map_is_harmless() {
    let mut map: SlotMap<u8> = SlotMap::new();
    map.clear();
    let a = map.insert(1);
    assert_eq!(a, SlotId { index: 0, generation: 0 });
    map.clear();
    map.clear();
    let b = map.insert(2);
    assert_eq!(b, SlotId { index: 0, generation: 1 });
    assert_eq!(map.get(a), None);
    assert_eq!(map.get(b), Some(&2));
}

#[test]
fn clear_lists_the_slots_it_empties_after_those_already_vacant() {
    let mut map = SlotMap::new();
    let a = map.insert('a');
    let b = map.insert('b');
    let c = map.insert('c');
    assert_eq!(map.remove(b), Some('b'));
    map.clear();
    assert_eq!(map.insert('d'), SlotId { index: c.index, generation: 1 });
    assert_eq!(map.insert('e'), SlotId { index: a.index, generation: 1 });
    assert_eq!(map.insert('f'), SlotId { index: b.index, generation: 1 });
    assert_eq!(map.insert('g'), SlotId { index: 3, generation: 0 });
    assert_eq!(map.get(a), None);
    assert_eq!(map.get(b), None);
    assert_eq!(map.get(c), None);
}
