use linked_lists::arena::Arena;

#[test]
fn arena_insert_then_get() {
    let mut arena: Arena<&str> = Arena::new();
    let a = arena.insert("a");
    let b = arena.insert("b");
    assert_ne!(a, b);
    assert_eq!(arena.get(a), Some(&"a"));
    assert_eq!(arena.get(b), Some(&"b"));
}

#[test]
fn arena_remove_returns_value_and_expires_handle() {
    let mut arena: Arena<i32> = Arena::new();
    let a = arena.insert(10);
    let b = arena.insert(20);
    assert_eq!(arena.remove(a), Some(10));
    assert_eq!(arena.get(a), None);
    assert_eq!(arena.get(b), Some(&20));
    assert_eq!(arena.remove(a), None);
    assert_eq!(arena.get(b), Some(&20));
}

#[test]
fn arena_stale_handle_stays_stale_when_slot_is_reused() {
    let mut arena: Arena<i32> = Arena::new();
    let a = arena.insert(1);
    assert_eq!(arena.remove(a), Some(1));
    let b = arena.insert(2);
    assert_ne!(a, b);
    assert_eq!(arena.get(a), None);
    assert!(arena.get_mut(a).is_none());
    assert_eq!(arena.remove(a), None);
    assert_eq!(arena.get(b), Some(&2));
}

#[test]
fn arena_handles_differ_over_many_reuses() {
    let mut arena: Arena<usize> = Arena::new();
    let mut seen = Vec::new();
    for round in 0..100 {
        let id = arena.insert(round);
        assert!(!seen.contains(&id));
        for old in &seen {
            assert_eq!(arena.get(*old), None);
        }
        assert_eq!(arena.get(id), Some(&round));
        assert_eq!(arena.remove(id), Some(round));
        seen.push(id);
    }
}

#[test]
fn arena_get_mut_changes_only_its_value() {
    let mut arena: Arena<i32> = Arena::new();
    let a = arena.insert(1);
    let b = arena.insert(2);
    match arena.get_mut(a) {
        Some(value) => *value = 7,
        None => panic!("a live handle resolves"),
    }
    assert_eq!(arena.get(a), Some(&7));
    assert_eq!(arena.get(b), Some(&2));
}
