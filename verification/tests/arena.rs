use simcore::arena::{Arena, ArenaID};

#[test]
fn fresh_arena_is_empty() {
    let arena: Arena<u32, 4> = Arena::empty();
    assert_eq!(arena.len(), 0);
    assert!(arena.slice().is_empty());
}

#[test]
fn add_returns_consecutive_handles_from_zero() {
    let mut arena: Arena<u32, 8> = Arena::empty();
    for expected in 0..8usize {
        let id = arena.add(10 * expected as u32);
        assert_eq!(usize::from(id), expected);
        assert_eq!(arena.len(), expected + 1);
    }
    assert_eq!(arena.slice(), &[0, 10, 20, 30, 40, 50, 60, 70]);
}

#[test]
fn last_handle_reads_the_last_item() {
    let mut arena: Arena<&'static str, 3> = Arena::empty();
    arena.add("a");
    arena.add("b");
    let last = arena.add("c");
    assert_eq!(usize::from(last), arena.len() - 1);
    assert_eq!(*arena.get(last), "c");
    assert_eq!(*arena.get(ArenaID::from(0)), "a");
}

#[test]
fn reset_recycles_handle_zero() {
    let mut arena: Arena<u32, 2> = Arena::empty();
    arena.add(1);
    arena.add(2);
    arena.reset();
    assert_eq!(arena.len(), 0);
    assert!(arena.slice().is_empty());
    let id = arena.add(9);
    assert_eq!(usize::from(id), 0);
    assert_eq!(arena.slice(), &[9]);
    let id = arena.add(8);
    assert_eq!(usize::from(id), 1);
    assert_eq!(arena.slice(), &[9, 8]);
}

#[test]
fn arena_fills_to_its_capacity() {
    let mut arena: Arena<u8, 3> = Arena::empty();
    arena.add(1);
    arena.add(2);
    arena.add(3);
    assert_eq!(arena.len(), 3);
    assert_eq!(arena.slice(), &[1, 2, 3]);
}

#[test]
fn get_mut_changes_one_slot_only() {
    let mut arena: Arena<i32, 4> = Arena::empty();
    arena.add(1);
    let mid = arena.add(2);
    arena.add(3);
    *arena.get_mut(mid) += 40;
    assert_eq!(arena.slice(), &[1, 42, 3]);
}

#[test]
fn slice_mut_writes_through() {
    let mut arena: Arena<i32, 4> = Arena::empty();
    arena.add(1);
    arena.add(2);
    for item in arena.slice_mut() {
        *item *= 10;
    }
    assert_eq!(arena.slice(), &[10, 20]);
    assert_eq!(arena.slice_mut().len(), 2);
}

#[test]
fn slices_show_the_live_prefix_after_reset() {
    let mut arena: Arena<i32, 4> = Arena::empty();
    arena.add(1);
    arena.add(2);
    arena.add(3);
    arena.reset();
    arena.add(7);
    assert_eq!(arena.slice(), &[7]);
    assert_eq!(arena.slice_mut().len(), 1);
}

#[test]
fn arena_from_array_is_full_and_ordered() {
    let arena: Arena<u16, 3> = Arena::from([5, 6, 7]);
    assert_eq!(arena.len(), 3);
    assert_eq!(arena.slice(), &[5, 6, 7]);
    assert_eq!(*arena.get(ArenaID::from(2)), 7);
}

#[test]
fn handle_conversions_round_trip() {
    let id = ArenaID::from(17usize);
    assert_eq!(usize::from(id), 17);
    assert_eq!(usize::from(ArenaID::default()), 0);
    let copy = id;
    assert_eq!(usize::from(copy), usize::from(id));
}

#[test]
fn arena_holds_items_that_are_not_copy() {
    let mut arena: Arena<String, 2> = Arena::empty();
    let id = arena.add(String::from("ship"));
    arena.get_mut(id).push_str("yard");
    assert_eq!(arena.get(id).as_str(), "shipyard");
}

#[test]
fn one_past_the_last_handle_is_past_the_length() {
    let mut arena: Arena<u32, 4> = Arena::empty();
    let first = arena.add(1);
    let last = arena.add(2);
    assert!(usize::from(first) < arena.len());
    assert!(usize::from(last) < arena.len());
    assert_eq!(usize::from(last) + 1, arena.len());
    arena.reset();
    assert!(usize::from(first) >= arena.len());
}

#[test]
fn arena_converts_from_an_array() {
    let arena: Arena<u8, 2> = [3, 4].into();
    assert_eq!(arena.slice(), &[3, 4]);
    assert_eq!(arena.len(), 2);
}
