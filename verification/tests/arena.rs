use parser::{Allocator, Id, ParseError};

#[test]
fn a_new_arena_takes_one_value_less_than_requested() {
    let mut arena: Allocator<u32> = Allocator::make(4);
    assert!(arena.allocate(10).is_ok());
    assert!(arena.allocate(11).is_ok());
    assert!(arena.allocate(12).is_ok());
    assert_eq!(arena.allocate(13).err(), Some(ParseError::CapacityExceeded));
}

#[test]
fn an_arena_requested_with_one_slot_takes_nothing() {
    let mut arena: Allocator<u32> = Allocator::make(1);
    assert_eq!(arena.allocate(1).err(), Some(ParseError::CapacityExceeded));
}

#[test]
fn a_full_arena_keeps_what_it_holds() {
    let mut arena: Allocator<&str> = Allocator::make(3);
    let a = arena.allocate("a").unwrap();
    let b = arena.allocate("b").unwrap();
    assert!(arena.allocate("c").is_err());
    assert!(arena.allocate("d").is_err());
    assert_eq!(*arena.fetch(a), "a");
    assert_eq!(*arena.fetch(b), "b");
}

#[test]
fn handles_are_minted_in_order_from_zero() {
    let mut arena: Allocator<char> = Allocator::make(8);
    for (slot, c) in ['x', 'y', 'z'].into_iter().enumerate() {
        let id = arena.allocate(c).unwrap();
        assert_eq!(*arena.fetch(id), c);
        assert_eq!(*arena.fetch(Id::id(slot)), c);
    }
}

#[test]
fn fetch_returns_what_was_stored_whatever_came_after() {
    let mut arena: Allocator<String> = Allocator::make(100);
    let mut ids = Vec::new();
    for n in 0..99 {
        ids.push(arena.allocate(format!("value {}", n)).unwrap());
        for (m, id) in ids.iter().enumerate() {
            assert_eq!(*arena.fetch(*id), format!("value {}", m));
        }
    }
}

#[test]
fn a_handle_made_by_hand_reaches_its_slot() {
    let mut arena: Allocator<i64> = Allocator::make(3);
    arena.allocate(-5).unwrap();
    arena.allocate(7).unwrap();
    assert_eq!(*arena.fetch(Id::id(0)), -5);
    assert_eq!(*arena.fetch(Id::id(1)), 7);
}

#[test]
fn a_handle_is_copied_freely() {
    let mut arena: Allocator<u8> = Allocator::make(2);
    let id = arena.allocate(9).unwrap();
    let copy = id;
    let clone = id.clone();
    assert_eq!(*arena.fetch(id), 9);
    assert_eq!(*arena.fetch(copy), 9);
    assert_eq!(*arena.fetch(clone), 9);
}

#[test]
fn a_clone_holds_the_same_values_and_has_the_same_capacity() {
    let mut arena: Allocator<String> = Allocator::make(3);
    let a = arena.allocate("one".to_string()).unwrap();
    let mut copy = arena.clone();
    assert_eq!(*copy.fetch(a), "one");
    let b = copy.allocate("two".to_string()).unwrap();
    assert_eq!(*copy.fetch(b), "two");
    assert!(copy.allocate("three".to_string()).is_err());
    assert!(arena.allocate("zwei".to_string()).is_ok());
    assert_eq!(*arena.fetch(b), "zwei");
}

#[test]
fn len_counts_the_stored_values() {
    let mut arena: Allocator<u8> = Allocator::make(3);
    assert_eq!(arena.len(), 0);
    arena.allocate(1).unwrap();
    assert_eq!(arena.len(), 1);
    arena.allocate(2).unwrap();
    assert_eq!(arena.len(), 2);
    assert!(arena.allocate(3).is_err());
    assert_eq!(arena.len(), 2);
}
