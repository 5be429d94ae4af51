//! Clocks, and maps from replicas to what is known of them.

use cola::{DeletionMap, InsertionClock, LamportClock, ReplicaId, VersionMap};

#[test]
fn lamport_clocks_issue_ascending_timestamps() {
    let mut clock = LamportClock::new();
    assert_eq!(clock.last(), 0);
    assert_eq!(clock.next(), 0);
    assert_eq!(clock.next(), 1);
    assert_eq!(clock.last(), 1);
    assert_eq!(format!("{clock:?}"), "LamportClock(2)");
    assert_eq!(clock, LamportClock(2));
    assert_eq!(LamportClock::default(), LamportClock(0));
}

#[test]
fn lamport_clocks_move_past_what_they_see() {
    let mut clock = LamportClock(4);
    clock.update(9);
    assert_eq!(clock, LamportClock(10));
    clock.update(3);
    assert_eq!(clock, LamportClock(11));
    clock.update(11);
    assert_eq!(clock, LamportClock(12));
    assert_eq!(clock.fork(), LamportClock(13));
}

#[test]
fn insertion_clocks_count() {
    let mut clock = InsertionClock::new();
    assert_eq!(clock.last(), 0);
    assert_eq!(clock.next(), 0);
    assert_eq!(clock.next(), 1);
    assert_eq!(clock.last(), 1);
    assert_eq!(format!("{clock:?}"), "InsertionClock(2)");
    assert_eq!(InsertionClock::default(), InsertionClock(0));
}

#[test]
fn version_maps_count_characters() {
    let (a, b, c) = (ReplicaId::from(1), ReplicaId::from(2), ReplicaId::from(3));
    let mut map = VersionMap::new(a, 5);
    map.set(b, 7);
    assert_eq!((map.get(a), map.get(b), map.get(c)), (5, 7, 0));
    *map.this_mut() += 2;
    assert_eq!(map.this(), 7);
    let fork = map.fork(c, 0);
    assert_eq!((fork.get(a), fork.get(b), fork.this()), (7, 7, 0));
    assert!(fork.dominates(&map));
    map.set(b, 8);
    assert!(!fork.dominates(&map));
    assert!(map.dominates(&fork));
    map.set(c, 1);
    assert!(!fork.dominates(&map));
}

#[test]
fn deletion_maps_count_deletions() {
    let (a, b, c) = (ReplicaId::from(1), ReplicaId::from(2), ReplicaId::from(3));
    let mut map = DeletionMap::new(a, 1);
    assert_eq!(map.get(a), 0);
    *map.this_mut() += 1;
    assert_eq!((map.this(), map.get(a)), (2, 1));
    map.set(b, 4);
    let fork = map.fork(c, 1);
    assert_eq!((fork.get(a), fork.get(b), fork.get(c), fork.this()), (1, 4, 0, 1));
}
