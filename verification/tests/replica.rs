//! What replicas do.

use std::ops::Bound;

use cola::{CrdtEdit, Replica, ReplicaId, TextEdit};

#[test]
fn new_and_fork_have_their_ids() {
    let replica1 = Replica::new(1, 0);
    let replica2 = replica1.fork(2);
    assert_eq!(replica1.id(), ReplicaId::from(1));
    assert_eq!(replica2.id(), ReplicaId::from(2));
    assert_eq!(replica2.id().as_u64(), 2);
}

#[test]
fn backlogged_edits_come_in_order() {
    // The buffer at peer 1 is "ab".
    let mut replica1 = Replica::new(1, 2);
    let mut replica2 = replica1.fork(2);

    let insert_c = replica1.inserted(2, 1);
    let insert_d = replica1.inserted(3, 1);
    let insert_e = replica1.inserted(4, 1);

    let none_e = replica2.merge(&insert_e);
    let none_d = replica2.merge(&insert_d);

    assert!(none_e.is_none());
    assert!(none_d.is_none());

    let Some(TextEdit::Insertion(offset_c, _)) = replica2.merge(&insert_c) else {
        unreachable!()
    };

    assert_eq!(offset_c, 2);

    let mut backlogged = replica2.backlogged();

    assert!(matches!(backlogged.next(), Some(TextEdit::Insertion(3, _))));
    assert!(matches!(backlogged.next(), Some(TextEdit::Insertion(4, _))));
    assert!(backlogged.next().is_none());
    assert_eq!(replica2.len(), 5);
}

#[test]
fn merging_respects_intent() {
    // The buffer at both peers is "abcd".
    let mut replica1 = Replica::new(1, 4);
    let mut replica2 = replica1.fork(2);

    let insertion_at_1 = replica1.inserted(2, 1);

    let deletion_at_2 = replica2.deleted(1..2);

    let Some(TextEdit::ContiguousDeletion(range_b)) = replica1.merge(&deletion_at_2) else {
        unreachable!();
    };

    assert_eq!(range_b, 1..2);

    let Some(TextEdit::Insertion(offset, _)) = replica2.merge(&insertion_at_1) else {
        unreachable!();
    };

    assert_eq!(offset, 1);
}

#[test]
fn deleting_up_to_an_offset() {
    // The buffer at peer 1 is "Hello World".
    let mut replica1 = Replica::new(1, 11);
    let mut replica2 = replica1.fork(2);
    let edit = replica1.deleted(..6);
    assert_eq!(replica1.len(), 5);
    let Some(TextEdit::ContiguousDeletion(range)) = replica2.merge(&edit) else {
        unreachable!();
    };
    assert_eq!(range, 0..6);
}

#[test]
fn ranges_of_all_kinds() {
    let deleted = |edit_of: &dyn Fn(&mut Replica) -> cola::CrdtEdit| {
        let mut replica1 = Replica::new(1, 10);
        let mut replica2 = replica1.fork(2);
        let edit = edit_of(&mut replica1);
        match replica2.merge(&edit) {
            Some(TextEdit::ContiguousDeletion(range)) => Some(range),
            None => None,
            _ => unreachable!(),
        }
    };
    assert_eq!(deleted(&|r| r.deleted(2..5)), Some(2..5));
    assert_eq!(deleted(&|r| r.deleted(7..)), Some(7..10));
    assert_eq!(deleted(&|r| r.deleted(..)), Some(0..10));
    assert_eq!(deleted(&|r| r.deleted(..3)), Some(0..3));
    assert_eq!(deleted(&|r| r.deleted(..=3)), Some(0..4));
    assert_eq!(deleted(&|r| r.deleted(2..=3)), Some(2..4));
    assert_eq!(
        deleted(&|r| r.deleted((Bound::Excluded(2), Bound::Included(5)))),
        Some(3..6)
    );
    assert_eq!(deleted(&|r| r.deleted(4..4)), None);
}

#[test]
fn edits_of_nothing_are_merged_as_nothing() {
    let mut replica1 = Replica::new(1, 3);
    let mut replica2 = replica1.fork(2);
    let insertion = replica1.inserted(2, 0);
    let deletion = replica1.deleted(1..1);
    assert!(replica2.merge(&insertion).is_none());
    assert!(replica2.merge(&deletion).is_none());
    assert_eq!(replica2.len(), 3);
    // Nothing has been used up: the next edits merge as if the others had not been made.
    let insertion = replica1.inserted(2, 1);
    let deletion = replica1.deleted(0..1);
    assert!(replica2.merge(&insertion).is_some());
    assert!(replica2.merge(&deletion).is_some());
}

#[test]
fn own_edits_are_merged_as_nothing() {
    let mut replica = Replica::new(1, 3);
    let insertion = replica.inserted(1, 2);
    let deletion = replica.deleted(0..2);
    assert!(replica.merge(&insertion).is_none());
    assert!(replica.merge(&deletion).is_none());
    assert_eq!(replica.len(), 3);
}

#[test]
fn merging_twice_does_nothing_more() {
    let mut replica1 = Replica::new(1, 3);
    let mut replica2 = replica1.fork(2);
    let insertion = replica1.inserted(1, 2);
    let deletion = replica1.deleted(0..2);
    assert!(replica2.merge(&insertion).is_some());
    assert!(replica2.merge(&insertion).is_none());
    assert!(replica2.merge(&deletion).is_some());
    assert!(replica2.merge(&deletion).is_none());
    assert_eq!(replica2.len(), 3);
}

#[test]
fn waiting_twice_is_waiting_once() {
    let mut replica1 = Replica::new(1, 3);
    let mut replica2 = replica1.fork(2);
    let first = replica1.inserted(1, 2);
    let second = replica1.inserted(0, 1);
    let deletion = replica1.deleted(0..2);
    for edit in [&deletion, &second, &deletion, &second] {
        assert!(replica2.merge(edit).is_none());
    }
    assert!(replica2.merge(&first).is_some());
    let mut backlogged = replica2.backlogged();
    assert!(matches!(backlogged.next(), Some(TextEdit::Insertion(0, _))));
    assert!(matches!(backlogged.next(), Some(TextEdit::ContiguousDeletion(_))));
    assert!(backlogged.next().is_none());
    assert_eq!(replica2.len(), 4);
}

#[test]
fn a_fork_goes_on_with_the_deletions_of_its_parent() {
    let mut replica1 = Replica::new(1, 6);
    let _ = replica1.deleted(0..1);
    let mut replica2 = replica1.fork(2);
    let second = replica1.deleted(0..1);
    let third = replica1.deleted(0..1);
    assert!(replica2.merge(&third).is_none());
    assert!(replica2.merge(&second).is_some());
    assert!(replica2.backlogged().next().is_some());
    assert_eq!(replica2.len(), 3);
}

#[test]
fn concurrent_text_survives_a_deletion() {
    // Both peers have "abcd". Peer 2 deletes it all while peer 1 inserts in the middle.
    let mut replica1 = Replica::new(1, 4);
    let mut replica2 = replica1.fork(2);
    let insertion = replica1.inserted(2, 1);
    let deletion = replica2.deleted(..);
    match replica1.merge(&deletion) {
        Some(TextEdit::SplitDeletion(ranges)) => assert_eq!(ranges, vec![0..2, 3..5]),
        _ => unreachable!(),
    }
    assert!(matches!(replica2.merge(&insertion), Some(TextEdit::Insertion(0, _))));
    assert_eq!(replica1.len(), 1);
    assert_eq!(replica2.len(), 1);
}

#[test]
fn a_deletion_of_deleted_text_deletes_nothing() {
    let mut replica1 = Replica::new(1, 4);
    let mut replica2 = replica1.fork(2);
    let _ = replica1.deleted(1..3);
    let deletion = replica2.deleted(1..3);
    match replica1.merge(&deletion) {
        Some(TextEdit::SplitDeletion(ranges)) => assert!(ranges.is_empty()),
        _ => unreachable!(),
    }
    assert_eq!(replica1.len(), 2);
}

#[test]
fn later_insertions_come_first() {
    // Peer 2 has seen more than peer 3, so its insertion in the same place comes first.
    let replica1 = Replica::new(1, 1);
    let mut replica2 = replica1.fork(2);
    let mut replica3 = replica1.fork(3);
    let x = replica2.inserted(0, 1);
    let y = replica2.inserted(0, 1);
    let z = replica3.inserted(0, 1);
    assert!(matches!(replica3.merge(&x), Some(TextEdit::Insertion(0, _))));
    assert!(matches!(replica3.merge(&y), Some(TextEdit::Insertion(0, _))));
    assert!(matches!(replica2.merge(&z), Some(TextEdit::Insertion(2, _))));
}

#[test]
fn runs_are_counted() {
    let mut replica = Replica::new(1, 10);
    assert_eq!(replica.empty_leaves(), (0, 1));
    let _ = replica.deleted(3..5);
    assert_eq!(replica.empty_leaves(), (1, 3));
    let _ = replica.deleted(5..6);
    assert_eq!(replica.empty_leaves(), (2, 5));
    // A new run, which the next insertion goes on with.
    let _ = replica.inserted(0, 4);
    assert_eq!(replica.empty_leaves(), (2, 6));
    let _ = replica.inserted(4, 1);
    assert_eq!(replica.empty_leaves(), (2, 6));
    // A run that cuts another one.
    let _ = replica.inserted(2, 1);
    assert_eq!(replica.empty_leaves(), (2, 8));
    assert!(replica.assert_invariants());
}

#[test]
fn a_fork_has_the_runs_of_its_source() {
    let mut replica = Replica::new(1, 10);
    let _ = replica.deleted(3..5);
    let _ = replica.inserted(1, 2);
    let fork = replica.fork(2);
    assert!(replica.eq_decoded(&fork));
    assert!(fork.eq_decoded(&replica));
    assert_eq!(fork.empty_leaves(), replica.empty_leaves());
    let decoded = Replica::decode(2, &replica.encode()).unwrap();
    assert_eq!(decoded.encode().bytes(), fork.encode().bytes());
}

#[test]
fn a_fork_to_a_used_id_has_a_sound_text() {
    let fork = Replica::new(1, 2).fork(1);
    assert!(fork.assert_invariants());
    assert!(!fork.is_sound());
    assert_eq!(fork.len(), 2);
    assert_eq!(fork.empty_leaves(), (0, 1));
    assert!(fork.fork(2).assert_invariants());
}

#[test]
fn what_changes_nothing_leaves_everything_as_it_was() {
    let mut replica1 = Replica::new(1, 4);
    let mut replica2 = replica1.fork(2);
    let own = replica1.inserted(4, 2);
    let deletion = replica2.deleted(1..2);
    let insertion = replica2.inserted(0, 1);
    assert!(replica1.merge(&deletion).is_some());
    assert!(replica1.merge(&insertion).is_some());
    let before = replica1.fork(9);
    let bytes = replica1.encode();
    let no_insertion = replica1.inserted(3, 0);
    let no_deletion = replica1.deleted(2..2);
    for edit in [&own, &deletion, &insertion, &no_insertion, &no_deletion] {
        assert!(replica1.merge(edit).is_none());
    }
    assert!(replica1.eq_decoded(&before));
    assert_eq!(replica1.encode().bytes(), bytes.bytes());
    assert_eq!(replica1.len(), 6);
}

#[test]
fn waiting_edits_change_nothing_but_the_backlog() {
    let mut replica1 = Replica::new(1, 4);
    let mut replica2 = replica1.fork(2);
    let _ = replica1.inserted(2, 1);
    let insertion = replica1.inserted(0, 1);
    let deletion = replica1.deleted(..);
    let before = replica2.fork(9);
    assert!(replica2.merge(&insertion).is_none());
    assert!(replica2.merge(&deletion).is_none());
    assert!(!replica2.eq_decoded(&before));
    assert_eq!(replica2.empty_leaves(), before.empty_leaves());
    let (now, then) = (replica2.debug(), before.debug());
    assert_eq!(format!("{:?}", now.run_tree), format!("{:?}", then.run_tree));
    assert_eq!(format!("{:?}", now.run_indices), format!("{:?}", then.run_indices));
}

#[test]
fn edits_are_numbered_without_gaps() {
    let mut replica = Replica::new(1, 3);
    for n in 1..4 {
        match replica.deleted(0..1).kind() {
            cola::CrdtEditKind::Deletion(deletion) => assert_eq!(deletion.deletion_ts, n),
            _ => unreachable!(),
        }
    }
    let mut next = 3;
    let mut last_ts = 0;
    for len in [2, 1, 3] {
        match replica.inserted(0, len).kind() {
            cola::CrdtEditKind::Insertion(insertion) => {
                assert_eq!(insertion.start(), next);
                assert!(insertion.lamport_ts() > last_ts);
                last_ts = insertion.lamport_ts();
            }
            _ => unreachable!(),
        }
        next += len;
    }
}

#[test]
fn replicas_show_their_ids() {
    assert_eq!(Replica::new(0, 3).to_debug_string(), "Replica(0)");
    assert_eq!(Replica::new(0xbeef, 3).to_debug_string(), "Replica(beef)");
    assert_eq!(Replica::new(u64::MAX, 3).to_debug_string(), "Replica(ffffffffffffffff)");
}

#[test]
fn replicas_show_their_insides() {
    let mut replica = Replica::new(2, 3);
    let _ = replica.deleted(0..1);
    let shown = format!("{:?}", replica.debug());
    assert!(shown.starts_with("Replica { id: ReplicaId(2), run_tree: RunTree {"));
    assert!(shown.contains("lamport_clock: LamportClock(1), insertion_clock: InsertionClock(1)"));
    let btree = replica.debug_as_btree();
    assert_eq!(btree.run_tree.runs.len(), 2);
    assert!(btree.run_tree.runs[0].is_deleted);
    assert!(!btree.run_tree.runs[1].is_deleted);
    assert_eq!(btree.lamport_clock, replica.debug().lamport_clock);
    let shown = format!("{:?}", btree);
    assert!(shown.starts_with("Replica { id: ReplicaId(2), run_tree: RunsInOrder { runs: ["));
}

/// The texts of the runs of a replica in order, each with whether it is deleted.
fn texts(replica: &Replica) -> Vec<(u64, usize, usize, bool)> {
    let runs = replica.debug_as_btree().run_tree.runs;
    runs.iter()
        .map(|run| (run.text.inserted_by.as_u64(), run.text.start, run.text.end, run.is_deleted))
        .collect()
}

#[test]
fn insertions_extend_the_run_that_they_go_on() {
    let mut one = Replica::new(1, 3);
    let mut two = one.fork(2);
    let a = one.inserted(1, 2);
    assert_eq!(texts(&one), vec![(1, 0, 1, false), (1, 3, 5, false), (1, 1, 3, false)]);
    let b = one.inserted(3, 1);
    assert_eq!(texts(&one), vec![(1, 0, 1, false), (1, 3, 6, false), (1, 1, 3, false)]);
    // Not where the last insertion ended.
    let c = one.inserted(3, 1);
    assert_eq!(
        texts(&one),
        vec![
            (1, 0, 1, false),
            (1, 3, 5, false),
            (1, 6, 7, false),
            (1, 5, 6, false),
            (1, 1, 3, false),
        ]
    );
    for edit in [&a, &b, &c] {
        assert!(two.merge(edit).is_some());
    }
    assert_eq!(texts(&two), texts(&one));
}

#[test]
fn deletions_cut_runs() {
    let mut replica = Replica::new(1, 10);
    let _ = replica.deleted(4..6);
    assert_eq!(texts(&replica), vec![(1, 0, 4, false), (1, 4, 6, true), (1, 6, 10, false)]);
    // The start of a run goes to the deleted run before it, the end to the one after it.
    let _ = replica.deleted(4..5);
    assert_eq!(texts(&replica), vec![(1, 0, 4, false), (1, 4, 7, true), (1, 7, 10, false)]);
    let _ = replica.deleted(2..4);
    assert_eq!(texts(&replica), vec![(1, 0, 2, false), (1, 2, 7, true), (1, 7, 10, false)]);
    // Across runs the deleted ones stay apart.
    let _ = replica.deleted(1..4);
    assert_eq!(
        texts(&replica),
        vec![(1, 0, 1, false), (1, 1, 2, true), (1, 2, 7, true), (1, 7, 9, true), (1, 9, 10, false)]
    );
    let _ = replica.deleted(0..1);
    assert_eq!(texts(&replica)[0], (1, 0, 1, true));
    assert!(replica.assert_invariants());
}

#[test]
fn merged_deletions_leave_the_text_of_others_alone() {
    let mut one = Replica::new(1, 6);
    let mut two = one.fork(2);
    let insertion = two.inserted(3, 2);
    let deletion = one.deleted(1..5);
    assert!(two.merge(&deletion).is_some());
    assert_eq!(
        texts(&two),
        vec![(1, 0, 1, false), (1, 1, 3, true), (2, 0, 2, false), (1, 3, 5, true), (1, 5, 6, false)]
    );
    assert!(one.merge(&insertion).is_some());
    assert_eq!(texts(&one), texts(&two));
}

#[test]
fn forms_of_a_range_delete_the_same() {
    let replica = || {
        let mut replica = Replica::new(1, 4);
        let _ = replica.inserted(2, 3);
        let _ = replica.deleted(5..6);
        replica
    };
    let after = |delete: &dyn Fn(&mut Replica) -> CrdtEdit| {
        let mut replica = replica();
        let edit = delete(&mut replica);
        (format!("{:?}", edit), replica.encode().bytes().to_vec())
    };
    let len = replica().len();
    assert_eq!(len, 6);
    assert_eq!(after(&|r| r.deleted(1..=3)), after(&|r| r.deleted(1..4)));
    assert_eq!(after(&|r| r.deleted(..3)), after(&|r| r.deleted(0..3)));
    assert_eq!(after(&|r| r.deleted(..=3)), after(&|r| r.deleted(0..4)));
    assert_eq!(after(&|r| r.deleted(2..)), after(&|r| r.deleted(2..len)));
    assert_eq!(after(&|r| r.deleted(..)), after(&|r| r.deleted(0..len)));
    assert_ne!(after(&|r| r.deleted(1..=3)), after(&|r| r.deleted(1..3)));
    let mut emptied = replica();
    let _ = emptied.deleted(..);
    assert_eq!(emptied.len(), 0);
}

#[test]
fn all_edits_that_are_ready_come_out_of_the_backlog() {
    let mut one = Replica::new(1, 4);
    let mut two = one.fork(2);
    let mut three = one.fork(3);
    let a = two.inserted(0, 1);
    let b = two.inserted(3, 1);
    let c = two.deleted(0..1);
    let d = three.inserted(2, 1);
    let e = three.inserted(0, 1);
    // Each waits for the first edit of its peer, and once only.
    for edit in [&b, &c, &e, &c, &b] {
        assert!(one.merge(edit).is_none());
    }
    assert!(one.merge(&d).is_some());
    assert!(one.merge(&a).is_some());
    let mut drained = 0;
    let mut backlogged = one.backlogged();
    while backlogged.next().is_some() {
        drained += 1;
    }
    assert_eq!(drained, 3);
    assert_eq!(one.len(), 7);
    let debug = one.debug();
    assert!(debug.backlog.insertions.is_empty());
    assert!(debug.backlog.deletions.is_empty());
}

#[test]
fn draining_uses_up_no_numbers() {
    let mut one = Replica::new(1, 4);
    let mut two = one.fork(2);
    let a = two.inserted(0, 1);
    let b = two.deleted(2..3);
    assert!(one.merge(&b).is_none());
    assert!(one.merge(&a).is_some());
    let before = (one.debug().version_map.this_value, one.debug().deletion_map.this_value);
    assert!(one.backlogged().next().is_some());
    let after = (one.debug().version_map.this_value, one.debug().deletion_map.this_value);
    assert_eq!(before, (4, 1));
    assert_eq!(after, before);
}
