//! What the state of a replica says, and how each operation changes it.

use vstd::prelude::*;

use crate::anchor::Anchor;
use crate::clocks::{InsertionClock, LamportClock};
use crate::crdt_edit::{DeletionView, EditView, Insertion};
use crate::edit_run::EditRun;
use crate::merged_deletion::ranges_of_deletion;
use crate::model::{
    char_after, char_before, complete, delete_between, delete_known_between, index_of_char,
    index_of_visible, merge_place, place_of, run_chars, splice, visible, Char, CharId,
};
use crate::replica_id::ReplicaId;
use crate::run_tree::{carries_on, insertion_anchor, insertion_anchor_ts};
use crate::text::{Text, TextEdit};

verus! {

/// The state of a replica.
#[verifier::ext_equal]
pub struct ReplicaView {
    pub id: ReplicaId,
    /// All characters that have been integrated, deleted ones included.
    pub doc: Seq<Char>,
    pub lamport_clock: LamportClock,
    pub insertion_clock: InsertionClock,
    /// How many characters of each replica have been integrated.
    pub versions: Map<ReplicaId, int>,
    /// The timestamp of the last deletion of each replica that has been integrated.
    pub deletions: Map<ReplicaId, int>,
    /// Insertions that wait for what they depend on.
    pub pending_insertions: Seq<Insertion>,
    /// Deletions that wait for what they depend on.
    pub pending_deletions: Seq<DeletionView>,
}

/// Whether the two insertions are the same one: they bring the same characters.
pub open spec fn same_insertion(a: Insertion, b: Insertion) -> bool {
    a.text.inserted_by == b.text.inserted_by && a.text.start == b.text.start
}

/// Whether the two deletions are the same one.
pub open spec fn same_deletion(a: DeletionView, b: DeletionView) -> bool {
    a.by == b.by && a.deletion_ts == b.deletion_ts
}

/// Whether an insertion is among those that wait.
pub open spec fn awaits_insertion(pending: Seq<Insertion>, insertion: Insertion) -> bool {
    exists|i: int| 0 <= i < pending.len() && same_insertion(#[trigger] pending[i], insertion)
}

/// Whether a deletion is among those that wait.
pub open spec fn awaits_deletion(pending: Seq<DeletionView>, deletion: DeletionView) -> bool {
    exists|i: int| 0 <= i < pending.len() && same_deletion(#[trigger] pending[i], deletion)
}

/// The text edit deletes from the buffer what is deleted in `after` and not in `doc`, as one range
/// if it is one.
pub open spec fn is_deletion_edit(edit: TextEdit, doc: Seq<Char>, after: Seq<Char>) -> bool {
    match edit {
        TextEdit::Insertion(_, _) => false,
        TextEdit::ContiguousDeletion(range) => ranges_of_deletion(seq![range], doc, after),
        TextEdit::SplitDeletion(ranges) => {
            &&& ranges@.len() != 1
            &&& ranges_of_deletion(ranges@, doc, after)
        },
    }
}

/// The state of a new replica whose buffer has the given length.
pub open spec fn new_state(id: ReplicaId, len: int) -> ReplicaView {
    ReplicaView {
        id,
        doc: run_chars(
            Text { inserted_by: id, start: 0, end: len as usize },
            Anchor::origin(),
            0,
            0,
            false,
        ),
        lamport_clock: LamportClock(1),
        insertion_clock: InsertionClock(1),
        versions: Map::total(|id: ReplicaId| 0int).insert(id, len),
        deletions: Map::total(|id: ReplicaId| 0int).insert(id, 0),
        pending_insertions: Seq::empty(),
        pending_deletions: Seq::empty(),
    }
}

impl ReplicaView {
    /// What holds of the state of every replica.
    pub open spec fn wf(self) -> bool {
        &&& complete(self.doc, self.versions)
        &&& self.buffer().len() <= usize::MAX
        &&& self.versions.dom() == Set::<ReplicaId>::full()
        &&& forall|id: ReplicaId| 0 <= #[trigger] self.versions[id] <= usize::MAX
        &&& self.deletions.dom() == Set::<ReplicaId>::full()
        &&& forall|id: ReplicaId| 0 <= #[trigger] self.deletions[id] <= u64::MAX
        &&& forall|i: int|
            0 <= i < self.pending_insertions.len() ==> (
            #[trigger] self.pending_insertions[i]).wf()
        &&& forall|i: int|
            0 <= i < self.pending_deletions.len() ==> (#[trigger] self.pending_deletions[i]).wf()
    }

    /// The characters of the buffer.
    pub open spec fn buffer(self) -> Seq<CharId> {
        visible(self.doc)
    }

    /// The text that an insertion of the given length into the buffer brings.
    pub open spec fn next_text(self, len: int) -> Text {
        Text {
            inserted_by: self.id,
            start: self.versions[self.id] as usize,
            end: (self.versions[self.id] + len) as usize,
        }
    }

    /// Whether an insertion into the buffer goes on where the last one of this replica ended.
    pub open spec fn carries_on(self, offset: int, len: int) -> bool {
        carries_on(
            self.doc,
            offset,
            self.next_text(len),
            self.insertion_clock,
            self.lamport_clock,
        )
    }

    /// Whether the integers of the machine can hold what an insertion into the buffer makes of the
    /// state.
    pub open spec fn has_room_to_insert(self, offset: int, len: int) -> bool {
        &&& self.buffer().len() + len <= usize::MAX
        &&& self.versions[self.id] + len <= usize::MAX
        &&& self.carries_on(offset, len) || (self.insertion_clock.0 < u64::MAX
            && self.lamport_clock.0 < u64::MAX)
    }

    /// What the other replicas are told of an insertion into the buffer.
    pub open spec fn insertion_made(self, offset: int, len: int) -> Insertion {
        Insertion {
            anchor: insertion_anchor(self.doc, offset),
            anchor_ts: insertion_anchor_ts(self.doc, offset),
            text: self.next_text(len),
            lamport_ts: if self.carries_on(offset, len) {
                self.lamport_clock.last()
            } else {
                self.lamport_clock.0
            },
            insertion_ts: if self.carries_on(offset, len) {
                self.insertion_clock.last()
            } else {
                self.insertion_clock.0
            },
        }
    }

    /// The state after an insertion into the buffer.
    pub open spec fn inserted(self, offset: int, len: int) -> ReplicaView {
        let insertion = self.insertion_made(offset, len);
        let tick: int = if self.carries_on(offset, len) {
            0
        } else {
            1
        };
        ReplicaView {
            doc: splice(
                self.doc,
                place_of(self.doc, offset),
                EditRun::of(insertion).chars(),
            ),
            lamport_clock: LamportClock((self.lamport_clock.0 + tick) as u64),
            insertion_clock: InsertionClock((self.insertion_clock.0 + tick) as u64),
            versions: self.versions.insert(self.id, self.versions[self.id] + len),
            ..self
        }
    }

    /// What the other replicas are told of a deletion from the buffer.
    pub open spec fn deletion_made(self, start: int, end: int) -> DeletionView {
        let first = self.doc[index_of_visible(self.doc, start)].id;
        let last = self.doc[place_of(self.doc, end) - 1].id;
        DeletionView {
            by: self.id,
            start: Anchor { replica_id: first.by, character_ts: first.ts as usize },
            end: Anchor { replica_id: last.by, character_ts: (last.ts + 1) as usize },
            versions: self.versions,
            deletion_ts: self.deletions[self.id] + 1,
        }
    }

    /// The state after a deletion from the buffer.
    pub open spec fn deleted(self, start: int, end: int) -> ReplicaView {
        ReplicaView {
            doc: delete_between(
                self.doc,
                index_of_visible(self.doc, start),
                place_of(self.doc, end),
            ),
            deletions: self.deletions.insert(self.id, self.deletions[self.id] + 1),
            ..self
        }
    }

    /// The state of a replica forked from this one.
    pub open spec fn forked(self, new_id: ReplicaId) -> ReplicaView {
        ReplicaView {
            id: new_id,
            insertion_clock: InsertionClock(0),
            lamport_clock: LamportClock((self.lamport_clock.0 + 1) as u64),
            versions: self.versions.insert(new_id, 0),
            deletions: self.deletions.insert(new_id, 0),
            ..self
        }
    }

    pub open spec fn has_merged_insertion(self, insertion: Insertion) -> bool {
        self.versions[insertion.text.inserted_by] > insertion.text.start
    }

    pub open spec fn has_merged_deletion(self, deletion: DeletionView) -> bool {
        self.deletions[deletion.by] >= deletion.deletion_ts
    }

    /// The insertion is the next one of its replica, and what it is anchored to is there.
    pub open spec fn can_merge_insertion(self, insertion: Insertion) -> bool {
        &&& self.versions[insertion.text.inserted_by] == insertion.text.start
        &&& self.versions[insertion.anchor.replica_id] >= insertion.anchor.character_ts
    }

    /// The deletion is the next one of its replica, and what that replica had seen is there.
    pub open spec fn can_merge_deletion(self, deletion: DeletionView) -> bool {
        &&& self.deletions[deletion.by] + 1 == deletion.deletion_ts
        &&& forall|id: ReplicaId| #[trigger] self.versions[id] >= deletion.versions[id]
    }

    /// Where in the text an insertion goes.
    pub open spec fn place_of_insertion(self, insertion: Insertion) -> int {
        merge_place(
            self.doc,
            insertion.anchor,
            insertion.lamport_ts,
            insertion.text.inserted_by,
        )
    }

    /// Where in the buffer an insertion goes.
    pub open spec fn offset_of_insertion(self, insertion: Insertion) -> int {
        visible(self.doc.take(self.place_of_insertion(insertion))).len() as int
    }

    /// The state after the integration of an insertion.
    pub open spec fn with_insertion(self, insertion: Insertion) -> ReplicaView {
        let latest: int = if self.lamport_clock.0 >= insertion.lamport_ts {
            self.lamport_clock.0 as int
        } else {
            insertion.lamport_ts as int
        };
        ReplicaView {
            doc: splice(
                self.doc,
                self.place_of_insertion(insertion),
                EditRun::of(insertion).chars(),
            ),
            lamport_clock: LamportClock((latest + 1) as u64),
            versions: self.versions.insert(
                insertion.text.inserted_by,
                insertion.text.end as int,
            ),
            ..self
        }
    }

    /// The state after the integration of a deletion.
    pub open spec fn with_deletion(self, deletion: DeletionView) -> ReplicaView {
        ReplicaView {
            doc: delete_known_between(
                self.doc,
                index_of_char(self.doc, char_after(deletion.start)),
                index_of_char(self.doc, char_before(deletion.end)) + 1,
                deletion.versions,
            ),
            deletions: self.deletions.insert(deletion.by, deletion.deletion_ts),
            ..self
        }
    }

    /// The state in which an insertion waits.
    pub open spec fn awaiting_insertion(self, insertion: Insertion) -> ReplicaView {
        if awaits_insertion(self.pending_insertions, insertion) {
            self
        } else {
            ReplicaView {
                pending_insertions: self.pending_insertions.push(insertion),
                ..self
            }
        }
    }

    /// The state in which a deletion waits.
    pub open spec fn awaiting_deletion(self, deletion: DeletionView) -> ReplicaView {
        if awaits_deletion(self.pending_deletions, deletion) {
            self
        } else {
            ReplicaView { pending_deletions: self.pending_deletions.push(deletion), ..self }
        }
    }

    /// Whether merging an edit changes the text right away.
    pub open spec fn takes(self, edit: EditView) -> bool {
        match edit {
            EditView::Insertion(insertion) => !self.has_merged_insertion(insertion)
                && self.can_merge_insertion(insertion),
            EditView::Deletion(deletion) => !self.has_merged_deletion(deletion)
                && self.can_merge_deletion(deletion),
            EditView::NoOp => false,
        }
    }

    /// The state after an edit has been merged.
    pub open spec fn merged(self, edit: EditView) -> ReplicaView {
        match edit {
            EditView::Insertion(insertion) => {
                if self.has_merged_insertion(insertion) {
                    self
                } else if self.can_merge_insertion(insertion) {
                    self.with_insertion(insertion)
                } else {
                    self.awaiting_insertion(insertion)
                }
            },
            EditView::Deletion(deletion) => {
                if self.has_merged_deletion(deletion) {
                    self
                } else if self.can_merge_deletion(deletion) {
                    self.with_deletion(deletion)
                } else {
                    self.awaiting_deletion(deletion)
                }
            },
            EditView::NoOp => self,
        }
    }

    /// Whether the edit has been merged or waits.
    pub open spec fn has_received(self, edit: EditView) -> bool {
        match edit {
            EditView::Insertion(insertion) => self.has_merged_insertion(insertion)
                || awaits_insertion(self.pending_insertions, insertion),
            EditView::Deletion(deletion) => self.has_merged_deletion(deletion) || awaits_deletion(
                self.pending_deletions,
                deletion,
            ),
            EditView::NoOp => true,
        }
    }

    /// The text edit tells a peer what an edit that has just been integrated does to its buffer.
    pub open spec fn tells(self, edit: EditView, text_edit: TextEdit) -> bool {
        match edit {
            EditView::Insertion(insertion) => {
                text_edit matches TextEdit::Insertion(offset, text) && offset
                    == self.offset_of_insertion(insertion) && text == insertion.text
            },
            EditView::Deletion(deletion) => is_deletion_edit(
                text_edit,
                self.doc,
                self.with_deletion(deletion).doc,
            ),
            EditView::NoOp => false,
        }
    }

    /// Whether the integers of the machine can hold what an insertion makes of the state.
    pub open spec fn has_room_for(self, insertion: Insertion) -> bool {
        &&& self.lamport_clock.0 < u64::MAX
        &&& self.buffer().len() + insertion.text.spec_len() <= usize::MAX
    }

    /// Whether the integers of the machine can hold what an edit makes of the state.
    pub open spec fn has_room_to_merge(self, edit: EditView) -> bool {
        edit matches EditView::Insertion(insertion) ==> self.has_room_for(insertion)
    }

    /// Whether the insertion is the first of those that wait that can be integrated.
    pub open spec fn first_ready_insertion(self, i: int) -> bool {
        &&& 0 <= i < self.pending_insertions.len()
        &&& self.can_merge_insertion(self.pending_insertions[i])
        &&& forall|j: int|
            0 <= j < i ==> !self.can_merge_insertion(#[trigger] self.pending_insertions[j])
    }

    /// Whether the deletion is the first of those that wait that can be integrated.
    pub open spec fn first_ready_deletion(self, i: int) -> bool {
        &&& 0 <= i < self.pending_deletions.len()
        &&& self.can_merge_deletion(self.pending_deletions[i])
        &&& forall|j: int|
            0 <= j < i ==> !self.can_merge_deletion(#[trigger] self.pending_deletions[j])
    }

    /// No insertion that waits can be integrated.
    pub open spec fn no_ready_insertion(self) -> bool {
        forall|j: int|
            0 <= j < self.pending_insertions.len() ==> !self.can_merge_insertion(
                #[trigger] self.pending_insertions[j],
            )
    }

    /// No deletion that waits can be integrated.
    pub open spec fn no_ready_deletion(self) -> bool {
        forall|j: int|
            0 <= j < self.pending_deletions.len() ==> !self.can_merge_deletion(
                #[trigger] self.pending_deletions[j],
            )
    }

    /// The state after the integration of an insertion that has waited.
    pub open spec fn with_pending_insertion(self, i: int) -> ReplicaView {
        ReplicaView {
            pending_insertions: self.pending_insertions.remove(i),
            ..self.with_insertion(self.pending_insertions[i])
        }
    }

    /// The state after the integration of a deletion that has waited.
    pub open spec fn with_pending_deletion(self, i: int) -> ReplicaView {
        ReplicaView {
            pending_deletions: self.pending_deletions.remove(i),
            ..self.with_deletion(self.pending_deletions[i])
        }
    }

    /// Whether the integration of the first edit that has waited long enough, if there is one,
    /// leads to the given state. Insertions come before deletions.
    pub open spec fn drains_into(self, after: ReplicaView, text_edit: Option<TextEdit>) -> bool {
        &&& forall|i: int|
            #[trigger] self.first_ready_insertion(i) ==> {
                &&& after == self.with_pending_insertion(i)
                &&& text_edit matches Some(edit) && self.tells(
                    EditView::Insertion(self.pending_insertions[i]),
                    edit,
                )
            }
        &&& forall|i: int|
            self.no_ready_insertion() && #[trigger] self.first_ready_deletion(i) ==> {
                &&& after == self.with_pending_deletion(i)
                &&& text_edit matches Some(edit) && self.tells(
                    EditView::Deletion(self.pending_deletions[i]),
                    edit,
                )
            }
        &&& self.no_ready_insertion() && self.no_ready_deletion() ==> text_edit is None && after
            == self
    }
}

} // verus!
