//! What the peers of a session have done altogether, and what each of them knows of it.

use vstd::prelude::*;

use crate::anchor::Anchor;
use crate::crdt_edit::{DeletionView, EditView, Insertion};
use crate::edit_run::EditRun;
use crate::model::{char_after, char_before, known, Char, CharId};
use crate::replica_id::ReplicaId;
use crate::sorted_text::{grown_from, in_text_order, run_in};
use crate::state::ReplicaView;
use crate::text::Text;
use crate::text_order::{causal, comes_before, keeps, Births};

verus! {

/// All edits that have been made in a session.
#[verifier::ext_equal]
pub struct History {
    /// All characters that have been inserted.
    pub births: Births,
    /// The last character of each insertion.
    pub last_chars: Set<CharId>,
    /// All deletions that have been made, by replica and timestamp.
    pub deletions: Map<(ReplicaId, int), DeletionView>,
}

/// Whether no replica has a larger value in the first map.
pub open spec fn within(a: Map<ReplicaId, int>, b: Map<ReplicaId, int>) -> bool {
    forall|id: ReplicaId| #[trigger] a[id] <= b[id]
}

/// The run that a new replica starts with.
pub open spec fn initial_run(id: ReplicaId, len: int) -> EditRun {
    EditRun {
        anchor: Anchor::origin(),
        text: Text { inserted_by: id, start: 0, end: len as usize },
        insertion_ts: 0,
        lamport_ts: 0,
        is_deleted: false,
    }
}

impl History {
    /// The history of a session that has just been started.
    pub open spec fn initial(id: ReplicaId, len: int) -> History {
        History {
            births: Map::empty(),
            last_chars: Set::empty(),
            deletions: Map::empty(),
        }.with_run(initial_run(id, len))
    }

    /// The history after a run of text has been inserted.
    pub open spec fn with_run(self, run: EditRun) -> History {
        History {
            births: Map::new(
                |id: CharId| self.births.contains_key(id) || run.holds(id),
                |id: CharId|
                    if run.holds(id) {
                        run.chars()[id.ts - run.text.start]
                    } else {
                        self.births[id]
                    },
            ),
            last_chars: if run.spec_len() == 0 {
                self.last_chars
            } else {
                self.last_chars.insert(
                    CharId { by: run.text.inserted_by, ts: run.text.end - 1 },
                )
            },
            ..self
        }
    }

    /// The history after an edit has been made.
    pub open spec fn with_edit(self, edit: EditView) -> History {
        match edit {
            EditView::Insertion(insertion) => self.with_run(EditRun::of(insertion)),
            EditView::Deletion(deletion) => {
                History {
                    deletions: self.deletions.insert(
                        (deletion.by, deletion.deletion_ts),
                        deletion,
                    ),
                    ..self
                }
            },
            EditView::NoOp => self,
        }
    }

    /// Each edit was made by a replica that knew what the edit speaks of.
    pub open spec fn wf(self) -> bool {
        &&& causal(self.births)
        &&& forall|id: CharId| #[trigger]
            self.births.contains_key(id) ==> self.is_of_insertion(id)
        &&& forall|id: CharId| #[trigger]
            self.last_chars.contains(id) ==> self.births.contains_key(id)
        &&& forall|by: ReplicaId, ts: int| #[trigger]
            self.deletions.contains_key((by, ts)) ==> {
                let deletion = self.deletions[(by, ts)];
                &&& deletion.wf()
                &&& deletion.by == by
                &&& deletion.deletion_ts == ts
                &&& self.holds_all(deletion.versions)
            }
        &&& forall|by: ReplicaId, ts: int, earlier: int|
            #[trigger] self.deletions.contains_key((by, ts)) && 1 <= earlier < ts
                ==> #[trigger] self.deletions.contains_key((by, earlier))
    }

    /// All characters that the versions count have been inserted.
    pub open spec fn holds_all(self, versions: Map<ReplicaId, int>) -> bool {
        forall|id: CharId|
            0 <= id.ts < versions[id.by] ==> #[trigger] self.births.contains_key(id)
    }

    /// Whether no insertion of a replica goes on across a position among its characters.
    pub open spec fn is_seam(self, by: ReplicaId, ts: int) -> bool {
        ts == 0 || self.last_chars.contains(CharId { by, ts: ts - 1 })
    }

    /// Whether the edit has been made in this session.
    pub open spec fn has_edit(self, edit: EditView) -> bool {
        match edit {
            EditView::Insertion(insertion) => {
                let text = insertion.text;
                &&& insertion.wf()
                &&& run_in(self.births, EditRun::of(insertion))
                &&& self.is_seam(text.inserted_by, text.start as int)
                &&& self.is_seam(text.inserted_by, text.end as int)
                &&& forall|ts: int|
                    text.start < ts < text.end ==> !#[trigger] self.is_seam(text.inserted_by, ts)
            },
            EditView::Deletion(deletion) => {
                &&& self.deletions.contains_key((deletion.by, deletion.deletion_ts))
                &&& self.deletions[(deletion.by, deletion.deletion_ts)] == deletion
            },
            EditView::NoOp => true,
        }
    }

    /// Whether the character came with an insertion that has been made in this session.
    #[verifier::opaque]
    pub open spec fn is_of_insertion(self, id: CharId) -> bool {
        exists|insertion: Insertion|
            #[trigger] self.has_edit(EditView::Insertion(insertion)) && EditRun::of(
                insertion,
            ).holds(id)
    }

    /// Whether a deletion falls on a character: its replica knew the character, which is not before
    /// the first one and not after the last one that the deletion names.
    pub open spec fn falls_on(self, deletion: DeletionView, id: CharId) -> bool {
        let first = char_after(deletion.start);
        let last = char_before(deletion.end);
        &&& known(deletion.versions, id)
        &&& first == id || comes_before(self.births, first, id)
        &&& id == last || comes_before(self.births, id, last)
    }

    /// Whether one of the deletions that the timestamps count falls on a character.
    pub open spec fn is_deleted(self, deletions: Map<ReplicaId, int>, id: CharId) -> bool {
        exists|by: ReplicaId, ts: int|
            1 <= ts <= deletions[by] && #[trigger] self.falls_on(self.deletions[(by, ts)], id)
    }

    /// Whether a text is what the counted edits have made.
    pub open spec fn makes(
        self,
        doc: Seq<Char>,
        versions: Map<ReplicaId, int>,
        deletions: Map<ReplicaId, int>,
    ) -> bool {
        &&& grown_from(self.births, doc)
        &&& in_text_order(self.births, doc)
        &&& forall|i: int|
            0 <= i < doc.len() ==> (#[trigger] doc[i]).deleted == self.is_deleted(
                deletions,
                doc[i].id,
            )
        &&& forall|by: ReplicaId, ts: int|
            1 <= ts <= deletions[by] ==> #[trigger] self.deletions.contains_key((by, ts))
                && within(self.deletions[(by, ts)].versions, versions)
        &&& forall|id: ReplicaId| self.is_seam(id, #[trigger] versions[id])
    }

    /// Whether the clock of a replica is ahead of all text that the replica has integrated. Only
    /// the last insertion of the replica itself may have the timestamp before the next one.
    pub open spec fn clock_is_ahead(self, v: ReplicaView) -> bool {
        &&& forall|i: int|
            0 <= i < v.doc.len() ==> (#[trigger] v.doc[i]).lamport_ts < v.lamport_clock.0
        &&& forall|i: int, j: int|
            0 <= i < v.doc.len() && 0 <= j < v.doc.len() && (#[trigger] v.doc[i]).id.by == v.id
                && (#[trigger] v.doc[j]).id.by != v.id && v.doc[i].lamport_ts + 1
                == v.lamport_clock.0 ==> v.doc[j].lamport_ts < v.doc[i].lamport_ts
    }

    /// Whether a replica has integrated all its own edits.
    pub open spec fn knows_itself(self, v: ReplicaView) -> bool {
        &&& forall|ts: int| #[trigger]
            self.births.contains_key(CharId { by: v.id, ts }) ==> ts < v.versions[v.id]
        &&& forall|ts: int| #[trigger]
            self.deletions.contains_key((v.id, ts)) ==> ts <= v.deletions[v.id]
    }

    /// Whether the edits that wait have been made in this session.
    pub open spec fn has_pending(self, v: ReplicaView) -> bool {
        &&& forall|i: int|
            0 <= i < v.pending_insertions.len() ==> self.has_edit(
                EditView::Insertion(#[trigger] v.pending_insertions[i]),
            )
        &&& forall|i: int|
            0 <= i < v.pending_deletions.len() ==> self.has_edit(
                EditView::Deletion(#[trigger] v.pending_deletions[i]),
            )
    }

    /// Whether the replica is part of the session.
    pub open spec fn hosts(self, v: ReplicaView) -> bool {
        &&& self.wf()
        &&& v.wf()
        &&& self.makes(v.doc, v.versions, v.deletions)
        &&& self.clock_is_ahead(v)
        &&& self.knows_itself(v)
        &&& self.has_pending(v)
    }

    /// Whether all edits of the session have come to the replica, integrated or not.
    pub open spec fn is_received_by(self, v: ReplicaView) -> bool {
        forall|edit: EditView| #[trigger] self.has_edit(edit) ==> v.has_received(edit)
    }

    /// Whether the replica has integrated all edits of the session.
    pub open spec fn is_integrated_by(self, v: ReplicaView) -> bool {
        &&& forall|id: CharId| #[trigger] self.births.contains_key(id) ==> known(v.versions, id)
        &&& forall|by: ReplicaId, ts: int| #[trigger]
            self.deletions.contains_key((by, ts)) ==> ts <= v.deletions[by]
    }

    /// Whether nothing has been done by the given replica.
    pub open spec fn has_nothing_of(self, id: ReplicaId) -> bool {
        &&& forall|ts: int| !#[trigger] self.births.contains_key(CharId { by: id, ts })
        &&& forall|ts: int| !#[trigger] self.deletions.contains_key((id, ts))
    }

    /// Whether this history goes on where another one ends.
    pub open spec fn continues(self, earlier: History) -> bool {
        &&& keeps(self.births, earlier.births)
        &&& keeps(self.deletions, earlier.deletions)
        &&& earlier.last_chars.subset_of(self.last_chars)
        &&& forall|id: CharId|
            #[trigger] self.last_chars.contains(id) && earlier.births.contains_key(id)
                ==> earlier.last_chars.contains(id)
    }
}

} // verus!
