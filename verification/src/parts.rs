//! How edits change the parts that a replica is made of.

use vstd::prelude::*;

use crate::anchor::Anchor;
use crate::clocks::{InsertionClock, LamportClock};
use crate::crdt_edit::{CrdtEdit, CrdtEditKind, DeletionView, Insertion};
use crate::edit_run::EditRun;
use crate::encode::{deletion_of, ReplicaParts};
use crate::layout::Layout;
use crate::maps::with_entry;
use crate::model::place_of;
use crate::replica_id::ReplicaId;
use crate::run_indices::{fragment_of, names_of};
use crate::state::{awaits_deletion, awaits_insertion, ReplicaView};
use crate::text::Text;
use crate::wire::{DeletionMapModel, DeletionModel, VersionMapModel, Wire};

verus! {

/// What a [`CrdtEdit`] is made of.
pub enum EditModel {
    Insertion(Insertion),
    Deletion(DeletionModel),
    NoOp,
}

impl CrdtEdit {
    pub open spec fn model(&self) -> EditModel {
        match self.kind {
            CrdtEditKind::Insertion(insertion) => EditModel::Insertion(insertion),
            CrdtEditKind::Deletion(deletion) => EditModel::Deletion(deletion.model()),
            CrdtEditKind::NoOp => EditModel::NoOp,
        }
    }
}

/// The parts of a new replica whose buffer has the given length.
pub open spec fn new_parts(id: ReplicaId, len: usize) -> ReplicaParts {
    let run = EditRun {
        anchor: Anchor::origin(),
        text: Text { inserted_by: id, start: 0, end: len },
        insertion_ts: 0,
        lamport_ts: 0,
        is_deleted: false,
    };
    ReplicaParts {
        run_tree: (seq![run], seq![0usize]),
        run_indices: seq![fragment_of(run, 0)],
        lamport_clock: LamportClock(1),
        version_map: (id, (len, Seq::empty())),
        deletion_map: (id, (1, Seq::empty())),
        backlog: (Seq::empty(), Seq::empty()),
    }
}

/// The map with another number of characters of a replica.
pub open spec fn with_version(
    map: VersionMapModel,
    id: ReplicaId,
    version: usize,
) -> VersionMapModel {
    if id == map.0 {
        (id, (version, map.1.1))
    } else {
        (map.0, (map.1.0, with_entry(map.1.1, id, version)))
    }
}

/// The map with another last deletion of a replica.
pub open spec fn with_deletion_ts(
    map: DeletionMapModel,
    id: ReplicaId,
    ts: int,
) -> DeletionMapModel {
    if id == map.0 {
        (id, ((ts + 1) as u64, map.1.1))
    } else {
        (map.0, (map.1.0, with_entry(map.1.1, id, ts as u64)))
    }
}

impl ReplicaParts {
    /// How the runs lie.
    pub open spec fn layout(self) -> Layout {
        Layout {
            leaves: self.run_tree.0,
            order: self.run_tree.1,
            index: names_of(self.run_indices),
        }
    }

    /// With runs that lie in another way.
    pub open spec fn laid_out(self, layout: Layout) -> ReplicaParts {
        ReplicaParts {
            run_tree: (layout.leaves, layout.order),
            run_indices: layout.fragments(),
            ..self
        }
    }

    /// The parts after an insertion into the buffer.
    pub open spec fn inserted(
        self,
        insertion_clock: InsertionClock,
        offset: int,
        len: int,
    ) -> ReplicaParts {
        let state = ReplicaView { insertion_clock, ..self.state() };
        let insertion = state.insertion_made(offset, len);
        let spot = self.layout().spot(place_of(state.doc, offset));
        ReplicaParts {
            lamport_clock: state.inserted(offset, len).lamport_clock,
            version_map: with_version(self.version_map, state.id, insertion.text.end),
            ..self.laid_out(self.layout().with_run(spot, EditRun::of(insertion)))
        }
    }

    /// What is sent to the other replicas after a deletion from the buffer.
    pub open spec fn deletion_made(self, start: int, end: int) -> DeletionModel {
        let deletion = self.state().deletion_made(start, end);
        (deletion.start, (deletion.end, (self.version_map, self.deletion_map.1.0)))
    }

    /// The parts after a deletion from the buffer.
    pub open spec fn deleted(self, start: int, end: int) -> ReplicaParts {
        let span = self.layout().span(start, end);
        ReplicaParts {
            deletion_map: (
                self.deletion_map.0,
                ((self.deletion_map.1.0 + 1) as u64, self.deletion_map.1.1),
            ),
            ..self.laid_out(self.layout().deleted(span))
        }
    }

    /// The parts after the integration of an insertion.
    pub open spec fn with_insertion(self, insertion: Insertion) -> ReplicaParts {
        let spot = self.layout().spot_of_merged(self.state().place_of_insertion(insertion));
        ReplicaParts {
            lamport_clock: self.state().with_insertion(insertion).lamport_clock,
            version_map: with_version(
                self.version_map,
                insertion.text.inserted_by,
                insertion.text.end,
            ),
            ..self.laid_out(self.layout().with_run(spot, EditRun::of(insertion)))
        }
    }

    /// The parts after the integration of a deletion.
    pub open spec fn with_deletion(self, deletion: DeletionView) -> ReplicaParts {
        ReplicaParts {
            deletion_map: with_deletion_ts(
                self.deletion_map,
                deletion.by,
                deletion.deletion_ts,
            ),
            ..self.laid_out(self.layout().with_deletion(deletion))
        }
    }

    /// The parts when an insertion waits.
    pub open spec fn awaiting_insertion(self, insertion: Insertion) -> ReplicaParts {
        if awaits_insertion(self.backlog.0, insertion) {
            self
        } else {
            ReplicaParts { backlog: (self.backlog.0.push(insertion), self.backlog.1), ..self }
        }
    }

    /// The parts when a deletion waits.
    pub open spec fn awaiting_deletion(self, deletion: DeletionModel) -> ReplicaParts {
        if awaits_deletion(self.state().pending_deletions, deletion_of(deletion)) {
            self
        } else {
            ReplicaParts { backlog: (self.backlog.0, self.backlog.1.push(deletion)), ..self }
        }
    }

    /// The parts after an edit has been merged.
    pub open spec fn merged(self, edit: EditModel) -> ReplicaParts {
        let state = self.state();
        match edit {
            EditModel::Insertion(insertion) => {
                if state.has_merged_insertion(insertion) {
                    self
                } else if state.can_merge_insertion(insertion) {
                    self.with_insertion(insertion)
                } else {
                    self.awaiting_insertion(insertion)
                }
            },
            EditModel::Deletion(deletion) => {
                if state.has_merged_deletion(deletion_of(deletion)) {
                    self
                } else if state.can_merge_deletion(deletion_of(deletion)) {
                    self.with_deletion(deletion_of(deletion))
                } else {
                    self.awaiting_deletion(deletion)
                }
            },
            EditModel::NoOp => self,
        }
    }

    /// The parts after the integration of an insertion that has waited.
    pub open spec fn with_pending_insertion(self, i: int) -> ReplicaParts {
        ReplicaParts {
            backlog: (self.backlog.0.remove(i), self.backlog.1),
            ..self.with_insertion(self.backlog.0[i])
        }
    }

    /// The parts after the integration of a deletion that has waited.
    pub open spec fn with_pending_deletion(self, i: int) -> ReplicaParts {
        ReplicaParts {
            backlog: (self.backlog.0, self.backlog.1.remove(i)),
            ..self.with_deletion(deletion_of(self.backlog.1[i]))
        }
    }

    /// Whether these are the parts after the integration of the first edit that has waited long
    /// enough, if there is one.
    pub open spec fn drains_into(self, after: ReplicaParts) -> bool {
        let state = self.state();
        &&& forall|i: int|
            #[trigger] state.first_ready_insertion(i) ==> after == self.with_pending_insertion(i)
        &&& forall|i: int|
            state.no_ready_insertion() && #[trigger] state.first_ready_deletion(i) ==> after
                == self.with_pending_deletion(i)
        &&& state.no_ready_insertion() && state.no_ready_deletion() ==> after == self
    }
}

} // verus!
