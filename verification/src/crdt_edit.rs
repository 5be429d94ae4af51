//! The edits that peers exchange.

use vstd::prelude::*;

use crate::anchor::Anchor;
use crate::clocks::{DeletionTs, InsertionTimestamp, LamportTimestamp};
use crate::maps::VersionMap;
use crate::replica_id::ReplicaId;
use crate::text::{Length, Text};

verus! {

/// The insertion of a piece of text.
#[derive(Clone, Copy, Debug, PartialEq, Eq, Structural)]
pub struct Insertion {
    /// The text goes after the character before this anchor.
    pub anchor: Anchor,
    /// The insertion that put that character into the text.
    pub anchor_ts: InsertionTimestamp,
    pub text: Text,
    pub lamport_ts: LamportTimestamp,
    /// The insertions of a replica that carry on where its last one ended share its timestamps.
    pub insertion_ts: InsertionTimestamp,
}

impl Insertion {
    /// What holds of every insertion that a replica makes.
    pub open spec fn wf(&self) -> bool {
        &&& self.text.start < self.text.end
        &&& self.lamport_ts < u64::MAX
    }

    pub fn anchor(&self) -> (anchor: Anchor)
        ensures
            anchor == self.anchor,
    {
        self.anchor
    }

    pub fn inserted_by(&self) -> (id: ReplicaId)
        ensures
            id == self.text.inserted_by,
    {
        self.text.inserted_by
    }

    /// Where the text starts among the characters inserted by its replica.
    pub fn start(&self) -> (start: Length)
        ensures
            start == self.text.start,
    {
        self.text.start
    }

    pub fn len(&self) -> (len: Length)
        requires
            self.wf(),
        ensures
            len == self.text.spec_len(),
    {
        self.text.len()
    }

    pub fn lamport_ts(&self) -> (ts: LamportTimestamp)
        ensures
            ts == self.lamport_ts,
    {
        self.lamport_ts
    }

    pub fn text(&self) -> (text: &Text)
        ensures
            *text == self.text,
    {
        &self.text
    }

    /// Whether the insertion may come from a replica.
    pub fn is_valid(&self) -> (b: bool)
        ensures
            b == self.wf(),
    {
        self.text.start < self.text.end && self.lamport_ts < u64::MAX
    }
}

/// The deletion of the text between two anchors.
#[derive(Debug)]
pub struct Deletion {
    /// The first deleted character is the one after this anchor.
    pub start: Anchor,
    /// The last deleted character is the one before this anchor.
    pub end: Anchor,
    /// What the replica had integrated when it made the deletion. Other text is left alone.
    pub version_map: VersionMap,
    pub deletion_ts: DeletionTs,
}

/// What a [`Deletion`] says.
#[verifier::ext_equal]
pub struct DeletionView {
    pub by: ReplicaId,
    pub start: Anchor,
    pub end: Anchor,
    pub versions: Map<ReplicaId, int>,
    pub deletion_ts: int,
}

impl DeletionView {
    /// What holds of every deletion that a replica makes.
    pub open spec fn wf(self) -> bool {
        &&& self.start.character_ts < self.versions[self.start.replica_id]
        &&& 1 <= self.end.character_ts <= self.versions[self.end.replica_id]
        &&& 1 <= self.deletion_ts < u64::MAX
        &&& self.versions.dom() == Set::<ReplicaId>::full()
        &&& forall|id: ReplicaId| 0 <= #[trigger] self.versions[id] <= usize::MAX
    }
}

impl Deletion {
    pub open spec fn view(&self) -> DeletionView {
        DeletionView {
            by: self.version_map.this_id,
            start: self.start,
            end: self.end,
            versions: self.version_map@,
            deletion_ts: self.deletion_ts as int,
        }
    }

    pub fn deleted_by(&self) -> (id: ReplicaId)
        ensures
            id == self@.by,
    {
        self.version_map.this_id
    }

    pub fn duplicate(&self) -> (deletion: Deletion)
        ensures
            deletion@ == self@,
            deletion.start == self.start,
            deletion.end == self.end,
            deletion.deletion_ts == self.deletion_ts,
            deletion.version_map.this_value == self.version_map.this_value,
            deletion.version_map.rest.entries@ == self.version_map.rest.entries@,
    {
        Deletion {
            start: self.start,
            end: self.end,
            version_map: self.version_map.duplicate(),
            deletion_ts: self.deletion_ts,
        }
    }

    /// Whether the deletion may come from a replica.
    pub fn is_valid(&self) -> (b: bool)
        ensures
            b == self@.wf(),
    {
        assert(self@.versions.dom() =~= Set::<ReplicaId>::full());
        self.start.character_ts < self.version_map.get(self.start.replica_id)
            && 1 <= self.end.character_ts
            && self.end.character_ts <= self.version_map.get(self.end.replica_id)
            && 1 <= self.deletion_ts
            && self.deletion_ts < u64::MAX
    }
}

/// What a [`CrdtEdit`] does.
#[derive(Debug)]
pub enum CrdtEditKind {
    Insertion(Insertion),
    Deletion(Deletion),
    NoOp,
}

/// What a [`CrdtEdit`] says.
pub enum EditView {
    Insertion(Insertion),
    Deletion(DeletionView),
    NoOp,
}

impl EditView {
    /// What holds of every edit that a replica makes.
    pub open spec fn wf(self) -> bool {
        match self {
            EditView::Insertion(insertion) => insertion.wf(),
            EditView::Deletion(deletion) => deletion.wf(),
            EditView::NoOp => true,
        }
    }

    /// Whether the edit was made by the given replica.
    pub open spec fn made_by(self, id: ReplicaId) -> bool {
        match self {
            EditView::Insertion(insertion) => insertion.text.inserted_by == id,
            EditView::Deletion(deletion) => deletion.by == id,
            EditView::NoOp => false,
        }
    }
}

/// An edit made by one replica, to be merged by the others.
#[derive(Debug)]
pub struct CrdtEdit {
    pub kind: CrdtEditKind,
}

impl CrdtEdit {
    pub open spec fn view(&self) -> EditView {
        match self.kind {
            CrdtEditKind::Insertion(insertion) => EditView::Insertion(insertion),
            CrdtEditKind::Deletion(deletion) => EditView::Deletion(deletion@),
            CrdtEditKind::NoOp => EditView::NoOp,
        }
    }

    pub fn insertion(
        anchor: Anchor,
        anchor_ts: InsertionTimestamp,
        text: Text,
        lamport_ts: LamportTimestamp,
        insertion_ts: InsertionTimestamp,
    ) -> (edit: CrdtEdit)
        ensures
            edit.kind == CrdtEditKind::Insertion(
                Insertion { anchor, anchor_ts, text, lamport_ts, insertion_ts },
            ),
    {
        CrdtEdit {
            kind: CrdtEditKind::Insertion(
                Insertion { anchor, anchor_ts, text, lamport_ts, insertion_ts },
            ),
        }
    }

    pub fn deletion(
        start: Anchor,
        end: Anchor,
        version_map: VersionMap,
        deletion_ts: DeletionTs,
    ) -> (edit: CrdtEdit)
        ensures
            edit.kind == CrdtEditKind::Deletion(Deletion { start, end, version_map, deletion_ts }),
    {
        CrdtEdit {
            kind: CrdtEditKind::Deletion(Deletion { start, end, version_map, deletion_ts }),
        }
    }

    pub fn no_op() -> (edit: CrdtEdit)
        ensures
            edit.kind == CrdtEditKind::NoOp,
    {
        CrdtEdit { kind: CrdtEditKind::NoOp }
    }

    pub fn kind(&self) -> (kind: &CrdtEditKind)
        ensures
            *kind == self.kind,
    {
        &self.kind
    }

    /// Whether the edit may come from a replica.
    pub fn is_valid(&self) -> (b: bool)
        ensures
            b == self@.wf(),
    {
        match &self.kind {
            CrdtEditKind::Insertion(insertion) => insertion.is_valid(),
            CrdtEditKind::Deletion(deletion) => deletion.is_valid(),
            CrdtEditKind::NoOp => true,
        }
    }
}

} // verus!
