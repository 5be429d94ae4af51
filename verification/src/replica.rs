//! A replica of a shared text.

use std::ops::Range;

use vstd::prelude::*;
use vstd::std_specs::convert::IntoSpec;
use vstd::string::StringExecFns;

use crate::anchor::Anchor;
use crate::backlog::{deletion_views, BackLog};
use crate::clocks::{InsertionClock, LamportClock};
use crate::crdt_edit::{CrdtEdit, CrdtEditKind, Deletion, EditView, Insertion};
use crate::debug;
use crate::debug::{append_hex, hex, DebugAsBtree, DebugAsSelf};
use crate::edit_laws::law_what_is_told_of_deleting;
use crate::edit_run::{lemma_doc_char, lemma_visible_run, EditRun};
use crate::encode;
use crate::encode::{deletion_of, parts, parts_of, refusal, EncodedFields, ReplicaParts};
use crate::encoded_replica::{
    checksum, spec_checksum, DecodeError, EncodedReplica, PROTOCOL_VERSION,
};
use crate::laws::{
    law_deletions_keep_the_buffer_up_to_date, law_insertions_keep_the_buffer_up_to_date,
    law_text_edits_keep_the_buffer_up_to_date,
};
use crate::layout::{cut_of, lemma_cut, lemma_erased, lemma_erased_between, Layout, Span, Spot};
use crate::maps::{DeletionMap, VersionMap};
use crate::merge_laws::{law_the_next_deletion_is_taken, law_the_next_insertion_is_taken};
use crate::merged_deletion::MergedDeletion;
use crate::model::{
    apply_text_edit, complete, has_char, lemma_place, lemma_same_ids_complete,
    lemma_splice_complete, place_of, text_ids, CharId,
};
use crate::offset_range::{
    end_offset, first_offset, range_bounds_to_start_end, same_offsets, OffsetRange,
};
use crate::parts::{new_parts, EditModel};
use crate::replica_id::ReplicaId;
use crate::run_indices::{indexes, lemma_fragments_of, names_of, RunIndices};
use crate::run_tree::{empty_runs, permutes, placed, runs_of, InsertionOutcome, RunTree};
use crate::state::{new_state, ReplicaView};
use crate::text::{Length, Text, TextEdit};
use crate::tree_deletion::{Cut, DeletionOutcome};
use crate::wire::{same, Wire};

verus! {

/// A CRDT for text.
///
/// It lets several peers edit the same text concurrently, and makes sure that all of them end up
/// with the same text without a central server that coordinates them.
///
/// A `Replica` does not store the text. A peer tells it how its buffer changes, by
/// [`inserted`](Replica::inserted) and [`deleted`](Replica::deleted), and sends the [`CrdtEdit`]s
/// that come back to the other peers. These hand them to [`merge`](Replica::merge), which tells
/// them by a [`TextEdit`] how their buffer should change, with everything taken into account that
/// has happened concurrently.
///
/// The first peer of a session makes its replica with [`new`](Replica::new), the others get theirs
/// from a replica of the session with [`fork`](Replica::fork) or with
/// [`encode`](Replica::encode) and [`decode`](Replica::decode).
pub struct Replica {
    id: ReplicaId,
    /// The text.
    run_tree: RunTree,
    /// Finds the run of a character.
    run_indices: RunIndices,
    lamport_clock: LamportClock,
    insertion_clock: InsertionClock,
    /// How many characters of each replica have been integrated.
    version_map: VersionMap,
    /// Which deletions of each replica have been integrated.
    deletion_map: DeletionMap,
    /// Edits that wait for what they depend on.
    backlog: BackLog,
}

impl View for Replica {
    type V = ReplicaView;

    closed spec fn view(&self) -> ReplicaView {
        ReplicaView {
            id: self.id,
            doc: self.run_tree.doc(),
            lamport_clock: self.lamport_clock,
            insertion_clock: self.insertion_clock,
            versions: self.version_map@,
            deletions: self.deletion_map@,
            pending_insertions: self.backlog.insertions@,
            pending_deletions: deletion_views(self.backlog.deletions@),
        }
    }
}

/// All runs that hold text of a replica end where its counted characters end, or before.
proof fn lemma_leaf_ends(tree: RunTree, versions: Map<ReplicaId, int>, i: int)
    requires
        tree.shaped(),
        complete(tree.doc(), versions),
        0 <= i < tree.leaves@.len(),
        tree.leaves@[i].text.start < tree.leaves@[i].text.end,
    ensures
        tree.leaves@[i].text.end <= versions[tree.leaves@[i].text.inserted_by],
{
    assert(placed(tree.order@, i));
    let p = choose|p: int| 0 <= p < tree.order@.len() && #[trigger] tree.order@[p] == i;
    let leaf = tree.leaves@[i];
    assert(tree.runs()[p] == leaf);
    lemma_doc_char(tree.runs(), p, leaf.spec_len() - 1);
}

/// What is written of a deletion is what it says.
proof fn lemma_deletion_model(deletion: Deletion)
    ensures
        deletion_of(deletion.model()) == deletion@,
{
    assert(deletion_of(deletion.model()).versions =~= deletion@.versions);
}

impl Replica {
    /// What every replica keeps up.
    pub closed spec fn wf(&self) -> bool {
        &&& self.run_tree.wf()
        &&& indexes(self.run_indices.fragments@, self.run_tree.leaves@)
        &&& complete(self.run_tree.doc(), self.version_map@)
        &&& self.version_map.this_id == self.id
        &&& self.deletion_map.this_id == self.id
        &&& self.deletion_map.wf()
        &&& self.backlog.wf()
    }

    /// How its runs lie.
    spec fn layout(&self) -> Layout {
        self.run_tree.layout(names_of(self.run_indices.fragments@))
    }

    /// How its runs lie tells all of them and of their fragments.
    proof fn lemma_laid_out(&self, layout: Layout)
        requires
            self.run_tree.lies_as(layout),
            indexes(self.run_indices.fragments@, layout.leaves),
            names_of(self.run_indices.fragments@) == layout.index,
        ensures
            self.parts() == self.parts().laid_out(layout),
    {
        lemma_fragments_of(self.run_indices.fragments@, layout.leaves);
    }

    /// What holds of the state of every replica.
    pub proof fn lemma_wf(&self)
        requires
            self.wf(),
        ensures
            self@.wf(),
            self.has_sound_text(),
    {
        assert(self@.versions.dom() =~= Set::<ReplicaId>::full());
        assert(self@.deletions.dom() =~= Set::<ReplicaId>::full());
        assert forall|i: int| 0 <= i < self@.pending_insertions.len() implies (
        #[trigger] self@.pending_insertions[i]).wf() by {
            assert(self.backlog.insertions@[i].wf());
        }
        assert forall|i: int| 0 <= i < self@.pending_deletions.len() implies (
        #[trigger] self@.pending_deletions[i]).wf() by {
            assert(self.backlog.deletions@[i]@.wf());
        }
    }

    /// Creates the first replica of a session, for a buffer of the given length.
    ///
    /// The other peers of the session get their replicas from this one.
    pub fn new<Id: Into<ReplicaId>>(id: Id, len: Length) -> (replica: Replica)
        ensures
            replica.wf(),
            call_ensures(Id::into, (id,), replica@.id),
            Id::obeys_into_spec() ==> replica@.id == id.into_spec(),
            replica@ == new_state(replica@.id, len as int),
            replica.parts() == new_parts(replica@.id, len),
            replica@.buffer() == text_ids(
                Text { inserted_by: replica@.id, start: 0, end: len },
            ),
    {
        let id: ReplicaId = id.into();
        let mut insertion_clock = InsertionClock::new();
        let mut lamport_clock = LamportClock::new();
        let initial_text = Text::new(id, 0..len);
        let origin_run = EditRun::new(
            Anchor::origin(),
            initial_text,
            insertion_clock.next(),
            lamport_clock.next(),
        );
        let (run_tree, origin_idx) = RunTree::new(origin_run);
        let run_indices = RunIndices::new(id, origin_idx, len);
        let replica = Replica {
            id,
            run_tree,
            run_indices,
            lamport_clock,
            insertion_clock,
            version_map: VersionMap::new(id, len),
            deletion_map: DeletionMap::new(id, 1),
            backlog: BackLog::new(),
        };
        proof {
            assert(replica.run_indices.fragments@[0].idx == 0);
            let doc = replica@.doc;
            let versions = replica@.versions;
            assert forall|c: CharId| 0 <= c.ts < versions[c.by] implies #[trigger] has_char(
                doc,
                c,
            ) by {
                assert(doc[c.ts].id == c);
            }
            assert(replica@ =~= new_state(id, len as int));
            assert(deletion_views(replica.backlog.deletions@).len() == 0);
            assert(replica.parts().backlog.1 =~= new_parts(id, len).backlog.1);
            assert(replica.parts() =~= new_parts(id, len));
            lemma_visible_run(origin_run);
        }
        replica
    }

    /// Brings the index of the runs up to date after an insertion.
    fn handle_insertion_outcome(
        &mut self,
        len: Length,
        outcome: InsertionOutcome,
        Ghost(layout): Ghost<Layout>,
        Ghost(spot): Ghost<Spot>,
        Ghost(run): Ghost<EditRun>,
    )
        requires
            indexes(old(self).run_indices.fragments@, layout.leaves),
            names_of(old(self).run_indices.fragments@) == layout.index,
            permutes(layout.order, layout.leaves.len() as int),
            layout.has_spot(spot),
            outcome == layout.insertion_outcome(spot, run),
            layout.with_run(spot, run).leaves.len() <= usize::MAX,
            run.text.start < run.text.end,
            len == run.text.spec_len(),
            forall|i: int|
                0 <= i < layout.leaves.len() && (#[trigger] layout.leaves[i]).text.inserted_by
                    == run.text.inserted_by && layout.leaves[i].text.start
                    < layout.leaves[i].text.end ==> layout.leaves[i].text.end <= run.text.start,
        ensures
            indexes(final(self).run_indices.fragments@, layout.with_run(spot, run).leaves),
            names_of(final(self).run_indices.fragments@) == layout.with_run(spot, run).index,
            *final(self) == (Replica { run_indices: final(self).run_indices, ..*old(self) }),
    {
        reveal(Layout::with_run);
        reveal(Layout::insertion_outcome);
        let ghost before = layout.leaves;
        match outcome {
            InsertionOutcome::ExtendedLastRun { replica_id } => {
                let ghost i = layout.order[spot->Between_0 - 1] as int;
                self.run_indices.extend_last(replica_id, len, Ghost(before), Ghost(i));
            },
            InsertionOutcome::SplitRun {
                split_id,
                split_insertion,
                split_at_offset,
                split_idx,
                inserted_id,
                inserted_insertion,
                inserted_start,
                inserted_idx,
            } => {
                let ghost i = layout.order[spot->Within_0] as int;
                self.run_indices.append(
                    inserted_id,
                    inserted_insertion,
                    inserted_start,
                    len,
                    inserted_idx,
                    Ghost(before),
                    Ghost(run),
                );
                self.run_indices.split(
                    split_id,
                    split_insertion,
                    split_at_offset,
                    split_idx,
                    Ghost(before.push(run)),
                    Ghost(i),
                );
            },
            InsertionOutcome::InsertedRun { replica_id, insertion_ts, start, inserted_idx } => {
                self.run_indices.append(
                    replica_id,
                    insertion_ts,
                    start,
                    len,
                    inserted_idx,
                    Ghost(before),
                    Ghost(run),
                );
            },
        }
    }

    /// Informs the replica that `len` characters have been inserted into the buffer.
    ///
    /// What is returned is for the other peers.
    pub fn inserted(&mut self, at_offset: Length, len: Length) -> (edit: CrdtEdit)
        requires
            old(self).wf(),
            at_offset <= old(self)@.buffer().len(),
            len > 0 ==> old(self)@.has_room_to_insert(at_offset as int, len as int),
        ensures
            final(self).wf(),
            edit@.wf(),
            len == 0 ==> edit@ == EditView::NoOp && *final(self) == *old(self),
            len > 0 ==> {
                &&& edit@ == EditView::Insertion(
                    old(self)@.insertion_made(at_offset as int, len as int),
                )
                &&& final(self)@ == old(self)@.inserted(at_offset as int, len as int)
                &&& final(self).parts() == old(self).parts().inserted(
                    old(self)@.insertion_clock,
                    at_offset as int,
                    len as int,
                )
                &&& final(self)@.buffer() == apply_text_edit(
                    old(self)@.buffer(),
                    TextEdit::Insertion(at_offset, old(self)@.next_text(len as int)),
                )
            },
    {
        if len == 0 {
            return CrdtEdit::no_op();
        }
        let ghost before = *self;
        let ghost layout = before.layout();
        let ghost spot = layout.spot(place_of(before@.doc, at_offset as int));
        proof {
            before.lemma_wf();
            before.lemma_parts();
            law_insertions_keep_the_buffer_up_to_date(before@, at_offset as int, len as int);
        }
        let start: usize = self.version_map.this();
        *self.version_map.this_mut() += len;
        let end: usize = self.version_map.this();
        let text = Text::new(self.id, start..end);
        proof {
            assert(text == before@.next_text(len as int));
            let leaves = before.run_tree.leaves@;
            assert forall|i: int|
                0 <= i < leaves.len() && (#[trigger] leaves[i]).text.inserted_by
                    == text.inserted_by && leaves[i].text.start
                    < leaves[i].text.end implies leaves[i].text.end <= text.start by {
                lemma_leaf_ends(before.run_tree, before.version_map@, i);
            }
        }
        let (anchor, anchor_ts, outcome) = self.run_tree.insert(
            at_offset,
            text,
            &mut self.insertion_clock,
            &mut self.lamport_clock,
            Ghost(layout.index),
        );
        let ghost run = EditRun {
            anchor,
            text,
            insertion_ts: self.insertion_clock.last(),
            lamport_ts: self.lamport_clock.last(),
            is_deleted: false,
        };
        self.handle_insertion_outcome(len, outcome, Ghost(layout), Ghost(spot), Ghost(run));
        proof {
            lemma_place(before@.doc, at_offset as int);
            lemma_splice_complete(
                before@.doc,
                before@.versions,
                place_of(before@.doc, at_offset as int),
                text,
                anchor,
                run.lamport_ts,
                run.insertion_ts,
            );
            assert(self@ =~= before@.inserted(at_offset as int, len as int));
            assert(run == EditRun::of(before@.insertion_made(at_offset as int, len as int)));
            self.lemma_laid_out(layout.with_run(spot, run));
        }
        CrdtEdit::insertion(
            anchor,
            anchor_ts,
            text,
            self.lamport_clock.last(),
            self.insertion_clock.last(),
        )
    }

    /// Brings the index of the runs up to date after a run has been cut.
    fn handle_cut(
        &mut self,
        cut: Cut,
        Ghost(layout): Ghost<Layout>,
        Ghost(p): Ghost<int>,
        Ghost(character_ts): Ghost<int>,
    )
        requires
            indexes(old(self).run_indices.fragments@, layout.leaves),
            names_of(old(self).run_indices.fragments@) == layout.index,
            layout.named(),
            layout.leaves.len() <= usize::MAX,
            layout.has_spot(Spot::Within(p, character_ts)),
            cut == cut_of(layout.runs()[p], character_ts, layout.leaves.len() as int),
        ensures
            indexes(
                final(self).run_indices.fragments@,
                layout.cut(p, character_ts).leaves,
            ),
            names_of(final(self).run_indices.fragments@) == layout.cut(p, character_ts).index,
            *final(self) == (Replica { run_indices: final(self).run_indices, ..*old(self) }),
    {
        self.run_indices.split(
            cut.0,
            cut.1,
            cut.2,
            cut.3,
            Ghost(layout.leaves),
            Ghost(layout.order[p] as int),
        );
    }

    /// Brings the index of the runs up to date after a deletion from the buffer.
    fn handle_deletion_outcome(
        &mut self,
        outcome: DeletionOutcome,
        Ghost(layout): Ghost<Layout>,
        Ghost(span): Ghost<Span>,
    )
        requires
            indexes(old(self).run_indices.fragments@, layout.leaves),
            names_of(old(self).run_indices.fragments@) == layout.index,
            permutes(layout.order, layout.leaves.len() as int),
            layout.has_span(span),
            layout.len_deleted(span) <= usize::MAX,
            outcome == layout.deletion_outcome(span),
        ensures
            indexes(final(self).run_indices.fragments@, layout.deleted(span).leaves),
            names_of(final(self).run_indices.fragments@) == layout.deleted(span).index,
            *final(self) == (Replica { run_indices: final(self).run_indices, ..*old(self) }),
    {
        reveal(Layout::deleted);
        reveal(Layout::deletion_outcome);
        let ghost p = span.first;
        let ghost run = layout.runs()[p];
        match outcome {
            DeletionOutcome::DeletedAcrossRuns { split_start, split_end } => {
                let ghost shift = layout.shift(span);
                let ghost mid = layout.first_cut(span);
                match split_start {
                    Some(cut) => {
                        self.handle_cut(cut, Ghost(layout), Ghost(p), Ghost(span.from));
                        proof {
                            lemma_cut(layout, p, span.from);
                        }
                    },
                    None => {},
                }
                assert(mid.runs()[span.last + shift] == layout.runs()[span.last]);
                match split_end {
                    Some(cut) => {
                        self.handle_cut(
                            cut,
                            Ghost(mid),
                            Ghost(span.last + shift),
                            Ghost(span.to),
                        );
                    },
                    None => {},
                }
                proof {
                    lemma_erased_between(
                        layout.both_cut(span),
                        self.run_indices.fragments@,
                        p + shift,
                        span.last + shift,
                    );
                }
            },
            DeletionOutcome::DeletedInMiddleOfSingleRun {
                replica_id,
                insertion_ts,
                range,
                idx_of_deleted,
                idx_of_split,
            } => {
                let ghost mid = layout.cut(p, span.from);
                self.handle_cut(
                    (replica_id, insertion_ts, range.start, idx_of_deleted),
                    Ghost(layout),
                    Ghost(p),
                    Ghost(span.from),
                );
                proof {
                    lemma_cut(layout, p, span.from);
                }
                self.handle_cut(
                    (replica_id, insertion_ts, range.end, idx_of_split),
                    Ghost(mid),
                    Ghost(p + 1),
                    Ghost(span.to),
                );
                proof {
                    lemma_erased(mid.cut(p + 1, span.to), self.run_indices.fragments@, p + 1);
                }
            },
            DeletionOutcome::DeletionSplitSingleRun { replica_id, insertion_ts, offset, idx } => {
                let ghost erased = if span.from == run.text.start {
                    p
                } else {
                    p + 1
                };
                self.handle_cut(
                    (replica_id, insertion_ts, offset, idx),
                    Ghost(layout),
                    Ghost(p),
                    Ghost(offset as int),
                );
                proof {
                    lemma_cut(layout, p, offset as int);
                    lemma_erased(
                        layout.cut(p, offset as int),
                        self.run_indices.fragments@,
                        erased,
                    );
                }
            },
            DeletionOutcome::DeletionMergedInPreviousRun {
                replica_id,
                insertion_ts,
                offset,
                deleted,
            } => {
                self.run_indices.move_len_to_prev_split(
                    replica_id,
                    insertion_ts,
                    offset,
                    deleted,
                    Ghost(layout.leaves),
                    Ghost(layout.order[p - 1] as int),
                    Ghost(layout.order[p] as int),
                );
            },
            DeletionOutcome::DeletionMergedInNextRun {
                replica_id,
                insertion_ts,
                offset,
                deleted,
            } => {
                self.run_indices.move_len_to_next_split(
                    replica_id,
                    insertion_ts,
                    offset,
                    deleted,
                    Ghost(layout.leaves),
                    Ghost(layout.order[p] as int),
                    Ghost(layout.order[p + 1] as int),
                );
            },
            DeletionOutcome::DeletedWholeRun => {
                proof {
                    lemma_erased(layout, self.run_indices.fragments@, p);
                }
            },
        }
    }

    /// What the deletion of the part of the buffer from `start` up to `end` makes of the replica,
    /// and what it returns.
    pub open spec fn deletes(self, start: int, end: int, after: Replica, edit: CrdtEdit) -> bool {
        if start == end {
            edit.model() == EditModel::NoOp && after == self
        } else {
            &&& edit@ == EditView::Deletion(self@.deletion_made(start, end))
            &&& edit.model() == EditModel::Deletion(self.parts().deletion_made(start, end))
            &&& after@ == self@.deleted(start, end)
            &&& after.parts() == self.parts().deleted(start, end)
            &&& after@.buffer() == self@.buffer().take(start) + self@.buffer().skip(end)
        }
    }

    /// Ranges of the same offsets delete the same: the same edit comes back, and the replica ends
    /// up in the same state and made of the same parts.
    pub proof fn law_same_offsets_delete_the_same<R: OffsetRange, S: OffsetRange>(
        self,
        range: R,
        after: Replica,
        edit: CrdtEdit,
        other: S,
        other_after: Replica,
        other_edit: CrdtEdit,
    )
        requires
            self.deletes(
                first_offset(range.spec_start_bound(), 0),
                end_offset(range.spec_end_bound(), self@.buffer().len() as int),
                after,
                edit,
            ),
            self.deletes(
                first_offset(other.spec_start_bound(), 0),
                end_offset(other.spec_end_bound(), self@.buffer().len() as int),
                other_after,
                other_edit,
            ),
            same_offsets(range, other, self@.buffer().len() as int),
        ensures
            after@ == other_after@,
            after.parts() == other_after.parts(),
            edit@ == other_edit@,
            edit.model() == other_edit.model(),
    {
    }

    /// Deleting `a..b` takes the characters at the offsets from `a` up to `b` from the buffer, and
    /// no other, whatever the numbers are. The other peers are told the first and the last of them.
    pub proof fn law_deleting_a_range(self, a: usize, b: usize, after: Replica, edit: CrdtEdit)
        requires
            self.wf(),
            a <= b <= self@.buffer().len(),
            self.deletes(
                first_offset(Range { start: a, end: b }.spec_start_bound(), 0),
                end_offset(
                    Range { start: a, end: b }.spec_end_bound(),
                    self@.buffer().len() as int,
                ),
                after,
                edit,
            ),
        ensures
            after@.buffer() == self@.buffer().take(a as int) + self@.buffer().skip(b as int),
            a == b ==> after == self && edit@ == EditView::NoOp,
            a < b ==> {
                &&& edit@ matches EditView::Deletion(deletion)
                &&& deletion.by == self@.id
                &&& deletion.start.replica_id == self@.buffer()[a as int].by
                &&& deletion.start.character_ts == self@.buffer()[a as int].ts
                &&& deletion.end.replica_id == self@.buffer()[b - 1].by
                &&& deletion.end.character_ts == self@.buffer()[b - 1].ts + 1
                &&& deletion.versions == self@.versions
                &&& deletion.deletion_ts == self@.deletions[self@.id] + 1
                &&& after@.deletions == self@.deletions.insert(self@.id, deletion.deletion_ts)
                &&& after@.versions == self@.versions
                &&& after@.lamport_clock == self@.lamport_clock
                &&& after@.insertion_clock == self@.insertion_clock
                &&& after@.pending_insertions == self@.pending_insertions
                &&& after@.pending_deletions == self@.pending_deletions
            },
    {
        self.lemma_wf();
        if a < b {
            law_what_is_told_of_deleting(self@, a as int, b as int);
        } else {
            assert(self@.buffer() =~= self@.buffer().take(a as int) + self@.buffer().skip(
                b as int,
            ));
        }
    }

    /// Informs the replica that the characters in a range of offsets have been deleted from the
    /// buffer.
    ///
    /// What is returned is for the other peers.
    pub fn deleted<R: OffsetRange>(&mut self, range: R) -> (edit: CrdtEdit)
        requires
            old(self).wf(),
            range.has_bounds(),
            first_offset(range.spec_start_bound(), 0) <= end_offset(
                range.spec_end_bound(),
                old(self)@.buffer().len() as int,
            ) <= old(self)@.buffer().len(),
            first_offset(range.spec_start_bound(), 0) < end_offset(
                range.spec_end_bound(),
                old(self)@.buffer().len() as int,
            ) ==> old(self)@.deletions[old(self)@.id] + 1 < u64::MAX,
        ensures
            final(self).wf(),
            edit@.wf(),
            old(self).deletes(
                first_offset(range.spec_start_bound(), 0),
                end_offset(range.spec_end_bound(), old(self)@.buffer().len() as int),
                *final(self),
                edit,
            ),
    {
        let (start, end) = range_bounds_to_start_end(range, 0, self.len());
        if start == end {
            return CrdtEdit::no_op();
        }
        let ghost before = *self;
        proof {
            before.lemma_wf();
            before.lemma_parts();
            law_deletions_keep_the_buffer_up_to_date(before@, start as int, end as int);
        }
        let ghost layout = before.layout();
        let ghost span = layout.span(start as int, end as int);
        let (start_anchor, end_anchor, outcome) = self.run_tree.delete(
            start,
            end,
            Ghost(layout.index),
        );
        self.handle_deletion_outcome(outcome, Ghost(layout), Ghost(span));
        let deletion_ts: u64 = self.deletion_map.this();
        *self.deletion_map.this_mut() += 1;
        let edit = CrdtEdit::deletion(
            start_anchor,
            end_anchor,
            self.version_map.duplicate(),
            deletion_ts,
        );
        proof {
            lemma_same_ids_complete(before@.doc, self@.doc, before@.versions);
            assert(self@ =~= before@.deleted(start as int, end as int));
            let deletion = edit.kind->Deletion_0;
            assert(deletion@.versions.dom() =~= Set::<ReplicaId>::full());
            assert(deletion@ =~= before@.deletion_made(start as int, end as int));
            self.lemma_laid_out(layout.deleted(span));
        }
        edit
    }

    /// Whether an insertion has been integrated.
    fn has_merged_insertion(&self, insertion: &Insertion) -> (b: bool)
        ensures
            b == self@.has_merged_insertion(*insertion),
    {
        self.version_map.get(insertion.inserted_by()) > insertion.start()
    }

    /// Whether a deletion has been integrated.
    fn has_merged_deletion(&self, deletion: &Deletion) -> (b: bool)
        ensures
            b == self@.has_merged_deletion(deletion@),
    {
        self.deletion_map.get(deletion.deleted_by()) >= deletion.deletion_ts
    }

    /// Whether an insertion can be integrated.
    ///
    /// Insertions of a replica are integrated in the order in which they were made, and not before
    /// the character that they are anchored to.
    pub(crate) fn can_merge_insertion(&self, insertion: &Insertion) -> (b: bool)
        ensures
            b == self@.can_merge_insertion(*insertion),
    {
        self.version_map.get(insertion.inserted_by()) == insertion.start() && self.version_map.get(
            insertion.anchor().replica_id(),
        ) >= insertion.anchor().character_ts()
    }

    /// Whether a deletion can be integrated.
    ///
    /// Deletions of a replica are integrated in the order in which they were made, and not before
    /// what the replica had integrated when it made them.
    pub(crate) fn can_merge_deletion(&self, deletion: &Deletion) -> (b: bool)
        requires
            deletion@.wf(),
        ensures
            b == self@.can_merge_deletion(deletion@),
    {
        let seen_all = self.version_map.dominates(&deletion.version_map);
        proof {
            assert(self@.versions == self.version_map@);
            assert(deletion@.versions == deletion.version_map@);
            if !seen_all {
                let id = choose|id: ReplicaId|
                    #[trigger] self.version_map@[id] < deletion.version_map@[id];
                assert(self@.versions[id] < deletion@.versions[id]);
            }
        }
        self.deletion_map.get(deletion.deleted_by()) == deletion.deletion_ts - 1 && seen_all
    }

    /// Integrates an insertion that can be.
    pub(crate) fn merge_unchecked_insertion(&mut self, insertion: &Insertion) -> (edit: TextEdit)
        requires
            old(self).wf(),
            insertion.wf(),
            old(self)@.can_merge_insertion(*insertion),
            old(self)@.has_room_for(*insertion),
        ensures
            final(self).wf(),
            final(self)@ == old(self)@.with_insertion(*insertion),
            final(self).parts() == old(self).parts().with_insertion(*insertion),
            old(self)@.tells(EditView::Insertion(*insertion), edit),
    {
        let ghost before = *self;
        let ghost run = EditRun::of(*insertion);
        let ghost layout = before.layout();
        let ghost spot = layout.spot_of_merged(before@.place_of_insertion(*insertion));
        proof {
            before.lemma_parts();
            assert(before@.versions[insertion.anchor.replica_id]
                >= insertion.anchor.character_ts);
            let leaves = before.run_tree.leaves@;
            assert forall|i: int|
                0 <= i < leaves.len() && (#[trigger] leaves[i]).text.inserted_by
                    == run.text.inserted_by && leaves[i].text.start
                    < leaves[i].text.end implies leaves[i].text.end <= run.text.start by {
                lemma_leaf_ends(before.run_tree, before.version_map@, i);
            }
        }
        let (offset, outcome) = self.run_tree.merge_insertion(
            insertion,
            &self.run_indices,
            Ghost(self.version_map@),
        );
        let len: usize = insertion.len();
        self.handle_insertion_outcome(len, outcome, Ghost(layout), Ghost(spot), Ghost(run));
        let version: usize = self.version_map.get(insertion.inserted_by());
        self.version_map.set(insertion.inserted_by(), version + len);
        self.lamport_clock.update(insertion.lamport_ts());
        proof {
            lemma_splice_complete(
                before@.doc,
                before@.versions,
                before@.place_of_insertion(*insertion),
                insertion.text,
                insertion.anchor,
                insertion.lamport_ts,
                insertion.insertion_ts,
            );
            assert(self@ =~= before@.with_insertion(*insertion));
            self.lemma_laid_out(layout.with_run(spot, run));
        }
        TextEdit::Insertion(offset, *insertion.text())
    }

    /// Integrates a deletion that can be.
    pub(crate) fn merge_unchecked_deletion(&mut self, deletion: &Deletion) -> (edit: Option<
        TextEdit,
    >)
        requires
            old(self).wf(),
            deletion@.wf(),
            old(self)@.can_merge_deletion(deletion@),
        ensures
            final(self).wf(),
            final(self)@ == old(self)@.with_deletion(deletion@),
            final(self).parts() == old(self).parts().with_deletion(deletion@),
            edit matches Some(edit) && old(self)@.tells(EditView::Deletion(deletion@), edit),
    {
        let ghost before = *self;
        proof {
            before.lemma_parts();
            assert forall|id: ReplicaId| #[trigger]
                before.version_map@[id] >= deletion@.versions[id] by {
                assert(before@.versions[id] >= deletion@.versions[id]);
            }
        }
        let outcome = self.run_tree.merge_deletion(
            deletion,
            &mut self.run_indices,
            Ghost(self.version_map@),
        );
        self.deletion_map.set(deletion.deleted_by(), deletion.deletion_ts);
        proof {
            lemma_same_ids_complete(before@.doc, self@.doc, before@.versions);
            assert(self@ =~= before@.with_deletion(deletion@));
            self.lemma_laid_out(before.layout().with_deletion(deletion@));
        }
        match outcome {
            MergedDeletion::Contiguous(range) => Some(TextEdit::ContiguousDeletion(range)),
            MergedDeletion::Split(ranges) => Some(TextEdit::SplitDeletion(ranges)),
        }
    }

    /// Integrates an insertion, or lets it wait.
    fn merge_insertion(&mut self, insertion: &Insertion) -> (edit: Option<TextEdit>)
        requires
            old(self).wf(),
            insertion.wf(),
            !old(self)@.has_merged_insertion(*insertion),
            old(self)@.can_merge_insertion(*insertion) ==> old(self)@.has_room_for(*insertion),
        ensures
            final(self).wf(),
            final(self)@ == old(self)@.merged(EditView::Insertion(*insertion)),
            edit is Some <==> old(self)@.takes(EditView::Insertion(*insertion)),
            final(self).parts() == old(self).parts().merged(EditModel::Insertion(*insertion)),
            edit is None && old(self)@.has_received(EditView::Insertion(*insertion))
                ==> *final(self) == *old(self),
            edit matches Some(edit) ==> old(self)@.tells(EditView::Insertion(*insertion), edit),
    {
        proof {
            self.lemma_parts();
        }
        if self.can_merge_insertion(insertion) {
            Some(self.merge_unchecked_insertion(insertion))
        } else {
            self.backlog.add_insertion(*insertion);
            assert(self@ =~= old(self)@.awaiting_insertion(*insertion));
            None
        }
    }

    /// Integrates a deletion, or lets it wait.
    fn merge_deletion(&mut self, deletion: &Deletion) -> (edit: Option<TextEdit>)
        requires
            old(self).wf(),
            deletion@.wf(),
            !old(self)@.has_merged_deletion(deletion@),
        ensures
            final(self).wf(),
            final(self)@ == old(self)@.merged(EditView::Deletion(deletion@)),
            edit is Some <==> old(self)@.takes(EditView::Deletion(deletion@)),
            final(self).parts() == old(self).parts().merged(
                EditModel::Deletion(deletion.model()),
            ),
            edit is None && old(self)@.has_received(EditView::Deletion(deletion@)) ==> *final(self)
                == *old(self),
            edit matches Some(edit) ==> old(self)@.tells(EditView::Deletion(deletion@), edit),
    {
        proof {
            self.lemma_parts();
            lemma_deletion_model(*deletion);
        }
        if self.can_merge_deletion(deletion) {
            self.merge_unchecked_deletion(deletion)
        } else {
            self.backlog.add_deletion(deletion.duplicate());
            assert(self@ =~= old(self)@.awaiting_deletion(deletion@));
            assert(self.parts() =~= old(self).parts().awaiting_deletion(deletion.model()));
            None
        }
    }

    /// Merges an edit made by another peer, and tells how the buffer has to change, if it does.
    ///
    /// `None` is returned if the edit does nothing, if it was made by this replica, if it has been
    /// merged before, and if it depends on something that has not been merged yet. In the last case
    /// the edit waits: see [`backlogged`](Replica::backlogged).
    ///
    /// A text edit has to be applied to the buffer before anything else happens to the buffer or
    /// to the replica.
    pub fn merge(&mut self, crdt_edit: &CrdtEdit) -> (edit: Option<TextEdit>)
        requires
            old(self).wf(),
            crdt_edit@.wf(),
            old(self)@.takes(crdt_edit@) ==> old(self)@.has_room_to_merge(crdt_edit@),
        ensures
            final(self).wf(),
            final(self)@ == old(self)@.merged(crdt_edit@),
            edit is Some <==> old(self)@.takes(crdt_edit@),
            edit is Some <==> match crdt_edit@ {
                EditView::Insertion(insertion) => {
                    &&& old(self)@.versions[insertion.text.inserted_by] == insertion.text.start
                    &&& insertion.anchor.character_ts
                        <= old(self)@.versions[insertion.anchor.replica_id]
                },
                EditView::Deletion(deletion) => {
                    &&& old(self)@.deletions[deletion.by] + 1 == deletion.deletion_ts
                    &&& forall|id: ReplicaId| #[trigger]
                        deletion.versions[id] <= old(self)@.versions[id]
                },
                EditView::NoOp => false,
            },
            final(self).parts() == old(self).parts().merged(crdt_edit.model()),
            edit is None && old(self)@.has_received(crdt_edit@) ==> *final(self) == *old(self),
            edit matches Some(edit) ==> old(self)@.tells(crdt_edit@, edit) && final(self)@.buffer()
                == apply_text_edit(old(self)@.buffer(), edit),
    {
        proof {
            let v = self@;
            self.lemma_wf();
            self.lemma_parts();
            match crdt_edit@ {
                EditView::Insertion(insertion) => law_the_next_insertion_is_taken(v, insertion),
                EditView::Deletion(deletion) => law_the_next_deletion_is_taken(v, deletion),
                EditView::NoOp => {},
            }
            if crdt_edit.kind is Deletion {
                lemma_deletion_model(crdt_edit.kind->Deletion_0);
            }
            assert forall|edit: TextEdit|
                v.takes(crdt_edit@) && #[trigger] v.tells(crdt_edit@, edit) implies v.merged(
                crdt_edit@,
            ).buffer() == apply_text_edit(v.buffer(), edit) by {
                law_text_edits_keep_the_buffer_up_to_date(v, crdt_edit@, edit);
            }
        }
        match crdt_edit.kind() {
            CrdtEditKind::Insertion(insertion) => {
                if !self.has_merged_insertion(insertion) {
                    self.merge_insertion(insertion)
                } else {
                    None
                }
            },
            CrdtEditKind::Deletion(deletion) => {
                if !self.has_merged_deletion(deletion) {
                    self.merge_deletion(deletion)
                } else {
                    None
                }
            },
            CrdtEditKind::NoOp => None,
        }
    }

    /// The edits that wait.
    fn backlog_mut(&mut self) -> (backlog: &mut BackLog)
        ensures
            *backlog == old(self).backlog,
            *final(self) == (Replica { backlog: *final(backlog), ..*old(self) }),
    {
        &mut self.backlog
    }

    /// Integrates the first edit that has waited long enough, if there is one.
    pub(crate) fn merge_next_backlogged(&mut self) -> (edit: Option<TextEdit>)
        requires
            old(self).wf(),
            forall|i: int|
                #[trigger] old(self)@.first_ready_insertion(i) ==> old(self)@.has_room_for(
                    old(self)@.pending_insertions[i],
                ),
        ensures
            final(self).wf(),
            old(self)@.drains_into(final(self)@, edit),
            old(self).parts().drains_into(final(self).parts()),
            edit is None ==> *final(self) == *old(self),
    {
        let ghost before = *self;
        proof {
            before.lemma_parts();
        }
        let mut i: usize = 0;
        while i < self.backlog.insertions.len()
            invariant
                *self == before,
                before == *old(self),
                before.wf(),
                i <= before@.pending_insertions.len(),
                forall|j: int|
                    0 <= j < i ==> !before@.can_merge_insertion(
                        #[trigger] before@.pending_insertions[j],
                    ),
                forall|k: int|
                    #[trigger] before@.first_ready_insertion(k) ==> before@.has_room_for(
                        before@.pending_insertions[k],
                    ),
            decreases self.backlog.insertions@.len() - i,
        {
            if self.can_merge_insertion(&self.backlog.insertions[i]) {
                assert(before@.first_ready_insertion(i as int));
                let insertion = self.backlog_mut().remove_insertion(i);
                let edit = self.merge_unchecked_insertion(&insertion);
                proof {
                    assert(self@ =~= before@.with_pending_insertion(i as int));
                    assert forall|k: int| #[trigger] before@.first_ready_insertion(k) implies k
                        == i by {
                        if k < i {
                            assert(!before@.can_merge_insertion(before@.pending_insertions[k]));
                        } else if i < k {
                            assert(!before@.can_merge_insertion(
                                before@.pending_insertions[i as int],
                            ));
                        }
                    }
                    assert(!before@.no_ready_insertion()) by {
                        assert(before@.can_merge_insertion(before@.pending_insertions[i as int]));
                    }
                }
                return Some(edit);
            }
            i = i + 1;
        }
        let mut i: usize = 0;
        while i < self.backlog.deletions.len()
            invariant
                *self == before,
                before == *old(self),
                before.wf(),
                before@.no_ready_insertion(),
                i <= before@.pending_deletions.len(),
                forall|j: int|
                    0 <= j < i ==> !before@.can_merge_deletion(
                        #[trigger] before@.pending_deletions[j],
                    ),
            decreases self.backlog.deletions@.len() - i,
        {
            if self.can_merge_deletion(&self.backlog.deletions[i]) {
                assert(before@.first_ready_deletion(i as int));
                let deletion = self.backlog_mut().remove_deletion(i);
                let edit = self.merge_unchecked_deletion(&deletion);
                proof {
                    before.lemma_parts();
                    lemma_deletion_model(deletion);
                    assert(self.parts() =~= before.parts().with_pending_deletion(i as int));
                    assert(self@ =~= before@.with_pending_deletion(i as int));
                    assert forall|k: int| #[trigger] before@.first_ready_deletion(k) implies k
                        == i by {
                        if k < i {
                            assert(!before@.can_merge_deletion(before@.pending_deletions[k]));
                        } else if i < k {
                            assert(!before@.can_merge_deletion(
                                before@.pending_deletions[i as int],
                            ));
                        }
                    }
                    assert(!before@.no_ready_deletion()) by {
                        assert(before@.can_merge_deletion(before@.pending_deletions[i as int]));
                    }
                }
                return edit;
            }
            i = i + 1;
        }
        None
    }

    /// Creates a replica with the same state for another peer of the session.
    ///
    /// This is for peers within one process. Others are sent what [`encode`](Replica::encode)
    /// returns.
    pub fn fork<Id: Into<ReplicaId>>(&self, new_id: Id) -> (replica: Replica)
        requires
            self@.lamport_clock.0 < u64::MAX,
        ensures
            call_ensures(Id::into, (new_id,), replica@.id),
            Id::obeys_into_spec() ==> replica@.id == new_id.into_spec(),
            replica@ == self@.forked(replica@.id),
            replica.parts() == self.parts().forked(replica@.id),
            self.wf() && self@.versions[replica@.id] == 0 ==> replica.wf(),
            self.wf() || self.has_sound_text() ==> replica.has_sound_text(),
    {
        let new_id: ReplicaId = new_id.into();
        let replica = Replica {
            id: new_id,
            run_tree: self.run_tree.duplicate(),
            run_indices: self.run_indices.duplicate(),
            lamport_clock: self.lamport_clock.fork(),
            insertion_clock: InsertionClock::new(),
            version_map: self.version_map.fork(new_id, 0),
            deletion_map: self.deletion_map.fork(new_id, 1),
            backlog: self.backlog.duplicate(),
        };
        proof {
            assert(replica@ =~= self@.forked(new_id));
            if self.wf() && self@.versions[new_id] == 0 {
                assert(replica@.versions =~= self@.versions);
            }
        }
        replica
    }

    /// What is encoded of the replica.
    pub closed spec fn parts(&self) -> ReplicaParts {
        parts(
            self.run_tree,
            self.run_indices,
            self.lamport_clock,
            self.version_map,
            self.deletion_map,
            self.backlog,
        )
    }

    /// What is encoded of a replica is its state, except for what is its own.
    pub proof fn lemma_parts(&self)
        requires
            self.wf(),
        ensures
            self.parts().valid(),
            self.parts().state() == (ReplicaView {
                insertion_clock: InsertionClock(0),
                ..self@
            }),
    {
        let parts = self.parts();
        let state = parts.state();
        assert(state.versions =~= self@.versions);
        assert(state.deletions =~= self@.deletions);
        assert forall|i: int| 0 <= i < state.pending_deletions.len() implies
            state.pending_deletions[i] == self@.pending_deletions[i] by {
            lemma_deletion_model(self.backlog.deletions@[i]);
        }
        assert(state.pending_deletions =~= self@.pending_deletions);
        self.lemma_wf();
    }

    /// What has been encoded of a replica is not refused.
    pub proof fn law_what_has_been_encoded_is_not_refused(&self, encoded: EncodedReplica)
        requires
            self@.lamport_clock.0 < u64::MAX,
            encoded.protocol_version == PROTOCOL_VERSION,
            encoded.checksum.0 == spec_checksum(encoded.bytes@),
            parts_of(encoded.bytes@) == Some(self.parts()),
        ensures
            refusal(encoded) is None,
    {
    }

    /// What is decoded from an encoded replica is what a fork of the replica is: it has the same
    /// state and the same parts, runs, index and maps included.
    pub proof fn law_decoding_is_forking(&self, new_id: ReplicaId)
        requires
            self.wf(),
        ensures
            self.parts().valid(),
            self.parts().state().forked(new_id) == self@.forked(new_id),
            self.parts().forked(new_id).run_tree == self.parts().run_tree,
            self.parts().forked(new_id).run_indices == self.parts().run_indices,
            self.parts().forked(new_id).backlog == self.parts().backlog,
            self.parts().can_fork() <==> self@.lamport_clock.0 < u64::MAX,
            self.parts().state().versions == self@.versions,
    {
        self.lemma_parts();
    }

    /// Encodes the replica as bytes that can be sent to another peer.
    pub fn encode(&self) -> (encoded: EncodedReplica)
        ensures
            encoded.protocol_version == PROTOCOL_VERSION,
            encoded.checksum.0 == spec_checksum(encoded.bytes@),
            encoded.bytes@ == self.parts().bytes(),
            parts_of(encoded.bytes@) == Some(self.parts()),
    {
        let bytes = encode::encode(
            &self.run_tree,
            &self.run_indices,
            &self.lamport_clock,
            &self.version_map,
            &self.deletion_map,
            &self.backlog,
        );
        let checksum = checksum(bytes.as_slice());
        EncodedReplica::new(PROTOCOL_VERSION, checksum, bytes)
    }

    /// Creates a replica for another peer of the session from one that has been encoded.
    ///
    /// Bytes that do not come from [`encode`](Replica::encode) may still be those of some replica.
    /// Whether that replica is sound tells [`is_sound`](Replica::is_sound). Where its clock cannot
    /// go on the bytes are refused as invalid.
    pub fn decode<Id: Into<ReplicaId>>(id: Id, encoded: &EncodedReplica) -> (res: Result<
        Replica,
        DecodeError,
    >)
        ensures
            match refusal(*encoded) {
                Some(error) => res == Err::<Replica, DecodeError>(error),
                None => res is Ok,
            },
            encoded.protocol_version != PROTOCOL_VERSION ==> res == Err::<Replica, DecodeError>(
                DecodeError::DifferentProtocol {
                    encoded_on: encoded.protocol_version,
                    decoding_on: PROTOCOL_VERSION,
                },
            ),
            encoded.protocol_version == PROTOCOL_VERSION && encoded.checksum.0 != spec_checksum(
                encoded.bytes@,
            ) ==> res == Err::<Replica, DecodeError>(DecodeError::ChecksumFailed),
            encoded.protocol_version == PROTOCOL_VERSION && encoded.checksum.0 == spec_checksum(
                encoded.bytes@,
            ) ==> match parts_of(encoded.bytes@) {
                Some(parts) if parts.can_fork() => {
                    &&& res matches Ok(replica)
                    &&& call_ensures(Id::into, (id,), replica@.id)
                    &&& Id::obeys_into_spec() ==> replica@.id == id.into_spec()
                    &&& replica@ == parts.state().forked(replica@.id)
                    &&& replica.parts() == parts.forked(replica@.id)
                    &&& parts.valid() ==> replica.has_sound_text()
                    &&& parts.valid() && parts.state().versions[replica@.id] == 0 ==> replica.wf()
                },
                _ => res == Err::<Replica, DecodeError>(DecodeError::InvalidData),
            },
    {
        if encoded.protocol_version() != PROTOCOL_VERSION {
            return Err(
                DecodeError::DifferentProtocol {
                    encoded_on: encoded.protocol_version(),
                    decoding_on: PROTOCOL_VERSION,
                },
            );
        }
        if *encoded.checksum() != checksum(encoded.bytes()) {
            return Err(DecodeError::ChecksumFailed);
        }
        let fields = match encode::decode(encoded.bytes()) {
            Some(fields) => fields,
            None => {
                return Err(DecodeError::InvalidData);
            },
        };
        let EncodedFields {
            run_tree,
            run_indices,
            lamport_clock,
            mut version_map,
            mut deletion_map,
            backlog,
        } = fields;
        if lamport_clock.0 == u64::MAX {
            return Err(DecodeError::InvalidData);
        }
        let ghost parts = parts_of(encoded.bytes@)->0;
        let ghost versions = version_map@;
        let ghost deletions = deletion_map@;
        let id: ReplicaId = id.into();
        version_map.fork_in_place(id, 0);
        deletion_map.fork_in_place(id, 1);
        let replica = Replica {
            id,
            run_tree,
            run_indices,
            lamport_clock: lamport_clock.fork(),
            insertion_clock: InsertionClock::new(),
            version_map,
            deletion_map,
            backlog,
        };
        proof {
            let state = parts.state();
            assert(state.versions =~= versions);
            assert(state.deletions =~= deletions);
            assert forall|i: int| 0 <= i < state.pending_deletions.len() implies
                state.pending_deletions[i] == replica@.pending_deletions[i] by {
                lemma_deletion_model(replica.backlog.deletions@[i]);
            }
            assert(state.pending_deletions =~= replica@.pending_deletions);
            assert(replica@ =~= state.forked(id));
            if parts.valid() && state.versions[id] == 0 {
                assert(replica@.versions =~= state.versions);
                assert(replica.backlog.wf()) by {
                    assert forall|i: int| 0 <= i < replica.backlog.insertions@.len() implies (
                    #[trigger] replica.backlog.insertions@[i]).wf() by {
                        assert(state.pending_insertions[i].wf());
                    }
                    assert forall|i: int| 0 <= i < replica.backlog.deletions@.len() implies (
                    #[trigger] replica.backlog.deletions@[i])@.wf() by {
                        lemma_deletion_model(replica.backlog.deletions@[i]);
                        assert(state.pending_deletions[i].wf());
                    }
                }
            }
        }
        Ok(replica)
    }

    /// Whether the runs make up a text and the index agrees with them.
    pub closed spec fn has_sound_text(&self) -> bool {
        &&& self.run_tree.wf()
        &&& indexes(self.run_indices.fragments@, self.run_tree.leaves@)
    }

    /// Whether the runs of the replica make up a text and the index of the runs agrees with them.
    ///
    /// That is so after each operation, also of a fork to an id that is in use.
    pub fn assert_invariants(&self) -> (b: bool)
        ensures
            b == self.has_sound_text(),
            self.wf() ==> b,
    {
        self.run_tree.assert_invariants() && self.run_indices.assert_invariants(&self.run_tree)
    }

    /// Whether the replica is sound as a whole. One that has been decoded from bytes of unknown
    /// origin may not be, nor one that has been forked to an id that is in use.
    pub fn is_sound(&self) -> (b: bool)
        ensures
            b == self.wf(),
    {
        self.assert_invariants() && self.run_tree.is_complete(&self.run_indices, &self.version_map)
            && self.version_map.this_id == self.id && self.deletion_map.this_id == self.id
            && self.deletion_map.this_value >= 1 && self.backlog.assert_invariants()
    }

    /// Whether the two replicas have the same text, found in the same way, and the same edits that
    /// wait.
    pub fn eq_decoded(&self, other: &Replica) -> (b: bool)
        ensures
            b == (self.parts().run_tree == other.parts().run_tree && self.parts().run_indices
                == other.parts().run_indices && self.parts().backlog == other.parts().backlog),
    {
        same(&self.run_tree, &other.run_tree) && same(&self.run_indices, &other.run_indices)
            && same(&self.backlog, &other.backlog)
    }

    /// How many runs of the text hold nothing of the buffer, and how many runs there are.
    pub fn empty_leaves(&self) -> (res: (usize, usize))
        requires
            self.wf() || self.has_sound_text(),
        ensures
            res.0 == empty_runs(self.parts().run_tree.0),
            res.1 == self.parts().run_tree.0.len(),
    {
        self.run_tree.count_empty_leaves()
    }

    /// The replica from the inside.
    pub fn debug(&self) -> (res: DebugAsSelf<'_>)
        ensures
            res.id == self@.id,
            res.run_tree.model() == self.parts().run_tree,
            res.run_indices.model() == self.parts().run_indices,
            res.lamport_clock == self@.lamport_clock,
            res.insertion_clock == self@.insertion_clock,
            res.version_map.model() == self.parts().version_map,
            res.deletion_map.model() == self.parts().deletion_map,
            res.backlog.model() == self.parts().backlog,
    {
        debug::Replica {
            id: self.id,
            run_tree: &self.run_tree,
            run_indices: &self.run_indices,
            lamport_clock: self.lamport_clock,
            insertion_clock: self.insertion_clock,
            version_map: &self.version_map,
            deletion_map: &self.deletion_map,
            backlog: &self.backlog,
        }
    }

    /// The replica from the inside, with its runs in the order of the text.
    pub fn debug_as_btree(&self) -> (res: DebugAsBtree<'_>)
        requires
            self.wf() || self.has_sound_text(),
        ensures
            res.id == self@.id,
            res.run_tree.runs@ == runs_of(self.parts().run_tree.0, self.parts().run_tree.1),
            res.run_indices.model() == self.parts().run_indices,
            res.lamport_clock == self@.lamport_clock,
            res.insertion_clock == self@.insertion_clock,
            res.version_map.model() == self.parts().version_map,
            res.deletion_map.model() == self.parts().deletion_map,
            res.backlog.model() == self.parts().backlog,
    {
        debug::Replica {
            id: self.id,
            run_tree: self.run_tree.in_order(),
            run_indices: &self.run_indices,
            lamport_clock: self.lamport_clock,
            insertion_clock: self.insertion_clock,
            version_map: &self.version_map,
            deletion_map: &self.deletion_map,
            backlog: &self.backlog,
        }
    }

    /// The replica from the outside: nothing but its id, in base 16.
    pub fn to_debug_string(&self) -> (s: String)
        ensures
            s@ == "Replica("@ + hex(self@.id.0 as nat) + ")"@,
    {
        let mut s = String::from_str("Replica(");
        append_hex(&mut s, self.id.as_u64());
        s.append(")");
        s
    }

    /// The id of the replica.
    pub fn id(&self) -> (id: ReplicaId)
        ensures
            id == self@.id,
    {
        self.id
    }

    /// The length of the buffer.
    pub fn len(&self) -> (len: Length)
        requires
            self.wf() || self.has_sound_text(),
        ensures
            len == self@.buffer().len(),
    {
        self.run_tree.len()
    }
}

} // verus!
