//! What comes of merging an edit, said of the numbers in the edit and in the state.

use vstd::prelude::*;

use crate::crdt_edit::{DeletionView, EditView, Insertion};
use crate::edit_run::EditRun;
use crate::laws::law_text_edits_keep_the_buffer_up_to_date;
use crate::model::{
    has_char, in_ranges, lemma_index_of_char, lemma_skip_outranking_bounds, lemma_visible_cut,
    outranks, skip_outranking, visible, Char, CharId,
};
use crate::replica_id::ReplicaId;
use crate::state::{awaits_deletion, awaits_insertion, same_deletion, same_insertion, ReplicaView};
use crate::text::TextEdit;

verus! {

/// An insertion is taken at once if and only if its text starts where the integrated characters of
/// its replica end, and the character that it is anchored to is among the integrated ones. What
/// else waits does not matter.
pub proof fn law_the_next_insertion_is_taken(v: ReplicaView, insertion: Insertion)
    ensures
        v.takes(EditView::Insertion(insertion)) <==> {
            &&& v.versions[insertion.text.inserted_by] == insertion.text.start
            &&& insertion.anchor.character_ts <= v.versions[insertion.anchor.replica_id]
        },
{
}

/// A deletion is taken at once if and only if it comes right after the last integrated one of its
/// replica, and all text that its replica had integrated is integrated. What else waits does not
/// matter.
pub proof fn law_the_next_deletion_is_taken(v: ReplicaView, deletion: DeletionView)
    ensures
        v.takes(EditView::Deletion(deletion)) <==> {
            &&& v.deletions[deletion.by] + 1 == deletion.deletion_ts
            &&& forall|id: ReplicaId| #[trigger] deletion.versions[id] <= v.versions[id]
        },
{
    if v.deletions[deletion.by] + 1 == deletion.deletion_ts {
        if forall|id: ReplicaId| #[trigger] deletion.versions[id] <= v.versions[id] {
            assert forall|id: ReplicaId| #[trigger] v.versions[id] >= deletion.versions[id] by {
                assert(deletion.versions[id] <= v.versions[id]);
            }
        }
        if v.takes(EditView::Deletion(deletion)) {
            assert forall|id: ReplicaId| #[trigger] deletion.versions[id] <= v.versions[id] by {
                assert(v.versions[id] >= deletion.versions[id]);
            }
        }
    }
}

/// Replicas that differ in nothing but the edits that wait take the same edits, and do the same
/// with those that they take.
pub proof fn law_what_waits_does_not_matter(
    v: ReplicaView,
    w: ReplicaView,
    edit: EditView,
    text_edit: TextEdit,
)
    requires
        w == (ReplicaView {
            pending_insertions: w.pending_insertions,
            pending_deletions: w.pending_deletions,
            ..v
        }),
    ensures
        v.takes(edit) == w.takes(edit),
        v.takes(edit) ==> {
            &&& v.tells(edit, text_edit) == w.tells(edit, text_edit)
            &&& v.merged(edit).pending_insertions == v.pending_insertions
            &&& v.merged(edit).pending_deletions == v.pending_deletions
            &&& w.merged(edit) == (ReplicaView {
                pending_insertions: w.pending_insertions,
                pending_deletions: w.pending_deletions,
                ..v.merged(edit)
            })
        },
{
    match edit {
        EditView::Insertion(insertion) => {
            law_the_next_insertion_is_taken(v, insertion);
            law_the_next_insertion_is_taken(w, insertion);
        },
        EditView::Deletion(deletion) => {
            law_the_next_deletion_is_taken(v, deletion);
            law_the_next_deletion_is_taken(w, deletion);
        },
        EditView::NoOp => {},
    }
}

/// An edit whose replica is further on already changes nothing; one that is neither taken nor old
/// waits, unless the same one does already, and changes nothing else.
pub proof fn law_other_edits_wait_or_change_nothing(
    v: ReplicaView,
    insertion: Insertion,
    deletion: DeletionView,
)
    requires
        insertion.wf(),
        deletion.wf(),
    ensures
        insertion.text.start < v.versions[insertion.text.inserted_by] ==> v.merged(
            EditView::Insertion(insertion),
        ) == v,
        deletion.deletion_ts <= v.deletions[deletion.by] ==> v.merged(
            EditView::Deletion(deletion),
        ) == v,
        insertion.text.start >= v.versions[insertion.text.inserted_by] && !v.takes(
            EditView::Insertion(insertion),
        ) ==> v.merged(EditView::Insertion(insertion)) == (ReplicaView {
            pending_insertions: if exists|i: int|
                0 <= i < v.pending_insertions.len() && (
                #[trigger] v.pending_insertions[i]).text.inserted_by == insertion.text.inserted_by
                    && v.pending_insertions[i].text.start == insertion.text.start {
                v.pending_insertions
            } else {
                v.pending_insertions.push(insertion)
            },
            ..v
        }),
        deletion.deletion_ts > v.deletions[deletion.by] && !v.takes(
            EditView::Deletion(deletion),
        ) ==> v.merged(EditView::Deletion(deletion)) == (ReplicaView {
            pending_deletions: if exists|i: int|
                0 <= i < v.pending_deletions.len() && (#[trigger] v.pending_deletions[i]).by
                    == deletion.by && v.pending_deletions[i].deletion_ts == deletion.deletion_ts {
                v.pending_deletions
            } else {
                v.pending_deletions.push(deletion)
            },
            ..v
        }),
{
    if awaits_insertion(v.pending_insertions, insertion) {
        let i = choose|i: int|
            0 <= i < v.pending_insertions.len() && same_insertion(
                #[trigger] v.pending_insertions[i],
                insertion,
            );
        assert(v.pending_insertions[i].text.start == insertion.text.start);
    } else {
        assert forall|i: int| 0 <= i < v.pending_insertions.len() implies !((
        #[trigger] v.pending_insertions[i]).text.inserted_by == insertion.text.inserted_by
            && v.pending_insertions[i].text.start == insertion.text.start) by {
            assert(!same_insertion(v.pending_insertions[i], insertion));
        }
    }
    if awaits_deletion(v.pending_deletions, deletion) {
        let i = choose|i: int|
            0 <= i < v.pending_deletions.len() && same_deletion(
                #[trigger] v.pending_deletions[i],
                deletion,
            );
        assert(v.pending_deletions[i].by == deletion.by);
    } else {
        assert forall|i: int| 0 <= i < v.pending_deletions.len() implies !((
        #[trigger] v.pending_deletions[i]).by == deletion.by
            && v.pending_deletions[i].deletion_ts == deletion.deletion_ts) by {
            assert(!same_deletion(v.pending_deletions[i], deletion));
        }
    }
}

/// An edit has been received if its replica is further on, or if it is among those that wait.
pub proof fn law_which_edits_have_been_received(
    v: ReplicaView,
    insertion: Insertion,
    deletion: DeletionView,
)
    ensures
        v.has_received(EditView::Insertion(insertion)) <==> insertion.text.start
            < v.versions[insertion.text.inserted_by] || exists|i: int|
            0 <= i < v.pending_insertions.len() && (
            #[trigger] v.pending_insertions[i]).text.inserted_by == insertion.text.inserted_by
                && v.pending_insertions[i].text.start == insertion.text.start,
        v.has_received(EditView::Deletion(deletion)) <==> deletion.deletion_ts
            <= v.deletions[deletion.by] || exists|i: int|
            0 <= i < v.pending_deletions.len() && (#[trigger] v.pending_deletions[i]).by
                == deletion.by && v.pending_deletions[i].deletion_ts == deletion.deletion_ts,
        v.has_received(EditView::NoOp),
{
    if exists|i: int|
        0 <= i < v.pending_insertions.len() && (
        #[trigger] v.pending_insertions[i]).text.inserted_by == insertion.text.inserted_by
            && v.pending_insertions[i].text.start == insertion.text.start {
        let i = choose|i: int|
            0 <= i < v.pending_insertions.len() && (
            #[trigger] v.pending_insertions[i]).text.inserted_by == insertion.text.inserted_by
                && v.pending_insertions[i].text.start == insertion.text.start;
        assert(same_insertion(v.pending_insertions[i], insertion));
    }
    if awaits_insertion(v.pending_insertions, insertion) {
        let i = choose|i: int|
            0 <= i < v.pending_insertions.len() && same_insertion(
                #[trigger] v.pending_insertions[i],
                insertion,
            );
        assert(v.pending_insertions[i].text.start == insertion.text.start);
    }
    if exists|i: int|
        0 <= i < v.pending_deletions.len() && (#[trigger] v.pending_deletions[i]).by == deletion.by
            && v.pending_deletions[i].deletion_ts == deletion.deletion_ts {
        let i = choose|i: int|
            0 <= i < v.pending_deletions.len() && (#[trigger] v.pending_deletions[i]).by
                == deletion.by && v.pending_deletions[i].deletion_ts == deletion.deletion_ts;
        assert(same_deletion(v.pending_deletions[i], deletion));
    }
    if awaits_deletion(v.pending_deletions, deletion) {
        let i = choose|i: int|
            0 <= i < v.pending_deletions.len() && same_deletion(
                #[trigger] v.pending_deletions[i],
                deletion,
            );
        assert(v.pending_deletions[i].by == deletion.by);
    }
}

/// Up to where an insertion passes over the text after its anchor.
proof fn lemma_passed_over(
    doc: Seq<Char>,
    at: int,
    lamport_ts: u64,
    by: ReplicaId,
)
    requires
        0 <= at <= doc.len(),
    ensures
        ({
            let to = skip_outranking(doc, at, lamport_ts, by);
            &&& at <= to <= doc.len()
            &&& forall|i: int|
                at <= i < to ==> outranks(
                    (#[trigger] doc[i]).lamport_ts,
                    doc[i].id.by,
                    lamport_ts,
                    by,
                )
            &&& to < doc.len() ==> !outranks(doc[to].lamport_ts, doc[to].id.by, lamport_ts, by)
        }),
    decreases doc.len() - at,
{
    if at < doc.len() && outranks(doc[at].lamport_ts, doc[at].id.by, lamport_ts, by) {
        lemma_passed_over(doc, at + 1, lamport_ts, by);
    }
}

/// What an insertion that is taken does: its characters go into the text in one piece, at the
/// returned place, and nothing else of the text changes.
///
/// The place is after the character that the insertion is anchored to, or from the start of the
/// text on. Between that character and the place there is nothing but text with a larger
/// timestamp, or with the same one and of a smaller replica, and right after the place there is no
/// such text.
pub proof fn law_what_an_insertion_does(v: ReplicaView, insertion: Insertion) -> (place: int)
    requires
        v.wf(),
        insertion.wf(),
        v.lamport_clock.0 < u64::MAX,
        v.takes(EditView::Insertion(insertion)),
    ensures
        ({
            let after = v.merged(EditView::Insertion(insertion));
            let text = insertion.text;
            let n = text.end - text.start;
            &&& 0 <= place <= v.doc.len()
            &&& after.doc.len() == v.doc.len() + n
            &&& forall|i: int| 0 <= i < place ==> #[trigger] after.doc[i] == v.doc[i]
            &&& forall|i: int| place + n <= i < after.doc.len() ==> #[trigger] after.doc[i]
                == v.doc[i - n]
            &&& forall|i: int|
                place <= i < place + n ==> {
                    let c = #[trigger] after.doc[i];
                    &&& c.id.by == text.inserted_by
                    &&& c.id.ts == text.start + i - place
                    &&& c.lamport_ts == insertion.lamport_ts
                    &&& c.insertion_ts == insertion.insertion_ts
                    &&& !c.deleted
                    &&& i == place ==> c.anchor == insertion.anchor
                    &&& i > place ==> c.anchor.replica_id == text.inserted_by
                        && c.anchor.character_ts == c.id.ts
                }
            &&& after.id == v.id
            &&& after.versions == v.versions.insert(text.inserted_by, text.end as int)
            &&& after.deletions == v.deletions
            &&& after.insertion_clock == v.insertion_clock
            &&& after.lamport_clock.0 == v.lamport_clock.0 + 1 || after.lamport_clock.0
                == insertion.lamport_ts + 1
            &&& after.lamport_clock.0 > v.lamport_clock.0
            &&& after.lamport_clock.0 > insertion.lamport_ts
            &&& after.pending_insertions == v.pending_insertions
            &&& after.pending_deletions == v.pending_deletions
        }),
        insertion.anchor.character_ts > 0 ==> place > 0 && exists|k: int|
            0 <= k < place && (#[trigger] v.doc[k]).id.by == insertion.anchor.replica_id
                && v.doc[k].id.ts == insertion.anchor.character_ts - 1,
        forall|i: int, k: int|
            0 <= i < place && (insertion.anchor.character_ts > 0 ==> 0 <= k < i && (
            #[trigger] v.doc[k]).id.by == insertion.anchor.replica_id && v.doc[k].id.ts
                == insertion.anchor.character_ts - 1) ==> (#[trigger] v.doc[i]).lamport_ts
                > insertion.lamport_ts || (v.doc[i].lamport_ts == insertion.lamport_ts
                && v.doc[i].id.by.0 < insertion.text.inserted_by.0),
        place < v.doc.len() ==> v.doc[place].lamport_ts < insertion.lamport_ts || (
        v.doc[place].lamport_ts == insertion.lamport_ts && v.doc[place].id.by.0
            >= insertion.text.inserted_by.0),
{
    let doc = v.doc;
    let anchor = insertion.anchor;
    let place = v.place_of_insertion(insertion);
    let chars = EditRun::of(insertion).chars();
    if anchor.character_ts == 0 {
        lemma_passed_over(doc, 0, insertion.lamport_ts, insertion.text.inserted_by);
    } else {
        let id = CharId { by: anchor.replica_id, ts: anchor.character_ts - 1 };
        assert(has_char(doc, id));
        let k = choose|k: int| 0 <= k < doc.len() && (#[trigger] doc[k]).id == id;
        lemma_index_of_char(doc, v.versions, k);
        lemma_passed_over(doc, k + 1, insertion.lamport_ts, insertion.text.inserted_by);
        assert forall|i: int, l: int|
            0 <= i < place && 0 <= l < i && (#[trigger] doc[l]).id.by == anchor.replica_id
                && doc[l].id.ts == anchor.character_ts - 1 implies (#[trigger] doc[i]).lamport_ts
            > insertion.lamport_ts || (doc[i].lamport_ts == insertion.lamport_ts && doc[i].id.by.0
            < insertion.text.inserted_by.0) by {
            assert(doc[l].id == doc[k].id);
            if l < k {
                assert(doc[l].id != doc[k].id);
            } else if k < l {
                assert(doc[k].id != doc[l].id);
            }
        }
    }
    assert(v.merged(EditView::Insertion(insertion)).doc == doc.take(place) + chars + doc.skip(
        place,
    ));
    place
}

/// What a deletion that is taken does: of the characters from the first one that it names to the
/// last one, those go that its replica had integrated, and nothing else of the text changes.
pub proof fn law_what_a_deletion_does(v: ReplicaView, deletion: DeletionView) -> (res: (int, int))
    requires
        v.wf(),
        deletion.wf(),
        v.takes(EditView::Deletion(deletion)),
    ensures
        ({
            let after = v.merged(EditView::Deletion(deletion));
            let (first, last) = res;
            &&& 0 <= first < v.doc.len()
            &&& v.doc[first].id.by == deletion.start.replica_id
            &&& v.doc[first].id.ts == deletion.start.character_ts
            &&& 0 <= last < v.doc.len()
            &&& v.doc[last].id.by == deletion.end.replica_id
            &&& v.doc[last].id.ts == deletion.end.character_ts - 1
            &&& after.doc.len() == v.doc.len()
            &&& forall|i: int|
                0 <= i < v.doc.len() ==> {
                    let c = #[trigger] after.doc[i];
                    &&& c.id == v.doc[i].id
                    &&& c.anchor == v.doc[i].anchor
                    &&& c.lamport_ts == v.doc[i].lamport_ts
                    &&& c.insertion_ts == v.doc[i].insertion_ts
                    &&& c.deleted <==> v.doc[i].deleted || (first <= i <= last && c.id.ts
                        < deletion.versions[c.id.by])
                }
            &&& after.id == v.id
            &&& after.versions == v.versions
            &&& after.deletions == v.deletions.insert(deletion.by, deletion.deletion_ts)
            &&& after.lamport_clock == v.lamport_clock
            &&& after.insertion_clock == v.insertion_clock
            &&& after.pending_insertions == v.pending_insertions
            &&& after.pending_deletions == v.pending_deletions
        }),
{
    law_the_next_deletion_is_taken(v, deletion);
    let doc = v.doc;
    let a = CharId { by: deletion.start.replica_id, ts: deletion.start.character_ts as int };
    let b = CharId { by: deletion.end.replica_id, ts: deletion.end.character_ts - 1 };
    assert(deletion.versions[a.by] <= v.versions[a.by]);
    assert(deletion.versions[b.by] <= v.versions[b.by]);
    assert(has_char(doc, a));
    assert(has_char(doc, b));
    let first = choose|k: int| 0 <= k < doc.len() && (#[trigger] doc[k]).id == a;
    let last = choose|k: int| 0 <= k < doc.len() && (#[trigger] doc[k]).id == b;
    lemma_index_of_char(doc, v.versions, first);
    lemma_index_of_char(doc, v.versions, last);
    (first, last)
}

/// What is told of an insertion that is taken: its text, and how much of the buffer comes before
/// it.
pub proof fn law_what_is_told_of_an_insertion(
    v: ReplicaView,
    insertion: Insertion,
    text_edit: TextEdit,
)
    requires
        v.wf(),
        insertion.wf(),
        v.takes(EditView::Insertion(insertion)),
        v.tells(EditView::Insertion(insertion), text_edit),
    ensures
        text_edit matches TextEdit::Insertion(offset, text) && text == insertion.text && {
            let after = v.merged(EditView::Insertion(insertion));
            let n = text.end - text.start;
            &&& offset <= v.buffer().len()
            &&& after.buffer().len() == v.buffer().len() + n
            &&& forall|i: int| 0 <= i < offset ==> #[trigger] after.buffer()[i] == v.buffer()[i]
            &&& forall|i: int|
                offset <= i < offset + n ==> (#[trigger] after.buffer()[i]) == (CharId {
                    by: text.inserted_by,
                    ts: text.start + i - offset,
                })
            &&& forall|i: int| offset + n <= i < after.buffer().len()
                ==> #[trigger] after.buffer()[i] == v.buffer()[i - n]
        },
{
    let edit = EditView::Insertion(insertion);
    law_text_edits_keep_the_buffer_up_to_date(v, edit, text_edit);
    let place = v.place_of_insertion(insertion);
    let anchor = insertion.anchor;
    if anchor.character_ts == 0 {
        lemma_skip_outranking_bounds(v.doc, 0, insertion.lamport_ts, insertion.text.inserted_by);
    } else {
        let id = CharId { by: anchor.replica_id, ts: anchor.character_ts - 1 };
        assert(has_char(v.doc, id));
        let k = choose|k: int| 0 <= k < v.doc.len() && (#[trigger] v.doc[k]).id == id;
        lemma_index_of_char(v.doc, v.versions, k);
        lemma_skip_outranking_bounds(
            v.doc,
            k + 1,
            insertion.lamport_ts,
            insertion.text.inserted_by,
        );
    }
    lemma_visible_cut(v.doc, place);
}

/// What is told of a deletion that is taken: ascending ranges of the buffer that do not touch, none
/// of them empty, which hold the offsets of what goes; a single one as such.
pub proof fn law_what_is_told_of_a_deletion(
    v: ReplicaView,
    deletion: DeletionView,
    text_edit: TextEdit,
) -> (ranges: Seq<(int, int)>)
    requires
        v.wf(),
        deletion.wf(),
        v.takes(EditView::Deletion(deletion)),
        v.tells(EditView::Deletion(deletion), text_edit),
    ensures
        match text_edit {
            TextEdit::Insertion(_, _) => false,
            TextEdit::ContiguousDeletion(range) => {
                ranges == seq![(range.start as int, range.end as int)]
            },
            TextEdit::SplitDeletion(list) => {
                &&& ranges.len() == list@.len()
                &&& ranges.len() != 1
                &&& forall|k: int|
                    0 <= k < ranges.len() ==> (#[trigger] ranges[k]).0 == list@[k].start
                        && ranges[k].1 == list@[k].end
            },
        },
        forall|k: int|
            0 <= k < ranges.len() ==> 0 <= (#[trigger] ranges[k]).0 < ranges[k].1
                <= v.buffer().len(),
        forall|k: int, l: int|
            0 <= k < l < ranges.len() ==> (#[trigger] ranges[k]).1 < (#[trigger] ranges[l]).0,
        forall|i: int|
            0 <= i < v.doc.len() && !(#[trigger] v.doc[i]).deleted ==> (v.merged(
                EditView::Deletion(deletion),
            ).doc[i].deleted <==> exists|k: int|
                0 <= k < ranges.len() && (#[trigger] ranges[k]).0 <= visible(
                    v.doc.take(i),
                ).len() < ranges[k].1),
{
    let list = match text_edit {
        TextEdit::ContiguousDeletion(range) => seq![range],
        TextEdit::SplitDeletion(list) => list@,
        _ => Seq::empty(),
    };
    let ranges = Seq::new(list.len(), |k: int| (list[k].start as int, list[k].end as int));
    let after = v.merged(EditView::Deletion(deletion)).doc;
    if text_edit is ContiguousDeletion {
        assert(ranges =~= seq![
            (
                text_edit->ContiguousDeletion_0.start as int,
                text_edit->ContiguousDeletion_0.end as int,
            ),
        ]);
    }
    assert forall|i: int| 0 <= i < v.doc.len() && !(#[trigger] v.doc[i]).deleted implies (
    after[i].deleted <==> exists|k: int|
        0 <= k < ranges.len() && (#[trigger] ranges[k]).0 <= visible(
            v.doc.take(i),
        ).len() < ranges[k].1) by {
        let x = visible(v.doc.take(i)).len() as int;
        assert(after[i].deleted <==> in_ranges(list, x));
        if in_ranges(list, x) {
            let k = choose|k: int|
                0 <= k < list.len() && (#[trigger] list[k]).start <= x < list[k].end;
            assert(ranges[k].0 <= x < ranges[k].1);
        }
        if exists|k: int| 0 <= k < ranges.len() && (#[trigger] ranges[k]).0 <= x < ranges[k].1 {
            let k = choose|k: int|
                0 <= k < ranges.len() && (#[trigger] ranges[k]).0 <= x < ranges[k].1;
            assert(list[k].start <= x < list[k].end);
        }
    }
    ranges
}

/// The first insertion that waits and whose replica and anchor are there is the next one to come
/// out of the backlog, whatever else stays in it.
pub proof fn law_a_ready_insertion_comes_out(
    v: ReplicaView,
    after: ReplicaView,
    text_edit: Option<TextEdit>,
    i: int,
)
    requires
        v.wf(),
        v.drains_into(after, text_edit),
        0 <= i < v.pending_insertions.len(),
        v.versions[v.pending_insertions[i].text.inserted_by]
            == v.pending_insertions[i].text.start,
        v.pending_insertions[i].anchor.character_ts
            <= v.versions[v.pending_insertions[i].anchor.replica_id],
        forall|j: int|
            0 <= j < i ==> v.versions[(#[trigger] v.pending_insertions[j]).text.inserted_by]
                != v.pending_insertions[j].text.start
                || v.versions[v.pending_insertions[j].anchor.replica_id]
                < v.pending_insertions[j].anchor.character_ts,
    ensures
        text_edit is Some,
        v.tells(EditView::Insertion(v.pending_insertions[i]), text_edit->0),
        after == (ReplicaView {
            pending_insertions: v.pending_insertions.remove(i),
            ..v.merged(EditView::Insertion(v.pending_insertions[i]))
        }),
        after.pending_deletions == v.pending_deletions,
{
    assert(v.first_ready_insertion(i)) by {
        assert forall|j: int| 0 <= j < i implies !v.can_merge_insertion(
            #[trigger] v.pending_insertions[j],
        ) by {
            law_the_next_insertion_is_taken(v, v.pending_insertions[j]);
        }
    }
    law_the_next_insertion_is_taken(v, v.pending_insertions[i]);
}

/// Where no insertion that waits is ready, the first deletion that comes right after the last
/// integrated one of its replica, and whose replica had integrated nothing but what is there, is
/// the next one to come out of the backlog, whatever else stays in it.
pub proof fn law_a_ready_deletion_comes_out(
    v: ReplicaView,
    after: ReplicaView,
    text_edit: Option<TextEdit>,
    i: int,
)
    requires
        v.wf(),
        v.drains_into(after, text_edit),
        forall|j: int|
            0 <= j < v.pending_insertions.len() ==> v.versions[(
            #[trigger] v.pending_insertions[j]).text.inserted_by]
                != v.pending_insertions[j].text.start
                || v.versions[v.pending_insertions[j].anchor.replica_id]
                < v.pending_insertions[j].anchor.character_ts,
        0 <= i < v.pending_deletions.len(),
        v.deletions[v.pending_deletions[i].by] + 1 == v.pending_deletions[i].deletion_ts,
        forall|id: ReplicaId| #[trigger]
            v.pending_deletions[i].versions[id] <= v.versions[id],
        forall|j: int|
            0 <= j < i ==> v.deletions[(#[trigger] v.pending_deletions[j]).by] + 1
                != v.pending_deletions[j].deletion_ts || exists|id: ReplicaId|
                #[trigger] v.pending_deletions[j].versions[id] > v.versions[id],
    ensures
        text_edit is Some,
        v.tells(EditView::Deletion(v.pending_deletions[i]), text_edit->0),
        after == (ReplicaView {
            pending_deletions: v.pending_deletions.remove(i),
            ..v.merged(EditView::Deletion(v.pending_deletions[i]))
        }),
        after.pending_insertions == v.pending_insertions,
{
    assert(v.no_ready_insertion()) by {
        assert forall|j: int| 0 <= j < v.pending_insertions.len() implies !v.can_merge_insertion(
            #[trigger] v.pending_insertions[j],
        ) by {
            law_the_next_insertion_is_taken(v, v.pending_insertions[j]);
        }
    }
    law_the_next_deletion_is_taken(v, v.pending_deletions[i]);
    assert(v.first_ready_deletion(i)) by {
        assert forall|j: int| 0 <= j < i implies !v.can_merge_deletion(
            #[trigger] v.pending_deletions[j],
        ) by {
            law_the_next_deletion_is_taken(v, v.pending_deletions[j]);
        }
    }
}

/// Where nothing that waits is ready nothing comes out of the backlog, and nothing changes.
pub proof fn law_nothing_else_comes_out(
    v: ReplicaView,
    after: ReplicaView,
    text_edit: Option<TextEdit>,
)
    requires
        v.wf(),
        v.drains_into(after, text_edit),
        forall|j: int|
            0 <= j < v.pending_insertions.len() ==> v.versions[(
            #[trigger] v.pending_insertions[j]).text.inserted_by]
                != v.pending_insertions[j].text.start
                || v.versions[v.pending_insertions[j].anchor.replica_id]
                < v.pending_insertions[j].anchor.character_ts,
        forall|j: int|
            0 <= j < v.pending_deletions.len() ==> v.deletions[(
            #[trigger] v.pending_deletions[j]).by] + 1 != v.pending_deletions[j].deletion_ts
                || exists|id: ReplicaId|
                #[trigger] v.pending_deletions[j].versions[id] > v.versions[id],
    ensures
        text_edit is None,
        after == v,
{
    assert forall|j: int| 0 <= j < v.pending_insertions.len() implies !v.can_merge_insertion(
        #[trigger] v.pending_insertions[j],
    ) by {
        law_the_next_insertion_is_taken(v, v.pending_insertions[j]);
    }
    assert forall|j: int| 0 <= j < v.pending_deletions.len() implies !v.can_merge_deletion(
        #[trigger] v.pending_deletions[j],
    ) by {
        law_the_next_deletion_is_taken(v, v.pending_deletions[j]);
    }
}

} // verus!
