//! What comes of the edits that a peer makes itself, here and at the other peers, said of the
//! numbers that the peer gives.

use std::ops::Range;

use vstd::prelude::*;

use crate::crdt_edit::{DeletionView, EditView, Insertion};
use crate::edit_run::EditRun;
use crate::history::History;
use crate::laws::{
    law_convergence, law_deletions_are_shared, law_deletions_keep_the_buffer_up_to_date,
    law_insertions_are_shared, law_insertions_keep_the_buffer_up_to_date,
    law_merging_stays_in_the_session,
};
use crate::merge_laws::{law_the_next_deletion_is_taken, law_the_next_insertion_is_taken};
use crate::model::{
    char_before, complete, has_char, in_ranges, lemma_index_of_char, lemma_place,
    lemma_place_ascends, lemma_skip_outranking_bounds, lemma_visible_all, lemma_visible_concat,
    place_of, separated, visible, Char, CharId,
};
use crate::replica_id::ReplicaId;
use crate::state::{new_state, ReplicaView};
use crate::text::TextEdit;

verus! {

/// The buffer is what is left of the text without its deleted characters: that of two texts in a
/// row is that of the first and that of the second in a row, that of a single character is the
/// character, and that of a deleted one is nothing.
pub proof fn law_the_buffer_is_what_is_not_deleted(a: Seq<Char>, b: Seq<Char>, c: Char)
    ensures
        visible(a + b) == visible(a) + visible(b),
        visible(Seq::<Char>::empty()) == Seq::<CharId>::empty(),
        !c.deleted ==> visible(seq![c]) == seq![c.id],
        c.deleted ==> visible(seq![c]) == Seq::<CharId>::empty(),
{
    lemma_visible_concat(a, b);
    assert(seq![c].drop_last() =~= Seq::<Char>::empty());
    assert(visible(Seq::<Char>::empty()) =~= Seq::<CharId>::empty());
    if !c.deleted {
        assert(visible(seq![c]) =~= seq![c.id]);
    }
}

/// A new replica speaks of a buffer of the given length, whose characters are the first ones of the
/// replica. Nothing has been deleted, and nothing waits.
pub proof fn law_a_new_replica(id: ReplicaId, len: usize)
    ensures
        ({
            let v = new_state(id, len as int);
            &&& v.id == id
            &&& v.buffer().len() == len
            &&& v.doc.len() == len
            &&& forall|i: int|
                0 <= i < len ==> (#[trigger] v.buffer()[i]) == (CharId { by: id, ts: i })
            &&& forall|other: ReplicaId| #[trigger]
                v.versions[other] == if other == id {
                    len as int
                } else {
                    0
                }
            &&& forall|other: ReplicaId| #[trigger] v.deletions[other] == 0
            &&& v.lamport_clock.0 == 1
            &&& v.insertion_clock.0 == 1
            &&& v.pending_insertions.len() == 0
            &&& v.pending_deletions.len() == 0
        }),
{
    lemma_visible_all(new_state(id, len as int).doc);
}

/// A fork has the text, the edits that wait, and the numbers of all other replicas from its source,
/// and starts its own numbers anew, but for its Lamport clock, which is one ahead.
pub proof fn law_a_fork(v: ReplicaView, new_id: ReplicaId)
    requires
        v.wf(),
        v.lamport_clock.0 < u64::MAX,
    ensures
        ({
            let w = v.forked(new_id);
            &&& w.id == new_id
            &&& w.doc == v.doc
            &&& w.buffer() == v.buffer()
            &&& forall|id: ReplicaId| #[trigger]
                w.versions[id] == if id == new_id {
                    0
                } else {
                    v.versions[id]
                }
            &&& forall|id: ReplicaId| #[trigger]
                w.deletions[id] == if id == new_id {
                    0
                } else {
                    v.deletions[id]
                }
            &&& w.lamport_clock.0 == v.lamport_clock.0 + 1
            &&& w.insertion_clock.0 == 0
            &&& w.pending_insertions == v.pending_insertions
            &&& w.pending_deletions == v.pending_deletions
        }),
{
}

/// What an insertion into the buffer does here: the next characters of the replica go to the given
/// offset, and everything else stays.
pub proof fn law_what_inserting_does(v: ReplicaView, offset: int, len: int)
    requires
        v.wf(),
        0 < len,
        0 <= offset <= v.buffer().len(),
        v.has_room_to_insert(offset, len),
    ensures
        ({
            let after = v.inserted(offset, len);
            &&& after.buffer().len() == v.buffer().len() + len
            &&& forall|i: int| 0 <= i < offset ==> #[trigger] after.buffer()[i] == v.buffer()[i]
            &&& forall|i: int|
                offset <= i < offset + len ==> (#[trigger] after.buffer()[i]) == (CharId {
                    by: v.id,
                    ts: v.versions[v.id] + i - offset,
                })
            &&& forall|i: int|
                offset + len <= i < after.buffer().len() ==> #[trigger] after.buffer()[i]
                    == v.buffer()[i - len]
            &&& after.doc.len() == v.doc.len() + len
            &&& after.id == v.id
            &&& forall|id: ReplicaId| #[trigger]
                after.versions[id] == if id == v.id {
                    v.versions[id] + len
                } else {
                    v.versions[id]
                }
            &&& after.deletions == v.deletions
            &&& after.pending_insertions == v.pending_insertions
            &&& after.pending_deletions == v.pending_deletions
        }),
{
    law_insertions_keep_the_buffer_up_to_date(v, offset, len);
    lemma_place(v.doc, offset);
}

/// What the other peers are told of an insertion into the buffer: the new characters, and that they
/// come right after the character of the buffer before them, or at the start of the text. If that
/// is the last character that the replica has inserted, and nothing has happened since, the
/// insertion has the timestamps of that character and the clocks stand still; otherwise it has
/// those of the clocks, which move on by one.
pub proof fn law_what_is_told_of_inserting(v: ReplicaView, offset: int, len: int)
    requires
        v.wf(),
        0 < len,
        0 <= offset <= v.buffer().len(),
        v.has_room_to_insert(offset, len),
    ensures
        ({
            let after = v.inserted(offset, len);
            let insertion = v.insertion_made(offset, len);
            &&& insertion.text.inserted_by == v.id
            &&& insertion.text.start == v.versions[v.id]
            &&& insertion.text.end == v.versions[v.id] + len
            &&& offset == 0 ==> insertion.anchor.character_ts == 0
            &&& offset == 0 ==> insertion.anchor_ts == 0
            &&& offset > 0 ==> insertion.anchor.replica_id == v.buffer()[offset - 1].by
            &&& offset > 0 ==> insertion.anchor.character_ts == v.buffer()[offset - 1].ts + 1
            &&& forall|i: int|
                0 <= i < v.doc.len() && offset > 0 && (#[trigger] v.doc[i]).id
                    == v.buffer()[offset - 1] ==> insertion.anchor_ts == v.doc[i].insertion_ts
            &&& forall|i: int|
                0 <= i < v.doc.len() && offset > 0 && (#[trigger] v.doc[i]).id
                    == v.buffer()[offset - 1] ==> {
                    let goes_on = {
                        &&& v.doc[i].id == (CharId { by: v.id, ts: v.versions[v.id] - 1 })
                        &&& v.doc[i].lamport_ts + 1 == v.lamport_clock.0 || (v.doc[i].lamport_ts
                            == 0 && v.lamport_clock.0 == 0)
                        &&& v.doc[i].insertion_ts + 1 == v.insertion_clock.0 || (
                        v.doc[i].insertion_ts == 0 && v.insertion_clock.0 == 0)
                    };
                    &&& goes_on ==> insertion.lamport_ts == v.doc[i].lamport_ts
                    &&& goes_on ==> insertion.insertion_ts == v.doc[i].insertion_ts
                    &&& goes_on ==> after.lamport_clock == v.lamport_clock
                    &&& goes_on ==> after.insertion_clock == v.insertion_clock
                    &&& !goes_on ==> insertion.lamport_ts == v.lamport_clock.0
                    &&& !goes_on ==> insertion.insertion_ts == v.insertion_clock.0
                    &&& !goes_on ==> after.lamport_clock.0 == v.lamport_clock.0 + 1
                    &&& !goes_on ==> after.insertion_clock.0 == v.insertion_clock.0 + 1
                }
            &&& offset == 0 ==> insertion.lamport_ts == v.lamport_clock.0
            &&& offset == 0 ==> insertion.insertion_ts == v.insertion_clock.0
            &&& offset == 0 ==> after.lamport_clock.0 == v.lamport_clock.0 + 1
            &&& offset == 0 ==> after.insertion_clock.0 == v.insertion_clock.0 + 1
        }),
{
    lemma_place(v.doc, offset);
    let p = place_of(v.doc, offset) - 1;
    assert forall|i: int|
        0 <= i < v.doc.len() && offset > 0 && (#[trigger] v.doc[i]).id == v.buffer()[offset
            - 1] implies i == p by {
        if i < p {
            assert(v.doc[i].id != v.doc[p].id);
        } else if p < i {
            assert(v.doc[p].id != v.doc[i].id);
        }
    }
    if offset > 0 {
        assert(0 <= v.doc[p].id.ts < v.versions[v.doc[p].id.by]);
        assert(v.versions[v.doc[p].id.by] <= usize::MAX);
    }
}

/// What a deletion from the buffer does here: what is at the given offsets goes, and everything
/// else stays.
pub proof fn law_what_deleting_does(v: ReplicaView, start: int, end: int)
    requires
        v.wf(),
        0 <= start < end <= v.buffer().len(),
    ensures
        ({
            let after = v.deleted(start, end);
            &&& after.buffer().len() == v.buffer().len() - (end - start)
            &&& forall|i: int| 0 <= i < start ==> #[trigger] after.buffer()[i] == v.buffer()[i]
            &&& forall|i: int|
                start <= i < after.buffer().len() ==> #[trigger] after.buffer()[i] == v.buffer()[i
                    + (end - start)]
            &&& after.doc.len() == v.doc.len()
            &&& after.id == v.id
            &&& after.versions == v.versions
            &&& forall|id: ReplicaId| #[trigger]
                after.deletions[id] == if id == v.id {
                    v.deletions[id] + 1
                } else {
                    v.deletions[id]
                }
            &&& after.lamport_clock == v.lamport_clock
            &&& after.insertion_clock == v.insertion_clock
            &&& after.pending_insertions == v.pending_insertions
            &&& after.pending_deletions == v.pending_deletions
        }),
{
    law_deletions_keep_the_buffer_up_to_date(v, start, end);
}

/// What the other peers are told of a deletion from the buffer: its first and its last character,
/// all that the replica has integrated, and the number of the deletion.
pub proof fn law_what_is_told_of_deleting(v: ReplicaView, start: int, end: int)
    requires
        v.wf(),
        0 <= start < end <= v.buffer().len(),
    ensures
        ({
            let deletion = v.deletion_made(start, end);
            &&& deletion.by == v.id
            &&& deletion.start.replica_id == v.buffer()[start].by
            &&& deletion.start.character_ts == v.buffer()[start].ts
            &&& deletion.end.replica_id == v.buffer()[end - 1].by
            &&& deletion.end.character_ts == v.buffer()[end - 1].ts + 1
            &&& deletion.versions == v.versions
            &&& deletion.deletion_ts == v.deletions[v.id] + 1
        }),
{
    lemma_place(v.doc, start + 1);
    lemma_place(v.doc, end);
    let a = v.doc[place_of(v.doc, start + 1) - 1].id;
    let b = v.doc[place_of(v.doc, end) - 1].id;
    assert(0 <= a.ts < v.versions[a.by]);
    assert(0 <= b.ts < v.versions[b.by]);
    assert(v.versions[a.by] <= usize::MAX);
    assert(v.versions[b.by] <= usize::MAX);
}

/// There is room for an insertion into the buffer where the buffer, the number of characters of the
/// replica and the clocks leave it.
pub proof fn law_room_to_insert(v: ReplicaView, offset: int, len: int)
    requires
        v.buffer().len() + len <= usize::MAX,
        v.versions[v.id] + len <= usize::MAX,
        v.insertion_clock.0 < u64::MAX,
        v.lamport_clock.0 < u64::MAX,
    ensures
        v.has_room_to_insert(offset, len),
{
}

/// There is room for an edit of another peer where the buffer and the clock leave it, and always
/// for a deletion.
pub proof fn law_room_to_merge(v: ReplicaView, insertion: Insertion, deletion: DeletionView)
    ensures
        v.lamport_clock.0 < u64::MAX && v.buffer().len() + insertion.text.end - insertion.text.start
            <= usize::MAX ==> v.has_room_to_merge(EditView::Insertion(insertion)),
        v.has_room_to_merge(EditView::Deletion(deletion)),
        v.has_room_to_merge(EditView::NoOp),
{
}

/// An insertion goes to the same place at every peer that has integrated the same edits: the peer
/// takes it, ends up with the same text, and is told the offset at which it was made.
pub proof fn law_peers_follow_an_insertion(
    h: History,
    v: ReplicaView,
    w: ReplicaView,
    offset: int,
    len: int,
    text_edit: TextEdit,
)
    requires
        h.hosts(v),
        h.hosts(w),
        v.id != w.id,
        v.versions == w.versions,
        v.deletions == w.deletions,
        0 < len,
        0 <= offset <= v.buffer().len(),
        v.has_room_to_insert(offset, len),
        w.has_room_to_merge(EditView::Insertion(v.insertion_made(offset, len))),
    ensures
        ({
            let edit = EditView::Insertion(v.insertion_made(offset, len));
            &&& w.takes(edit)
            &&& w.merged(edit).doc == v.inserted(offset, len).doc
            &&& w.merged(edit).buffer() == v.inserted(offset, len).buffer()
            &&& w.tells(edit, text_edit) ==> {
                &&& text_edit matches TextEdit::Insertion(at, text)
                &&& at == offset
                &&& text.inserted_by == v.id
                &&& text.start == v.versions[v.id]
                &&& text.end == v.versions[v.id] + len
            }
        }),
{
    lemma_next_insertion(v, w, offset, len);
    lemma_same_text_after_insertion(h, v, w, offset, len);
    if w.tells(EditView::Insertion(v.insertion_made(offset, len)), text_edit) {
        law_convergence(h, v, w);
        lemma_told_where_it_was_made(v, w, offset, len, text_edit);
    }
}

/// An insertion is the next one for a replica that has integrated the same text.
proof fn lemma_next_insertion(v: ReplicaView, w: ReplicaView, offset: int, len: int)
    requires
        v.wf(),
        v.versions == w.versions,
        0 < len,
        0 <= offset <= v.buffer().len(),
        v.has_room_to_insert(offset, len),
    ensures
        w.takes(EditView::Insertion(v.insertion_made(offset, len))),
{
    law_what_is_told_of_inserting(v, offset, len);
    if offset > 0 {
        lemma_place(v.doc, offset);
        let p = place_of(v.doc, offset) - 1;
        assert(v.doc[p].id.ts < v.versions[v.doc[p].id.by]);
    }
    law_the_next_insertion_is_taken(w, v.insertion_made(offset, len));
}

/// Replicas that have integrated the same edits have the same text after an insertion of one of
/// them.
proof fn lemma_same_text_after_insertion(
    h: History,
    v: ReplicaView,
    w: ReplicaView,
    offset: int,
    len: int,
)
    requires
        h.hosts(v),
        h.hosts(w),
        v.id != w.id,
        v.versions == w.versions,
        v.deletions == w.deletions,
        0 < len,
        0 <= offset <= v.buffer().len(),
        v.has_room_to_insert(offset, len),
        w.has_room_to_merge(EditView::Insertion(v.insertion_made(offset, len))),
        w.takes(EditView::Insertion(v.insertion_made(offset, len))),
    ensures
        w.merged(EditView::Insertion(v.insertion_made(offset, len))).doc == v.inserted(
            offset,
            len,
        ).doc,
{
    let edit = EditView::Insertion(v.insertion_made(offset, len));
    let g = h.with_edit(edit);
    let after = v.inserted(offset, len);
    let merged = w.merged(edit);
    law_insertions_are_shared(h, v, offset, len);
    assert(g.hosts(w));
    law_merging_stays_in_the_session(g, w, edit);
    assert(merged.versions =~= after.versions);
    assert(merged.deletions == after.deletions);
    law_convergence(g, merged, after);
}

/// The offset that is told of an insertion is the one at which it was made.
proof fn lemma_told_where_it_was_made(
    v: ReplicaView,
    w: ReplicaView,
    offset: int,
    len: int,
    text_edit: TextEdit,
)
    requires
        v.wf(),
        w.wf(),
        v.doc == w.doc,
        v.versions == w.versions,
        0 < len,
        0 <= offset <= v.buffer().len(),
        v.has_room_to_insert(offset, len),
        w.has_room_to_merge(EditView::Insertion(v.insertion_made(offset, len))),
        w.takes(EditView::Insertion(v.insertion_made(offset, len))),
        w.tells(EditView::Insertion(v.insertion_made(offset, len)), text_edit),
        w.merged(EditView::Insertion(v.insertion_made(offset, len))).doc == v.inserted(
            offset,
            len,
        ).doc,
    ensures
        text_edit matches TextEdit::Insertion(at, text) && at == offset && text == v.next_text(len),
{
    let insertion = v.insertion_made(offset, len);
    let chars = EditRun::of(insertion).chars();
    let place = w.place_of_insertion(insertion);
    lemma_place(v.doc, offset);
    law_the_next_insertion_is_taken(w, insertion);
    if insertion.anchor.character_ts == 0 {
        lemma_skip_outranking_bounds(w.doc, 0, insertion.lamport_ts, insertion.text.inserted_by);
    } else {
        let id = char_before(insertion.anchor);
        assert(has_char(w.doc, id));
        let k = choose|k: int| 0 <= k < w.doc.len() && (#[trigger] w.doc[k]).id == id;
        lemma_index_of_char(w.doc, w.versions, k);
        lemma_skip_outranking_bounds(
            w.doc,
            k + 1,
            insertion.lamport_ts,
            insertion.text.inserted_by,
        );
    }
    assert(0 <= place <= w.doc.len());
    lemma_same_place(v.doc, v.versions, place_of(v.doc, offset), place, chars);
}

/// New characters that make the same text of a text are at the same place.
proof fn lemma_same_place(
    doc: Seq<Char>,
    versions: Map<ReplicaId, int>,
    p: int,
    q: int,
    chars: Seq<Char>,
)
    requires
        complete(doc, versions),
        0 <= p <= doc.len(),
        0 <= q <= doc.len(),
        chars.len() > 0,
        chars[0].id.ts >= versions[chars[0].id.by],
        doc.take(p) + chars + doc.skip(p) == doc.take(q) + chars + doc.skip(q),
    ensures
        p == q,
{
    let a = doc.take(p) + chars + doc.skip(p);
    let b = doc.take(q) + chars + doc.skip(q);
    assert(a[p] == chars[0]);
    assert(b[q] == chars[0]);
    if p < q {
        assert(b[p] == doc[p]);
    } else if q < p {
        assert(a[q] == doc[q]);
    }
}

/// A deletion takes the same from the buffer of every peer that has integrated the same edits: the
/// peer takes it, ends up with the same text, and is told the offsets between which it was made.
pub proof fn law_peers_follow_a_deletion(
    h: History,
    v: ReplicaView,
    w: ReplicaView,
    start: int,
    end: int,
    text_edit: TextEdit,
)
    requires
        h.hosts(v),
        h.hosts(w),
        v.id != w.id,
        v.versions == w.versions,
        v.deletions == w.deletions,
        0 <= start < end <= v.buffer().len(),
        v.deletions[v.id] + 1 < u64::MAX,
    ensures
        ({
            let edit = EditView::Deletion(v.deletion_made(start, end));
            &&& w.takes(edit)
            &&& w.merged(edit).doc == v.deleted(start, end).doc
            &&& w.merged(edit).buffer() == v.deleted(start, end).buffer()
            &&& w.tells(edit, text_edit) ==> {
                &&& text_edit matches TextEdit::ContiguousDeletion(range)
                &&& range.start == start
                &&& range.end == end
            }
        }),
{
    let deletion = v.deletion_made(start, end);
    let edit = EditView::Deletion(deletion);
    let g = h.with_edit(edit);
    let after = v.deleted(start, end);
    law_deletions_are_shared(h, v, start, end);
    law_what_is_told_of_deleting(v, start, end);
    law_the_next_deletion_is_taken(w, deletion);
    assert(g.hosts(w));
    law_merging_stays_in_the_session(g, w, edit);
    assert(w.merged(edit).deletions =~= after.deletions);
    law_convergence(g, w.merged(edit), after);
    if w.tells(edit, text_edit) {
        law_convergence(h, v, w);
        let ranges = match text_edit {
            TextEdit::ContiguousDeletion(range) => seq![range],
            TextEdit::SplitDeletion(ranges) => ranges@,
            _ => Seq::empty(),
        };
        assert forall|x: int| 0 <= x < v.buffer().len() implies (#[trigger] in_ranges(ranges, x)
            <==> start <= x < end) by {
            lemma_place(v.doc, x + 1);
            let i = place_of(v.doc, x + 1) - 1;
            lemma_place(v.doc, start + 1);
            lemma_place(v.doc, end);
            lemma_offset_of_place(v.doc, x);
            assert(!v.doc[i].deleted);
            assert(w.doc[i] == v.doc[i]);
            if x <= start {
                lemma_place_ascends(v.doc, x + 1, start + 1);
            } else {
                lemma_place_ascends(v.doc, start + 1, x + 1);
            }
            if x < end {
                lemma_place_ascends(v.doc, x + 1, end);
            } else {
                lemma_place_ascends(v.doc, end, x + 1);
            }
            assert(after.doc[i].deleted <==> start <= x < end);
            assert(w.merged(edit).doc[i].deleted <==> in_ranges(ranges, x));
        }
        lemma_single_range(ranges, v.buffer().len() as int, start, end);
    }
}

/// As many characters of the buffer come before one as its offset says.
proof fn lemma_offset_of_place(doc: Seq<Char>, x: int)
    requires
        0 <= x < visible(doc).len(),
    ensures
        visible(doc.take(place_of(doc, x + 1) - 1)).len() == x,
{
    lemma_place(doc, x + 1);
    let i = place_of(doc, x + 1) - 1;
    assert(doc.take(i + 1).drop_last() =~= doc.take(i));
    assert(doc.take(i + 1).last() == doc[i]);
}

/// Separated ranges that hold the offsets of a single stretch are a single range.
proof fn lemma_single_range(ranges: Seq<Range<usize>>, len: int, start: int, end: int)
    requires
        separated(ranges),
        0 <= start < end <= len,
        forall|k: int| 0 <= k < ranges.len() ==> (#[trigger] ranges[k]).end <= len,
        forall|x: int|
            0 <= x < len ==> (#[trigger] in_ranges(ranges, x) <==> start <= x < end),
    ensures
        ranges.len() == 1,
        ranges[0].start == start,
        ranges[0].end == end,
{
    assert(in_ranges(ranges, start));
    let k = choose|k: int|
        0 <= k < ranges.len() && (#[trigger] ranges[k]).start <= start < ranges[k].end;
    let r = ranges[k];
    assert(in_ranges(ranges, r.start as int));
    assert(in_ranges(ranges, r.end - 1));
    assert(r.start == start);
    if r.end < end {
        assert(in_ranges(ranges, r.end as int));
        let l = choose|l: int|
            0 <= l < ranges.len() && (#[trigger] ranges[l]).start <= r.end < ranges[l].end;
        if l < k {
            assert(ranges[l].end < ranges[k].start);
        } else if k < l {
            assert(ranges[k].end < ranges[l].start);
        }
    }
    assert(r.end == end);
    if ranges.len() > 1 {
        let m: int = if k == 0 {
            1
        } else {
            0
        };
        assert(ranges[m].start < ranges[m].end);
        assert(in_ranges(ranges, ranges[m].start as int));
        if m < k {
            assert(ranges[m].end < ranges[k].start);
        } else {
            assert(ranges[k].end < ranges[m].start);
        }
    }
}

} // verus!
