//! The peers of a session stay in it whatever they do.

use vstd::prelude::*;

use crate::crdt_edit::{DeletionView, EditView, Insertion};
use crate::edit_run::{lemma_visible_run, EditRun};
use crate::history::{within, History};
use crate::model::{
    char_after, char_before, complete, delete_known_between, has_char, index_of_char,
    lemma_index_of_char, lemma_same_ids_complete, lemma_splice_complete, lemma_splice_visible,
    lemma_visible_shrinks, merge_place, splice, Char, CharId,
};
use crate::replica_id::ReplicaId;
use crate::sorted_text::{lemma_in_order, lemma_splice_in_order};
use crate::state::ReplicaView;
use crate::text_order::{comes_before, lemma_path_kept, parent};

verus! {

/// The first and the last character that a deletion names have been inserted.
proof fn lemma_deletion_ends(h: History, by: ReplicaId, ts: int)
    requires
        h.wf(),
        h.deletions.contains_key((by, ts)),
    ensures
        h.births.contains_key(char_after(h.deletions[(by, ts)].start)),
        h.births.contains_key(char_before(h.deletions[(by, ts)].end)),
{
    let deletion = h.deletions[(by, ts)];
    assert(h.births.contains_key(char_after(deletion.start)));
    assert(h.births.contains_key(char_before(deletion.end)));
}

/// Which characters a deletion falls on does not change.
proof fn lemma_falls_on_kept(h: History, g: History, by: ReplicaId, ts: int, id: CharId)
    requires
        h.wf(),
        g.wf(),
        g.continues(h),
        h.deletions.contains_key((by, ts)),
        h.births.contains_key(id),
    ensures
        g.deletions.contains_key((by, ts)),
        g.deletions[(by, ts)] == h.deletions[(by, ts)],
        g.falls_on(h.deletions[(by, ts)], id) == h.falls_on(h.deletions[(by, ts)], id),
{
    let deletion = h.deletions[(by, ts)];
    assert(h.deletions.contains_key((by, ts)));
    lemma_deletion_ends(h, by, ts);
    lemma_path_kept(h.births, g.births, id);
    lemma_path_kept(h.births, g.births, char_after(deletion.start));
    lemma_path_kept(h.births, g.births, char_before(deletion.end));
}

/// Which characters the counted deletions fall on does not change.
proof fn lemma_is_deleted_kept(
    h: History,
    g: History,
    deletions: Map<ReplicaId, int>,
    id: CharId,
)
    requires
        h.wf(),
        g.wf(),
        g.continues(h),
        forall|by: ReplicaId, ts: int|
            1 <= ts <= deletions[by] ==> #[trigger] h.deletions.contains_key((by, ts)),
        h.births.contains_key(id),
    ensures
        g.is_deleted(deletions, id) == h.is_deleted(deletions, id),
{
    if h.is_deleted(deletions, id) {
        let (by, ts) = choose|by: ReplicaId, ts: int|
            1 <= ts <= deletions[by] && #[trigger] h.falls_on(h.deletions[(by, ts)], id);
        assert(h.deletions.contains_key((by, ts)));
        lemma_falls_on_kept(h, g, by, ts, id);
        assert(g.falls_on(g.deletions[(by, ts)], id));
    }
    if g.is_deleted(deletions, id) {
        let (by, ts) = choose|by: ReplicaId, ts: int|
            1 <= ts <= deletions[by] && #[trigger] g.falls_on(g.deletions[(by, ts)], id);
        assert(h.deletions.contains_key((by, ts)));
        lemma_falls_on_kept(h, g, by, ts, id);
        assert(h.falls_on(h.deletions[(by, ts)], id));
    }
}

/// What the counted edits have made stays so while the session goes on.
pub proof fn lemma_makes_kept(
    h: History,
    g: History,
    doc: Seq<Char>,
    versions: Map<ReplicaId, int>,
    deletions: Map<ReplicaId, int>,
)
    requires
        h.wf(),
        g.wf(),
        g.continues(h),
        h.makes(doc, versions, deletions),
    ensures
        g.makes(doc, versions, deletions),
{
    assert forall|i: int| 0 <= i < doc.len() implies {
        &&& g.births.contains_key((#[trigger] doc[i]).id)
        &&& doc[i] == Char { deleted: doc[i].deleted, ..g.births[doc[i].id] }
        &&& doc[i].deleted == g.is_deleted(deletions, doc[i].id)
    } by {
        assert(h.births.contains_key(doc[i].id));
        lemma_is_deleted_kept(h, g, deletions, doc[i].id);
    }
    assert forall|i: int, j: int| 0 <= i < j < doc.len() implies comes_before(
        g.births,
        (#[trigger] doc[i]).id,
        (#[trigger] doc[j]).id,
    ) by {
        lemma_path_kept(h.births, g.births, doc[i].id);
        lemma_path_kept(h.births, g.births, doc[j].id);
        assert(comes_before(h.births, doc[i].id, doc[j].id));
    }
    assert forall|by: ReplicaId, ts: int| 1 <= ts <= deletions[by] implies
        #[trigger] g.deletions.contains_key((by, ts)) && within(
        g.deletions[(by, ts)].versions,
        versions,
    ) by {
        assert(h.deletions.contains_key((by, ts)));
        assert(h.deletions.contains_key((by, ts)));
    }
    assert forall|id: ReplicaId| g.is_seam(id, #[trigger] versions[id]) by {
        assert(h.is_seam(id, versions[id]));
    }
}

/// An edit that has been made stays made.
pub proof fn lemma_edit_kept(h: History, g: History, edit: EditView)
    requires
        h.wf(),
        g.continues(h),
        h.has_edit(edit),
    ensures
        g.has_edit(edit),
{
    match edit {
        EditView::Insertion(insertion) => {
            let run = EditRun::of(insertion);
            let by = insertion.text.inserted_by;
            assert forall|i: int| 0 <= i < run.spec_len() implies {
                &&& g.births.contains_key((#[trigger] run.chars()[i]).id)
                &&& g.births[run.chars()[i].id] == run.chars()[i]
            } by {
                assert(h.births.contains_key(run.chars()[i].id));
            }
            assert forall|ts: int|
                insertion.text.start < ts < insertion.text.end implies !#[trigger] g.is_seam(
                by,
                ts,
            ) by {
                assert(!h.is_seam(by, ts));
                assert(h.births.contains_key(run.chars()[ts - 1 - insertion.text.start].id));
            }
        },
        EditView::Deletion(deletion) => {
            assert(h.deletions.contains_key((deletion.by, deletion.deletion_ts)));
        },
        EditView::NoOp => {},
    }
}

/// A character came with an insertion that stays made.
pub proof fn lemma_of_insertion_kept(h: History, g: History, id: CharId)
    requires
        h.wf(),
        g.continues(h),
        h.births.contains_key(id),
    ensures
        g.is_of_insertion(id),
{
    assert(h.is_of_insertion(id));
    reveal(History::is_of_insertion);
    let insertion = choose|insertion: Insertion|
        #[trigger] h.has_edit(EditView::Insertion(insertion)) && EditRun::of(insertion).holds(id);
    lemma_edit_kept(h, g, EditView::Insertion(insertion));
}

/// A replica stays in a session in which others go on.
pub proof fn lemma_hosts_kept(h: History, g: History, v: ReplicaView)
    requires
        h.hosts(v),
        g.wf(),
        g.continues(h),
        g.knows_itself(v),
    ensures
        g.hosts(v),
{
    lemma_makes_kept(h, g, v.doc, v.versions, v.deletions);
    assert forall|i: int| 0 <= i < v.pending_insertions.len() implies g.has_edit(
        EditView::Insertion(#[trigger] v.pending_insertions[i]),
    ) by {
        lemma_edit_kept(h, g, EditView::Insertion(v.pending_insertions[i]));
    }
    assert forall|i: int| 0 <= i < v.pending_deletions.len() implies g.has_edit(
        EditView::Deletion(#[trigger] v.pending_deletions[i]),
    ) by {
        lemma_edit_kept(h, g, EditView::Deletion(v.pending_deletions[i]));
    }
}

/// The text with an insertion integrated is what the edits have made.
pub proof fn lemma_makes_with_insertion(
    h: History,
    doc: Seq<Char>,
    versions: Map<ReplicaId, int>,
    deletions: Map<ReplicaId, int>,
    insertion: Insertion,
)
    requires
        h.wf(),
        complete(doc, versions),
        h.makes(doc, versions, deletions),
        h.has_edit(EditView::Insertion(insertion)),
        versions.dom().contains(insertion.text.inserted_by),
        versions[insertion.text.inserted_by] == insertion.text.start,
        insertion.anchor.character_ts <= versions[insertion.anchor.replica_id],
    ensures
        ({
            let place = merge_place(
                doc,
                insertion.anchor,
                insertion.lamport_ts,
                insertion.text.inserted_by,
            );
            &&& 0 <= place <= doc.len()
            &&& h.makes(
                splice(doc, place, EditRun::of(insertion).chars()),
                versions.insert(insertion.text.inserted_by, insertion.text.end as int),
                deletions,
            )
        }),
{
    let run = EditRun::of(insertion);
    let by = insertion.text.inserted_by;
    let place = merge_place(doc, insertion.anchor, insertion.lamport_ts, by);
    if !insertion.anchor.is_origin() {
        assert(has_char(doc, char_before(insertion.anchor)));
    }
    lemma_splice_in_order(h.births, doc, versions, run);
    let chars = run.chars();
    let n = chars.len() as int;
    let after = splice(doc, place, chars);
    let counted = versions.insert(by, insertion.text.end as int);
    assert forall|i: int| 0 <= i < after.len() implies (#[trigger] after[i]).deleted
        == h.is_deleted(deletions, after[i].id) by {
        if i < place {
            assert(after[i] == doc[i]);
        } else if i < place + n {
            let c = chars[i - place];
            assert(after[i] == c);
            if h.is_deleted(deletions, c.id) {
                let (who, ts) = choose|who: ReplicaId, ts: int|
                    1 <= ts <= deletions[who] && #[trigger] h.falls_on(
                        h.deletions[(who, ts)],
                        c.id,
                    );
                assert(h.deletions.contains_key((who, ts)));
                assert(h.deletions[(who, ts)].versions[by] <= versions[by]);
            }
        } else {
            assert(after[i] == doc[i - n]);
        }
    }
    assert forall|who: ReplicaId, ts: int| 1 <= ts <= deletions[who] implies
        #[trigger] h.deletions.contains_key((who, ts)) && within(
        h.deletions[(who, ts)].versions,
        counted,
    ) by {
        assert(h.deletions.contains_key((who, ts)));
        assert(within(h.deletions[(who, ts)].versions, versions));
        assert forall|id: ReplicaId| #[trigger] h.deletions[(who, ts)].versions[id]
            <= counted[id] by {
            assert(h.deletions[(who, ts)].versions[id] <= versions[id]);
        }
    }
    assert forall|id: ReplicaId| h.is_seam(id, #[trigger] counted[id]) by {
        if id != by {
            assert(h.is_seam(id, versions[id]));
        }
    }
}

/// The text with a deletion integrated is what the edits have made.
pub proof fn lemma_makes_with_deletion(
    h: History,
    doc: Seq<Char>,
    versions: Map<ReplicaId, int>,
    deletions: Map<ReplicaId, int>,
    deletion: DeletionView,
)
    requires
        h.wf(),
        complete(doc, versions),
        h.makes(doc, versions, deletions),
        h.has_edit(EditView::Deletion(deletion)),
        deletions.dom().contains(deletion.by),
        deletions[deletion.by] + 1 == deletion.deletion_ts,
        within(deletion.versions, versions),
    ensures
        h.makes(
            delete_known_between(
                doc,
                index_of_char(doc, char_after(deletion.start)),
                index_of_char(doc, char_before(deletion.end)) + 1,
                deletion.versions,
            ),
            versions,
            deletions.insert(deletion.by, deletion.deletion_ts),
        ),
{
    let first = char_after(deletion.start);
    let last = char_before(deletion.end);
    let lo = index_of_char(doc, first);
    let hi = index_of_char(doc, last) + 1;
    let after = delete_known_between(doc, lo, hi, deletion.versions);
    let counted = deletions.insert(deletion.by, deletion.deletion_ts);
    assert(deletion.versions[first.by] <= versions[first.by]);
    assert(deletion.versions[last.by] <= versions[last.by]);
    assert(has_char(doc, first));
    assert(has_char(doc, last));
    assert(doc[lo].id == first);
    assert(doc[hi - 1].id == last);
    assert forall|i: int| 0 <= i < doc.len() implies (lo <= i <==> first == doc[i].id
        || comes_before(h.births, first, (#[trigger] doc[i]).id)) by {
        if lo < i {
            assert(comes_before(h.births, doc[lo].id, doc[i].id));
        } else if first == doc[i].id {
            lemma_index_of_char(doc, versions, i);
        } else if comes_before(h.births, first, doc[i].id) {
            lemma_in_order(h.births, doc, lo, i);
        }
    }
    assert forall|i: int| 0 <= i < doc.len() implies (i < hi <==> doc[i].id == last
        || comes_before(h.births, (#[trigger] doc[i]).id, last)) by {
        if i < hi - 1 {
            assert(comes_before(h.births, doc[i].id, doc[hi - 1].id));
        } else if last == doc[i].id {
            lemma_index_of_char(doc, versions, i);
        } else if comes_before(h.births, doc[i].id, last) {
            lemma_in_order(h.births, doc, i, hi - 1);
        }
    }
    assert forall|i: int| 0 <= i < after.len() implies (#[trigger] after[i]).deleted
        == h.is_deleted(counted, after[i].id) by {
        let id = doc[i].id;
        assert(after[i].id == id);
        assert(doc[i].deleted == h.is_deleted(deletions, id));
        if h.is_deleted(deletions, id) {
            let (by, ts) = choose|by: ReplicaId, ts: int|
                1 <= ts <= deletions[by] && #[trigger] h.falls_on(h.deletions[(by, ts)], id);
            assert(1 <= ts <= counted[by] && h.falls_on(h.deletions[(by, ts)], id));
        }
        if h.falls_on(deletion, id) {
            assert(h.falls_on(h.deletions[(deletion.by, deletion.deletion_ts)], id));
            assert(h.is_deleted(counted, id));
        }
        if h.is_deleted(counted, id) && !h.falls_on(deletion, id) {
            let (by, ts) = choose|by: ReplicaId, ts: int|
                1 <= ts <= counted[by] && #[trigger] h.falls_on(h.deletions[(by, ts)], id);
            assert(1 <= ts <= deletions[by]);
            assert(h.is_deleted(deletions, id));
        }
    }
    assert forall|i: int| 0 <= i < after.len() implies {
        &&& h.births.contains_key((#[trigger] after[i]).id)
        &&& after[i] == Char { deleted: after[i].deleted, ..h.births[after[i].id] }
        &&& !after[i].anchor.is_origin() ==> has_char(after, parent(after[i]))
    } by {
        assert(doc[i] == Char { deleted: doc[i].deleted, ..h.births[doc[i].id] });
        if !after[i].anchor.is_origin() {
            assert(has_char(doc, parent(doc[i])));
            let j = index_of_char(doc, parent(doc[i]));
            assert(doc[j].id == parent(doc[i]));
            assert(after[j].id == parent(after[i]));
        }
    }
    assert forall|i: int, j: int| 0 <= i < j < after.len() implies comes_before(
        h.births,
        (#[trigger] after[i]).id,
        (#[trigger] after[j]).id,
    ) by {
        assert(comes_before(h.births, doc[i].id, doc[j].id));
    }
}

/// A replica stays in the session when it integrates an insertion.
pub proof fn lemma_hosts_with_insertion(h: History, v: ReplicaView, insertion: Insertion)
    requires
        h.hosts(v),
        h.has_edit(EditView::Insertion(insertion)),
        v.can_merge_insertion(insertion),
        v.has_room_for(insertion),
    ensures
        h.hosts(v.with_insertion(insertion)),
{
    let run = EditRun::of(insertion);
    let by = insertion.text.inserted_by;
    let place = v.place_of_insertion(insertion);
    let after = v.with_insertion(insertion);
    let chars = run.chars();
    let n = chars.len() as int;
    lemma_makes_with_insertion(h, v.doc, v.versions, v.deletions, insertion);
    lemma_splice_complete(
        v.doc,
        v.versions,
        place,
        insertion.text,
        insertion.anchor,
        insertion.lamport_ts,
        insertion.insertion_ts,
    );
    lemma_splice_visible(v.doc, place, chars);
    lemma_visible_run(run);
    assert(after.versions.dom() =~= Set::<ReplicaId>::full());
    assert(by != v.id) by {
        assert(h.births.contains_key(chars[0].id));
        assert(chars[0].id == CharId { by, ts: insertion.text.start as int });
    }
    assert forall|i: int| 0 <= i < after.doc.len() implies (#[trigger] after.doc[i]).lamport_ts
        < after.lamport_clock.0 && (after.doc[i].id.by == v.id ==> after.doc[i].lamport_ts + 1
        < after.lamport_clock.0) by {
        if i < place {
            assert(after.doc[i] == v.doc[i]);
        } else if i < place + n {
            assert(after.doc[i] == chars[i - place]);
        } else {
            assert(after.doc[i] == v.doc[i - n]);
        }
    }
}

/// A replica stays in the session when it integrates a deletion.
pub proof fn lemma_hosts_with_deletion(h: History, v: ReplicaView, deletion: DeletionView)
    requires
        h.hosts(v),
        h.has_edit(EditView::Deletion(deletion)),
        v.can_merge_deletion(deletion),
    ensures
        h.hosts(v.with_deletion(deletion)),
{
    let after = v.with_deletion(deletion);
    assert(within(deletion.versions, v.versions)) by {
        assert forall|id: ReplicaId| #[trigger] deletion.versions[id] <= v.versions[id] by {
            assert(v.versions[id] >= deletion.versions[id]);
        }
    }
    lemma_makes_with_deletion(h, v.doc, v.versions, v.deletions, deletion);
    assert forall|i: int| 0 <= i < v.doc.len() implies (#[trigger] after.doc[i]).id
        == v.doc[i].id && after.doc[i].lamport_ts == v.doc[i].lamport_ts by {}
    lemma_same_ids_complete(v.doc, after.doc, v.versions);
    assert forall|i: int| 0 <= i < v.doc.len() && (
    #[trigger] v.doc[i]).deleted implies after.doc[i].deleted by {}
    lemma_visible_shrinks(v.doc, after.doc);
    assert(after.deletions.dom() =~= Set::<ReplicaId>::full());
    assert forall|i: int| 0 <= i < after.doc.len() implies (#[trigger] after.doc[i]).lamport_ts
        < after.lamport_clock.0 by {
        assert(v.doc[i].lamport_ts < v.lamport_clock.0);
    }
    assert forall|i: int, j: int|
        0 <= i < after.doc.len() && 0 <= j < after.doc.len() && (
        #[trigger] after.doc[i]).id.by == v.id && (#[trigger] after.doc[j]).id.by != v.id
            && after.doc[i].lamport_ts + 1
            == after.lamport_clock.0 implies after.doc[j].lamport_ts
        < after.doc[i].lamport_ts by {
        assert(v.doc[i].id.by == v.id && v.doc[j].id.by != v.id);
    }
    assert(h.deletions.contains_key((deletion.by, deletion.deletion_ts)));
}

} // verus!
