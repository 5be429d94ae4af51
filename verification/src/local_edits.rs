//! The edits that a peer makes become part of the session.

use vstd::prelude::*;

use crate::crdt_edit::{EditView, Insertion};
use crate::edit_run::{lemma_visible_run, EditRun};
use crate::history::History;
use crate::model::{
    char_after, char_before, delete_known_between, has_char, index_of_char, index_of_visible, known,
    lemma_index_of_char, lemma_place, lemma_place_ascends, lemma_same_ids_complete,
    lemma_splice_complete, lemma_splice_visible, lemma_visible_shrinks, outranks, place_of, CharId,
};
use crate::replica_id::ReplicaId;
use crate::session::{
    lemma_edit_kept, lemma_hosts_kept, lemma_makes_kept, lemma_makes_with_deletion,
    lemma_makes_with_insertion, lemma_of_insertion_kept,
};
use crate::sorted_text::run_in;
use crate::state::ReplicaView;
use crate::text_order::{causal, follows, keeps, parent};

verus! {

/// What a replica has counted of its own characters has been inserted, and it is in its text.
proof fn lemma_own_chars(h: History, v: ReplicaView, ts: int) -> (i: int)
    requires
        h.hosts(v),
        0 <= ts < v.versions[v.id],
    ensures
        h.births.contains_key(CharId { by: v.id, ts }),
        0 <= i < v.doc.len(),
        v.doc[i].id == (CharId { by: v.id, ts }),
        v.doc[i].lamport_ts == h.births[CharId { by: v.id, ts }].lamport_ts,
        h.births[CharId { by: v.id, ts }].lamport_ts < v.lamport_clock.0,
{
    let id = CharId { by: v.id, ts };
    assert(has_char(v.doc, id));
    let i = index_of_char(v.doc, id);
    assert(v.doc[i].id == id);
    i
}

/// The character of the buffer that a local insertion goes after.
proof fn lemma_local_anchor(v: ReplicaView, offset: int, len: int)
    requires
        v.wf(),
        0 < len,
        0 <= offset <= v.buffer().len(),
    ensures
        ({
            let insertion = v.insertion_made(offset, len);
            let place = place_of(v.doc, offset);
            &&& 0 <= place <= v.doc.len()
            &&& insertion.anchor.is_origin() <==> offset == 0
            &&& offset == 0 ==> place == 0
            &&& offset > 0 ==> {
                &&& 0 < place
                &&& char_before(insertion.anchor) == v.doc[place - 1].id
                &&& index_of_char(v.doc, char_before(insertion.anchor)) == place - 1
                &&& insertion.anchor.character_ts <= v.versions[insertion.anchor.replica_id]
            }
        }),
{
    lemma_place(v.doc, offset);
    if offset > 0 {
        let place = place_of(v.doc, offset);
        let c = v.doc[place - 1];
        assert(0 <= c.id.ts < v.versions[c.id.by]);
        lemma_index_of_char(v.doc, v.versions, place - 1);
        assert(char_before(v.insertion_made(offset, len).anchor) == c.id);
    }
}

/// A local insertion goes where the others put it.
proof fn lemma_local_place(h: History, v: ReplicaView, offset: int, len: int)
    requires
        h.hosts(v),
        0 < len,
        0 <= offset <= v.buffer().len(),
        v.has_room_to_insert(offset, len),
    ensures
        v.place_of_insertion(v.insertion_made(offset, len)) == place_of(v.doc, offset),
{
    let insertion = v.insertion_made(offset, len);
    let place = place_of(v.doc, offset);
    lemma_local_anchor(v, offset, len);
    if place < v.doc.len() {
        let x = v.doc[place];
        assert(x.lamport_ts < v.lamport_clock.0);
        if v.carries_on(offset, len) {
            let c = v.doc[place - 1];
            assert(c.id.by == v.id);
            assert(c.lamport_ts < v.lamport_clock.0);
            if x.id.by != v.id {
                assert(x.lamport_ts < c.lamport_ts);
            }
        }
        assert(!outranks(x.lamport_ts, x.id.by, insertion.lamport_ts, v.id));
    }
}

/// What a replica inserts fits in with what has been inserted before.
proof fn lemma_local_births(h: History, v: ReplicaView, offset: int, len: int)
    requires
        h.hosts(v),
        0 < len,
        0 <= offset <= v.buffer().len(),
        v.has_room_to_insert(offset, len),
    ensures
        ({
            let insertion = v.insertion_made(offset, len);
            let g = h.with_edit(EditView::Insertion(insertion));
            &&& causal(g.births)
            &&& keeps(g.births, h.births)
            &&& run_in(g.births, EditRun::of(insertion))
        }),
{
    let insertion = v.insertion_made(offset, len);
    let run = EditRun::of(insertion);
    let chars = run.chars();
    let g = h.with_edit(EditView::Insertion(insertion));
    let start = insertion.text.start as int;
    let place = place_of(v.doc, offset);
    lemma_local_anchor(v, offset, len);
    assert(start == v.versions[v.id]);
    assert forall|id: CharId| run.holds(id) implies !#[trigger] h.births.contains_key(id) by {
        if h.births.contains_key(id) {
            assert(id == CharId { by: v.id, ts: id.ts });
            assert(h.births.contains_key(CharId { by: v.id, ts: id.ts }));
        }
    }
    assert forall|id: CharId| #[trigger] h.births.contains_key(id) implies g.births.contains_key(id)
        && g.births[id] == h.births[id] by {
        assert(!run.holds(id));
    }
    assert forall|i: int| 0 <= i < run.spec_len() implies {
        &&& g.births.contains_key((#[trigger] chars[i]).id)
        &&& g.births[chars[i].id] == chars[i]
    } by {
        assert(run.holds(chars[i].id));
    }
    assert forall|id: CharId| #[trigger] g.births.contains_key(id) implies id.ts >= 0
        && g.births[id].id == id && !g.births[id].deleted by {
        if run.holds(id) {
            assert(chars[id.ts - start].id == id);
        } else {
            assert(h.births.contains_key(id));
        }
    }
    assert forall|id: CharId|
        #[trigger] g.births.contains_key(id) && !g.births[id].anchor.is_origin() implies {
        &&& g.births.contains_key(parent(g.births[id]))
        &&& follows(g.births[id], g.births[parent(g.births[id])])
    } by {
        if run.holds(id) {
            let i = id.ts - start;
            let c = chars[i];
            if i > 0 {
                assert(parent(c) == chars[i - 1].id);
                assert(run.holds(chars[i - 1].id));
            } else {
                let before = v.doc[place - 1];
                assert(parent(c) == before.id);
                assert(h.births.contains_key(before.id));
                assert(before.lamport_ts < v.lamport_clock.0);
            }
        } else {
            assert(h.births.contains_key(id));
            assert(h.births.contains_key(parent(h.births[id])));
        }
    }
    assert forall|id: CharId, ts: int| g.births.contains_key(id) && 0 <= ts < id.ts implies {
        &&& #[trigger] g.births.contains_key(CharId { by: id.by, ts })
        &&& g.births[CharId { by: id.by, ts }].lamport_ts <= g.births[id].lamport_ts
        &&& g.births[CharId { by: id.by, ts }].lamport_ts == g.births[id].lamport_ts ==> {
            &&& !g.births[id].anchor.is_origin()
            &&& parent(g.births[id]) == CharId { by: id.by, ts: id.ts - 1 }
        }
    } by {
        let earlier = CharId { by: id.by, ts };
        if run.holds(id) {
            let i = id.ts - start;
            if ts >= start {
                assert(run.holds(earlier));
                assert(chars[i].id == id);
                assert(parent(chars[i]) == CharId { by: id.by, ts: id.ts - 1 });
            } else {
                lemma_own_chars(h, v, ts);
                assert(h.births.contains_key(earlier));
                assert(g.births[earlier] == h.births[earlier]);
                if i > 0 {
                    assert(parent(chars[i]) == CharId { by: id.by, ts: id.ts - 1 });
                }
            }
        } else {
            assert(h.births.contains_key(id));
            assert(h.births.contains_key(CharId { by: id.by, ts }));
        }
    }
}

/// A local insertion becomes part of the session.
proof fn lemma_local_insertion(h: History, v: ReplicaView, offset: int, len: int)
    requires
        h.hosts(v),
        0 < len,
        0 <= offset <= v.buffer().len(),
        v.has_room_to_insert(offset, len),
    ensures
        ({
            let edit = EditView::Insertion(v.insertion_made(offset, len));
            let g = h.with_edit(edit);
            &&& g.wf()
            &&& g.continues(h)
            &&& g.has_edit(edit)
        }),
{
    let insertion = v.insertion_made(offset, len);
    let run = EditRun::of(insertion);
    let edit = EditView::Insertion(insertion);
    let g = h.with_edit(edit);
    let start = insertion.text.start as int;
    let end = insertion.text.end as int;
    lemma_local_births(h, v, offset, len);
    assert forall|id: CharId| #[trigger] g.last_chars.contains(id) implies g.births.contains_key(
        id,
    ) by {
        if h.last_chars.contains(id) {
            assert(h.births.contains_key(id));
        } else {
            assert(run.holds(id));
        }
    }
    assert forall|id: CharId|
        #[trigger] g.last_chars.contains(id) && h.births.contains_key(
            id,
        ) implies h.last_chars.contains(id) by {
        if id == (CharId { by: v.id, ts: end - 1 }) {
            assert(h.births.contains_key(CharId { by: v.id, ts: end - 1 }));
        }
    }
    assert forall|by: ReplicaId, ts: int| #[trigger] g.deletions.contains_key((by, ts)) implies {
        let deletion = g.deletions[(by, ts)];
        &&& deletion.wf()
        &&& deletion.by == by
        &&& deletion.deletion_ts == ts
        &&& g.holds_all(deletion.versions)
    } by {
        assert(h.deletions.contains_key((by, ts)));
        assert(h.holds_all(h.deletions[(by, ts)].versions));
        assert forall|id: CharId|
            0 <= id.ts
                < g.deletions[(by, ts)].versions[id.by] implies #[trigger] g.births.contains_key(
            id,
        ) by {
            assert(h.births.contains_key(id));
        }
    }
    assert(h.is_seam(v.id, v.versions[v.id]));
    assert forall|ts: int| start < ts < end implies !#[trigger] g.is_seam(v.id, ts) by {
        let before = CharId { by: v.id, ts: ts - 1 };
        if h.last_chars.contains(before) {
            assert(h.births.contains_key(CharId { by: v.id, ts: ts - 1 }));
        }
    }
    assert(g.has_edit(edit));
    assert forall|id: CharId| #[trigger] g.births.contains_key(id) implies g.is_of_insertion(
        id,
    ) by {
        if run.holds(id) {
            reveal(History::is_of_insertion);
            assert(g.has_edit(EditView::Insertion(insertion)));
        } else {
            assert(h.births.contains_key(id));
            lemma_of_insertion_kept(h, g, id);
        }
    }
}

/// The text after a local insertion is what the edits have made.
proof fn lemma_makes_inserted(h: History, v: ReplicaView, offset: int, len: int)
    requires
        h.hosts(v),
        0 < len,
        0 <= offset <= v.buffer().len(),
        v.has_room_to_insert(offset, len),
    ensures
        ({
            let g = h.with_edit(EditView::Insertion(v.insertion_made(offset, len)));
            let after = v.inserted(offset, len);
            &&& after.wf()
            &&& g.makes(after.doc, after.versions, after.deletions)
        }),
{
    let insertion = v.insertion_made(offset, len);
    let run = EditRun::of(insertion);
    let g = h.with_edit(EditView::Insertion(insertion));
    let place = place_of(v.doc, offset);
    let after = v.inserted(offset, len);
    lemma_local_insertion(h, v, offset, len);
    lemma_local_place(h, v, offset, len);
    lemma_local_anchor(v, offset, len);
    lemma_makes_kept(h, g, v.doc, v.versions, v.deletions);
    lemma_makes_with_insertion(g, v.doc, v.versions, v.deletions, insertion);
    lemma_splice_complete(
        v.doc,
        v.versions,
        place,
        insertion.text,
        insertion.anchor,
        insertion.lamport_ts,
        insertion.insertion_ts,
    );
    lemma_splice_visible(v.doc, place, run.chars());
    lemma_visible_run(run);
    assert(after.versions.dom() =~= Set::<ReplicaId>::full());
}

/// The clock stays ahead after a local insertion.
proof fn lemma_clock_inserted(h: History, v: ReplicaView, offset: int, len: int)
    requires
        h.hosts(v),
        0 < len,
        0 <= offset <= v.buffer().len(),
        v.has_room_to_insert(offset, len),
    ensures
        h.clock_is_ahead(v.inserted(offset, len)),
{
    let insertion = v.insertion_made(offset, len);
    let chars = EditRun::of(insertion).chars();
    let n = chars.len() as int;
    let place = place_of(v.doc, offset);
    let after = v.inserted(offset, len);
    lemma_local_anchor(v, offset, len);
    if v.carries_on(offset, len) {
        assert(v.doc[place - 1].id.by == v.id);
        assert(v.doc[place - 1].lamport_ts < v.lamport_clock.0);
    }
    assert forall|i: int| 0 <= i < after.doc.len() implies (#[trigger] after.doc[i]).lamport_ts
        < after.lamport_clock.0 && (after.doc[i].id.by != v.id ==> after.doc[i].lamport_ts
        < insertion.lamport_ts) by {
        if i < place || i >= place + n {
            let k = if i < place {
                i
            } else {
                i - n
            };
            assert(after.doc[i] == v.doc[k]);
            assert(v.doc[k].lamport_ts < v.lamport_clock.0);
            if v.carries_on(offset, len) && v.doc[k].id.by != v.id {
                assert(v.doc[k].lamport_ts < v.doc[place - 1].lamport_ts);
            }
        } else {
            assert(after.doc[i] == chars[i - place]);
        }
    }
}

/// What waits in a session still waits in it while the session goes on.
proof fn lemma_pending_kept(h: History, g: History, v: ReplicaView)
    requires
        h.wf(),
        h.has_pending(v),
        g.continues(h),
    ensures
        g.has_pending(v),
{
    assert forall|i: int| 0 <= i < v.pending_insertions.len() implies g.has_edit(
        EditView::Insertion(#[trigger] v.pending_insertions[i]),
    ) by {
        lemma_edit_kept(h, g, EditView::Insertion(v.pending_insertions[i]));
    }
    assert forall|i: int| 0 <= i < v.pending_deletions.len() implies g.has_edit(
        EditView::Deletion(#[trigger] v.pending_deletions[i]),
    ) by {
        lemma_edit_kept(h, g, EditView::Deletion(v.pending_deletions[i]));
    }
}

/// A replica that inserts text stays in the session, and so do the others.
pub proof fn lemma_hosts_inserted(h: History, v: ReplicaView, offset: int, len: int)
    requires
        h.hosts(v),
        0 < len,
        0 <= offset <= v.buffer().len(),
        v.has_room_to_insert(offset, len),
    ensures
        ({
            let edit = EditView::Insertion(v.insertion_made(offset, len));
            let g = h.with_edit(edit);
            &&& g.has_edit(edit)
            &&& g.continues(h)
            &&& g.hosts(v.inserted(offset, len))
            &&& forall|w: ReplicaView| #[trigger] h.hosts(w) && w.id != v.id ==> g.hosts(w)
        }),
{
    let insertion = v.insertion_made(offset, len);
    let run = EditRun::of(insertion);
    let g = h.with_edit(EditView::Insertion(insertion));
    let after = v.inserted(offset, len);
    lemma_local_insertion(h, v, offset, len);
    lemma_makes_inserted(h, v, offset, len);
    lemma_clock_inserted(h, v, offset, len);
    lemma_pending_kept(h, g, v);
    assert(g.has_pending(after));
    assert(g.knows_itself(after)) by {
        assert forall|ts: int| #[trigger]
            g.births.contains_key(CharId { by: v.id, ts }) implies ts < after.versions[v.id] by {
            if !run.holds(CharId { by: v.id, ts }) {
                assert(h.births.contains_key(CharId { by: v.id, ts }));
            }
        }
        assert forall|ts: int| #[trigger] g.deletions.contains_key((v.id, ts)) implies ts
            <= after.deletions[v.id] by {
            assert(h.deletions.contains_key((v.id, ts)));
        }
    }
    assert forall|w: ReplicaView| #[trigger] h.hosts(w) && w.id != v.id implies g.hosts(w) by {
        assert forall|ts: int| #[trigger]
            g.births.contains_key(CharId { by: w.id, ts }) implies ts < w.versions[w.id] by {
            assert(!run.holds(CharId { by: w.id, ts }));
            assert(h.births.contains_key(CharId { by: w.id, ts }));
        }
        assert forall|ts: int| #[trigger] g.deletions.contains_key((w.id, ts)) implies ts
            <= w.deletions[w.id] by {
            assert(h.deletions.contains_key((w.id, ts)));
        }
        lemma_hosts_kept(h, g, w);
    }
}

/// A local deletion becomes part of the session.
proof fn lemma_local_deletion(h: History, v: ReplicaView, start: int, end: int)
    requires
        h.hosts(v),
        0 <= start < end <= v.buffer().len(),
        v.deletions[v.id] + 1 < u64::MAX,
    ensures
        ({
            let deletion = v.deletion_made(start, end);
            let edit = EditView::Deletion(deletion);
            let g = h.with_edit(edit);
            let lo = index_of_visible(v.doc, start);
            let hi = place_of(v.doc, end);
            &&& g.wf()
            &&& g.continues(h)
            &&& g.has_edit(edit)
            &&& 0 <= lo < hi <= v.doc.len()
            &&& index_of_char(v.doc, char_after(deletion.start)) == lo
            &&& index_of_char(v.doc, char_before(deletion.end)) == hi - 1
        }),
{
    let deletion = v.deletion_made(start, end);
    let edit = EditView::Deletion(deletion);
    let g = h.with_edit(edit);
    let lo = index_of_visible(v.doc, start);
    let hi = place_of(v.doc, end);
    let key = (v.id, deletion.deletion_ts);
    lemma_place(v.doc, start + 1);
    lemma_place(v.doc, end);
    lemma_place_ascends(v.doc, start + 1, end);
    assert(0 <= v.doc[lo].id.ts < v.versions[v.doc[lo].id.by]);
    assert(0 <= v.doc[hi - 1].id.ts < v.versions[v.doc[hi - 1].id.by]);
    lemma_index_of_char(v.doc, v.versions, lo);
    lemma_index_of_char(v.doc, v.versions, hi - 1);
    assert(char_after(deletion.start) == v.doc[lo].id);
    assert(char_before(deletion.end) == v.doc[hi - 1].id);
    assert(!h.deletions.contains_key((v.id, deletion.deletion_ts)));
    assert(h.holds_all(v.versions)) by {
        assert forall|id: CharId| 0 <= id.ts < v.versions[id.by] implies
            #[trigger] h.births.contains_key(id) by {
            assert(has_char(v.doc, id));
            assert(v.doc[index_of_char(v.doc, id)].id == id);
        }
    }
    assert forall|by: ReplicaId, ts: int| #[trigger] g.deletions.contains_key((by, ts)) implies {
        let d = g.deletions[(by, ts)];
        &&& d.wf()
        &&& d.by == by
        &&& d.deletion_ts == ts
        &&& g.holds_all(d.versions)
    } by {
        if (by, ts) != key {
            assert(h.deletions.contains_key((by, ts)));
            assert(h.holds_all(h.deletions[(by, ts)].versions));
        }
    }
    assert forall|by: ReplicaId, ts: int, earlier: int|
        #[trigger] g.deletions.contains_key((by, ts)) && 1 <= earlier < ts implies
        #[trigger] g.deletions.contains_key((by, earlier)) by {
        if (by, ts) != key {
            assert(h.deletions.contains_key((by, ts)));
            assert(h.deletions.contains_key((by, earlier)));
        } else {
            assert(h.deletions.contains_key((v.id, earlier)));
        }
    }
    assert forall|k: (ReplicaId, int)| #[trigger] h.deletions.contains_key(k) implies
        g.deletions.contains_key(k) && g.deletions[k] == h.deletions[k] by {
        assert(k == (k.0, k.1));
    }
    assert forall|id: CharId| #[trigger] g.births.contains_key(id) implies g.is_of_insertion(
        id,
    ) by {
        lemma_of_insertion_kept(h, g, id);
    }
}

/// A replica that deletes text stays in the session, and so do the others.
pub proof fn lemma_hosts_deleted(h: History, v: ReplicaView, start: int, end: int)
    requires
        h.hosts(v),
        0 <= start < end <= v.buffer().len(),
        v.deletions[v.id] + 1 < u64::MAX,
    ensures
        ({
            let edit = EditView::Deletion(v.deletion_made(start, end));
            let g = h.with_edit(edit);
            &&& g.has_edit(edit)
            &&& g.continues(h)
            &&& g.hosts(v.deleted(start, end))
            &&& forall|w: ReplicaView| #[trigger] h.hosts(w) && w.id != v.id ==> g.hosts(w)
        }),
{
    let deletion = v.deletion_made(start, end);
    let g = h.with_edit(EditView::Deletion(deletion));
    let after = v.deleted(start, end);
    lemma_local_deletion(h, v, start, end);
    assert forall|w: ReplicaView| #[trigger] h.hosts(w) && w.id != v.id implies g.hosts(w) by {
        assert forall|ts: int| #[trigger] g.deletions.contains_key((w.id, ts)) implies ts
            <= w.deletions[w.id] by {
            assert(h.deletions.contains_key((w.id, ts)));
        }
        assert(g.knows_itself(w));
        lemma_hosts_kept(h, g, w);
    }
    lemma_makes_kept(h, g, v.doc, v.versions, v.deletions);
    lemma_pending_kept(h, g, v);
    // Its own deletion does to the replica what the integration of it would do.
    let lo = index_of_visible(v.doc, start);
    let hi = place_of(v.doc, end);
    assert(after.doc =~= delete_known_between(v.doc, lo, hi, v.versions)) by {
        assert forall|i: int| 0 <= i < v.doc.len() implies known(
            v.versions,
            (#[trigger] v.doc[i]).id,
        ) by {}
    }
    lemma_makes_with_deletion(g, v.doc, v.versions, v.deletions, deletion);
    assert forall|i: int| 0 <= i < v.doc.len() implies (#[trigger] after.doc[i]).id
        == v.doc[i].id && after.doc[i].lamport_ts == v.doc[i].lamport_ts by {}
    lemma_same_ids_complete(v.doc, after.doc, v.versions);
    assert forall|i: int| 0 <= i < v.doc.len() && (
    #[trigger] v.doc[i]).deleted implies after.doc[i].deleted by {}
    lemma_visible_shrinks(v.doc, after.doc);
    assert(after.deletions.dom() =~= Set::<ReplicaId>::full());
    assert(after.wf());
    assert(g.clock_is_ahead(after)) by {
        assert forall|i: int| 0 <= i < after.doc.len() implies (
        #[trigger] after.doc[i]).lamport_ts < after.lamport_clock.0 by {
            assert(v.doc[i].lamport_ts < v.lamport_clock.0);
        }
        assert forall|i: int, j: int|
            0 <= i < after.doc.len() && 0 <= j < after.doc.len() && (
            #[trigger] after.doc[i]).id.by == v.id && (#[trigger] after.doc[j]).id.by != v.id
                && after.doc[i].lamport_ts + 1
                == after.lamport_clock.0 implies after.doc[j].lamport_ts
            < after.doc[i].lamport_ts by {
            assert(v.doc[i].id.by == v.id && v.doc[j].id.by != v.id);
        }
    }
    assert(g.knows_itself(after)) by {
        assert forall|ts: int| #[trigger] g.deletions.contains_key((v.id, ts)) implies ts
            <= after.deletions[v.id] by {
            if ts != deletion.deletion_ts {
                assert(h.deletions.contains_key((v.id, ts)));
            }
        }
    }
    assert(g.has_pending(after));
}

} // verus!
