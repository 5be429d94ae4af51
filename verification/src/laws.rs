//! What a session as a whole can rely on.
//!
//! A [`History`] holds all edits that the peers of a session have made; [`History::hosts`] says
//! that a replica is part of the session. The laws are stated over the states of replicas: each
//! operation of a replica leads from one state to another as its contract says.

use vstd::multiset::Multiset;
use vstd::prelude::*;

use crate::anchor::Anchor;
use crate::crdt_edit::{EditView, Insertion};
use crate::edit_run::{lemma_visible_run, EditRun};
use crate::history::{initial_run, within, History};
use crate::local_edits::{lemma_hosts_deleted, lemma_hosts_inserted};
use crate::model::{
    apply_text_edit, char_before, complete, has_char, in_ranges, index_of_char, known,
    lemma_cut_is_deletion, lemma_cut_one, lemma_index_of_visible, lemma_place, lemma_place_ascends,
    lemma_skip_outranking_bounds, lemma_splice_visible, lemma_visible_cut, place_of, splice,
    text_ids, visible, Char, CharId,
};
use crate::replica_id::ReplicaId;
use crate::session::{
    lemma_hosts_with_deletion, lemma_hosts_with_insertion, lemma_makes_with_insertion,
};
use crate::sorted_text::{in_text_order, run_in};
use crate::state::{
    awaits_insertion, is_deletion_edit, new_state, same_deletion, same_insertion, ReplicaView,
};
use crate::text::TextEdit;
use crate::text_order::{
    comes_before, follows, lemma_order_strict, lemma_order_total, lemma_path_kept, parent, Births,
};

verus! {

/// Of two characters of a session one comes before the other, for all peers alike, and this does
/// not change while the session goes on.
pub proof fn law_characters_do_not_move(h: History, g: History, a: CharId, b: CharId)
    requires
        h.wf(),
        g.wf(),
        g.continues(h),
        h.births.contains_key(a),
        h.births.contains_key(b),
        a != b,
    ensures
        comes_before(h.births, a, b) != comes_before(h.births, b, a),
        comes_before(g.births, a, b) == comes_before(h.births, a, b),
{
    lemma_order_total(h.births, a, b);
    if comes_before(h.births, a, b) {
        lemma_order_strict(h.births, a, b);
    } else {
        lemma_order_strict(h.births, b, a);
    }
    lemma_path_kept(h.births, g.births, a);
    lemma_path_kept(h.births, g.births, b);
}

/// The insertion that a new replica starts with.
spec fn initial_insertion(id: ReplicaId, len: int) -> Insertion {
    Insertion {
        anchor: Anchor::origin(),
        anchor_ts: 0,
        text: initial_run(id, len).text,
        lamport_ts: 0,
        insertion_ts: 0,
    }
}

/// A session that has just been started holds nothing but the text of the first replica.
proof fn lemma_initial_history(id: ReplicaId, len: int)
    requires
        0 <= len <= usize::MAX,
    ensures
        History::initial(id, len).wf(),
        len > 0 ==> History::initial(id, len).has_edit(
            EditView::Insertion(initial_insertion(id, len)),
        ),
{
    let h = History::initial(id, len);
    let run = initial_run(id, len);
    let chars = run.chars();
    assert forall|c: CharId| #[trigger] h.births.contains_key(c) implies run.holds(c)
        && h.births[c] == chars[c.ts] && chars[c.ts].id == c by {}
    assert forall|c: CharId|
        #[trigger] h.births.contains_key(c) && !h.births[c].anchor.is_origin() implies {
        &&& h.births.contains_key(parent(h.births[c]))
        &&& follows(h.births[c], h.births[parent(h.births[c])])
    } by {
        let p = parent(h.births[c]);
        assert(p == CharId { by: id, ts: c.ts - 1 });
        assert(run.holds(p));
        assert(h.births.contains_key(p));
    }
    assert forall|c: CharId, ts: int| h.births.contains_key(c) && 0 <= ts < c.ts implies {
        &&& #[trigger] h.births.contains_key(CharId { by: c.by, ts })
        &&& h.births[CharId { by: c.by, ts }].lamport_ts <= h.births[c].lamport_ts
        &&& h.births[CharId { by: c.by, ts }].lamport_ts == h.births[c].lamport_ts ==> {
            &&& !h.births[c].anchor.is_origin()
            &&& parent(h.births[c]) == CharId { by: c.by, ts: c.ts - 1 }
        }
    } by {
        assert(run.holds(CharId { by: c.by, ts }));
    }
    let insertion = initial_insertion(id, len);
    assert(EditRun::of(insertion) == run);
    assert(run_in(h.births, run)) by {
        assert forall|i: int| 0 <= i < run.spec_len() implies h.births.contains_key(
            (#[trigger] chars[i]).id,
        ) by {
            assert(run.holds(chars[i].id));
        }
    }
    assert(len > 0 ==> h.has_edit(EditView::Insertion(insertion)));
    assert forall|c: CharId| #[trigger] h.births.contains_key(c) implies h.is_of_insertion(c) by {
        reveal(History::is_of_insertion);
        assert(h.has_edit(EditView::Insertion(insertion)) && EditRun::of(insertion).holds(c));
    }
    assert(h.wf());
}

/// The first replica starts a session.
#[verifier::spinoff_prover]
pub proof fn law_new_starts_a_session(id: ReplicaId, len: int)
    requires
        0 <= len <= usize::MAX,
    ensures
        History::initial(id, len).hosts(new_state(id, len)),
{
    let h = History::initial(id, len);
    let v = new_state(id, len);
    let run = initial_run(id, len);
    let chars = run.chars();
    let none = Map::total(|id: ReplicaId| 0int);
    let insertion = initial_insertion(id, len);
    lemma_initial_history(id, len);
    let nothing = Seq::<Char>::empty();
    assert(complete(nothing, none));
    assert(h.makes(nothing, none, none));
    if len > 0 {
        lemma_makes_with_insertion(h, nothing, none, none, insertion);
        assert(splice(nothing, 0, chars) =~= v.doc);
        assert(v.versions =~= none.insert(id, len));
    } else {
        assert(v.doc =~= nothing);
        assert(v.versions =~= none);
    }
    assert(v.deletions =~= none);
    assert(complete(v.doc, v.versions)) by {
        assert forall|c: CharId| 0 <= c.ts < v.versions[c.by] implies #[trigger] has_char(
            v.doc,
            c,
        ) by {
            assert(v.doc[c.ts].id == c);
        }
    }
    lemma_visible_run(run);
    assert(v.versions.dom() =~= Set::<ReplicaId>::full());
    assert(v.deletions.dom() =~= Set::<ReplicaId>::full());
}

/// A replica that is forked from one of a session is part of the session, if its id is new there.
pub proof fn law_fork_joins_the_session(h: History, v: ReplicaView, new_id: ReplicaId)
    requires
        h.hosts(v),
        h.has_nothing_of(new_id),
        v.lamport_clock.0 < u64::MAX,
    ensures
        h.hosts(v.forked(new_id)),
        v.forked(new_id).buffer() == v.buffer(),
{
    let w = v.forked(new_id);
    assert(v.versions[new_id] == 0) by {
        if v.versions[new_id] > 0 {
            let c = CharId { by: new_id, ts: 0 };
            assert(has_char(v.doc, c));
            assert(v.doc[index_of_char(v.doc, c)].id == c);
            assert(h.births.contains_key(CharId { by: new_id, ts: 0 }));
        }
    }
    assert(v.deletions[new_id] == 0) by {
        if v.deletions[new_id] > 0 {
            assert(h.deletions.contains_key((new_id, 1)));
        }
    }
    assert(w.versions =~= v.versions);
    assert(w.deletions =~= v.deletions);
    assert forall|i: int| 0 <= i < w.doc.len() implies (#[trigger] w.doc[i]).id.by != new_id by {
        assert(h.births.contains_key(CharId { by: v.doc[i].id.by, ts: v.doc[i].id.ts }));
    }
    assert forall|i: int| 0 <= i < w.doc.len() implies (#[trigger] w.doc[i]).lamport_ts
        < w.lamport_clock.0 by {
        assert(v.doc[i].lamport_ts < v.lamport_clock.0);
    }
}

/// What a peer inserts becomes part of the session, and no peer leaves it.
pub proof fn law_insertions_are_shared(h: History, v: ReplicaView, offset: int, len: int)
    requires
        h.hosts(v),
        0 < len,
        0 <= offset <= v.buffer().len(),
        v.has_room_to_insert(offset, len),
    ensures
        ({
            let edit = EditView::Insertion(v.insertion_made(offset, len));
            let g = h.with_edit(edit);
            &&& g.has_edit(edit)
            &&& g.continues(h)
            &&& g.hosts(v.inserted(offset, len))
            &&& forall|w: ReplicaView| #[trigger] h.hosts(w) && w.id != v.id ==> g.hosts(w)
        }),
{
    lemma_hosts_inserted(h, v, offset, len);
}

/// What a peer deletes becomes part of the session, and no peer leaves it.
pub proof fn law_deletions_are_shared(h: History, v: ReplicaView, start: int, end: int)
    requires
        h.hosts(v),
        0 <= start < end <= v.buffer().len(),
        v.deletions[v.id] + 1 < u64::MAX,
    ensures
        ({
            let edit = EditView::Deletion(v.deletion_made(start, end));
            let g = h.with_edit(edit);
            &&& g.has_edit(edit)
            &&& g.continues(h)
            &&& g.hosts(v.deleted(start, end))
            &&& forall|w: ReplicaView| #[trigger] h.hosts(w) && w.id != v.id ==> g.hosts(w)
        }),
{
    lemma_hosts_deleted(h, v, start, end);
}

/// A peer stays in the session whichever edit of the session it merges.
pub proof fn law_merging_stays_in_the_session(h: History, v: ReplicaView, edit: EditView)
    requires
        h.hosts(v),
        h.has_edit(edit),
        v.takes(edit) ==> v.has_room_to_merge(edit),
    ensures
        h.hosts(v.merged(edit)),
{
    match edit {
        EditView::Insertion(insertion) => {
            if v.takes(edit) {
                lemma_hosts_with_insertion(h, v, insertion);
            }
        },
        EditView::Deletion(deletion) => {
            assert(h.deletions.contains_key((deletion.by, deletion.deletion_ts)));
            if v.takes(edit) {
                lemma_hosts_with_deletion(h, v, deletion);
            }
        },
        EditView::NoOp => {},
    }
}

/// A peer stays in the session when it integrates an edit that has waited.
pub proof fn law_draining_stays_in_the_session(
    h: History,
    v: ReplicaView,
    after: ReplicaView,
    text_edit: Option<TextEdit>,
)
    requires
        h.hosts(v),
        v.drains_into(after, text_edit),
        forall|i: int| #[trigger]
            v.first_ready_insertion(i) ==> v.has_room_for(v.pending_insertions[i]),
    ensures
        h.hosts(after),
{
    if exists|i: int| #[trigger] v.first_ready_insertion(i) {
        let i = choose|i: int| #[trigger] v.first_ready_insertion(i);
        lemma_hosts_with_insertion(h, v, v.pending_insertions[i]);
        assert(h.hosts(v.with_pending_insertion(i)));
    } else {
        lemma_no_ready_insertion(v, v.pending_insertions.len() as int);
        if exists|i: int| #[trigger] v.first_ready_deletion(i) {
            let i = choose|i: int| #[trigger] v.first_ready_deletion(i);
            lemma_hosts_with_deletion(h, v, v.pending_deletions[i]);
            assert(h.hosts(v.with_pending_deletion(i)));
        } else {
            lemma_no_ready_deletion(v, v.pending_deletions.len() as int);
        }
    }
}

/// Where no insertion is the first that can be integrated, none can be.
proof fn lemma_no_ready_insertion(v: ReplicaView, n: int)
    requires
        0 <= n <= v.pending_insertions.len(),
        forall|i: int| !#[trigger] v.first_ready_insertion(i),
    ensures
        forall|j: int|
            0 <= j < n ==> !v.can_merge_insertion(#[trigger] v.pending_insertions[j]),
    decreases n,
{
    if n > 0 {
        lemma_no_ready_insertion(v, n - 1);
        assert(!v.first_ready_insertion(n - 1));
    }
}

/// Where no deletion is the first that can be integrated, none can be.
proof fn lemma_no_ready_deletion(v: ReplicaView, n: int)
    requires
        0 <= n <= v.pending_deletions.len(),
        forall|i: int| !#[trigger] v.first_ready_deletion(i),
    ensures
        forall|j: int|
            0 <= j < n ==> !v.can_merge_deletion(#[trigger] v.pending_deletions[j]),
    decreases n,
{
    if n > 0 {
        lemma_no_ready_deletion(v, n - 1);
        assert(!v.first_ready_deletion(n - 1));
    }
}

/// Two texts in order that hold the same characters are the same.
proof fn lemma_one_order(births: Births, a: Seq<Char>, b: Seq<Char>)
    requires
        in_text_order(births, a),
        in_text_order(births, b),
        forall|id: CharId| #[trigger] has_char(a, id) <==> has_char(b, id),
    ensures
        a.len() == b.len(),
        forall|i: int| 0 <= i < a.len() ==> (#[trigger] a[i]).id == b[i].id,
    decreases a.len(),
{
    if a.len() == 0 {
        if b.len() > 0 {
            assert(has_char(b, b[0].id));
            assert(has_char(a, b[0].id));
        }
    } else {
        let x = a.last().id;
        assert(a[a.len() - 1].id == x);
        assert(has_char(a, x));
        let j = index_of_char(b, x);
        assert(has_char(b, x));
        assert(b[j].id == x);
        if j < b.len() - 1 {
            let y = b.last().id;
            assert(b[b.len() - 1].id == y);
            assert(has_char(b, y));
            assert(has_char(a, y));
            let i = index_of_char(a, y);
            assert(a[i].id == y);
            assert(comes_before(births, b[j].id, b[b.len() - 1].id));
            lemma_order_strict(births, x, y);
            assert(comes_before(births, a[i].id, a[a.len() - 1].id));
        }
        let c = a.drop_last();
        let d = b.drop_last();
        assert forall|id: CharId| #[trigger] has_char(c, id) <==> has_char(d, id) by {
            if has_char(c, id) {
                let k = index_of_char(c, id);
                assert(c[k].id == id && a[k].id == id);
                assert(comes_before(births, a[k].id, a[a.len() - 1].id));
                lemma_order_strict(births, id, x);
                assert(has_char(a, id));
                assert(has_char(b, id));
                let l = index_of_char(b, id);
                assert(b[l].id == id);
                assert(d[l].id == id);
            }
            if has_char(d, id) {
                let k = index_of_char(d, id);
                assert(d[k].id == id && b[k].id == id);
                assert(comes_before(births, b[k].id, b[b.len() - 1].id));
                lemma_order_strict(births, id, x);
                assert(has_char(b, id));
                assert(has_char(a, id));
                let l = index_of_char(a, id);
                assert(a[l].id == id);
                assert(c[l].id == id);
            }
        }
        assert(in_text_order(births, c)) by {
            assert forall|i: int, j: int| 0 <= i < j < c.len() implies comes_before(
                births,
                (#[trigger] c[i]).id,
                (#[trigger] c[j]).id,
            ) by {
                assert(comes_before(births, a[i].id, a[j].id));
            }
        }
        assert(in_text_order(births, d)) by {
            assert forall|i: int, j: int| 0 <= i < j < d.len() implies comes_before(
                births,
                (#[trigger] d[i]).id,
                (#[trigger] d[j]).id,
            ) by {
                assert(comes_before(births, b[i].id, b[j].id));
            }
        }
        lemma_one_order(births, c, d);
        assert forall|i: int| 0 <= i < a.len() implies (#[trigger] a[i]).id == b[i].id by {
            if i < a.len() - 1 {
                assert(c[i].id == d[i].id);
            }
        }
    }
}

/// Peers that have integrated the same edits have the same text, in whatever order they did so.
pub proof fn law_convergence(h: History, v: ReplicaView, w: ReplicaView)
    requires
        h.hosts(v),
        h.hosts(w),
        v.versions == w.versions,
        v.deletions == w.deletions,
    ensures
        v.doc == w.doc,
        v.buffer() == w.buffer(),
{
    assert forall|id: CharId| #[trigger] has_char(v.doc, id) <==> has_char(w.doc, id) by {
        if has_char(v.doc, id) {
            let i = index_of_char(v.doc, id);
            assert(v.doc[i].id == id);
        }
        if has_char(w.doc, id) {
            let i = index_of_char(w.doc, id);
            assert(w.doc[i].id == id);
        }
    }
    lemma_one_order(h.births, v.doc, w.doc);
    assert forall|i: int| 0 <= i < v.doc.len() implies v.doc[i] == w.doc[i] by {
        assert(v.doc[i].id == w.doc[i].id);
        assert(v.doc[i].deleted == h.is_deleted(v.deletions, v.doc[i].id));
        assert(w.doc[i].deleted == h.is_deleted(w.deletions, w.doc[i].id));
    }
    assert(v.doc =~= w.doc);
}

/// A character that has not been integrated came with an insertion that waits.
proof fn lemma_waiting_insertion(h: History, v: ReplicaView, id: CharId) -> (i: int)
    requires
        h.hosts(v),
        h.is_received_by(v),
        h.births.contains_key(id),
        !known(v.versions, id),
    ensures
        0 <= i < v.pending_insertions.len(),
        h.has_edit(EditView::Insertion(v.pending_insertions[i])),
        v.pending_insertions[i].text.inserted_by == id.by,
        v.versions[id.by] <= v.pending_insertions[i].text.start <= id.ts,
{
    assert(h.is_of_insertion(id));
    reveal(History::is_of_insertion);
    let insertion = choose|insertion: Insertion|
        #[trigger] h.has_edit(EditView::Insertion(insertion)) && EditRun::of(insertion).holds(id);
    let n = v.versions[id.by];
    assert(v.has_received(EditView::Insertion(insertion)));
    assert(h.is_seam(id.by, n));
    if insertion.text.start < n {
        // The insertion would have been integrated in part.
        assert(!h.is_seam(id.by, n));
    }
    assert(awaits_insertion(v.pending_insertions, insertion));
    choose|i: int|
        0 <= i < v.pending_insertions.len() && same_insertion(
            #[trigger] v.pending_insertions[i],
            insertion,
        )
}

/// The characters that an insertion depends on.
proof fn lemma_dependencies(h: History, insertion: Insertion)
    requires
        h.wf(),
        h.has_edit(EditView::Insertion(insertion)),
    ensures
        ({
            let by = insertion.text.inserted_by;
            let start = insertion.text.start as int;
            let first = CharId { by, ts: start };
            let before = CharId { by, ts: start - 1 };
            let anchor = char_before(insertion.anchor);
            &&& h.births.contains_key(first)
            &&& start > 0 ==> {
                &&& h.births.contains_key(before)
                &&& h.births[before].lamport_ts <= h.births[first].lamport_ts
            }
            &&& !insertion.anchor.is_origin() ==> {
                &&& h.births.contains_key(anchor)
                &&& anchor.ts >= 0
                &&& h.births[anchor].lamport_ts < h.births[first].lamport_ts || (
                h.births[anchor].lamport_ts == h.births[first].lamport_ts && anchor.ts < start)
            }
        }),
{
    let by = insertion.text.inserted_by;
    let start = insertion.text.start as int;
    let first = CharId { by, ts: start };
    let chars = EditRun::of(insertion).chars();
    assert(chars[0].id == first);
    assert(h.births[chars[0].id] == chars[0]);
    if start > 0 {
        assert(h.births.contains_key(CharId { by: first.by, ts: start - 1 }));
    }
    if !insertion.anchor.is_origin() {
        assert(parent(h.births[first]) == char_before(insertion.anchor));
        assert(follows(h.births[first], h.births[parent(h.births[first])]));
    }
}

/// A character of the session has been integrated where everything has come in and nothing that
/// waits can be integrated.
proof fn lemma_char_delivered(h: History, v: ReplicaView, id: CharId)
    requires
        h.hosts(v),
        h.is_received_by(v),
        v.no_ready_insertion(),
        h.births.contains_key(id),
    ensures
        known(v.versions, id),
    decreases h.births[id].lamport_ts, id.ts,
{
    if !known(v.versions, id) {
        let i = lemma_waiting_insertion(h, v, id);
        let insertion = v.pending_insertions[i];
        let start = insertion.text.start as int;
        lemma_dependencies(h, insertion);
        assert(h.births[CharId { by: id.by, ts: start }].lamport_ts <= h.births[id].lamport_ts) by {
            if start < id.ts {
                assert(h.births.contains_key(CharId { by: id.by, ts: start }));
            } else {
                assert(id == CharId { by: id.by, ts: start });
            }
        }
        if v.versions[id.by] < start {
            lemma_char_delivered(h, v, CharId { by: id.by, ts: start - 1 });
        }
        if !insertion.anchor.is_origin() {
            lemma_char_delivered(h, v, char_before(insertion.anchor));
        }
        assert(v.can_merge_insertion(v.pending_insertions[i]));
    }
}

/// A deletion of the session has been integrated where everything has come in and nothing that
/// waits can be integrated.
proof fn lemma_deletion_delivered(h: History, v: ReplicaView, by: ReplicaId, ts: int)
    requires
        h.hosts(v),
        h.is_received_by(v),
        v.no_ready_deletion(),
        forall|id: CharId| #[trigger] h.births.contains_key(id) ==> known(v.versions, id),
        h.deletions.contains_key((by, ts)),
    ensures
        ts <= v.deletions[by],
    decreases ts,
{
    if ts > v.deletions[by] {
        let deletion = h.deletions[(by, ts)];
        if ts > 1 {
            assert(h.deletions.contains_key((by, ts - 1)));
            lemma_deletion_delivered(h, v, by, ts - 1);
        }
        assert(h.has_edit(EditView::Deletion(deletion)));
        assert(v.has_received(EditView::Deletion(deletion)));
        let i = choose|i: int|
            0 <= i < v.pending_deletions.len() && same_deletion(
                #[trigger] v.pending_deletions[i],
                deletion,
            );
        assert(h.has_edit(EditView::Deletion(v.pending_deletions[i])));
        assert(v.pending_deletions[i] == deletion);
        assert forall|id: ReplicaId| #[trigger] v.versions[id] >= deletion.versions[id] by {
            let n = deletion.versions[id];
            if n > 0 {
                assert(h.births.contains_key(CharId { by: id, ts: n - 1 }));
            }
        }
        assert(v.can_merge_deletion(v.pending_deletions[i]));
    }
}

/// A peer that has received all edits of the session, in whatever order, and that has integrated
/// what it could of those that waited, has integrated all of them.
pub proof fn law_nothing_waits_forever(h: History, v: ReplicaView)
    requires
        h.hosts(v),
        h.is_received_by(v),
        v.no_ready_insertion(),
        v.no_ready_deletion(),
    ensures
        h.is_integrated_by(v),
{
    assert forall|id: CharId| #[trigger] h.births.contains_key(id) implies known(
        v.versions,
        id,
    ) by {
        lemma_char_delivered(h, v, id);
    }
    assert forall|by: ReplicaId, ts: int| #[trigger] h.deletions.contains_key((by, ts)) implies ts
        <= v.deletions[by] by {
        lemma_deletion_delivered(h, v, by, ts);
    }
}

/// What one peer has integrated is all that another one has, where that one has everything.
proof fn lemma_counts_at_most(h: History, v: ReplicaView, w: ReplicaView)
    requires
        h.hosts(v),
        h.hosts(w),
        h.is_integrated_by(w),
    ensures
        within(v.versions, w.versions),
        within(v.deletions, w.deletions),
{
    assert forall|id: ReplicaId| #[trigger] v.versions[id] <= w.versions[id] by {
        let n = v.versions[id];
        assert(w.versions[id] >= 0);
        if n > 0 {
            let last = CharId { by: id, ts: n - 1 };
            assert(has_char(v.doc, last));
            assert(v.doc[index_of_char(v.doc, last)].id == last);
            assert(h.births.contains_key(last));
        }
    }
    assert forall|id: ReplicaId| #[trigger] v.deletions[id] <= w.deletions[id] by {
        assert(w.deletions[id] >= 0);
        if v.deletions[id] > 0 {
            assert(h.deletions.contains_key((id, v.deletions[id])));
        }
    }
}

/// All peers that have received all edits of the session, each in an order of its own, and that
/// have integrated what they could of those that waited, have the same text.
pub proof fn law_all_peers_converge(h: History, v: ReplicaView, w: ReplicaView)
    requires
        h.hosts(v),
        h.hosts(w),
        h.is_received_by(v),
        h.is_received_by(w),
        v.no_ready_insertion(),
        v.no_ready_deletion(),
        w.no_ready_insertion(),
        w.no_ready_deletion(),
    ensures
        v.doc == w.doc,
        v.buffer() == w.buffer(),
{
    law_nothing_waits_forever(h, v);
    law_nothing_waits_forever(h, w);
    lemma_counts_at_most(h, v, w);
    lemma_counts_at_most(h, w, v);
    assert forall|id: ReplicaId| v.versions[id] == w.versions[id] && v.deletions[id]
        == w.deletions[id] by {
        assert(v.versions[id] <= w.versions[id] && w.versions[id] <= v.versions[id]);
        assert(v.deletions[id] <= w.deletions[id] && w.deletions[id] <= v.deletions[id]);
    }
    assert(v.versions =~= w.versions);
    assert(v.deletions =~= w.deletions);
    law_convergence(h, v, w);
}

/// An edit that has been merged has been received, and stays so.
pub proof fn law_merged_edits_are_kept(v: ReplicaView, edit: EditView, other: EditView)
    requires
        edit.wf(),
        other.wf(),
    ensures
        v.merged(edit).has_received(edit),
        v.has_received(other) ==> v.merged(edit).has_received(other),
{
    let after = v.merged(edit);
    match edit {
        EditView::Insertion(insertion) => {
            if after.pending_insertions != v.pending_insertions {
                let last = v.pending_insertions.len() as int;
                assert(same_insertion(after.pending_insertions[last], insertion));
            }
        },
        EditView::Deletion(deletion) => {
            if after.pending_deletions != v.pending_deletions {
                let last = v.pending_deletions.len() as int;
                assert(same_deletion(after.pending_deletions[last], deletion));
            }
        },
        EditView::NoOp => {},
    }
    if v.has_received(other) {
        match other {
            EditView::Insertion(insertion) => {
                if !v.has_merged_insertion(insertion) {
                    let i = choose|i: int|
                        0 <= i < v.pending_insertions.len() && same_insertion(
                            #[trigger] v.pending_insertions[i],
                            insertion,
                        );
                    assert(same_insertion(after.pending_insertions[i], insertion));
                }
            },
            EditView::Deletion(deletion) => {
                if !v.has_merged_deletion(deletion) {
                    let i = choose|i: int|
                        0 <= i < v.pending_deletions.len() && same_deletion(
                            #[trigger] v.pending_deletions[i],
                            deletion,
                        );
                    assert(same_deletion(after.pending_deletions[i], deletion));
                }
            },
            EditView::NoOp => {},
        }
    }
}

/// An edit that has been received stays so when one that has waited is integrated.
pub proof fn law_draining_loses_no_edit(
    v: ReplicaView,
    after: ReplicaView,
    text_edit: Option<TextEdit>,
    edit: EditView,
)
    requires
        v.wf(),
        v.drains_into(after, text_edit),
        v.has_received(edit),
    ensures
        after.has_received(edit),
{
    if exists|i: int| #[trigger] v.first_ready_insertion(i) {
        let i = choose|i: int| #[trigger] v.first_ready_insertion(i);
        let integrated = v.pending_insertions[i];
        assert(after == v.with_pending_insertion(i));
        if let EditView::Insertion(insertion) = edit {
            if !v.has_merged_insertion(insertion) && !same_insertion(integrated, insertion) {
                let j = choose|j: int|
                    0 <= j < v.pending_insertions.len() && same_insertion(
                        #[trigger] v.pending_insertions[j],
                        insertion,
                    );
                if j < i {
                    assert(same_insertion(after.pending_insertions[j], insertion));
                } else {
                    assert(same_insertion(after.pending_insertions[j - 1], insertion));
                }
            }
        }
    } else {
        lemma_no_ready_insertion(v, v.pending_insertions.len() as int);
        if exists|i: int| #[trigger] v.first_ready_deletion(i) {
            let i = choose|i: int| #[trigger] v.first_ready_deletion(i);
            let integrated = v.pending_deletions[i];
            assert(after == v.with_pending_deletion(i));
            if let EditView::Deletion(deletion) = edit {
                if !v.has_merged_deletion(deletion) && !same_deletion(integrated, deletion) {
                    let j = choose|j: int|
                        0 <= j < v.pending_deletions.len() && same_deletion(
                            #[trigger] v.pending_deletions[j],
                            deletion,
                        );
                    if j < i {
                        assert(same_deletion(after.pending_deletions[j], deletion));
                    } else {
                        assert(same_deletion(after.pending_deletions[j - 1], deletion));
                    }
                }
            }
        } else {
            lemma_no_ready_deletion(v, v.pending_deletions.len() as int);
        }
    }
}

/// Merging an edit twice does what merging it once does.
pub proof fn law_merging_is_idempotent(v: ReplicaView, edit: EditView)
    requires
        edit.wf(),
    ensures
        v.merged(edit).merged(edit) == v.merged(edit),
        !v.merged(edit).takes(edit),
{
    let after = v.merged(edit);
    match edit {
        EditView::Insertion(insertion) => {
            if after.pending_insertions != v.pending_insertions {
                let last = v.pending_insertions.len() as int;
                assert(same_insertion(after.pending_insertions[last], insertion));
            }
        },
        EditView::Deletion(deletion) => {
            if after.pending_deletions != v.pending_deletions {
                let last = v.pending_deletions.len() as int;
                assert(same_deletion(after.pending_deletions[last], deletion));
            }
        },
        EditView::NoOp => {},
    }
}

/// A replica that merges its own edits does not change.
pub proof fn law_own_edits_are_merged_already(h: History, v: ReplicaView, edit: EditView)
    requires
        h.hosts(v),
        h.has_edit(edit),
        edit.made_by(v.id),
    ensures
        v.merged(edit) == v,
        !v.takes(edit),
{
    match edit {
        EditView::Insertion(insertion) => {
            let chars = EditRun::of(insertion).chars();
            assert(h.births.contains_key(chars[0].id));
            assert(chars[0].id == CharId { by: v.id, ts: insertion.text.start as int });
        },
        EditView::Deletion(deletion) => {
            assert(h.deletions.contains_key((v.id, deletion.deletion_ts)));
        },
        EditView::NoOp => {},
    }
}

/// An edit that does nothing is merged as nothing.
pub proof fn law_no_op_is_merged_as_nothing(v: ReplicaView)
    ensures
        v.merged(EditView::NoOp) == v,
        !v.takes(EditView::NoOp),
{
}

/// Edits that two other peers have made concurrently may be merged in any order.
pub proof fn law_concurrent_edits_commute(h: History, v: ReplicaView, a: EditView, b: EditView)
    requires
        h.hosts(v),
        h.has_edit(a),
        h.has_edit(b),
        forall|id: ReplicaId| !(#[trigger] a.made_by(id) && b.made_by(id)),
        v.takes(a),
        v.takes(b),
        v.has_room_to_merge(a),
        v.has_room_to_merge(b),
        v.merged(a).has_room_to_merge(b),
        v.merged(b).has_room_to_merge(a),
    ensures
        v.merged(a).takes(b),
        v.merged(b).takes(a),
        v.merged(a).merged(b).doc == v.merged(b).merged(a).doc,
        v.merged(a).merged(b).buffer() == v.merged(b).merged(a).buffer(),
{
    lemma_still_takes(h, v, a, b);
    lemma_still_takes(h, v, b, a);
    law_merging_stays_in_the_session(h, v, a);
    law_merging_stays_in_the_session(h, v, b);
    law_merging_stays_in_the_session(h, v.merged(a), b);
    law_merging_stays_in_the_session(h, v.merged(b), a);
    let ab = v.merged(a).merged(b);
    let ba = v.merged(b).merged(a);
    assert(ab.versions =~= ba.versions);
    assert(ab.deletions =~= ba.deletions);
    law_convergence(h, ab, ba);
}

/// An edit that could be integrated still can be after an edit of another peer has been.
proof fn lemma_still_takes(h: History, v: ReplicaView, a: EditView, b: EditView)
    requires
        h.hosts(v),
        h.has_edit(a),
        h.has_edit(b),
        forall|id: ReplicaId| !(#[trigger] a.made_by(id) && b.made_by(id)),
        v.takes(a),
        v.takes(b),
    ensures
        v.merged(a).takes(b),
        a is Insertion && b is Insertion ==> a->Insertion_0.text.inserted_by
            != b->Insertion_0.text.inserted_by,
        a is Deletion && b is Deletion ==> a->Deletion_0.by != b->Deletion_0.by,
{
    let after = v.merged(a);
    match a {
        EditView::Insertion(insertion) => {
            assert(a.made_by(insertion.text.inserted_by));
            match b {
                EditView::Insertion(other) => {
                    assert(b.made_by(other.text.inserted_by));
                },
                EditView::Deletion(deletion) => {
                    assert forall|id: ReplicaId| #[trigger]
                        after.versions[id] >= deletion.versions[id] by {
                        assert(v.versions[id] >= deletion.versions[id]);
                    }
                },
                EditView::NoOp => {},
            }
        },
        EditView::Deletion(deletion) => {
            assert(a.made_by(deletion.by));
            if let EditView::Deletion(other) = b {
                assert(b.made_by(other.by));
            }
        },
        EditView::NoOp => {},
    }
}

/// What is deleted from the text is what the text edit cuts out of the buffer.
proof fn lemma_cut_buffer(doc: Seq<Char>, after: Seq<Char>, edit: TextEdit)
    requires
        is_deletion_edit(edit, doc, after),
        after.len() == doc.len(),
        forall|i: int|
            0 <= i < doc.len() ==> (#[trigger] after[i]).id == doc[i].id && (doc[i].deleted
                ==> after[i].deleted),
    ensures
        visible(after) == apply_text_edit(visible(doc), edit),
{
    let n = doc.len() as int;
    assert(doc.take(n) =~= doc);
    assert(after.take(n) =~= after);
    match edit {
        TextEdit::Insertion(_, _) => {},
        TextEdit::ContiguousDeletion(range) => {
            lemma_cut_is_deletion(doc, after, seq![range], n);
            assert(seq![range][0].end <= visible(doc).len());
            lemma_cut_one(visible(doc), range);
        },
        TextEdit::SplitDeletion(ranges) => {
            lemma_cut_is_deletion(doc, after, ranges@, n);
        },
    }
}

/// A buffer that follows the text edits that merging returns stays the one that the replica speaks
/// of.
pub proof fn law_text_edits_keep_the_buffer_up_to_date(
    v: ReplicaView,
    edit: EditView,
    text_edit: TextEdit,
)
    requires
        v.wf(),
        edit.wf(),
        v.takes(edit),
        v.tells(edit, text_edit),
    ensures
        v.merged(edit).buffer() == apply_text_edit(v.buffer(), text_edit),
{
    match edit {
        EditView::Insertion(insertion) => {
            let run = EditRun::of(insertion);
            let place = v.place_of_insertion(insertion);
            let offset = v.offset_of_insertion(insertion);
            let after = if insertion.anchor.is_origin() {
                0
            } else {
                index_of_char(v.doc, char_before(insertion.anchor)) + 1
            };
            if !insertion.anchor.is_origin() {
                assert(has_char(v.doc, char_before(insertion.anchor)));
            }
            lemma_skip_outranking_bounds(
                v.doc,
                after,
                insertion.lamport_ts,
                insertion.text.inserted_by,
            );
            lemma_splice_visible(v.doc, place, run.chars());
            lemma_visible_run(run);
            lemma_visible_cut(v.doc, place);
            assert(v.buffer().take(offset) =~= visible(v.doc.take(place)));
            assert(v.buffer().skip(offset) =~= visible(v.doc.skip(place)));
        },
        EditView::Deletion(deletion) => {
            lemma_cut_buffer(v.doc, v.with_deletion(deletion).doc, text_edit);
        },
        EditView::NoOp => {},
    }
}

/// A buffer that follows the text edits that come of edits that have waited stays the one that the
/// replica speaks of.
pub proof fn law_drained_edits_keep_the_buffer_up_to_date(
    v: ReplicaView,
    after: ReplicaView,
    text_edit: Option<TextEdit>,
)
    requires
        v.wf(),
        v.drains_into(after, text_edit),
    ensures
        text_edit matches Some(edit) ==> after.buffer() == apply_text_edit(v.buffer(), edit),
        text_edit is None ==> after == v,
{
    if exists|i: int| #[trigger] v.first_ready_insertion(i) {
        let i = choose|i: int| #[trigger] v.first_ready_insertion(i);
        law_text_edits_keep_the_buffer_up_to_date(
            v,
            EditView::Insertion(v.pending_insertions[i]),
            text_edit->0,
        );
    } else {
        lemma_no_ready_insertion(v, v.pending_insertions.len() as int);
        if exists|i: int| #[trigger] v.first_ready_deletion(i) {
            let i = choose|i: int| #[trigger] v.first_ready_deletion(i);
            law_text_edits_keep_the_buffer_up_to_date(
                v,
                EditView::Deletion(v.pending_deletions[i]),
                text_edit->0,
            );
        } else {
            lemma_no_ready_deletion(v, v.pending_deletions.len() as int);
        }
    }
}

/// Each edit that has waited and is integrated is one less to wait, and `None` says that none of
/// the others can be integrated.
pub proof fn law_draining_ends(v: ReplicaView, after: ReplicaView, text_edit: Option<TextEdit>)
    requires
        v.drains_into(after, text_edit),
    ensures
        text_edit is Some ==> after.pending_insertions.len() + after.pending_deletions.len() + 1
            == v.pending_insertions.len() + v.pending_deletions.len(),
        text_edit is None ==> v.no_ready_insertion() && v.no_ready_deletion(),
{
    if exists|i: int| #[trigger] v.first_ready_insertion(i) {
        let i = choose|i: int| #[trigger] v.first_ready_insertion(i);
        assert(after == v.with_pending_insertion(i));
    } else {
        lemma_no_ready_insertion(v, v.pending_insertions.len() as int);
        if exists|i: int| #[trigger] v.first_ready_deletion(i) {
            let i = choose|i: int| #[trigger] v.first_ready_deletion(i);
            assert(after == v.with_pending_deletion(i));
        } else {
            lemma_no_ready_deletion(v, v.pending_deletions.len() as int);
        }
    }
}

/// After a peer has told its replica of an insertion, the replica speaks of the buffer that the
/// peer has.
pub proof fn law_insertions_keep_the_buffer_up_to_date(v: ReplicaView, offset: int, len: int)
    requires
        v.wf(),
        0 < len,
        0 <= offset <= v.buffer().len(),
        v.has_room_to_insert(offset, len),
    ensures
        v.inserted(offset, len).buffer() == v.buffer().take(offset) + text_ids(v.next_text(len))
            + v.buffer().skip(offset),
{
    let run = EditRun::of(v.insertion_made(offset, len));
    let place = place_of(v.doc, offset);
    lemma_place(v.doc, offset);
    lemma_splice_visible(v.doc, place, run.chars());
    lemma_visible_run(run);
    lemma_visible_cut(v.doc, place);
    assert(v.buffer().take(offset) =~= visible(v.doc.take(place)));
    assert(v.buffer().skip(offset) =~= visible(v.doc.skip(place)));
}

/// After a peer has told its replica of a deletion, the replica speaks of the buffer that the peer
/// has.
pub proof fn law_deletions_keep_the_buffer_up_to_date(v: ReplicaView, start: int, end: int)
    requires
        v.wf(),
        0 <= start < end <= v.buffer().len(),
    ensures
        v.deleted(start, end).buffer() == v.buffer().take(start) + v.buffer().skip(end),
{
    let doc = v.doc;
    let after = v.deleted(start, end).doc;
    let range = std::ops::Range { start: start as usize, end: end as usize };
    let edit = TextEdit::ContiguousDeletion(range);
    let ranges = seq![range];
    assert forall|i: int| 0 <= i < doc.len() && !(#[trigger] doc[i]).deleted implies (
    after[i].deleted <==> in_ranges(ranges, visible(doc.take(i)).len() as int)) by {
        let x = visible(doc.take(i)).len() as int;
        lemma_index_of_visible(doc, i);
        if x < start {
            lemma_place_ascends(doc, x + 1, start + 1);
        } else {
            lemma_place_ascends(doc, start + 1, x + 1);
        }
        if x < end {
            lemma_place_ascends(doc, x + 1, end);
        } else {
            lemma_place_ascends(doc, end, x + 1);
        }
        if start <= x < end {
            assert(ranges[0].start <= x < ranges[0].end);
        }
    }
    lemma_cut_buffer(doc, after, edit);
}

/// No edit of a replica's own is among those that wait and can be integrated.
proof fn lemma_draining_is_of_others(
    h: History,
    v: ReplicaView,
    drained: ReplicaView,
    text_edit: Option<TextEdit>,
)
    requires
        h.hosts(v),
        v.drains_into(drained, text_edit),
    ensures
        drained.versions[v.id] == v.versions[v.id],
        drained.deletions[v.id] == v.deletions[v.id],
{
    if text_edit is Some {
        let edit = lemma_drained_edit(v, drained, text_edit->0);
        let k = choose|k: int|
            0 <= k < waiting(v).len() && waiting(v)[k] == edit && #[trigger] waiting(v).remove(k)
                == waiting(drained);
        if k < v.pending_insertions.len() {
            assert(h.has_edit(EditView::Insertion(v.pending_insertions[k])));
        } else {
            let i = k - v.pending_insertions.len();
            assert(h.has_edit(EditView::Deletion(v.pending_deletions[i])));
        }
        if edit.made_by(v.id) {
            law_own_edits_are_merged_already(h, v, edit);
        }
    } else {
        law_draining_ends(v, drained, text_edit);
    }
}

/// The deletions of a replica are numbered from 1 on, without gaps, and nothing else that the
/// replica does in the session uses up a number.
pub proof fn law_deletions_are_numbered(
    h: History,
    v: ReplicaView,
    start: int,
    end: int,
    offset: int,
    len: int,
    edit: EditView,
    new_id: ReplicaId,
    drained: ReplicaView,
    text_edit: Option<TextEdit>,
)
    requires
        h.hosts(v),
        h.has_edit(edit),
        v.drains_into(drained, text_edit),
    ensures
        new_state(new_id, len).deletions[new_id] == 0,
        v.forked(new_id).deletions[new_id] == 0,
        v.deletion_made(start, end).by == v.id,
        v.deletion_made(start, end).deletion_ts == v.deletions[v.id] + 1,
        v.deleted(start, end).deletions[v.id] == v.deletions[v.id] + 1,
        v.inserted(offset, len).deletions == v.deletions,
        v.merged(edit).deletions[v.id] == v.deletions[v.id],
        drained.deletions[v.id] == v.deletions[v.id],
{
    if edit.made_by(v.id) {
        law_own_edits_are_merged_already(h, v, edit);
    }
    lemma_draining_is_of_others(h, v, drained, text_edit);
}

/// The characters that a replica hands out have no gaps: each insertion takes the next ones, and
/// nothing else that the replica does in the session uses up any.
pub proof fn law_characters_have_no_gaps(
    h: History,
    v: ReplicaView,
    offset: int,
    len: int,
    start: int,
    end: int,
    edit: EditView,
    new_id: ReplicaId,
    drained: ReplicaView,
    text_edit: Option<TextEdit>,
)
    requires
        h.hosts(v),
        h.has_edit(edit),
        v.drains_into(drained, text_edit),
        0 < len,
        v.has_room_to_insert(offset, len),
    ensures
        new_state(new_id, len).versions[new_id] == len,
        v.forked(new_id).versions[new_id] == 0,
        v.insertion_made(offset, len).text.inserted_by == v.id,
        v.insertion_made(offset, len).text.start == v.versions[v.id],
        v.insertion_made(offset, len).text.end == v.versions[v.id] + len,
        v.inserted(offset, len).versions[v.id] == v.versions[v.id] + len,
        v.deleted(start, end).versions == v.versions,
        v.merged(edit).versions[v.id] == v.versions[v.id],
        drained.versions[v.id] == v.versions[v.id],
{
    if edit.made_by(v.id) {
        law_own_edits_are_merged_already(h, v, edit);
    }
    lemma_draining_is_of_others(h, v, drained, text_edit);
}

/// The timestamp of an insertion is not below that of any text that its replica has seen, and above
/// that of all text of other replicas.
pub proof fn law_timestamps_do_not_fall_back(
    h: History,
    v: ReplicaView,
    offset: int,
    len: int,
    i: int,
)
    requires
        h.hosts(v),
        0 < len,
        0 <= offset <= v.buffer().len(),
        v.has_room_to_insert(offset, len),
        0 <= i < v.doc.len(),
    ensures
        v.doc[i].lamport_ts <= v.insertion_made(offset, len).lamport_ts,
        v.doc[i].id.by != v.id ==> v.doc[i].lamport_ts < v.insertion_made(offset, len).lamport_ts,
{
    let c = v.doc[place_of(v.doc, offset) - 1];
    lemma_place(v.doc, offset);
    assert(v.doc[i].lamport_ts < v.lamport_clock.0);
    if v.carries_on(offset, len) {
        assert(c.id.by == v.id);
        assert(c.lamport_ts < v.lamport_clock.0);
        if v.doc[i].id.by != v.id {
            assert(v.doc[i].lamport_ts < c.lamport_ts);
        }
    }
}

/// All edits that wait, insertions first.
pub open spec fn waiting(v: ReplicaView) -> Seq<EditView> {
    Seq::new(
        v.pending_insertions.len(),
        |i: int| EditView::Insertion(v.pending_insertions[i]),
    ) + Seq::new(v.pending_deletions.len(), |i: int| EditView::Deletion(v.pending_deletions[i]))
}

/// Whether the edit has been integrated.
pub open spec fn is_merged(v: ReplicaView, edit: EditView) -> bool {
    match edit {
        EditView::Insertion(insertion) => v.has_merged_insertion(insertion),
        EditView::Deletion(deletion) => v.has_merged_deletion(deletion),
        EditView::NoOp => true,
    }
}

/// Whether a state comes of another one by the integration of the given edit, which has waited and
/// which the text edit tells of.
pub open spec fn drains_edit(
    v: ReplicaView,
    after: ReplicaView,
    edit: EditView,
    text_edit: TextEdit,
) -> bool {
    &&& v.takes(edit)
    &&& v.tells(edit, text_edit)
    &&& exists|k: int|
        0 <= k < waiting(v).len() && waiting(v)[k] == edit && #[trigger] waiting(v).remove(k)
            == waiting(after)
    &&& after == (ReplicaView {
        pending_insertions: after.pending_insertions,
        pending_deletions: after.pending_deletions,
        ..v.merged(edit)
    })
    &&& is_merged(after, edit)
    &&& within(v.versions, after.versions)
    &&& within(v.deletions, after.deletions)
}

/// The edit that is integrated when one that has waited is.
proof fn lemma_drained_edit(v: ReplicaView, after: ReplicaView, text_edit: TextEdit) -> (edit:
    EditView)
    requires
        v.wf(),
        v.drains_into(after, Some(text_edit)),
    ensures
        drains_edit(v, after, edit, text_edit),
{
    let n = v.pending_insertions.len() as int;
    if exists|i: int| #[trigger] v.first_ready_insertion(i) {
        let i = choose|i: int| #[trigger] v.first_ready_insertion(i);
        assert(after == v.with_pending_insertion(i));
        let edit = EditView::Insertion(v.pending_insertions[i]);
        assert(v.pending_insertions[i].wf());
        assert(waiting(v).remove(i) =~= waiting(after));
        assert(waiting(v)[i] == edit);
        edit
    } else {
        lemma_no_ready_insertion(v, n);
        if !(exists|i: int| #[trigger] v.first_ready_deletion(i)) {
            lemma_no_ready_deletion(v, v.pending_deletions.len() as int);
        }
        let i = choose|i: int| #[trigger] v.first_ready_deletion(i);
        assert(after == v.with_pending_deletion(i));
        let edit = EditView::Deletion(v.pending_deletions[i]);
        assert(v.pending_deletions[i].wf());
        assert(waiting(v).remove(n + i) =~= waiting(after));
        assert(waiting(v)[n + i] == edit);
        edit
    }
}

/// Whether the states come one of the other, each by the integration of an edit that has waited,
/// and none of the edits that are left can be integrated in the last one.
pub open spec fn is_drain(states: Seq<ReplicaView>, text_edits: Seq<TextEdit>) -> bool {
    &&& states.len() == text_edits.len() + 1
    &&& forall|i: int|
        0 <= i < text_edits.len() ==> states[i].drains_into(
            #[trigger] states[i + 1],
            Some(text_edits[i]),
        )
    &&& forall|i: int| 0 <= i < states.len() ==> (#[trigger] states[i]).wf()
    &&& states.last().drains_into(states.last(), None)
}

/// Whether two edits are the same one of a replica.
pub open spec fn same_edit(a: EditView, b: EditView) -> bool {
    match (a, b) {
        (EditView::Insertion(a), EditView::Insertion(b)) => same_insertion(a, b),
        (EditView::Deletion(a), EditView::Deletion(b)) => same_deletion(a, b),
        _ => false,
    }
}

/// No edit waits twice.
pub open spec fn waits_once(v: ReplicaView) -> bool {
    forall|i: int, j: int|
        0 <= i < j < waiting(v).len() ==> !same_edit(
            #[trigger] waiting(v)[i],
            #[trigger] waiting(v)[j],
        )
}

/// No edit ever waits twice: nothing waits in a new replica, and nothing that a replica does makes
/// an edit wait that waits already.
pub proof fn law_no_edit_waits_twice(
    v: ReplicaView,
    offset: int,
    len: int,
    start: int,
    end: int,
    edit: EditView,
    new_id: ReplicaId,
    drained: ReplicaView,
    text_edit: Option<TextEdit>,
)
    requires
        v.wf(),
        waits_once(v),
        v.drains_into(drained, text_edit),
    ensures
        waits_once(new_state(new_id, len)),
        waits_once(v.inserted(offset, len)),
        waits_once(v.deleted(start, end)),
        waits_once(v.forked(new_id)),
        waits_once(v.merged(edit)),
        waits_once(drained),
{
    assert(waiting(v.inserted(offset, len)) =~= waiting(v));
    assert(waiting(v.deleted(start, end)) =~= waiting(v));
    assert(waiting(v.forked(new_id)) =~= waiting(v));
    lemma_merging_waits_once(v, edit);
    if text_edit is Some {
        let edit = lemma_drained_edit(v, drained, text_edit->0);
        lemma_drained_waits_once(v, drained, edit, text_edit->0);
    } else {
        law_draining_ends(v, drained, text_edit);
    }
}

proof fn lemma_merging_waits_once(v: ReplicaView, edit: EditView)
    requires
        waits_once(v),
    ensures
        waits_once(v.merged(edit)),
{
    let after = v.merged(edit);
    let n = v.pending_insertions.len() as int;
    if waiting(after).len() == waiting(v).len() {
        assert(waiting(after) =~= waiting(v));
    } else {
        let at: int = if edit is Insertion {
            n
        } else {
            waiting(v).len() as int
        };
        assert(waiting(after) =~= waiting(v).insert(at, edit));
        assert forall|i: int| 0 <= i < waiting(v).len() implies !same_edit(
            #[trigger] waiting(v)[i],
            edit,
        ) && !same_edit(edit, waiting(v)[i]) by {
            if edit is Insertion {
                if i < n {
                    assert(!same_insertion(v.pending_insertions[i], edit->Insertion_0));
                }
            } else if i >= n {
                assert(!same_deletion(v.pending_deletions[i - n], edit->Deletion_0));
            }
        }
        assert forall|i: int, j: int| 0 <= i < j < waiting(after).len() implies !same_edit(
            #[trigger] waiting(after)[i],
            #[trigger] waiting(after)[j],
        ) by {
            let i0 = if i < at {
                i
            } else {
                i - 1
            };
            let j0 = if j < at {
                j
            } else {
                j - 1
            };
            if i == at {
                assert(waiting(after)[j] == waiting(v)[j0]);
            } else if j == at {
                assert(waiting(after)[i] == waiting(v)[i0]);
            } else {
                assert(!same_edit(waiting(v)[i0], waiting(v)[j0]));
            }
        }
    }
}

proof fn lemma_drained_waits_once(
    v: ReplicaView,
    after: ReplicaView,
    edit: EditView,
    text_edit: TextEdit,
)
    requires
        waits_once(v),
        drains_edit(v, after, edit, text_edit),
    ensures
        waits_once(after),
{
    let k = choose|k: int|
        0 <= k < waiting(v).len() && waiting(v)[k] == edit && #[trigger] waiting(v).remove(k)
            == waiting(after);
    assert forall|i: int, j: int| 0 <= i < j < waiting(after).len() implies !same_edit(
        #[trigger] waiting(after)[i],
        #[trigger] waiting(after)[j],
    ) by {
        let i0 = if i < k {
            i
        } else {
            i + 1
        };
        let j0 = if j < k {
            j
        } else {
            j + 1
        };
        assert(!same_edit(waiting(v)[i0], waiting(v)[j0]));
    }
}

/// An edit that waits and can be integrated stays so until it is.
proof fn lemma_ready_stays(
    v: ReplicaView,
    after: ReplicaView,
    edit: EditView,
    text_edit: TextEdit,
    ready: EditView,
)
    requires
        waits_once(v),
        drains_edit(v, after, edit, text_edit),
        waiting(v).contains(ready),
        v.takes(ready),
        ready != edit,
    ensures
        waiting(after).contains(ready),
        after.takes(ready),
{
    let k = choose|k: int|
        0 <= k < waiting(v).len() && waiting(v)[k] == edit && #[trigger] waiting(v).remove(k)
            == waiting(after);
    let m = choose|m: int| 0 <= m < waiting(v).len() && waiting(v)[m] == ready;
    assert(!same_edit(edit, ready)) by {
        if k < m {
            assert(!same_edit(waiting(v)[k], waiting(v)[m]));
        } else {
            assert(!same_edit(waiting(v)[m], waiting(v)[k]));
        }
    }
    if m < k {
        assert(waiting(after)[m] == ready);
    } else {
        assert(waiting(after)[m - 1] == ready);
    }
    match ready {
        EditView::Insertion(insertion) => {
            let anchored_to = insertion.anchor.replica_id;
            assert(v.versions[anchored_to] <= after.versions[anchored_to]);
        },
        EditView::Deletion(deletion) => {
            assert forall|id: ReplicaId| #[trigger] after.versions[id]
                >= deletion.versions[id] by {
                assert(v.versions[id] >= deletion.versions[id]);
                assert(v.versions[id] <= after.versions[id]);
            }
        },
        EditView::NoOp => {},
    }
}

/// An edit that waits and can be integrated in a state of a drain is integrated later in it.
proof fn lemma_ready_is_drained(
    states: Seq<ReplicaView>,
    text_edits: Seq<TextEdit>,
    edits: Seq<EditView>,
    from: int,
    ready: EditView,
)
    requires
        is_drain(states, text_edits),
        edits.len() == text_edits.len(),
        forall|i: int|
            0 <= i < edits.len() ==> drains_edit(
                states[i],
                states[i + 1],
                #[trigger] edits[i],
                text_edits[i],
            ),
        0 <= from <= edits.len(),
        waits_once(states[from]),
        waiting(states[from]).contains(ready),
        states[from].takes(ready),
    ensures
        edits.contains(ready),
    decreases edits.len() - from,
{
    let v = states[from];
    if from == edits.len() {
        law_draining_ends(v, v, None);
        let m = choose|m: int| 0 <= m < waiting(v).len() && waiting(v)[m] == ready;
        if m < v.pending_insertions.len() {
            assert(!v.can_merge_insertion(v.pending_insertions[m]));
        } else {
            assert(!v.can_merge_deletion(v.pending_deletions[m - v.pending_insertions.len()]));
        }
    } else if edits[from] != ready {
        let after = states[from + 1];
        lemma_ready_stays(v, after, edits[from], text_edits[from], ready);
        lemma_drained_waits_once(v, after, edits[from], text_edits[from]);
        lemma_ready_is_drained(states, text_edits, edits, from + 1, ready);
    }
}

/// A whole drain of the edits that wait integrates each of those that are ready when it begins or
/// become ready in its course once, in the order in which the text edits come, and leaves the
/// rest, none of which is ready.
pub proof fn law_a_drain_takes_each_ready_edit_once(
    states: Seq<ReplicaView>,
    text_edits: Seq<TextEdit>,
) -> (edits: Seq<EditView>)
    requires
        is_drain(states, text_edits),
    ensures
        edits.len() == text_edits.len(),
        forall|i: int|
            0 <= i < edits.len() ==> drains_edit(
                states[i],
                states[i + 1],
                #[trigger] edits[i],
                text_edits[i],
            ),
        edits.no_duplicates(),
        waiting(states[0]).to_multiset() == waiting(states.last()).to_multiset().add(
            edits.to_multiset(),
        ),
        forall|i: int| 0 <= i < edits.len() ==> is_merged(states.last(), #[trigger] edits[i]),
        states.last().no_ready_insertion(),
        states.last().no_ready_deletion(),
        waits_once(states[0]) ==> forall|k: int|
            0 <= k < waiting(states[0]).len() && states[0].takes(
                #[trigger] waiting(states[0])[k],
            ) ==> edits.contains(waiting(states[0])[k]),
{
    law_draining_ends(states.last(), states.last(), None);
    let edits = lemma_drain_from(states, text_edits, 0);
    if waits_once(states[0]) {
        assert forall|k: int|
            0 <= k < waiting(states[0]).len() && states[0].takes(
                #[trigger] waiting(states[0])[k],
            ) implies edits.contains(waiting(states[0])[k]) by {
            assert(waiting(states[0]).contains(waiting(states[0])[k]));
            lemma_ready_is_drained(states, text_edits, edits, 0, waiting(states[0])[k]);
        }
    }
    edits
}

/// What has waited is what is left and what has been integrated.
proof fn lemma_drained_multiset(
    all: Seq<EditView>,
    k: int,
    left: Multiset<EditView>,
    rest: Seq<EditView>,
)
    requires
        0 <= k < all.len(),
        all.remove(k).to_multiset() == left.add(rest.to_multiset()),
    ensures
        all.to_multiset() == left.add((seq![all[k]] + rest).to_multiset()),
{
    broadcast use vstd::seq_lib::group_to_multiset_ensures;

    let edit = all[k];
    let edits = seq![edit] + rest;
    assert(edits.remove(0) =~= rest);
    assert(edits[0] == edit);
    assert(all.to_multiset().count(edit) > 0) by {
        assert(all.contains(all[k]));
    }
    assert(edits.to_multiset().count(edit) > 0) by {
        assert(edits.contains(edits[0]));
    }
    assert(edits.to_multiset().remove(edit) == rest.to_multiset());
    assert(all.to_multiset() =~= left.add(edits.to_multiset())) by {
        broadcast use vstd::multiset::group_multiset_properties;

        let whole = all.to_multiset();
        let drained = edits.to_multiset();
        assert forall|x: EditView| #[trigger] whole.count(x) == left.add(drained).count(x) by {
            assert(whole.remove(edit).count(x) == left.add(drained.remove(edit)).count(x));
        }
    }
}

/// What is left of a drain from one of its states on.
proof fn lemma_drain_from(states: Seq<ReplicaView>, text_edits: Seq<TextEdit>, from: int) -> (edits:
    Seq<EditView>)
    requires
        is_drain(states, text_edits),
        0 <= from <= text_edits.len(),
    ensures
        edits.len() == text_edits.len() - from,
        forall|i: int|
            0 <= i < edits.len() ==> drains_edit(
                states[from + i],
                states[from + i + 1],
                #[trigger] edits[i],
                text_edits[from + i],
            ),
        edits.no_duplicates(),
        waiting(states[from]).to_multiset() == waiting(states.last()).to_multiset().add(
            edits.to_multiset(),
        ),
        forall|i: int|
            0 <= i < edits.len() ==> !is_merged(states[from], #[trigger] edits[i]) && is_merged(
                states.last(),
                edits[i],
            ),
        within(states[from].versions, states.last().versions),
        within(states[from].deletions, states.last().deletions),
    decreases text_edits.len() - from,
{
    if from == text_edits.len() {
        broadcast use vstd::seq_lib::group_to_multiset_ensures;

        let edits = Seq::<EditView>::empty();
        assert(waiting(states[from]).to_multiset() =~= waiting(
            states.last(),
        ).to_multiset().add(edits.to_multiset()));
        edits
    } else {
        let v = states[from];
        let next = states[from + 1];
        let rest = lemma_drain_from(states, text_edits, from + 1);
        assert(states[from].wf());
        let edit = lemma_drained_edit(v, next, text_edits[from]);
        let edits = seq![edit] + rest;
        let k = choose|k: int|
            0 <= k < waiting(v).len() && waiting(v)[k] == edit && #[trigger] waiting(v).remove(k)
                == waiting(next);
        lemma_drained_multiset(waiting(v), k, waiting(states.last()).to_multiset(), rest);
        lemma_merged_stays(next, states.last(), edit);
        assert forall|i: int| 0 <= i < edits.len() implies drains_edit(
            states[from + i],
            states[from + i + 1],
            #[trigger] edits[i],
            text_edits[from + i],
        ) && !is_merged(v, edits[i]) && is_merged(states.last(), edits[i]) by {
            if i > 0 {
                let other = rest[i - 1];
                assert(edits[i] == other);
                assert(states[from + 1 + (i - 1)] == states[from + i]);
                assert(states[from + 1 + (i - 1) + 1] == states[from + i + 1]);
                assert(text_edits[from + 1 + (i - 1)] == text_edits[from + i]);
                if is_merged(v, other) {
                    lemma_merged_stays(v, next, other);
                }
            }
        }
        assert(edits.no_duplicates()) by {
            assert forall|i: int, j: int|
                0 <= i < edits.len() && 0 <= j < edits.len() && i != j implies edits[i]
                != edits[j] by {
                if i == 0 {
                    assert(!is_merged(next, rest[j - 1]));
                } else if j == 0 {
                    assert(!is_merged(next, rest[i - 1]));
                } else {
                    assert(rest[i - 1] != rest[j - 1]);
                }
            }
        }
        assert forall|id: ReplicaId| #[trigger] v.versions[id] <= states.last().versions[id] by {
            assert(v.versions[id] <= next.versions[id]);
            assert(next.versions[id] <= states.last().versions[id]);
        }
        assert forall|id: ReplicaId| #[trigger] v.deletions[id] <= states.last().deletions[id] by {
            assert(v.deletions[id] <= next.deletions[id]);
            assert(next.deletions[id] <= states.last().deletions[id]);
        }
        edits
    }
}

/// An edit that has been integrated stays so while more is integrated.
proof fn lemma_merged_stays(v: ReplicaView, after: ReplicaView, edit: EditView)
    requires
        within(v.versions, after.versions),
        within(v.deletions, after.deletions),
        is_merged(v, edit),
    ensures
        is_merged(after, edit),
{
    match edit {
        EditView::Insertion(insertion) => {
            assert(v.versions[insertion.text.inserted_by]
                <= after.versions[insertion.text.inserted_by]);
        },
        EditView::Deletion(deletion) => {
            assert(v.deletions[deletion.by] <= after.deletions[deletion.by]);
        },
        EditView::NoOp => {},
    }
}

} // verus!
