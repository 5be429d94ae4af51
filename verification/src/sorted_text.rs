//! Integrating text keeps the characters in order.

use vstd::prelude::*;

use crate::edit_run::EditRun;
use crate::model::{
    char_before, complete, has_char, index_of_char, lemma_skip_outranking_bounds, merge_place,
    outranks, skip_outranking, splice, Char, CharId,
};
use crate::replica_id::ReplicaId;
use crate::text_order::{
    ahead, causal, comes_before, lemma_ahead_transitive, lemma_order_strict, lemma_path,
    lemma_path_ascends, lemma_siblings, parent, part_at, path, ranks_over, Births,
};

verus! {

/// The text is made of characters of the session, each with the one that it was inserted after.
pub open spec fn grown_from(births: Births, doc: Seq<Char>) -> bool {
    &&& forall|i: int|
        0 <= i < doc.len() ==> {
            &&& births.contains_key((#[trigger] doc[i]).id)
            &&& doc[i] == Char { deleted: doc[i].deleted, ..births[doc[i].id] }
        }
    &&& forall|i: int|
        0 <= i < doc.len() && !(#[trigger] doc[i]).anchor.is_origin() ==> has_char(
            doc,
            parent(doc[i]),
        )
}

/// The characters of the text are in order.
pub open spec fn in_text_order(births: Births, doc: Seq<Char>) -> bool {
    forall|i: int, j: int|
        0 <= i < j < doc.len() ==> comes_before(
            births,
            (#[trigger] doc[i]).id,
            (#[trigger] doc[j]).id,
        )
}

/// All characters on the path to one of the text are in the text.
proof fn lemma_path_in_text(births: Births, doc: Seq<Char>, i: int, k: int)
    requires
        causal(births),
        grown_from(births, doc),
        0 <= i < doc.len(),
        0 <= k < path(births, doc[i].id).len(),
    ensures
        has_char(doc, path(births, doc[i].id)[k].id),
    decreases path(births, doc[i].id).len() - k,
{
    let p = path(births, doc[i].id);
    lemma_path(births, doc[i].id);
    if k == p.len() - 1 {
        assert(p[k] == p.last());
        assert(doc[i].id == p[k].id);
    } else {
        lemma_path_in_text(births, doc, i, k + 1);
        let j = index_of_char(doc, p[k + 1].id);
        assert(doc[j].id == p[k + 1].id);
        assert(p[k + 1] == births[p[k + 1].id]);
        assert(parent(doc[j]) == p[k].id);
    }
}

/// What comes before another character in the order comes before it in the text.
pub proof fn lemma_in_order(births: Births, doc: Seq<Char>, i: int, j: int)
    requires
        in_text_order(births, doc),
        0 <= i < doc.len(),
        0 <= j < doc.len(),
        comes_before(births, doc[i].id, doc[j].id),
    ensures
        i < j,
{
    lemma_order_strict(births, doc[i].id, doc[j].id);
    if j < i {
        assert(comes_before(births, doc[j].id, doc[i].id));
    }
}

/// A character that comes before another one on the path to a third is between them in the text.
proof fn lemma_step_on_path(births: Births, doc: Seq<Char>, i: int, k: int) -> (j: int)
    requires
        causal(births),
        grown_from(births, doc),
        in_text_order(births, doc),
        0 <= i < doc.len(),
        0 <= k < path(births, doc[i].id).len(),
    ensures
        0 <= j <= i,
        doc[j].id == path(births, doc[i].id)[k].id,
        doc[j] == (Char { deleted: doc[j].deleted, ..path(births, doc[i].id)[k] }),
        path(births, doc[j].id) == path(births, doc[i].id).take(k + 1),
        k == path(births, doc[i].id).len() - 1 ==> j == i,
{
    let p = path(births, doc[i].id);
    lemma_path(births, doc[i].id);
    lemma_path_in_text(births, doc, i, k);
    let c = p[k];
    let j = index_of_char(doc, c.id);
    assert(doc[j].id == c.id);
    if k < p.len() - 1 {
        assert(part_at(p.take(k + 1), p, k + 1));
        lemma_in_order(births, doc, j, i);
        j
    } else {
        assert(c == p.last());
        i
    }
}

/// The path to what a character was inserted after.
pub open spec fn path_above(births: Births, c: Char) -> Seq<Char> {
    if c.anchor.is_origin() {
        Seq::empty()
    } else {
        path(births, parent(c))
    }
}

/// Where the text after the anchor of a character starts.
pub open spec fn after_anchor(doc: Seq<Char>, c: Char) -> int {
    if c.anchor.is_origin() {
        0
    } else {
        index_of_char(doc, parent(c)) + 1
    }
}

/// A new character with what has to hold of it to be put into the text.
pub open spec fn can_join(births: Births, doc: Seq<Char>, c: Char) -> bool {
    &&& causal(births)
    &&& grown_from(births, doc)
    &&& in_text_order(births, doc)
    &&& births.contains_key(c.id)
    &&& births[c.id] == c
    &&& !has_char(doc, c.id)
    &&& !c.anchor.is_origin() ==> has_char(doc, parent(c))
}

/// What comes after the anchor of a new character in the text is below the anchor, or comes after
/// the new character.
proof fn lemma_after_anchor(births: Births, doc: Seq<Char>, c: Char, i: int) -> (k: int)
    requires
        can_join(births, doc, c),
        after_anchor(doc, c) <= i < doc.len(),
    ensures
        0 <= after_anchor(doc, c) <= doc.len(),
        path(births, c.id) == path_above(births, c).push(c),
        part_at(path_above(births, c), path(births, doc[i].id), k),
        k < path_above(births, c).len() ==> part_at(
            path(births, c.id),
            path(births, doc[i].id),
            k,
        ),
{
    let above = path_above(births, c);
    let q = path(births, doc[i].id);
    lemma_path(births, c.id);
    lemma_path(births, doc[i].id);
    let a = index_of_char(doc, parent(c));
    if !c.anchor.is_origin() {
        assert(doc[a].id == parent(c));
        assert(comes_before(births, doc[a].id, doc[i].id));
    } else {
        assert(part_at(above, q, 0));
    }
    let k = choose|k: int| #[trigger] part_at(above, q, k);
    k
}

/// What parts from the path of a new character above its anchor does not outrank it.
proof fn lemma_no_outranking_aside(births: Births, c: Char, x: Char, k: int)
    requires
        causal(births),
        births.contains_key(c.id),
        births[c.id] == c,
        path(births, c.id) == path_above(births, c).push(c),
        0 <= k < path_above(births, c).len(),
        ranks_over(path_above(births, c)[k], x),
    ensures
        !ranks_over(x, c),
{
    let p = path(births, c.id);
    lemma_path_ascends(births, c.id, k, p.len() - 1);
    assert(p[k] == path_above(births, c)[k]);
    assert(p[p.len() - 1] == c);
}

/// All characters that are skipped outrank the new one; the one at which skipping ends does not.
proof fn lemma_skipped(doc: Seq<Char>, at: int, c: Char, i: int)
    requires
        0 <= at <= i,
        i <= skip_outranking(doc, at, c.lamport_ts, c.id.by),
        i < doc.len(),
    ensures
        i < skip_outranking(doc, at, c.lamport_ts, c.id.by) <==> ranks_over(doc[i], c),
    decreases doc.len() - at,
{
    if at < i {
        if outranks(doc[at].lamport_ts, doc[at].id.by, c.lamport_ts, c.id.by) {
            lemma_skipped(doc, at + 1, c, i);
        }
    } else {
        if outranks(doc[at].lamport_ts, doc[at].id.by, c.lamport_ts, c.id.by) {
            lemma_skip_outranking_bounds(doc, at + 1, c.lamport_ts, c.id.by);
        }
    }
}

/// What is skipped comes before the new character.
proof fn lemma_skipped_before(births: Births, doc: Seq<Char>, c: Char, i: int)
    requires
        can_join(births, doc, c),
        after_anchor(doc, c) <= i < skip_outranking(
            doc,
            after_anchor(doc, c),
            c.lamport_ts,
            c.id.by,
        ),
        i < doc.len(),
    ensures
        ahead(path(births, doc[i].id), path(births, c.id)),
{
    let at = after_anchor(doc, c);
    let above = path_above(births, c);
    let p = path(births, c.id);
    let q = path(births, doc[i].id);
    let k = lemma_after_anchor(births, doc, c, i);
    let j = lemma_step_on_path(births, doc, i, k);
    if k < above.len() {
        assert(ranks_over(above[k], q[k]));
        lemma_no_outranking_aside(births, c, q[k], k);
        if at <= j {
            lemma_skipped(doc, at, c, j);
        } else {
            // The character that parts the paths comes after the anchor.
            let a = index_of_char(doc, parent(c));
            assert(doc[a].id == parent(c));
            assert(q.take(k + 1)[k] == q[k]);
            assert forall|l: int| 0 <= l < k implies #[trigger] above[l] == q.take(k + 1)[l] by {
                assert(above[l] == q[l]);
            }
            assert(part_at(above, q.take(k + 1), k));
            lemma_in_order(births, doc, a, j);
        }
    } else {
        if at <= j {
            lemma_skipped(doc, at, c, j);
            assert forall|l: int| 0 <= l < k implies #[trigger] q[l] == p[l] by {
                assert(above[l] == q[l]);
            }
            assert(part_at(q, p, k));
        } else {
            let a = index_of_char(doc, parent(c));
            assert(doc[a].id == parent(c));
            assert forall|l: int| 0 <= l < k implies #[trigger] above[l] == q.take(k + 1)[l] by {
                assert(above[l] == q[l]);
            }
            assert(part_at(above, q.take(k + 1), k));
            lemma_in_order(births, doc, a, j);
        }
    }
}

/// What is at the end of what is skipped comes after the new character.
proof fn lemma_next_after(births: Births, doc: Seq<Char>, c: Char, m: int)
    requires
        can_join(births, doc, c),
        m == skip_outranking(doc, after_anchor(doc, c), c.lamport_ts, c.id.by),
        after_anchor(doc, c) <= m < doc.len(),
    ensures
        ahead(path(births, c.id), path(births, doc[m].id)),
{
    let at = after_anchor(doc, c);
    let above = path_above(births, c);
    let p = path(births, c.id);
    let q = path(births, doc[m].id);
    let k = lemma_after_anchor(births, doc, c, m);
    if k == above.len() {
        let j = lemma_step_on_path(births, doc, m, k);
        lemma_skipped(doc, at, c, m);
        lemma_path(births, doc[m].id);
        if j < m {
            if at <= j {
                lemma_skipped(doc, at, c, j);
                lemma_path_ascends(births, doc[m].id, k, q.len() - 1);
                assert(q[q.len() - 1] == births[doc[m].id]);
                assert(ranks_over(q[k], c));
                assert(ranks_over(doc[m], c));
            } else {
                let a = index_of_char(doc, parent(c));
                assert(doc[a].id == parent(c));
                assert forall|l: int| 0 <= l < k implies #[trigger] above[l] == q.take(
                    k + 1,
                )[l] by {
                    assert(above[l] == q[l]);
                }
                assert(part_at(above, q.take(k + 1), k));
                lemma_in_order(births, doc, a, j);
            }
        } else {
            // It was inserted in the same place.
            let d = births[doc[m].id];
            assert(q[k] == d) by {
                assert(doc[m].id == q[k].id);
            }
            lemma_path(births, c.id);
            if k > 0 {
                assert(above[k - 1] == q[k - 1]);
                assert(parent(d) == q[k - 1].id);
                assert(p[k - 1] == above[k - 1]);
                assert(p[k] == c);
                assert(parent(c) == p[k - 1].id);
            } else {
                assert(p[0] == c);
            }
            lemma_siblings(births, c.id, d.id);
            assert(!ranks_over(d, c));
            assert forall|l: int| 0 <= l < k implies #[trigger] p[l] == q[l] by {
                assert(above[l] == q[l]);
            }
            assert(part_at(p, q, k));
        }
    } else {
        assert(part_at(p, q, k));
    }
}

/// Everything before the place of a new character comes before it, and everything after comes
/// after it.
proof fn lemma_place_in_order(births: Births, doc: Seq<Char>, c: Char, i: int)
    requires
        can_join(births, doc, c),
        0 <= i < doc.len(),
    ensures
        ({
            let m = skip_outranking(doc, after_anchor(doc, c), c.lamport_ts, c.id.by);
            &&& i < m ==> ahead(path(births, doc[i].id), path(births, c.id))
            &&& i >= m ==> ahead(path(births, c.id), path(births, doc[i].id))
        }),
{
    let at = after_anchor(doc, c);
    let m = skip_outranking(doc, at, c.lamport_ts, c.id.by);
    let a = index_of_char(doc, parent(c));
    lemma_path(births, c.id);
    if !c.anchor.is_origin() {
        assert(0 <= a < doc.len() && doc[a].id == parent(c));
    }
    lemma_skip_outranking_bounds(doc, at, c.lamport_ts, c.id.by);
    if i < at {
        let above = path_above(births, c);
        assert(part_at(above, path(births, c.id), above.len() as int));
        if i < a {
            assert(comes_before(births, doc[i].id, doc[a].id));
            lemma_ahead_transitive(path(births, doc[i].id), above, path(births, c.id));
        }
    } else if i < m {
        lemma_skipped_before(births, doc, c, i);
    } else {
        lemma_next_after(births, doc, c, m);
        if i > m {
            assert(comes_before(births, doc[m].id, doc[i].id));
            lemma_ahead_transitive(
                path(births, c.id),
                path(births, doc[m].id),
                path(births, doc[i].id),
            );
        }
    }
}

/// The characters of a run that is put into the text are those of the session.
pub open spec fn run_in(births: Births, run: EditRun) -> bool {
    forall|i: int|
        0 <= i < run.spec_len() ==> {
            &&& births.contains_key((#[trigger] run.chars()[i]).id)
            &&& births[run.chars()[i].id] == run.chars()[i]
        }
}

/// The path to a character of a run goes along the run.
proof fn lemma_path_along_run(births: Births, run: EditRun, i: int)
    requires
        causal(births),
        run_in(births, run),
        !run.is_deleted,
        0 <= i < run.spec_len(),
    ensures
        ({
            let p = path(births, run.chars()[0].id);
            let q = path(births, run.chars()[i].id);
            &&& q.len() == p.len() + i
            &&& p.len() > 0
            &&& p.last() == run.chars()[0]
            &&& forall|l: int| 0 <= l < p.len() ==> #[trigger] q[l] == p[l]
            &&& forall|l: int| 0 <= l <= i ==> q[p.len() - 1 + l] == #[trigger] run.chars()[l]
        }),
    decreases i,
{
    let c = run.chars()[i];
    assert(births[c.id] == c);
    lemma_path(births, run.chars()[0].id);
    assert(births[run.chars()[0].id] == run.chars()[0]);
    if i > 0 {
        lemma_path_along_run(births, run, i - 1);
        assert(parent(c) == run.chars()[i - 1].id);
        assert(path(births, c.id) == path(births, run.chars()[i - 1].id).push(c));
    }
}

/// A text stays in order when a run is put in where it belongs.
pub proof fn lemma_splice_in_order(
    births: Births,
    doc: Seq<Char>,
    versions: Map<ReplicaId, int>,
    run: EditRun,
)
    requires
        causal(births),
        grown_from(births, doc),
        in_text_order(births, doc),
        complete(doc, versions),
        run_in(births, run),
        !run.is_deleted,
        run.text.start < run.text.end,
        run.text.start == versions[run.text.inserted_by],
        !run.anchor.is_origin() ==> has_char(doc, char_before(run.anchor)),
    ensures
        ({
            let place = merge_place(doc, run.anchor, run.lamport_ts, run.text.inserted_by);
            &&& 0 <= place <= doc.len()
            &&& in_text_order(births, splice(doc, place, run.chars()))
            &&& grown_from(births, splice(doc, place, run.chars()))
        }),
{
    let chars = run.chars();
    let c = chars[0];
    let place = merge_place(doc, run.anchor, run.lamport_ts, run.text.inserted_by);
    let at = after_anchor(doc, c);
    let after = splice(doc, place, chars);
    assert(births.contains_key(c.id));
    assert(!has_char(doc, c.id)) by {
        if has_char(doc, c.id) {
            let i = index_of_char(doc, c.id);
            assert(doc[i].id == c.id);
        }
    }
    if !run.anchor.is_origin() {
        let a = index_of_char(doc, parent(c));
        assert(0 <= a < doc.len() && doc[a].id == parent(c));
    }
    lemma_skip_outranking_bounds(doc, at, c.lamport_ts, c.id.by);
    assert(place == skip_outranking(doc, at, c.lamport_ts, c.id.by));
    let n = chars.len() as int;
    assert forall|i: int, j: int| 0 <= i < j < after.len() implies comes_before(
        births,
        (#[trigger] after[i]).id,
        (#[trigger] after[j]).id,
    ) by {
        if j < place {
            assert(after[i] == doc[i] && after[j] == doc[j]);
        } else if i >= place + n {
            assert(after[i] == doc[i - n] && after[j] == doc[j - n]);
        } else if i < place && j >= place + n {
            assert(after[i] == doc[i] && after[j] == doc[j - n]);
        } else if i < place {
            assert(after[i] == doc[i] && after[j] == chars[j - place]);
            lemma_place_in_order(births, doc, c, i);
            lemma_path_along_run(births, run, j - place);
            let q = path(births, c.id);
            let p = path(births, doc[i].id);
            let k = choose|k: int| #[trigger] part_at(p, q, k);
            assert(part_at(p, path(births, chars[j - place].id), k));
        } else if j < place + n {
            assert(after[i] == chars[i - place] && after[j] == chars[j - place]);
            lemma_path_along_run(births, run, i - place);
            lemma_path_along_run(births, run, j - place);
            let p = path(births, chars[i - place].id);
            let q = path(births, chars[j - place].id);
            let base = path(births, c.id).len() as int;
            assert forall|l: int| 0 <= l < p.len() implies #[trigger] p[l] == q[l] by {
                if l < base {
                    assert(p[l] == path(births, c.id)[l]);
                } else {
                    assert(p[base - 1 + (l - base + 1)] == chars[l - base + 1]);
                    assert(q[base - 1 + (l - base + 1)] == chars[l - base + 1]);
                }
            }
            assert(part_at(p, q, p.len() as int));
        } else {
            assert(after[i] == chars[i - place] && after[j] == doc[j - n]);
            lemma_place_in_order(births, doc, c, j - n);
            lemma_path_along_run(births, run, i - place);
            let p = path(births, c.id);
            let q = path(births, doc[j - n].id);
            let k = choose|k: int| #[trigger] part_at(p, q, k);
            if k == p.len() {
                // The new character would be on the path to one that is in the text.
                assert(p[k - 1] == q[k - 1]);
                lemma_path_in_text(births, doc, j - n, k - 1);
            }
            assert(part_at(path(births, chars[i - place].id), q, k));
        }
    }
    lemma_splice_grown(births, doc, place, run);
}

/// A text that a run is put into still has each character with what it was inserted after.
pub proof fn lemma_splice_grown(births: Births, doc: Seq<Char>, place: int, run: EditRun)
    requires
        grown_from(births, doc),
        run_in(births, run),
        !run.is_deleted,
        0 <= place <= doc.len(),
        run.text.start < run.text.end,
        !run.anchor.is_origin() ==> has_char(doc, char_before(run.anchor)),
    ensures
        grown_from(births, splice(doc, place, run.chars())),
{
    let chars = run.chars();
    let n = chars.len() as int;
    let after = splice(doc, place, chars);
    assert forall|id: CharId| #[trigger] has_char(doc, id) implies has_char(after, id) by {
        let i = choose|i: int| 0 <= i < doc.len() && (#[trigger] doc[i]).id == id;
        if i < place {
            assert(after[i].id == id);
        } else {
            assert(after[i + n].id == id);
        }
    }
    assert forall|i: int| 0 <= i < after.len() implies {
        &&& births.contains_key((#[trigger] after[i]).id)
        &&& after[i] == Char { deleted: after[i].deleted, ..births[after[i].id] }
        &&& !after[i].anchor.is_origin() ==> has_char(after, parent(after[i]))
    } by {
        if i < place {
            assert(after[i] == doc[i]);
        } else if i < place + n {
            assert(after[i] == chars[i - place]);
            if i > place {
                assert(after[i - 1] == chars[i - place - 1]);
                assert(after[i - 1].id == parent(after[i]));
            }
        } else {
            assert(after[i] == doc[i - n]);
        }
    }
}

} // verus!
