//! Runs of text: characters that one replica inserted in a row and that are still together.

use vstd::prelude::*;

use crate::anchor::Anchor;
use crate::clocks::{InsertionTimestamp, LamportTimestamp};
use crate::crdt_edit::Insertion;
use crate::model::{
    lemma_visible_all, lemma_visible_concat, lemma_visible_none, run_chars, splice, text_ids,
    visible, Char, CharId,
};
use crate::text::{Length, Text};

verus! {

/// A run of text.
#[derive(Clone, Copy, Debug, PartialEq, Eq, Structural)]
pub struct EditRun {
    /// The first character of the run was inserted at this anchor.
    pub anchor: Anchor,
    pub text: Text,
    pub insertion_ts: InsertionTimestamp,
    pub lamport_ts: LamportTimestamp,
    pub is_deleted: bool,
}

/// The anchor right before a character.
pub open spec fn anchor_at(text: Text, character_ts: int) -> Anchor {
    Anchor { replica_id: text.inserted_by, character_ts: character_ts as usize }
}

impl EditRun {
    pub open spec fn wf(self) -> bool {
        self.text.start <= self.text.end
    }

    /// The characters of the run.
    pub open spec fn chars(self) -> Seq<Char> {
        run_chars(self.text, self.anchor, self.lamport_ts, self.insertion_ts, self.is_deleted)
    }

    pub open spec fn spec_len(self) -> int {
        self.text.spec_len()
    }

    /// How much of the run is part of the buffer.
    pub open spec fn spec_visible_len(self) -> int {
        if self.is_deleted {
            0
        } else {
            self.spec_len()
        }
    }

    /// Whether the run holds the character.
    pub open spec fn holds(self, id: CharId) -> bool {
        self.text.inserted_by == id.by && self.text.start <= id.ts < self.text.end
    }

    /// The run without what is before the given character.
    pub open spec fn from(self, character_ts: int) -> EditRun {
        EditRun {
            anchor: anchor_at(self.text, character_ts),
            text: Text { start: character_ts as usize, ..self.text },
            ..self
        }
    }

    /// The run without what is at and after the given character.
    pub open spec fn up_to(self, character_ts: int) -> EditRun {
        EditRun { text: Text { end: character_ts as usize, ..self.text }, ..self }
    }

    /// The run with its characters deleted.
    pub open spec fn erased(self) -> EditRun {
        EditRun { is_deleted: true, ..self }
    }

    /// The run that an insertion brings.
    pub open spec fn of(insertion: Insertion) -> EditRun {
        EditRun {
            anchor: insertion.anchor,
            text: insertion.text,
            insertion_ts: insertion.insertion_ts,
            lamport_ts: insertion.lamport_ts,
            is_deleted: false,
        }
    }

    /// Whether the two runs make up one run when the second follows the first.
    pub open spec fn spec_continues_in(self, next: EditRun) -> bool {
        &&& self.text.start < self.text.end
        &&& self.text.inserted_by == next.text.inserted_by
        &&& self.text.end == next.text.start
        &&& next.anchor == anchor_at(next.text, next.text.start as int)
        &&& self.lamport_ts == next.lamport_ts
        &&& self.insertion_ts == next.insertion_ts
        &&& self.is_deleted == next.is_deleted
    }

    pub fn new(
        anchor: Anchor,
        text: Text,
        insertion_ts: InsertionTimestamp,
        lamport_ts: LamportTimestamp,
    ) -> (run: EditRun)
        ensures
            run == (EditRun { anchor, text, insertion_ts, lamport_ts, is_deleted: false }),
    {
        EditRun { anchor, text, insertion_ts, lamport_ts, is_deleted: false }
    }

    pub fn from_insertion(insertion: &Insertion) -> (run: EditRun)
        ensures
            run == EditRun::of(*insertion),
    {
        EditRun::new(
            insertion.anchor,
            insertion.text,
            insertion.insertion_ts,
            insertion.lamport_ts,
        )
    }

    pub fn len(&self) -> (len: Length)
        requires
            self.wf(),
        ensures
            len == self.spec_len(),
    {
        self.text.end - self.text.start
    }

    /// How much of the run is part of the buffer.
    pub fn visible_len(&self) -> (len: Length)
        requires
            self.wf(),
        ensures
            len == self.spec_visible_len(),
    {
        if self.is_deleted {
            0
        } else {
            self.text.end - self.text.start
        }
    }

    /// Whether the two runs make up one run when the second follows the first.
    pub fn continues_in(&self, next: &EditRun) -> (b: bool)
        ensures
            b == self.spec_continues_in(*next),
    {
        self.text.start < self.text.end && self.text.inserted_by == next.text.inserted_by
            && self.text.end == next.text.start && next.anchor.replica_id == next.text.inserted_by
            && next.anchor.character_ts == next.text.start && self.lamport_ts == next.lamport_ts
            && self.insertion_ts == next.insertion_ts && self.is_deleted == next.is_deleted
    }

    /// Cuts the run before the given character and returns what comes off its end.
    pub fn split(&mut self, character_ts: Length) -> (rest: EditRun)
        requires
            old(self).text.start <= character_ts <= old(self).text.end,
        ensures
            *final(self) == old(self).up_to(character_ts as int),
            rest == old(self).from(character_ts as int),
    {
        let text = Text {
            inserted_by: self.text.inserted_by,
            start: character_ts,
            end: self.text.end,
        };
        let rest = EditRun {
            anchor: Anchor { replica_id: self.text.inserted_by, character_ts },
            text,
            insertion_ts: self.insertion_ts,
            lamport_ts: self.lamport_ts,
            is_deleted: self.is_deleted,
        };
        self.text.end = character_ts;
        rest
    }
}

/// The text that runs make up.
pub open spec fn doc_of(runs: Seq<EditRun>) -> Seq<Char>
    decreases runs.len(),
{
    if runs.len() == 0 {
        Seq::empty()
    } else {
        doc_of(runs.drop_last()) + runs.last().chars()
    }
}

/// Where in the text the run at position `p` starts.
pub open spec fn start_of(runs: Seq<EditRun>, p: int) -> int {
    doc_of(runs.take(p)).len() as int
}

pub proof fn lemma_doc_concat(a: Seq<EditRun>, b: Seq<EditRun>)
    ensures
        doc_of(a + b) == doc_of(a) + doc_of(b),
    decreases b.len(),
{
    if b.len() == 0 {
        assert(a + b =~= a);
        assert(doc_of(a) + doc_of(b) =~= doc_of(a));
    } else {
        lemma_doc_concat(a, b.drop_last());
        assert((a + b).drop_last() =~= a + b.drop_last());
        assert((a + b).last() == b.last());
        assert(doc_of(a + b) =~= doc_of(a) + doc_of(b));
    }
}

pub proof fn lemma_doc_single(run: EditRun)
    ensures
        doc_of(seq![run]) == run.chars(),
{
    assert(seq![run].drop_last() =~= Seq::<EditRun>::empty());
    assert(doc_of(seq![run].drop_last()) =~= Seq::<Char>::empty());
    assert(doc_of(seq![run]) =~= run.chars());
}

/// The text before, in and after the run at a position.
pub proof fn lemma_doc_at(runs: Seq<EditRun>, p: int)
    requires
        0 <= p < runs.len(),
    ensures
        doc_of(runs) == doc_of(runs.take(p)) + runs[p].chars() + doc_of(runs.skip(p + 1)),
        start_of(runs, p + 1) == start_of(runs, p) + runs[p].chars().len(),
        doc_of(runs.take(p + 1)) == doc_of(runs.take(p)) + runs[p].chars(),
        start_of(runs, p) + runs[p].chars().len() <= doc_of(runs).len(),
        doc_of(runs).take(start_of(runs, p)) == doc_of(runs.take(p)),
        doc_of(runs).skip(start_of(runs, p)) == doc_of(runs.skip(p)),
{
    assert(runs.take(p + 1).drop_last() =~= runs.take(p));
    assert(runs.take(p + 1) + runs.skip(p + 1) =~= runs);
    lemma_doc_concat(runs.take(p + 1), runs.skip(p + 1));
    assert(runs.take(p) + runs.skip(p) =~= runs);
    lemma_doc_concat(runs.take(p), runs.skip(p));
    assert(doc_of(runs).take(start_of(runs, p)) =~= doc_of(runs.take(p)));
    assert(doc_of(runs).skip(start_of(runs, p)) =~= doc_of(runs.skip(p)));
}

/// A run starts where the one before it ends.
pub proof fn lemma_start_next(runs: Seq<EditRun>, p: int)
    requires
        0 <= p < runs.len(),
        runs[p].wf(),
    ensures
        start_of(runs, p + 1) == start_of(runs, p) + runs[p].spec_len(),
        0 <= start_of(runs, p),
        start_of(runs, p + 1) <= doc_of(runs).len(),
{
    lemma_doc_at(runs, p);
}

/// The text before and after a position.
pub proof fn lemma_doc_cut(runs: Seq<EditRun>, p: int)
    requires
        0 <= p <= runs.len(),
    ensures
        doc_of(runs) == doc_of(runs.take(p)) + doc_of(runs.skip(p)),
        start_of(runs, p) <= doc_of(runs).len(),
        doc_of(runs).take(start_of(runs, p)) == doc_of(runs.take(p)),
        doc_of(runs).skip(start_of(runs, p)) == doc_of(runs.skip(p)),
{
    assert(runs.take(p) + runs.skip(p) =~= runs);
    lemma_doc_concat(runs.take(p), runs.skip(p));
    assert(doc_of(runs).take(start_of(runs, p)) =~= doc_of(runs.take(p)));
    assert(doc_of(runs).skip(start_of(runs, p)) =~= doc_of(runs.skip(p)));
}

/// A character of a run within the text.
pub proof fn lemma_doc_char(runs: Seq<EditRun>, p: int, k: int)
    requires
        0 <= p < runs.len(),
        0 <= k < runs[p].chars().len(),
    ensures
        0 <= start_of(runs, p) + k < doc_of(runs).len(),
        doc_of(runs)[start_of(runs, p) + k] == runs[p].chars()[k],
{
    lemma_doc_at(runs, p);
}

/// The run that a character of the text is in.
pub proof fn lemma_run_of(runs: Seq<EditRun>, i: int) -> (p: int)
    requires
        0 <= i < doc_of(runs).len(),
    ensures
        0 <= p < runs.len(),
        start_of(runs, p) <= i < start_of(runs, p) + runs[p].chars().len(),
        doc_of(runs)[i] == runs[p].chars()[i - start_of(runs, p)],
    decreases runs.len(),
{
    let n = runs.len() - 1;
    assert(runs.take(n) =~= runs.drop_last());
    if i < doc_of(runs.drop_last()).len() {
        let p = lemma_run_of(runs.drop_last(), i);
        assert(runs.drop_last().take(p) =~= runs.take(p));
        p
    } else {
        n
    }
}

pub proof fn lemma_starts_ascend(runs: Seq<EditRun>, p: int, q: int)
    requires
        0 <= p <= q <= runs.len(),
    ensures
        start_of(runs, p) <= start_of(runs, q),
        p < q ==> start_of(runs, p) + runs[p].chars().len() <= start_of(runs, q),
    decreases q - p,
{
    if p < q {
        lemma_doc_at(runs, p);
        lemma_starts_ascend(runs, p + 1, q);
    }
}

/// Replacing a run replaces its characters.
pub proof fn lemma_doc_update(runs: Seq<EditRun>, p: int, run: EditRun)
    requires
        0 <= p < runs.len(),
    ensures
        doc_of(runs.update(p, run)) == doc_of(runs.take(p)) + run.chars() + doc_of(
            runs.skip(p + 1),
        ),
        forall|q: int|
            0 <= q <= p ==> #[trigger] start_of(runs.update(p, run), q) == start_of(runs, q),
{
    let updated = runs.update(p, run);
    lemma_doc_at(updated, p);
    assert(updated.take(p) =~= runs.take(p));
    assert(updated.skip(p + 1) =~= runs.skip(p + 1));
    assert forall|q: int| 0 <= q <= p implies #[trigger] start_of(updated, q) == start_of(
        runs,
        q,
    ) by {
        assert(updated.take(q) =~= runs.take(q));
    }
}

/// Putting in a run puts in its characters.
pub proof fn lemma_doc_insert(runs: Seq<EditRun>, p: int, run: EditRun)
    requires
        0 <= p <= runs.len(),
    ensures
        doc_of(runs.insert(p, run)) == splice(doc_of(runs), start_of(runs, p), run.chars()),
        doc_of(runs.insert(p, run)) == doc_of(runs.take(p)) + run.chars() + doc_of(runs.skip(p)),
        forall|q: int|
            0 <= q <= p ==> #[trigger] start_of(runs.insert(p, run), q) == start_of(runs, q),
{
    let inserted = runs.insert(p, run);
    lemma_doc_at(inserted, p);
    lemma_doc_cut(runs, p);
    assert(inserted.take(p) =~= runs.take(p));
    assert(inserted.skip(p + 1) =~= runs.skip(p));
    assert forall|q: int| 0 <= q <= p implies #[trigger] start_of(inserted, q) == start_of(
        runs,
        q,
    ) by {
        assert(inserted.take(q) =~= runs.take(q));
    }
}

/// Cutting a run in two leaves the text as it is.
pub proof fn lemma_split_chars(run: EditRun, character_ts: int)
    requires
        run.wf(),
        run.text.start < character_ts <= run.text.end,
    ensures
        run.up_to(character_ts).chars() + run.from(character_ts).chars() == run.chars(),
        run.up_to(character_ts).chars().len() == character_ts - run.text.start,
        run.from(character_ts).chars().len() == run.text.end - character_ts,
{
    let left = run.up_to(character_ts).chars();
    let right = run.from(character_ts).chars();
    assert(left + right =~= run.chars()) by {
        assert forall|i: int| 0 <= i < run.chars().len() implies (left + right)[i]
            == run.chars()[i] by {
            if i < left.len() {
            } else {
                assert(right[i - left.len()].id == run.chars()[i].id);
            }
        }
    }
}

/// A run that goes on where another one ends makes it longer.
pub proof fn lemma_join_chars(run: EditRun, next: EditRun)
    requires
        run.wf(),
        next.wf(),
        run.spec_continues_in(next),
    ensures
        run.up_to(next.text.end as int).chars() == run.chars() + next.chars(),
{
    let joined = run.up_to(next.text.end as int).chars();
    assert(joined =~= run.chars() + next.chars()) by {
        assert forall|i: int| 0 <= i < joined.len() implies joined[i] == (run.chars()
            + next.chars())[i] by {
            if i >= run.chars().len() {
                assert(next.chars()[i - run.chars().len()].id == joined[i].id);
            }
        }
    }
}

/// How much of a run is part of the buffer.
pub proof fn lemma_visible_run(run: EditRun)
    requires
        run.wf(),
    ensures
        visible(run.chars()).len() == run.spec_visible_len(),
        !run.is_deleted ==> visible(run.chars()) == text_ids(run.text),
        run.is_deleted ==> visible(run.chars()) == Seq::<CharId>::empty(),
{
    if run.is_deleted {
        lemma_visible_none(run.chars());
    } else {
        lemma_visible_all(run.chars());
        assert(visible(run.chars()) =~= text_ids(run.text));
    }
}

/// How much of the buffer comes before a place in a run.
pub proof fn lemma_visible_within(runs: Seq<EditRun>, p: int, k: int)
    requires
        0 <= p < runs.len(),
        runs[p].wf(),
        0 <= k <= runs[p].spec_len(),
    ensures
        visible(doc_of(runs).take(start_of(runs, p) + k)).len() == visible(
            doc_of(runs.take(p)),
        ).len() + (if runs[p].is_deleted {
            0
        } else {
            k
        }),
{
    lemma_doc_at(runs, p);
    let part = runs[p].chars().take(k);
    assert(doc_of(runs).take(start_of(runs, p) + k) =~= doc_of(runs.take(p)) + part);
    lemma_visible_concat(doc_of(runs.take(p)), part);
    if runs[p].is_deleted {
        lemma_visible_none(part);
    } else {
        lemma_visible_all(part);
    }
}

} // verus!
