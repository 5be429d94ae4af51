//! How the runs of a text lie, and how edits change that.

use vstd::prelude::*;

use crate::crdt_edit::DeletionView;
use crate::edit_run::{
    doc_of, lemma_run_of, lemma_start_next, lemma_starts_ascend, start_of, EditRun,
};
use crate::model::{
    char_after, char_before, index_of_char, index_of_visible, place_of, Char, CharId,
};
use crate::run_indices::{
    fragments_of, indexes, lemma_indexes_same_text, name_after, Fragment, LeafIdx,
};
use crate::run_tree::{cut_leaf, permutes, placed, runs_of, InsertionOutcome};
use crate::text::Text;
use crate::tree_deletion::{Cut, DeletionOutcome};

verus! {

/// The runs of a text, their order in the text, and the order of their fragments.
#[verifier::ext_equal]
pub struct Layout {
    /// The runs by name.
    pub leaves: Seq<EditRun>,
    /// The names of the runs in the order of the text.
    pub order: Seq<LeafIdx>,
    /// The names of the runs in the order of the fragments.
    pub index: Seq<LeafIdx>,
}

/// Where a new run goes.
pub enum Spot {
    /// Before a position of the order.
    Between(int),
    /// Into the run at a position of the order, before one of its characters.
    Within(int, int),
}

/// What a deletion from the buffer affects: the characters from `from` on of the run at position
/// `first`, up to `to` in the run at position `last`, and all runs between them.
pub struct Span {
    pub first: int,
    pub from: int,
    pub last: int,
    pub to: int,
}

/// Whether the run at position `p` holds the `i`-th character of the text.
pub open spec fn has_at(runs: Seq<EditRun>, p: int, i: int) -> bool {
    0 <= p < runs.len() && start_of(runs, p) <= i < start_of(runs, p + 1)
}

/// The position of the run that holds the `i`-th character of the text.
pub open spec fn run_with(runs: Seq<EditRun>, i: int) -> int {
    choose|p: int| #[trigger] has_at(runs, p, i)
}

/// A character is in no more than one run.
pub proof fn lemma_run_with(runs: Seq<EditRun>, p: int, i: int)
    requires
        has_at(runs, p, i),
    ensures
        run_with(runs, i) == p,
{
    let q = run_with(runs, i);
    assert(has_at(runs, q, i));
    if q < p {
        lemma_starts_ascend(runs, q + 1, p);
    } else if p < q {
        lemma_starts_ascend(runs, p + 1, q);
    }
}

/// A merged insertion that comes to lie where a run starts that holds something, or at the end of
/// the text, goes right before that run, or after the last one.
pub proof fn lemma_spot_of_merged(layout: Layout, q: int)
    requires
        0 <= q <= layout.order.len(),
        q < layout.order.len() ==> has_at(layout.runs(), q, start_of(layout.runs(), q)),
    ensures
        layout.spot_of_merged(start_of(layout.runs(), q)) == Spot::Between(q),
{
    let runs = layout.runs();
    let place = start_of(runs, q);
    assert(runs.take(runs.len() as int) =~= runs);
    lemma_starts_ascend(runs, 0, q);
    lemma_starts_ascend(runs, q, runs.len() as int);
    if q < runs.len() {
        lemma_run_with(runs, q, place);
        lemma_starts_ascend(runs, q + 1, runs.len() as int);
    }
    if place > 0 {
        let p = lemma_run_of(runs, place - 1);
        lemma_starts_ascend(runs, p, p + 1);
        assert(has_at(runs, p, place - 1));
        lemma_run_with(runs, p, place - 1);
        if q <= p {
            lemma_starts_ascend(runs, q, p);
        }
        lemma_starts_ascend(runs, p + 1, q);
    }
}

/// The smaller of two numbers.
pub open spec fn lesser(a: int, b: int) -> int {
    if a < b {
        a
    } else {
        b
    }
}

/// Up to which character of the run at position `p` a deletion goes.
pub open spec fn limit_of(runs: Seq<EditRun>, deletion: DeletionView, p: int, q: int) -> int {
    lesser(
        if p == q {
            deletion.end.character_ts as int
        } else {
            runs[p].text.end as int
        },
        deletion.versions[runs[p].text.inserted_by],
    )
}

/// What a cut is told by: the run that has been cut, the character after the cut, and the name of
/// the run that has come off the end.
pub open spec fn cut_of(run: EditRun, character_ts: int, idx: int) -> Cut {
    (run.text.inserted_by, run.insertion_ts, character_ts as usize, idx as usize)
}

impl Layout {
    /// The runs in the order of the text.
    pub open spec fn runs(self) -> Seq<EditRun> {
        runs_of(self.leaves, self.order)
    }

    /// The text.
    pub open spec fn doc(self) -> Seq<Char> {
        doc_of(self.runs())
    }

    /// The fragments of the runs.
    pub open spec fn fragments(self) -> Seq<Fragment> {
        fragments_of(self.index, self.leaves)
    }

    /// Each name in the order is that of a run.
    pub open spec fn named(self) -> bool {
        forall|p: int| 0 <= p < self.order.len() ==> (#[trigger] self.order[p]) < self.leaves.len()
    }

    /// With another run at a position.
    pub open spec fn with(self, p: int, run: EditRun) -> Layout {
        Layout { leaves: self.leaves.update(self.order[p] as int, run), ..self }
    }

    /// With the run at a position deleted.
    pub open spec fn erased(self, p: int) -> Layout {
        self.with(p, self.runs()[p].erased())
    }

    /// With the runs from one position up to and with another deleted.
    pub open spec fn erased_between(self, a: int, b: int) -> Layout
        decreases b - a + 1,
    {
        if a <= b {
            self.erased(a).erased_between(a + 1, b)
        } else {
            self
        }
    }

    /// With the run at a position cut before one of its characters.
    pub open spec fn cut(self, p: int, character_ts: int) -> Layout {
        let idx = self.leaves.len() as usize;
        Layout {
            leaves: cut_leaf(self.leaves, self.order[p] as int, character_ts),
            order: self.order.insert(p + 1, idx),
            index: name_after(self.index, self.order[p] as int, idx),
        }
    }

    /// With the border between the run at a position and the one after it moved.
    pub open spec fn border_moved(self, p: int, character_ts: int) -> Layout {
        self.with(p, self.runs()[p].up_to(character_ts)).with(
            p + 1,
            self.runs()[p + 1].from(character_ts),
        )
    }

    /// Where a local insertion goes that comes to lie before the character at `place`: right
    /// after the run of the character before it, or into that run.
    pub open spec fn spot(self, place: int) -> Spot {
        let runs = self.runs();
        let p = run_with(runs, place - 1);
        if place == 0 {
            Spot::Between(0)
        } else if place == start_of(runs, p + 1) {
            Spot::Between(p + 1)
        } else {
            Spot::Within(p, runs[p].text.start + place - start_of(runs, p))
        }
    }

    /// Where the insertion of another replica goes that comes to lie before the character at
    /// `place`: right before the run of that character, or into it.
    pub open spec fn spot_of_merged(self, place: int) -> Spot {
        let runs = self.runs();
        let p = run_with(runs, place - 1);
        if 0 < place < start_of(runs, p + 1) {
            Spot::Within(p, runs[p].text.start + place - start_of(runs, p))
        } else if place < self.doc().len() {
            Spot::Between(run_with(runs, place))
        } else {
            Spot::Between(runs.len() as int)
        }
    }

    /// Whether a run can go there.
    pub open spec fn has_spot(self, spot: Spot) -> bool {
        match spot {
            Spot::Between(p) => 0 <= p <= self.order.len(),
            Spot::Within(p, character_ts) => {
                &&& 0 <= p < self.order.len()
                &&& self.runs()[p].text.start < character_ts < self.runs()[p].text.end
            },
        }
    }

    /// Whether the run before a position goes on in the given one.
    pub open spec fn continues(self, p: int, run: EditRun) -> bool {
        p > 0 && self.runs()[p - 1].spec_continues_in(run)
    }

    /// With a run put in. It becomes part of the run before it if that goes on in it.
    #[verifier::opaque]
    pub open spec fn with_run(self, spot: Spot, run: EditRun) -> Layout {
        let idx = self.leaves.len() as usize;
        match spot {
            Spot::Between(p) => {
                if self.continues(p, run) {
                    self.with(p - 1, self.runs()[p - 1].up_to(run.text.end as int))
                } else {
                    Layout {
                        leaves: self.leaves.push(run),
                        order: self.order.insert(p, idx),
                        index: self.index.push(idx),
                    }
                }
            },
            Spot::Within(p, character_ts) => {
                let i = self.order[p] as int;
                let rest_idx = (self.leaves.len() + 1) as usize;
                Layout {
                    leaves: cut_leaf(self.leaves.push(run), i, character_ts),
                    order: self.order.insert(p + 1, idx).insert(p + 2, rest_idx),
                    index: name_after(self.index.push(idx), i, rest_idx),
                }
            },
        }
    }

    /// How putting in a run is told.
    #[verifier::opaque]
    pub open spec fn insertion_outcome(self, spot: Spot, run: EditRun) -> InsertionOutcome {
        match spot {
            Spot::Between(p) => {
                if self.continues(p, run) {
                    InsertionOutcome::ExtendedLastRun { replica_id: run.text.inserted_by }
                } else {
                    InsertionOutcome::InsertedRun {
                        replica_id: run.text.inserted_by,
                        insertion_ts: run.insertion_ts,
                        start: run.text.start,
                        inserted_idx: self.leaves.len() as usize,
                    }
                }
            },
            Spot::Within(p, character_ts) => InsertionOutcome::SplitRun {
                split_id: self.runs()[p].text.inserted_by,
                split_insertion: self.runs()[p].insertion_ts,
                split_at_offset: character_ts as usize,
                split_idx: (self.leaves.len() + 1) as usize,
                inserted_id: run.text.inserted_by,
                inserted_insertion: run.insertion_ts,
                inserted_start: run.text.start,
                inserted_idx: self.leaves.len() as usize,
            },
        }
    }

    /// What the deletion of the part of the buffer from `start` up to `end` affects.
    pub open spec fn span(self, start: int, end: int) -> Span {
        let doc = self.doc();
        let lo = index_of_visible(doc, start);
        let hi = place_of(doc, end);
        Span {
            first: run_with(self.runs(), lo),
            from: doc[lo].id.ts,
            last: run_with(self.runs(), hi - 1),
            to: doc[hi - 1].id.ts + 1,
        }
    }

    /// Whether there is something to delete in the first and the last run.
    pub open spec fn has_span(self, span: Span) -> bool {
        let first = self.runs()[span.first].text;
        let last = self.runs()[span.last].text;
        &&& 0 <= span.first <= span.last < self.order.len()
        &&& first.start <= span.from < first.end
        &&& last.start < span.to <= last.end
        &&& span.first == span.last ==> span.from < span.to
    }

    /// Whether the run before a position is deleted, and would go on in the one there if that
    /// were deleted.
    pub open spec fn takes_start(self, p: int) -> bool {
        p > 0 && self.runs()[p - 1].is_deleted && self.continues(p, self.runs()[p].erased())
    }

    /// Whether the run after a position is deleted, and would go on the one there if that were
    /// deleted.
    pub open spec fn takes_end(self, p: int) -> bool {
        &&& p + 1 < self.runs().len()
        &&& self.runs()[p + 1].is_deleted
        &&& self.runs()[p + 1].text.start < self.runs()[p + 1].text.end
        &&& self.runs()[p].erased().spec_continues_in(self.runs()[p + 1])
    }

    /// With a part of a single run deleted. What goes from its start or its end becomes part of
    /// the run next to it if that is possible.
    pub open spec fn deleted_within(self, span: Span) -> Layout {
        let p = span.first;
        let text = self.runs()[p].text;
        if span.from == text.start && span.to == text.end {
            self.erased(p)
        } else if span.from == text.start {
            if self.takes_start(p) {
                self.border_moved(p - 1, span.to)
            } else {
                self.cut(p, span.to).erased(p)
            }
        } else if span.to == text.end {
            if self.takes_end(p) {
                self.border_moved(p, span.from)
            } else {
                self.cut(p, span.from).erased(p + 1)
            }
        } else {
            self.cut(p, span.from).cut(p + 1, span.to).erased(p + 1)
        }
    }

    /// With the first of several runs cut, if it is affected only in part.
    pub open spec fn first_cut(self, span: Span) -> Layout {
        if self.runs()[span.first].text.start < span.from {
            self.cut(span.first, span.from)
        } else {
            self
        }
    }

    /// By how many positions cutting the first of several runs moves the others.
    pub open spec fn shift(self, span: Span) -> int {
        if self.runs()[span.first].text.start < span.from {
            1
        } else {
            0
        }
    }

    /// With the first and the last of several runs cut, if they are affected only in part.
    pub open spec fn both_cut(self, span: Span) -> Layout {
        if span.to < self.runs()[span.last].text.end {
            self.first_cut(span).cut(span.last + self.shift(span), span.to)
        } else {
            self.first_cut(span)
        }
    }

    /// How many runs there are with a part of the buffer deleted.
    pub open spec fn len_deleted(self, span: Span) -> nat {
        if span.first == span.last {
            self.deleted_within(span).leaves.len()
        } else {
            self.both_cut(span).leaves.len()
        }
    }

    /// With a part of the buffer deleted.
    #[verifier::opaque]
    pub open spec fn deleted(self, span: Span) -> Layout {
        if span.first == span.last {
            self.deleted_within(span)
        } else {
            self.both_cut(span).erased_between(
                span.first + self.shift(span),
                span.last + self.shift(span),
            )
        }
    }

    /// With the characters before `limit` of the run at a position deleted.
    #[verifier::opaque]
    pub open spec fn struck(self, p: int, limit: int) -> Layout {
        if limit < self.runs()[p].text.end {
            self.cut(p, limit).erased(p)
        } else {
            self.erased(p)
        }
    }

    /// With what a deletion made by another replica takes from the runs from position `p` on.
    /// The last character that it names is in the run at position `q`.
    #[verifier::opaque]
    pub open spec fn swept(self, deletion: DeletionView, p: int, q: int) -> Layout
        decreases q - p + 1,
    {
        let run = self.runs()[p];
        let limit = limit_of(self.runs(), deletion, p, q);
        if p > q {
            self
        } else if run.is_deleted || run.text.start >= limit {
            self.swept(deletion, p + 1, q)
        } else if limit < run.text.end {
            self.struck(p, limit).swept(deletion, p + 2, q + 1)
        } else {
            self.struck(p, limit).swept(deletion, p + 1, q)
        }
    }

    /// The position of the run that holds a character.
    pub open spec fn run_of(self, id: CharId) -> int {
        run_with(self.runs(), index_of_char(self.doc(), id))
    }

    /// With the run of a character cut before it, if it does not start there.
    pub open spec fn cut_before(self, id: CharId) -> Layout {
        if self.runs()[self.run_of(id)].text.start < id.ts {
            self.cut(self.run_of(id), id.ts)
        } else {
            self
        }
    }

    /// With a deletion made by another replica carried out.
    #[verifier::opaque]
    pub open spec fn with_deletion(self, deletion: DeletionView) -> Layout {
        let cut = self.cut_before(char_after(deletion.start));
        cut.swept(
            deletion,
            cut.run_of(char_after(deletion.start)),
            cut.run_of(char_before(deletion.end)),
        )
    }

    /// How deleting a part of a single run is told.
    pub open spec fn outcome_within(self, span: Span) -> DeletionOutcome {
        let p = span.first;
        let run = self.runs()[p];
        let replica_id = run.text.inserted_by;
        let insertion_ts = run.insertion_ts;
        let idx = self.leaves.len() as usize;
        if span.from == run.text.start && span.to == run.text.end {
            DeletionOutcome::DeletedWholeRun
        } else if span.from == run.text.start {
            if self.takes_start(p) {
                DeletionOutcome::DeletionMergedInPreviousRun {
                    replica_id,
                    insertion_ts,
                    offset: run.text.start,
                    deleted: (span.to - run.text.start) as usize,
                }
            } else {
                DeletionOutcome::DeletionSplitSingleRun {
                    replica_id,
                    insertion_ts,
                    offset: span.to as usize,
                    idx,
                }
            }
        } else if span.to == run.text.end {
            if self.takes_end(p) {
                DeletionOutcome::DeletionMergedInNextRun {
                    replica_id,
                    insertion_ts,
                    offset: run.text.end,
                    deleted: (run.text.end - span.from) as usize,
                }
            } else {
                DeletionOutcome::DeletionSplitSingleRun {
                    replica_id,
                    insertion_ts,
                    offset: span.from as usize,
                    idx,
                }
            }
        } else {
            DeletionOutcome::DeletedInMiddleOfSingleRun {
                replica_id,
                insertion_ts,
                range: span.from as usize..span.to as usize,
                idx_of_deleted: idx,
                idx_of_split: (idx + 1) as usize,
            }
        }
    }

    /// How deleting a part of the buffer is told.
    #[verifier::opaque]
    pub open spec fn deletion_outcome(self, span: Span) -> DeletionOutcome {
        let first = self.runs()[span.first];
        let last = self.runs()[span.last];
        if span.first == span.last {
            self.outcome_within(span)
        } else {
            DeletionOutcome::DeletedAcrossRuns {
                split_start: if first.text.start < span.from {
                    Some(cut_of(first, span.from, self.leaves.len() as int))
                } else {
                    None
                },
                split_end: if span.to < last.text.end {
                    Some(cut_of(last, span.to, self.leaves.len() + self.shift(span)))
                } else {
                    None
                },
            }
        }
    }
}

/// After a run has fallen to a deletion, what follows it is swept as before.
pub proof fn lemma_swept_hit(layout: Layout, deletion: DeletionView, p: int, q: int)
    requires
        permutes(layout.order, layout.leaves.len() as int),
        limit_of(layout.runs(), deletion, p, q) < layout.runs()[p].text.end ==> layout.leaves.len()
            < usize::MAX,
        0 <= p <= q < layout.order.len(),
        !layout.runs()[p].is_deleted,
        layout.runs()[p].wf(),
        layout.runs()[p].text.start < limit_of(layout.runs(), deletion, p, q),
    ensures
        ({
            let limit = limit_of(layout.runs(), deletion, p, q);
            layout.swept(deletion, p, q) == layout.struck(p, limit).swept(
                deletion,
                p + 1,
                if limit < layout.runs()[p].text.end && p < q {
                    q + 1
                } else {
                    q
                },
            )
        }),
{
    reveal(Layout::struck);
    let runs = layout.runs();
    let limit = limit_of(runs, deletion, p, q);
    let after = layout.struck(p, limit);
    lemma_swept_by(layout, deletion, p, q);
    if limit < runs[p].text.end {
        lemma_cut(layout, p, limit);
        assert(layout.cut(p, limit).order[p] == layout.order[p]);
        assert(after.runs()[p + 1] == runs[p].from(limit));
        if p < q {
            lemma_swept_by(after, deletion, p + 1, q + 1);
        } else {
            lemma_swept_by(after, deletion, p + 2, q + 1);
            lemma_swept_by(after, deletion, p + 1, q);
        }
    }
}

/// What is left to sweep after a run has been looked at.
pub proof fn lemma_swept_by(layout: Layout, deletion: DeletionView, p: int, q: int)
    ensures
        ({
            let run = layout.runs()[p];
            let limit = limit_of(layout.runs(), deletion, p, q);
            layout.swept(deletion, p, q) == if p > q {
                layout
            } else if run.is_deleted || run.text.start >= limit {
                layout.swept(deletion, p + 1, q)
            } else if limit < run.text.end {
                layout.struck(p, limit).swept(deletion, p + 2, q + 1)
            } else {
                layout.struck(p, limit).swept(deletion, p + 1, q)
            }
        }),
{
    reveal(Layout::swept);
}

/// Deleting runs does not change what they hold.
pub proof fn lemma_erased_between(layout: Layout, fragments: Seq<Fragment>, a: int, b: int)
    requires
        layout.named(),
        indexes(fragments, layout.leaves),
        0 <= a,
        b < layout.order.len(),
    ensures
        indexes(fragments, layout.erased_between(a, b).leaves),
        layout.erased_between(a, b).index == layout.index,
    decreases b - a + 1,
{
    if a <= b {
        let next = layout.erased(a);
        lemma_indexes_same_text(fragments, layout.leaves, next.leaves);
        lemma_erased_between(next, fragments, a + 1, b);
    }
}

/// Deleting a run does not change what it holds.
pub proof fn lemma_erased(layout: Layout, fragments: Seq<Fragment>, p: int)
    requires
        layout.named(),
        indexes(fragments, layout.leaves),
        0 <= p < layout.order.len(),
    ensures
        indexes(fragments, layout.erased(p).leaves),
{
    lemma_indexes_same_text(fragments, layout.leaves, layout.erased(p).leaves);
}

/// Cutting a run leaves each of the others where it is, or moves it by one position.
pub proof fn lemma_cut(layout: Layout, p: int, character_ts: int)
    requires
        permutes(layout.order, layout.leaves.len() as int),
        0 <= p < layout.order.len(),
        layout.leaves.len() < usize::MAX,
    ensures
        ({
            let after = layout.cut(p, character_ts);
            &&& after.named()
            &&& after.order.len() == layout.order.len() + 1
            &&& after.leaves.len() == layout.leaves.len() + 1
            &&& after.order[p + 1] == layout.leaves.len()
            &&& after.runs()[p + 1] == layout.runs()[p].from(character_ts)
            &&& forall|q: int|
                p < q < layout.order.len() ==> after.runs()[q + 1] == #[trigger] layout.runs()[q]
        }),
{
    let after = layout.cut(p, character_ts);
    let idx = layout.leaves.len() as usize;
    assert(after.order =~= layout.order.insert(p + 1, idx));
    assert(after.named()) by {
        assert forall|q: int| 0 <= q < after.order.len() implies (#[trigger] after.order[q])
            < after.leaves.len() by {
            if q <= p {
                assert(after.order[q] == layout.order[q]);
            } else if q > p + 1 {
                assert(after.order[q] == layout.order[q - 1]);
            }
        }
    }
    assert forall|q: int| p < q < layout.order.len() implies after.runs()[q + 1]
        == #[trigger] layout.runs()[q] by {
        assert(after.order[q + 1] == layout.order[q]);
        assert(layout.order[p] != layout.order[q]);
    }
}

/// Replacing the run at a position leaves all others as they are.
proof fn lemma_with(layout: Layout, p: int, run: EditRun)
    requires
        permutes(layout.order, layout.leaves.len() as int),
        0 <= p < layout.order.len(),
    ensures
        layout.with(p, run).runs() == layout.runs().update(p, run),
        layout.with(p, run).leaves.len() == layout.leaves.len(),
{
    let after = layout.with(p, run);
    assert forall|q: int| 0 <= q < layout.order.len() implies after.runs()[q]
        == layout.runs().update(p, run)[q] by {
        if q < p {
            assert(layout.order[q] != layout.order[p]);
        } else if p < q {
            assert(layout.order[p] != layout.order[q]);
        }
    }
    assert(after.runs() =~= layout.runs().update(p, run));
}

/// Cutting the run at a position puts what comes off its end right after it.
proof fn lemma_cut_runs(layout: Layout, p: int, character_ts: int)
    requires
        permutes(layout.order, layout.leaves.len() as int),
        0 <= p < layout.order.len(),
        layout.leaves.len() < usize::MAX,
    ensures
        layout.cut(p, character_ts).runs() == layout.runs().update(
            p,
            layout.runs()[p].up_to(character_ts),
        ).insert(p + 1, layout.runs()[p].from(character_ts)),
        layout.cut(p, character_ts).leaves.len() == layout.leaves.len() + 1,
        permutes(
            layout.cut(p, character_ts).order,
            layout.cut(p, character_ts).leaves.len() as int,
        ),
{
    let after = layout.cut(p, character_ts);
    let idx = layout.leaves.len() as usize;
    let before = layout.order;
    let expected = layout.runs().update(p, layout.runs()[p].up_to(character_ts)).insert(
        p + 1,
        layout.runs()[p].from(character_ts),
    );
    assert forall|q: int| 0 <= q < expected.len() implies after.runs()[q] == expected[q] by {
        if q < p {
            assert(before[q] != before[p]);
        } else if q > p + 1 {
            assert(before[p] != before[q - 1]);
        }
    }
    assert(after.runs() =~= expected);
    assert forall|q: int, r: int| 0 <= q < r < after.order.len() implies #[trigger] after.order[q]
        != #[trigger] after.order[r] by {
        let q0 = if q <= p {
            q
        } else {
            q - 1
        };
        let r0 = if r <= p {
            r
        } else {
            r - 1
        };
        if q != p + 1 && r != p + 1 {
            assert(before[q0] != before[r0]);
        }
    }
    assert forall|i: int| 0 <= i < after.leaves.len() implies #[trigger] placed(
        after.order,
        i,
    ) by {
        if i == idx {
            assert(after.order[p + 1] == i);
        } else {
            assert(placed(before, i));
            let q = choose|q: int| 0 <= q < before.len() && #[trigger] before[q] == i;
            if q <= p {
                assert(after.order[q] == i);
            } else {
                assert(after.order[q + 1] == i);
            }
        }
    }
}

/// A local insertion goes right after a run that holds something, or to the start of the text, or
/// into a run where it comes to lie between two of its characters.
pub proof fn law_where_a_local_insertion_goes(layout: Layout, place: int)
    requires
        0 <= place <= layout.doc().len(),
        forall|p: int| 0 <= p < layout.order.len() ==> (#[trigger] layout.runs()[p]).wf(),
    ensures
        match layout.spot(place) {
            Spot::Between(p) => {
                &&& 0 <= p <= layout.runs().len()
                &&& start_of(layout.runs(), p) == place
                &&& p == 0 <==> place == 0
                &&& p > 0 ==> layout.runs()[p - 1].text.start < layout.runs()[p - 1].text.end
            },
            Spot::Within(p, character_ts) => {
                &&& 0 <= p < layout.runs().len()
                &&& layout.runs()[p].text.start < character_ts < layout.runs()[p].text.end
                &&& start_of(layout.runs(), p) + character_ts - layout.runs()[p].text.start
                    == place
            },
        },
{
    let runs = layout.runs();
    if place == 0 {
        assert(runs.take(0) =~= Seq::<EditRun>::empty());
    } else {
        let p = lemma_run_of(runs, place - 1);
        assert(runs[p].wf());
        lemma_start_next(runs, p);
        assert(has_at(runs, p, place - 1));
        lemma_run_with(runs, p, place - 1);
    }
}

/// The insertion of another replica goes right before a run that holds something, or to the end of
/// the text, or into a run where it comes to lie between two of its characters.
pub proof fn law_where_a_merged_insertion_goes(layout: Layout, place: int)
    requires
        0 <= place <= layout.doc().len(),
        forall|p: int| 0 <= p < layout.order.len() ==> (#[trigger] layout.runs()[p]).wf(),
    ensures
        match layout.spot_of_merged(place) {
            Spot::Between(p) => {
                &&& 0 <= p <= layout.runs().len()
                &&& start_of(layout.runs(), p) == place
                &&& p < layout.runs().len() ==> layout.runs()[p].text.start
                    < layout.runs()[p].text.end
            },
            Spot::Within(p, character_ts) => {
                &&& 0 <= p < layout.runs().len()
                &&& layout.runs()[p].text.start < character_ts < layout.runs()[p].text.end
                &&& start_of(layout.runs(), p) + character_ts - layout.runs()[p].text.start
                    == place
            },
        },
{
    let runs = layout.runs();
    assert(runs.take(runs.len() as int) =~= runs);
    if place > 0 {
        let p = lemma_run_of(runs, place - 1);
        assert(runs[p].wf());
        lemma_start_next(runs, p);
        assert(has_at(runs, p, place - 1));
        lemma_run_with(runs, p, place - 1);
        if place == start_of(runs, p + 1) && place < doc_of(runs).len() {
            let q = lemma_run_of(runs, place);
            assert(runs[q].wf());
            lemma_start_next(runs, q);
            assert(has_at(runs, q, place));
            lemma_run_with(runs, q, place);
            if q <= p {
                lemma_starts_ascend(runs, q + 1, p + 1);
            } else {
                lemma_starts_ascend(runs, p + 1, q);
            }
        }
    } else if place < doc_of(runs).len() {
        let q = lemma_run_of(runs, place);
        assert(runs[q].wf());
        lemma_start_next(runs, q);
        assert(has_at(runs, q, place));
        lemma_run_with(runs, q, place);
    }
}

/// A run that comes right after one of the same replica, from where that one ends and anchored
/// there, with the same timestamps, makes that one longer. Otherwise it becomes a run of its own,
/// and where it goes into a run, what is left of that run on each side of it is another.
pub proof fn law_what_becomes_of_a_new_run(layout: Layout, spot: Spot, run: EditRun)
    requires
        permutes(layout.order, layout.leaves.len() as int),
        layout.has_spot(spot),
        layout.leaves.len() + 2 <= usize::MAX,
    ensures
        ({
            let runs = layout.runs();
            let after = layout.with_run(spot, run);
            match spot {
                Spot::Between(p) => {
                    let prev = runs[p - 1];
                    let goes_on = {
                        &&& p > 0
                        &&& prev.text.start < prev.text.end
                        &&& prev.text.inserted_by == run.text.inserted_by
                        &&& prev.text.end == run.text.start
                        &&& run.anchor.replica_id == run.text.inserted_by
                        &&& run.anchor.character_ts == run.text.start
                        &&& prev.lamport_ts == run.lamport_ts
                        &&& prev.insertion_ts == run.insertion_ts
                        &&& prev.is_deleted == run.is_deleted
                    };
                    &&& goes_on ==> after.leaves.len() == layout.leaves.len()
                    &&& goes_on ==> after.runs() == runs.update(
                        p - 1,
                        EditRun { text: Text { end: run.text.end, ..prev.text }, ..prev },
                    )
                    &&& !goes_on ==> after.leaves.len() == layout.leaves.len() + 1
                    &&& !goes_on ==> after.runs() == runs.insert(p, run)
                },
                Spot::Within(p, character_ts) => {
                    let whole = runs[p];
                    &&& after.leaves.len() == layout.leaves.len() + 2
                    &&& after.runs().len() == runs.len() + 2
                    &&& after.runs()[p] == (EditRun {
                        text: Text { end: character_ts as usize, ..whole.text },
                        ..whole
                    })
                    &&& after.runs()[p + 1] == run
                    &&& after.runs()[p + 2].text == (Text {
                        start: character_ts as usize,
                        ..whole.text
                    })
                    &&& after.runs()[p + 2].is_deleted == whole.is_deleted
                    &&& after.runs()[p + 2].lamport_ts == whole.lamport_ts
                    &&& after.runs()[p + 2].insertion_ts == whole.insertion_ts
                    &&& forall|q: int| 0 <= q < p ==> #[trigger] after.runs()[q] == runs[q]
                    &&& forall|q: int|
                        p + 3 <= q < after.runs().len() ==> #[trigger] after.runs()[q] == runs[q
                            - 2]
                },
            }
        }),
{
    reveal(Layout::with_run);
    let runs = layout.runs();
    let after = layout.with_run(spot, run);
    match spot {
        Spot::Between(p) => {
            if layout.continues(p, run) {
                lemma_with(layout, p - 1, runs[p - 1].up_to(run.text.end as int));
            } else {
                assert(after.runs() =~= runs.insert(p, run));
            }
        },
        Spot::Within(p, character_ts) => {
            let order = layout.order;
            assert forall|q: int| 0 <= q < p implies #[trigger] after.runs()[q] == runs[q] by {
                assert(after.order[q] == order[q]);
                assert(order[q] != order[p]);
            }
            assert forall|q: int| p + 3 <= q < after.runs().len() implies #[trigger] after.runs()[q]
                == runs[q - 2] by {
                assert(after.order[q] == order[q - 2]);
                assert(order[p] != order[q - 2]);
            }
            assert(after.order[p] == order[p]);
        },
    }
}

/// What becomes of a run of which a part is deleted from the buffer.
///
/// A run that goes as a whole stays one run. What goes from its start is added to the run before it
/// if that is deleted and ends where the run starts, with the same timestamps, and what goes from
/// its end to the run after it in the same way. Otherwise what goes becomes a run of its own, and
/// what stays on each side of it is another.
pub proof fn law_what_becomes_of_a_deleted_part(layout: Layout, span: Span)
    requires
        permutes(layout.order, layout.leaves.len() as int),
        layout.has_span(span),
        span.first == span.last,
        layout.leaves.len() + 2 <= usize::MAX,
    ensures
        ({
            let runs = layout.runs();
            let p = span.first;
            let run = runs[p];
            let after = layout.deleted(span);
            let whole = span.from == run.text.start && span.to == run.text.end;
            let at_start = span.from == run.text.start && span.to < run.text.end;
            let at_end = span.from > run.text.start && span.to == run.text.end;
            let prev = runs[p - 1];
            let next = runs[p + 1];
            let to_prev = {
                &&& p > 0
                &&& prev.is_deleted
                &&& prev.text.start < prev.text.end
                &&& prev.text.inserted_by == run.text.inserted_by
                &&& prev.text.end == run.text.start
                &&& run.anchor.replica_id == run.text.inserted_by
                &&& run.anchor.character_ts == run.text.start
                &&& prev.lamport_ts == run.lamport_ts
                &&& prev.insertion_ts == run.insertion_ts
            };
            let to_next = {
                &&& p + 1 < runs.len()
                &&& next.is_deleted
                &&& next.text.start < next.text.end
                &&& next.text.inserted_by == run.text.inserted_by
                &&& run.text.end == next.text.start
                &&& next.anchor.replica_id == next.text.inserted_by
                &&& next.anchor.character_ts == next.text.start
                &&& next.lamport_ts == run.lamport_ts
                &&& next.insertion_ts == run.insertion_ts
            };
            let gone = EditRun { is_deleted: true, ..run };
            &&& whole ==> after.runs() == runs.update(p, gone)
            &&& at_start && to_prev ==> after.runs() == runs.update(
                p - 1,
                prev.up_to(span.to),
            ).update(p, run.from(span.to))
            &&& at_start && !to_prev ==> after.runs() == runs.update(
                p,
                gone.up_to(span.to),
            ).insert(p + 1, run.from(span.to))
            &&& at_end && to_next ==> after.runs() == runs.update(
                p,
                run.up_to(span.from),
            ).update(p + 1, next.from(span.from))
            &&& at_end && !to_next ==> after.runs() == runs.update(
                p,
                run.up_to(span.from),
            ).insert(p + 1, gone.from(span.from))
            &&& !whole && !at_start && !at_end ==> after.runs() == runs.update(
                p,
                run.up_to(span.from),
            ).insert(p + 1, gone.from(span.from).up_to(span.to)).insert(p + 2, run.from(span.to))
        }),
{
    reveal(Layout::deleted);
    let runs = layout.runs();
    let p = span.first;
    let run = runs[p];
    let after = layout.deleted(span);
    if span.from == run.text.start && span.to == run.text.end {
        lemma_with(layout, p, run.erased());
    } else if span.from == run.text.start {
        if layout.takes_start(p) {
            lemma_with(layout, p - 1, runs[p - 1].up_to(span.to));
            lemma_with(layout.with(p - 1, runs[p - 1].up_to(span.to)), p, run.from(span.to));
        } else {
            let cut = layout.cut(p, span.to);
            lemma_cut_runs(layout, p, span.to);
            lemma_with(cut, p, cut.runs()[p].erased());
            assert(after.runs() =~= runs.update(
                p,
                (EditRun { is_deleted: true, ..run }).up_to(span.to),
            ).insert(p + 1, run.from(span.to)));
        }
    } else if span.to == run.text.end {
        if layout.takes_end(p) {
            lemma_with(layout, p, run.up_to(span.from));
            lemma_with(
                layout.with(p, run.up_to(span.from)),
                p + 1,
                runs[p + 1].from(span.from),
            );
        } else {
            let cut = layout.cut(p, span.from);
            lemma_cut_runs(layout, p, span.from);
            lemma_with(cut, p + 1, cut.runs()[p + 1].erased());
            assert(after.runs() =~= runs.update(p, run.up_to(span.from)).insert(
                p + 1,
                (EditRun { is_deleted: true, ..run }).from(span.from),
            ));
        }
    } else {
        let first = layout.cut(p, span.from);
        let second = first.cut(p + 1, span.to);
        lemma_cut_runs(layout, p, span.from);
        lemma_cut_runs(first, p + 1, span.to);
        lemma_with(second, p + 1, second.runs()[p + 1].erased());
        assert(after.runs() =~= runs.update(p, run.up_to(span.from)).insert(
            p + 1,
            (EditRun { is_deleted: true, ..run }).from(span.from).up_to(span.to),
        ).insert(p + 2, run.from(span.to)));
    }
}

} // verus!
