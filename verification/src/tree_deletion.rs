//! Deletions from the runs of a text.

use std::ops::Range;

use vstd::prelude::*;

use crate::anchor::Anchor;
use crate::clocks::InsertionTimestamp;
use crate::edit_run::{
    doc_of, lemma_doc_at, lemma_doc_char, lemma_doc_insert, lemma_doc_update, lemma_split_chars,
    lemma_start_next, lemma_starts_ascend, start_of, EditRun,
};
use crate::layout::{has_at, lemma_run_with, Layout, Span};
use crate::model::{
    delete_between, deleted_char, index_of_visible, lemma_place_ascends, lemma_visible_shrinks,
    place_of, visible, Char,
};
use crate::replica_id::ReplicaId;
use crate::run_indices::LeafIdx;
use crate::run_tree::{cut_leaf, RunTree};
use crate::text::{Length, Text};

verus! {

/// Where a run has been cut: its replica, its insertion, the character after the cut, and the
/// name of the run that has come off its end.
pub type Cut = (ReplicaId, InsertionTimestamp, Length, LeafIdx);

/// How a deletion from the buffer has changed the tree.
#[derive(Debug)]
pub enum DeletionOutcome {
    /// Several runs are affected, the first and the last perhaps only in part.
    DeletedAcrossRuns { split_start: Option<Cut>, split_end: Option<Cut> },
    /// A run has lost a piece from its middle.
    DeletedInMiddleOfSingleRun {
        replica_id: ReplicaId,
        insertion_ts: InsertionTimestamp,
        range: Range<Length>,
        idx_of_deleted: LeafIdx,
        idx_of_split: LeafIdx,
    },
    /// A run has lost its start or its end.
    DeletionSplitSingleRun {
        replica_id: ReplicaId,
        insertion_ts: InsertionTimestamp,
        offset: Length,
        idx: LeafIdx,
    },
    /// A run has lost its start to the deleted run before it.
    DeletionMergedInPreviousRun {
        replica_id: ReplicaId,
        insertion_ts: InsertionTimestamp,
        offset: Length,
        deleted: Length,
    },
    /// A run has lost its end to the deleted run after it.
    DeletionMergedInNextRun {
        replica_id: ReplicaId,
        insertion_ts: InsertionTimestamp,
        offset: Length,
        deleted: Length,
    },
    /// A run has gone as a whole.
    DeletedWholeRun,
}

/// Deleting two stretches in a row deletes both.
pub proof fn lemma_delete_twice(doc: Seq<Char>, lo: int, mid: int, hi: int)
    requires
        lo <= mid <= hi,
    ensures
        delete_between(delete_between(doc, lo, mid), mid, hi) == delete_between(doc, lo, hi),
        delete_between(delete_between(doc, mid, hi), lo, mid) == delete_between(doc, lo, hi),
{
    assert(delete_between(delete_between(doc, lo, mid), mid, hi) =~= delete_between(doc, lo, hi));
    assert(delete_between(delete_between(doc, mid, hi), lo, mid) =~= delete_between(doc, lo, hi));
}

/// Erasing a run deletes its characters.
pub proof fn lemma_doc_erase(runs: Seq<EditRun>, p: int)
    requires
        0 <= p < runs.len(),
        runs[p].wf(),
    ensures
        doc_of(runs.update(p, runs[p].erased())) == delete_between(
            doc_of(runs),
            start_of(runs, p),
            start_of(runs, p) + runs[p].spec_len(),
        ),
{
    lemma_doc_update(runs, p, runs[p].erased());
    lemma_doc_at(runs, p);
    assert(doc_of(runs.update(p, runs[p].erased())) =~= delete_between(
        doc_of(runs),
        start_of(runs, p),
        start_of(runs, p) + runs[p].spec_len(),
    ));
}

/// Cutting a run in two leaves the text as it is.
pub proof fn lemma_doc_cut_run(runs: Seq<EditRun>, p: int, character_ts: int)
    requires
        0 <= p < runs.len(),
        runs[p].wf(),
        runs[p].text.start < character_ts < runs[p].text.end,
    ensures
        ({
            let after = runs.update(p, runs[p].up_to(character_ts)).insert(
                p + 1,
                runs[p].from(character_ts),
            );
            &&& doc_of(after) == doc_of(runs)
            &&& forall|q: int| 0 <= q <= p ==> #[trigger] start_of(after, q) == start_of(runs, q)
            &&& start_of(after, p + 1) == start_of(runs, p) + character_ts - runs[p].text.start
            &&& forall|q: int|
                p < q <= runs.len() ==> #[trigger] start_of(after, q + 1) == start_of(runs, q)
        }),
{
    let left = runs[p].up_to(character_ts);
    let right = runs[p].from(character_ts);
    let mid = runs.update(p, left);
    let after = mid.insert(p + 1, right);
    lemma_split_chars(runs[p], character_ts);
    lemma_doc_at(runs, p);
    lemma_doc_update(runs, p, left);
    lemma_doc_insert(mid, p + 1, right);
    lemma_doc_at(mid, p);
    assert(mid.take(p) =~= runs.take(p));
    assert(mid.skip(p + 1) =~= runs.skip(p + 1));
    assert(doc_of(after) =~= doc_of(runs));
    assert(after.take(p + 1) =~= mid.take(p + 1));
    assert forall|q: int| 0 <= q <= p implies #[trigger] start_of(after, q) == start_of(
        runs,
        q,
    ) by {
        assert(after.take(q) =~= runs.take(q));
    }
    assert forall|q: int| p < q <= runs.len() implies #[trigger] start_of(after, q + 1)
        == start_of(runs, q) by {
        lemma_starts_after_cut(runs, p, character_ts, q);
    }
}

/// Cutting a run moves the runs after it by one position.
proof fn lemma_starts_after_cut(runs: Seq<EditRun>, p: int, character_ts: int, q: int)
    requires
        0 <= p < q <= runs.len(),
        runs[p].wf(),
        runs[p].text.start < character_ts < runs[p].text.end,
    ensures
        ({
            let after = runs.update(p, runs[p].up_to(character_ts)).insert(
                p + 1,
                runs[p].from(character_ts),
            );
            start_of(after, q + 1) == start_of(runs, q)
        }),
    decreases q,
{
    let left = runs[p].up_to(character_ts);
    let right = runs[p].from(character_ts);
    let after = runs.update(p, left).insert(p + 1, right);
    lemma_split_chars(runs[p], character_ts);
    lemma_doc_at(after, q);
    lemma_doc_at(runs, q - 1);
    if q == p + 1 {
        lemma_doc_at(after, p);
        assert(after.take(p) =~= runs.take(p));
    } else {
        lemma_starts_after_cut(runs, p, character_ts, q - 1);
        assert(after[q] == runs[q - 1]);
    }
}

impl RunTree {
    /// Cuts the run at a position before one of its characters.
    pub fn cut_run(&mut self, p: usize, character_ts: Length) -> (idx: LeafIdx)
        requires
            old(self).shaped(),
            p < old(self).order@.len(),
            old(self).runs()[p as int].text.start < character_ts
                < old(self).runs()[p as int].text.end,
        ensures
            final(self).shaped(),
            final(self).doc() == old(self).doc(),
            idx == old(self).leaves@.len(),
            final(self).runs() == old(self).runs().update(
                p as int,
                old(self).runs()[p as int].up_to(character_ts as int),
            ).insert(p + 1, old(self).runs()[p as int].from(character_ts as int)),
            final(self).order@ == old(self).order@.insert(p + 1, idx),
            final(self).leaves@ == cut_leaf(
                old(self).leaves@,
                old(self).order@[p as int] as int,
                character_ts as int,
            ),
            final(self).order@.len() <= usize::MAX,
    {
        let mut left = self.run_at(p);
        let right = left.split(character_ts);
        self.set_run(p, left);
        let idx: usize = self.insert_run(p + 1, right);
        proof {
            lemma_doc_cut_run(old(self).runs(), p as int, character_ts as int);
        }
        idx
    }

    /// Deletes the run at a position.
    pub fn erase_run(&mut self, p: usize)
        requires
            old(self).shaped(),
            p < old(self).order@.len(),
        ensures
            final(self).shaped(),
            final(self).order@ == old(self).order@,
            final(self).runs() == old(self).runs().update(
                p as int,
                old(self).runs()[p as int].erased(),
            ),
            final(self).doc() == delete_between(
                old(self).doc(),
                start_of(old(self).runs(), p as int),
                start_of(old(self).runs(), p as int) + old(self).runs()[p as int].spec_len(),
            ),
            final(self).leaves@ == old(self).leaves@.update(
                old(self).order@[p as int] as int,
                old(self).runs()[p as int].erased(),
            ),
    {
        let run = self.run_at(p);
        let erased = EditRun { is_deleted: true, ..run };
        self.set_run(p, erased);
        proof {
            lemma_doc_erase(old(self).runs(), p as int);
        }
    }

    /// Deletes the part of the buffer from `start` up to `end`.
    pub fn delete(
        &mut self,
        start: Length,
        end: Length,
        Ghost(index): Ghost<Seq<LeafIdx>>,
    ) -> (res: (Anchor, Anchor, DeletionOutcome))
        requires
            old(self).wf(),
            start < end <= visible(old(self).doc()).len(),
        ensures
            final(self).wf(),
            ({
                let doc = old(self).doc();
                let lo = index_of_visible(doc, start as int);
                let hi = place_of(doc, end as int);
                &&& 0 <= lo < hi <= doc.len()
                &&& final(self).doc() == delete_between(doc, lo, hi)
                &&& res.0 == (Anchor {
                    replica_id: doc[lo].id.by,
                    character_ts: doc[lo].id.ts as usize,
                })
                &&& res.1 == (Anchor {
                    replica_id: doc[hi - 1].id.by,
                    character_ts: (doc[hi - 1].id.ts + 1) as usize,
                })
            }),
            ({
                let layout = old(self).layout(index);
                let span = layout.span(start as int, end as int);
                &&& layout.has_span(span)
                &&& final(self).lies_as(layout.deleted(span))
                &&& layout.len_deleted(span) <= usize::MAX
                &&& res.2 == layout.deletion_outcome(span)
            }),
    {
        let ghost doc = self.doc();
        let ghost runs = self.runs();
        let (p, k) = self.locate(start + 1);
        let (q, l) = self.locate(end);
        let first = self.run_at(p);
        let last = self.run_at(q);
        let from: usize = first.text.start + (k - 1);
        let to: usize = last.text.start + l;
        let start_anchor = Anchor::new(first.text.inserted_by, from);
        let end_anchor = Anchor::new(last.text.inserted_by, to);
        let ghost lo = index_of_visible(doc, start as int);
        let ghost hi = place_of(doc, end as int);
        proof {
            lemma_place_ascends(doc, start + 1, end as int);
            lemma_doc_char(runs, p as int, k - 1);
            lemma_doc_char(runs, q as int, l - 1);
            lemma_start_next(runs, p as int);
            lemma_start_next(runs, q as int);
            if q < p {
                lemma_starts_ascend(runs, q as int, p as int);
            }
            assert(has_at(runs, p as int, lo));
            lemma_run_with(runs, p as int, lo);
            assert(has_at(runs, q as int, hi - 1));
            lemma_run_with(runs, q as int, hi - 1);
        }
        let ghost span = self.layout(index).span(start as int, end as int);
        assert(span == (Span {
            first: p as int,
            from: from as int,
            last: q as int,
            to: to as int,
        }));
        let outcome = if p == q {
            self.delete_within(p, from, to, Ghost(index))
        } else {
            self.delete_across(p, from, q, to, Ghost(index))
        };
        proof {
            assert forall|i: int|
                0 <= i < doc.len() && (
                #[trigger] doc[i]).deleted implies self.doc()[i].deleted by {}
            lemma_visible_shrinks(doc, self.doc());
        }
        (start_anchor, end_anchor, outcome)
    }

    /// Deletes the characters from `from` up to `to` of the run at position `p`.
    fn delete_within(
        &mut self,
        p: usize,
        from: Length,
        to: Length,
        Ghost(index): Ghost<Seq<LeafIdx>>,
    ) -> (outcome: DeletionOutcome)
        requires
            old(self).shaped(),
            p < old(self).order@.len(),
            !old(self).runs()[p as int].is_deleted,
            old(self).runs()[p as int].text.start <= from < to
                <= old(self).runs()[p as int].text.end,
        ensures
            final(self).shaped(),
            final(self).doc() == delete_between(
                old(self).doc(),
                start_of(old(self).runs(), p as int) + from
                    - old(self).runs()[p as int].text.start,
                start_of(old(self).runs(), p as int) + to
                    - old(self).runs()[p as int].text.start,
            ),
            final(self).lies_as(
                old(self).layout(index).deleted(
                    (Span { first: p as int, from: from as int, last: p as int, to: to as int }),
                ),
            ),
            outcome == old(self).layout(index).deletion_outcome(
                (Span { first: p as int, from: from as int, last: p as int, to: to as int }),
            ),
            old(self).layout(index).deleted_within(
                (Span { first: p as int, from: from as int, last: p as int, to: to as int }),
            ).leaves.len() <= usize::MAX,
    {
        reveal(Layout::deleted);
        reveal(Layout::deletion_outcome);
        let run = self.run_at(p);
        if from == run.text.start && to == run.text.end {
            self.erase_run(p);
            DeletionOutcome::DeletedWholeRun
        } else if from == run.text.start {
            self.delete_start(p, to, Ghost(index))
        } else if to == run.text.end {
            self.delete_end(p, from, Ghost(index))
        } else {
            self.delete_middle(p, from, to, Ghost(index))
        }
    }

    /// Deletes the characters from `from` up to `to` from the middle of the run at position `p`.
    fn delete_middle(
        &mut self,
        p: usize,
        from: Length,
        to: Length,
        Ghost(index): Ghost<Seq<LeafIdx>>,
    ) -> (outcome: DeletionOutcome)
        requires
            old(self).shaped(),
            p < old(self).order@.len(),
            old(self).runs()[p as int].text.start < from < to
                < old(self).runs()[p as int].text.end,
        ensures
            final(self).shaped(),
            final(self).doc() == delete_between(
                old(self).doc(),
                start_of(old(self).runs(), p as int) + from
                    - old(self).runs()[p as int].text.start,
                start_of(old(self).runs(), p as int) + to
                    - old(self).runs()[p as int].text.start,
            ),
            final(self).lies_as(
                old(self).layout(index).deleted_within(
                    (Span { first: p as int, from: from as int, last: p as int, to: to as int }),
                ),
            ),
            outcome == old(self).layout(index).outcome_within(
                (Span { first: p as int, from: from as int, last: p as int, to: to as int }),
            ),
            final(self).leaves@.len() <= usize::MAX,
    {
        let ghost runs = self.runs();
        let run = self.run_at(p);
        let idx_of_deleted: usize = self.cut_run(p, from);
        let ghost runs1 = self.runs();
        let idx_of_split: usize = self.cut_run(p + 1, to);
        let ghost runs2 = self.runs();
        self.erase_run(p + 1);
        let outcome = DeletionOutcome::DeletedInMiddleOfSingleRun {
            replica_id: run.text.inserted_by,
            insertion_ts: run.insertion_ts,
            range: from..to,
            idx_of_deleted,
            idx_of_split,
        };
        proof {
            lemma_doc_cut_run(runs, p as int, from as int);
            lemma_doc_cut_run(runs1, p + 1, to as int);
            assert(start_of(runs2, p + 1) == start_of(runs1, p + 1));
        }
        outcome
    }

    /// Deletes the characters before `to` from the run at position `p`.
    fn delete_start(
        &mut self,
        p: usize,
        to: Length,
        Ghost(index): Ghost<Seq<LeafIdx>>,
    ) -> (outcome: DeletionOutcome)
        requires
            old(self).shaped(),
            p < old(self).order@.len(),
            !old(self).runs()[p as int].is_deleted,
            old(self).runs()[p as int].text.start < to < old(self).runs()[p as int].text.end,
        ensures
            final(self).shaped(),
            final(self).doc() == delete_between(
                old(self).doc(),
                start_of(old(self).runs(), p as int),
                start_of(old(self).runs(), p as int) + to
                    - old(self).runs()[p as int].text.start,
            ),
            final(self).lies_as(
                old(self).layout(index).deleted_within(
                    (Span {
                        first: p as int,
                        from: old(self).runs()[p as int].text.start as int,
                        last: p as int,
                        to: to as int,
                    }),
                ),
            ),
            outcome == old(self).layout(index).outcome_within(
                (Span {
                    first: p as int,
                    from: old(self).runs()[p as int].text.start as int,
                    last: p as int,
                    to: to as int,
                }),
            ),
            final(self).leaves@.len() <= usize::MAX,
    {
        let ghost runs = self.runs();
        let run = self.run_at(p);
        if p > 0 {
            let prev = self.run_at(p - 1);
            let erased = EditRun { is_deleted: true, ..run };
            if prev.is_deleted && prev.continues_in(&erased) {
                let mut shrunk = run;
                let rest = shrunk.split(to);
                let grown = EditRun { text: Text { end: to, ..prev.text }, ..prev };
                self.set_run(p - 1, grown);
                self.set_run(p, rest);
                let outcome = DeletionOutcome::DeletionMergedInPreviousRun {
                    replica_id: run.text.inserted_by,
                    insertion_ts: run.insertion_ts,
                    offset: run.text.start,
                    deleted: to - run.text.start,
                };
                proof {
                    lemma_border_to_prev(runs, p as int, to as int);
                    assert(grown == runs[p - 1].up_to(to as int));
                    assert(rest == runs[p as int].from(to as int));
                }
                return outcome;
            }
        }
        let idx: usize = self.cut_run(p, to);
        let ghost runs1 = self.runs();
        self.erase_run(p);
        let outcome = DeletionOutcome::DeletionSplitSingleRun {
            replica_id: run.text.inserted_by,
            insertion_ts: run.insertion_ts,
            offset: to,
            idx,
        };
        proof {
            lemma_doc_cut_run(runs, p as int, to as int);
            assert(start_of(runs1, p as int) == start_of(runs, p as int));
        }
        outcome
    }

    /// Deletes the characters from `from` on from the run at position `p`.
    fn delete_end(
        &mut self,
        p: usize,
        from: Length,
        Ghost(index): Ghost<Seq<LeafIdx>>,
    ) -> (outcome: DeletionOutcome)
        requires
            old(self).shaped(),
            p < old(self).order@.len(),
            !old(self).runs()[p as int].is_deleted,
            old(self).runs()[p as int].text.start < from < old(self).runs()[p as int].text.end,
        ensures
            final(self).shaped(),
            final(self).doc() == delete_between(
                old(self).doc(),
                start_of(old(self).runs(), p as int) + from
                    - old(self).runs()[p as int].text.start,
                start_of(old(self).runs(), p as int) + old(self).runs()[p as int].spec_len(),
            ),
            final(self).lies_as(
                old(self).layout(index).deleted_within(
                    (Span {
                        first: p as int,
                        from: from as int,
                        last: p as int,
                        to: old(self).runs()[p as int].text.end as int,
                    }),
                ),
            ),
            outcome == old(self).layout(index).outcome_within(
                (Span {
                    first: p as int,
                    from: from as int,
                    last: p as int,
                    to: old(self).runs()[p as int].text.end as int,
                }),
            ),
            final(self).leaves@.len() <= usize::MAX,
    {
        let ghost runs = self.runs();
        let run = self.run_at(p);
        if p + 1 < self.order.len() {
            let next = self.run_at(p + 1);
            let erased = EditRun { is_deleted: true, ..run };
            if next.is_deleted && next.text.start < next.text.end && erased.continues_in(&next) {
                let mut shrunk = run;
                let rest = shrunk.split(from);
                let grown = EditRun {
                    anchor: rest.anchor,
                    text: Text { start: from, ..next.text },
                    ..next
                };
                self.set_run(p, shrunk);
                self.set_run(p + 1, grown);
                let outcome = DeletionOutcome::DeletionMergedInNextRun {
                    replica_id: run.text.inserted_by,
                    insertion_ts: run.insertion_ts,
                    offset: run.text.end,
                    deleted: run.text.end - from,
                };
                proof {
                    lemma_border_to_next(runs, p as int, from as int);
                    assert(shrunk == runs[p as int].up_to(from as int));
                    assert(grown == runs[p + 1].from(from as int));
                }
                return outcome;
            }
        }
        let idx: usize = self.cut_run(p, from);
        self.erase_run(p + 1);
        let outcome = DeletionOutcome::DeletionSplitSingleRun {
            replica_id: run.text.inserted_by,
            insertion_ts: run.insertion_ts,
            offset: from,
            idx,
        };
        proof {
            lemma_doc_cut_run(runs, p as int, from as int);
        }
        outcome
    }

    /// Deletes the runs from position `a` up to and with position `b`.
    fn erase_between(&mut self, a: usize, b: usize, Ghost(index): Ghost<Seq<LeafIdx>>)
        requires
            old(self).shaped(),
            a <= b < old(self).order@.len(),
        ensures
            final(self).shaped(),
            final(self).doc() == delete_between(
                old(self).doc(),
                start_of(old(self).runs(), a as int),
                start_of(old(self).runs(), b + 1),
            ),
            final(self).lies_as(
                old(self).layout(index).erased_between(a as int, b as int),
            ),
    {
        let ghost runs0 = self.runs();
        let ghost doc = self.doc();
        let ghost lo = start_of(runs0, a as int);
        let len: usize = self.order.len();
        assert(len == self.order@.len());
        assert(delete_between(doc, lo, lo) =~= doc);
        let mut r: usize = a;
        while r <= b
            invariant
                a <= r <= b + 1,
                b < self.order@.len() <= usize::MAX,
                self.shaped(),
                forall|i: int| 0 <= i < runs0.len() ==> (#[trigger] runs0[i]).wf(),
                self.runs().len() == runs0.len(),
                forall|s: int| r <= s < runs0.len() ==> self.runs()[s] == runs0[s],
                forall|s: int|
                    0 <= s <= runs0.len() ==> #[trigger] start_of(self.runs(), s) == start_of(
                        runs0,
                        s,
                    ),
                start_of(runs0, a as int) == lo,
                self.doc() == delete_between(doc, lo, start_of(runs0, r as int)),
                old(self).layout(index).erased_between(a as int, b as int) == self.layout(
                    index,
                ).erased_between(r as int, b as int),
            decreases b + 1 - r,
        {
            let ghost runs = self.runs();
            let ghost layout = self.layout(index);
            self.erase_run(r);
            proof {
                assert(self.layout(index) == layout.erased(r as int));
                assert(start_of(runs, r as int) == start_of(runs0, r as int));
                assert(runs[r as int] == runs0[r as int]);
                lemma_start_next(runs0, r as int);
                lemma_starts_ascend(runs0, a as int, r as int);
                lemma_delete_twice(
                    doc,
                    lo,
                    start_of(runs0, r as int),
                    start_of(runs0, r + 1),
                );
                assert forall|s: int| 0 <= s <= runs0.len() implies #[trigger] start_of(
                    self.runs(),
                    s,
                ) == start_of(runs0, s) by {
                    lemma_starts_after_erase(runs, r as int, s);
                    assert(start_of(runs, s) == start_of(runs0, s));
                }
            }
            r = r + 1;
        }
    }

    /// Deletes the characters from `from` in the run at position `p` up to `to` in the one at
    /// position `q`.
    fn delete_across(
        &mut self,
        p: usize,
        from: Length,
        q: usize,
        to: Length,
        Ghost(index): Ghost<Seq<LeafIdx>>,
    ) -> (outcome: DeletionOutcome)
        requires
            old(self).shaped(),
            p < q < old(self).order@.len(),
            old(self).runs()[p as int].text.start <= from < old(self).runs()[p as int].text.end,
            old(self).runs()[q as int].text.start < to <= old(self).runs()[q as int].text.end,
        ensures
            final(self).shaped(),
            final(self).doc() == delete_between(
                old(self).doc(),
                start_of(old(self).runs(), p as int) + from
                    - old(self).runs()[p as int].text.start,
                start_of(old(self).runs(), q as int) + to
                    - old(self).runs()[q as int].text.start,
            ),
            final(self).lies_as(
                old(self).layout(index).deleted(
                    (Span { first: p as int, from: from as int, last: q as int, to: to as int }),
                ),
            ),
            outcome == old(self).layout(index).deletion_outcome(
                (Span { first: p as int, from: from as int, last: q as int, to: to as int }),
            ),
            old(self).layout(index).both_cut(
                (Span { first: p as int, from: from as int, last: q as int, to: to as int }),
            ).leaves.len() <= usize::MAX,
    {
        let ghost runs0 = self.runs();
        let ghost layout = self.layout(index);
        let ghost span = Span {
            first: p as int,
            from: from as int,
            last: q as int,
            to: to as int,
        };
        reveal(Layout::deleted);
        reveal(Layout::deletion_outcome);
        let ghost doc = self.doc();
        let first = self.run_at(p);
        let last = self.run_at(q);
        let ghost lo = start_of(runs0, p as int) + from - first.text.start;
        let ghost hi = start_of(runs0, q as int) + to - last.text.start;
        // The positions of the first and the last run that go as a whole.
        let mut a: usize = p;
        let mut b: usize = q;
        let mut split_start: Option<Cut> = None;
        if first.text.start < from {
            let idx: usize = self.cut_run(p, from);
            let cut = (first.text.inserted_by, first.insertion_ts, from, idx);
            proof {
                lemma_doc_cut_run(runs0, p as int, from as int);
                assert(start_of(self.runs(), q + 1) == start_of(runs0, q as int));
                assert(self.runs()[q + 1] == runs0[q as int]);
            }
            split_start = Some(cut);
            a = p + 1;
            b = q + 1;
        }
        let ghost runs1 = self.runs();
        assert(self.lies_as(layout.first_cut(span)));
        assert(start_of(runs1, a as int) == lo);
        assert(start_of(runs1, b as int) + to - last.text.start == hi);
        assert(runs1[b as int] == last);
        let mut split_end: Option<Cut> = None;
        if to < last.text.end {
            let idx: usize = self.cut_run(b, to);
            let cut = (last.text.inserted_by, last.insertion_ts, to, idx);
            proof {
                lemma_doc_cut_run(runs1, b as int, to as int);
                assert(start_of(self.runs(), a as int) == start_of(runs1, a as int));
            }
            split_end = Some(cut);
        }
        let ghost runs2 = self.runs();
        let ghost both = layout.both_cut(span);
        proof {
            assert(self.layout(both.index) == both);
            assert(start_of(runs2, a as int) == lo);
            lemma_start_next(runs2, b as int);
            assert(start_of(runs2, b + 1) == hi);
        }
        self.erase_between(a, b, Ghost(both.index));
        DeletionOutcome::DeletedAcrossRuns { split_start, split_end }
    }
}

/// Erasing a run does not move where another one starts.
pub proof fn lemma_starts_after_erase(runs: Seq<EditRun>, p: int, q: int)
    requires
        0 <= p < runs.len(),
        0 <= q <= runs.len(),
    ensures
        start_of(runs.update(p, runs[p].erased()), q) == start_of(runs, q),
    decreases q,
{
    let after = runs.update(p, runs[p].erased());
    if q > 0 {
        lemma_starts_after_erase(runs, p, q - 1);
        lemma_doc_at(runs, q - 1);
        lemma_doc_at(after, q - 1);
    } else {
        assert(after.take(0) =~= runs.take(0));
    }
}

/// Deleting a stretch of the two parts in the middle.
proof fn lemma_four_parts(
    front: Seq<Char>,
    a: Seq<Char>,
    b: Seq<Char>,
    c: Seq<Char>,
    d: Seq<Char>,
    back: Seq<Char>,
    lo: int,
    hi: int,
)
    requires
        a.len() + b.len() == c.len() + d.len(),
        front.len() <= lo <= hi <= front.len() + a.len() + b.len(),
        forall|i: int|
            0 <= i < a.len() + b.len() ==> (#[trigger] (c + d)[i]) == if lo <= i + front.len()
                < hi {
                deleted_char((a + b)[i])
            } else {
                (a + b)[i]
            },
    ensures
        front + c + d + back == delete_between(front + a + b + back, lo, hi),
{
    let old = front + a + b + back;
    let new = front + c + d + back;
    let n = front.len();
    let m = (a.len() + b.len()) as int;
    assert forall|i: int| 0 <= i < new.len() implies new[i] == delete_between(old, lo, hi)[i] by {
        if n <= i < n + m {
            assert(new[i] == (c + d)[i - n]);
            assert(old[i] == (a + b)[i - n]);
        }
    }
    assert(new =~= delete_between(old, lo, hi));
}

/// Handing the start of a run over to the deleted run before it deletes it.
proof fn lemma_border_to_prev(runs: Seq<EditRun>, p: int, to: int)
    requires
        0 < p < runs.len(),
        runs[p - 1].wf(),
        runs[p].wf(),
        runs[p - 1].is_deleted,
        runs[p - 1].spec_continues_in(runs[p].erased()),
        runs[p].text.start < to < runs[p].text.end,
    ensures
        doc_of(runs.update(p - 1, runs[p - 1].up_to(to)).update(p, runs[p].from(to)))
            == delete_between(
            doc_of(runs),
            start_of(runs, p),
            start_of(runs, p) + to - runs[p].text.start,
        ),
{
    let grown = runs[p - 1].up_to(to);
    let rest = runs[p].from(to);
    let mid = runs.update(p - 1, grown);
    let after = mid.update(p, rest);
    lemma_doc_at(runs, p - 1);
    lemma_doc_at(runs, p);
    lemma_doc_at(after, p - 1);
    lemma_doc_at(after, p);
    assert(after.take(p - 1) =~= runs.take(p - 1));
    assert(after.skip(p + 1) =~= runs.skip(p + 1));
    let lo = start_of(runs, p);
    let hi = lo + to - runs[p].text.start;
    lemma_four_parts(
        doc_of(runs.take(p - 1)),
        runs[p - 1].chars(),
        runs[p].chars(),
        grown.chars(),
        rest.chars(),
        doc_of(runs.skip(p + 1)),
        lo,
        hi,
    );
}

/// Handing the end of a run over to the deleted run after it deletes it.
proof fn lemma_border_to_next(runs: Seq<EditRun>, p: int, from: int)
    requires
        0 <= p < runs.len() - 1,
        runs[p].wf(),
        runs[p + 1].wf(),
        runs[p + 1].is_deleted,
        runs[p].erased().spec_continues_in(runs[p + 1]),
        runs[p].text.start < from < runs[p].text.end,
    ensures
        doc_of(runs.update(p, runs[p].up_to(from)).update(p + 1, runs[p + 1].from(from)))
            == delete_between(
            doc_of(runs),
            start_of(runs, p) + from - runs[p].text.start,
            start_of(runs, p) + runs[p].spec_len(),
        ),
{
    let rest = runs[p].up_to(from);
    let grown = runs[p + 1].from(from);
    let mid = runs.update(p, rest);
    let after = mid.update(p + 1, grown);
    lemma_doc_at(runs, p);
    lemma_doc_at(runs, p + 1);
    lemma_doc_at(after, p);
    lemma_doc_at(after, p + 1);
    assert(after.take(p) =~= runs.take(p));
    assert(after.skip(p + 2) =~= runs.skip(p + 2));
    let lo = start_of(runs, p) + from - runs[p].text.start;
    let hi = start_of(runs, p) + runs[p].spec_len();
    lemma_four_parts(
        doc_of(runs.take(p)),
        runs[p].chars(),
        runs[p + 1].chars(),
        rest.chars(),
        grown.chars(),
        doc_of(runs.skip(p + 2)),
        lo,
        hi,
    );
}

} // verus!
