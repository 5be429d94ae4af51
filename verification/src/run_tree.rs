//! The runs of a text in order.

use vstd::prelude::*;

use crate::anchor::Anchor;
use crate::clocks::{InsertionClock, InsertionTimestamp, LamportClock};
use crate::crdt_edit::Insertion;
use crate::edit_run::{
    doc_of, lemma_doc_at, lemma_doc_char, lemma_doc_concat, lemma_doc_cut, lemma_doc_insert,
    lemma_doc_single, lemma_doc_update, lemma_join_chars, lemma_run_of, lemma_split_chars,
    lemma_visible_run, lemma_visible_within, start_of, EditRun,
};
use crate::layout::{has_at, lemma_run_with, lemma_spot_of_merged, Layout, Spot};
use crate::model::{
    char_before, complete, has_char, index_of_char, lemma_index_of_char, lemma_place_at,
    lemma_skip_stretch, lemma_splice_visible, lemma_visible_concat, lemma_visible_cut, merge_place,
    outranks, place_of, run_chars, skip_outranking, splice, visible, Char, CharId,
};
use crate::replica_id::ReplicaId;
use crate::run_indices::{indexes, names_of, LeafIdx, RunIndices};
use crate::text::{Length, Text};

verus! {

/// Whether the run of the given name has a place in the order.
pub open spec fn placed(order: Seq<LeafIdx>, idx: int) -> bool {
    exists|p: int| 0 <= p < order.len() && #[trigger] order[p] == idx
}

/// The order names each of the `n` runs once.
pub open spec fn permutes(order: Seq<LeafIdx>, n: int) -> bool {
    &&& order.len() == n
    &&& forall|p: int| 0 <= p < order.len() ==> 0 <= #[trigger] order[p] < n
    &&& forall|p: int, q: int|
        0 <= p < q < order.len() ==> #[trigger] order[p] != #[trigger] order[q]
    &&& forall|i: int| 0 <= i < n ==> #[trigger] placed(order, i)
}

/// The runs in order.
pub open spec fn runs_of(leaves: Seq<EditRun>, order: Seq<LeafIdx>) -> Seq<EditRun> {
    Seq::new(order.len(), |p: int| leaves[order[p] as int])
}

/// How many of the runs hold nothing of the buffer.
pub open spec fn empty_runs(leaves: Seq<EditRun>) -> int
    decreases leaves.len(),
{
    if leaves.len() == 0 {
        0
    } else {
        empty_runs(leaves.drop_last()) + if leaves.last().spec_visible_len() == 0 {
            1int
        } else {
            0int
        }
    }
}

/// Runs that are deleted or hold no characters count as holding nothing of the buffer, and no
/// others do.
pub proof fn law_empty_runs_are_counted(leaves: Seq<EditRun>, run: EditRun)
    requires
        run.wf(),
    ensures
        empty_runs(Seq::empty()) == 0,
        empty_runs(leaves.push(run)) == empty_runs(leaves) + if run.is_deleted || run.text.start
            == run.text.end {
            1int
        } else {
            0int
        },
{
    assert(leaves.push(run).drop_last() =~= leaves);
}

/// A run cut before a character, what comes off its end being a new run.
pub open spec fn cut_leaf(leaves: Seq<EditRun>, i: int, character_ts: int) -> Seq<EditRun> {
    leaves.update(i, leaves[i].up_to(character_ts)).push(leaves[i].from(character_ts))
}

/// How an insertion has changed the tree.
#[derive(Clone, Copy, Debug)]
pub enum InsertionOutcome {
    /// The text has been added to the last run of the replica.
    ExtendedLastRun { replica_id: ReplicaId },
    /// The text is in a new run that has cut another one in two.
    SplitRun {
        split_id: ReplicaId,
        split_insertion: InsertionTimestamp,
        split_at_offset: Length,
        split_idx: LeafIdx,
        inserted_id: ReplicaId,
        inserted_insertion: InsertionTimestamp,
        inserted_start: Length,
        inserted_idx: LeafIdx,
    },
    /// The text is in a new run between two others.
    InsertedRun {
        replica_id: ReplicaId,
        insertion_ts: InsertionTimestamp,
        start: Length,
        inserted_idx: LeafIdx,
    },
}

/// Whether a local insertion goes on where the last one of the replica ended, with nothing having
/// happened since.
pub open spec fn carries_on(
    doc: Seq<Char>,
    offset: int,
    text: Text,
    insertion_clock: InsertionClock,
    lamport_clock: LamportClock,
) -> bool {
    let c = doc[place_of(doc, offset) - 1];
    &&& offset > 0
    &&& c.id == (CharId { by: text.inserted_by, ts: text.start - 1 })
    &&& c.lamport_ts == lamport_clock.last()
    &&& c.insertion_ts == insertion_clock.last()
}

/// The anchor of a local insertion: right after the character of the buffer before it.
pub open spec fn insertion_anchor(doc: Seq<Char>, offset: int) -> Anchor {
    if offset == 0 {
        Anchor::origin()
    } else {
        let c = doc[place_of(doc, offset) - 1];
        Anchor { replica_id: c.id.by, character_ts: (c.id.ts + 1) as usize }
    }
}

/// The insertion that put the character before a local insertion into the text.
pub open spec fn insertion_anchor_ts(doc: Seq<Char>, offset: int) -> InsertionTimestamp {
    if offset == 0 {
        0
    } else {
        doc[place_of(doc, offset) - 1].insertion_ts
    }
}

/// The runs of a text, deleted ones included.
#[derive(Debug)]
pub struct RunTree {
    /// The runs by name.
    pub leaves: Vec<EditRun>,
    /// The names of the runs in the order of the text.
    pub order: Vec<LeafIdx>,
}

impl RunTree {
    /// The runs in the order of the text.
    pub open spec fn runs(&self) -> Seq<EditRun> {
        runs_of(self.leaves@, self.order@)
    }

    /// The text.
    pub open spec fn doc(&self) -> Seq<Char> {
        doc_of(self.runs())
    }

    /// How the runs lie, given the order of their fragments.
    pub open spec fn layout(&self, index: Seq<LeafIdx>) -> Layout {
        Layout { leaves: self.leaves@, order: self.order@, index }
    }

    /// Whether the runs lie in the given way.
    pub open spec fn lies_as(&self, layout: Layout) -> bool {
        self.leaves@ == layout.leaves && self.order@ == layout.order
    }

    /// Each run has a place.
    pub open spec fn shaped(&self) -> bool {
        &&& permutes(self.order@, self.leaves@.len() as int)
        &&& forall|i: int| 0 <= i < self.leaves@.len() ==> (#[trigger] self.leaves@[i]).wf()
    }

    pub open spec fn wf(&self) -> bool {
        &&& self.shaped()
        &&& visible(self.doc()).len() <= usize::MAX
    }

    /// A text made of a single run.
    pub fn new(run: EditRun) -> (res: (RunTree, LeafIdx))
        requires
            run.wf(),
            !run.is_deleted,
        ensures
            res.0.wf(),
            res.0.leaves@ == seq![run],
            res.0.order@ == seq![0usize],
            res.0.doc() == run.chars(),
            res.1 == 0,
    {
        let mut leaves: Vec<EditRun> = Vec::new();
        leaves.push(run);
        let mut order: Vec<LeafIdx> = Vec::new();
        order.push(0);
        let tree = RunTree { leaves, order };
        proof {
            assert(tree.leaves@ =~= seq![run]);
            assert(tree.order@[0] == 0);
            assert(placed(tree.order@, 0));
            assert(tree.runs() =~= seq![run]);
            lemma_doc_single(run);
            lemma_visible_run(run);
        }
        (tree, 0)
    }

    pub fn duplicate(&self) -> (tree: RunTree)
        ensures
            tree.leaves@ == self.leaves@,
            tree.order@ == self.order@,
    {
        let leaves = self.leaves.clone();
        let order = self.order.clone();
        assert(leaves@ =~= self.leaves@);
        assert(order@ =~= self.order@);
        RunTree { leaves, order }
    }

    /// The run at a position of the order.
    pub fn run_at(&self, p: usize) -> (run: EditRun)
        requires
            self.shaped(),
            p < self.order@.len(),
        ensures
            run == self.runs()[p as int],
            run == self.leaves@[self.order@[p as int] as int],
            run.wf(),
            self.order@.len() <= usize::MAX,
    {
        let len: usize = self.order.len();
        assert(p < len);
        self.leaves[self.order[p]]
    }

    /// Replaces the run at a position of the order.
    pub fn set_run(&mut self, p: usize, run: EditRun)
        requires
            old(self).shaped(),
            p < old(self).order@.len(),
            run.wf(),
        ensures
            final(self).shaped(),
            final(self).order@ == old(self).order@,
            final(self).leaves@ == old(self).leaves@.update(
                old(self).order@[p as int] as int,
                run,
            ),
            final(self).runs() == old(self).runs().update(p as int, run),
    {
        let idx: usize = self.order[p];
        self.leaves[idx] = run;
        proof {
            assert(self.runs() =~= old(self).runs().update(p as int, run)) by {
                assert forall|q: int| 0 <= q < self.order@.len() implies self.runs()[q] == old(
                    self,
                ).runs().update(p as int, run)[q] by {
                    if q < p {
                        assert(self.order@[q] != self.order@[p as int]);
                    } else if q > p {
                        assert(self.order@[p as int] != self.order@[q]);
                    }
                }
            }
        }
    }

    /// Puts in a run before a position of the order.
    pub fn insert_run(&mut self, p: usize, run: EditRun) -> (idx: LeafIdx)
        requires
            old(self).shaped(),
            p <= old(self).order@.len(),
            run.wf(),
        ensures
            final(self).shaped(),
            idx == old(self).leaves@.len(),
            final(self).order@ == old(self).order@.insert(p as int, idx),
            final(self).leaves@ == old(self).leaves@.push(run),
            final(self).runs() == old(self).runs().insert(p as int, run),
            final(self).order@.len() <= usize::MAX,
    {
        let idx: usize = self.leaves.len();
        self.leaves.push(run);
        self.order.insert(p, idx);
        let len: usize = self.order.len();
        assert(self.order@.len() == len);
        proof {
            let before = old(self).order@;
            let after = self.order@;
            assert(self.runs() =~= old(self).runs().insert(p as int, run));
            assert forall|q: int, r: int| 0 <= q < r < after.len() implies #[trigger] after[q]
                != #[trigger] after[r] by {
                let q0 = if q < p {
                    q
                } else {
                    q - 1
                };
                let r0 = if r < p {
                    r
                } else {
                    r - 1
                };
                if q != p && r != p {
                    assert(before[q0] != before[r0]);
                }
            }
            assert forall|i: int| 0 <= i < self.leaves@.len() implies #[trigger] placed(
                after,
                i,
            ) by {
                if i == idx {
                    assert(after[p as int] == i);
                } else {
                    assert(placed(before, i));
                    let q = choose|q: int| 0 <= q < before.len() && #[trigger] before[q] == i;
                    if q < p {
                        assert(after[q] == i);
                    } else {
                        assert(after[q + 1] == i);
                    }
                }
            }
        }
        idx
    }

    /// Where in the order the run of the given name is.
    pub fn position_of(&self, idx: LeafIdx) -> (p: usize)
        requires
            self.shaped(),
            idx < self.leaves@.len(),
        ensures
            p < self.order@.len(),
            self.order@[p as int] == idx,
    {
        let mut p: usize = 0;
        assert(placed(self.order@, idx as int));
        while p < self.order.len()
            invariant
                p <= self.order@.len(),
                exists|q: int| p <= q < self.order@.len() && #[trigger] self.order@[q] == idx,
            decreases self.order@.len() - p,
        {
            if self.order[p] == idx {
                return p;
            }
            p = p + 1;
        }
        proof {
            assert(false);
        }
        0
    }

    /// How much of the buffer comes before the run at a position.
    pub fn visible_before(&self, p: usize) -> (len: Length)
        requires
            self.wf(),
            p <= self.order@.len(),
        ensures
            len == visible(doc_of(self.runs().take(p as int))).len(),
            len == visible(self.doc().take(start_of(self.runs(), p as int))).len(),
            len <= visible(self.doc()).len(),
    {
        let ghost runs = self.runs();
        let mut q: usize = 0;
        let mut len: usize = 0;
        proof {
            assert(runs.take(0) =~= Seq::<EditRun>::empty());
            assert(doc_of(runs.take(0)) =~= Seq::<Char>::empty());
        }
        while q < p
            invariant
                self.wf(),
                runs == self.runs(),
                q <= p <= self.order@.len(),
                len == visible(doc_of(runs.take(q as int))).len(),
            decreases p - q,
        {
            let run = self.run_at(q);
            proof {
                lemma_doc_at(runs, q as int);
                lemma_visible_concat(doc_of(runs.take(q as int)), run.chars());
                lemma_visible_run(run);
                lemma_doc_cut(runs, q + 1);
                lemma_visible_cut(self.doc(), start_of(runs, q + 1));
            }
            len = len + run.visible_len();
            q = q + 1;
        }
        proof {
            lemma_doc_cut(runs, p as int);
            lemma_visible_cut(self.doc(), start_of(runs, p as int));
        }
        len
    }

    /// How many runs hold nothing of the buffer, and how many there are.
    pub fn count_empty_leaves(&self) -> (res: (usize, usize))
        requires
            self.shaped(),
        ensures
            res.0 == empty_runs(self.leaves@),
            res.1 == self.leaves@.len(),
    {
        let mut empty: usize = 0;
        let mut i: usize = 0;
        while i < self.leaves.len()
            invariant
                self.shaped(),
                i <= self.leaves@.len(),
                empty <= i,
                empty == empty_runs(self.leaves@.take(i as int)),
            decreases self.leaves@.len() - i,
        {
            assert(self.leaves@.take(i + 1).drop_last() =~= self.leaves@.take(i as int));
            assert(self.leaves@[i as int].wf());
            if self.leaves[i].visible_len() == 0 {
                empty = empty + 1;
            }
            i = i + 1;
        }
        assert(self.leaves@.take(i as int) =~= self.leaves@);
        (empty, self.leaves.len())
    }

    /// The length of the buffer.
    pub fn len(&self) -> (len: Length)
        requires
            self.wf(),
        ensures
            len == visible(self.doc()).len(),
    {
        assert(self.runs().take(self.order@.len() as int) =~= self.runs());
        self.visible_before(self.order.len())
    }

    /// The run that the `offset`-th character of the buffer is in, and how many characters of the
    /// run come up to and with it.
    pub fn locate(&self, offset: Length) -> (res: (usize, Length))
        requires
            self.wf(),
            1 <= offset <= visible(self.doc()).len(),
        ensures
            res.0 < self.order@.len(),
            !self.runs()[res.0 as int].is_deleted,
            1 <= res.1 <= self.runs()[res.0 as int].spec_len(),
            place_of(self.doc(), offset as int) == start_of(self.runs(), res.0 as int) + res.1,
            self.doc()[place_of(self.doc(), offset as int) - 1] == self.runs()[
                res.0 as int].chars()[res.1 - 1],
            place_of(self.doc(), offset as int) <= self.doc().len(),
    {
        let ghost runs = self.runs();
        let ghost doc = self.doc();
        let mut p: usize = 0;
        let mut before: usize = 0;
        proof {
            assert(runs.take(0) =~= Seq::<EditRun>::empty());
            assert(doc_of(runs.take(0)) =~= Seq::<Char>::empty());
        }
        while p < self.order.len()
            invariant
                self.wf(),
                runs == self.runs(),
                doc == self.doc(),
                p <= self.order@.len(),
                before == visible(doc_of(runs.take(p as int))).len(),
                before < offset <= visible(doc).len(),
            decreases self.order@.len() - p,
        {
            let run = self.run_at(p);
            proof {
                lemma_doc_at(runs, p as int);
                lemma_visible_concat(doc_of(runs.take(p as int)), run.chars());
                lemma_visible_run(run);
                lemma_doc_cut(runs, p + 1);
                lemma_visible_cut(doc, start_of(runs, p + 1));
            }
            let len: usize = run.visible_len();
            if offset - before <= len {
                let k: usize = offset - before;
                proof {
                    lemma_visible_within(runs, p as int, k as int);
                    lemma_doc_char(runs, p as int, k - 1);
                    lemma_place_at(doc, start_of(runs, p as int) + k);
                }
                return (p, k);
            }
            before = before + len;
            p = p + 1;
        }
        proof {
            assert(runs.take(p as int) =~= runs);
            assert(false);
        }
        (0, 0)
    }

    /// Puts in a run before a position of the order, or adds it to the run there that it goes on.
    fn place_between(
        &mut self,
        p: usize,
        run: EditRun,
        Ghost(index): Ghost<Seq<LeafIdx>>,
    ) -> (outcome: InsertionOutcome)
        requires
            old(self).shaped(),
            p <= old(self).order@.len(),
            run.wf(),
            !run.is_deleted,
        ensures
            final(self).shaped(),
            final(self).doc() == splice(
                old(self).doc(),
                start_of(old(self).runs(), p as int),
                run.chars(),
            ),
            final(self).lies_as(old(self).layout(index).with_run(Spot::Between(p as int), run)),
            final(self).leaves@.len() <= usize::MAX,
            outcome == old(self).layout(index).insertion_outcome(Spot::Between(p as int), run),
    {
        reveal(Layout::with_run);
        reveal(Layout::insertion_outcome);
        let ghost runs = self.runs();
        if p > 0 {
            let prev = self.run_at(p - 1);
            if prev.continues_in(&run) {
                let joined = EditRun {
                    text: Text { end: run.text.end, ..prev.text },
                    ..prev
                };
                self.set_run(p - 1, joined);
                proof {
                    assert(joined == prev.up_to(run.text.end as int));
                    lemma_join_chars(prev, run);
                    lemma_doc_update(runs, p - 1, joined);
                    lemma_doc_at(runs, p - 1);
                    lemma_doc_cut(runs, p as int);
                    assert(self.doc() =~= splice(
                        doc_of(runs),
                        start_of(runs, p as int),
                        run.chars(),
                    ));
                }
                return InsertionOutcome::ExtendedLastRun { replica_id: run.text.inserted_by };
            }
        }
        let inserted_idx: usize = self.insert_run(p, run);
        proof {
            lemma_doc_insert(runs, p as int, run);
        }
        InsertionOutcome::InsertedRun {
            replica_id: run.text.inserted_by,
            insertion_ts: run.insertion_ts,
            start: run.text.start,
            inserted_idx,
        }
    }

    /// Puts in a run before a character of the run at a position of the order.
    fn place_within(
        &mut self,
        p: usize,
        character_ts: Length,
        run: EditRun,
        Ghost(index): Ghost<Seq<LeafIdx>>,
    ) -> (outcome: InsertionOutcome)
        requires
            old(self).shaped(),
            p < old(self).order@.len(),
            old(self).runs()[p as int].text.start < character_ts
                < old(self).runs()[p as int].text.end,
            run.wf(),
        ensures
            final(self).shaped(),
            final(self).doc() == splice(
                old(self).doc(),
                start_of(old(self).runs(), p as int) + character_ts
                    - old(self).runs()[p as int].text.start,
                run.chars(),
            ),
            final(self).lies_as(
                old(self).layout(index).with_run(
                    Spot::Within(p as int, character_ts as int),
                    run,
                ),
            ),
            final(self).leaves@.len() <= usize::MAX,
            outcome == old(self).layout(index).insertion_outcome(
                Spot::Within(p as int, character_ts as int),
                run,
            ),
    {
        reveal(Layout::with_run);
        reveal(Layout::insertion_outcome);
        let ghost runs = self.runs();
        let ghost leaves = self.leaves@;
        let ghost i = self.order@[p as int] as int;
        let mut left = self.run_at(p);
        let ghost whole = left;
        let right = left.split(character_ts);
        let inserted_idx: usize = self.insert_run(p + 1, run);
        self.set_run(p, left);
        let split_idx: usize = self.insert_run(p + 2, right);
        let outcome = InsertionOutcome::SplitRun {
            split_id: left.text.inserted_by,
            split_insertion: left.insertion_ts,
            split_at_offset: character_ts,
            split_idx,
            inserted_id: run.text.inserted_by,
            inserted_insertion: run.insertion_ts,
            inserted_start: run.text.start,
            inserted_idx,
        };
        proof {
            assert(self.runs() == runs.insert(p + 1, run).update(p as int, left).insert(
                p + 2,
                right,
            ));
            lemma_doc_within(runs, p as int, character_ts as int, run);
            let grown = leaves.push(run);
            assert(grown[i] == whole);
            assert(self.leaves@ == cut_leaf(grown, i, character_ts as int));
        }
        outcome
    }

    /// Inserts text at an offset of the buffer.
    pub fn insert(
        &mut self,
        offset: Length,
        text: Text,
        insertion_clock: &mut InsertionClock,
        lamport_clock: &mut LamportClock,
        Ghost(index): Ghost<Seq<LeafIdx>>,
    ) -> (res: (Anchor, InsertionTimestamp, InsertionOutcome))
        requires
            old(self).wf(),
            offset <= visible(old(self).doc()).len(),
            text.start < text.end,
            visible(old(self).doc()).len() + text.spec_len() <= usize::MAX,
            carries_on(
                old(self).doc(),
                offset as int,
                text,
                *old(insertion_clock),
                *old(lamport_clock),
            ) || (old(insertion_clock).0 < u64::MAX && old(lamport_clock).0 < u64::MAX),
            forall|i: int|
                0 <= i < old(self).leaves@.len() && (#[trigger] old(
                    self,
                ).leaves@[i]).text.inserted_by == text.inserted_by
                    && old(self).leaves@[i].text.start < old(self).leaves@[i].text.end
                    ==> old(self).leaves@[i].text.end <= text.start,
        ensures
            final(self).wf(),
            res.0 == insertion_anchor(old(self).doc(), offset as int),
            res.1 == insertion_anchor_ts(old(self).doc(), offset as int),
            if carries_on(
                old(self).doc(),
                offset as int,
                text,
                *old(insertion_clock),
                *old(lamport_clock),
            ) {
                &&& *final(insertion_clock) == *old(insertion_clock)
                &&& *final(lamport_clock) == *old(lamport_clock)
            } else {
                &&& final(insertion_clock).0 == old(insertion_clock).0 + 1
                &&& final(lamport_clock).0 == old(lamport_clock).0 + 1
            },
            final(self).doc() == splice(
                old(self).doc(),
                place_of(old(self).doc(), offset as int),
                run_chars(
                    text,
                    res.0,
                    final(lamport_clock).last(),
                    final(insertion_clock).last(),
                    false,
                ),
            ),
            ({
                let layout = old(self).layout(index);
                let spot = layout.spot(place_of(old(self).doc(), offset as int));
                let run = EditRun {
                    anchor: res.0,
                    text,
                    insertion_ts: final(insertion_clock).last(),
                    lamport_ts: final(lamport_clock).last(),
                    is_deleted: false,
                };
                &&& layout.has_spot(spot)
                &&& final(self).leaves@.len() <= usize::MAX
                &&& final(self).lies_as(layout.with_run(spot, run))
                &&& res.2 == layout.insertion_outcome(spot, run)
            }),
    {
        let ghost doc = self.doc();
        let ghost runs = self.runs();
        let ghost place = place_of(doc, offset as int);
        if offset == 0 {
            let anchor = Anchor::origin();
            let run = EditRun::new(anchor, text, insertion_clock.next(), lamport_clock.next());
            proof {
                assert(runs.take(0) =~= Seq::<EditRun>::empty());
                assert(doc_of(runs.take(0)) =~= Seq::<Char>::empty());
            }
            let outcome = self.place_between(0, run, Ghost(index));
            proof {
                lemma_visible_run(run);
                lemma_splice_visible(doc, 0, run.chars());
            }
            return (anchor, 0, outcome);
        }
        let (p, k) = self.locate(offset);
        let leaf = self.run_at(p);
        let anchor = Anchor::new(leaf.text.inserted_by, leaf.text.start + k);
        let last = EditRun::new(anchor, text, insertion_clock.last(), lamport_clock.last());
        proof {
            assert(leaf.chars()[k - 1].id == (CharId {
                by: leaf.text.inserted_by,
                ts: leaf.text.start + k - 1,
            }));
            lemma_doc_at(runs, p as int);
            lemma_visible_cut(doc, place);
            assert(has_at(runs, p as int, place - 1));
            lemma_run_with(runs, p as int, place - 1);
        }
        let run = if k == leaf.len() && leaf.continues_in(&last) {
            last
        } else {
            EditRun::new(anchor, text, insertion_clock.next(), lamport_clock.next())
        };
        let outcome = if k == leaf.len() {
            self.place_between(p + 1, run, Ghost(index))
        } else {
            self.place_within(p, leaf.text.start + k, run, Ghost(index))
        };
        proof {
            lemma_visible_run(run);
            lemma_splice_visible(doc, place, run.chars());
        }
        (anchor, leaf.insertion_ts, outcome)
    }

    /// Integrates an insertion made by another replica, and tells where in the buffer it goes.
    #[verifier::rlimit(40)]
    pub fn merge_insertion(
        &mut self,
        insertion: &Insertion,
        run_indices: &RunIndices,
        Ghost(versions): Ghost<Map<ReplicaId, int>>,
    ) -> (res: (Length, InsertionOutcome))
        requires
            old(self).wf(),
            insertion.wf(),
            visible(old(self).doc()).len() + insertion.text.spec_len() <= usize::MAX,
            indexes(run_indices.fragments@, old(self).leaves@),
            complete(old(self).doc(), versions),
            insertion.anchor.character_ts <= versions[insertion.anchor.replica_id],
        ensures
            final(self).wf(),
            ({
                let place = merge_place(
                    old(self).doc(),
                    insertion.anchor,
                    insertion.lamport_ts,
                    insertion.text.inserted_by,
                );
                &&& 0 <= place <= old(self).doc().len()
                &&& final(self).doc() == splice(
                    old(self).doc(),
                    place,
                    EditRun::of(*insertion).chars(),
                )
                &&& res.0 == visible(old(self).doc().take(place)).len()
            }),
            ({
                let layout = old(self).layout(names_of(run_indices.fragments@));
                let spot = layout.spot_of_merged(
                    merge_place(
                        old(self).doc(),
                        insertion.anchor,
                        insertion.lamport_ts,
                        insertion.text.inserted_by,
                    ),
                );
                &&& layout.has_spot(spot)
                &&& final(self).leaves@.len() <= usize::MAX
                &&& final(self).lies_as(layout.with_run(spot, EditRun::of(*insertion)))
                &&& res.1 == layout.insertion_outcome(spot, EditRun::of(*insertion))
            }),
    {
        let run = EditRun::from_insertion(insertion);
        let ghost index = names_of(run_indices.fragments@);
        let ghost runs = self.runs();
        let ghost doc = self.doc();
        let ghost anchor = insertion.anchor;
        let ghost after = if anchor.is_origin() {
            0
        } else {
            index_of_char(doc, char_before(anchor)) + 1
        };
        let ghost place = merge_place(doc, anchor, run.lamport_ts, run.text.inserted_by);
        let mut q: usize = 0;
        if insertion.anchor.is_origin() {
            proof {
                assert(runs.take(0) =~= Seq::<EditRun>::empty());
                assert(doc_of(runs.take(0)) =~= Seq::<Char>::empty());
            }
        } else {
            let ts: usize = insertion.anchor.character_ts - 1;
            proof {
                self.lemma_leaf_of_char(versions, char_before(anchor));
            }
            let idx: usize = run_indices.idx_at(
                insertion.anchor.replica_id,
                ts,
                Ghost(self.leaves@),
            );
            let p: usize = self.position_of(idx);
            let leaf = self.run_at(p);
            let k: usize = ts + 1 - leaf.text.start;
            proof {
                lemma_doc_char(runs, p as int, k - 1);
                let i = start_of(runs, p as int) + k - 1;
                assert(doc[i].id == char_before(anchor));
                lemma_index_of_char(doc, versions, i);
                lemma_doc_at(runs, p as int);
            }
            if k < leaf.len() {
                if !is_outranking(&leaf, &run) {
                    let before: usize = self.visible_before(p);
                    let offset: usize = if leaf.is_deleted {
                        before
                    } else {
                        proof {
                            lemma_visible_within(runs, p as int, k as int);
                            lemma_visible_cut(doc, start_of(runs, p as int) + k);
                        }
                        before + k
                    };
                    proof {
                        lemma_visible_within(runs, p as int, k as int);
                        lemma_doc_char(runs, p as int, k as int);
                        assert(place == after);
                        assert(has_at(runs, p as int, place - 1));
                        lemma_run_with(runs, p as int, place - 1);
                    }
                    let outcome = self.place_within(p, ts + 1, run, Ghost(index));
                    proof {
                        lemma_visible_run(run);
                        lemma_splice_visible(doc, place, run.chars());
                    }
                    return (offset, outcome);
                }
                proof {
                    let from = start_of(runs, p as int) + k;
                    let to = start_of(runs, p + 1);
                    assert forall|i: int| from <= i < to implies outranks(
                        (#[trigger] doc[i]).lamport_ts,
                        doc[i].id.by,
                        run.lamport_ts,
                        run.text.inserted_by,
                    ) by {
                        lemma_doc_char(runs, p as int, i - start_of(runs, p as int));
                    }
                    lemma_skip_stretch(doc, from, to, run.lamport_ts, run.text.inserted_by);
                }
            }
            q = p + 1;
        }
        proof {
            assert(runs.take(runs.len() as int) =~= runs);
        }
        while q < self.order.len()
            invariant_except_break
                start_of(runs, runs.len() as int) == doc.len(),
                *self == *old(self),
                self.wf(),
                runs == self.runs(),
                doc == self.doc(),
                q <= self.order@.len(),
                place == skip_outranking(
                    doc,
                    start_of(runs, q as int),
                    run.lamport_ts,
                    run.text.inserted_by,
                ),
            ensures
                *self == *old(self),
                q <= self.order@.len(),
                place == start_of(runs, q as int),
                q < self.order@.len() ==> has_at(runs, q as int, place),
            decreases self.order@.len() - q,
        {
            let leaf = self.run_at(q);
            proof {
                lemma_doc_at(runs, q as int);
            }
            if leaf.text.start < leaf.text.end && !is_outranking(&leaf, &run) {
                proof {
                    lemma_doc_char(runs, q as int, 0);
                }
                break ;
            }
            proof {
                let from = start_of(runs, q as int);
                let to = start_of(runs, q + 1);
                assert forall|i: int| from <= i < to implies outranks(
                    (#[trigger] doc[i]).lamport_ts,
                    doc[i].id.by,
                    run.lamport_ts,
                    run.text.inserted_by,
                ) by {
                    lemma_doc_char(runs, q as int, i - from);
                }
                lemma_skip_stretch(doc, from, to, run.lamport_ts, run.text.inserted_by);
            }
            q = q + 1;
        }
        proof {
            lemma_doc_cut(runs, q as int);
        }
        let offset: usize = self.visible_before(q);
        proof {
            lemma_spot_of_merged(self.layout(index), q as int);
        }
        let outcome = self.place_between(q, run, Ghost(index));
        proof {
            lemma_visible_run(run);
            lemma_splice_visible(doc, place, run.chars());
        }
        (offset, outcome)
    }

    /// Each character of a complete text is in a run.
    pub proof fn lemma_leaf_of_char(&self, versions: Map<ReplicaId, int>, id: CharId)
        requires
            self.shaped(),
            complete(self.doc(), versions),
            0 <= id.ts < versions[id.by],
        ensures
            exists|i: int| 0 <= i < self.leaves@.len() && (#[trigger] self.leaves@[i]).holds(id),
    {
        let doc = self.doc();
        assert(has_char(doc, id));
        let c = choose|c: int| 0 <= c < doc.len() && (#[trigger] doc[c]).id == id;
        let p = lemma_run_of(self.runs(), c);
        let i = self.order@[p] as int;
        assert(self.leaves@[i].holds(id));
    }
}

/// Whether a run comes before another one that was inserted at the same place.
fn is_outranking(run: &EditRun, other: &EditRun) -> (b: bool)
    ensures
        b == outranks(
            run.lamport_ts,
            run.text.inserted_by,
            other.lamport_ts,
            other.text.inserted_by,
        ),
{
    run.lamport_ts > other.lamport_ts || (run.lamport_ts == other.lamport_ts
        && run.text.inserted_by.0 < other.text.inserted_by.0)
}

/// Putting a run between the two parts of another one puts in its characters.
proof fn lemma_doc_within(runs: Seq<EditRun>, p: int, character_ts: int, run: EditRun)
    requires
        0 <= p < runs.len(),
        runs[p].wf(),
        runs[p].text.start < character_ts < runs[p].text.end,
    ensures
        doc_of(
            runs.insert(p + 1, run).update(p, runs[p].up_to(character_ts)).insert(
                p + 2,
                runs[p].from(character_ts),
            ),
        ) == splice(
            doc_of(runs),
            start_of(runs, p) + character_ts - runs[p].text.start,
            run.chars(),
        ),
{
    let left = runs[p].up_to(character_ts);
    let right = runs[p].from(character_ts);
    let three = seq![left, run, right];
    let at = start_of(runs, p) + character_ts - runs[p].text.start;
    assert(runs.insert(p + 1, run).update(p, left).insert(p + 2, right) =~= runs.take(p) + three
        + runs.skip(p + 1));
    lemma_split_chars(runs[p], character_ts);
    lemma_doc_at(runs, p);
    lemma_doc_concat(runs.take(p) + three, runs.skip(p + 1));
    lemma_doc_concat(runs.take(p), three);
    assert(three.drop_last() =~= seq![left, run]);
    assert(seq![left, run].drop_last() =~= seq![left]);
    lemma_doc_single(left);
    assert(doc_of(seq![left, run]) == doc_of(seq![left]) + run.chars());
    assert(doc_of(three) =~= left.chars() + run.chars() + right.chars());
    assert(doc_of(runs).take(at) =~= doc_of(runs.take(p)) + left.chars());
    assert(doc_of(runs).skip(at) =~= right.chars() + doc_of(runs.skip(p + 1)));
    assert(doc_of(runs.take(p) + three + runs.skip(p + 1)) =~= splice(
        doc_of(runs),
        at,
        run.chars(),
    ));
}

} // verus!
