//! Checks of what a replica relies on.

use vstd::prelude::*;

use crate::backlog::BackLog;
use crate::edit_run::{
    doc_of, lemma_doc_at, lemma_doc_char, lemma_doc_cut, lemma_run_of, lemma_visible_run, start_of,
    EditRun,
};
use crate::maps::{lemma_lookup_some, VersionMap};
use crate::model::{
    complete, has_char, index_of_char, lemma_visible_concat, lemma_visible_cut, visible, Char,
    CharId,
};
use crate::replica_id::ReplicaId;
use crate::run_indices::{
    fragment_of, in_order, indexed, indexes, lemma_one_leaf, LeafIdx, RunIndices,
};
use crate::run_tree::{permutes, placed, RunTree};
use crate::text::Length;

verus! {

/// Whether the run of the given name has a place in the order.
fn is_placed(order: &Vec<LeafIdx>, idx: LeafIdx) -> (b: bool)
    ensures
        b == placed(order@, idx as int),
{
    let mut p: usize = 0;
    while p < order.len()
        invariant
            p <= order@.len(),
            forall|q: int| 0 <= q < p ==> #[trigger] order@[q] != idx,
        decreases order@.len() - p,
    {
        if order[p] == idx {
            assert(order@[p as int] == idx);
            return true;
        }
        p = p + 1;
    }
    false
}

/// Whether no place before the given one names the same run.
fn is_first(order: &Vec<LeafIdx>, p: usize) -> (b: bool)
    requires
        p < order@.len(),
    ensures
        b == forall|q: int| 0 <= q < p ==> #[trigger] order@[q] != order@[p as int],
{
    let mut q: usize = 0;
    while q < p
        invariant
            q <= p < order@.len(),
            forall|k: int| 0 <= k < q ==> #[trigger] order@[k] != order@[p as int],
        decreases p - q,
    {
        if order[q] == order[p] {
            assert(order@[q as int] == order@[p as int]);
            return false;
        }
        q = q + 1;
    }
    true
}

/// Whether the order names each of the `n` runs once.
fn is_permutation(order: &Vec<LeafIdx>, n: usize) -> (b: bool)
    ensures
        b == permutes(order@, n as int),
{
    if order.len() != n {
        return false;
    }
    let mut p: usize = 0;
    while p < n
        invariant
            p <= n == order@.len(),
            forall|q: int| 0 <= q < p ==> 0 <= #[trigger] order@[q] < n,
            forall|q: int, r: int|
                0 <= q < r < p ==> #[trigger] order@[q] != #[trigger] order@[r],
            forall|i: int| 0 <= i < p ==> #[trigger] placed(order@, i),
        decreases n - p,
    {
        if order[p] >= n {
            assert(!(0 <= order@[p as int] < n));
            return false;
        }
        if !is_first(order, p) {
            let ghost q = choose|q: int| 0 <= q < p && #[trigger] order@[q] == order@[p as int];
            assert(order@[q] == order@[p as int]);
            return false;
        }
        if !is_placed(order, p) {
            assert(!placed(order@, p as int));
            return false;
        }
        p = p + 1;
    }
    true
}

impl RunTree {
    /// Whether the buffer is short enough for its length to be counted.
    fn is_countable(&self) -> (b: bool)
        requires
            self.shaped(),
        ensures
            b == (visible(self.doc()).len() <= usize::MAX),
    {
        let ghost runs = self.runs();
        let mut p: usize = 0;
        let mut len: usize = 0;
        proof {
            assert(runs.take(0) =~= Seq::<EditRun>::empty());
            assert(doc_of(runs.take(0)) =~= Seq::<Char>::empty());
        }
        while p < self.order.len()
            invariant
                self.shaped(),
                runs == self.runs(),
                p <= self.order@.len(),
                len == visible(doc_of(runs.take(p as int))).len(),
            decreases self.order@.len() - p,
        {
            let run = self.run_at(p);
            proof {
                lemma_doc_at(runs, p as int);
                lemma_visible_concat(doc_of(runs.take(p as int)), run.chars());
                lemma_visible_run(run);
                lemma_doc_cut(runs, p + 1);
                lemma_visible_cut(self.doc(), start_of(runs, p + 1));
            }
            if run.visible_len() > usize::MAX - len {
                return false;
            }
            len = len + run.visible_len();
            p = p + 1;
        }
        assert(runs.take(p as int) =~= runs);
        true
    }

    /// Whether the runs make up a text.
    pub fn assert_invariants(&self) -> (b: bool)
        ensures
            b == self.wf(),
    {
        if !is_permutation(&self.order, self.leaves.len()) {
            return false;
        }
        let mut i: usize = 0;
        while i < self.leaves.len()
            invariant
                i <= self.leaves@.len(),
                forall|k: int| 0 <= k < i ==> (#[trigger] self.leaves@[k]).wf(),
            decreases self.leaves@.len() - i,
        {
            if self.leaves[i].text.start > self.leaves[i].text.end {
                assert(!self.leaves@[i as int].wf());
                return false;
            }
            i = i + 1;
        }
        self.is_countable()
    }

    /// A character of a run is in the text.
    proof fn lemma_char_of_leaf(&self, i: int, id: CharId)
        requires
            self.shaped(),
            0 <= i < self.leaves@.len(),
            self.leaves@[i].holds(id),
        ensures
            has_char(self.doc(), id),
    {
        assert(placed(self.order@, i));
        let p = choose|p: int| 0 <= p < self.order@.len() && #[trigger] self.order@[p] == i;
        let k = id.ts - self.leaves@[i].text.start;
        assert(self.runs()[p] == self.leaves@[i]);
        lemma_doc_char(self.runs(), p, k);
        assert(self.doc()[start_of(self.runs(), p) + k].id == id);
    }

    /// The run that holds a character of the text.
    proof fn lemma_leaf_of(&self, c: int) -> (p: int)
        requires
            self.shaped(),
            0 <= c < self.doc().len(),
        ensures
            0 <= p < self.order@.len(),
            self.leaves@[self.order@[p] as int].holds(self.doc()[c].id),
            self.doc()[c].id.ts - self.leaves@[self.order@[p] as int].text.start == c - start_of(
                self.runs(),
                p,
            ),
    {
        let p = lemma_run_of(self.runs(), c);
        assert(self.runs()[p] == self.leaves@[self.order@[p] as int]);
        p
    }

    /// Where the run that holds a character ends, if one does.
    fn end_of_run_with(&self, by: ReplicaId, ts: Length) -> (end: Option<Length>)
        requires
            self.shaped(),
        ensures
            match end {
                Some(end) => {
                    &&& ts < end
                    &&& forall|t: int|
                        ts <= t < end ==> #[trigger] has_char(self.doc(), CharId { by, ts: t })
                },
                None => !has_char(self.doc(), CharId { by, ts: ts as int }),
            },
    {
        let ghost id = CharId { by, ts: ts as int };
        let mut i: usize = 0;
        while i < self.leaves.len()
            invariant
                id == (CharId { by, ts: ts as int }),
                self.shaped(),
                i <= self.leaves@.len(),
                forall|k: int| 0 <= k < i ==> !(#[trigger] self.leaves@[k]).holds(id),
            decreases self.leaves@.len() - i,
        {
            let text = self.leaves[i].text;
            if text.inserted_by == by && text.start <= ts && ts < text.end {
                proof {
                    assert forall|t: int| ts <= t < text.end implies #[trigger] has_char(
                        self.doc(),
                        CharId { by, ts: t },
                    ) by {
                        self.lemma_char_of_leaf(i as int, CharId { by, ts: t });
                    }
                }
                return Some(text.end);
            }
            assert(!self.leaves@[i as int].holds(id));
            i = i + 1;
        }
        proof {
            if has_char(self.doc(), id) {
                let c = index_of_char(self.doc(), id);
                assert(self.doc()[c].id == id);
                let p = self.lemma_leaf_of(c);
                assert(self.leaves@[self.order@[p] as int].holds(id));
            }
        }
        None
    }

    /// Whether the text holds the first `n` characters of a replica.
    fn holds_first(&self, by: ReplicaId, n: Length) -> (b: bool)
        requires
            self.shaped(),
        ensures
            b == forall|ts: int|
                0 <= ts < n ==> #[trigger] has_char(self.doc(), CharId { by, ts }),
    {
        let mut ts: usize = 0;
        while ts < n
            invariant
                self.shaped(),
                forall|t: int|
                    0 <= t < ts ==> #[trigger] has_char(self.doc(), CharId { by, ts: t }),
            decreases usize::MAX - ts,
        {
            match self.end_of_run_with(by, ts) {
                Some(end) => {
                    ts = end;
                },
                None => {
                    assert(!has_char(self.doc(), CharId { by, ts: ts as int }));
                    return false;
                },
            }
        }
        true
    }

    /// Whether no run goes beyond what is counted.
    fn is_within(&self, version_map: &VersionMap) -> (b: bool)
        requires
            self.shaped(),
        ensures
            b == forall|i: int|
                0 <= i < self.leaves@.len() && (#[trigger] self.leaves@[i]).text.start
                    < self.leaves@[i].text.end ==> self.leaves@[i].text.end
                    <= version_map@[self.leaves@[i].text.inserted_by],
    {
        let mut i: usize = 0;
        while i < self.leaves.len()
            invariant
                i <= self.leaves@.len(),
                forall|k: int|
                    0 <= k < i && (#[trigger] self.leaves@[k]).text.start
                        < self.leaves@[k].text.end ==> self.leaves@[k].text.end
                        <= version_map@[self.leaves@[k].text.inserted_by],
            decreases self.leaves@.len() - i,
        {
            let text = self.leaves[i].text;
            if text.start < text.end && text.end > version_map.get(text.inserted_by) {
                assert(self.leaves@[i as int].text.start < self.leaves@[i as int].text.end);
                return false;
            }
            i = i + 1;
        }
        true
    }

    /// Whether the text holds all characters that are counted.
    fn holds_counted(&self, version_map: &VersionMap) -> (b: bool)
        requires
            self.shaped(),
        ensures
            b == forall|id: CharId|
                0 <= id.ts < version_map@[id.by] ==> #[trigger] has_char(self.doc(), id),
    {
        let ghost doc = self.doc();
        if !self.holds_first(version_map.this_id, version_map.this_value) {
            proof {
                let by = version_map.this_id;
                let ts = choose|ts: int|
                    0 <= ts < version_map.this_value && !#[trigger] has_char(
                        doc,
                        CharId { by, ts },
                    );
                assert(!has_char(doc, CharId { by, ts }));
            }
            return false;
        }
        let mut i: usize = 0;
        while i < version_map.rest.entries.len()
            invariant
                self.shaped(),
                doc == self.doc(),
                i <= version_map.rest.entries@.len(),
                forall|k: int, ts: int|
                    0 <= k < i && 0 <= ts < version_map@[version_map.rest.entries@[k].0]
                        ==> #[trigger] has_char(
                        doc,
                        CharId { by: version_map.rest.entries@[k].0, ts },
                    ),
            decreases version_map.rest.entries@.len() - i,
        {
            let by = version_map.rest.entries[i].0;
            let n: usize = version_map.get(by);
            if !self.holds_first(by, n) {
                proof {
                    let ts = choose|ts: int|
                        0 <= ts < n && !#[trigger] has_char(doc, CharId { by, ts });
                    assert(!has_char(doc, CharId { by, ts }));
                }
                return false;
            }
            i = i + 1;
        }
        proof {
            assert forall|id: CharId| 0 <= id.ts < version_map@[id.by] implies
                #[trigger] has_char(doc, id) by {
                assert(id == CharId { by: id.by, ts: id.ts });
                if id.by == version_map.this_id {
                    assert(has_char(doc, CharId { by: version_map.this_id, ts: id.ts }));
                } else {
                    lemma_lookup_some(version_map.rest.entries@, id.by);
                    let k = choose|k: int|
                        0 <= k < version_map.rest.entries@.len() && (
                        #[trigger] version_map.rest.entries@[k]).0 == id.by;
                    assert(has_char(
                        doc,
                        CharId { by: version_map.rest.entries@[k].0, ts: id.ts },
                    ));
                }
            }
        }
        true
    }

    /// Whether the text holds each character that is counted once, and no other.
    pub fn is_complete(&self, run_indices: &RunIndices, version_map: &VersionMap) -> (b: bool)
        requires
            self.shaped(),
            indexes(run_indices.fragments@, self.leaves@),
        ensures
            b == complete(self.doc(), version_map@),
    {
        let ghost doc = self.doc();
        if !self.is_within(version_map) {
            proof {
                let i = choose|i: int|
                    0 <= i < self.leaves@.len() && (#[trigger] self.leaves@[i]).text.start
                        < self.leaves@[i].text.end && self.leaves@[i].text.end
                        > version_map@[self.leaves@[i].text.inserted_by];
                let text = self.leaves@[i].text;
                let id = CharId { by: text.inserted_by, ts: text.end - 1 };
                self.lemma_char_of_leaf(i, id);
                assert(doc[index_of_char(doc, id)].id == id);
            }
            return false;
        }
        if !self.holds_counted(version_map) {
            return false;
        }
        proof {
            assert forall|c: int| 0 <= c < doc.len() implies 0 <= (#[trigger] doc[c]).id.ts
                < version_map@[doc[c].id.by] by {
                let p = self.lemma_leaf_of(c);
                assert(self.leaves@[self.order@[p] as int].holds(doc[c].id));
            }
            assert forall|c: int, d: int| 0 <= c < d < doc.len() implies (#[trigger] doc[c]).id
                != (#[trigger] doc[d]).id by {
                if doc[c].id == doc[d].id {
                    let p = self.lemma_leaf_of(c);
                    let q = self.lemma_leaf_of(d);
                    let i = self.order@[p] as int;
                    let k = self.order@[q] as int;
                    lemma_one_leaf(run_indices.fragments@, self.leaves@, i, k, doc[c].id);
                    if p < q {
                        assert(self.order@[p] != self.order@[q]);
                    } else if q < p {
                        assert(self.order@[q] != self.order@[p]);
                    }
                }
            }
        }
        true
    }
}

impl RunIndices {
    /// Whether there is a fragment in the run of the given name.
    fn is_indexed(&self, idx: LeafIdx) -> (b: bool)
        ensures
            b == indexed(self.fragments@, idx as int),
    {
        let mut j: usize = 0;
        while j < self.fragments.len()
            invariant
                j <= self.fragments@.len(),
                forall|k: int| 0 <= k < j ==> (#[trigger] self.fragments@[k]).idx != idx,
            decreases self.fragments@.len() - j,
        {
            if self.fragments[j].idx == idx {
                assert(self.fragments@[j as int].idx == idx);
                return true;
            }
            j = j + 1;
        }
        false
    }

    /// Whether the fragment at a position fits in with those before it.
    fn is_after_others(&self, k: usize) -> (b: bool)
        requires
            k < self.fragments@.len(),
        ensures
            b == forall|j: int|
                0 <= j < k ==> (#[trigger] self.fragments@[j]).idx != self.fragments@[k as int].idx
                    && in_order(self.fragments@[j], self.fragments@[k as int]),
    {
        let b = self.fragments[k];
        let mut j: usize = 0;
        while j < k
            invariant
                j <= k < self.fragments@.len(),
                b == self.fragments@[k as int],
                forall|l: int|
                    0 <= l < j ==> (#[trigger] self.fragments@[l]).idx != b.idx && in_order(
                        self.fragments@[l],
                        b,
                    ),
            decreases k - j,
        {
            let a = self.fragments[j];
            if a.idx == b.idx || (a.replica_id == b.replica_id && a.start < a.end && b.start
                < b.end && a.end > b.start) {
                assert(self.fragments@[j as int] == a);
                return false;
            }
            j = j + 1;
        }
        true
    }

    /// Whether the fragments are those of the runs.
    pub fn assert_invariants(&self, run_tree: &RunTree) -> (b: bool)
        ensures
            b == indexes(self.fragments@, run_tree.leaves@),
    {
        let ghost leaves = run_tree.leaves@;
        let mut k: usize = 0;
        while k < self.fragments.len()
            invariant
                leaves == run_tree.leaves@,
                k <= self.fragments@.len(),
                forall|j: int|
                    0 <= j < k ==> {
                        &&& (#[trigger] self.fragments@[j]).idx < leaves.len()
                        &&& self.fragments@[j] == fragment_of(
                            leaves[self.fragments@[j].idx as int],
                            self.fragments@[j].idx as int,
                        )
                    },
                forall|j: int, l: int|
                    0 <= j < l < k ==> {
                        &&& (#[trigger] self.fragments@[j]).idx != (
                        #[trigger] self.fragments@[l]).idx
                        &&& in_order(self.fragments@[j], self.fragments@[l])
                    },
            decreases self.fragments@.len() - k,
        {
            let f = self.fragments[k];
            if f.idx >= run_tree.leaves.len() {
                assert(!(self.fragments@[k as int].idx < leaves.len()));
                return false;
            }
            let leaf = run_tree.leaves[f.idx];
            if f.replica_id != leaf.text.inserted_by || f.insertion_ts != leaf.insertion_ts
                || f.start != leaf.text.start || f.end != leaf.text.end {
                assert(self.fragments@[k as int] != fragment_of(
                    leaves[self.fragments@[k as int].idx as int],
                    self.fragments@[k as int].idx as int,
                ));
                return false;
            }
            if !self.is_after_others(k) {
                let ghost j = choose|j: int|
                    0 <= j < k && !((#[trigger] self.fragments@[j]).idx != f.idx && in_order(
                        self.fragments@[j],
                        f,
                    ));
                assert(self.fragments@[j].idx == self.fragments@[k as int].idx || !in_order(
                    self.fragments@[j],
                    self.fragments@[k as int],
                ));
                return false;
            }
            k = k + 1;
        }
        let mut i: usize = 0;
        while i < run_tree.leaves.len()
            invariant
                leaves == run_tree.leaves@,
                i <= leaves.len(),
                forall|l: int| 0 <= l < i ==> #[trigger] indexed(self.fragments@, l),
            decreases leaves.len() - i,
        {
            if !self.is_indexed(i) {
                assert(!indexed(self.fragments@, i as int));
                return false;
            }
            i = i + 1;
        }
        true
    }
}

impl BackLog {
    /// Whether all edits may come from a replica.
    pub fn assert_invariants(&self) -> (b: bool)
        ensures
            b == self.wf(),
    {
        let mut i: usize = 0;
        while i < self.insertions.len()
            invariant
                i <= self.insertions@.len(),
                forall|k: int| 0 <= k < i ==> (#[trigger] self.insertions@[k]).wf(),
            decreases self.insertions@.len() - i,
        {
            if !self.insertions[i].is_valid() {
                assert(!self.insertions@[i as int].wf());
                return false;
            }
            i = i + 1;
        }
        let mut i: usize = 0;
        while i < self.deletions.len()
            invariant
                i <= self.deletions@.len(),
                forall|k: int| 0 <= k < i ==> (#[trigger] self.deletions@[k])@.wf(),
            decreases self.deletions@.len() - i,
        {
            if !self.deletions[i].is_valid() {
                assert(!self.deletions@[i as int]@.wf());
                return false;
            }
            i = i + 1;
        }
        true
    }
}

} // verus!
