//! Deletions made by other replicas.

use std::ops::Range;

use vstd::prelude::*;

use crate::crdt_edit::{Deletion, DeletionView};
use crate::edit_run::{
    doc_of, lemma_doc_char, lemma_start_next, lemma_starts_ascend, start_of, EditRun,
};
use crate::layout::{
    has_at, lemma_run_with, lemma_swept_by, lemma_swept_hit, lesser, limit_of, Layout,
};
use crate::model::{
    char_after, char_before, complete, delete_between, delete_known_between, in_ranges,
    index_of_char, known, lemma_index_of_char, lemma_visible_cut, lemma_visible_shrinks, separated,
    visible, Char, CharId,
};
use crate::replica_id::ReplicaId;
use crate::run_indices::{indexes, lemma_indexes_same_text, names_of, RunIndices};
use crate::run_tree::RunTree;
use crate::text::Length;
use crate::tree_deletion::{lemma_doc_cut_run, lemma_starts_after_erase};

verus! {

/// What a deletion made by another replica deletes from the buffer.
#[derive(Debug)]
pub enum MergedDeletion {
    /// One range.
    Contiguous(Range<Length>),
    /// Several ranges, or none.
    Split(Vec<Range<Length>>),
}

/// The ranges hold the offsets of those characters of the buffer that have been deleted.
pub open spec fn ranges_of_deletion(
    ranges: Seq<Range<usize>>,
    doc: Seq<Char>,
    after: Seq<Char>,
) -> bool {
    &&& separated(ranges)
    &&& forall|k: int| 0 <= k < ranges.len() ==> (#[trigger] ranges[k]).end <= visible(doc).len()
    &&& forall|i: int|
        0 <= i < doc.len() && !(#[trigger] doc[i]).deleted ==> (after[i].deleted <==> in_ranges(
            ranges,
            visible(doc.take(i)).len() as int,
        ))
}

impl MergedDeletion {
    pub open spec fn ranges(&self) -> Seq<Range<usize>> {
        match *self {
            MergedDeletion::Contiguous(range) => seq![range],
            MergedDeletion::Split(ranges) => ranges@,
        }
    }
}

/// Adds a range after those that are there.
fn push_range(ranges: &mut Vec<Range<Length>>, start: Length, end: Length)
    requires
        separated(old(ranges)@),
        forall|k: int| 0 <= k < old(ranges)@.len() ==> (#[trigger] old(ranges)@[k]).end <= start,
        start < end,
    ensures
        separated(final(ranges)@),
        forall|k: int| 0 <= k < final(ranges)@.len() ==> (#[trigger] final(ranges)@[k]).end <= end,
        forall|x: int|
            #[trigger] in_ranges(final(ranges)@, x) <==> (in_ranges(old(ranges)@, x) || start <= x
                < end),
{
    let ghost before = ranges@;
    let n: usize = ranges.len();
    if n > 0 && ranges[n - 1].end == start {
        let first: usize = ranges[n - 1].start;
        ranges[n - 1] = first..end;
        proof {
            let after = ranges@;
            assert forall|x: int| #[trigger] in_ranges(after, x) <==> (in_ranges(before, x)
                || start <= x < end) by {
                if in_ranges(after, x) {
                    let k = choose|k: int|
                        0 <= k < after.len() && (#[trigger] after[k]).start <= x < after[k].end;
                    assert(before[k].start <= x && (k < n - 1 ==> x < before[k].end));
                }
                if in_ranges(before, x) {
                    let k = choose|k: int|
                        0 <= k < before.len() && (#[trigger] before[k]).start <= x < before[k].end;
                    assert(after[k].start <= x < after[k].end);
                }
                if start <= x < end {
                    assert(after[n - 1].start <= x < after[n - 1].end);
                }
            }
            assert forall|k: int, l: int| 0 <= k < l < after.len() implies (#[trigger] after[k]).end
                < (#[trigger] after[l]).start by {
                assert(before[k].end < before[l].start);
            }
        }
    } else {
        ranges.push(start..end);
        proof {
            let after = ranges@;
            assert forall|x: int| #[trigger] in_ranges(after, x) <==> (in_ranges(before, x)
                || start <= x < end) by {
                if in_ranges(after, x) {
                    let k = choose|k: int|
                        0 <= k < after.len() && (#[trigger] after[k]).start <= x < after[k].end;
                    if k < n {
                        assert(before[k].start <= x < before[k].end);
                    }
                }
                if in_ranges(before, x) {
                    let k = choose|k: int|
                        0 <= k < before.len() && (#[trigger] before[k]).start <= x < before[k].end;
                    assert(after[k].start <= x < after[k].end);
                }
                if start <= x < end {
                    assert(after[n as int].start <= x < after[n as int].end);
                }
            }
            assert forall|k: int, l: int| 0 <= k < l < after.len() implies (#[trigger] after[k]).end
                < (#[trigger] after[l]).start by {
                if l < n {
                    assert(before[k].end < before[l].start);
                } else {
                    assert(before[k].end <= start);
                    if k < n - 1 {
                        assert(before[k].end < before[n - 1].start);
                        assert(before[n - 1].start < before[n - 1].end);
                    }
                }
            }
        }
    }
}

/// The ranges hold the offsets of the first `n` characters that fall to a deletion.
spec fn ranges_so_far(
    ranges: Seq<Range<usize>>,
    doc: Seq<Char>,
    lo: int,
    hi: int,
    versions: Map<ReplicaId, int>,
    n: int,
) -> bool {
    &&& separated(ranges)
    &&& forall|k: int|
        0 <= k < ranges.len() ==> (#[trigger] ranges[k]).end <= visible(doc.take(n)).len()
    &&& forall|i: int|
        0 <= i < n && !(#[trigger] doc[i]).deleted ==> (in_ranges(
            ranges,
            visible(doc.take(i)).len() as int,
        ) <==> (lo <= i < hi && known(versions, doc[i].id)))
}

/// The number of characters of the buffer before a character of it, and before a later place.
proof fn lemma_offset_before(doc: Seq<Char>, i: int, n: int)
    requires
        0 <= i < n <= doc.len(),
        !doc[i].deleted,
    ensures
        visible(doc.take(i)).len() < visible(doc.take(n)).len(),
{
    lemma_visible_cut(doc.take(n), i + 1);
    assert(doc.take(n).take(i + 1) =~= doc.take(i + 1));
    assert(doc.take(i + 1).drop_last() =~= doc.take(i));
}

/// A stretch of the text that is part of the buffer as a whole.
proof fn lemma_offsets_in_stretch(doc: Seq<Char>, n: int, m: int)
    requires
        0 <= n <= m <= doc.len(),
        forall|i: int| n <= i < m ==> !(#[trigger] doc[i]).deleted,
    ensures
        visible(doc.take(m)).len() == visible(doc.take(n)).len() + m - n,
    decreases m - n,
{
    if n < m {
        lemma_offsets_in_stretch(doc, n, m - 1);
        assert(doc.take(m).drop_last() =~= doc.take(m - 1));
        assert(!doc[m - 1].deleted);
    }
}

/// A stretch of the text of which nothing is part of the buffer.
proof fn lemma_offsets_in_gap(doc: Seq<Char>, n: int, m: int)
    requires
        0 <= n <= m <= doc.len(),
        forall|i: int| n <= i < m ==> (#[trigger] doc[i]).deleted,
    ensures
        visible(doc.take(m)).len() == visible(doc.take(n)).len(),
    decreases m - n,
{
    if n < m {
        lemma_offsets_in_gap(doc, n, m - 1);
        assert(doc.take(m).drop_last() =~= doc.take(m - 1));
        assert(doc[m - 1].deleted);
    }
}

/// A stretch that falls to the deletion adds a range.
proof fn lemma_ranges_hit(
    before: Seq<Range<usize>>,
    after: Seq<Range<usize>>,
    doc: Seq<Char>,
    lo: int,
    hi: int,
    versions: Map<ReplicaId, int>,
    n: int,
    m: int,
)
    requires
        ranges_so_far(before, doc, lo, hi, versions, n),
        0 <= lo <= n < m <= doc.len(),
        m <= hi,
        forall|i: int|
            n <= i < m ==> !(#[trigger] doc[i]).deleted && known(versions, doc[i].id),
        separated(after),
        forall|k: int|
            0 <= k < after.len() ==> (#[trigger] after[k]).end <= visible(doc.take(n)).len() + m
                - n,
        forall|x: int|
            #[trigger] in_ranges(after, x) <==> (in_ranges(before, x) || visible(doc.take(n)).len()
                <= x < visible(doc.take(n)).len() + m - n),
    ensures
        ranges_so_far(after, doc, lo, hi, versions, m),
        visible(doc.take(m)).len() == visible(doc.take(n)).len() + m - n,
{
    lemma_offsets_in_stretch(doc, n, m);
    assert forall|i: int| 0 <= i < m && !(#[trigger] doc[i]).deleted implies (in_ranges(
        after,
        visible(doc.take(i)).len() as int,
    ) <==> (lo <= i < hi && known(versions, doc[i].id))) by {
        if i < n {
            lemma_offset_before(doc, i, n);
        } else {
            lemma_offsets_in_stretch(doc, n, i);
        }
    }
}

/// A stretch that does not fall to the deletion adds nothing.
proof fn lemma_ranges_miss(
    ranges: Seq<Range<usize>>,
    doc: Seq<Char>,
    lo: int,
    hi: int,
    versions: Map<ReplicaId, int>,
    n: int,
    m: int,
)
    requires
        ranges_so_far(ranges, doc, lo, hi, versions, n),
        0 <= n <= m <= doc.len(),
        forall|i: int|
            n <= i < m && !(#[trigger] doc[i]).deleted ==> !(lo <= i < hi && known(
                versions,
                doc[i].id,
            )),
    ensures
        ranges_so_far(ranges, doc, lo, hi, versions, m),
{
    lemma_visible_cut(doc.take(m), n);
    assert(doc.take(m).take(n) =~= doc.take(n));
    assert forall|i: int| 0 <= i < m && !(#[trigger] doc[i]).deleted implies (in_ranges(
        ranges,
        visible(doc.take(i)).len() as int,
    ) <==> (lo <= i < hi && known(versions, doc[i].id))) by {
        if i >= n {
            lemma_visible_cut(doc.take(i), n);
            assert(doc.take(i).take(n) =~= doc.take(n));
            let x = visible(doc.take(i)).len() as int;
            if in_ranges(ranges, x) {
                let k = choose|k: int|
                    0 <= k < ranges.len() && (#[trigger] ranges[k]).start <= x < ranges[k].end;
                assert(ranges[k].end <= visible(doc.take(n)).len());
            }
        }
    }
}

/// Deleting the next stretch that falls to the deletion.
proof fn lemma_sweep_hit(
    doc: Seq<Char>,
    lo: int,
    n: int,
    m: int,
    versions: Map<ReplicaId, int>,
)
    requires
        0 <= lo <= n <= m <= doc.len(),
        forall|i: int| n <= i < m ==> known(versions, (#[trigger] doc[i]).id),
    ensures
        delete_between(delete_known_between(doc, lo, n, versions), n, m) == delete_known_between(
            doc,
            lo,
            m,
            versions,
        ),
{
    assert(delete_between(delete_known_between(doc, lo, n, versions), n, m)
        =~= delete_known_between(doc, lo, m, versions));
}

/// Passing over a stretch that does not fall to the deletion.
proof fn lemma_sweep_miss(
    doc: Seq<Char>,
    lo: int,
    n: int,
    m: int,
    versions: Map<ReplicaId, int>,
)
    requires
        0 <= lo <= n <= m <= doc.len(),
        forall|i: int|
            n <= i < m ==> (#[trigger] doc[i]).deleted || !known(versions, doc[i].id),
    ensures
        delete_known_between(doc, lo, n, versions) == delete_known_between(doc, lo, m, versions),
{
    assert(delete_known_between(doc, lo, n, versions) =~= delete_known_between(
        doc,
        lo,
        m,
        versions,
    ));
}

/// A deletion has been carried out up to the run at position `p`; the last character that it
/// names is in the run at position `q`.
spec fn swept(
    runs: Seq<EditRun>,
    doc: Seq<Char>,
    deletion: DeletionView,
    lo: int,
    hi: int,
    p: int,
    q: int,
    before: int,
    ranges: Seq<Range<usize>>,
) -> bool {
    &&& 0 <= p <= q + 1
    &&& 0 <= q < runs.len() <= usize::MAX
    &&& runs[q].holds(char_before(deletion.end))
    &&& hi == start_of(runs, q) + deletion.end.character_ts - runs[q].text.start
    &&& 0 <= lo <= start_of(runs, p) <= doc.len()
    &&& 0 <= hi <= doc.len()
    &&& p > q ==> start_of(runs, p) >= hi
    &&& doc_of(runs) == delete_known_between(
        doc,
        lo,
        lesser(start_of(runs, p), hi),
        deletion.versions,
    )
    &&& before == visible(doc.take(start_of(runs, p))).len()
    &&& ranges_so_far(ranges, doc, lo, hi, deletion.versions, start_of(runs, p))
}

/// What the run at position `p` is in the text before the deletion.
proof fn lemma_swept_run(
    runs: Seq<EditRun>,
    doc: Seq<Char>,
    deletion: DeletionView,
    lo: int,
    hi: int,
    p: int,
    q: int,
    before: int,
    ranges: Seq<Range<usize>>,
)
    requires
        swept(runs, doc, deletion, lo, hi, p, q, before, ranges),
        p <= q,
        forall|i: int| 0 <= i < runs.len() ==> (#[trigger] runs[i]).wf(),
    ensures
        start_of(runs, p + 1) == start_of(runs, p) + runs[p].spec_len(),
        start_of(runs, p + 1) <= doc.len(),
        start_of(runs, p) < hi,
        p < q ==> start_of(runs, p + 1) < hi,
        forall|i: int|
            start_of(runs, p) <= i < start_of(runs, p + 1) ==> (#[trigger] doc[i]).id == (CharId {
                by: runs[p].text.inserted_by,
                ts: runs[p].text.start + i - start_of(runs, p),
            }) && doc[i].deleted == runs[p].is_deleted,
{
    let n = start_of(runs, p);
    lemma_start_next(runs, p);
    lemma_starts_ascend(runs, p, q);
    if p < q {
        lemma_starts_ascend(runs, p + 1, q);
    }
    assert forall|i: int| n <= i < start_of(runs, p + 1) implies (#[trigger] doc[i]).id == (
    CharId { by: runs[p].text.inserted_by, ts: runs[p].text.start + i - n }) && doc[i].deleted
        == runs[p].is_deleted by {
        lemma_doc_char(runs, p, i - n);
        assert(doc_of(runs)[i] == runs[p].chars()[i - n]);
        assert(doc_of(runs)[i] == doc[i]);
    }
}

/// A run that does not fall to the deletion is passed over.
proof fn lemma_swept_miss(
    runs: Seq<EditRun>,
    doc: Seq<Char>,
    deletion: DeletionView,
    lo: int,
    hi: int,
    p: int,
    q: int,
    before: int,
    ranges: Seq<Range<usize>>,
    limit: int,
)
    requires
        swept(runs, doc, deletion, lo, hi, p, q, before, ranges),
        deletion.wf(),
        p <= q,
        forall|i: int| 0 <= i < runs.len() ==> (#[trigger] runs[i]).wf(),
        limit == limit_of(runs, deletion, p, q),
        runs[p].is_deleted || runs[p].text.start >= limit,
    ensures
        swept(
            runs,
            doc,
            deletion,
            lo,
            hi,
            p + 1,
            q,
            before + runs[p].spec_visible_len(),
            ranges,
        ),
        before + runs[p].spec_visible_len() <= visible(doc).len(),
{
    lemma_swept_run(runs, doc, deletion, lo, hi, p, q, before, ranges);
    let n = start_of(runs, p);
    let m = start_of(runs, p + 1);
    lemma_ranges_miss(ranges, doc, lo, hi, deletion.versions, n, m);
    if runs[p].is_deleted {
        lemma_offsets_in_gap(doc, n, m);
    } else {
        lemma_offsets_in_stretch(doc, n, m);
    }
    lemma_visible_cut(doc, m);
    lemma_sweep_miss(doc, lo, n, lesser(m, hi), deletion.versions);
}

impl RunTree {
    /// Up to which character of the run at position `p` a deletion goes.
    fn limit_in(&self, p: usize, q: usize, deletion: &Deletion) -> (limit: Length)
        requires
            self.shaped(),
            p < self.order@.len(),
        ensures
            limit == limit_of(self.runs(), deletion@, p as int, q as int),
    {
        let run = self.run_at(p);
        let end: usize = if p == q {
            deletion.end.character_ts
        } else {
            run.text.end
        };
        let version: usize = deletion.version_map.get(run.text.inserted_by);
        if end < version {
            end
        } else {
            version
        }
    }

    /// Deletes what falls to a deletion from the run at position `p`. Tells whether that has moved
    /// the run at position `q` by one.
    #[verifier::rlimit(60)]
    #[verifier::spinoff_prover]
    fn sweep_hit(
        &mut self,
        p: usize,
        q: usize,
        limit: Length,
        deletion: &Deletion,
        run_indices: &mut RunIndices,
        before: Length,
        ranges: &mut Vec<Range<Length>>,
        Ghost(doc): Ghost<Seq<Char>>,
        Ghost(lo): Ghost<int>,
        Ghost(hi): Ghost<int>,
    ) -> (moved: bool)
        requires
            old(self).shaped(),
            deletion@.wf(),
            indexes(old(run_indices).fragments@, old(self).leaves@),
            visible(doc).len() <= usize::MAX,
            swept(
                old(self).runs(),
                doc,
                deletion@,
                lo,
                hi,
                p as int,
                q as int,
                before as int,
                old(ranges)@,
            ),
            p <= q,
            limit == limit_of(old(self).runs(), deletion@, p as int, q as int),
            !old(self).runs()[p as int].is_deleted,
            old(self).runs()[p as int].text.start < limit,
        ensures
            final(self).shaped(),
            indexes(final(run_indices).fragments@, final(self).leaves@),
            q < usize::MAX,
            before + limit - old(self).runs()[p as int].text.start <= usize::MAX,
            swept(
                final(self).runs(),
                doc,
                deletion@,
                lo,
                hi,
                p + 1,
                q + (if moved {
                    1int
                } else {
                    0int
                }),
                before + limit - old(self).runs()[p as int].text.start,
                final(ranges)@,
            ),
            moved ==> final(self).runs()[p + 1].spec_len() < old(self).runs()[p as int].spec_len(),
            moved == (limit < old(self).runs()[p as int].text.end && p < q),
            limit < old(self).runs()[p as int].text.end ==> old(self).leaves@.len() < usize::MAX,
            ({
                let layout = old(self).layout(names_of(old(run_indices).fragments@));
                final(self).layout(names_of(final(run_indices).fragments@)) == layout.struck(
                    p as int,
                    limit as int,
                )
            }),
    {
        let ghost runs = self.runs();
        let ghost n = start_of(runs, p as int);
        let run = self.run_at(p);
        let m: usize = limit - run.text.start;
        proof {
            lemma_swept_run(
                runs,
                doc,
                deletion@,
                lo,
                hi,
                p as int,
                q as int,
                before as int,
                ranges@,
            );
            assert(limit <= run.text.end);
            assert(n + m <= hi);
            assert forall|i: int| n <= i < n + m implies !(#[trigger] doc[i]).deleted && known(
                deletion@.versions,
                doc[i].id,
            ) by {
                assert(doc[i].id.ts < limit);
            }
            lemma_sweep_hit(doc, lo, n, n + m, deletion@.versions);
            lemma_offsets_in_stretch(doc, n, n + m);
            lemma_visible_cut(doc, n + m);
        }
        let cut = self.erase_up_to(p, limit, run_indices);
        let ghost old_ranges = ranges@;
        push_range(ranges, before, before + m);
        proof {
            lemma_ranges_hit(old_ranges, ranges@, doc, lo, hi, deletion@.versions, n, n + m);
            if p < q {
                assert(runs[q as int].holds(char_before(deletion@.end)));
            } else {
                assert(limit == deletion@.end.character_ts);
            }
        }
        cut && p < q
    }

    /// The position of the run that holds a character.
    fn position_of_char(
        &self,
        replica_id: ReplicaId,
        character_ts: Length,
        run_indices: &RunIndices,
        Ghost(versions): Ghost<Map<ReplicaId, int>>,
    ) -> (p: usize)
        requires
            self.shaped(),
            indexes(run_indices.fragments@, self.leaves@),
            complete(self.doc(), versions),
            character_ts < versions[replica_id],
        ensures
            p < self.order@.len() <= usize::MAX,
            self.runs()[p as int].holds(CharId { by: replica_id, ts: character_ts as int }),
            self.layout(names_of(run_indices.fragments@)).run_of(
                CharId { by: replica_id, ts: character_ts as int },
            ) == p,
            index_of_char(self.doc(), CharId { by: replica_id, ts: character_ts as int })
                == start_of(self.runs(), p as int) + character_ts
                - self.runs()[p as int].text.start,
    {
        let ghost id = CharId { by: replica_id, ts: character_ts as int };
        proof {
            self.lemma_leaf_of_char(versions, id);
        }
        let idx: usize = run_indices.idx_at(replica_id, character_ts, Ghost(self.leaves@));
        let p: usize = self.position_of(idx);
        let len: usize = self.order.len();
        proof {
            assert(len == self.order@.len());
            let run = self.runs()[p as int];
            let k = character_ts - run.text.start;
            lemma_doc_char(self.runs(), p as int, k);
            lemma_index_of_char(self.doc(), versions, start_of(self.runs(), p as int) + k);
            lemma_start_next(self.runs(), p as int);
            assert(has_at(self.runs(), p as int, start_of(self.runs(), p as int) + k));
            lemma_run_with(self.runs(), p as int, start_of(self.runs(), p as int) + k);
        }
        p
    }

    /// Cuts the run at a position before one of its characters and keeps the index up to date.
    fn cut_indexed(&mut self, p: usize, character_ts: Length, run_indices: &mut RunIndices)
        requires
            old(self).shaped(),
            indexes(old(run_indices).fragments@, old(self).leaves@),
            p < old(self).order@.len(),
            old(self).runs()[p as int].text.start < character_ts
                < old(self).runs()[p as int].text.end,
        ensures
            final(self).shaped(),
            final(self).doc() == old(self).doc(),
            indexes(final(run_indices).fragments@, final(self).leaves@),
            final(self).runs() == old(self).runs().update(
                p as int,
                old(self).runs()[p as int].up_to(character_ts as int),
            ).insert(p + 1, old(self).runs()[p as int].from(character_ts as int)),
            final(self).order@.len() <= usize::MAX,
            final(self).layout(names_of(final(run_indices).fragments@)) == old(self).layout(
                names_of(old(run_indices).fragments@),
            ).cut(p as int, character_ts as int),
    {
        let run = self.run_at(p);
        let ghost leaves = self.leaves@;
        let ghost i = self.order@[p as int] as int;
        let idx: usize = self.cut_run(p, character_ts);
        run_indices.split(
            run.text.inserted_by,
            run.insertion_ts,
            character_ts,
            idx,
            Ghost(leaves),
            Ghost(i),
        );
    }

    /// Deletes the characters before `limit` from the run at a position. Tells whether that has
    /// cut the run in two.
    fn erase_up_to(&mut self, p: usize, limit: Length, run_indices: &mut RunIndices) -> (cut: bool)
        requires
            old(self).shaped(),
            indexes(old(run_indices).fragments@, old(self).leaves@),
            p < old(self).order@.len(),
            old(self).runs()[p as int].text.start < limit <= old(self).runs()[p as int].text.end,
        ensures
            final(self).shaped(),
            indexes(final(run_indices).fragments@, final(self).leaves@),
            final(self).doc() == delete_between(
                old(self).doc(),
                start_of(old(self).runs(), p as int),
                start_of(old(self).runs(), p as int) + limit
                    - old(self).runs()[p as int].text.start,
            ),
            final(self).order@.len() <= usize::MAX,
            cut == (limit < old(self).runs()[p as int].text.end),
            start_of(final(self).runs(), p as int) == start_of(old(self).runs(), p as int),
            start_of(final(self).runs(), p + 1) == start_of(old(self).runs(), p as int) + limit
                - old(self).runs()[p as int].text.start,
            ({
                let runs = old(self).runs();
                let after = final(self).runs();
                let shift: int = if cut {
                    1
                } else {
                    0
                };
                &&& after.len() == runs.len() + shift
                &&& forall|s: int|
                    p < s < runs.len() ==> after[s + shift] == #[trigger] runs[s] && start_of(
                        after,
                        s + shift,
                    ) == start_of(runs, s)
                &&& after[p as int].text == runs[p as int].up_to(limit as int).text
                &&& cut ==> after[p + 1] == runs[p as int].from(limit as int)
            }),
            ({
                let layout = old(self).layout(names_of(old(run_indices).fragments@));
                final(self).layout(names_of(final(run_indices).fragments@)) == layout.struck(
                    p as int,
                    limit as int,
                )
            }),
    {
        reveal(Layout::struck);
        let ghost runs = self.runs();
        let run = self.run_at(p);
        let cut = limit < run.text.end;
        if cut {
            self.cut_indexed(p, limit, run_indices);
            proof {
                lemma_doc_cut_run(runs, p as int, limit as int);
            }
        }
        let ghost cut_runs = self.runs();
        let ghost leaves = self.leaves@;
        self.erase_run(p);
        proof {
            lemma_indexes_same_text(run_indices.fragments@, leaves, self.leaves@);
            lemma_erase_starts(cut_runs, p as int);
            lemma_start_next(cut_runs, p as int);
            let shift: int = if cut {
                1
            } else {
                0
            };
            assert forall|s: int| p < s < runs.len() implies self.runs()[s + shift]
                == #[trigger] runs[s] && start_of(self.runs(), s + shift) == start_of(runs, s) by {
                assert(start_of(self.runs(), s + shift) == start_of(cut_runs, s + shift));
            }
        }
        cut
    }

    /// Integrates a deletion made by another replica, and tells what goes from the buffer.
    #[verifier::rlimit(60)]
    #[verifier::spinoff_prover]
    pub fn merge_deletion(
        &mut self,
        deletion: &Deletion,
        run_indices: &mut RunIndices,
        Ghost(versions): Ghost<Map<ReplicaId, int>>,
    ) -> (res: MergedDeletion)
        requires
            old(self).wf(),
            deletion@.wf(),
            indexes(old(run_indices).fragments@, old(self).leaves@),
            complete(old(self).doc(), versions),
            forall|id: ReplicaId| #[trigger] versions[id] >= deletion@.versions[id],
        ensures
            final(self).wf(),
            indexes(final(run_indices).fragments@, final(self).leaves@),
            final(self).doc() == delete_known_between(
                old(self).doc(),
                index_of_char(old(self).doc(), char_after(deletion@.start)),
                index_of_char(old(self).doc(), char_before(deletion@.end)) + 1,
                deletion@.versions,
            ),
            ranges_of_deletion(res.ranges(), old(self).doc(), final(self).doc()),
            res is Contiguous <==> res.ranges().len() == 1,
            final(self).layout(names_of(final(run_indices).fragments@)) == old(self).layout(
                names_of(old(run_indices).fragments@),
            ).with_deletion(deletion@),
    {
        reveal(Layout::with_deletion);
        let ghost layout = self.layout(names_of(run_indices.fragments@));
        let ghost doc = self.doc();
        let ghost known_to = deletion@.versions;
        let ghost first = char_after(deletion@.start);
        let ghost last = char_before(deletion@.end);
        let ghost lo = index_of_char(doc, first);
        let ghost hi = index_of_char(doc, last) + 1;
        proof {
            assert(versions[first.by] >= known_to[first.by]);
            assert(versions[last.by] >= known_to[last.by]);
        }
        let mut p: usize = self.position_of_char(
            deletion.start.replica_id,
            deletion.start.character_ts,
            run_indices,
            Ghost(versions),
        );
        if self.run_at(p).text.start < deletion.start.character_ts {
            let ghost runs = self.runs();
            self.cut_indexed(p, deletion.start.character_ts, run_indices);
            proof {
                lemma_doc_cut_run(runs, p as int, deletion.start.character_ts as int);
            }
            p = p + 1;
        }
        assert(start_of(self.runs(), p as int) == lo);
        let ghost cut = self.layout(names_of(run_indices.fragments@));
        proof {
            lemma_start_next(self.runs(), p as int);
            assert(has_at(self.runs(), p as int, lo));
            lemma_run_with(self.runs(), p as int, lo);
            assert(cut == layout.cut_before(first));
            assert(cut.run_of(first) == p);
        }
        let mut q: usize = self.position_of_char(
            deletion.end.replica_id,
            deletion.end.character_ts - 1,
            run_indices,
            Ghost(versions),
        );
        let mut ranges: Vec<Range<Length>> = Vec::new();
        if q < p {
            proof {
                lemma_starts_ascend(self.runs(), q as int, p as int);
                assert(hi <= lo);
                assert(self.doc() =~= delete_known_between(doc, lo, hi, known_to));
            }
            proof {
                lemma_swept_by(cut, deletion@, p as int, q as int);
            }
            return MergedDeletion::Split(ranges);
        }
        let mut before: usize = self.visible_before(p);
        proof {
            assert(delete_known_between(doc, lo, lo, known_to) =~= doc);
            assert(ranges_so_far(ranges@, doc, lo, hi, known_to, lo));
            lemma_starts_ascend(self.runs(), p as int, q as int);
            lemma_start_next(self.runs(), p as int);
            lemma_start_next(self.runs(), q as int);
        }
        while p <= q
            invariant
                self.layout(names_of(run_indices.fragments@)).swept(
                    deletion@,
                    p as int,
                    q as int,
                ) == layout.with_deletion(deletion@),
                deletion@.wf(),
                known_to == deletion@.versions,
                self.shaped(),
                indexes(run_indices.fragments@, self.leaves@),
                visible(doc).len() <= usize::MAX,
                swept(
                    self.runs(),
                    doc,
                    deletion@,
                    lo,
                    hi,
                    p as int,
                    q as int,
                    before as int,
                    ranges@,
                ),
            decreases q + 1 - p, self.runs()[p as int].spec_len(),
        {
            let run = self.run_at(p);
            let limit: usize = self.limit_in(p, q, deletion);
            if !run.is_deleted && run.text.start < limit {
                let ghost here = self.layout(names_of(run_indices.fragments@));
                let moved = self.sweep_hit(
                    p,
                    q,
                    limit,
                    deletion,
                    run_indices,
                    before,
                    &mut ranges,
                    Ghost(doc),
                    Ghost(lo),
                    Ghost(hi),
                );
                proof {
                    lemma_swept_hit(here, deletion@, p as int, q as int);
                }
                before = before + (limit - run.text.start);
                if moved {
                    q = q + 1;
                }
            } else {
                proof {
                    lemma_swept_by(
                        self.layout(names_of(run_indices.fragments@)),
                        deletion@,
                        p as int,
                        q as int,
                    );
                    lemma_swept_miss(
                        self.runs(),
                        doc,
                        deletion@,
                        lo,
                        hi,
                        p as int,
                        q as int,
                        before as int,
                        ranges@,
                        limit as int,
                    );
                }
                before = before + run.visible_len();
            }
            p = p + 1;
        }
        proof {
            lemma_swept_by(
                self.layout(names_of(run_indices.fragments@)),
                deletion@,
                p as int,
                q as int,
            );
            lemma_ranges_miss(
                ranges@,
                doc,
                lo,
                hi,
                known_to,
                start_of(self.runs(), p as int),
                doc.len() as int,
            );
            assert(doc.take(doc.len() as int) =~= doc);
            lemma_visible_shrinks(doc, self.doc());
        }
        if ranges.len() == 1 {
            let range = ranges[0].start..ranges[0].end;
            assert(ranges@ =~= seq![range]);
            MergedDeletion::Contiguous(range)
        } else {
            MergedDeletion::Split(ranges)
        }
    }
}

/// Erasing a run moves no run.
proof fn lemma_erase_starts(runs: Seq<EditRun>, p: int)
    requires
        0 <= p < runs.len(),
    ensures
        forall|q: int|
            0 <= q <= runs.len() ==> #[trigger] start_of(
                runs.update(p, runs[p].erased()),
                q,
            ) == start_of(runs, q),
{
    assert forall|q: int| 0 <= q <= runs.len() implies #[trigger] start_of(
        runs.update(p, runs[p].erased()),
        q,
    ) == start_of(runs, q) by {
        lemma_starts_after_erase(runs, p, q);
    }
}

} // verus!
