//! Finds the run that holds a given character.

use vstd::prelude::*;

use crate::clocks::InsertionTimestamp;
use crate::edit_run::EditRun;
use crate::model::CharId;
use crate::replica_id::ReplicaId;
use crate::text::Length;

verus! {

/// Names a run for as long as the tree that holds it lives.
pub type LeafIdx = usize;

/// A piece of an insertion that is still in one run.
#[derive(Clone, Copy, Debug, PartialEq, Eq, Structural)]
pub struct Fragment {
    pub replica_id: ReplicaId,
    pub insertion_ts: InsertionTimestamp,
    pub start: Length,
    pub end: Length,
    pub idx: LeafIdx,
}

/// The fragment that is in the given run.
pub open spec fn fragment_of(run: EditRun, idx: int) -> Fragment {
    Fragment {
        replica_id: run.text.inserted_by,
        insertion_ts: run.insertion_ts,
        start: run.text.start,
        end: run.text.end,
        idx: idx as usize,
    }
}

/// Whether there is a fragment in the run of the given name.
pub open spec fn indexed(fragments: Seq<Fragment>, idx: int) -> bool {
    exists|j: int| 0 <= j < fragments.len() && (#[trigger] fragments[j]).idx == idx
}

/// Whether the fragments of a replica come in the order in which it inserted them.
pub open spec fn in_order(a: Fragment, b: Fragment) -> bool {
    a.replica_id == b.replica_id && a.start < a.end && b.start < b.end ==> a.end <= b.start
}

/// The fragments are those of the runs, one for each, those of a replica in order.
pub open spec fn indexes(fragments: Seq<Fragment>, leaves: Seq<EditRun>) -> bool {
    &&& forall|j: int|
        0 <= j < fragments.len() ==> {
            &&& (#[trigger] fragments[j]).idx < leaves.len()
            &&& fragments[j] == fragment_of(
                leaves[fragments[j].idx as int],
                fragments[j].idx as int,
            )
        }
    &&& forall|i: int| 0 <= i < leaves.len() ==> #[trigger] indexed(fragments, i)
    &&& forall|j: int, k: int|
        0 <= j < k < fragments.len() ==> {
            &&& (#[trigger] fragments[j]).idx != (#[trigger] fragments[k]).idx
            &&& in_order(fragments[j], fragments[k])
        }
}

/// The names of the runs that the fragments are in.
pub open spec fn names_of(fragments: Seq<Fragment>) -> Seq<LeafIdx> {
    Seq::new(fragments.len(), |j: int| fragments[j].idx)
}

/// Whether the run of the given name is the `j`-th.
pub open spec fn named_at(names: Seq<LeafIdx>, j: int, idx: int) -> bool {
    0 <= j < names.len() && names[j] == idx
}

/// The names with a new one put in right after another.
pub open spec fn name_after(names: Seq<LeafIdx>, idx: int, new_idx: LeafIdx) -> Seq<LeafIdx> {
    names.insert((choose|j: int| #[trigger] named_at(names, j, idx)) + 1, new_idx)
}

/// The fragments of the given runs.
pub open spec fn fragments_of(names: Seq<LeafIdx>, leaves: Seq<EditRun>) -> Seq<Fragment> {
    Seq::new(names.len(), |j: int| fragment_of(leaves[names[j] as int], names[j] as int))
}

/// The runs and the order of the fragments tell all of the fragments.
pub proof fn lemma_fragments_of(fragments: Seq<Fragment>, leaves: Seq<EditRun>)
    requires
        indexes(fragments, leaves),
    ensures
        fragments == fragments_of(names_of(fragments), leaves),
{
    assert(fragments =~= fragments_of(names_of(fragments), leaves));
}

/// The fragments do not depend on anything of the runs but what they hold.
pub proof fn lemma_indexes_same_text(
    fragments: Seq<Fragment>,
    leaves: Seq<EditRun>,
    others: Seq<EditRun>,
)
    requires
        indexes(fragments, leaves),
        others.len() == leaves.len(),
        forall|i: int|
            0 <= i < leaves.len() ==> (#[trigger] others[i]).text == leaves[i].text
                && others[i].insertion_ts == leaves[i].insertion_ts,
    ensures
        indexes(fragments, others),
{
    assert forall|j: int| 0 <= j < fragments.len() implies {
        &&& (#[trigger] fragments[j]).idx < others.len()
        &&& fragments[j] == fragment_of(others[fragments[j].idx as int], fragments[j].idx as int)
    } by {
        let i = fragments[j].idx as int;
        assert(others[i].text == leaves[i].text);
    }
}

/// A character is in no more than one run.
pub proof fn lemma_one_leaf(
    fragments: Seq<Fragment>,
    leaves: Seq<EditRun>,
    i: int,
    k: int,
    id: CharId,
)
    requires
        indexes(fragments, leaves),
        0 <= i < leaves.len(),
        0 <= k < leaves.len(),
        leaves[i].holds(id),
        leaves[k].holds(id),
    ensures
        i == k,
{
    assert(indexed(fragments, i));
    assert(indexed(fragments, k));
    let a = choose|j: int| 0 <= j < fragments.len() && (#[trigger] fragments[j]).idx == i;
    let b = choose|j: int| 0 <= j < fragments.len() && (#[trigger] fragments[j]).idx == k;
    if a < b {
        assert(in_order(fragments[a], fragments[b]));
    } else if b < a {
        assert(in_order(fragments[b], fragments[a]));
    }
}

/// All fragments of the runs of a tree.
#[derive(Debug)]
pub struct RunIndices {
    pub fragments: Vec<Fragment>,
}

impl RunIndices {
    /// The fragments of a tree with a single run.
    pub fn new(replica_id: ReplicaId, idx: LeafIdx, len: Length) -> (indices: RunIndices)
        ensures
            indices.fragments@ == seq![
                Fragment { replica_id, insertion_ts: 0, start: 0, end: len, idx },
            ],
    {
        let mut fragments: Vec<Fragment> = Vec::new();
        fragments.push(Fragment { replica_id, insertion_ts: 0, start: 0, end: len, idx });
        assert(fragments@ =~= seq![
            Fragment { replica_id, insertion_ts: 0, start: 0, end: len, idx },
        ]);
        RunIndices { fragments }
    }

    pub fn duplicate(&self) -> (indices: RunIndices)
        ensures
            indices.fragments@ == self.fragments@,
    {
        let fragments = self.fragments.clone();
        assert(fragments@ =~= self.fragments@);
        RunIndices { fragments }
    }

    /// The run that holds a character.
    pub fn idx_at(
        &self,
        replica_id: ReplicaId,
        character_ts: Length,
        Ghost(leaves): Ghost<Seq<EditRun>>,
    ) -> (idx: LeafIdx)
        requires
            indexes(self.fragments@, leaves),
            exists|i: int|
                0 <= i < leaves.len() && (#[trigger] leaves[i]).holds(
                    CharId { by: replica_id, ts: character_ts as int },
                ),
        ensures
            idx < leaves.len(),
            leaves[idx as int].holds(CharId { by: replica_id, ts: character_ts as int }),
    {
        let ghost id = CharId { by: replica_id, ts: character_ts as int };
        let mut j: usize = 0;
        proof {
            let i = choose|i: int| 0 <= i < leaves.len() && (#[trigger] leaves[i]).holds(id);
            assert(indexed(self.fragments@, i));
        }
        while j < self.fragments.len()
            invariant
                id == (CharId { by: replica_id, ts: character_ts as int }),
                j <= self.fragments@.len(),
                indexes(self.fragments@, leaves),
                exists|k: int|
                    j <= k < self.fragments@.len() && leaves[(
                    #[trigger] self.fragments@[k]).idx as int].holds(id),
            decreases self.fragments@.len() - j,
        {
            let f = self.fragments[j];
            if f.replica_id == replica_id && f.start <= character_ts && character_ts < f.end {
                return f.idx;
            }
            assert(!leaves[self.fragments@[j as int].idx as int].holds(id));
            j = j + 1;
        }
        proof {
            assert(false);
        }
        0
    }

    /// Adds the fragment of a new run that holds the next characters of a replica.
    pub fn append(
        &mut self,
        replica_id: ReplicaId,
        insertion_ts: InsertionTimestamp,
        start: Length,
        len: Length,
        idx: LeafIdx,
        Ghost(leaves): Ghost<Seq<EditRun>>,
        Ghost(run): Ghost<EditRun>,
    )
        requires
            indexes(old(self).fragments@, leaves),
            idx == leaves.len(),
            start + len <= usize::MAX,
            fragment_of(run, idx as int) == (Fragment {
                replica_id,
                insertion_ts,
                start,
                end: (start + len) as usize,
                idx,
            }),
            forall|i: int|
                0 <= i < leaves.len() && (#[trigger] leaves[i]).text.inserted_by == replica_id
                    && leaves[i].text.start < leaves[i].text.end ==> leaves[i].text.end <= start,
        ensures
            indexes(final(self).fragments@, leaves.push(run)),
            names_of(final(self).fragments@) == names_of(old(self).fragments@).push(idx),
    {
        self.fragments.push(
            Fragment { replica_id, insertion_ts, start, end: start + len, idx },
        );
        proof {
            let before = old(self).fragments@;
            let after = self.fragments@;
            let grown = leaves.push(run);
            assert forall|i: int| 0 <= i < grown.len() implies #[trigger] indexed(after, i) by {
                if i < leaves.len() {
                    assert(indexed(before, i));
                    let j = choose|j: int|
                        0 <= j < before.len() && (#[trigger] before[j]).idx == i;
                    assert(after[j].idx == i);
                } else {
                    assert(after[before.len() as int].idx == i);
                }
            }
            assert forall|j: int, k: int| 0 <= j < k < after.len() implies {
                &&& (#[trigger] after[j]).idx != (#[trigger] after[k]).idx
                &&& in_order(after[j], after[k])
            } by {
                assert(after[j] == before[j]);
                if k < before.len() {
                    assert(after[k] == before[k]);
                } else {
                    assert(leaves[before[j].idx as int].text.end == before[j].end);
                }
            }
        }
    }

    /// Lengthens the last fragment of a replica.
    pub fn extend_last(
        &mut self,
        replica_id: ReplicaId,
        len: Length,
        Ghost(leaves): Ghost<Seq<EditRun>>,
        Ghost(i): Ghost<int>,
    )
        requires
            indexes(old(self).fragments@, leaves),
            0 <= i < leaves.len(),
            leaves[i].text.inserted_by == replica_id,
            leaves[i].text.start < leaves[i].text.end,
            leaves[i].text.end + len <= usize::MAX,
            forall|k: int|
                0 <= k < leaves.len() && (#[trigger] leaves[k]).text.inserted_by == replica_id
                    && leaves[k].text.start < leaves[k].text.end ==> leaves[k].text.end
                    <= leaves[i].text.end,
        ensures
            indexes(
                final(self).fragments@,
                leaves.update(i, leaves[i].up_to(leaves[i].text.end + len)),
            ),
            names_of(final(self).fragments@) == names_of(old(self).fragments@),
    {
        let mut j: usize = self.fragments.len();
        let ghost before = self.fragments@;
        let ghost end = leaves[i].text.end;
        let ghost at: int = 0;
        proof {
            assert(indexed(before, i));
            at = choose|k: int| 0 <= k < before.len() && (#[trigger] before[k]).idx == i;
        }
        while j > 0
            invariant
                self.fragments@ == before,
                before == old(self).fragments@,
                j <= before.len(),
                at < j,
                0 <= at < before.len(),
                before[at].idx == i,
                0 <= i < leaves.len(),
                end == leaves[i].text.end,
                end + len <= usize::MAX,
                leaves[i].text.inserted_by == replica_id,
                leaves[i].text.start < leaves[i].text.end,
                indexes(before, leaves),
                forall|k: int|
                    0 <= k < leaves.len() && (#[trigger] leaves[k]).text.inserted_by == replica_id
                        && leaves[k].text.start < leaves[k].text.end ==> leaves[k].text.end
                        <= end,
            decreases j,
        {
            j = j - 1;
            let f = self.fragments[j];
            if f.replica_id == replica_id && f.start < f.end {
                proof {
                    if at < j {
                        assert(in_order(before[at], before[j as int]));
                        assert(leaves[f.idx as int].text.end <= end);
                    }
                    assert(at == j);
                }
                self.fragments[j] = Fragment { end: f.end + len, ..f };
                proof {
                    let after = self.fragments@;
                    let changed = leaves.update(i, leaves[i].up_to(end + len));
                    assert forall|k: int| 0 <= k < after.len() implies {
                        &&& (#[trigger] after[k]).idx < changed.len()
                        &&& after[k] == fragment_of(
                            changed[after[k].idx as int],
                            after[k].idx as int,
                        )
                    } by {
                        if k != j {
                            assert(after[k] == before[k]);
                            assert(before[k].idx != before[j as int].idx);
                        }
                    }
                    assert forall|k: int| 0 <= k < changed.len() implies #[trigger] indexed(
                        after,
                        k,
                    ) by {
                        assert(indexed(before, k));
                        let l = choose|l: int|
                            0 <= l < before.len() && (#[trigger] before[l]).idx == k;
                        assert(after[l].idx == k);
                    }
                    assert forall|k: int, l: int| 0 <= k < l < after.len() implies {
                        &&& (#[trigger] after[k]).idx != (#[trigger] after[l]).idx
                        &&& in_order(after[k], after[l])
                    } by {
                        assert(before[k].idx != before[l].idx && in_order(before[k], before[l]));
                        if k == j {
                            assert(leaves[before[l].idx as int].text.end == before[l].end);
                        }
                    }
                }
                return ;
            }
            assert(at != j);
        }
        proof {
            assert(false);
        }
    }

    /// Cuts the fragment of a run in two; what comes off its end is in the new run `idx`.
    pub fn split(
        &mut self,
        replica_id: ReplicaId,
        insertion_ts: InsertionTimestamp,
        offset: Length,
        idx: LeafIdx,
        Ghost(leaves): Ghost<Seq<EditRun>>,
        Ghost(i): Ghost<int>,
    )
        requires
            indexes(old(self).fragments@, leaves),
            0 <= i < leaves.len(),
            leaves[i].text.inserted_by == replica_id,
            leaves[i].insertion_ts == insertion_ts,
            leaves[i].text.start < offset < leaves[i].text.end,
            idx == leaves.len(),
        ensures
            indexes(
                final(self).fragments@,
                leaves.update(i, leaves[i].up_to(offset as int)).push(
                    leaves[i].from(offset as int),
                ),
            ),
            names_of(final(self).fragments@) == name_after(names_of(old(self).fragments@), i, idx),
    {
        let mut j: usize = 0;
        let ghost before = self.fragments@;
        let ghost id = CharId { by: replica_id, ts: offset as int };
        let ghost at: int = 0;
        proof {
            assert(indexed(before, i));
            at = choose|k: int| 0 <= k < before.len() && (#[trigger] before[k]).idx == i;
            assert(leaves[i].holds(id));
        }
        while j < self.fragments.len()
            invariant
                self.fragments@ == before,
                before == old(self).fragments@,
                j <= before.len(),
                j <= at < before.len(),
                before[at].idx == i,
                0 <= i < leaves.len(),
                leaves[i].text.inserted_by == replica_id,
                leaves[i].insertion_ts == insertion_ts,
                leaves[i].text.start < offset < leaves[i].text.end,
                idx == leaves.len(),
                id == (CharId { by: replica_id, ts: offset as int }),
                leaves[i].holds(id),
                indexes(before, leaves),
            decreases before.len() - j,
        {
            let f = self.fragments[j];
            if f.replica_id == replica_id && f.insertion_ts == insertion_ts && f.start < offset
                && offset < f.end {
                proof {
                    assert(leaves[f.idx as int].holds(id));
                    lemma_one_leaf(before, leaves, i, f.idx as int, id);
                    if at != j {
                        assert(before[j as int].idx != before[at].idx);
                    }
                }
                self.fragments[j] = Fragment { end: offset, ..f };
                self.fragments.insert(
                    j + 1,
                    Fragment { replica_id, insertion_ts, start: offset, end: f.end, idx },
                );
                proof {
                    let after = self.fragments@;
                    let changed = leaves.update(i, leaves[i].up_to(offset as int)).push(
                        leaves[i].from(offset as int),
                    );
                    let left = Fragment { end: offset, ..f };
                    let right = Fragment {
                        replica_id,
                        insertion_ts,
                        start: offset,
                        end: f.end,
                        idx,
                    };
                    assert(after =~= before.update(j as int, left).insert(j + 1, right));
                    let names = names_of(before);
                    assert(named_at(names, j as int, i));
                    let l = choose|l: int| #[trigger] named_at(names, l, i);
                    if l != j {
                        assert(before[l].idx != before[j as int].idx);
                    }
                    assert(names_of(after) =~= name_after(names, i, idx));
                    assert forall|k: int| 0 <= k < after.len() implies {
                        &&& (#[trigger] after[k]).idx < changed.len()
                        &&& after[k] == fragment_of(
                            changed[after[k].idx as int],
                            after[k].idx as int,
                        )
                    } by {
                        if k < j {
                            assert(after[k] == before[k]);
                            assert(before[k].idx != before[j as int].idx);
                        } else if k > j + 1 {
                            assert(after[k] == before[k - 1]);
                            assert(before[j as int].idx != before[k - 1].idx);
                        }
                    }
                    assert forall|k: int| 0 <= k < changed.len() implies #[trigger] indexed(
                        after,
                        k,
                    ) by {
                        if k < leaves.len() {
                            assert(indexed(before, k));
                            let l = choose|l: int|
                                0 <= l < before.len() && (#[trigger] before[l]).idx == k;
                            if l <= j {
                                assert(after[l].idx == k);
                            } else {
                                assert(after[l + 1].idx == k);
                            }
                        } else {
                            assert(after[j + 1].idx == k);
                        }
                    }
                    assert forall|k: int, l: int| 0 <= k < l < after.len() implies {
                        &&& (#[trigger] after[k]).idx != (#[trigger] after[l]).idx
                        &&& in_order(after[k], after[l])
                    } by {
                        let k0 = if k <= j {
                            k
                        } else {
                            k - 1
                        };
                        let l0 = if l <= j {
                            l
                        } else {
                            l - 1
                        };
                        if k0 < l0 {
                            assert(before[k0].idx != before[l0].idx);
                            assert(in_order(before[k0], before[l0]));
                        }
                    }
                }
                return ;
            }
            assert(at != j);
            j = j + 1;
        }
        proof {
            assert(false);
        }
    }

    /// Where the fragment that is in the given run is.
    fn position(
        &self,
        replica_id: ReplicaId,
        insertion_ts: InsertionTimestamp,
        character_ts: Length,
        Ghost(leaves): Ghost<Seq<EditRun>>,
        Ghost(i): Ghost<int>,
    ) -> (j: usize)
        requires
            indexes(self.fragments@, leaves),
            0 <= i < leaves.len(),
            leaves[i].holds(CharId { by: replica_id, ts: character_ts as int }),
            leaves[i].insertion_ts == insertion_ts,
        ensures
            j < self.fragments@.len(),
            self.fragments@[j as int].idx == i,
    {
        let ghost id = CharId { by: replica_id, ts: character_ts as int };
        let mut j: usize = 0;
        proof {
            assert(indexed(self.fragments@, i));
        }
        while j < self.fragments.len()
            invariant
                j <= self.fragments@.len(),
                exists|k: int|
                    j <= k < self.fragments@.len() && (#[trigger] self.fragments@[k]).idx == i,
                0 <= i < leaves.len(),
                leaves[i].insertion_ts == insertion_ts,
                id == (CharId { by: replica_id, ts: character_ts as int }),
                leaves[i].holds(id),
                indexes(self.fragments@, leaves),
            decreases self.fragments@.len() - j,
        {
            let f = self.fragments[j];
            if f.replica_id == replica_id && f.insertion_ts == insertion_ts && f.start
                <= character_ts && character_ts < f.end {
                proof {
                    assert(leaves[f.idx as int].holds(id));
                    lemma_one_leaf(self.fragments@, leaves, i, f.idx as int, id);
                }
                return j;
            }
            j = j + 1;
        }
        proof {
            assert(false);
        }
        0
    }

    /// Moves the border between two fragments of an insertion from `from` to `to`. The first one
    /// is in the run `i`, the second in the run `k`.
    fn move_border(
        &mut self,
        replica_id: ReplicaId,
        insertion_ts: InsertionTimestamp,
        from: Length,
        to: Length,
        Ghost(leaves): Ghost<Seq<EditRun>>,
        Ghost(i): Ghost<int>,
        Ghost(k): Ghost<int>,
    )
        requires
            indexes(old(self).fragments@, leaves),
            0 <= i < leaves.len(),
            0 <= k < leaves.len(),
            leaves[i].text.inserted_by == replica_id,
            leaves[k].text.inserted_by == replica_id,
            leaves[i].insertion_ts == insertion_ts,
            leaves[k].insertion_ts == insertion_ts,
            leaves[i].text.end == from,
            leaves[k].text.start == from,
            leaves[i].text.start < from < leaves[k].text.end,
            leaves[i].text.start < to < leaves[k].text.end,
        ensures
            indexes(
                final(self).fragments@,
                leaves.update(i, leaves[i].up_to(to as int)).update(k, leaves[k].from(to as int)),
            ),
            names_of(final(self).fragments@) == names_of(old(self).fragments@),
    {
        let ghost before = self.fragments@;
        let a: usize = self.position(
            replica_id,
            insertion_ts,
            from - 1,
            Ghost(leaves),
            Ghost(i),
        );
        let b: usize = self.position(replica_id, insertion_ts, from, Ghost(leaves), Ghost(k));
        let fa = self.fragments[a];
        let fb = self.fragments[b];
        self.fragments[a] = Fragment { end: to, ..fa };
        self.fragments[b] = Fragment { start: to, ..fb };
        proof {
            let after = self.fragments@;
            let changed = leaves.update(i, leaves[i].up_to(to as int)).update(
                k,
                leaves[k].from(to as int),
            );
            assert(i != k);
            assert(a < b) by {
                if b < a {
                    assert(in_order(before[b as int], before[a as int]));
                }
            }
            assert forall|l: int| 0 <= l < after.len() implies {
                &&& (#[trigger] after[l]).idx < changed.len()
                &&& after[l] == fragment_of(changed[after[l].idx as int], after[l].idx as int)
            } by {
                assert(after[l].idx == before[l].idx);
                if l != a && l != b {
                    assert(after[l] == before[l]);
                    if l < a {
                        assert(before[l].idx != before[a as int].idx);
                    } else {
                        assert(before[a as int].idx != before[l].idx);
                    }
                    if l < b {
                        assert(before[l].idx != before[b as int].idx);
                    } else {
                        assert(before[b as int].idx != before[l].idx);
                    }
                }
            }
            assert forall|l: int| 0 <= l < changed.len() implies #[trigger] indexed(after, l) by {
                assert(indexed(before, l));
                let m = choose|m: int| 0 <= m < before.len() && (#[trigger] before[m]).idx == l;
                assert(after[m].idx == l);
            }
            assert forall|l: int, m: int| 0 <= l < m < after.len() implies {
                &&& (#[trigger] after[l]).idx != (#[trigger] after[m]).idx
                &&& in_order(after[l], after[m])
            } by {
                assert(before[l].idx != before[m].idx);
                assert(in_order(before[l], before[m]));
                if l < b {
                    assert(in_order(before[l], before[b as int]));
                }
                if b < m {
                    assert(in_order(before[b as int], before[m]));
                }
                if l < a {
                    assert(in_order(before[l], before[a as int]));
                }
                if a < m {
                    assert(in_order(before[a as int], before[m]));
                }
            }
        }
    }

    /// Moves the first `len` characters of the fragment that starts at `offset` to the end of the
    /// one before it.
    pub fn move_len_to_prev_split(
        &mut self,
        replica_id: ReplicaId,
        insertion_ts: InsertionTimestamp,
        offset: Length,
        len: Length,
        Ghost(leaves): Ghost<Seq<EditRun>>,
        Ghost(i): Ghost<int>,
        Ghost(k): Ghost<int>,
    )
        requires
            indexes(old(self).fragments@, leaves),
            0 <= i < leaves.len(),
            0 <= k < leaves.len(),
            leaves[i].text.inserted_by == replica_id,
            leaves[k].text.inserted_by == replica_id,
            leaves[i].insertion_ts == insertion_ts,
            leaves[k].insertion_ts == insertion_ts,
            leaves[i].text.end == offset,
            leaves[k].text.start == offset,
            leaves[i].text.start < offset,
            offset + len < leaves[k].text.end,
        ensures
            indexes(
                final(self).fragments@,
                leaves.update(i, leaves[i].up_to(offset + len)).update(
                    k,
                    leaves[k].from(offset + len),
                ),
            ),
            names_of(final(self).fragments@) == names_of(old(self).fragments@),
    {
        self.move_border(
            replica_id,
            insertion_ts,
            offset,
            offset + len,
            Ghost(leaves),
            Ghost(i),
            Ghost(k),
        );
    }

    /// Moves the last `len` characters of the fragment that ends at `offset` to the start of the
    /// one after it.
    pub fn move_len_to_next_split(
        &mut self,
        replica_id: ReplicaId,
        insertion_ts: InsertionTimestamp,
        offset: Length,
        len: Length,
        Ghost(leaves): Ghost<Seq<EditRun>>,
        Ghost(i): Ghost<int>,
        Ghost(k): Ghost<int>,
    )
        requires
            indexes(old(self).fragments@, leaves),
            0 <= i < leaves.len(),
            0 <= k < leaves.len(),
            leaves[i].text.inserted_by == replica_id,
            leaves[k].text.inserted_by == replica_id,
            leaves[i].insertion_ts == insertion_ts,
            leaves[k].insertion_ts == insertion_ts,
            leaves[i].text.end == offset,
            leaves[k].text.start == offset,
            leaves[i].text.start < offset - len,
            offset < leaves[k].text.end,
        ensures
            indexes(
                final(self).fragments@,
                leaves.update(i, leaves[i].up_to(offset - len)).update(
                    k,
                    leaves[k].from(offset - len),
                ),
            ),
            names_of(final(self).fragments@) == names_of(old(self).fragments@),
    {
        self.move_border(
            replica_id,
            insertion_ts,
            offset,
            offset - len,
            Ghost(leaves),
            Ghost(i),
            Ghost(k),
        );
    }
}

} // verus!
