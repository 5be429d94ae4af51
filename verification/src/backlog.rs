//! Edits that cannot be integrated yet.

use vstd::prelude::*;

use crate::crdt_edit::{Deletion, DeletionView, Insertion};
use crate::state::{awaits_deletion, awaits_insertion, same_deletion, same_insertion};
use crate::wire::{models, Wire};

verus! {

/// What deletions say.
pub open spec fn deletion_views(deletions: Seq<Deletion>) -> Seq<DeletionView> {
    Seq::new(deletions.len(), |i: int| deletions[i]@)
}

/// Edits that wait for what they depend on.
#[derive(Debug)]
pub struct BackLog {
    pub insertions: Vec<Insertion>,
    pub deletions: Vec<Deletion>,
}

impl BackLog {
    /// All edits may come from a replica.
    pub open spec fn wf(&self) -> bool {
        &&& forall|i: int|
            0 <= i < self.insertions@.len() ==> (#[trigger] self.insertions@[i]).wf()
        &&& forall|i: int|
            0 <= i < self.deletions@.len() ==> (#[trigger] self.deletions@[i])@.wf()
    }

    pub fn new() -> (backlog: BackLog)
        ensures
            backlog.wf(),
            backlog.insertions@ == Seq::<Insertion>::empty(),
            deletion_views(backlog.deletions@) == Seq::<DeletionView>::empty(),
    {
        let backlog = BackLog { insertions: Vec::new(), deletions: Vec::new() };
        assert(deletion_views(backlog.deletions@) =~= Seq::<DeletionView>::empty());
        backlog
    }

    pub fn duplicate(&self) -> (backlog: BackLog)
        ensures
            backlog.insertions@ == self.insertions@,
            deletion_views(backlog.deletions@) == deletion_views(self.deletions@),
            backlog.model() == self.model(),
            self.wf() ==> backlog.wf(),
    {
        let insertions = self.insertions.clone();
        assert(insertions@ =~= self.insertions@);
        let mut deletions: Vec<Deletion> = Vec::new();
        let mut i: usize = 0;
        while i < self.deletions.len()
            invariant
                i <= self.deletions@.len(),
                deletions@.len() == i,
                forall|j: int|
                    0 <= j < i ==> (#[trigger] deletions@[j])@ == self.deletions@[j]@
                        && deletions@[j].model() == self.deletions@[j].model(),
            decreases self.deletions@.len() - i,
        {
            deletions.push(self.deletions[i].duplicate());
            i = i + 1;
        }
        assert(deletion_views(deletions@) =~= deletion_views(self.deletions@));
        assert(models(deletions@) =~= models(self.deletions@));
        BackLog { insertions, deletions }
    }

    /// Lets an insertion wait, unless it does already.
    pub fn add_insertion(&mut self, insertion: Insertion)
        requires
            old(self).wf(),
            insertion.wf(),
        ensures
            final(self).wf(),
            final(self).deletions == old(self).deletions,
            awaits_insertion(old(self).insertions@, insertion) ==> *final(self) == *old(self),
            final(self).insertions@ == (if awaits_insertion(old(self).insertions@, insertion) {
                old(self).insertions@
            } else {
                old(self).insertions@.push(insertion)
            }),
    {
        let mut i: usize = 0;
        while i < self.insertions.len()
            invariant
                *self == *old(self),
                old(self).wf(),
                i <= self.insertions@.len(),
                forall|j: int|
                    0 <= j < i ==> !same_insertion(#[trigger] self.insertions@[j], insertion),
            decreases self.insertions@.len() - i,
        {
            let other = self.insertions[i];
            if other.text.inserted_by == insertion.text.inserted_by && other.text.start
                == insertion.text.start {
                assert(same_insertion(self.insertions@[i as int], insertion));
                return ;
            }
            i = i + 1;
        }
        self.insertions.push(insertion);
    }

    /// Lets a deletion wait, unless it does already.
    pub fn add_deletion(&mut self, deletion: Deletion)
        requires
            old(self).wf(),
            deletion@.wf(),
        ensures
            final(self).wf(),
            final(self).insertions == old(self).insertions,
            awaits_deletion(deletion_views(old(self).deletions@), deletion@) ==> *final(self)
                == *old(self),
            !awaits_deletion(deletion_views(old(self).deletions@), deletion@)
                ==> final(self).deletions@ == old(self).deletions@.push(deletion),
            deletion_views(final(self).deletions@) == (if awaits_deletion(
                deletion_views(old(self).deletions@),
                deletion@,
            ) {
                deletion_views(old(self).deletions@)
            } else {
                deletion_views(old(self).deletions@).push(deletion@)
            }),
    {
        let ghost views = deletion_views(self.deletions@);
        let mut i: usize = 0;
        while i < self.deletions.len()
            invariant
                *self == *old(self),
                old(self).wf(),
                views == deletion_views(self.deletions@),
                i <= self.deletions@.len(),
                forall|j: int| 0 <= j < i ==> !same_deletion(#[trigger] views[j], deletion@),
            decreases self.deletions@.len() - i,
        {
            if self.deletions[i].deleted_by() == deletion.deleted_by()
                && self.deletions[i].deletion_ts == deletion.deletion_ts {
                assert(same_deletion(views[i as int], deletion@));
                return ;
            }
            i = i + 1;
        }
        self.deletions.push(deletion);
        assert(deletion_views(self.deletions@) =~= views.push(deletion@));
    }

    /// Takes out the insertion at an index.
    pub fn remove_insertion(&mut self, i: usize) -> (insertion: Insertion)
        requires
            old(self).wf(),
            i < old(self).insertions@.len(),
        ensures
            final(self).wf(),
            final(self).deletions == old(self).deletions,
            insertion == old(self).insertions@[i as int],
            final(self).insertions@ == old(self).insertions@.remove(i as int),
    {
        self.insertions.remove(i)
    }

    /// Takes out the deletion at an index.
    pub fn remove_deletion(&mut self, i: usize) -> (deletion: Deletion)
        requires
            old(self).wf(),
            i < old(self).deletions@.len(),
        ensures
            final(self).wf(),
            final(self).insertions == old(self).insertions,
            deletion == old(self).deletions@[i as int],
            final(self).deletions@ == old(self).deletions@.remove(i as int),
            deletion@ == deletion_views(old(self).deletions@)[i as int],
            deletion_views(final(self).deletions@) == deletion_views(
                old(self).deletions@,
            ).remove(i as int),
            deletion@.wf(),
    {
        let deletion = self.deletions.remove(i);
        assert(deletion_views(self.deletions@) =~= deletion_views(old(self).deletions@).remove(
            i as int,
        ));
        deletion
    }
}

} // verus!
