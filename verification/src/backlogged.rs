//! The edits that have waited long enough.

use vstd::prelude::*;

use crate::laws::law_drained_edits_keep_the_buffer_up_to_date;
use crate::model::apply_text_edit;
use crate::replica::Replica;
use crate::text::TextEdit;

verus! {

/// Integrates the edits that a replica has let wait, one at a time.
///
/// The text edits have to be applied to the buffer in the order in which they come.
pub struct BackLogged<'a> {
    pub replica: &'a mut Replica,
}

impl<'a> BackLogged<'a> {
    pub fn from_replica(replica: &'a mut Replica) -> (backlogged: BackLogged<'a>)
        ensures
            *backlogged.replica == *old(replica),
            *final(replica) == *final(backlogged.replica),
    {
        BackLogged { replica }
    }

    /// Integrates the first edit that can be, and tells how the buffer has to change.
    ///
    /// Insertions come before deletions; `None` says that every edit that is left still has to
    /// wait.
    pub fn next(&mut self) -> (edit: Option<TextEdit>)
        requires
            old(self).replica.wf(),
            forall|i: int|
                #[trigger] old(self).replica@.first_ready_insertion(i) ==> old(
                    self,
                ).replica@.has_room_for(old(self).replica@.pending_insertions[i]),
        ensures
            *final(final(self).replica) == *final(old(self).replica),
            final(self).replica.wf(),
            old(self).replica@.drains_into(final(self).replica@, edit),
            old(self).replica.parts().drains_into(final(self).replica.parts()),
            edit is None ==> *final(self).replica == *old(self).replica,
            edit matches Some(edit) ==> final(self).replica@.buffer() == apply_text_edit(
                old(self).replica@.buffer(),
                edit,
            ),
    {
        let ghost before = *self.replica;
        let edit = self.replica.merge_next_backlogged();
        proof {
            before.lemma_wf();
            law_drained_edits_keep_the_buffer_up_to_date(before@, self.replica@, edit);
        }
        edit
    }
}

impl Replica {
    /// The edits that [`merge`](Replica::merge) has let wait and that can be integrated now.
    pub fn backlogged(&mut self) -> (backlogged: BackLogged<'_>)
        ensures
            *backlogged.replica == *old(self),
            *final(self) == *final(backlogged.replica),
    {
        BackLogged::from_replica(self)
    }
}

} // verus!
