//! Places in the text that stay meaningful while it is edited concurrently.

use vstd::prelude::*;

use crate::replica_id::ReplicaId;
use crate::text::Length;

verus! {

/// A place next to a character, named by the replica that inserted the character and by a position
/// among the characters that this replica has inserted over time.
///
/// The anchor `(r, n)` lies between the characters `n - 1` and `n` of replica `r`. An insertion
/// goes after the former; a deletion starts at the latter and ends at the former.
#[derive(Clone, Copy, Debug, PartialEq, Eq, Structural)]
pub struct Anchor {
    pub replica_id: ReplicaId,
    pub character_ts: Length,
}

impl Anchor {
    pub fn new(replica_id: ReplicaId, character_ts: Length) -> (anchor: Anchor)
        ensures
            anchor == (Anchor { replica_id, character_ts }),
    {
        Anchor { replica_id, character_ts }
    }

    /// The start of the text.
    #[verifier::when_used_as_spec(spec_origin)]
    pub fn origin() -> (anchor: Anchor)
        ensures
            anchor == Anchor::spec_origin(),
    {
        Anchor { replica_id: ReplicaId(0), character_ts: 0 }
    }

    /// What [`origin`](Anchor::origin) returns.
    pub open spec fn spec_origin() -> Anchor {
        Anchor { replica_id: ReplicaId(0), character_ts: 0 }
    }

    /// Whether an insertion at this anchor goes to the start of the text.
    #[verifier::when_used_as_spec(spec_is_origin)]
    pub fn is_origin(&self) -> (b: bool)
        ensures
            b == self.spec_is_origin(),
    {
        self.character_ts == 0
    }

    /// What [`is_origin`](Anchor::is_origin) returns.
    pub open spec fn spec_is_origin(&self) -> bool {
        self.character_ts == 0
    }

    pub fn replica_id(&self) -> (id: ReplicaId)
        ensures
            id == self.replica_id,
    {
        self.replica_id
    }

    pub fn character_ts(&self) -> (ts: Length)
        ensures
            ts == self.character_ts,
    {
        self.character_ts
    }
}

} // verus!
