//! The identity of a peer.

use vstd::prelude::*;

verus! {

/// Identifies a replica. No two replicas of a session may share an id.
#[derive(Clone, Copy, Debug, PartialEq, Eq, PartialOrd, Ord, Hash, Structural)]
pub struct ReplicaId(pub u64);

impl ReplicaId {
    /// The id as a plain integer.
    pub fn as_u64(&self) -> (n: u64)
        ensures
            n == self.0,
    {
        self.0
    }
}

impl From<u64> for ReplicaId {
    fn from(id: u64) -> (r: ReplicaId) {
        ReplicaId(id)
    }
}

impl vstd::std_specs::convert::FromSpecImpl<u64> for ReplicaId {
    open spec fn obeys_from_spec() -> bool {
        true
    }

    open spec fn from_spec(id: u64) -> ReplicaId {
        ReplicaId(id)
    }
}

/// The id made of an integer is that integer, so that different integers are different ids.
pub proof fn law_ids_are_their_integers(n: u64)
    ensures
        <ReplicaId as vstd::std_specs::convert::FromSpec<u64>>::obeys_from_spec(),
        <ReplicaId as vstd::std_specs::convert::FromSpec<u64>>::from_spec(n).0 == n,
{
}

} // verus!
