//! The logical clocks of a replica.

use vstd::prelude::*;

verus! {

/// A point in the causal order of insertions across the replicas of a session.
pub type LamportTimestamp = u64;

/// Counts the insertions made by a single replica.
pub type InsertionTimestamp = u64;

/// Counts the deletions made by a single replica.
pub type DeletionClock = u64;

/// The position of a deletion among those of its replica, starting at 1.
pub type DeletionTs = DeletionClock;

/// A Lamport clock. Its value is the timestamp that the next insertion gets.
#[derive(Clone, Copy, Debug, PartialEq, Eq, Structural)]
pub struct LamportClock(pub u64);

impl Default for LamportClock {
    fn default() -> (clock: LamportClock)
        ensures
            clock.0 == 0,
    {
        LamportClock(0)
    }
}

impl LamportClock {
    /// A clock that has not issued any timestamp.
    pub fn new() -> (clock: LamportClock)
        ensures
            clock.0 == 0,
    {
        LamportClock::default()
    }

    /// The clock of a replica forked from the one that owns this clock.
    pub fn fork(&self) -> (clock: LamportClock)
        requires
            self.0 < u64::MAX,
        ensures
            clock.0 == self.0 + 1,
    {
        LamportClock(self.0 + 1)
    }

    /// The timestamp that precedes the next one, 0 if there is none.
    #[verifier::when_used_as_spec(spec_last)]
    pub fn last(&self) -> (ts: LamportTimestamp)
        ensures
            ts == self.spec_last(),
            self.0 == 0 ==> ts == 0,
            self.0 > 0 ==> ts == self.0 - 1,
    {
        if self.0 == 0 {
            0
        } else {
            self.0 - 1
        }
    }

    /// What [`last`](LamportClock::last) returns.
    pub open spec fn spec_last(&self) -> LamportTimestamp {
        if self.0 == 0 {
            0
        } else {
            (self.0 - 1) as u64
        }
    }

    /// Issues the next timestamp.
    pub fn next(&mut self) -> (ts: LamportTimestamp)
        requires
            old(self).0 < u64::MAX,
        ensures
            ts == old(self).0,
            final(self).0 == old(self).0 + 1,
            final(self).last() == ts,
    {
        let next: u64 = self.0;
        self.0 = next + 1;
        next
    }

    /// Moves the clock past a timestamp issued by another replica.
    pub fn update(&mut self, other: LamportTimestamp)
        requires
            old(self).0 < u64::MAX,
            other < u64::MAX,
        ensures
            final(self).0 == (if old(self).0 >= other {
                old(self).0 as int
            } else {
                other as int
            }) + 1,
    {
        if self.0 < other {
            self.0 = other;
        }
        self.0 = self.0 + 1;
    }
}

/// The last timestamp of a clock is the one before the next, and 0 before there is one.
pub proof fn law_the_last_timestamp_is_before_the_next(
    lamport_clock: LamportClock,
    insertion_clock: InsertionClock,
)
    ensures
        lamport_clock.0 > 0 ==> lamport_clock.last() + 1 == lamport_clock.0,
        lamport_clock.0 == 0 ==> lamport_clock.last() == 0,
        insertion_clock.0 > 0 ==> insertion_clock.last() + 1 == insertion_clock.0,
        insertion_clock.0 == 0 ==> insertion_clock.last() == 0,
{
}

/// Counts the insertions of the replica that owns it.
#[derive(Clone, Copy, Debug, PartialEq, Eq, Structural)]
pub struct InsertionClock(pub u64);

impl Default for InsertionClock {
    fn default() -> (clock: InsertionClock)
        ensures
            clock.0 == 0,
    {
        InsertionClock(0)
    }
}

impl InsertionClock {
    /// A clock that has not issued any timestamp.
    pub fn new() -> (clock: InsertionClock)
        ensures
            clock.0 == 0,
    {
        InsertionClock::default()
    }

    /// The timestamp that precedes the next one, 0 if there is none.
    #[verifier::when_used_as_spec(spec_last)]
    pub fn last(&self) -> (ts: InsertionTimestamp)
        ensures
            ts == self.spec_last(),
            self.0 == 0 ==> ts == 0,
            self.0 > 0 ==> ts == self.0 - 1,
    {
        if self.0 == 0 {
            0
        } else {
            self.0 - 1
        }
    }

    /// What [`last`](InsertionClock::last) returns.
    pub open spec fn spec_last(&self) -> InsertionTimestamp {
        if self.0 == 0 {
            0
        } else {
            (self.0 - 1) as u64
        }
    }

    /// Issues the next timestamp.
    pub fn next(&mut self) -> (ts: InsertionTimestamp)
        requires
            old(self).0 < u64::MAX,
        ensures
            ts == old(self).0,
            final(self).0 == old(self).0 + 1,
            final(self).last() == ts,
    {
        let next: u64 = self.0;
        self.0 = next + 1;
        next
    }
}

} // verus!
