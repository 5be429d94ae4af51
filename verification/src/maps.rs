//! Maps from replicas to what is known of them.

use vstd::prelude::*;

use crate::clocks::DeletionTs;
use crate::replica_id::ReplicaId;
use crate::text::Length;

verus! {

/// The value that a list of entries gives to a replica: that of the last entry for it.
pub open spec fn lookup<T>(entries: Seq<(ReplicaId, T)>, id: ReplicaId) -> Option<T>
    decreases entries.len(),
{
    if entries.len() == 0 {
        None
    } else if entries.last().0 == id {
        Some(entries.last().1)
    } else {
        lookup(entries.drop_last(), id)
    }
}

/// The index of the last entry for a replica, -1 if there is none.
pub open spec fn last_entry<T>(entries: Seq<(ReplicaId, T)>, id: ReplicaId) -> int
    decreases entries.len(),
{
    if entries.len() == 0 {
        -1
    } else if entries.last().0 == id {
        entries.len() - 1
    } else {
        last_entry(entries.drop_last(), id)
    }
}

/// The entries with a new value for a replica: in place of its last one, or at the end.
pub open spec fn with_entry<T>(
    entries: Seq<(ReplicaId, T)>,
    id: ReplicaId,
    value: T,
) -> Seq<(ReplicaId, T)> {
    if last_entry(entries, id) < 0 {
        entries.push((id, value))
    } else {
        entries.update(last_entry(entries, id), (id, value))
    }
}

proof fn lemma_lookup_none<T>(entries: Seq<(ReplicaId, T)>, id: ReplicaId)
    requires
        forall|j: int| 0 <= j < entries.len() ==> (#[trigger] entries[j]).0 != id,
    ensures
        lookup(entries, id) is None,
        last_entry(entries, id) == -1,
    decreases entries.len(),
{
    if entries.len() > 0 {
        lemma_lookup_none(entries.drop_last(), id);
    }
}

proof fn lemma_lookup_at<T>(entries: Seq<(ReplicaId, T)>, i: int)
    requires
        0 <= i < entries.len(),
        forall|j: int| i < j < entries.len() ==> (#[trigger] entries[j]).0 != entries[i].0,
    ensures
        lookup(entries, entries[i].0) == Some(entries[i].1),
        last_entry(entries, entries[i].0) == i,
    decreases entries.len(),
{
    if i < entries.len() - 1 {
        assert(entries.last().0 != entries[i].0);
        lemma_lookup_at(entries.drop_last(), i);
    }
}

/// A replica without an entry has no value.
pub proof fn lemma_lookup_some<T>(entries: Seq<(ReplicaId, T)>, id: ReplicaId)
    requires
        lookup(entries, id) is Some,
    ensures
        exists|j: int| 0 <= j < entries.len() && (#[trigger] entries[j]).0 == id,
    decreases entries.len(),
{
    if entries.last().0 == id {
        assert(entries[entries.len() - 1].0 == id);
    } else {
        lemma_lookup_some(entries.drop_last(), id);
        let j = choose|j: int|
            0 <= j < entries.drop_last().len() && (#[trigger] entries.drop_last()[j]).0 == id;
        assert(entries[j].0 == id);
    }
}

proof fn lemma_lookup_update<T>(entries: Seq<(ReplicaId, T)>, i: int, value: T, id: ReplicaId)
    requires
        0 <= i < entries.len(),
        forall|j: int| i < j < entries.len() ==> (#[trigger] entries[j]).0 != entries[i].0,
    ensures
        lookup(entries.update(i, (entries[i].0, value)), id) == if id == entries[i].0 {
            Some(value)
        } else {
            lookup(entries, id)
        },
    decreases entries.len(),
{
    let updated = entries.update(i, (entries[i].0, value));
    if i < entries.len() - 1 {
        assert(entries.last().0 != entries[i].0);
        assert(updated.drop_last() =~= entries.drop_last().update(i, (entries[i].0, value)));
        lemma_lookup_update(entries.drop_last(), i, value, id);
    } else {
        assert(updated.drop_last() =~= entries.drop_last());
    }
}

/// A list of entries that is searched from its end.
#[derive(Debug)]
pub struct IdMap<T> {
    pub entries: Vec<(ReplicaId, T)>,
}

impl<T: Copy> IdMap<T> {
    pub fn new() -> (map: IdMap<T>)
        ensures
            map.entries@.len() == 0,
    {
        IdMap { entries: Vec::new() }
    }

    pub fn get(&self, id: ReplicaId) -> (value: Option<T>)
        ensures
            value == lookup(self.entries@, id),
    {
        let mut i: usize = self.entries.len();
        while i > 0
            invariant
                i <= self.entries@.len(),
                forall|j: int|
                    i <= j < self.entries@.len() ==> (#[trigger] self.entries@[j]).0 != id,
            decreases i,
        {
            i = i - 1;
            if self.entries[i].0 == id {
                proof {
                    lemma_lookup_at(self.entries@, i as int);
                }
                return Some(self.entries[i].1);
            }
        }
        proof {
            lemma_lookup_none(self.entries@, id);
        }
        None
    }

    pub fn set(&mut self, id: ReplicaId, value: T)
        ensures
            final(self).entries@ == with_entry(old(self).entries@, id, value),
            forall|other: ReplicaId|
                #[trigger] lookup(final(self).entries@, other) == if other == id {
                    Some(value)
                } else {
                    lookup(old(self).entries@, other)
                },
    {
        let mut i: usize = self.entries.len();
        while i > 0
            invariant
                self.entries@ == old(self).entries@,
                i <= self.entries@.len(),
                forall|j: int|
                    i <= j < self.entries@.len() ==> (#[trigger] self.entries@[j]).0 != id,
            decreases i,
        {
            i = i - 1;
            if self.entries[i].0 == id {
                proof {
                    lemma_lookup_at(self.entries@, i as int);
                    assert forall|other: ReplicaId| #[trigger]
                        lookup(self.entries@.update(i as int, (id, value)), other) == if other
                            == id {
                            Some(value)
                        } else {
                            lookup(self.entries@, other)
                        } by {
                        lemma_lookup_update(self.entries@, i as int, value, other);
                    }
                }
                self.entries[i] = (id, value);
                return ;
            }
        }
        proof {
            lemma_lookup_none(self.entries@, id);
        }
        self.entries.push((id, value));
        assert(self.entries@.drop_last() =~= old(self).entries@);
    }

    pub fn duplicate(&self) -> (map: IdMap<T>)
        ensures
            map.entries@ == self.entries@,
    {
        let mut entries: Vec<(ReplicaId, T)> = Vec::new();
        let mut i: usize = 0;
        while i < self.entries.len()
            invariant
                i <= self.entries@.len(),
                entries@ == self.entries@.take(i as int),
            decreases self.entries@.len() - i,
        {
            entries.push((self.entries[i].0, self.entries[i].1));
            i = i + 1;
            assert(entries@ =~= self.entries@.take(i as int));
        }
        assert(entries@ =~= self.entries@);
        IdMap { entries }
    }
}

/// How many characters inserted by each replica have been integrated.
#[derive(Debug)]
pub struct VersionMap {
    pub this_id: ReplicaId,
    pub this_value: Length,
    pub rest: IdMap<Length>,
}

impl VersionMap {
    /// The number of characters of the given replica.
    pub open spec fn spec_get(&self, id: ReplicaId) -> Length {
        if id == self.this_id {
            self.this_value
        } else {
            match lookup(self.rest.entries@, id) {
                Some(n) => n,
                None => 0,
            }
        }
    }

    pub open spec fn view(&self) -> Map<ReplicaId, int> {
        Map::total(|id: ReplicaId| self.spec_get(id) as int)
    }

    pub fn new(this_id: ReplicaId, this_value: Length) -> (map: VersionMap)
        ensures
            map.this_id == this_id,
            map.this_value == this_value,
            map.rest.entries@ == Seq::<(ReplicaId, Length)>::empty(),
            map@ == Map::total(|id: ReplicaId| 0int).insert(this_id, this_value as int),
    {
        let map = VersionMap { this_id, this_value, rest: IdMap::new() };
        assert(map@ =~= Map::total(|id: ReplicaId| 0int).insert(this_id, this_value as int));
        map
    }

    /// The value of the replica that owns the map.
    pub fn this(&self) -> (value: Length)
        ensures
            value == self.this_value,
            value == self@[self.this_id],
    {
        self.this_value
    }

    /// The value of the replica that owns the map, for changing it.
    pub fn this_mut(&mut self) -> (value: &mut Length)
        ensures
            *value == old(self).this_value,
            final(self).this_id == old(self).this_id,
            final(self).this_value == *final(value),
            final(self).rest == old(self).rest,
            final(self)@ == old(self)@.insert(old(self).this_id, *final(value) as int),
    {
        &mut self.this_value
    }

    pub fn get(&self, id: ReplicaId) -> (value: Length)
        ensures
            value == self@[id],
    {
        if id == self.this_id {
            self.this_value
        } else {
            match self.rest.get(id) {
                Some(value) => value,
                None => 0,
            }
        }
    }

    pub fn set(&mut self, id: ReplicaId, value: Length)
        ensures
            final(self).this_id == old(self).this_id,
            final(self).this_value == if id == old(self).this_id {
                value
            } else {
                old(self).this_value
            },
            final(self).rest.entries@ == if id == old(self).this_id {
                old(self).rest.entries@
            } else {
                with_entry(old(self).rest.entries@, id, value)
            },
            final(self)@ == old(self)@.insert(id, value as int),
    {
        if id == self.this_id {
            self.this_value = value;
        } else {
            self.rest.set(id, value);
        }
        assert(self@ =~= old(self)@.insert(id, value as int));
    }

    /// Hands the map over to the replica `new_id`, which starts at `restart_at`.
    pub fn fork_in_place(&mut self, new_id: ReplicaId, restart_at: Length)
        ensures
            final(self).this_id == new_id,
            final(self).this_value == restart_at,
            final(self).rest.entries@ == with_entry(
                old(self).rest.entries@,
                old(self).this_id,
                old(self).this_value,
            ),
            final(self)@ == old(self)@.insert(new_id, restart_at as int),
    {
        self.rest.set(self.this_id, self.this_value);
        self.this_id = new_id;
        self.this_value = restart_at;
        assert(self@ =~= old(self)@.insert(new_id, restart_at as int));
    }

    /// A copy of the map for the replica `new_id`, which starts at `restart_at`.
    pub fn fork(&self, new_id: ReplicaId, restart_at: Length) -> (map: VersionMap)
        ensures
            map.this_id == new_id,
            map.this_value == restart_at,
            map.rest.entries@ == with_entry(self.rest.entries@, self.this_id, self.this_value),
            map@ == self@.insert(new_id, restart_at as int),
    {
        let mut map = self.duplicate();
        map.fork_in_place(new_id, restart_at);
        map
    }

    pub fn duplicate(&self) -> (map: VersionMap)
        ensures
            map.this_id == self.this_id,
            map.this_value == self.this_value,
            map.rest.entries@ == self.rest.entries@,
            map@ == self@,
    {
        let map = VersionMap {
            this_id: self.this_id,
            this_value: self.this_value,
            rest: self.rest.duplicate(),
        };
        assert(map@ =~= self@);
        map
    }

    /// Whether no replica has a larger value in `other` than in this map.
    pub fn dominates(&self, other: &VersionMap) -> (b: bool)
        ensures
            b == forall|id: ReplicaId| #[trigger] self@[id] >= other@[id],
    {
        if self.get(other.this_id) < other.this_value {
            assert(self@[other.this_id] < other@[other.this_id]);
            return false;
        }
        let mut i: usize = 0;
        while i < other.rest.entries.len()
            invariant
                i <= other.rest.entries@.len(),
                self@[other.this_id] >= other@[other.this_id],
                forall|j: int|
                    0 <= j < i ==> self@[(#[trigger] other.rest.entries@[j]).0]
                        >= other@[other.rest.entries@[j].0],
            decreases other.rest.entries@.len() - i,
        {
            let id = other.rest.entries[i].0;
            if self.get(id) < other.get(id) {
                return false;
            }
            i = i + 1;
        }
        assert forall|id: ReplicaId| #[trigger] self@[id] >= other@[id] by {
            if id != other.this_id && lookup(other.rest.entries@, id) is Some {
                lemma_lookup_some(other.rest.entries@, id);
            }
        }
        true
    }
}

/// The timestamp of the deletion before the next one, 0 if there is none.
pub open spec fn last_before(next: DeletionTs) -> DeletionTs {
    if next == 0 {
        0
    } else {
        (next - 1) as u64
    }
}

/// Which deletions of each replica have been integrated.
///
/// For the replica that owns the map it holds the timestamp that the next deletion gets.
#[derive(Debug)]
pub struct DeletionMap {
    pub this_id: ReplicaId,
    pub this_value: DeletionTs,
    pub rest: IdMap<DeletionTs>,
}

impl DeletionMap {
    pub open spec fn wf(&self) -> bool {
        1 <= self.this_value
    }

    /// The timestamp of the last integrated deletion of the given replica, 0 if there is none.
    pub open spec fn spec_get(&self, id: ReplicaId) -> int {
        if id == self.this_id {
            last_before(self.this_value) as int
        } else {
            match lookup(self.rest.entries@, id) {
                Some(n) => n as int,
                None => 0,
            }
        }
    }

    pub open spec fn view(&self) -> Map<ReplicaId, int> {
        Map::total(|id: ReplicaId| self.spec_get(id))
    }

    pub fn new(this_id: ReplicaId, this_value: DeletionTs) -> (map: DeletionMap)
        ensures
            map.this_id == this_id,
            map.this_value == this_value,
            map.rest.entries@ == Seq::<(ReplicaId, DeletionTs)>::empty(),
            map@ == Map::total(|id: ReplicaId| 0int).insert(
                this_id,
                last_before(this_value) as int,
            ),
    {
        let map = DeletionMap { this_id, this_value, rest: IdMap::new() };
        assert(map@ =~= Map::total(|id: ReplicaId| 0int).insert(
            this_id,
            last_before(this_value) as int,
        ));
        map
    }

    /// The timestamp that the next deletion of this replica gets.
    pub fn this(&self) -> (ts: DeletionTs)
        ensures
            ts == self.this_value,
            self.wf() ==> ts == self@[self.this_id] + 1,
    {
        self.this_value
    }

    /// The timestamp that the next deletion of this replica gets, for changing it.
    pub fn this_mut(&mut self) -> (ts: &mut DeletionTs)
        ensures
            *ts == old(self).this_value,
            final(self).this_id == old(self).this_id,
            final(self).this_value == *final(ts),
            final(self).rest == old(self).rest,
            final(self)@ == old(self)@.insert(old(self).this_id, last_before(*final(ts)) as int),
    {
        &mut self.this_value
    }

    /// The timestamp of the last deletion of this replica, 0 if there is none.
    fn last(&self) -> (ts: DeletionTs)
        ensures
            ts == last_before(self.this_value),
    {
        if self.this_value == 0 {
            0
        } else {
            self.this_value - 1
        }
    }

    /// The timestamp of the last integrated deletion of the given replica, 0 if there is none.
    pub fn get(&self, id: ReplicaId) -> (ts: DeletionTs)
        ensures
            ts == self@[id],
    {
        if id == self.this_id {
            self.last()
        } else {
            match self.rest.get(id) {
                Some(ts) => ts,
                None => 0,
            }
        }
    }

    /// Records a deletion of the given replica as integrated.
    pub fn set(&mut self, id: ReplicaId, ts: DeletionTs)
        requires
            old(self).wf(),
            ts < u64::MAX,
        ensures
            final(self).wf(),
            final(self).this_id == old(self).this_id,
            final(self).this_value == if id == old(self).this_id {
                (ts + 1) as u64
            } else {
                old(self).this_value
            },
            final(self).rest.entries@ == if id == old(self).this_id {
                old(self).rest.entries@
            } else {
                with_entry(old(self).rest.entries@, id, ts)
            },
            final(self)@ == old(self)@.insert(id, ts as int),
    {
        if id == self.this_id {
            self.this_value = ts + 1;
        } else {
            self.rest.set(id, ts);
        }
        assert(self@ =~= old(self)@.insert(id, ts as int));
    }

    /// Hands the map over to the replica `new_id`, which starts at `restart_at`.
    pub fn fork_in_place(&mut self, new_id: ReplicaId, restart_at: DeletionTs)
        ensures
            final(self).this_id == new_id,
            final(self).this_value == restart_at,
            final(self).rest.entries@ == with_entry(
                old(self).rest.entries@,
                old(self).this_id,
                last_before(old(self).this_value),
            ),
            final(self)@ == old(self)@.insert(new_id, last_before(restart_at) as int),
    {
        let last: u64 = self.last();
        self.rest.set(self.this_id, last);
        self.this_id = new_id;
        self.this_value = restart_at;
        assert(self@ =~= old(self)@.insert(new_id, last_before(restart_at) as int));
    }

    /// A copy of the map for the replica `new_id`, which starts at `restart_at`.
    pub fn fork(&self, new_id: ReplicaId, restart_at: DeletionTs) -> (map: DeletionMap)
        ensures
            map.this_id == new_id,
            map.this_value == restart_at,
            map.rest.entries@ == with_entry(
                self.rest.entries@,
                self.this_id,
                last_before(self.this_value),
            ),
            map@ == self@.insert(new_id, last_before(restart_at) as int),
    {
        let mut map = DeletionMap {
            this_id: self.this_id,
            this_value: self.this_value,
            rest: self.rest.duplicate(),
        };
        assert(map@ =~= self@);
        map.fork_in_place(new_id, restart_at);
        map
    }
}

} // verus!
