//! Values as sequences of 64-bit words.

use vstd::prelude::*;

use crate::anchor::Anchor;
use crate::backlog::BackLog;
use crate::crdt_edit::{Deletion, Insertion};
use crate::edit_run::EditRun;
use crate::maps::{DeletionMap, IdMap, VersionMap};
use crate::replica_id::ReplicaId;
use crate::run_indices::{Fragment, RunIndices};
use crate::run_tree::RunTree;
use crate::text::Text;

verus! {

/// A value that can be written as words and read back.
pub trait Wire: Sized {
    /// What is written of a value.
    type Model;

    spec fn model(&self) -> Self::Model;

    /// The words that a value is written as.
    spec fn words(m: Self::Model) -> Seq<u64>;

    /// The value that some words start with, and the words after it.
    spec fn read(s: Seq<u64>) -> Option<(Self::Model, Seq<u64>)>;

    /// Whether a value may be the model of one.
    spec fn fits(m: Self::Model) -> bool;

    proof fn lemma_fits(&self)
        ensures
            Self::fits(self.model()),
    ;

    /// What is written is read back.
    proof fn lemma_round_trip(m: Self::Model, rest: Seq<u64>)
        requires
            Self::fits(m),
        ensures
            Self::read(Self::words(m) + rest) == Some((m, rest)),
    ;

    /// What is read is what would be written.
    proof fn lemma_read(s: Seq<u64>)
        ensures
            Self::read(s) matches Some((m, rest)) ==> s == Self::words(m) + rest,
    ;

    /// Writes a value at the end of some words.
    fn put(&self, out: &mut Vec<u64>)
        ensures
            final(out)@ == old(out)@ + Self::words(self.model()),
    ;

    /// Reads a value from a position on.
    fn take(words: &Vec<u64>, pos: usize) -> (res: Option<(Self, usize)>)
        requires
            pos <= words@.len(),
        ensures
            match Self::read(words@.skip(pos as int)) {
                Some((m, rest)) => {
                    &&& res matches Some((value, end))
                    &&& value.model() == m
                    &&& end <= words@.len()
                    &&& rest == words@.skip(end as int)
                },
                None => res is None,
            },
    ;
}

impl Wire for u64 {
    type Model = u64;

    open spec fn model(&self) -> u64 {
        *self
    }

    open spec fn words(m: u64) -> Seq<u64> {
        seq![m]
    }

    open spec fn read(s: Seq<u64>) -> Option<(u64, Seq<u64>)> {
        if s.len() == 0 {
            None
        } else {
            Some((s[0], s.skip(1)))
        }
    }

    open spec fn fits(m: u64) -> bool {
        true
    }

    proof fn lemma_fits(&self) {
    }

    proof fn lemma_round_trip(m: u64, rest: Seq<u64>) {
        assert((seq![m] + rest).skip(1) =~= rest);
    }

    proof fn lemma_read(s: Seq<u64>) {
        if s.len() > 0 {
            assert(s =~= seq![s[0]] + s.skip(1));
        }
    }

    fn put(&self, out: &mut Vec<u64>) {
        out.push(*self);
        assert(Self::words(self.model()) == seq![*self]);
        assert(out@ =~= old(out)@ + Self::words(self.model()));
    }

    fn take(words: &Vec<u64>, pos: usize) -> (res: Option<(u64, usize)>) {
        if pos < words.len() {
            assert(words@.skip(pos as int).skip(1) =~= words@.skip(pos + 1));
            Some((words[pos], pos + 1))
        } else {
            None
        }
    }
}

impl Wire for usize {
    type Model = usize;

    open spec fn model(&self) -> usize {
        *self
    }

    open spec fn words(m: usize) -> Seq<u64> {
        seq![m as u64]
    }

    open spec fn read(s: Seq<u64>) -> Option<(usize, Seq<u64>)> {
        if s.len() == 0 || s[0] > usize::MAX {
            None
        } else {
            Some((s[0] as usize, s.skip(1)))
        }
    }

    open spec fn fits(m: usize) -> bool {
        true
    }

    proof fn lemma_fits(&self) {
    }

    proof fn lemma_round_trip(m: usize, rest: Seq<u64>) {
        assert((seq![m as u64] + rest).skip(1) =~= rest);
    }

    proof fn lemma_read(s: Seq<u64>) {
        if s.len() > 0 && s[0] <= usize::MAX {
            assert(s =~= Self::words(s[0] as usize) + s.skip(1));
        }
    }

    fn put(&self, out: &mut Vec<u64>) {
        (*self as u64).put(out);
    }

    fn take(words: &Vec<u64>, pos: usize) -> (res: Option<(usize, usize)>) {
        match u64::take(words, pos) {
            Some((word, end)) => {
                if word <= usize::MAX as u64 {
                    Some((word as usize, end))
                } else {
                    None
                }
            },
            None => None,
        }
    }
}

impl Wire for bool {
    type Model = bool;

    open spec fn model(&self) -> bool {
        *self
    }

    open spec fn words(m: bool) -> Seq<u64> {
        seq![if m { 1u64 } else { 0u64 }]
    }

    open spec fn read(s: Seq<u64>) -> Option<(bool, Seq<u64>)> {
        if s.len() == 0 || s[0] > 1 {
            None
        } else {
            Some((s[0] == 1, s.skip(1)))
        }
    }

    open spec fn fits(m: bool) -> bool {
        true
    }

    proof fn lemma_fits(&self) {
    }

    proof fn lemma_round_trip(m: bool, rest: Seq<u64>) {
        assert((Self::words(m) + rest).skip(1) =~= rest);
    }

    proof fn lemma_read(s: Seq<u64>) {
        if s.len() > 0 && s[0] <= 1 {
            assert(s =~= Self::words(s[0] == 1) + s.skip(1));
        }
    }

    fn put(&self, out: &mut Vec<u64>) {
        let word: u64 = if *self {
            1
        } else {
            0
        };
        word.put(out);
    }

    fn take(words: &Vec<u64>, pos: usize) -> (res: Option<(bool, usize)>) {
        match u64::take(words, pos) {
            Some((word, end)) => {
                if word <= 1 {
                    Some((word == 1, end))
                } else {
                    None
                }
            },
            None => None,
        }
    }
}

impl<A: Wire, B: Wire> Wire for (A, B) {
    type Model = (A::Model, B::Model);

    open spec fn model(&self) -> (A::Model, B::Model) {
        (self.0.model(), self.1.model())
    }

    open spec fn words(m: (A::Model, B::Model)) -> Seq<u64> {
        A::words(m.0) + B::words(m.1)
    }

    open spec fn read(s: Seq<u64>) -> Option<((A::Model, B::Model), Seq<u64>)> {
        match A::read(s) {
            Some((a, rest)) => match B::read(rest) {
                Some((b, rest)) => Some(((a, b), rest)),
                None => None,
            },
            None => None,
        }
    }

    open spec fn fits(m: (A::Model, B::Model)) -> bool {
        A::fits(m.0) && B::fits(m.1)
    }

    proof fn lemma_fits(&self) {
        self.0.lemma_fits();
        self.1.lemma_fits();
    }

    proof fn lemma_round_trip(m: (A::Model, B::Model), rest: Seq<u64>) {
        A::lemma_round_trip(m.0, B::words(m.1) + rest);
        B::lemma_round_trip(m.1, rest);
        assert(A::words(m.0) + B::words(m.1) + rest =~= A::words(m.0) + (B::words(m.1) + rest));
    }

    proof fn lemma_read(s: Seq<u64>) {
        A::lemma_read(s);
        if let Some((a, mid)) = A::read(s) {
            B::lemma_read(mid);
            if let Some((b, rest)) = B::read(mid) {
                assert(s =~= A::words(a) + B::words(b) + rest);
            }
        }
    }

    fn put(&self, out: &mut Vec<u64>) {
        self.0.put(out);
        self.1.put(out);
        assert(out@ =~= old(out)@ + Self::words(self.model()));
    }

    fn take(words: &Vec<u64>, pos: usize) -> (res: Option<((A, B), usize)>) {
        match A::take(words, pos) {
            Some((a, mid)) => match B::take(words, mid) {
                Some((b, end)) => Some(((a, b), end)),
                None => None,
            },
            None => None,
        }
    }
}

/// The words of the elements of a list.
pub open spec fn list_words<T: Wire>(list: Seq<T::Model>) -> Seq<u64>
    decreases list.len(),
{
    if list.len() == 0 {
        Seq::empty()
    } else {
        list_words::<T>(list.drop_last()) + T::words(list.last())
    }
}

/// The first `n` values that some words start with, put behind others, and the words after them.
pub open spec fn read_list<T: Wire>(s: Seq<u64>, n: int, front: Seq<T::Model>) -> Option<
    (Seq<T::Model>, Seq<u64>),
>
    decreases n,
{
    if n <= 0 {
        Some((front, s))
    } else {
        match T::read(s) {
            Some((m, rest)) => read_list::<T>(rest, n - 1, front.push(m)),
            None => None,
        }
    }
}

/// The words of the elements from an index on are read back.
proof fn lemma_list_round_trip<T: Wire>(list: Seq<T::Model>, i: int, rest: Seq<u64>)
    requires
        0 <= i <= list.len(),
        forall|k: int| 0 <= k < list.len() ==> T::fits(#[trigger] list[k]),
    ensures
        ({
            let before = list_words::<T>(list.take(i));
            let all = list_words::<T>(list);
            &&& before.len() <= all.len()
            &&& all.take(before.len() as int) == before
            &&& read_list::<T>(
                all.skip(before.len() as int) + rest,
                list.len() - i,
                list.take(i),
            ) == Some((list, rest))
        }),
    decreases list.len() - i,
{
    let before = list_words::<T>(list.take(i));
    let all = list_words::<T>(list);
    let n = before.len() as int;
    if i == list.len() {
        assert(list.take(i) =~= list);
        assert(all.take(n) =~= all);
        assert(all.skip(n) + rest =~= rest);
    } else {
        lemma_list_round_trip::<T>(list, i + 1, rest);
        let next = list_words::<T>(list.take(i + 1));
        let word = T::words(list[i]);
        assert(list.take(i + 1).drop_last() =~= list.take(i));
        assert(next == before + word);
        assert(all.take(next.len() as int).take(n) =~= all.take(n));
        assert(next.take(n) =~= before);
        assert(all.skip(n) + rest =~= word + (all.skip(next.len() as int) + rest)) by {
            assert(all =~= next + all.skip(next.len() as int));
        }
        T::lemma_round_trip(list[i], all.skip(next.len() as int) + rest);
        assert(list.take(i).push(list[i]) =~= list.take(i + 1));
    }
}

/// The values that are read are those that would be written.
proof fn lemma_read_list<T: Wire>(s: Seq<u64>, n: int, front: Seq<T::Model>)
    ensures
        read_list::<T>(s, n, front) matches Some((list, rest)) ==> {
            &&& list_words::<T>(front) + s == list_words::<T>(list) + rest
            &&& list.len() == front.len() + if n > 0 {
                n
            } else {
                0
            }
        },
    decreases n,
{
    if n > 0 {
        T::lemma_read(s);
        if let Some((m, rest)) = T::read(s) {
            lemma_read_list::<T>(rest, n - 1, front.push(m));
            assert(front.push(m).drop_last() =~= front);
            assert(list_words::<T>(front.push(m)) + rest =~= list_words::<T>(front) + s);
        }
    }
}

/// Whether the words are the same.
fn same_words(a: &Vec<u64>, b: &Vec<u64>) -> (same: bool)
    ensures
        same == (a@ == b@),
{
    if a.len() != b.len() {
        return false;
    }
    let mut i: usize = 0;
    while i < a.len()
        invariant
            i <= a@.len(),
            a@.len() == b@.len(),
            forall|j: int| 0 <= j < i ==> a@[j] == b@[j],
        decreases a@.len() - i,
    {
        if a[i] != b[i] {
            assert(a@[i as int] != b@[i as int]);
            return false;
        }
        i = i + 1;
    }
    assert(a@ =~= b@);
    true
}

/// Whether two values are written the same.
pub fn same<T: Wire>(a: &T, b: &T) -> (same: bool)
    ensures
        same == (a.model() == b.model()),
{
    let mut left: Vec<u64> = Vec::new();
    let mut right: Vec<u64> = Vec::new();
    a.put(&mut left);
    b.put(&mut right);
    proof {
        a.lemma_fits();
        b.lemma_fits();
        T::lemma_round_trip(a.model(), Seq::empty());
        T::lemma_round_trip(b.model(), Seq::empty());
        assert(left@ =~= T::words(a.model()) + Seq::<u64>::empty());
        assert(right@ =~= T::words(b.model()) + Seq::<u64>::empty());
    }
    same_words(&left, &right)
}

/// What is written of the elements of a list.
pub open spec fn models<T: Wire>(list: Seq<T>) -> Seq<T::Model> {
    Seq::new(list.len(), |i: int| list[i].model())
}

impl<T: Wire> Wire for Vec<T> {
    type Model = Seq<T::Model>;

    open spec fn model(&self) -> Seq<T::Model> {
        models(self@)
    }

    open spec fn words(m: Seq<T::Model>) -> Seq<u64> {
        seq![m.len() as u64] + list_words::<T>(m)
    }

    open spec fn read(s: Seq<u64>) -> Option<(Seq<T::Model>, Seq<u64>)> {
        match usize::read(s) {
            Some((n, rest)) => read_list::<T>(rest, n as int, Seq::empty()),
            None => None,
        }
    }

    open spec fn fits(m: Seq<T::Model>) -> bool {
        &&& m.len() <= usize::MAX
        &&& forall|i: int| 0 <= i < m.len() ==> T::fits(#[trigger] m[i])
    }

    proof fn lemma_fits(&self) {
        assert(self.model().len() == self.len());
        assert forall|i: int| 0 <= i < self.model().len() implies T::fits(
            #[trigger] self.model()[i],
        ) by {
            self@[i].lemma_fits();
        }
    }

    proof fn lemma_round_trip(m: Seq<T::Model>, rest: Seq<u64>) {
        let all = list_words::<T>(m);
        lemma_list_round_trip::<T>(m, 0, rest);
        assert(m.take(0) =~= Seq::<T::Model>::empty());
        assert(all.skip(0) =~= all);
        assert((Self::words(m) + rest).skip(1) =~= all + rest);
    }

    proof fn lemma_read(s: Seq<u64>) {
        usize::lemma_read(s);
        if let Some((n, mid)) = usize::read(s) {
            let none = Seq::<T::Model>::empty();
            lemma_read_list::<T>(mid, n as int, none);
            if let Some((list, rest)) = read_list::<T>(mid, n as int, none) {
                assert(list_words::<T>(none) + mid =~= mid);
                assert(s =~= Self::words(list) + rest);
            }
        }
    }

    fn put(&self, out: &mut Vec<u64>) {
        self.len().put(out);
        let ghost start = out@;
        let mut i: usize = 0;
        assert(self.model().take(0) =~= Seq::<T::Model>::empty());
        assert(out@ =~= start + list_words::<T>(self.model().take(0)));
        while i < self.len()
            invariant
                i <= self@.len(),
                out@ == start + list_words::<T>(self.model().take(i as int)),
            decreases self@.len() - i,
        {
            self[i].put(out);
            proof {
                let m = self.model();
                assert(m.take(i + 1).drop_last() =~= m.take(i as int));
                assert(out@ =~= start + list_words::<T>(m.take(i + 1)));
            }
            i = i + 1;
        }
        assert(self.model().take(self@.len() as int) =~= self.model());
        assert(out@ =~= old(out)@ + Self::words(self.model()));
    }

    fn take(words: &Vec<u64>, pos: usize) -> (res: Option<(Vec<T>, usize)>) {
        let (n, start) = match usize::take(words, pos) {
            Some((n, start)) => (n, start),
            None => {
                return None;
            },
        };
        let mut list: Vec<T> = Vec::new();
        let mut end: usize = start;
        let mut i: usize = 0;
        assert(models(list@) =~= Seq::<T::Model>::empty());
        while i < n
            invariant
                i <= n,
                end <= words@.len(),
                read_list::<T>(words@.skip(end as int), n - i, models(list@))
                    == Self::read(words@.skip(pos as int)),
            decreases n - i,
        {
            match T::take(words, end) {
                Some((value, next)) => {
                    let ghost before = list@;
                    list.push(value);
                    end = next;
                    assert(models(list@) =~= models(before).push(value.model()));
                },
                None => {
                    return None;
                },
            }
            i = i + 1;
        }
        Some((list, end))
    }
}

impl Wire for ReplicaId {
    type Model = ReplicaId;

    open spec fn model(&self) -> ReplicaId {
        *self
    }

    open spec fn words(m: ReplicaId) -> Seq<u64> {
        u64::words(m.0)
    }

    open spec fn read(s: Seq<u64>) -> Option<(ReplicaId, Seq<u64>)> {
        match u64::read(s) {
            Some((id, rest)) => Some((ReplicaId(id), rest)),
            None => None,
        }
    }

    open spec fn fits(m: ReplicaId) -> bool {
        true
    }

    proof fn lemma_fits(&self) {
    }

    proof fn lemma_round_trip(m: ReplicaId, rest: Seq<u64>) {
        u64::lemma_round_trip(m.0, rest);
    }

    proof fn lemma_read(s: Seq<u64>) {
        u64::lemma_read(s);
    }

    fn put(&self, out: &mut Vec<u64>) {
        self.0.put(out);
    }

    fn take(words: &Vec<u64>, pos: usize) -> (res: Option<(ReplicaId, usize)>) {
        match u64::take(words, pos) {
            Some((id, next)) => Some((ReplicaId(id), next)),
            None => None,
        }
    }
}

/// The fields of a [`Anchor`] in the order in which they are written.
type AnchorFields = (ReplicaId, usize);

impl Wire for Anchor {
    type Model = Anchor;

    open spec fn model(&self) -> Anchor {
        *self
    }

    open spec fn words(m: Anchor) -> Seq<u64> {
        AnchorFields::words((m.replica_id, m.character_ts))
    }

    open spec fn read(s: Seq<u64>) -> Option<(Anchor, Seq<u64>)> {
        match AnchorFields::read(s) {
            Some(((replica_id, character_ts), rest)) => {
                Some((Anchor { replica_id, character_ts }, rest))
            },
            None => None,
        }
    }

    open spec fn fits(m: Anchor) -> bool {
        true
    }

    proof fn lemma_fits(&self) {
    }

    proof fn lemma_round_trip(m: Anchor, rest: Seq<u64>) {
        AnchorFields::lemma_round_trip((m.replica_id, m.character_ts), rest);
    }

    proof fn lemma_read(s: Seq<u64>) {
        AnchorFields::lemma_read(s);
    }

    fn put(&self, out: &mut Vec<u64>) {
        (self.replica_id, self.character_ts).put(out);
    }

    fn take(words: &Vec<u64>, pos: usize) -> (res: Option<(Anchor, usize)>) {
        match AnchorFields::take(words, pos) {
            Some(((replica_id, character_ts), next)) => {
                Some((Anchor { replica_id, character_ts }, next))
            },
            None => None,
        }
    }
}

/// The fields of a [`Text`] in the order in which they are written.
type TextFields = (ReplicaId, (usize, usize));

impl Wire for Text {
    type Model = Text;

    open spec fn model(&self) -> Text {
        *self
    }

    open spec fn words(m: Text) -> Seq<u64> {
        TextFields::words((m.inserted_by, (m.start, m.end)))
    }

    open spec fn read(s: Seq<u64>) -> Option<(Text, Seq<u64>)> {
        match TextFields::read(s) {
            Some(((inserted_by, (start, end)), rest)) => {
                Some((Text { inserted_by, start, end }, rest))
            },
            None => None,
        }
    }

    open spec fn fits(m: Text) -> bool {
        true
    }

    proof fn lemma_fits(&self) {
    }

    proof fn lemma_round_trip(m: Text, rest: Seq<u64>) {
        TextFields::lemma_round_trip((m.inserted_by, (m.start, m.end)), rest);
    }

    proof fn lemma_read(s: Seq<u64>) {
        TextFields::lemma_read(s);
    }

    fn put(&self, out: &mut Vec<u64>) {
        (self.inserted_by, (self.start, self.end)).put(out);
    }

    fn take(words: &Vec<u64>, pos: usize) -> (res: Option<(Text, usize)>) {
        match TextFields::take(words, pos) {
            Some(((inserted_by, (start, end)), next)) => {
                Some((Text { inserted_by, start, end }, next))
            },
            None => None,
        }
    }
}

/// The fields of a [`EditRun`] in the order in which they are written.
type EditRunFields = (Anchor, (Text, (u64, (u64, bool))));

impl Wire for EditRun {
    type Model = EditRun;

    open spec fn model(&self) -> EditRun {
        *self
    }

    open spec fn words(m: EditRun) -> Seq<u64> {
        EditRunFields::words((m.anchor, (m.text, (m.insertion_ts, (m.lamport_ts, m.is_deleted)))))
    }

    open spec fn read(s: Seq<u64>) -> Option<(EditRun, Seq<u64>)> {
        match EditRunFields::read(s) {
            Some(((anchor, (text, (insertion_ts, (lamport_ts, is_deleted)))), rest)) => {
                Some((EditRun { anchor, text, insertion_ts, lamport_ts, is_deleted }, rest))
            },
            None => None,
        }
    }

    open spec fn fits(m: EditRun) -> bool {
        true
    }

    proof fn lemma_fits(&self) {
    }

    proof fn lemma_round_trip(m: EditRun, rest: Seq<u64>) {
        EditRunFields::lemma_round_trip(
            (m.anchor, (m.text, (m.insertion_ts, (m.lamport_ts, m.is_deleted)))),
            rest,
        );
    }

    proof fn lemma_read(s: Seq<u64>) {
        EditRunFields::lemma_read(s);
    }

    fn put(&self, out: &mut Vec<u64>) {
        let state = (self.lamport_ts, self.is_deleted);
        let fields = (self.anchor, (self.text, (self.insertion_ts, state)));
        fields.put(out);
    }

    fn take(words: &Vec<u64>, pos: usize) -> (res: Option<(EditRun, usize)>) {
        match EditRunFields::take(words, pos) {
            Some(((anchor, (text, (insertion_ts, (lamport_ts, is_deleted)))), next)) => {
                Some((EditRun { anchor, text, insertion_ts, lamport_ts, is_deleted }, next))
            },
            None => None,
        }
    }
}

/// The fields of a [`Fragment`] in the order in which they are written.
type FragmentFields = (ReplicaId, (u64, (usize, (usize, usize))));

impl Wire for Fragment {
    type Model = Fragment;

    open spec fn model(&self) -> Fragment {
        *self
    }

    open spec fn words(m: Fragment) -> Seq<u64> {
        FragmentFields::words((m.replica_id, (m.insertion_ts, (m.start, (m.end, m.idx)))))
    }

    open spec fn read(s: Seq<u64>) -> Option<(Fragment, Seq<u64>)> {
        match FragmentFields::read(s) {
            Some(((replica_id, (insertion_ts, (start, (end, idx)))), rest)) => {
                Some((Fragment { replica_id, insertion_ts, start, end, idx }, rest))
            },
            None => None,
        }
    }

    open spec fn fits(m: Fragment) -> bool {
        true
    }

    proof fn lemma_fits(&self) {
    }

    proof fn lemma_round_trip(m: Fragment, rest: Seq<u64>) {
        FragmentFields::lemma_round_trip(
            (m.replica_id, (m.insertion_ts, (m.start, (m.end, m.idx)))),
            rest,
        );
    }

    proof fn lemma_read(s: Seq<u64>) {
        FragmentFields::lemma_read(s);
    }

    fn put(&self, out: &mut Vec<u64>) {
        (self.replica_id, (self.insertion_ts, (self.start, (self.end, self.idx)))).put(out);
    }

    fn take(words: &Vec<u64>, pos: usize) -> (res: Option<(Fragment, usize)>) {
        match FragmentFields::take(words, pos) {
            Some(((replica_id, (insertion_ts, (start, (end, idx)))), next)) => {
                Some((Fragment { replica_id, insertion_ts, start, end, idx }, next))
            },
            None => None,
        }
    }
}

/// The fields of a [`Insertion`] in the order in which they are written.
type InsertionFields = (Anchor, (u64, (Text, (u64, u64))));

impl Wire for Insertion {
    type Model = Insertion;

    open spec fn model(&self) -> Insertion {
        *self
    }

    open spec fn words(m: Insertion) -> Seq<u64> {
        InsertionFields::words((m.anchor, (m.anchor_ts, (m.text, (m.lamport_ts, m.insertion_ts)))))
    }

    open spec fn read(s: Seq<u64>) -> Option<(Insertion, Seq<u64>)> {
        match InsertionFields::read(s) {
            Some(((anchor, (anchor_ts, (text, (lamport_ts, insertion_ts)))), rest)) => {
                Some((Insertion { anchor, anchor_ts, text, lamport_ts, insertion_ts }, rest))
            },
            None => None,
        }
    }

    open spec fn fits(m: Insertion) -> bool {
        true
    }

    proof fn lemma_fits(&self) {
    }

    proof fn lemma_round_trip(m: Insertion, rest: Seq<u64>) {
        InsertionFields::lemma_round_trip(
            (m.anchor, (m.anchor_ts, (m.text, (m.lamport_ts, m.insertion_ts)))),
            rest,
        );
    }

    proof fn lemma_read(s: Seq<u64>) {
        InsertionFields::lemma_read(s);
    }

    fn put(&self, out: &mut Vec<u64>) {
        (self.anchor, (self.anchor_ts, (self.text, (self.lamport_ts, self.insertion_ts)))).put(out);
    }

    fn take(words: &Vec<u64>, pos: usize) -> (res: Option<(Insertion, usize)>) {
        match InsertionFields::take(words, pos) {
            Some(((anchor, (anchor_ts, (text, (lamport_ts, insertion_ts)))), next)) => {
                Some((Insertion { anchor, anchor_ts, text, lamport_ts, insertion_ts }, next))
            },
            None => None,
        }
    }
}

/// The fields of a [`RunTree`] in the order in which they are written.
type RunTreeFields = (Vec<EditRun>, Vec<usize>);

impl Wire for RunTree {
    type Model = (Seq<EditRun>, Seq<usize>);

    open spec fn model(&self) -> (Seq<EditRun>, Seq<usize>) {
        (self.leaves@, self.order@)
    }

    open spec fn words(m: (Seq<EditRun>, Seq<usize>)) -> Seq<u64> {
        RunTreeFields::words(m)
    }

    open spec fn read(s: Seq<u64>) -> Option<((Seq<EditRun>, Seq<usize>), Seq<u64>)> {
        RunTreeFields::read(s)
    }

    open spec fn fits(m: (Seq<EditRun>, Seq<usize>)) -> bool {
        RunTreeFields::fits(m)
    }

    proof fn lemma_fits(&self) {
        self.leaves.lemma_fits();
        self.order.lemma_fits();
        assert(models(self.leaves@) =~= self.leaves@);
        assert(models(self.order@) =~= self.order@);
    }

    proof fn lemma_round_trip(m: (Seq<EditRun>, Seq<usize>), rest: Seq<u64>) {
        RunTreeFields::lemma_round_trip(m, rest);
    }

    proof fn lemma_read(s: Seq<u64>) {
        RunTreeFields::lemma_read(s);
    }

    fn put(&self, out: &mut Vec<u64>) {
        self.leaves.put(out);
        self.order.put(out);
        assert(models(self.leaves@) =~= self.leaves@);
        assert(models(self.order@) =~= self.order@);
        assert(out@ =~= old(out)@ + Self::words(self.model()));
    }

    fn take(words: &Vec<u64>, pos: usize) -> (res: Option<(RunTree, usize)>) {
        match RunTreeFields::take(words, pos) {
            Some(((leaves, order), end)) => {
                assert(models(leaves@) =~= leaves@);
                assert(models(order@) =~= order@);
                Some((RunTree { leaves, order }, end))
            },
            None => None,
        }
    }
}

impl Wire for RunIndices {
    type Model = Seq<Fragment>;

    open spec fn model(&self) -> Seq<Fragment> {
        self.fragments@
    }

    open spec fn words(m: Seq<Fragment>) -> Seq<u64> {
        Vec::<Fragment>::words(m)
    }

    open spec fn read(s: Seq<u64>) -> Option<(Seq<Fragment>, Seq<u64>)> {
        Vec::<Fragment>::read(s)
    }

    open spec fn fits(m: Seq<Fragment>) -> bool {
        Vec::<Fragment>::fits(m)
    }

    proof fn lemma_fits(&self) {
        self.fragments.lemma_fits();
        assert(models(self.fragments@) =~= self.fragments@);
    }

    proof fn lemma_round_trip(m: Seq<Fragment>, rest: Seq<u64>) {
        Vec::<Fragment>::lemma_round_trip(m, rest);
    }

    proof fn lemma_read(s: Seq<u64>) {
        Vec::<Fragment>::lemma_read(s);
    }

    fn put(&self, out: &mut Vec<u64>) {
        self.fragments.put(out);
        assert(models(self.fragments@) =~= self.fragments@);
    }

    fn take(words: &Vec<u64>, pos: usize) -> (res: Option<(RunIndices, usize)>) {
        match Vec::<Fragment>::take(words, pos) {
            Some((fragments, end)) => {
                assert(models(fragments@) =~= fragments@);
                Some((RunIndices { fragments }, end))
            },
            None => None,
        }
    }
}

/// The fields of a [`VersionMap`] in the order in which they are written.
type VersionMapFields = (ReplicaId, (usize, Vec<(ReplicaId, usize)>));

/// What is written of a [`VersionMap`].
pub type VersionMapModel = (ReplicaId, (usize, Seq<(ReplicaId, usize)>));

impl Wire for VersionMap {
    type Model = VersionMapModel;

    open spec fn model(&self) -> VersionMapModel {
        (self.this_id, (self.this_value, self.rest.entries@))
    }

    open spec fn words(m: VersionMapModel) -> Seq<u64> {
        VersionMapFields::words(m)
    }

    open spec fn read(s: Seq<u64>) -> Option<(VersionMapModel, Seq<u64>)> {
        VersionMapFields::read(s)
    }

    open spec fn fits(m: VersionMapModel) -> bool {
        VersionMapFields::fits(m)
    }

    proof fn lemma_fits(&self) {
        self.rest.entries.lemma_fits();
        assert(models(self.rest.entries@) =~= self.rest.entries@);
    }

    proof fn lemma_round_trip(m: VersionMapModel, rest: Seq<u64>) {
        VersionMapFields::lemma_round_trip(m, rest);
    }

    proof fn lemma_read(s: Seq<u64>) {
        VersionMapFields::lemma_read(s);
    }

    fn put(&self, out: &mut Vec<u64>) {
        self.this_id.put(out);
        self.this_value.put(out);
        self.rest.entries.put(out);
        assert(models(self.rest.entries@) =~= self.rest.entries@);
        assert(out@ =~= old(out)@ + Self::words(self.model()));
    }

    fn take(words: &Vec<u64>, pos: usize) -> (res: Option<(VersionMap, usize)>) {
        match VersionMapFields::take(words, pos) {
            Some(((this_id, (this_value, entries)), end)) => {
                assert(models(entries@) =~= entries@);
                Some((VersionMap { this_id, this_value, rest: IdMap { entries } }, end))
            },
            None => None,
        }
    }
}

/// The fields of a [`DeletionMap`] in the order in which they are written.
type DeletionMapFields = (ReplicaId, (u64, Vec<(ReplicaId, u64)>));

/// What is written of a [`DeletionMap`].
pub type DeletionMapModel = (ReplicaId, (u64, Seq<(ReplicaId, u64)>));

impl Wire for DeletionMap {
    type Model = DeletionMapModel;

    open spec fn model(&self) -> DeletionMapModel {
        (self.this_id, (self.this_value, self.rest.entries@))
    }

    open spec fn words(m: DeletionMapModel) -> Seq<u64> {
        DeletionMapFields::words(m)
    }

    open spec fn read(s: Seq<u64>) -> Option<(DeletionMapModel, Seq<u64>)> {
        DeletionMapFields::read(s)
    }

    open spec fn fits(m: DeletionMapModel) -> bool {
        DeletionMapFields::fits(m)
    }

    proof fn lemma_fits(&self) {
        self.rest.entries.lemma_fits();
        assert(models(self.rest.entries@) =~= self.rest.entries@);
    }

    proof fn lemma_round_trip(m: DeletionMapModel, rest: Seq<u64>) {
        DeletionMapFields::lemma_round_trip(m, rest);
    }

    proof fn lemma_read(s: Seq<u64>) {
        DeletionMapFields::lemma_read(s);
    }

    fn put(&self, out: &mut Vec<u64>) {
        self.this_id.put(out);
        self.this_value.put(out);
        self.rest.entries.put(out);
        assert(models(self.rest.entries@) =~= self.rest.entries@);
        assert(out@ =~= old(out)@ + Self::words(self.model()));
    }

    fn take(words: &Vec<u64>, pos: usize) -> (res: Option<(DeletionMap, usize)>) {
        match DeletionMapFields::take(words, pos) {
            Some(((this_id, (this_value, entries)), end)) => {
                assert(models(entries@) =~= entries@);
                Some((DeletionMap { this_id, this_value, rest: IdMap { entries } }, end))
            },
            None => None,
        }
    }
}

/// The fields of a [`Deletion`] in the order in which they are written.
type DeletionFields = (Anchor, (Anchor, (VersionMap, u64)));

/// What is written of a [`Deletion`].
pub type DeletionModel = (Anchor, (Anchor, (VersionMapModel, u64)));

impl Wire for Deletion {
    type Model = DeletionModel;

    open spec fn model(&self) -> DeletionModel {
        (self.start, (self.end, (self.version_map.model(), self.deletion_ts)))
    }

    open spec fn words(m: DeletionModel) -> Seq<u64> {
        DeletionFields::words(m)
    }

    open spec fn read(s: Seq<u64>) -> Option<(DeletionModel, Seq<u64>)> {
        DeletionFields::read(s)
    }

    open spec fn fits(m: DeletionModel) -> bool {
        DeletionFields::fits(m)
    }

    proof fn lemma_fits(&self) {
        self.version_map.lemma_fits();
    }

    proof fn lemma_round_trip(m: DeletionModel, rest: Seq<u64>) {
        DeletionFields::lemma_round_trip(m, rest);
    }

    proof fn lemma_read(s: Seq<u64>) {
        DeletionFields::lemma_read(s);
    }

    fn put(&self, out: &mut Vec<u64>) {
        self.start.put(out);
        self.end.put(out);
        self.version_map.put(out);
        self.deletion_ts.put(out);
        assert(out@ =~= old(out)@ + Self::words(self.model()));
    }

    fn take(words: &Vec<u64>, pos: usize) -> (res: Option<(Deletion, usize)>) {
        match DeletionFields::take(words, pos) {
            Some(((start, (stop, (version_map, deletion_ts))), end)) => {
                Some((Deletion { start, end: stop, version_map, deletion_ts }, end))
            },
            None => None,
        }
    }
}

/// The fields of a [`BackLog`] in the order in which they are written.
type BackLogFields = (Vec<Insertion>, Vec<Deletion>);

impl Wire for BackLog {
    type Model = (Seq<Insertion>, Seq<DeletionModel>);

    open spec fn model(&self) -> (Seq<Insertion>, Seq<DeletionModel>) {
        (self.insertions@, models(self.deletions@))
    }

    open spec fn words(m: (Seq<Insertion>, Seq<DeletionModel>)) -> Seq<u64> {
        BackLogFields::words(m)
    }

    open spec fn read(s: Seq<u64>) -> Option<((Seq<Insertion>, Seq<DeletionModel>), Seq<u64>)> {
        BackLogFields::read(s)
    }

    open spec fn fits(m: (Seq<Insertion>, Seq<DeletionModel>)) -> bool {
        BackLogFields::fits(m)
    }

    proof fn lemma_fits(&self) {
        self.insertions.lemma_fits();
        self.deletions.lemma_fits();
        assert(models(self.insertions@) =~= self.insertions@);
    }

    proof fn lemma_round_trip(m: (Seq<Insertion>, Seq<DeletionModel>), rest: Seq<u64>) {
        BackLogFields::lemma_round_trip(m, rest);
    }

    proof fn lemma_read(s: Seq<u64>) {
        BackLogFields::lemma_read(s);
    }

    fn put(&self, out: &mut Vec<u64>) {
        self.insertions.put(out);
        self.deletions.put(out);
        assert(models(self.insertions@) =~= self.insertions@);
        assert(out@ =~= old(out)@ + Self::words(self.model()));
    }

    fn take(words: &Vec<u64>, pos: usize) -> (res: Option<(BackLog, usize)>) {
        match BackLogFields::take(words, pos) {
            Some(((insertions, deletions), end)) => {
                assert(models(insertions@) =~= insertions@);
                Some((BackLog { insertions, deletions }, end))
            },
            None => None,
        }
    }
}

} // verus!
