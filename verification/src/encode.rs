//! Replicas as bytes.

use vstd::bytes::{
    lemma_auto_spec_u64_to_from_le_bytes, spec_u64_from_le_bytes, spec_u64_to_le_bytes,
    u64_from_le_bytes, u64_to_le_bytes,
};
use vstd::prelude::*;
use vstd::slice::slice_subrange;

use crate::backlog::BackLog;
use crate::clocks::{InsertionClock, LamportClock};
use crate::crdt_edit::{DeletionView, Insertion};
use crate::edit_run::{doc_of, EditRun};
use crate::encoded_replica::{
    law_a_damaged_byte_changes_the_checksum, law_swapped_bytes_change_the_checksum, spec_checksum,
    DecodeError, EncodedReplica, PROTOCOL_VERSION,
};
use crate::maps::{last_before, lookup, with_entry, DeletionMap, VersionMap};
use crate::model::Char;
use crate::replica_id::ReplicaId;
use crate::run_indices::{indexes, Fragment, RunIndices};
use crate::run_tree::{permutes, runs_of, RunTree};
use crate::state::ReplicaView;
use crate::wire::{DeletionMapModel, DeletionModel, VersionMapModel, Wire};

verus! {

/// Words one after the other, each with its least significant byte first.
pub open spec fn word_bytes(words: Seq<u64>) -> Seq<u8>
    decreases words.len(),
{
    if words.len() == 0 {
        Seq::empty()
    } else {
        word_bytes(words.drop_last()) + spec_u64_to_le_bytes(words.last())
    }
}

/// How many words there are, then the words.
pub open spec fn bytes_of_words(words: Seq<u64>) -> Seq<u8> {
    spec_u64_to_le_bytes(words.len() as u64) + word_bytes(words)
}

/// The words that some bytes start with, as many of them as the bytes say. More bytes may follow.
pub open spec fn words_of_bytes(bytes: Seq<u8>) -> Option<Seq<u64>> {
    let n = spec_u64_from_le_bytes(bytes.take(8));
    if bytes.len() < 8 || bytes.len() < 8 + 8 * n {
        None
    } else {
        Some(
            Seq::new(
                n as nat,
                |i: int| spec_u64_from_le_bytes(bytes.subrange(8 + 8 * i, 16 + 8 * i)),
            ),
        )
    }
}

/// Calls `bincode::serialize`, which writes a vector of 64-bit integers as their number and then
/// the integers, all of them as eight bytes with the least significant one first. It does not fail
/// on such a vector.
#[verifier::external_body]
fn serialize(words: &Vec<u64>) -> (bytes: Vec<u8>)
    ensures
        bytes@ == bytes_of_words(words@),
{
    bincode::serialize(words).expect("failed to serialize")
}

/// Calls `bincode::deserialize`, which reads a vector of 64-bit integers as it is written by
/// `bincode::serialize`. It fails if the bytes end too early, and ignores what comes after.
#[verifier::external_body]
fn deserialize(bytes: &[u8]) -> (words: Option<Vec<u64>>)
    ensures
        match words_of_bytes(bytes@) {
            Some(expected) => words matches Some(words) && words@ == expected,
            None => words is None,
        },
{
    bincode::deserialize(bytes).ok()
}

/// The word that some bytes start with. More bytes may follow.
pub open spec fn word_of_bytes(bytes: Seq<u8>) -> Option<u64> {
    if bytes.len() < 8 {
        None
    } else {
        Some(spec_u64_from_le_bytes(bytes.take(8)))
    }
}

/// Calls `bincode::serialize`, which writes a 64-bit integer as eight bytes with the least
/// significant one first. It does not fail on such an integer.
#[verifier::external_body]
fn serialize_word(word: u64) -> (bytes: Vec<u8>)
    ensures
        bytes@ == spec_u64_to_le_bytes(word),
{
    bincode::serialize(&word).expect("failed to serialize")
}

/// Calls `bincode::deserialize`, which reads a 64-bit integer as it is written by
/// `bincode::serialize`. It fails if the bytes end too early, and ignores what comes after.
#[verifier::external_body]
fn deserialize_word(bytes: &[u8]) -> (word: Option<u64>)
    ensures
        word == word_of_bytes(bytes@),
{
    bincode::deserialize(bytes).ok()
}

/// All words have eight bytes.
proof fn lemma_word_bytes(words: Seq<u64>, i: int)
    requires
        0 <= i < words.len(),
    ensures
        word_bytes(words).len() == 8 * words.len(),
        word_bytes(words).subrange(8 * i, 8 * i + 8) == spec_u64_to_le_bytes(words[i]),
    decreases words.len(),
{
    lemma_auto_spec_u64_to_from_le_bytes();
    let front = word_bytes(words.drop_last());
    let last = spec_u64_to_le_bytes(words.last());
    if words.len() > 1 {
        let k = if i < words.len() - 1 {
            i
        } else {
            0
        };
        lemma_word_bytes(words.drop_last(), k);
    }
    if i < words.len() - 1 {
        assert((front + last).subrange(8 * i, 8 * i + 8) =~= front.subrange(8 * i, 8 * i + 8));
    } else {
        assert((front + last).subrange(8 * i, 8 * i + 8) =~= last);
    }
}

/// What has been written as words is read back.
proof fn lemma_words_round_trip(words: Seq<u64>)
    requires
        words.len() <= u64::MAX,
    ensures
        words_of_bytes(bytes_of_words(words)) == Some(words),
        bytes_of_words(words).len() == 8 + 8 * words.len(),
{
    lemma_auto_spec_u64_to_from_le_bytes();
    let bytes = bytes_of_words(words);
    let head = spec_u64_to_le_bytes(words.len() as u64);
    let tail = word_bytes(words);
    assert(bytes.take(8) =~= head);
    if words.len() > 0 {
        lemma_word_bytes(words, 0);
    }
    assert forall|i: int| 0 <= i < words.len() implies spec_u64_from_le_bytes(
        #[trigger] bytes.subrange(8 + 8 * i, 16 + 8 * i),
    ) == words[i] by {
        lemma_word_bytes(words, i);
        assert(bytes.subrange(8 + 8 * i, 16 + 8 * i) =~= tail.subrange(8 * i, 8 * i + 8));
    }
    assert(words_of_bytes(bytes)->0 =~= words);
}

/// Bytes with their number before them.
pub open spec fn framed(bytes: Seq<u8>) -> Seq<u8> {
    spec_u64_to_le_bytes(bytes.len() as u64) + bytes
}

/// The bytes that a frame holds, and those after the frame.
pub open spec fn unframed(bytes: Seq<u8>) -> Option<(Seq<u8>, Seq<u8>)> {
    let len = spec_u64_from_le_bytes(bytes.take(8));
    if bytes.len() < 8 || bytes.len() - 8 < len {
        None
    } else {
        Some((bytes.subrange(8, 8 + len), bytes.skip(8 + len)))
    }
}

/// The bytes of a field.
pub open spec fn field_bytes<T: Wire>(m: T::Model) -> Seq<u8> {
    framed(bytes_of_words(T::words(m)))
}

/// The bytes of a clock.
pub open spec fn clock_bytes(clock: LamportClock) -> Seq<u8> {
    framed(spec_u64_to_le_bytes(clock.0))
}

/// The clock that some bytes start with, and the bytes after it.
pub open spec fn read_clock(bytes: Seq<u8>) -> Option<(LamportClock, Seq<u8>)> {
    match unframed(bytes) {
        Some((field, rest)) => match word_of_bytes(field) {
            Some(time) => Some((LamportClock(time), rest)),
            None => None,
        },
        None => None,
    }
}

/// What a frame holds is read back.
proof fn lemma_frame_round_trip(field: Seq<u8>, rest: Seq<u8>)
    requires
        field.len() <= u64::MAX,
    ensures
        unframed(framed(field) + rest) == Some((field, rest)),
{
    lemma_auto_spec_u64_to_from_le_bytes();
    let len = field.len() as int;
    let bytes = framed(field) + rest;
    assert(bytes.take(8) =~= spec_u64_to_le_bytes(len as u64));
    assert(bytes.subrange(8, 8 + len) =~= field);
    assert(bytes.skip(8 + len) =~= rest);
}

/// A clock that has been written is read back.
proof fn lemma_clock_round_trip(clock: LamportClock, rest: Seq<u8>)
    ensures
        read_clock(clock_bytes(clock) + rest) == Some((clock, rest)),
{
    lemma_auto_spec_u64_to_from_le_bytes();
    let field = spec_u64_to_le_bytes(clock.0);
    lemma_frame_round_trip(field, rest);
    assert(field.take(8) =~= field);
}

/// The field that some bytes start with, and the bytes after it.
pub open spec fn read_field<T: Wire>(bytes: Seq<u8>) -> Option<(T::Model, Seq<u8>)> {
    match unframed(bytes) {
        Some((field, rest)) => match words_of_bytes(field) {
            Some(words) => match T::read(words) {
                Some((m, left)) => if left.len() == 0 {
                    Some((m, rest))
                } else {
                    None
                },
                None => None,
            },
            None => None,
        },
        None => None,
    }
}

/// A field that has been written is read back.
proof fn lemma_field_round_trip<T: Wire>(m: T::Model, rest: Seq<u8>)
    requires
        T::fits(m),
        field_bytes::<T>(m).len() <= u64::MAX,
    ensures
        read_field::<T>(field_bytes::<T>(m) + rest) == Some((m, rest)),
{
    let words = T::words(m);
    let field = bytes_of_words(words);
    lemma_auto_spec_u64_to_from_le_bytes();
    assert(words.len() <= u64::MAX) by {
        if words.len() > 0 {
            lemma_word_bytes(words, 0);
        }
    }
    lemma_words_round_trip(words);
    lemma_frame_round_trip(field, rest);
    T::lemma_round_trip(m, Seq::empty());
    assert(words + Seq::<u64>::empty() =~= words);
}

/// Writes bytes with their number before them at the end of some others.
fn encode_frame(buf: &mut Vec<u8>, field: &Vec<u8>)
    ensures
        final(buf)@ == old(buf)@ + framed(field@),
{
    let len = u64_to_le_bytes(field.len() as u64);
    buf.extend_from_slice(len.as_slice());
    buf.extend_from_slice(field.as_slice());
    assert(buf@ =~= old(buf)@ + framed(field@));
}

/// Writes a clock at the end of some bytes.
fn encode_clock(buf: &mut Vec<u8>, clock: &LamportClock)
    ensures
        final(buf)@ == old(buf)@ + clock_bytes(*clock),
{
    let bytes = serialize_word(clock.0);
    encode_frame(buf, &bytes);
}

/// Writes a field at the end of some bytes.
fn encode_field<T: Wire>(buf: &mut Vec<u8>, field: &T)
    ensures
        final(buf)@ == old(buf)@ + field_bytes::<T>(field.model()),
{
    let mut words: Vec<u64> = Vec::new();
    field.put(&mut words);
    assert(words@ =~= T::words(field.model()));
    let bytes = serialize(&words);
    encode_frame(buf, &bytes);
}

/// Returns the bytes that a frame holds, and those after the frame.
fn decode_frame<'a>(buf: &'a [u8]) -> (res: Option<(&'a [u8], &'a [u8])>)
    ensures
        match unframed(buf@) {
            Some((field, rest)) => res matches Some((f, r)) && f@ == field && r@ == rest,
            None => res is None,
        },
{
    if buf.len() < 8 {
        return None;
    }
    // The first 8 bytes hold the length of the field.
    let head = slice_subrange(buf, 0, 8);
    let rest = slice_subrange(buf, 8, buf.len());
    let len: u64 = u64_from_le_bytes(head);
    assert(head@ =~= buf@.take(8));
    if (rest.len() as u64) < len {
        return None;
    }
    let len: usize = len as usize;
    let field = slice_subrange(rest, 0, len);
    let rest = slice_subrange(rest, len, rest.len());
    assert(field@ =~= buf@.subrange(8, 8 + len));
    assert(rest@ =~= buf@.skip(8 + len));
    Some((field, rest))
}

/// Reads a clock, and returns it with the bytes after it.
fn decode_clock<'a>(buf: &'a [u8]) -> (res: Option<(LamportClock, &'a [u8])>)
    ensures
        match read_clock(buf@) {
            Some((clock, rest)) => res matches Some((c, r)) && c == clock && r@ == rest,
            None => res is None,
        },
{
    let (field, rest) = decode_frame(buf)?;
    match deserialize_word(field) {
        Some(time) => Some((LamportClock(time), rest)),
        None => None,
    }
}

/// Reads a field, and returns it with the bytes after it.
fn decode_field<'a, T: Wire>(buf: &'a [u8]) -> (res: Option<(T, &'a [u8])>)
    ensures
        match read_field::<T>(buf@) {
            Some((m, rest)) => {
                &&& res matches Some((field, left))
                &&& field.model() == m
                &&& left@ == rest
            },
            None => res is None,
        },
{
    let (encoded_field, rest) = decode_frame(buf)?;
    match deserialize(encoded_field) {
        Some(words) => {
            assert(words@.skip(0) =~= words@);
            match T::take(&words, 0) {
                Some((field, end)) => {
                    if end == words.len() {
                        Some((field, rest))
                    } else {
                        None
                    }
                },
                None => None,
            }
        },
        None => None,
    }
}

/// What is encoded of a replica.
#[verifier::ext_equal]
pub struct ReplicaParts {
    pub run_tree: (Seq<EditRun>, Seq<usize>),
    pub run_indices: Seq<Fragment>,
    pub lamport_clock: LamportClock,
    pub version_map: VersionMapModel,
    pub deletion_map: DeletionMapModel,
    pub backlog: (Seq<Insertion>, Seq<DeletionModel>),
}

/// How many characters of each replica a map that has been written counts.
pub open spec fn versions_of(map: VersionMapModel) -> Map<ReplicaId, int> {
    Map::total(
        |id: ReplicaId|
            if id == map.0 {
                map.1.0 as int
            } else {
                match lookup(map.1.1, id) {
                    Some(n) => n as int,
                    None => 0,
                }
            },
    )
}

/// The last deletion of each replica according to a map that has been written.
pub open spec fn deletions_of(map: DeletionMapModel) -> Map<ReplicaId, int> {
    Map::total(
        |id: ReplicaId|
            if id == map.0 {
                last_before(map.1.0) as int
            } else {
                match lookup(map.1.1, id) {
                    Some(n) => n as int,
                    None => 0,
                }
            },
    )
}

/// What a deletion that has been written says.
pub open spec fn deletion_of(m: DeletionModel) -> DeletionView {
    DeletionView {
        by: m.1.1.0.0,
        start: m.0,
        end: m.1.0,
        versions: versions_of(m.1.1.0),
        deletion_ts: m.1.1.1 as int,
    }
}

impl ReplicaParts {
    pub open spec fn doc(self) -> Seq<Char> {
        doc_of(runs_of(self.run_tree.0, self.run_tree.1))
    }

    /// The state of the replica that the parts are of, with an insertion clock that starts anew.
    pub open spec fn state(self) -> ReplicaView {
        ReplicaView {
            id: self.version_map.0,
            doc: self.doc(),
            lamport_clock: self.lamport_clock,
            insertion_clock: InsertionClock(0),
            versions: versions_of(self.version_map),
            deletions: deletions_of(self.deletion_map),
            pending_insertions: self.backlog.0,
            pending_deletions: Seq::new(
                self.backlog.1.len(),
                |i: int| deletion_of(self.backlog.1[i]),
            ),
        }
    }

    /// Whether the clock leaves room for another replica.
    pub open spec fn can_fork(self) -> bool {
        self.lamport_clock.0 < u64::MAX
    }

    /// The parts of a replica forked from the one that the parts are of.
    pub open spec fn forked(self, new_id: ReplicaId) -> ReplicaParts {
        ReplicaParts {
            lamport_clock: LamportClock((self.lamport_clock.0 + 1) as u64),
            version_map: (
                new_id,
                (0, with_entry(self.version_map.1.1, self.version_map.0, self.version_map.1.0)),
            ),
            deletion_map: (
                new_id,
                (
                    1,
                    with_entry(
                        self.deletion_map.1.1,
                        self.deletion_map.0,
                        last_before(self.deletion_map.1.0),
                    ),
                ),
            ),
            ..self
        }
    }

    /// Whether the parts are those of a replica.
    pub open spec fn valid(self) -> bool {
        let leaves = self.run_tree.0;
        &&& permutes(self.run_tree.1, leaves.len() as int)
        &&& forall|i: int| 0 <= i < leaves.len() ==> (#[trigger] leaves[i]).wf()
        &&& indexes(self.run_indices, leaves)
        &&& self.state().wf()
        &&& self.deletion_map.0 == self.version_map.0
        &&& 1 <= self.deletion_map.1.0
    }

    /// The bytes of the parts.
    pub open spec fn bytes(self) -> Seq<u8> {
        field_bytes::<RunTree>(self.run_tree) + (field_bytes::<RunIndices>(self.run_indices) + (
        clock_bytes(self.lamport_clock) + (field_bytes::<VersionMap>(
            self.version_map,
        ) + (field_bytes::<DeletionMap>(self.deletion_map) + field_bytes::<BackLog>(
            self.backlog,
        )))))
    }

    /// Whether there can be values with these parts.
    pub open spec fn fits(self) -> bool {
        &&& RunTree::fits(self.run_tree)
        &&& RunIndices::fits(self.run_indices)
        &&& VersionMap::fits(self.version_map)
        &&& DeletionMap::fits(self.deletion_map)
        &&& BackLog::fits(self.backlog)
    }
}

/// The parts that some bytes hold, if they hold nothing else.
pub open spec fn parts_of(bytes: Seq<u8>) -> Option<ReplicaParts> {
    match read_field::<RunTree>(bytes) {
        None => None,
        Some((run_tree, bytes)) => match read_field::<RunIndices>(bytes) {
            None => None,
            Some((run_indices, bytes)) => match read_clock(bytes) {
                None => None,
                Some((lamport_clock, bytes)) => match read_field::<VersionMap>(bytes) {
                    None => None,
                    Some((version_map, bytes)) => match read_field::<DeletionMap>(bytes) {
                        None => None,
                        Some((deletion_map, bytes)) => match read_field::<BackLog>(bytes) {
                            None => None,
                            Some((backlog, bytes)) => if bytes.len() == 0 {
                                Some(
                                    ReplicaParts {
                                        run_tree,
                                        run_indices,
                                        lamport_clock,
                                        version_map,
                                        deletion_map,
                                        backlog,
                                    },
                                )
                            } else {
                                None
                            },
                        },
                    },
                },
            },
        },
    }
}

/// Why what has been received is refused, if it is.
pub open spec fn refusal(encoded: EncodedReplica) -> Option<DecodeError> {
    if encoded.protocol_version != PROTOCOL_VERSION {
        Some(
            DecodeError::DifferentProtocol {
                encoded_on: encoded.protocol_version,
                decoding_on: PROTOCOL_VERSION,
            },
        )
    } else if encoded.checksum.0 != spec_checksum(encoded.bytes@) {
        Some(DecodeError::ChecksumFailed)
    } else {
        match parts_of(encoded.bytes@) {
            Some(parts) if parts.can_fork() => None,
            _ => Some(DecodeError::InvalidData),
        }
    }
}

/// What has been received is refused for its protocol version if that is not the one of this
/// library, and otherwise for its checksum if that is not the one of the bytes.
proof fn lemma_refusal(received: EncodedReplica)
    ensures
        received.protocol_version != PROTOCOL_VERSION ==> refusal(received) == Some(
            DecodeError::DifferentProtocol {
                encoded_on: received.protocol_version,
                decoding_on: PROTOCOL_VERSION,
            },
        ),
        received.protocol_version == PROTOCOL_VERSION && received.checksum.0 != spec_checksum(
            received.bytes@,
        ) ==> refusal(received) == Some(DecodeError::ChecksumFailed),
{
}

/// What has been sent is refused for its protocol version where it comes with another one than it
/// was sent with.
pub proof fn law_another_protocol_is_refused(sent: EncodedReplica, received: EncodedReplica)
    requires
        sent.protocol_version == PROTOCOL_VERSION,
        received.protocol_version != sent.protocol_version,
    ensures
        refusal(received) == Some(
            DecodeError::DifferentProtocol {
                encoded_on: received.protocol_version,
                decoding_on: sent.protocol_version,
            },
        ),
{
    lemma_refusal(received);
}

/// What has been sent is refused for its checksum where one byte is damaged, wherever that is.
pub proof fn law_a_damaged_byte_is_refused(
    sent: EncodedReplica,
    received: EncodedReplica,
    i: int,
    byte: u8,
)
    requires
        sent.protocol_version == PROTOCOL_VERSION,
        sent.checksum.0 == spec_checksum(sent.bytes@),
        0 <= i < sent.bytes@.len(),
        byte != sent.bytes@[i],
        received.protocol_version == sent.protocol_version,
        received.checksum == sent.checksum,
        received.bytes@ == sent.bytes@.update(i, byte),
    ensures
        refusal(received) == Some(DecodeError::ChecksumFailed),
{
    law_a_damaged_byte_changes_the_checksum(sent.bytes@, i, byte);
    lemma_refusal(received);
}

/// What has been sent is refused for its checksum where two different bytes in a row have changed
/// places, wherever that is.
pub proof fn law_swapped_bytes_are_refused(
    sent: EncodedReplica,
    received: EncodedReplica,
    before: Seq<u8>,
    a: u8,
    b: u8,
    rest: Seq<u8>,
)
    requires
        sent.protocol_version == PROTOCOL_VERSION,
        sent.checksum.0 == spec_checksum(sent.bytes@),
        a != b,
        sent.bytes@ == before.push(a).push(b) + rest,
        received.protocol_version == sent.protocol_version,
        received.checksum == sent.checksum,
        received.bytes@ == before.push(b).push(a) + rest,
    ensures
        refusal(received) == Some(DecodeError::ChecksumFailed),
{
    law_swapped_bytes_change_the_checksum(before, a, b, rest);
    lemma_refusal(received);
}

/// What has been sent is refused for its checksum where the checksum itself is damaged.
pub proof fn law_another_checksum_is_refused(sent: EncodedReplica, received: EncodedReplica)
    requires
        sent.protocol_version == PROTOCOL_VERSION,
        sent.checksum.0 == spec_checksum(sent.bytes@),
        received.protocol_version == sent.protocol_version,
        received.bytes@ == sent.bytes@,
        received.checksum != sent.checksum,
    ensures
        refusal(received) == Some(DecodeError::ChecksumFailed),
{
    lemma_refusal(received);
}

/// Bytes after a frame do not change what the frame holds.
proof fn lemma_unframed_with_more(bytes: Seq<u8>, more: Seq<u8>)
    requires
        unframed(bytes) is Some,
    ensures
        unframed(bytes + more) == Some(((unframed(bytes)->0).0, (unframed(bytes)->0).1 + more)),
{
    let len = spec_u64_from_le_bytes(bytes.take(8));
    assert((bytes + more).take(8) =~= bytes.take(8));
    assert((bytes + more).subrange(8, 8 + len) =~= bytes.subrange(8, 8 + len));
    assert((bytes + more).skip(8 + len) =~= bytes.skip(8 + len) + more);
}

/// Bytes after a field do not change what the field holds.
proof fn lemma_field_with_more<T: Wire>(bytes: Seq<u8>, more: Seq<u8>)
    requires
        read_field::<T>(bytes) is Some,
    ensures
        read_field::<T>(bytes + more) == Some(
            ((read_field::<T>(bytes)->0).0, (read_field::<T>(bytes)->0).1 + more),
        ),
{
    lemma_unframed_with_more(bytes, more);
}

/// Bytes of a replica with others after them are not those of a replica, and neither are they with
/// some missing at the end.
pub proof fn law_bytes_are_taken_as_a_whole(bytes: Seq<u8>, more: Seq<u8>)
    requires
        more.len() > 0,
    ensures
        parts_of(bytes) is Some ==> parts_of(bytes + more) is None,
        parts_of(bytes + more) is Some ==> parts_of(bytes) is None,
{
    if parts_of(bytes) is Some {
        let a = (read_field::<RunTree>(bytes)->0).1;
        let b = (read_field::<RunIndices>(a)->0).1;
        let c = (read_clock(b)->0).1;
        let d = (read_field::<VersionMap>(c)->0).1;
        let e = (read_field::<DeletionMap>(d)->0).1;
        let f = (read_field::<BackLog>(e)->0).1;
        lemma_field_with_more::<RunTree>(bytes, more);
        lemma_field_with_more::<RunIndices>(a, more);
        lemma_unframed_with_more(b, more);
        assert(read_clock(b + more) == Some(((read_clock(b)->0).0, c + more)));
        lemma_field_with_more::<VersionMap>(c, more);
        lemma_field_with_more::<DeletionMap>(d, more);
        lemma_field_with_more::<BackLog>(e, more);
        assert((f + more).len() > 0);
    }
}

/// The words that bytes start with are written as those bytes.
proof fn lemma_words_are_written_as_read(bytes: Seq<u8>)
    ensures
        words_of_bytes(bytes) matches Some(words) ==> {
            &&& words.len() <= u64::MAX
            &&& bytes_of_words(words).len() == 8 + 8 * words.len()
            &&& bytes.len() >= 8 + 8 * words.len()
            &&& bytes.take((8 + 8 * words.len()) as int) == bytes_of_words(words)
        },
{
    if words_of_bytes(bytes) is Some {
        let words = words_of_bytes(bytes)->0;
        let n = words.len() as int;
        let all = bytes_of_words(words);
        lemma_auto_spec_u64_to_from_le_bytes();
        assert(bytes.take(8).len() == 8);
        assert(spec_u64_to_le_bytes(n as u64) == bytes.take(8));
        lemma_words_round_trip(words);
        assert forall|j: int| 0 <= j < 8 + 8 * n implies bytes.take(8 + 8 * n)[j] == all[j] by {
            if j < 8 {
                assert(all[j] == bytes.take(8)[j]);
            } else {
                let i = (j - 8) / 8;
                let r = (j - 8) % 8;
                lemma_word_bytes(words, i);
                let word = bytes.subrange(8 + 8 * i, 16 + 8 * i);
                assert(word.len() == 8);
                assert(spec_u64_to_le_bytes(words[i]) == word);
                assert(all[j] == word_bytes(words)[j - 8]);
                assert(word_bytes(words).subrange(8 * i, 8 * i + 8)[r] == word_bytes(words)[8 * i
                    + r]);
            }
        }
        assert(bytes.take(8 + 8 * n) =~= all);
    }
}

/// How many bytes of a frame are read.
proof fn lemma_unframed_len(bytes: Seq<u8>)
    ensures
        unframed(bytes) matches Some((field, rest)) ==> {
            &&& field.len() <= u64::MAX
            &&& bytes.len() == 8 + field.len() + rest.len()
            &&& bytes == framed(field) + rest
        },
{
    if unframed(bytes) is Some {
        let (field, rest) = unframed(bytes)->0;
        lemma_auto_spec_u64_to_from_le_bytes();
        assert(bytes.take(8).len() == 8);
        assert(spec_u64_to_le_bytes(field.len() as u64) == bytes.take(8));
        assert(bytes =~= framed(field) + rest);
    }
}

/// A field that has been read takes no fewer bytes than it is written as, and if no more, then
/// these.
proof fn lemma_field_is_written_as_read<T: Wire>(bytes: Seq<u8>)
    ensures
        read_field::<T>(bytes) matches Some((m, rest)) ==> {
            &&& bytes.len() >= field_bytes::<T>(m).len() + rest.len()
            &&& bytes.len() == field_bytes::<T>(m).len() + rest.len() ==> bytes == field_bytes::<T>(
                m,
            ) + rest
        },
{
    if read_field::<T>(bytes) is Some {
        let (field, rest) = unframed(bytes)->0;
        let words = words_of_bytes(field)->0;
        let (m, left) = T::read(words)->0;
        lemma_auto_spec_u64_to_from_le_bytes();
        lemma_unframed_len(bytes);
        lemma_words_are_written_as_read(field);
        T::lemma_read(words);
        assert(T::words(m) + left =~= T::words(m));
        assert(field.take(field.len() as int) =~= field);
    }
}

/// A clock that has been read takes no fewer bytes than it is written as, and if no more, then
/// these.
proof fn lemma_clock_is_written_as_read(bytes: Seq<u8>)
    ensures
        read_clock(bytes) matches Some((clock, rest)) ==> {
            &&& bytes.len() >= clock_bytes(clock).len() + rest.len()
            &&& bytes.len() == clock_bytes(clock).len() + rest.len() ==> bytes == clock_bytes(clock)
                + rest
        },
{
    if read_clock(bytes) is Some {
        let (field, rest) = unframed(bytes)->0;
        lemma_auto_spec_u64_to_from_le_bytes();
        lemma_unframed_len(bytes);
        assert(field.take(8).len() == 8);
        if field.len() == 8 {
            assert(field.take(8) =~= field);
        }
    }
}

/// Nothing is decoded from bytes that are not those of a replica: bytes of which parts are decoded
/// are no fewer than those that the parts are encoded as, and if they are as many, they are the
/// same.
pub proof fn law_nothing_but_encodings_is_decoded(bytes: Seq<u8>)
    ensures
        parts_of(bytes) matches Some(parts) ==> {
            &&& bytes.len() >= parts.bytes().len()
            &&& bytes.len() == parts.bytes().len() ==> bytes == parts.bytes()
        },
{
    if parts_of(bytes) is Some {
        let parts = parts_of(bytes)->0;
        let a = (read_field::<RunTree>(bytes)->0).1;
        let b = (read_field::<RunIndices>(a)->0).1;
        let c = (read_clock(b)->0).1;
        let d = (read_field::<VersionMap>(c)->0).1;
        let e = (read_field::<DeletionMap>(d)->0).1;
        let f = (read_field::<BackLog>(e)->0).1;
        lemma_field_is_written_as_read::<RunTree>(bytes);
        lemma_field_is_written_as_read::<RunIndices>(a);
        lemma_clock_is_written_as_read(b);
        lemma_field_is_written_as_read::<VersionMap>(c);
        lemma_field_is_written_as_read::<DeletionMap>(d);
        lemma_field_is_written_as_read::<BackLog>(e);
        assert(f =~= Seq::<u8>::empty());
        let last = field_bytes::<BackLog>(parts.backlog);
        assert(last + f =~= last);
    }
}

/// Replicas that are made of different parts are encoded as different bytes.
pub proof fn law_different_parts_have_different_bytes(a: ReplicaParts, b: ReplicaParts)
    requires
        a.fits(),
        b.fits(),
        a.bytes().len() <= u64::MAX,
        b.bytes().len() <= u64::MAX,
        a != b,
    ensures
        a.bytes() != b.bytes(),
{
    law_encoding_is_lossless(a);
    law_encoding_is_lossless(b);
}

/// What has been encoded is decoded again.
pub proof fn law_encoding_is_lossless(parts: ReplicaParts)
    requires
        parts.fits(),
        parts.bytes().len() <= u64::MAX,
    ensures
        parts_of(parts.bytes()) == Some(parts),
{
    let f = field_bytes::<BackLog>(parts.backlog);
    let e = field_bytes::<DeletionMap>(parts.deletion_map) + f;
    let d = field_bytes::<VersionMap>(parts.version_map) + e;
    let c = clock_bytes(parts.lamport_clock) + d;
    let b = field_bytes::<RunIndices>(parts.run_indices) + c;
    lemma_field_round_trip::<RunTree>(parts.run_tree, b);
    lemma_field_round_trip::<RunIndices>(parts.run_indices, c);
    lemma_clock_round_trip(parts.lamport_clock, d);
    lemma_field_round_trip::<VersionMap>(parts.version_map, e);
    lemma_field_round_trip::<DeletionMap>(parts.deletion_map, f);
    lemma_field_round_trip::<BackLog>(parts.backlog, Seq::empty());
    assert(f + Seq::<u8>::empty() =~= f);
}

/// The parts of a replica that has been decoded.
pub struct EncodedFields {
    pub run_tree: RunTree,
    pub run_indices: RunIndices,
    pub lamport_clock: LamportClock,
    pub version_map: VersionMap,
    pub deletion_map: DeletionMap,
    pub backlog: BackLog,
}

/// What is encoded of a replica that is made of the given values.
pub open spec fn parts(
    run_tree: RunTree,
    run_indices: RunIndices,
    lamport_clock: LamportClock,
    version_map: VersionMap,
    deletion_map: DeletionMap,
    backlog: BackLog,
) -> ReplicaParts {
    ReplicaParts {
        run_tree: run_tree.model(),
        run_indices: run_indices.model(),
        lamport_clock,
        version_map: version_map.model(),
        deletion_map: deletion_map.model(),
        backlog: backlog.model(),
    }
}

/// Encodes the parts of a replica.
pub fn encode(
    run_tree: &RunTree,
    run_indices: &RunIndices,
    lamport_clock: &LamportClock,
    version_map: &VersionMap,
    deletion_map: &DeletionMap,
    backlog: &BackLog,
) -> (bytes: Vec<u8>)
    ensures
        ({
            let parts = parts(
                *run_tree,
                *run_indices,
                *lamport_clock,
                *version_map,
                *deletion_map,
                *backlog,
            );
            &&& bytes@ == parts.bytes()
            &&& parts_of(bytes@) == Some(parts)
        }),
{
    let mut encoded: Vec<u8> = Vec::new();
    encode_field(&mut encoded, run_tree);
    encode_field(&mut encoded, run_indices);
    encode_clock(&mut encoded, lamport_clock);
    encode_field(&mut encoded, version_map);
    encode_field(&mut encoded, deletion_map);
    encode_field(&mut encoded, backlog);
    proof {
        let parts = parts(
            *run_tree,
            *run_indices,
            *lamport_clock,
            *version_map,
            *deletion_map,
            *backlog,
        );
        assert(encoded@ =~= parts.bytes());
        run_tree.lemma_fits();
        run_indices.lemma_fits();
        version_map.lemma_fits();
        deletion_map.lemma_fits();
        backlog.lemma_fits();
        assert(parts.bytes().len() == encoded.len());
        law_encoding_is_lossless(parts);
    }
    encoded
}

/// Decodes the parts of a replica.
pub fn decode(bytes: &[u8]) -> (fields: Option<EncodedFields>)
    ensures
        match parts_of(bytes@) {
            Some(expected) => fields matches Some(fields) && parts(
                fields.run_tree,
                fields.run_indices,
                fields.lamport_clock,
                fields.version_map,
                fields.deletion_map,
                fields.backlog,
            ) == expected,
            None => fields is None,
        },
{
    let (run_tree, bytes) = decode_field::<RunTree>(bytes)?;
    let (run_indices, bytes) = decode_field::<RunIndices>(bytes)?;
    let (lamport_clock, bytes) = decode_clock(bytes)?;
    let (version_map, bytes) = decode_field::<VersionMap>(bytes)?;
    let (deletion_map, bytes) = decode_field::<DeletionMap>(bytes)?;
    let (backlog, bytes) = decode_field::<BackLog>(bytes)?;
    if bytes.len() == 0 {
        Some(
            EncodedFields {
                run_tree,
                run_indices,
                lamport_clock,
                version_map,
                deletion_map,
                backlog,
            },
        )
    } else {
        None
    }
}

} // verus!
