//! Replicas on their way to other peers.

use vstd::prelude::*;

verus! {

/// Counts the formats that replicas are encoded in.
pub type ProtocolVersion = u64;

/// The format that replicas are encoded in.
pub const PROTOCOL_VERSION: ProtocolVersion = 0;

/// The checksum of no bytes.
pub const CHECKSUM_START: u64 = 0xcbf2_9ce4_8422_2325;

/// What the checksum is multiplied by at each byte.
pub const CHECKSUM_FACTOR: u64 = 0x0000_0100_0000_01b3;

/// Tells bytes that have been damaged from those that have been sent.
#[derive(Clone, Copy, Debug, PartialEq, Eq, Structural)]
pub struct Checksum(pub u64);

/// The 64-bit FNV-1a hash of the bytes.
pub open spec fn spec_checksum(bytes: Seq<u8>) -> u64
    decreases bytes.len(),
{
    if bytes.len() == 0 {
        CHECKSUM_START
    } else {
        (spec_checksum(bytes.drop_last()) ^ (bytes.last() as u64)).wrapping_mul(CHECKSUM_FACTOR)
    }
}

/// The checksum of the bytes.
pub fn checksum(bytes: &[u8]) -> (sum: Checksum)
    ensures
        sum.0 == spec_checksum(bytes@),
{
    let mut sum: u64 = CHECKSUM_START;
    let mut i: usize = 0;
    while i < bytes.len()
        invariant
            i <= bytes@.len(),
            sum == spec_checksum(bytes@.take(i as int)),
        decreases bytes@.len() - i,
    {
        assert(bytes@.take(i + 1).drop_last() =~= bytes@.take(i as int));
        sum = (sum ^ (bytes[i] as u64)).wrapping_mul(CHECKSUM_FACTOR);
        i = i + 1;
    }
    assert(bytes@.take(i as int) =~= bytes@);
    Checksum(sum)
}

/// What the factor is multiplied by to give 1, modulo 2 to the 64.
pub const CHECKSUM_FACTOR_INVERSE: u64 = 0xce96_5057_aff6_957b;

/// Multiplying by the factor maps no two numbers to the same.
proof fn lemma_factor_is_injective(a: u64, b: u64)
    requires
        a != b,
    ensures
        a.wrapping_mul(CHECKSUM_FACTOR) != b.wrapping_mul(CHECKSUM_FACTOR),
{
    let m: int = 0x1_0000_0000_0000_0000;
    let factor: int = CHECKSUM_FACTOR as int;
    let inverse: int = CHECKSUM_FACTOR_INVERSE as int;
    let x = a as int * factor;
    let y = b as int * factor;
    if a.wrapping_mul(CHECKSUM_FACTOR) == b.wrapping_mul(CHECKSUM_FACTOR) {
        assert(x % m == y % m);
        let d = x / m - y / m;
        assert(x - y == m * d);
        assert((a - b) * factor == m * d);
        assert(factor * inverse == 1 + 887285111055 * m);
        let t = d * inverse - (a - b) * 887285111055;
        assert(a - b == m * t);
        assert(t == 0);
    }
}

/// Another byte, or another checksum of the bytes before it, is another checksum.
proof fn lemma_checksum_step(sum: u64, byte: u8, other_sum: u64, other: u8)
    requires
        (sum == other_sum) != (byte == other),
    ensures
        (sum ^ (byte as u64)).wrapping_mul(CHECKSUM_FACTOR) != (other_sum ^ (
        other as u64)).wrapping_mul(CHECKSUM_FACTOR),
{
    let x = byte as u64;
    let y = other as u64;
    assert(sum == other_sum && x != y ==> sum ^ x != other_sum ^ y) by (bit_vector);
    assert(sum != other_sum && x == y ==> sum ^ x != other_sum ^ y) by (bit_vector);
    lemma_factor_is_injective(sum ^ x, other_sum ^ y);
}

/// A single byte that is damaged, wherever it is, changes the checksum.
pub proof fn law_a_damaged_byte_changes_the_checksum(bytes: Seq<u8>, i: int, byte: u8)
    requires
        0 <= i < bytes.len(),
        byte != bytes[i],
    ensures
        spec_checksum(bytes.update(i, byte)) != spec_checksum(bytes),
    decreases bytes.len(),
{
    let damaged = bytes.update(i, byte);
    if i == bytes.len() - 1 {
        assert(damaged.drop_last() =~= bytes.drop_last());
    } else {
        assert(damaged.drop_last() =~= bytes.drop_last().update(i, byte));
        law_a_damaged_byte_changes_the_checksum(bytes.drop_last(), i, byte);
    }
    lemma_checksum_step(
        spec_checksum(bytes.drop_last()),
        bytes.last(),
        spec_checksum(damaged.drop_last()),
        damaged.last(),
    );
}

/// Damage that has changed the checksum is not undone by what follows it.
pub proof fn law_damage_is_not_undone_by_what_follows(
    bytes: Seq<u8>,
    damaged: Seq<u8>,
    rest: Seq<u8>,
)
    requires
        spec_checksum(bytes) != spec_checksum(damaged),
    ensures
        spec_checksum(bytes + rest) != spec_checksum(damaged + rest),
    decreases rest.len(),
{
    if rest.len() == 0 {
        assert(bytes + rest =~= bytes);
        assert(damaged + rest =~= damaged);
    } else {
        law_damage_is_not_undone_by_what_follows(bytes, damaged, rest.drop_last());
        assert((bytes + rest).drop_last() =~= bytes + rest.drop_last());
        assert((damaged + rest).drop_last() =~= damaged + rest.drop_last());
        lemma_checksum_step(
            spec_checksum(bytes + rest.drop_last()),
            rest.last(),
            spec_checksum(damaged + rest.drop_last()),
            rest.last(),
        );
    }
}

/// Two bytes in a row that change places give another checksum.
proof fn lemma_checksum_of_swapped(sum: u64, a: u8, b: u8)
    requires
        a != b,
    ensures
        (sum ^ (a as u64)).wrapping_mul(CHECKSUM_FACTOR) ^ (b as u64) != (sum ^ (
        b as u64)).wrapping_mul(CHECKSUM_FACTOR) ^ (a as u64),
{
    let m: int = 0x1_0000_0000_0000_0000;
    let factor: int = CHECKSUM_FACTOR as int;
    let p = a as u64;
    let q = b as u64;
    let x = sum ^ p;
    let y = sum ^ q;
    let u = x.wrapping_mul(CHECKSUM_FACTOR);
    let v = y.wrapping_mul(CHECKSUM_FACTOR);
    if u ^ q == v ^ p {
        assert(p < 256 && q < 256 && p != q);
        assert(x != y && x / 256 == y / 256) by (bit_vector)
            requires
                x == sum ^ p,
                y == sum ^ q,
                p < 256,
                q < 256,
                p != q,
        ;
        assert(u / 256 == v / 256) by (bit_vector)
            requires
                u ^ q == v ^ p,
                p < 256,
                q < 256,
        ;
        assert(-256 < u - v < 256);
        assert(-256 < x - y < 256);
        let i = x as int * factor;
        let j = y as int * factor;
        assert(u == i % m && v == j % m);
        let k = i / m - j / m;
        assert((x - y) * factor - (u - v) == m * k);
        assert(k == 0);
    }
}

/// Two different bytes in a row that change places, wherever they are, change the checksum.
pub proof fn law_swapped_bytes_change_the_checksum(
    before: Seq<u8>,
    a: u8,
    b: u8,
    rest: Seq<u8>,
)
    requires
        a != b,
    ensures
        spec_checksum(before.push(a).push(b) + rest) != spec_checksum(
            before.push(b).push(a) + rest,
        ),
{
    let sum = spec_checksum(before);
    let sent = before.push(a).push(b);
    let swapped = before.push(b).push(a);
    assert(sent.drop_last() =~= before.push(a));
    assert(swapped.drop_last() =~= before.push(b));
    assert(before.push(a).drop_last() =~= before);
    assert(before.push(b).drop_last() =~= before);
    assert(spec_checksum(before.push(a)) == (sum ^ (a as u64)).wrapping_mul(CHECKSUM_FACTOR));
    assert(spec_checksum(before.push(b)) == (sum ^ (b as u64)).wrapping_mul(CHECKSUM_FACTOR));
    lemma_checksum_of_swapped(sum, a, b);
    lemma_factor_is_injective(
        spec_checksum(before.push(a)) ^ (b as u64),
        spec_checksum(before.push(b)) ^ (a as u64),
    );
    law_damage_is_not_undone_by_what_follows(sent, swapped, rest);
}

/// A first byte that is lost, or one too many, changes the checksum.
pub proof fn law_a_lost_first_byte_changes_the_checksum(byte: u8, rest: Seq<u8>)
    ensures
        spec_checksum(seq![byte] + rest) != spec_checksum(rest),
{
    let none = Seq::<u8>::empty();
    let one = seq![byte];
    let x = CHECKSUM_START ^ (byte as u64);
    let m: int = 0x1_0000_0000_0000_0000;
    let factor: int = CHECKSUM_FACTOR as int;
    assert(one.drop_last() =~= none);
    assert(spec_checksum(none) == CHECKSUM_START);
    assert(one.last() == byte);
    assert(spec_checksum(one) == x.wrapping_mul(CHECKSUM_FACTOR));
    assert(x / 256 == CHECKSUM_START / 256) by {
        let y = byte as u64;
        let start = CHECKSUM_START;
        assert((start ^ y) / 256 == start / 256) by (bit_vector)
            requires
                y < 256,
        ;
    }
    if spec_checksum(one) == CHECKSUM_START {
        let i = x as int * factor;
        assert(i % m == CHECKSUM_START as int);
        assert(i == m * (i / m) + CHECKSUM_START as int);
        assert(false);
    }
    law_damage_is_not_undone_by_what_follows(one, none, rest);
    assert(none + rest =~= rest);
}

/// A replica as bytes, to be sent to another peer.
#[derive(Debug)]
pub struct EncodedReplica {
    pub protocol_version: ProtocolVersion,
    pub checksum: Checksum,
    pub bytes: Vec<u8>,
}

impl EncodedReplica {
    pub fn new(protocol_version: ProtocolVersion, checksum: Checksum, bytes: Vec<u8>) -> (encoded:
        EncodedReplica)
        ensures
            encoded == (EncodedReplica { protocol_version, checksum, bytes }),
    {
        EncodedReplica { protocol_version, checksum, bytes }
    }

    pub fn protocol_version(&self) -> (version: ProtocolVersion)
        ensures
            version == self.protocol_version,
    {
        self.protocol_version
    }

    pub fn checksum(&self) -> (checksum: &Checksum)
        ensures
            *checksum == self.checksum,
    {
        &self.checksum
    }

    pub fn bytes(&self) -> (bytes: &[u8])
        ensures
            bytes@ == self.bytes@,
    {
        self.bytes.as_slice()
    }
}

/// Why a replica could not be decoded.
#[derive(Clone, Copy, Debug, PartialEq, Eq, Structural)]
pub enum DecodeError {
    /// The replica has been encoded in another format.
    DifferentProtocol { encoded_on: ProtocolVersion, decoding_on: ProtocolVersion },
    /// The bytes are not those that have been sent.
    ChecksumFailed,
    /// The bytes are not those of a replica.
    InvalidData,
}

} // verus!
