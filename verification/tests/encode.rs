//! Replicas that are sent to other peers.

use cola::{
    checksum, CrdtEdit, DecodeError, EncodedReplica, Replica, ReplicaId, TextEdit, PROTOCOL_VERSION,
};

#[test]
fn encode_empty() {
    let replica = Replica::new(0, 42);

    let encoded = replica.encode();

    let decoded = Replica::decode(1, &encoded).unwrap();

    assert_eq!(decoded.id(), ReplicaId::from(1));

    assert!(replica.eq_decoded(&decoded));
}

/// How one peer has written a text, from nothing on: each time the part of the text between two
/// offsets has given way to another text.
const EDITS: [(usize, usize, &str); 129] = [
    (0, 0, "\\"), (1, 1, "d"), (2, 2, "o"), (3, 3, "c"), (4, 4, "u"), (5, 5, "m"), (6, 6, "e"),
    (7, 7, "n"), (8, 8, "t"), (9, 9, "c"), (10, 10, "l"), (11, 11, "a"), (12, 12, "s"),
    (13, 13, "s"), (14, 14, "{"), (15, 15, "a"), (16, 16, "r"), (17, 17, "t"), (18, 18, "i"),
    (19, 19, "c"), (20, 20, "l"), (21, 21, "e"), (22, 22, "}"), (23, 23, "\n"), (24, 24, "\n"),
    (25, 25, "\\"), (26, 26, "t"), (27, 27, "i"), (28, 28, "t"), (29, 29, "l"), (30, 30, "e"),
    (31, 31, "{"), (32, 32, "R"), (33, 33, "e"), (34, 34, "p"), (35, 35, "l"), (36, 36, "i"),
    (37, 37, "c"), (38, 38, "t"), (39, 39, "e"), (40, 40, "d"), (41, 41, " "), (41, 42, ""),
    (40, 41, ""), (39, 40, ""), (38, 39, ""), (38, 38, "a"), (39, 39, "t"), (40, 40, "e"),
    (41, 41, "d"), (42, 42, " "), (43, 43, "t"), (44, 44, "e"), (45, 45, "x"), (46, 46, "t"),
    (47, 47, "}"), (48, 48, "\n"), (49, 49, "\\"), (50, 50, "b"), (51, 51, "e"), (52, 52, "g"),
    (53, 53, "i"), (54, 54, "n"), (55, 55, "{"), (56, 56, "d"), (57, 57, "o"), (58, 58, "c"),
    (59, 59, "u"), (60, 60, "m"), (61, 61, "e"), (62, 62, "n"), (63, 63, "t"), (64, 64, "}"),
    (65, 65, "\n"), (66, 66, "\n"), (67, 67, "\\"), (68, 68, "e"), (69, 69, "n"), (70, 70, "d"),
    (71, 71, "{"), (72, 72, "d"), (73, 73, "o"), (74, 74, "c"), (75, 75, "u"), (76, 76, "m"),
    (77, 77, "e"), (78, 78, "n"), (79, 79, "t"), (80, 80, "}"), (81, 81, "\n"), (66, 66, "W"),
    (67, 67, "e"), (68, 68, " "), (69, 69, "s"), (70, 70, "h"), (71, 71, "o"), (72, 72, "w"),
    (73, 73, " "), (74, 74, "h"), (75, 75, "o"), (76, 76, "w"), (77, 77, " "),
    (78, 78, "several people can edit one text at a time"), (110, 120, " at the same time"),
    (78, 92, "many peers"), (15, 22, "report"), (20, 21, ""), (19, 20, ""), (18, 19, ""),
    (17, 18, ""), (16, 17, ""), (15, 16, ""), (15, 15, "b"), (16, 16, "o"), (17, 17, "o"),
    (18, 18, "k"), (63, 63, "\\section{Introduction}\n"), (143, 143, "."),
    (144, 144, " No server is needed. Nothing is lost."), (145, 166, ""), (0, 0, "% draft\n"),
    (2, 7, "final"), (2, 3, ""), (2, 2, "F"), (28, 29, ""), (184, 184, "\n"), (184, 185, ""),
    (101, 104, "that"), (101, 101, ""),
];

/// What has come of it.
const WRITTEN: &str = "% Final\n\
    \\documentclass{book}\n\
    \\title{Replicated text}\n\
    \\begin{document}\n\
    \\section{Introduction}\n\
    We show that many peers can edit one text at the same time. Nothing is lost.\n\
    \\end{document}\n";

#[test]
fn encode_automerge() {
    let mut replica = Replica::new(0, 0);
    let mut written = String::new();

    for (start, end, text) in EDITS {
        let _ = replica.deleted(start..end);
        let _ = replica.inserted(start, text.len());
        written.replace_range(start..end, text);
    }

    assert_eq!(written, WRITTEN);
    assert_eq!(replica.len(), written.len());

    let encoded = replica.encode();

    let decoded = Replica::decode(1, &encoded).unwrap();

    assert_eq!(decoded.id(), ReplicaId::from(1));

    assert!(replica.eq_decoded(&decoded));
}

/// A replica with runs of two peers, deleted text and edits that wait.
fn busy_replica() -> (Replica, Vec<CrdtEdit>) {
    let mut one = Replica::new(1, 4);
    let mut two = one.fork(2);
    let mut three = one.fork(3);
    let a = two.inserted(2, 3);
    let b = two.inserted(5, 1);
    let c = two.deleted(1..4);
    let d = three.inserted(0, 2);
    let e = three.deleted(1..2);
    assert!(one.merge(&a).is_some());
    assert!(one.merge(&c).is_none());
    assert!(one.merge(&e).is_none());
    (one, vec![b, d])
}

#[test]
fn encode_busy() {
    let (replica, missing) = busy_replica();
    let mut decoded = Replica::decode(7, &replica.encode()).unwrap();
    assert_eq!(decoded.id(), ReplicaId::from(7));
    assert!(replica.eq_decoded(&decoded));
    assert!(decoded.assert_invariants());
    assert!(decoded.is_sound());
    assert_eq!(decoded.len(), replica.len());
    // What waited in the replica waits in the decoded one too.
    for edit in &missing {
        assert!(decoded.merge(edit).is_some());
    }
    let mut backlogged = decoded.backlogged();
    assert!(backlogged.next().is_some());
    assert!(backlogged.next().is_some());
    assert!(backlogged.next().is_none());
}

#[test]
fn encoding_does_not_depend_on_who_encodes() {
    let (one, _) = busy_replica();
    let (two, _) = busy_replica();
    assert_eq!(one.encode().bytes(), two.encode().bytes());
}

#[test]
fn decoded_differs_from_an_edited_replica() {
    let mut replica = Replica::new(0, 42);
    let decoded = Replica::decode(1, &replica.encode()).unwrap();
    let _ = replica.deleted(3..5);
    assert!(!replica.eq_decoded(&decoded));
}

#[test]
fn decoded_replica_takes_part() {
    let mut one = Replica::new(1, 2);
    let mut two = Replica::decode(2, &one.encode()).unwrap();
    let insertion = two.inserted(1, 3);
    let deletion = two.deleted(0..2);
    match one.merge(&insertion) {
        Some(TextEdit::Insertion(offset, text)) => {
            assert_eq!(offset, 1);
            assert_eq!(text.inserted_by(), ReplicaId::from(2));
            assert_eq!(text.temporal_range(), 0..3);
        }
        _ => unreachable!(),
    }
    match one.merge(&deletion) {
        Some(TextEdit::ContiguousDeletion(range)) => assert_eq!(range, 0..2),
        _ => unreachable!(),
    }
    assert_eq!(one.len(), 3);
    assert_eq!(two.len(), 3);
}

#[test]
fn a_word_takes_eight_bytes() {
    let encoded = Replica::new(5, 3).encode();
    let bytes = encoded.bytes();
    // The first field holds 11 words: the number of runs, a run of eight words, the number of
    // places, and a place. Before them stands their number.
    assert_eq!(&bytes[0..8], &[96, 0, 0, 0, 0, 0, 0, 0]);
    assert_eq!(&bytes[8..16], &[11, 0, 0, 0, 0, 0, 0, 0]);
    // One run, inserted by replica 5 at the start of the text.
    assert_eq!(&bytes[16..24], &[1, 0, 0, 0, 0, 0, 0, 0]);
    assert_eq!(&bytes[40..48], &[5, 0, 0, 0, 0, 0, 0, 0]);
    assert_eq!(&bytes[56..64], &[3, 0, 0, 0, 0, 0, 0, 0]);
}

fn error_of(encoded: &EncodedReplica) -> Option<DecodeError> {
    match Replica::decode(9, encoded) {
        Ok(_) => None,
        Err(error) => Some(error),
    }
}

#[test]
fn other_protocols_are_refused() {
    let encoded = Replica::new(0, 42).encode();
    assert_eq!(encoded.protocol_version(), PROTOCOL_VERSION);
    let bytes = encoded.bytes().to_vec();
    let other = EncodedReplica::new(PROTOCOL_VERSION + 1, *encoded.checksum(), bytes);
    assert_eq!(
        error_of(&other),
        Some(DecodeError::DifferentProtocol {
            encoded_on: PROTOCOL_VERSION + 1,
            decoding_on: PROTOCOL_VERSION,
        })
    );
}

#[test]
fn damaged_bytes_are_refused() {
    let encoded = Replica::new(0, 42).encode();
    let mut bytes = encoded.bytes().to_vec();
    bytes[40] ^= 1;
    let damaged = EncodedReplica::new(PROTOCOL_VERSION, *encoded.checksum(), bytes);
    assert_eq!(error_of(&damaged), Some(DecodeError::ChecksumFailed));
}

fn with_bytes(bytes: Vec<u8>) -> EncodedReplica {
    let sum = checksum(&bytes);
    EncodedReplica::new(PROTOCOL_VERSION, sum, bytes)
}

#[test]
fn bytes_of_something_else_are_refused() {
    let bytes = Replica::new(0, 42).encode().bytes().to_vec();
    assert_eq!(error_of(&with_bytes(bytes.clone())), None);
    // Nothing at all.
    assert_eq!(error_of(&with_bytes(vec![])), Some(DecodeError::InvalidData));
    // The end is missing.
    let short = bytes[..bytes.len() - 1].to_vec();
    assert_eq!(error_of(&with_bytes(short)), Some(DecodeError::InvalidData));
    // Something follows.
    let mut long = bytes.clone();
    long.push(0);
    assert_eq!(error_of(&with_bytes(long)), Some(DecodeError::InvalidData));
    // The first field claims to be longer than everything.
    let mut wrong = bytes.clone();
    wrong[6] = 1;
    assert_eq!(error_of(&with_bytes(wrong)), Some(DecodeError::InvalidData));
    // The first field claims to hold more words than it does.
    let mut wrong = bytes.clone();
    wrong[8] += 1;
    assert_eq!(error_of(&with_bytes(wrong)), Some(DecodeError::InvalidData));
    // The first field claims to hold fewer words than it needs.
    let mut wrong = bytes.clone();
    wrong[8] -= 1;
    assert_eq!(error_of(&with_bytes(wrong)), Some(DecodeError::InvalidData));
    // A run that is neither deleted nor not.
    let mut wrong = bytes.clone();
    wrong[80] = 2;
    assert_eq!(error_of(&with_bytes(wrong)), Some(DecodeError::InvalidData));
}

#[test]
fn unsound_replicas_are_found() {
    let bytes = Replica::new(0, 42).encode().bytes().to_vec();
    let sound = Replica::decode(1, &with_bytes(bytes.clone())).unwrap();
    assert!(sound.assert_invariants());
    assert!(sound.is_sound());
    // The run claims to hold one character less than is counted.
    let mut wrong = bytes.clone();
    assert_eq!(wrong[56], 42);
    wrong[56] = 41;
    let unsound = Replica::decode(1, &with_bytes(wrong)).unwrap();
    assert!(!unsound.assert_invariants());
    assert!(!unsound.is_sound());
    // One character less is counted than the text holds: the text is sound, the replica is not.
    let mut wrong = bytes.clone();
    assert_eq!(wrong[208], 42);
    wrong[208] = 41;
    let unsound = Replica::decode(1, &with_bytes(wrong)).unwrap();
    assert!(unsound.assert_invariants());
    assert!(!unsound.is_sound());
}

#[test]
fn a_clock_is_framed_as_a_single_word() {
    let encoded = Replica::new(5, 3).encode();
    let clock = &encoded.bytes()[168..184];
    assert_eq!(clock, &[8, 0, 0, 0, 0, 0, 0, 0, 1, 0, 0, 0, 0, 0, 0, 0]);
}

#[test]
fn a_clock_that_has_run_out_is_refused() {
    let mut bytes = Replica::new(5, 3).encode().bytes().to_vec();
    for byte in &mut bytes[176..184] {
        *byte = 255;
    }
    assert_eq!(error_of(&with_bytes(bytes.clone())), Some(DecodeError::InvalidData));
    bytes[176] = 254;
    assert_eq!(error_of(&with_bytes(bytes)), None);
}

#[test]
fn a_short_clock_is_refused() {
    let bytes = Replica::new(5, 3).encode().bytes().to_vec();
    let mut short = bytes.clone();
    short[168] = 7;
    short.remove(183);
    assert_eq!(error_of(&with_bytes(short)), Some(DecodeError::InvalidData));
}

#[test]
fn deletions_may_be_counted_from_zero() {
    let mut bytes = Replica::new(5, 3).encode().bytes().to_vec();
    assert_eq!(bytes[248], 1);
    bytes[248] = 0;
    let mut decoded = Replica::decode(9, &with_bytes(bytes)).unwrap();
    assert!(decoded.is_sound());
    let mut other = Replica::new(5, 3);
    let deletion = other.deleted(0..1);
    assert!(decoded.merge(&deletion).is_some());
}

#[test]
fn checksum_of_known_bytes() {
    assert_eq!(checksum(&[]).0, 0xcbf2_9ce4_8422_2325);
    assert_eq!(checksum(b"a").0, 0xaf63_dc4c_8601_ec8c);
    assert_eq!(checksum(b"foobar").0, 0x8594_4171_f739_67e8);
}
