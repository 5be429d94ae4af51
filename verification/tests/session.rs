//! Peers that edit the same text at once.

use cola::{CrdtEdit, Replica, ReplicaId, TextEdit};

/// A peer with its buffer. Each character is named by the peer that has inserted it and by its
/// position among the characters of that peer.
struct Peer {
    replica: Replica,
    buffer: Vec<(u64, usize)>,
    inserted: usize,
}

impl Peer {
    fn first(id: u64, len: usize) -> Peer {
        Peer {
            replica: Replica::new(id, len),
            buffer: (0..len).map(|ts| (id, ts)).collect(),
            inserted: len,
        }
    }

    fn fork(&self, id: u64) -> Peer {
        Peer { replica: self.replica.fork(id), buffer: self.buffer.clone(), inserted: 0 }
    }

    fn decoded(&self, id: u64) -> Peer {
        let replica = Replica::decode(id, &self.replica.encode()).unwrap();
        Peer { replica, buffer: self.buffer.clone(), inserted: 0 }
    }

    fn insert(&mut self, offset: usize, len: usize) -> CrdtEdit {
        let id = self.replica.id().as_u64();
        let start = self.inserted;
        self.buffer.splice(offset..offset, (start..start + len).map(|ts| (id, ts)));
        self.inserted += len;
        self.replica.inserted(offset, len)
    }

    fn delete(&mut self, start: usize, end: usize) -> CrdtEdit {
        self.buffer.drain(start..end);
        self.replica.deleted(start..end)
    }

    fn apply(&mut self, edit: TextEdit) {
        match edit {
            TextEdit::Insertion(offset, text) => {
                let id = text.inserted_by().as_u64();
                let chars = text.temporal_range().map(|ts| (id, ts));
                self.buffer.splice(offset..offset, chars);
            }
            TextEdit::ContiguousDeletion(range) => {
                self.buffer.drain(range);
            }
            TextEdit::SplitDeletion(ranges) => {
                for range in ranges.into_iter().rev() {
                    self.buffer.drain(range);
                }
            }
        }
        assert_eq!(self.buffer.len(), self.replica.len());
    }

    fn merge(&mut self, edit: &CrdtEdit) {
        if let Some(edit) = self.replica.merge(edit) {
            self.apply(edit);
        }
    }

    fn drain(&mut self) {
        loop {
            let edit = self.replica.backlogged().next();
            match edit {
                Some(edit) => self.apply(edit),
                None => return,
            }
        }
    }
}

/// Numbers that look random.
struct Dice(u64);

impl Dice {
    fn roll(&mut self, sides: usize) -> usize {
        self.0 = self.0.wrapping_mul(6364136223846793005).wrapping_add(1442695040888963407);
        ((self.0 >> 33) as usize) % sides
    }
}

fn random_edit(peer: &mut Peer, dice: &mut Dice) -> CrdtEdit {
    let len = peer.buffer.len();
    if len == 0 || dice.roll(3) > 0 {
        let offset = dice.roll(len + 1);
        peer.insert(offset, 1 + dice.roll(4))
    } else {
        let start = dice.roll(len);
        let end = start + 1 + dice.roll((len - start).min(6));
        peer.delete(start, end)
    }
}

/// Lets four peers edit at once, hands each edit to the other peers in an order of their own, some
/// of them more than once, and expects all buffers to be the same in the end.
fn run_session(seed: u64) {
    let mut dice = Dice(seed);
    let first = Peer::first(1, 5);
    let second = first.fork(2);
    let third = first.decoded(3);
    let fourth = second.fork(4);
    let mut peers = vec![first, second, third, fourth];
    let mut queues: Vec<Vec<usize>> = vec![vec![]; peers.len()];
    let mut edits: Vec<CrdtEdit> = vec![];
    for _ in 0..120 {
        let p = dice.roll(peers.len());
        if dice.roll(2) == 0 {
            let edit = random_edit(&mut peers[p], &mut dice);
            for (q, queue) in queues.iter_mut().enumerate() {
                if q != p || dice.roll(4) == 0 {
                    queue.push(edits.len());
                }
            }
            edits.push(edit);
        } else if !queues[p].is_empty() {
            let k = dice.roll(queues[p].len());
            let e = if dice.roll(8) == 0 { queues[p][k] } else { queues[p].swap_remove(k) };
            peers[p].merge(&edits[e]);
            if dice.roll(2) == 0 {
                peers[p].drain();
            }
        }
        assert!(peers[p].replica.assert_invariants());
        assert!(peers[p].replica.is_sound());
    }
    for (peer, queue) in peers.iter_mut().zip(&mut queues) {
        while !queue.is_empty() {
            let k = dice.roll(queue.len());
            let e = queue.swap_remove(k);
            peer.merge(&edits[e]);
        }
        peer.drain();
        assert!(peer.replica.assert_invariants());
        assert!(peer.replica.is_sound());
    }
    for peer in &peers[1..] {
        assert_eq!(peer.buffer, peers[0].buffer);
    }
}

#[test]
fn all_peers_converge() {
    for seed in 0..40 {
        run_session(seed);
    }
}

#[test]
fn concurrent_edits_commute() {
    let mut one = Peer::first(1, 6);
    let mut two = one.fork(2);
    let mut other_two = one.fork(3);
    let mut four = one.fork(4);
    let a = one.insert(3, 2);
    let b = four.delete(2, 5);
    two.merge(&a);
    two.merge(&b);
    other_two.merge(&b);
    other_two.merge(&a);
    assert_eq!(two.buffer, vec![(1, 0), (1, 1), (1, 6), (1, 7), (1, 5)]);
    assert_eq!(other_two.buffer, two.buffer);
}

#[test]
fn insertions_in_the_same_place_do_not_mix() {
    let mut one = Peer::first(1, 2);
    let mut two = one.fork(2);
    let a = one.insert(1, 1);
    let b = one.insert(2, 1);
    let c = one.insert(3, 1);
    let x = two.insert(1, 1);
    let y = two.insert(2, 1);
    for edit in [&x, &y] {
        one.merge(edit);
    }
    for edit in [&a, &b, &c] {
        two.merge(edit);
    }
    assert_eq!(one.buffer, two.buffer);
    // Peer 2 joined after peer 1 had started, so its clock is ahead.
    assert_eq!(
        one.buffer,
        vec![(1, 0), (2, 0), (2, 1), (1, 2), (1, 3), (1, 4), (1, 1)]
    );
}

#[test]
fn everything_waits_for_the_first_insertion() {
    let mut one = Peer::first(1, 3);
    let mut two = one.fork(2);
    let first = one.insert(1, 2);
    let mut later = vec![];
    later.push(one.insert(2, 1));
    later.push(one.delete(1, 3));
    later.push(one.insert(0, 1));
    later.push(one.delete(0, 2));
    for edit in later.iter().rev() {
        two.merge(edit);
        two.drain();
        assert_eq!(two.buffer, vec![(1, 0), (1, 1), (1, 2)]);
    }
    two.merge(&first);
    two.drain();
    assert_eq!(two.buffer, one.buffer);
}

#[test]
fn the_encoding_of_a_long_session() {
    let mut dice = Dice(7);
    let mut peer = Peer::first(0, 30);
    for _ in 0..400 {
        let _ = random_edit(&mut peer, &mut dice);
    }
    let decoded = Replica::decode(1, &peer.replica.encode()).unwrap();
    assert_eq!(decoded.id(), ReplicaId::from(1));
    assert!(peer.replica.eq_decoded(&decoded));
    assert!(decoded.is_sound());
    assert_eq!(decoded.len(), peer.buffer.len());
}
