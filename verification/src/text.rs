//! Pieces of inserted text, and the edits that a buffer has to follow.

use std::ops::Range;

use vstd::prelude::*;

use crate::replica_id::ReplicaId;

verus! {

/// The length of a piece of text, or an offset into it, in the units of the buffer.
pub type Length = usize;

/// A piece of text, named by the replica that inserted it and by the positions of its characters
/// among all those that this replica has inserted over time.
#[derive(Clone, Copy, Debug, PartialEq, Eq, Structural)]
pub struct Text {
    pub inserted_by: ReplicaId,
    pub start: Length,
    pub end: Length,
}

impl Text {
    pub fn new(inserted_by: ReplicaId, range: Range<Length>) -> (text: Text)
        ensures
            text == (Text { inserted_by, start: range.start, end: range.end }),
    {
        Text { inserted_by, start: range.start, end: range.end }
    }

    /// The number of characters in the text.
    pub open spec fn spec_len(&self) -> int {
        self.end - self.start
    }

    pub fn inserted_by(&self) -> (id: ReplicaId)
        ensures
            id == self.inserted_by,
    {
        self.inserted_by
    }

    /// The number of characters in the text.
    pub fn len(&self) -> (n: Length)
        requires
            self.start <= self.end,
        ensures
            n == self.spec_len(),
    {
        self.end - self.start
    }

    /// The positions of the text among the characters inserted by its replica.
    pub fn temporal_range(&self) -> (range: Range<Length>)
        ensures
            range == (Range { start: self.start, end: self.end }),
    {
        self.start..self.end
    }
}

/// An edit that a peer has to apply to its buffer to keep up with its replica.
///
/// Offsets refer to the buffer as it is before the edit.
#[derive(Debug)]
pub enum TextEdit {
    /// The text goes to the given offset.
    Insertion(Length, Text),
    /// The characters in the range are to be removed.
    ContiguousDeletion(Range<Length>),
    /// The characters in all the ranges are to be removed. The ranges ascend, and no two of them
    /// touch.
    SplitDeletion(Vec<Range<Length>>),
}

} // verus!
