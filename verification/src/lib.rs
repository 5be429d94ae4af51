//! A CRDT for text whose convergence is proved.
//!
//! A [`Replica`] tracks how a text buffer changes without storing the text. Local edits turn into
//! [`CrdtEdit`]s for the other peers; edits of other peers turn into [`TextEdit`]s for the local
//! buffer.
//!
//! The contracts speak of the text as a sequence of characters ([`model`]) and of the state of a
//! replica ([`state`]). What holds of a session as a whole stands in [`laws`], over the history of
//! all edits that its peers have made ([`history`]).

mod anchor;
mod backlog;
mod backlogged;
mod clocks;
mod crdt_edit;
pub mod debug;
pub mod edit_laws;
mod edit_run;
pub mod encode;
mod encoded_replica;
pub mod history;
mod invariants;
pub mod laws;
pub mod layout;
mod local_edits;
mod maps;
pub mod merge_laws;
mod merged_deletion;
pub mod model;
mod offset_range;
pub mod parts;
mod replica;
mod replica_id;
mod run_indices;
mod run_tree;
mod session;
pub mod sorted_text;
pub mod state;
mod text;
pub mod text_order;
mod tree_deletion;
mod wire;

pub use anchor::Anchor;
pub use backlogged::BackLogged;
pub use clocks::{
    DeletionClock, DeletionTs, InsertionClock, InsertionTimestamp, LamportClock, LamportTimestamp,
};
pub use crdt_edit::{CrdtEdit, CrdtEditKind, Deletion, DeletionView, EditView, Insertion};
pub use debug::{DebugAsBtree, DebugAsSelf};
pub use encoded_replica::{
    checksum, Checksum, DecodeError, EncodedReplica, ProtocolVersion, PROTOCOL_VERSION,
};
pub use maps::{DeletionMap, VersionMap};
pub use offset_range::OffsetRange;
pub use replica::Replica;
pub use replica_id::ReplicaId;
pub use text::{Length, Text, TextEdit};
