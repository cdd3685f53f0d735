//! Core of a line-based chat relay.
//!
//! Clients join numbered rooms and exchange text messages that are fanned
//! out to every other member of the same room.  This crate holds the room
//! registry, the per-room membership bookkeeping, the message texts, and
//! the per-connection protocol state machine.  All socket work stays with
//! the caller: the functions here turn plain values (addresses, lines of
//! text) into plain values (new states, texts to deliver).

use vstd::prelude::*;

pub mod handler;
pub mod rooms;
pub mod text;

verus! {

/// Recoverable faults of the join handshake.
#[derive(Clone, Copy, Debug, PartialEq, Eq, Structural)]
pub enum ChatError {
    /// The join line could not be parsed as `"<roomId> <displayName>"`.
    MalformedJoinRequest,
    /// The joining address is already a member of the target room.
    DuplicateMember,
}

} // verus!
