//! The per-connection protocol state machine.
//!
//! A connection moves `Connected -> AwaitingJoin -> InRoom -> Closed`.
//! Each step function takes the registry, the connection's address and
//! one observed event, and returns the next state together with the
//! texts to write: at most one reply to the client itself, and the
//! deliveries to fan out to other members.  The caller performs the
//! socket reads and writes.

use crate::rooms::{
    find_addr, find_room, has_addr, has_room_id, join_effect, lemma_find_addr, lemma_find_room,
    names_of, no_empty_rooms, recipients_of, room_ids, Delivery, Member, Room, RoomsManager,
};
use crate::text::{
    chat_message, dec_str, join_announcement, join_request, leave_announcement,
    parse_join_request, room_info_text, welcome_text,
};
use vstd::prelude::*;

verus! {

/// How many join attempts a connection is granted before it is closed.
pub const JOIN_ATTEMPTS: u8 = 4;

/// Protocol position of one connection.
#[derive(Clone, Copy, Debug, PartialEq, Eq, Structural)]
pub enum HandlerState {
    /// Accepted; the greeting has not been sent yet.
    Connected,
    /// Greeted; waiting for a parsable join request.
    AwaitingJoin { attempts_left: u8 },
    /// Joined; relaying chat messages.
    InRoom { room_id: u32 },
    /// Terminal: the connection is gone.
    Closed,
}

/// What one read on the connection observed.
pub enum HandlerEvent {
    /// A decoded text payload.
    Line(String),
    /// Bytes that are not valid text; the payload is dropped.
    BadUtf8,
    /// A transport read fault.
    ReadError,
    /// End of stream: the peer closed.
    Eof,
}

/// The state after one failed join attempt: one attempt fewer, closed
/// once the budget is spent.
pub open spec fn retry_state(attempts_left: u8) -> HandlerState {
    if attempts_left <= 1 {
        HandlerState::Closed
    } else {
        HandlerState::AwaitingJoin { attempts_left: (attempts_left - 1) as u8 }
    }
}

fn retry(attempts_left: u8) -> (r: HandlerState)
    ensures
        r == retry_state(attempts_left),
{
    if attempts_left <= 1 {
        HandlerState::Closed
    } else {
        HandlerState::AwaitingJoin { attempts_left: attempts_left - 1 }
    }
}

/// Sends the greeting and opens the join handshake.
pub fn on_connect(mgr: &RoomsManager) -> (r: (HandlerState, String))
    ensures
        r.0 == (HandlerState::AwaitingJoin { attempts_left: JOIN_ATTEMPTS }),
        r.1@ == welcome_text(room_ids(mgr.rooms@)),
{
    let ids = mgr.get_room_ids_string();
    let text = String::from_str(
        "Welcome to the server! Select the room you want to connect.\nAvailable rooms: ",
    ).concat(ids.as_str());
    proof {
        assert(text@ =~= welcome_text(room_ids(mgr.rooms@)));
    }
    (HandlerState::AwaitingJoin { attempts_left: JOIN_ATTEMPTS }, text)
}

/// After a successful join: the registry gained the member, the client
/// is told the room description, and every pre-existing member of the
/// room gets the join announcement.
pub open spec fn joined_ok(
    pre: Seq<Room>,
    post: Seq<Room>,
    addr: u64,
    id: u32,
    name: Seq<char>,
    info: Option<String>,
    deliv: Seq<Delivery>,
) -> bool {
    &&& exists|m: Member|
        m.addr == addr && m.name@ == name && #[trigger] join_effect(pre, post, id, m)
    &&& match find_room(post, id, 0) {
        Some(i) => {
            &&& info is Some
            &&& info->0@ == room_info_text(id, names_of(post[i].members@))
            &&& deliv.map_values(|d: Delivery| d.addr) == recipients_of(post[i].members@, addr)
            &&& forall|k: int|
                0 <= k < deliv.len() ==> (#[trigger] deliv[k]).text@ == name
                    + " joined the room "@ + dec_str(id as nat)
        },
        None => false,
    }
}

/// One step of the join handshake.
pub fn awaiting_join_step(
    mgr: &mut RoomsManager,
    addr: u64,
    attempts_left: u8,
    event: HandlerEvent,
) -> (r: (HandlerState, Option<String>, Vec<Delivery>))
    requires
        old(mgr).wf(),
    ensures
        final(mgr).wf(),
        no_empty_rooms(old(mgr).rooms@) ==> no_empty_rooms(final(mgr).rooms@),
        match event {
            HandlerEvent::Eof => r.0 == HandlerState::Closed && final(mgr).rooms@ == old(
                mgr,
            ).rooms@ && r.1 is None && r.2@.len() == 0,
            HandlerEvent::BadUtf8 | HandlerEvent::ReadError => r.0 == retry_state(attempts_left)
                && final(mgr).rooms@ == old(mgr).rooms@ && r.1 is None && r.2@.len() == 0,
            HandlerEvent::Line(line) => match join_request(line@) {
                None => r.0 == retry_state(attempts_left) && final(mgr).rooms@ == old(mgr).rooms@
                    && r.1 is None && r.2@.len() == 0,
                Some(req) => {
                    if join_refused(old(mgr).rooms@, req.0, addr) {
                        r.0 == retry_state(attempts_left) && final(mgr).rooms@ == old(mgr).rooms@
                            && r.1 is None && r.2@.len() == 0
                    } else {
                        r.0 == (HandlerState::InRoom { room_id: req.0 }) && joined_ok(
                            old(mgr).rooms@,
                            final(mgr).rooms@,
                            addr,
                            req.0,
                            req.1,
                            r.1,
                            r.2@,
                        )
                    }
                },
            },
        },
{
    match event {
        HandlerEvent::Eof => (HandlerState::Closed, None, Vec::new()),
        HandlerEvent::BadUtf8 => (retry(attempts_left), None, Vec::new()),
        HandlerEvent::ReadError => (retry(attempts_left), None, Vec::new()),
        HandlerEvent::Line(line) => {
            match parse_join_request(line.as_str()) {
                Err(_) => (retry(attempts_left), None, Vec::new()),
                Ok(p) => {
                    let (id, name) = p;
                    let announcement = join_announcement(name.as_str(), id);
                    let ghost m = Member { addr, name };
                    match mgr.join_room(id, addr, name) {
                        Err(_) => (retry(attempts_left), None, Vec::new()),
                        Ok(()) => {
                            let idx = match mgr.find_room_index(id) {
                                Some(i) => i,
                                None => {
                                    proof {
                                        assert(false);
                                    }
                                    0
                                },
                            };
                            proof {
                                lemma_find_room(mgr.rooms@, id, 0);
                            }
                            let room = &mgr.rooms[idx];
                            let info = room.room_info();
                            let deliveries = room.broadcast_message(announcement.as_str(), addr);
                            (HandlerState::InRoom { room_id: id }, Some(info), deliveries)
                        },
                    }
                },
            }
        },
    }
}

/// True iff a join for `id` from `addr` would be refused: the room
/// exists and already holds the address.
pub open spec fn join_refused(rooms: Seq<Room>, id: u32, addr: u64) -> bool {
    match find_room(rooms, id, 0) {
        Some(i) => has_addr(rooms[i].members@, addr),
        None => false,
    }
}

/// How a disconnect changes the registry and what the remaining
/// members are told: the member leaves its room, every remaining
/// member is sent the departure notice, and a room left empty is
/// dropped from the registry.
pub open spec fn disconnect_spec(
    pre: Seq<Room>,
    post: Seq<Room>,
    room_id: u32,
    addr: u64,
    deliv: Seq<Delivery>,
) -> bool {
    match find_room(pre, room_id, 0) {
        None => post == pre && deliv.len() == 0,
        Some(i) => match find_addr(pre[i].members@, addr, 0) {
            None => post == pre && deliv.len() == 0,
            Some(k) => {
                let remaining = pre[i].members@.remove(k);
                &&& deliv.map_values(|d: Delivery| d.addr) == recipients_of(remaining, addr)
                &&& forall|j: int|
                    0 <= j < deliv.len() ==> (#[trigger] deliv[j]).text@ == pre[i].members@[
                        k
                    ].name@ + " left the room"@
                &&& if remaining.len() == 0 {
                    post == pre.remove(i) && !has_room_id(post, room_id)
                } else {
                    &&& post.len() == pre.len()
                    &&& forall|j: int| 0 <= j < pre.len() && j != i ==> post[j] == pre[j]
                    &&& post[i].id == pre[i].id
                    &&& post[i].members@ == remaining
                }
            },
        },
    }
}

proof fn lemma_find_room_ids_eq(s1: Seq<Room>, s2: Seq<Room>, id: u32, j: int)
    requires
        s1.len() == s2.len(),
        forall|k: int| 0 <= k < s1.len() ==> (#[trigger] s1[k]).id == s2[k].id,
        0 <= j <= s1.len(),
    ensures
        find_room(s1, id, j) == find_room(s2, id, j),
    decreases s1.len() - j,
{
    if j < s1.len() && s1[j].id != id {
        lemma_find_room_ids_eq(s1, s2, id, j + 1);
    }
}

/// Removes `addr` from the room under `room_id`, announces the
/// departure to every remaining member, and deletes the room once its
/// member set is empty.  Unknown rooms and unknown members are left
/// alone.
pub fn handle_disconnect(mgr: &mut RoomsManager, room_id: u32, addr: u64) -> (r: Vec<Delivery>)
    requires
        old(mgr).wf(),
    ensures
        final(mgr).wf(),
        disconnect_spec(old(mgr).rooms@, final(mgr).rooms@, room_id, addr, r@),
        no_empty_rooms(old(mgr).rooms@) ==> no_empty_rooms(final(mgr).rooms@),
{
    let ghost pre = mgr.rooms@;
    proof {
        lemma_find_room(pre, room_id, 0);
    }
    let idx_opt = mgr.find_room_index(room_id);
    match idx_opt {
        None => Vec::new(),
        Some(idx) => {
            let ghost k_opt = find_addr(pre[idx as int].members@, addr, 0);
            proof {
                lemma_find_addr(pre[idx as int].members@, addr, 0);
            }
            let room = mgr.room_mut(idx);
            let name_opt = room.get_name_from_addr(addr);
            match name_opt {
                None => {
                    let r: Vec<Delivery> = Vec::new();
                    proof {
                        assert(mgr.rooms@ =~= pre);
                    }
                    r
                },
                Some(name) => {
                    room.remove_writer(addr);
                    let text = leave_announcement(name.as_str());
                    let deliveries = room.broadcast_message(text.as_str(), addr);
                    let now_empty = room.is_empty();
                    proof {
                        assert forall|a: int, b: int|
                            0 <= a < b < mgr.rooms@.len() implies (#[trigger] mgr.rooms@[a]).id
                            != (#[trigger] mgr.rooms@[b]).id by {
                            assert(pre[a].id != pre[b].id);
                        }
                        assert forall|a: int|
                            0 <= a < mgr.rooms@.len() implies (#[trigger] mgr.rooms@[a]).wf() by {
                            if a != idx as int {
                                assert(mgr.rooms@[a] == pre[a]);
                            }
                        }
                        assert(mgr.wf());
                    }
                    if now_empty {
                        let ghost mid = mgr.rooms@;
                        proof {
                            lemma_find_room_ids_eq(pre, mid, room_id, 0);
                        }
                        mgr.delete_room(room_id);
                        proof {
                            assert(mgr.rooms@ =~= pre.remove(idx as int));
                            lemma_find_room(mgr.rooms@, room_id, 0);
                            if find_room(mgr.rooms@, room_id, 0) is Some {
                                let j = find_room(mgr.rooms@, room_id, 0)->0;
                                assert(mgr.rooms@[j].id == room_id);
                                if j < idx as int {
                                    assert(mgr.rooms@[j] == pre[j]);
                                } else {
                                    assert(mgr.rooms@[j] == pre[j + 1]);
                                }
                                assert(false);
                            }
                        }
                    }
                    deliveries
                },
            }
        },
    }
}

/// One step of the chat loop.
pub fn in_room_step(mgr: &mut RoomsManager, addr: u64, room_id: u32, event: HandlerEvent) -> (r: (
    HandlerState,
    Vec<Delivery>,
))
    requires
        old(mgr).wf(),
    ensures
        final(mgr).wf(),
        no_empty_rooms(old(mgr).rooms@) ==> no_empty_rooms(final(mgr).rooms@),
        match event {
            HandlerEvent::BadUtf8 => r.0 == (HandlerState::InRoom { room_id })
                && final(mgr).rooms@ == old(mgr).rooms@ && r.1@.len() == 0,
            HandlerEvent::Eof | HandlerEvent::ReadError => r.0 == HandlerState::Closed
                && disconnect_spec(old(mgr).rooms@, final(mgr).rooms@, room_id, addr, r.1@),
            HandlerEvent::Line(line) => final(mgr).rooms@ == old(mgr).rooms@ && match find_room(
                old(mgr).rooms@,
                room_id,
                0,
            ) {
                None => r.0 == HandlerState::Closed && r.1@.len() == 0,
                Some(i) => match find_addr(old(mgr).rooms@[i].members@, addr, 0) {
                    None => r.0 == HandlerState::Closed && r.1@.len() == 0,
                    Some(k) => {
                        let ms = old(mgr).rooms@[i].members@;
                        &&& r.0 == (HandlerState::InRoom { room_id })
                        &&& r.1@.map_values(|d: Delivery| d.addr) == recipients_of(ms, addr)
                        &&& forall|j: int|
                            0 <= j < r.1@.len() ==> (#[trigger] r.1@[j]).text@ == ms[k].name@
                                + " > "@ + line@
                    },
                },
            },
        },
{
    match event {
        HandlerEvent::BadUtf8 => (HandlerState::InRoom { room_id }, Vec::new()),
        HandlerEvent::Eof => (HandlerState::Closed, handle_disconnect(mgr, room_id, addr)),
        HandlerEvent::ReadError => (HandlerState::Closed, handle_disconnect(mgr, room_id, addr)),
        HandlerEvent::Line(line) => {
            proof {
                lemma_find_room(mgr.rooms@, room_id, 0);
            }
            match mgr.get_room(room_id) {
                None => (HandlerState::Closed, Vec::new()),
                Some(room) => {
                    match room.get_name_from_addr(addr) {
                        None => (HandlerState::Closed, Vec::new()),
                        Some(name) => {
                            let text = chat_message(name.as_str(), line.as_str());
                            let deliveries = room.broadcast_message(text.as_str(), addr);
                            (HandlerState::InRoom { room_id }, deliveries)
                        },
                    }
                },
            }
        },
    }
}

} // verus!
