//! Rooms and the room registry: membership bookkeeping, broadcast
//! fan-out, and the texts describing a room.

use crate::text::{ids_text, member_lines, room_info_text, u32_to_string};
use crate::ChatError;
use vstd::prelude::*;

verus! {

/// A joined connection: its unique address and its display name.
pub struct Member {
    pub addr: u64,
    pub name: String,
}

/// One message to hand to one member's write handle.
pub struct Delivery {
    pub addr: u64,
    pub text: String,
}

/// The first index at or after `i` whose member has address `a`, if any.
pub open spec fn find_addr(ms: Seq<Member>, a: u64, i: int) -> Option<int>
    decreases ms.len() - i,
{
    if !(0 <= i < ms.len()) {
        None
    } else if ms[i].addr == a {
        Some(i)
    } else {
        find_addr(ms, a, i + 1)
    }
}

/// True iff some member of `ms` has address `a`.
pub open spec fn has_addr(ms: Seq<Member>, a: u64) -> bool {
    find_addr(ms, a, 0) is Some
}

/// What `find_addr` finds: the first match, past no other.
pub proof fn lemma_find_addr(ms: Seq<Member>, a: u64, i: int)
    requires
        0 <= i <= ms.len(),
    ensures
        match find_addr(ms, a, i) {
            Some(j) => i <= j < ms.len() && ms[j].addr == a && (forall|k: int|
                i <= k < j ==> (#[trigger] ms[k]).addr != a),
            None => forall|k: int| i <= k < ms.len() ==> (#[trigger] ms[k]).addr != a,
        },
    decreases ms.len() - i,
{
    if i < ms.len() && ms[i].addr != a {
        lemma_find_addr(ms, a, i + 1);
    }
}

/// The addresses a broadcast from `from` reaches: every member's
/// address but `from`, in member order.
pub open spec fn recipients_of(ms: Seq<Member>, from: u64) -> Seq<u64>
    decreases ms.len(),
{
    if ms.len() == 0 {
        Seq::empty()
    } else {
        let rest = recipients_of(ms.drop_last(), from);
        if ms.last().addr == from {
            rest
        } else {
            rest.push(ms.last().addr)
        }
    }
}

/// The display names of `ms`, in member order.
pub open spec fn names_of(ms: Seq<Member>) -> Seq<Seq<char>> {
    ms.map_values(|m: Member| m.name@)
}

/// A broadcast is observed by every member other than its sender and is
/// never observed by the sender itself.
pub proof fn lemma_broadcast_observed(ms: Seq<Member>, from: u64)
    ensures
        !recipients_of(ms, from).contains(from),
        forall|i: int|
            0 <= i < ms.len() && (#[trigger] ms[i]).addr != from ==> recipients_of(
                ms,
                from,
            ).contains(ms[i].addr),
    decreases ms.len(),
{
    let r = recipients_of(ms, from);
    if ms.len() > 0 {
        let pre = ms.drop_last();
        let rest = recipients_of(pre, from);
        lemma_broadcast_observed(pre, from);
        if ms.last().addr != from {
            assert(r == rest.push(ms.last().addr));
            assert forall|k: int| 0 <= k < r.len() implies r[k] != from by {
                if k < rest.len() {
                    assert(r[k] == rest[k]);
                    assert(!rest.contains(from));
                }
            }
            assert(!r.contains(from));
        }
        assert forall|i: int|
            0 <= i < ms.len() && (#[trigger] ms[i]).addr != from implies r.contains(
            ms[i].addr,
        ) by {
            if i == ms.len() - 1 {
                assert(r[rest.len() as int] == ms[i].addr);
            } else {
                assert(pre[i] == ms[i]);
                assert(rest.contains(ms[i].addr));
                let j = choose|j: int| 0 <= j < rest.len() && rest[j] == ms[i].addr;
                assert(r[j] == ms[i].addr);
            }
        }
    }
}

/// One group of chatting connections.
pub struct Room {
    pub id: u32,
    pub members: Vec<Member>,
}

impl Room {
    /// Member addresses are unique within a room.
    pub open spec fn wf(&self) -> bool {
        forall|i: int, j: int|
            0 <= i < j < self.members@.len() ==> (#[trigger] self.members@[i]).addr != (
            #[trigger] self.members@[j]).addr
    }

    /// A fresh, empty room with the given id.
    pub fn new(id: u32) -> (r: Room)
        ensures
            r.id == id,
            r.members@ == Seq::<Member>::empty(),
            r.wf(),
    {
        let r = Room { id, members: Vec::new() };
        proof {
            assert(r.members@ =~= Seq::<Member>::empty());
        }
        r
    }

    /// The index of the member with address `addr`, if joined.
    fn find_index(&self, addr: u64) -> (r: Option<usize>)
        ensures
            match r {
                Some(i) => find_addr(self.members@, addr, 0) == Some(i as int),
                None => find_addr(self.members@, addr, 0) is None,
            },
    {
        let n = self.members.len();
        let mut i: usize = 0;
        while i < n
            invariant
                0 <= i <= n,
                n == self.members@.len(),
                find_addr(self.members@, addr, 0) == find_addr(self.members@, addr, i as int),
            decreases n - i,
        {
            if self.members[i].addr == addr {
                return Some(i);
            }
            i = i + 1;
        }
        None
    }

    /// True iff the room has no members.
    pub fn is_empty(&self) -> (r: bool)
        ensures
            r == (self.members@.len() == 0),
    {
        self.members.len() == 0
    }

    /// Registers a new member; rejects an address already joined.
    pub fn add_writer(&mut self, addr: u64, name: String) -> (r: Result<(), ChatError>)
        requires
            old(self).wf(),
        ensures
            final(self).wf(),
            final(self).id == old(self).id,
            r is Ok <==> !has_addr(old(self).members@, addr),
            r is Ok ==> final(self).members@ == old(self).members@.push(Member { addr, name }),
            r is Err ==> r == Err::<(), ChatError>(ChatError::DuplicateMember) && *final(self)
                == *old(self),
    {
        match self.find_index(addr) {
            Some(_) => Err(ChatError::DuplicateMember),
            None => {
                proof {
                    lemma_find_addr(self.members@, addr, 0);
                }
                self.members.push(Member { addr, name });
                Ok(())
            },
        }
    }

    /// Unregisters the member with address `addr`; no-op if absent.
    pub fn remove_writer(&mut self, addr: u64)
        requires
            old(self).wf(),
        ensures
            final(self).wf(),
            final(self).id == old(self).id,
            match find_addr(old(self).members@, addr, 0) {
                None => *final(self) == *old(self),
                Some(i) => final(self).members@ == old(self).members@.remove(i),
            },
            !has_addr(final(self).members@, addr),
    {
        proof {
            lemma_find_addr(self.members@, addr, 0);
        }
        match self.find_index(addr) {
            None => {
            },
            Some(i) => {
                self.members.remove(i);
            },
        }
        proof {
            lemma_find_addr(self.members@, addr, 0);
            if find_addr(self.members@, addr, 0) is Some {
                let j = find_addr(self.members@, addr, 0)->0;
                assert(self.members@[j].addr == addr);
            }
        }
    }

    /// The display name joined under `addr`, if any.
    pub fn get_name_from_addr(&self, addr: u64) -> (r: Option<String>)
        ensures
            match find_addr(self.members@, addr, 0) {
                None => r is None,
                Some(i) => r is Some && r->0@ == self.members@[i].name@,
            },
    {
        proof {
            lemma_find_addr(self.members@, addr, 0);
        }
        match self.find_index(addr) {
            None => None,
            Some(i) => Some(self.members[i].name.clone()),
        }
    }

    /// The fan-out of one message: a copy of `message` addressed to
    /// every member except `from_addr`, in member order.
    pub fn broadcast_message(&self, message: &str, from_addr: u64) -> (r: Vec<Delivery>)
        ensures
            r@.map_values(|d: Delivery| d.addr) == recipients_of(self.members@, from_addr),
            forall|i: int| 0 <= i < r@.len() ==> (#[trigger] r@[i]).text@ == message@,
    {
        let n = self.members.len();
        let mut out: Vec<Delivery> = Vec::new();
        proof {
            assert(out@.map_values(|d: Delivery| d.addr) =~= recipients_of(
                self.members@.take(0),
                from_addr,
            ));
        }
        let mut i: usize = 0;
        while i < n
            invariant
                0 <= i <= n,
                n == self.members@.len(),
                out@.map_values(|d: Delivery| d.addr) == recipients_of(
                    self.members@.take(i as int),
                    from_addr,
                ),
                forall|k: int| 0 <= k < out@.len() ==> (#[trigger] out@[k]).text@ == message@,
            decreases n - i,
        {
            let ghost prefix = self.members@.take(i as int);
            let m = &self.members[i];
            if m.addr != from_addr {
                out.push(Delivery { addr: m.addr, text: String::from_str(message) });
            }
            proof {
                assert(self.members@.take(i as int + 1).drop_last() =~= prefix);
                assert(self.members@.take(i as int + 1).last() == self.members@[i as int]);
                assert(out@.map_values(|d: Delivery| d.addr) =~= recipients_of(
                    self.members@.take(i as int + 1),
                    from_addr,
                ));
            }
            i = i + 1;
        }
        proof {
            assert(self.members@.take(n as int) =~= self.members@);
        }
        out
    }

    /// The post-join description: the room id, then one line per member
    /// display name.
    pub fn room_info(&self) -> (r: String)
        ensures
            r@ == room_info_text(self.id, names_of(self.members@)),
    {
        let n = self.members.len();
        let mut lines = String::new();
        let mut i: usize = 0;
        proof {
            assert(names_of(self.members@.take(0)) =~= Seq::<Seq<char>>::empty());
        }
        while i < n
            invariant
                0 <= i <= n,
                n == self.members@.len(),
                lines@ == member_lines(names_of(self.members@.take(i as int))),
            decreases n - i,
        {
            let ghost prefix_names = names_of(self.members@.take(i as int));
            if i == 0 {
                lines.append("- ");
            } else {
                lines.append("\n- ");
            }
            lines.append(self.members[i].name.as_str());
            proof {
                let names = names_of(self.members@.take(i as int + 1));
                assert(names.drop_last() =~= prefix_names);
                assert(names.last() == self.members@[i as int].name@);
                assert(lines@ =~= member_lines(names));
            }
            i = i + 1;
        }
        proof {
            assert(self.members@.take(n as int) =~= self.members@);
        }
        let mut r = String::from_str("Room ID: ");
        r.append(u32_to_string(self.id).as_str());
        r.append("\n");
        if self.members.len() > 0 {
            r.append("Members in this room\n");
            r.append(lines.as_str());
        }
        proof {
            assert(r@ =~= room_info_text(self.id, names_of(self.members@)));
        }
        r
    }
}

/// The first index at or after `i` of a room with id `id`, if any.
pub open spec fn find_room(rs: Seq<Room>, id: u32, i: int) -> Option<int>
    decreases rs.len() - i,
{
    if !(0 <= i < rs.len()) {
        None
    } else if rs[i].id == id {
        Some(i)
    } else {
        find_room(rs, id, i + 1)
    }
}

/// True iff some room of `rs` has id `id`.
pub open spec fn has_room_id(rs: Seq<Room>, id: u32) -> bool {
    find_room(rs, id, 0) is Some
}

/// What `find_room` finds: the first match, past no other.
pub proof fn lemma_find_room(rs: Seq<Room>, id: u32, i: int)
    requires
        0 <= i <= rs.len(),
    ensures
        match find_room(rs, id, i) {
            Some(j) => i <= j < rs.len() && rs[j].id == id && (forall|k: int|
                i <= k < j ==> (#[trigger] rs[k]).id != id),
            None => forall|k: int| i <= k < rs.len() ==> (#[trigger] rs[k]).id != id,
        },
    decreases rs.len() - i,
{
    if i < rs.len() && rs[i].id != id {
        lemma_find_room(rs, id, i + 1);
    }
}

/// The number of rooms of `rs` carrying `id`.
pub open spec fn count_id(rs: Seq<Room>, id: u32) -> int
    decreases rs.len(),
{
    if rs.len() == 0 {
        0
    } else {
        count_id(rs.drop_last(), id) + if rs.last().id == id {
            1int
        } else {
            0int
        }
    }
}

/// The registered room ids, in registry order.
pub open spec fn room_ids(rs: Seq<Room>) -> Seq<u32> {
    rs.map_values(|r: Room| r.id)
}

/// True iff no registered room is empty.
pub open spec fn no_empty_rooms(rs: Seq<Room>) -> bool {
    forall|i: int| 0 <= i < rs.len() ==> (#[trigger] rs[i]).members@.len() > 0
}

/// A room id is registered exactly when it appears in the id list.
pub proof fn lemma_room_ids_contains(rs: Seq<Room>, id: u32)
    ensures
        has_room_id(rs, id) <==> room_ids(rs).contains(id),
{
    lemma_find_room(rs, id, 0);
    if has_room_id(rs, id) {
        let j = find_room(rs, id, 0)->0;
        assert(room_ids(rs)[j] == id);
    } else if room_ids(rs).contains(id) {
        let j = choose|j: int| 0 <= j < room_ids(rs).len() && room_ids(rs)[j] == id;
        assert(rs[j].id == id);
        assert(false);
    }
}

/// How a successful join changes the registry: the member appended to
/// the room with `id`, the room itself appended first when absent.
pub open spec fn join_effect(pre: Seq<Room>, post: Seq<Room>, id: u32, m: Member) -> bool {
    match find_room(pre, id, 0) {
        None => post.len() == pre.len() + 1 && post.drop_last() == pre && post.last().id == id
            && post.last().members@ == seq![m],
        Some(i) => post.len() == pre.len() && (forall|j: int|
            0 <= j < pre.len() && j != i ==> post[j] == pre[j]) && post[i].id == id
            && post[i].members@ == pre[i].members@.push(m),
    }
}

proof fn lemma_count_id_zero(rs: Seq<Room>, id: u32)
    requires
        forall|k: int| 0 <= k < rs.len() ==> (#[trigger] rs[k]).id != id,
    ensures
        count_id(rs, id) == 0,
    decreases rs.len(),
{
    if rs.len() > 0 {
        assert(forall|k: int|
            0 <= k < rs.drop_last().len() ==> (#[trigger] rs.drop_last()[k]).id != id);
        lemma_count_id_zero(rs.drop_last(), id);
    }
}

proof fn lemma_count_id_update_same(rs: Seq<Room>, i: int, r: Room, id: u32)
    requires
        0 <= i < rs.len(),
        r.id == rs[i].id,
    ensures
        count_id(rs.update(i, r), id) == count_id(rs, id),
    decreases rs.len(),
{
    let u = rs.update(i, r);
    if i == rs.len() - 1 {
        assert(u.drop_last() =~= rs.drop_last());
        assert(u.last() == r);
    } else {
        assert(u.drop_last() =~= rs.drop_last().update(i, r));
        lemma_count_id_update_same(rs.drop_last(), i, r, id);
        assert(u.last() == rs.last());
    }
}

proof fn lemma_find_room_push_fresh(pre: Seq<Room>, r: Room, id: u32, j: int)
    requires
        r.id == id,
        forall|k: int| 0 <= k < pre.len() ==> (#[trigger] pre[k]).id != id,
        0 <= j <= pre.len(),
    ensures
        find_room(pre.push(r), id, j) == Some(pre.len() as int),
    decreases pre.len() - j,
{
    let s = pre.push(r);
    if j == pre.len() {
        assert(s[j] == r);
    } else {
        assert(s[j] == pre[j]);
        lemma_find_room_push_fresh(pre, r, id, j + 1);
    }
}

/// Joining the same previously-unknown room id twice, as two racing
/// connections do once the registry has serialized them, leaves exactly
/// one room under that id, and both addresses are members of it.
pub proof fn lemma_concurrent_join_one_room(
    pre: Seq<Room>,
    mid: Seq<Room>,
    post: Seq<Room>,
    id: u32,
    m1: Member,
    m2: Member,
)
    requires
        !has_room_id(pre, id),
        join_effect(pre, mid, id, m1),
        join_effect(mid, post, id, m2),
        m1.addr != m2.addr,
    ensures
        count_id(post, id) == 1,
        post.len() == pre.len() + 1,
        post[pre.len() as int].id == id,
        has_addr(post[pre.len() as int].members@, m1.addr),
        has_addr(post[pre.len() as int].members@, m2.addr),
{
    lemma_find_room(pre, id, 0);
    let fresh = mid.last();
    assert(mid =~= pre.push(fresh));
    lemma_find_room_push_fresh(pre, fresh, id, 0);
    let i = pre.len() as int;
    assert(find_room(mid, id, 0) == Some(i));
    assert(post[i].members@ == mid[i].members@.push(m2));
    assert(mid[i].members@ == seq![m1]);
    let mm = post[i].members@;
    assert(mm[0] == m1);
    assert(mm[1] == m2);
    assert(mm.len() == 2);
    assert(find_addr(mm, m2.addr, 1) == Some(1int));
    assert(find_addr(mm, m2.addr, 0) == find_addr(mm, m2.addr, 1));
    lemma_count_id_zero(pre, id);
    assert(mid.drop_last() =~= pre);
    assert(count_id(mid, id) == 1);
    assert(post =~= mid.update(i, post[i]));
    lemma_count_id_update_same(mid, i, post[i], id);
}

/// The registry: all rooms currently known, each under a unique id.
pub struct RoomsManager {
    pub rooms: Vec<Room>,
}

impl RoomsManager {
    /// Room ids are unique and every room is well formed.
    pub open spec fn wf(&self) -> bool {
        (forall|i: int, j: int|
            0 <= i < j < self.rooms@.len() ==> (#[trigger] self.rooms@[i]).id != (
            #[trigger] self.rooms@[j]).id) && (forall|i: int|
            0 <= i < self.rooms@.len() ==> (#[trigger] self.rooms@[i]).wf())
    }

    /// An empty registry.
    pub fn new() -> (r: RoomsManager)
        ensures
            r.rooms@ == Seq::<Room>::empty(),
            r.wf(),
            no_empty_rooms(r.rooms@),
    {
        let r = RoomsManager { rooms: Vec::new() };
        proof {
            assert(r.rooms@ =~= Seq::<Room>::empty());
        }
        r
    }

    /// The index of the room with id `room_id`, if registered.
    pub fn find_room_index(&self, room_id: u32) -> (r: Option<usize>)
        ensures
            match r {
                Some(i) => find_room(self.rooms@, room_id, 0) == Some(i as int),
                None => find_room(self.rooms@, room_id, 0) is None,
            },
    {
        let n = self.rooms.len();
        let mut i: usize = 0;
        while i < n
            invariant
                0 <= i <= n,
                n == self.rooms@.len(),
                find_room(self.rooms@, room_id, 0) == find_room(self.rooms@, room_id, i as int),
            decreases n - i,
        {
            if self.rooms[i].id == room_id {
                return Some(i);
            }
            i = i + 1;
        }
        None
    }

    /// Read-only lookup of the room with id `room_id`.
    pub fn get_room(&self, room_id: u32) -> (r: Option<&Room>)
        ensures
            match find_room(self.rooms@, room_id, 0) {
                None => r is None,
                Some(i) => r is Some && *r->0 == self.rooms@[i],
            },
    {
        proof {
            lemma_find_room(self.rooms@, room_id, 0);
        }
        match self.find_room_index(room_id) {
            None => None,
            Some(i) => Some(&self.rooms[i]),
        }
    }

    /// A mutable borrow of the room at index `i`.
    pub(crate) fn room_mut(&mut self, i: usize) -> (r: &mut Room)
        requires
            i < old(self).rooms@.len(),
        ensures
            *r == old(self).rooms@[i as int],
            final(self).rooms@ == old(self).rooms@.update(i as int, *final(r)),
    {
        &mut self.rooms[i]
    }

    /// Registers an empty room under `room_id`; keeps the existing room
    /// when the id is already taken (create is idempotent).
    pub fn create_room(&mut self, room_id: u32)
        requires
            old(self).wf(),
        ensures
            final(self).wf(),
            match find_room(old(self).rooms@, room_id, 0) {
                Some(_) => final(self).rooms@ == old(self).rooms@,
                None => final(self).rooms@.len() == old(self).rooms@.len() + 1
                    && final(self).rooms@.drop_last() == old(self).rooms@
                    && final(self).rooms@.last().id == room_id
                    && final(self).rooms@.last().members@ == Seq::<Member>::empty(),
            },
    {
        proof {
            lemma_find_room(self.rooms@, room_id, 0);
        }
        match self.find_room_index(room_id) {
            Some(_) => {
            },
            None => {
                let ghost pre = self.rooms@;
                self.rooms.push(Room::new(room_id));
                proof {
                    assert(self.rooms@.drop_last() =~= pre);
                }
            },
        }
    }

    /// Removes the room under `room_id` when it is registered and empty;
    /// deleting a non-empty or unknown room is a no-op.
    pub fn delete_room(&mut self, room_id: u32)
        requires
            old(self).wf(),
        ensures
            final(self).wf(),
            match find_room(old(self).rooms@, room_id, 0) {
                Some(i) => if old(self).rooms@[i].members@.len() == 0 {
                    final(self).rooms@ == old(self).rooms@.remove(i)
                } else {
                    final(self).rooms@ == old(self).rooms@
                },
                None => final(self).rooms@ == old(self).rooms@,
            },
            no_empty_rooms(old(self).rooms@) ==> no_empty_rooms(final(self).rooms@),
    {
        proof {
            lemma_find_room(self.rooms@, room_id, 0);
        }
        match self.find_room_index(room_id) {
            None => {
            },
            Some(i) => {
                if self.rooms[i].members.len() == 0 {
                    self.rooms.remove(i);
                }
            },
        }
    }

    /// The registered room ids joined by `", "`.
    pub fn get_room_ids_string(&self) -> (r: String)
        ensures
            r@ == ids_text(room_ids(self.rooms@)),
    {
        let n = self.rooms.len();
        let mut r = String::new();
        proof {
            assert(room_ids(self.rooms@.take(0)) =~= Seq::<u32>::empty());
        }
        let mut i: usize = 0;
        while i < n
            invariant
                0 <= i <= n,
                n == self.rooms@.len(),
                r@ == ids_text(room_ids(self.rooms@.take(i as int))),
            decreases n - i,
        {
            let ghost prefix_ids = room_ids(self.rooms@.take(i as int));
            if i > 0 {
                r.append(", ");
            }
            r.append(u32_to_string(self.rooms[i].id).as_str());
            proof {
                let ids = room_ids(self.rooms@.take(i as int + 1));
                assert(ids.drop_last() =~= prefix_ids);
                assert(ids.last() == self.rooms@[i as int].id);
                assert(r@ =~= ids_text(ids));
            }
            i = i + 1;
        }
        proof {
            assert(self.rooms@.take(n as int) =~= self.rooms@);
        }
        r
    }

    /// Resolves the room under `room_id`, creating it when absent, and
    /// registers the member; rejects an address already in that room.
    pub fn join_room(&mut self, room_id: u32, addr: u64, name: String) -> (r: Result<
        (),
        ChatError,
    >)
        requires
            old(self).wf(),
        ensures
            final(self).wf(),
            r is Ok <==> match find_room(old(self).rooms@, room_id, 0) {
                Some(i) => !has_addr(old(self).rooms@[i].members@, addr),
                None => true,
            },
            r is Ok ==> join_effect(
                old(self).rooms@,
                final(self).rooms@,
                room_id,
                Member { addr, name },
            ),
            r is Err ==> r == Err::<(), ChatError>(ChatError::DuplicateMember)
                && final(self).rooms@ == old(self).rooms@,
            no_empty_rooms(old(self).rooms@) ==> no_empty_rooms(final(self).rooms@),
            has_room_id(final(self).rooms@, room_id),
    {
        proof {
            lemma_find_room(self.rooms@, room_id, 0);
        }
        let ghost pre = self.rooms@;
        let idx = match self.find_room_index(room_id) {
            Some(i) => i,
            None => {
                self.rooms.push(Room::new(room_id));
                proof {
                    assert(self.rooms@.drop_last() =~= pre);
                }
                self.rooms.len() - 1
            },
        };
        let ghost created = self.rooms@;
        let room = self.room_mut(idx);
        let res = room.add_writer(addr, name);
        proof {
            assert(self.rooms@ =~= created.update(idx as int, self.rooms@[idx as int]));
            if res is Ok {
                match find_room(pre, room_id, 0) {
                    Some(i) => {
                        assert(self.rooms@[i].members@ == pre[i].members@.push(
                            Member { addr, name },
                        ));
                    },
                    None => {
                        assert(self.rooms@.drop_last() =~= pre);
                        assert(self.rooms@.last().members@ =~= seq![Member { addr, name }]);
                    },
                }
            } else {
                assert(self.rooms@ =~= pre);
            }
            lemma_find_room(self.rooms@, room_id, 0);
            if find_room(self.rooms@, room_id, 0) is None {
                assert(self.rooms@[idx as int].id == room_id);
            }
        }
        res
    }
}

} // verus!
