use chat_relay::rooms::{Room, RoomsManager};
use chat_relay::ChatError;

#[test]
fn new_room_is_empty() {
    let room = Room::new(7);
    assert!(room.is_empty());
    assert_eq!(room.room_info(), "Room ID: 7\n");
}

#[test]
fn add_writer_rejects_duplicate_address() {
    let mut room = Room::new(5);
    assert_eq!(room.add_writer(1, String::from("alice")), Ok(()));
    assert_eq!(
        room.add_writer(1, String::from("impostor")),
        Err(ChatError::DuplicateMember)
    );
    assert_eq!(room.members.len(), 1);
    assert_eq!(room.members[0].name, "alice");
}

#[test]
fn remove_writer_removes_only_that_member() {
    let mut room = Room::new(5);
    room.add_writer(1, String::from("alice")).unwrap();
    room.add_writer(2, String::from("bob")).unwrap();
    room.remove_writer(1);
    assert_eq!(room.members.len(), 1);
    assert_eq!(room.members[0].addr, 2);
    room.remove_writer(99);
    assert_eq!(room.members.len(), 1);
}

#[test]
fn get_name_from_addr_finds_members() {
    let mut room = Room::new(5);
    room.add_writer(1, String::from("alice")).unwrap();
    assert_eq!(room.get_name_from_addr(1), Some(String::from("alice")));
    assert_eq!(room.get_name_from_addr(2), None);
}

#[test]
fn broadcast_excludes_the_sender() {
    let mut room = Room::new(5);
    room.add_writer(1, String::from("alice")).unwrap();
    room.add_writer(2, String::from("bob")).unwrap();
    room.add_writer(3, String::from("carol")).unwrap();
    let deliveries = room.broadcast_message("hello", 2);
    let addrs: Vec<u64> = deliveries.iter().map(|d| d.addr).collect();
    assert_eq!(addrs, vec![1, 3]);
    assert!(deliveries.iter().all(|d| d.text == "hello"));
}

#[test]
fn room_info_lists_member_names_in_order() {
    let mut room = Room::new(5);
    room.add_writer(1, String::from("alice")).unwrap();
    room.add_writer(2, String::from("bob")).unwrap();
    assert_eq!(
        room.room_info(),
        "Room ID: 5\nMembers in this room\n- alice\n- bob"
    );
}

#[test]
fn create_room_is_idempotent() {
    let mut mgr = RoomsManager::new();
    mgr.create_room(5);
    mgr.create_room(5);
    assert_eq!(mgr.rooms.len(), 1);
    assert_eq!(mgr.rooms[0].id, 5);
}

#[test]
fn get_room_looks_up_by_id() {
    let mut mgr = RoomsManager::new();
    mgr.create_room(5);
    mgr.create_room(9);
    assert_eq!(mgr.get_room(9).map(|r| r.id), Some(9));
    assert!(mgr.get_room(7).is_none());
}

#[test]
fn delete_room_only_removes_empty_rooms() {
    let mut mgr = RoomsManager::new();
    mgr.join_room(5, 1, String::from("alice")).unwrap();
    mgr.delete_room(5);
    assert!(mgr.get_room(5).is_some());
    mgr.create_room(9);
    mgr.delete_room(9);
    assert!(mgr.get_room(9).is_none());
}

#[test]
fn join_room_creates_missing_rooms() {
    let mut mgr = RoomsManager::new();
    assert_eq!(mgr.join_room(9, 1, String::from("alice")), Ok(()));
    let room = mgr.get_room(9).unwrap();
    assert_eq!(room.members.len(), 1);
    assert_eq!(room.members[0].name, "alice");
}

#[test]
fn racing_joins_share_one_room() {
    let mut mgr = RoomsManager::new();
    assert_eq!(mgr.join_room(9, 1, String::from("alice")), Ok(()));
    assert_eq!(mgr.join_room(9, 2, String::from("bob")), Ok(()));
    assert_eq!(mgr.rooms.len(), 1);
    let room = mgr.get_room(9).unwrap();
    assert_eq!(room.members.len(), 2);
    assert_eq!(room.get_name_from_addr(1), Some(String::from("alice")));
    assert_eq!(room.get_name_from_addr(2), Some(String::from("bob")));
}

#[test]
fn join_room_rejects_duplicate_address() {
    let mut mgr = RoomsManager::new();
    mgr.join_room(5, 1, String::from("alice")).unwrap();
    assert_eq!(
        mgr.join_room(5, 1, String::from("alice")),
        Err(ChatError::DuplicateMember)
    );
    assert_eq!(mgr.get_room(5).unwrap().members.len(), 1);
}

#[test]
fn room_ids_string_joins_with_commas() {
    let mut mgr = RoomsManager::new();
    assert_eq!(mgr.get_room_ids_string(), "");
    mgr.create_room(5);
    assert_eq!(mgr.get_room_ids_string(), "5");
    mgr.create_room(12);
    assert_eq!(mgr.get_room_ids_string(), "5, 12");
}
