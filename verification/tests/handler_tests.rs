use chat_relay::handler::{
    awaiting_join_step, handle_disconnect, in_room_step, on_connect, HandlerEvent, HandlerState,
    JOIN_ATTEMPTS,
};
use chat_relay::rooms::RoomsManager;

fn line(s: &str) -> HandlerEvent {
    HandlerEvent::Line(String::from(s))
}

#[test]
fn greeting_lists_registered_rooms() {
    let mut mgr = RoomsManager::new();
    mgr.join_room(5, 1, String::from("alice")).unwrap();
    mgr.join_room(12, 2, String::from("bob")).unwrap();
    let (state, text) = on_connect(&mgr);
    assert_eq!(state, HandlerState::AwaitingJoin { attempts_left: JOIN_ATTEMPTS });
    assert_eq!(
        text,
        "Welcome to the server! Select the room you want to connect.\nAvailable rooms: 5, 12"
    );
}

#[test]
fn join_handshake_enters_the_room() {
    let mut mgr = RoomsManager::new();
    let (state, info, deliveries) = awaiting_join_step(&mut mgr, 1, JOIN_ATTEMPTS, line("9 alice\n"));
    assert_eq!(state, HandlerState::InRoom { room_id: 9 });
    assert_eq!(info.as_deref(), Some("Room ID: 9\nMembers in this room\n- alice"));
    assert!(deliveries.is_empty());
    assert_eq!(mgr.get_room(9).unwrap().members.len(), 1);
}

#[test]
fn join_announces_to_earlier_members() {
    let mut mgr = RoomsManager::new();
    awaiting_join_step(&mut mgr, 1, JOIN_ATTEMPTS, line("5 alice"));
    let (state, info, deliveries) = awaiting_join_step(&mut mgr, 2, JOIN_ATTEMPTS, line("5 bob"));
    assert_eq!(state, HandlerState::InRoom { room_id: 5 });
    assert_eq!(
        info.as_deref(),
        Some("Room ID: 5\nMembers in this room\n- alice\n- bob")
    );
    assert_eq!(deliveries.len(), 1);
    assert_eq!(deliveries[0].addr, 1);
    assert_eq!(deliveries[0].text, "bob joined the room 5");
}

#[test]
fn malformed_join_lines_spend_attempts() {
    let mut mgr = RoomsManager::new();
    let (state, info, deliveries) = awaiting_join_step(&mut mgr, 1, 4, line("nonsense"));
    assert_eq!(state, HandlerState::AwaitingJoin { attempts_left: 3 });
    assert!(info.is_none());
    assert!(deliveries.is_empty());
    let (state, _, _) = awaiting_join_step(&mut mgr, 1, 1, line("nonsense"));
    assert_eq!(state, HandlerState::Closed);
    assert!(mgr.rooms.is_empty());
}

#[test]
fn join_retry_budget_closes_the_connection() {
    let mut mgr = RoomsManager::new();
    let mut state = HandlerState::AwaitingJoin { attempts_left: JOIN_ATTEMPTS };
    let mut steps = 0;
    while let HandlerState::AwaitingJoin { attempts_left } = state {
        let (next, _, _) = awaiting_join_step(&mut mgr, 1, attempts_left, line("bad line? no"));
        state = next;
        steps += 1;
    }
    assert_eq!(state, HandlerState::Closed);
    assert_eq!(steps, JOIN_ATTEMPTS as usize);
}

#[test]
fn duplicate_join_is_retried_like_a_parse_failure() {
    let mut mgr = RoomsManager::new();
    awaiting_join_step(&mut mgr, 1, JOIN_ATTEMPTS, line("5 alice"));
    let (state, info, _) = awaiting_join_step(&mut mgr, 1, 4, line("5 alice"));
    assert_eq!(state, HandlerState::AwaitingJoin { attempts_left: 3 });
    assert!(info.is_none());
}

#[test]
fn eof_before_joining_closes_without_a_room() {
    let mut mgr = RoomsManager::new();
    let (state, info, deliveries) = awaiting_join_step(&mut mgr, 1, JOIN_ATTEMPTS, HandlerEvent::Eof);
    assert_eq!(state, HandlerState::Closed);
    assert!(info.is_none());
    assert!(deliveries.is_empty());
    assert!(mgr.rooms.is_empty());
}

#[test]
fn chat_lines_reach_everyone_but_the_sender() {
    let mut mgr = RoomsManager::new();
    awaiting_join_step(&mut mgr, 1, JOIN_ATTEMPTS, line("5 alice"));
    awaiting_join_step(&mut mgr, 2, JOIN_ATTEMPTS, line("5 bob"));
    let (state, deliveries) = in_room_step(&mut mgr, 1, 5, line("hi"));
    assert_eq!(state, HandlerState::InRoom { room_id: 5 });
    assert_eq!(deliveries.len(), 1);
    assert_eq!(deliveries[0].addr, 2);
    assert_eq!(deliveries[0].text, "alice > hi");
}

#[test]
fn undecodable_payloads_are_dropped() {
    let mut mgr = RoomsManager::new();
    awaiting_join_step(&mut mgr, 1, JOIN_ATTEMPTS, line("5 alice"));
    awaiting_join_step(&mut mgr, 2, JOIN_ATTEMPTS, line("5 bob"));
    let (state, deliveries) = in_room_step(&mut mgr, 1, 5, HandlerEvent::BadUtf8);
    assert_eq!(state, HandlerState::InRoom { room_id: 5 });
    assert!(deliveries.is_empty());
    assert_eq!(mgr.get_room(5).unwrap().members.len(), 2);
}

#[test]
fn disconnect_announces_and_keeps_the_room_while_members_remain() {
    let mut mgr = RoomsManager::new();
    awaiting_join_step(&mut mgr, 1, JOIN_ATTEMPTS, line("5 alice"));
    awaiting_join_step(&mut mgr, 2, JOIN_ATTEMPTS, line("5 bob"));
    let (state, deliveries) = in_room_step(&mut mgr, 1, 5, HandlerEvent::Eof);
    assert_eq!(state, HandlerState::Closed);
    assert_eq!(deliveries.len(), 1);
    assert_eq!(deliveries[0].addr, 2);
    assert_eq!(deliveries[0].text, "alice left the room");
    let room = mgr.get_room(5).unwrap();
    assert_eq!(room.members.len(), 1);
    assert_eq!(room.members[0].name, "bob");
}

#[test]
fn last_disconnect_unregisters_the_room() {
    let mut mgr = RoomsManager::new();
    awaiting_join_step(&mut mgr, 1, JOIN_ATTEMPTS, line("5 alice"));
    let (state, deliveries) = in_room_step(&mut mgr, 1, 5, HandlerEvent::ReadError);
    assert_eq!(state, HandlerState::Closed);
    assert!(deliveries.is_empty());
    assert!(mgr.get_room(5).is_none());
    assert_eq!(mgr.get_room_ids_string(), "");
}

#[test]
fn disconnect_of_a_stranger_changes_nothing() {
    let mut mgr = RoomsManager::new();
    awaiting_join_step(&mut mgr, 1, JOIN_ATTEMPTS, line("5 alice"));
    let deliveries = handle_disconnect(&mut mgr, 5, 99);
    assert!(deliveries.is_empty());
    assert_eq!(mgr.get_room(5).unwrap().members.len(), 1);
    let deliveries = handle_disconnect(&mut mgr, 8, 1);
    assert!(deliveries.is_empty());
    assert_eq!(mgr.rooms.len(), 1);
}

#[test]
fn registry_never_holds_empty_rooms_through_the_protocol() {
    let mut mgr = RoomsManager::new();
    awaiting_join_step(&mut mgr, 1, JOIN_ATTEMPTS, line("5 alice"));
    awaiting_join_step(&mut mgr, 2, JOIN_ATTEMPTS, line("7 bob"));
    assert!(mgr.rooms.iter().all(|r| !r.members.is_empty()));
    in_room_step(&mut mgr, 1, 5, HandlerEvent::Eof);
    assert!(mgr.rooms.iter().all(|r| !r.members.is_empty()));
    in_room_step(&mut mgr, 2, 7, HandlerEvent::Eof);
    assert!(mgr.rooms.iter().all(|r| !r.members.is_empty()));
    assert!(mgr.rooms.is_empty());
}
