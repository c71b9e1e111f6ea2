//! Unit-level checks of the registry operations, the protocol handlers'
//! error reporting, and the wire encoding.

use chatter::handlers::{
    handle_create_room, handle_get_room, handle_health_check, handle_heartbeat, handle_join_room,
    handle_leave_room, handle_login, handle_registration, handle_send_msg, ApiError,
};
use chatter::message::{
    ChatMessage, ClientName, ClientUuid, Message, Protocol, ReqData, RoomName, RoomUuid,
};
use chatter::registry::AppState;
use chatter::wire::chat_message_to_json;

#[test]
fn get_or_create_room_is_idempotent_by_name() {
    let mut app = AppState::new("hub");
    let (first, created_first) = app.get_or_create_room("lobby");
    let (second, created_second) = app.get_or_create_room("lobby");
    assert!(created_first);
    assert!(!created_second);
    assert_eq!(first, second);

    let (other, created_other) = app.get_or_create_room("den");
    assert!(created_other);
    assert_ne!(other, first);
}

#[test]
fn remove_member_is_idempotent() {
    let mut app = AppState::new("hub");
    let alice = app.insert_client("alice");
    let (lobby, _) = app.get_or_create_room("lobby");
    assert!(app.add_member(lobby, alice));

    assert!(app.remove_member(lobby, alice));
    let after_once: Vec<ClientUuid> = app
        .rooms
        .iter()
        .find(|r| r.uuid == lobby)
        .unwrap()
        .members
        .clone();
    assert!(app.remove_member(lobby, alice));
    let after_twice: Vec<ClientUuid> = app
        .rooms
        .iter()
        .find(|r| r.uuid == lobby)
        .unwrap()
        .members
        .clone();
    assert_eq!(after_once, after_twice);
    assert!(after_once.is_empty());
}

#[test]
fn add_member_is_idempotent() {
    let mut app = AppState::new("hub");
    let alice = app.insert_client("alice");
    let (lobby, _) = app.get_or_create_room("lobby");
    assert!(app.add_member(lobby, alice));
    assert!(app.add_member(lobby, alice));
    let members = &app.rooms.iter().find(|r| r.uuid == lobby).unwrap().members;
    assert_eq!(members.len(), 1);
}

#[test]
fn membership_operations_on_missing_room_report_absence() {
    let mut app = AppState::new("hub");
    let alice = app.insert_client("alice");
    let nowhere = RoomUuid(42);
    assert!(!app.add_member(nowhere, alice));
    assert!(!app.remove_member(nowhere, alice));
    assert!(!app.room_exists(nowhere));
}

#[test]
fn wrong_variant_is_malformed() {
    let mut app = AppState::new("hub");
    let probe = ClientUuid(7);
    assert_eq!(
        handle_registration(&mut app, ReqData::HeartbeatData(probe)),
        Err(ApiError::MalformedRequest)
    );
    assert_eq!(
        handle_login(&app, ReqData::HeartbeatData(probe)),
        Err(ApiError::MalformedRequest)
    );
    assert_eq!(
        handle_create_room(&mut app, ReqData::HeartbeatData(probe)),
        Err(ApiError::MalformedRequest)
    );
    assert_eq!(
        handle_get_room(&app, ReqData::HeartbeatData(probe)),
        Err(ApiError::MalformedRequest)
    );
    assert_eq!(
        handle_join_room(&mut app, ReqData::HeartbeatData(probe), 0),
        Err(ApiError::MalformedRequest)
    );
    assert_eq!(
        handle_send_msg(&mut app, ReqData::HeartbeatData(probe)),
        Err(ApiError::MalformedRequest)
    );
    assert_eq!(
        handle_leave_room(&mut app, ReqData::HeartbeatData(probe), 0),
        Err(ApiError::MalformedRequest)
    );
    assert_eq!(
        handle_heartbeat(&mut app, ReqData::LoginData(ClientName("x".to_string()))),
        Err(ApiError::MalformedRequest)
    );
}

#[test]
fn unknown_targets_are_not_found() {
    let mut app = AppState::new("hub");
    let alice = app.insert_client("alice");
    let nowhere = RoomUuid(42);
    let nobody = ClientUuid(43);

    let msg = ChatMessage {
        author: "alice".to_string(),
        contents: "into the void".to_string(),
        timestamp: 1,
    };
    assert_eq!(
        handle_send_msg(&mut app, ReqData::SendMsgData(msg, nowhere)),
        Err(ApiError::NotFound)
    );
    assert_eq!(
        handle_leave_room(&mut app, ReqData::LeaveRoomData(nowhere, alice), 1),
        Err(ApiError::NotFound)
    );
    let (lobby, _) = app.get_or_create_room("lobby");
    assert_eq!(
        handle_leave_room(&mut app, ReqData::LeaveRoomData(lobby, nobody), 1),
        Err(ApiError::NotFound)
    );
    assert_eq!(
        handle_heartbeat(&mut app, ReqData::HeartbeatData(nobody)),
        Err(ApiError::NotFound)
    );
}

#[test]
fn join_missing_room_reports_false() {
    let mut app = AppState::new("hub");
    let alice = app.insert_client("alice");
    let joined = handle_join_room(
        &mut app,
        ReqData::JoinRoomData(ClientName("alice".to_string()), alice, RoomUuid(42)),
        0,
    );
    assert_eq!(joined, Ok(false));
}

#[test]
fn get_room_finds_by_name() {
    let mut app = AppState::new("hub");
    let (lobby, _) = app.get_or_create_room("lobby");
    assert_eq!(
        handle_get_room(&app, ReqData::GetRoomData(RoomName("lobby".to_string()))),
        Ok(Some(lobby))
    );
    assert_eq!(
        handle_get_room(&app, ReqData::GetRoomData(RoomName("attic".to_string()))),
        Ok(None)
    );
}

#[test]
fn health_check_names_the_server() {
    let app = AppState::new("Pre-websocket server");
    assert_eq!(
        handle_health_check(&app),
        "I am Pre-websocket server and I am alive!"
    );
}

#[test]
fn take_outbox_empties_the_queue() {
    let mut app = AppState::new("hub");
    let alice = app.insert_client("alice");
    let (lobby, _) = app.get_or_create_room("lobby");
    assert!(app.add_member(lobby, alice));
    let msg = ChatMessage {
        author: "alice".to_string(),
        contents: "one".to_string(),
        timestamp: 1,
    };
    app.send_to_room(&msg, lobby);
    assert_eq!(app.take_outbox(alice).len(), 1);
    assert_eq!(app.take_outbox(alice).len(), 0);
    // An unknown client yields nothing.
    assert_eq!(app.take_outbox(ClientUuid(99)).len(), 0);
}

#[test]
fn client_ids_lists_the_registered() {
    let mut app = AppState::new("hub");
    let alice = app.insert_client("alice");
    let bob = app.insert_client("bob");
    let ids = app.client_ids();
    assert_eq!(ids.len(), 2);
    assert!(ids.contains(&alice));
    assert!(ids.contains(&bob));
}

#[test]
fn broadcast_order_is_send_order() {
    let mut app = AppState::new("hub");
    let alice = app.insert_client("alice");
    let (lobby, _) = app.get_or_create_room("lobby");
    assert!(app.add_member(lobby, alice));
    let first = ChatMessage {
        author: "bob".to_string(),
        contents: "first".to_string(),
        timestamp: 1,
    };
    let second = ChatMessage {
        author: "bob".to_string(),
        contents: "second".to_string(),
        timestamp: 2,
    };
    let expected = vec![chat_message_to_json(&first), chat_message_to_json(&second)];
    app.send_to_room(&first, lobby);
    app.send_to_room(&second, lobby);
    assert_eq!(app.take_outbox(alice), expected);
}

#[test]
fn messages_carry_a_wall_clock_stamp() {
    let m = Message::new("alice", "hello");
    assert_eq!(m.author, "alice");
    assert_eq!(m.contents, "hello");
    // The clock read happened after 2001.
    assert!(m.timestamp >= 1_000_000_000);

    let c = ChatMessage::new("bob", "hi");
    assert_eq!(c.author, "bob");
    assert_eq!(c.contents, "hi");
    assert!(c.timestamp >= 1_000_000_000);
}

#[test]
fn new_room_is_empty() {
    let r = chatter::registry::Room::new("lobby");
    assert_eq!(r.name.0, "lobby");
    assert!(r.members.is_empty());
}

#[test]
fn new_client_is_alive_with_empty_queue() {
    let c = chatter::registry::Client::new("alice");
    assert!(c.is_alive);
    assert_eq!(c.name.0, "alice");
    assert!(c.outbox.is_empty());
}

#[test]
fn protocol_has_two_listeners() {
    // The two transports the hub serves.
    let p = Protocol::HTTP;
    let q = Protocol::WS;
    assert!(matches!(p, Protocol::HTTP));
    assert!(matches!(q, Protocol::WS));
}
