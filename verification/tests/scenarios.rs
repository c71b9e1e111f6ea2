//! End-to-end scenarios over the session engine: registration, rooms,
//! broadcast, presence sweeps, and departures.

use chatter::handlers::{
    handle_create_room, handle_exit_app, handle_heartbeat, handle_join_room, handle_leave_room,
    handle_login, handle_registration, handle_send_msg, ApiError,
};
use chatter::message::{ChatMessage, ClientName, ClientUuid, ReqData, RoomName, RoomUuid};
use chatter::registry::AppState;
use chatter::sweep::sweep_once;
use chatter::wire::chat_message_to_json;

fn register(app: &mut AppState, name: &str) -> ClientUuid {
    handle_registration(app, ReqData::RegistrationData(ClientName(name.to_string())))
        .expect("registration never fails")
}

fn create_room(app: &mut AppState, name: &str) -> (RoomUuid, bool) {
    handle_create_room(app, ReqData::CreateRoomData(RoomName(name.to_string())))
        .expect("room creation never fails")
}

fn join(app: &mut AppState, name: &str, client: ClientUuid, room: RoomUuid, now: u64) -> bool {
    handle_join_room(
        app,
        ReqData::JoinRoomData(ClientName(name.to_string()), client, room),
        now,
    )
    .expect("join with a well-formed payload never errors")
}

fn members_of(app: &AppState, room: RoomUuid) -> Vec<ClientUuid> {
    for r in &app.rooms {
        if r.uuid == room {
            return r.members.clone();
        }
    }
    panic!("room not found");
}

#[test]
fn register_create_join_single_member() {
    let mut app = AppState::new("hub");
    let alice = register(&mut app, "alice");
    let (lobby, created) = create_room(&mut app, "lobby");
    assert!(created);
    assert!(join(&mut app, "alice", alice, lobby, 10));

    let members = members_of(&app, lobby);
    assert_eq!(members.len(), 1);
    assert_eq!(members[0], alice);
}

#[test]
fn broadcast_reaches_all_members() {
    let mut app = AppState::new("hub");
    let alice = register(&mut app, "alice");
    let bob = register(&mut app, "bob");
    let (lobby, _) = create_room(&mut app, "lobby");
    assert!(join(&mut app, "alice", alice, lobby, 1));
    assert!(join(&mut app, "bob", bob, lobby, 2));

    // Clear the join notices so only the chat line remains.
    app.take_outbox(alice);
    app.take_outbox(bob);

    let msg = ChatMessage {
        author: "alice".to_string(),
        contents: "hi".to_string(),
        timestamp: 3,
    };
    let expected = chat_message_to_json(&msg);
    let res = handle_send_msg(&mut app, ReqData::SendMsgData(msg, lobby));
    assert_eq!(res, Ok(()));

    let alice_box = app.take_outbox(alice);
    let bob_box = app.take_outbox(bob);
    assert_eq!(alice_box, vec![expected.clone()]);
    assert_eq!(bob_box, vec![expected.clone()]);

    let parsed: serde_json::Value = serde_json::from_slice(&expected).unwrap();
    assert_eq!(parsed["author"], "alice");
    assert_eq!(parsed["contents"], "hi");
    assert_eq!(parsed["timestamp"], 3);
}

#[test]
fn two_missed_sweeps_evict_and_announce() {
    let mut app = AppState::new("hub");
    let alice = register(&mut app, "alice");
    let bob = register(&mut app, "bob");
    let (lobby, _) = create_room(&mut app, "lobby");
    assert!(join(&mut app, "alice", alice, lobby, 1));
    assert!(join(&mut app, "bob", bob, lobby, 2));
    app.take_outbox(alice);
    app.take_outbox(bob);

    // First sweep: everyone was alive, nobody is evicted, all are armed.
    let evicted = sweep_once(&mut app, 100);
    assert!(evicted.is_empty());

    // Bob heartbeats; alice stays silent.
    assert_eq!(
        handle_heartbeat(&mut app, ReqData::HeartbeatData(bob)),
        Ok(())
    );

    // Second sweep: alice missed two windows and is evicted.
    let evicted = sweep_once(&mut app, 105);
    assert_eq!(evicted, vec![alice]);
    assert!(!app.client_exists(alice));
    assert!(app.client_exists(bob));
    assert!(!members_of(&app, lobby).contains(&alice));
    assert!(members_of(&app, lobby).contains(&bob));

    // Bob received the departure notice.
    let bob_box = app.take_outbox(bob);
    let goodbye = ChatMessage {
        author: "SERVER".to_string(),
        contents: "alice has left the chat".to_string(),
        timestamp: 105,
    };
    assert_eq!(bob_box, vec![chat_message_to_json(&goodbye)]);

    // A heartbeat from alice's old identifier is now refused.
    assert_eq!(
        handle_heartbeat(&mut app, ReqData::HeartbeatData(alice)),
        Err(ApiError::NotFound)
    );
}

#[test]
fn heartbeat_each_interval_prevents_eviction() {
    let mut app = AppState::new("hub");
    let alice = register(&mut app, "alice");
    for tick in 0..5u64 {
        let evicted = sweep_once(&mut app, 100 + tick);
        assert!(evicted.is_empty());
        assert_eq!(
            handle_heartbeat(&mut app, ReqData::HeartbeatData(alice)),
            Ok(())
        );
    }
    assert!(app.client_exists(alice));
}

#[test]
fn leaver_stops_receiving_but_send_succeeds() {
    let mut app = AppState::new("hub");
    let alice = register(&mut app, "alice");
    let bob = register(&mut app, "bob");
    let (lobby, _) = create_room(&mut app, "lobby");
    assert!(join(&mut app, "alice", alice, lobby, 1));
    assert!(join(&mut app, "bob", bob, lobby, 2));

    let res = handle_leave_room(&mut app, ReqData::LeaveRoomData(lobby, bob), 3);
    assert_eq!(res, Ok(()));
    app.take_outbox(alice);
    app.take_outbox(bob);

    let msg = ChatMessage {
        author: "bob".to_string(),
        contents: "anyone there?".to_string(),
        timestamp: 4,
    };
    let expected = chat_message_to_json(&msg);
    assert_eq!(handle_send_msg(&mut app, ReqData::SendMsgData(msg, lobby)), Ok(()));

    // The room still exists and alice still receives; bob no longer does.
    assert_eq!(app.take_outbox(alice), vec![expected]);
    assert_eq!(app.take_outbox(bob), Vec::<Vec<u8>>::new());
}

#[test]
fn leaver_receives_its_own_departure_notice() {
    let mut app = AppState::new("hub");
    let bob = register(&mut app, "bob");
    let (lobby, _) = create_room(&mut app, "lobby");
    assert!(join(&mut app, "bob", bob, lobby, 1));
    app.take_outbox(bob);

    assert_eq!(
        handle_leave_room(&mut app, ReqData::LeaveRoomData(lobby, bob), 2),
        Ok(())
    );
    let goodbye = ChatMessage {
        author: "SERVER".to_string(),
        contents: "bob has left the chat".to_string(),
        timestamp: 2,
    };
    assert_eq!(app.take_outbox(bob), vec![chat_message_to_json(&goodbye)]);
}

#[test]
fn dangling_membership_is_skipped() {
    let mut app = AppState::new("hub");
    let alice = register(&mut app, "alice");
    let (lobby, _) = create_room(&mut app, "lobby");
    assert!(join(&mut app, "alice", alice, lobby, 1));

    // A member that never registered: broadcast must skip it silently and
    // still deliver to everyone else.
    let ghostly = ClientUuid(0xdead_beef);
    assert!(app.add_member(lobby, ghostly));
    app.take_outbox(alice);

    let msg = ChatMessage {
        author: "alice".to_string(),
        contents: "hello?".to_string(),
        timestamp: 2,
    };
    let expected = chat_message_to_json(&msg);
    assert_eq!(handle_send_msg(&mut app, ReqData::SendMsgData(msg, lobby)), Ok(()));
    assert_eq!(app.take_outbox(alice), vec![expected]);
}

#[test]
fn exit_app_removes_client_everywhere() {
    let mut app = AppState::new("hub");
    let alice = register(&mut app, "alice");
    let bob = register(&mut app, "bob");
    let (lobby, _) = create_room(&mut app, "lobby");
    let (den, _) = create_room(&mut app, "den");
    assert!(join(&mut app, "alice", alice, lobby, 1));
    assert!(join(&mut app, "alice", alice, den, 2));
    assert!(join(&mut app, "bob", bob, lobby, 3));
    app.take_outbox(alice);
    app.take_outbox(bob);

    assert_eq!(handle_exit_app(&mut app, ReqData::ExitAppData(alice), 4), Ok(()));
    assert!(!app.client_exists(alice));
    assert!(!members_of(&app, lobby).contains(&alice));
    assert!(!members_of(&app, den).contains(&alice));

    // Bob shared one room with alice: exactly one departure notice.
    let goodbye = ChatMessage {
        author: "SERVER".to_string(),
        contents: "alice has left the chat".to_string(),
        timestamp: 4,
    };
    assert_eq!(app.take_outbox(bob), vec![chat_message_to_json(&goodbye)]);

    // Exiting again is an accepted no-op.
    assert_eq!(handle_exit_app(&mut app, ReqData::ExitAppData(alice), 5), Ok(()));
}

#[test]
fn login_finds_registered_names() {
    let mut app = AppState::new("hub");
    let alice = register(&mut app, "alice");
    assert_eq!(
        handle_login(&app, ReqData::LoginData(ClientName("alice".to_string()))),
        Ok(Some(alice))
    );
    assert_eq!(
        handle_login(&app, ReqData::LoginData(ClientName("carol".to_string()))),
        Ok(None)
    );
}

#[test]
fn registration_yields_distinct_identifiers() {
    let mut app = AppState::new("hub");
    let a = register(&mut app, "alice");
    let b = register(&mut app, "alice");
    assert_ne!(a, b);
}
