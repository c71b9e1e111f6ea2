//! The session protocol handlers: one per operation exposed to the outside
//! world. Each takes the store and a tagged request payload, performs the
//! matching registry and broadcast calls, and reports the outcome as a typed
//! result. A payload of the wrong variant is a malformed request; an unknown
//! client or room is reported as not found, never a panic. The surrounding
//! server parses request bodies into [`ReqData`], supplies the wall-clock
//! time, and shapes these results into wire responses.

use vstd::prelude::*;
use vstd::string::StringExecFns;

use crate::message::{
    ChatMessage, ChatMessageView, ClientUuid, ReqData, RoomUuid, SERVER_SIGNATURE,
};
use crate::registry::{
    broadcast_rel, disconnect_one_rel, get_or_create_rel, goodbye_message, repeat_msg, room_named,
    shared_rooms, AppState, AppStateView, ClientView, RoomView,
};
use crate::wire::chat_message_json;

verus! {

/// Why a request was refused.
#[derive(Clone, Copy, PartialEq, Eq, Structural, Debug)]
pub enum ApiError {
    /// The payload is not the variant this operation takes.
    MalformedRequest,
    /// The client or room the request refers to is not in the registry.
    NotFound,
}

/// The arrival notice for a client of this name.
pub open spec fn hello_text(name: Seq<char>) -> Seq<char> {
    name + " has joined the chat"@
}

/// The synthetic system message announcing an arrival.
pub open spec fn hello_message(name: Seq<char>, now: u64) -> ChatMessageView {
    ChatMessageView { author: SERVER_SIGNATURE@, contents: hello_text(name), timestamp: now }
}

/// What a successful join does to the store: the client is added to the
/// room's membership, and then the arrival notice is broadcast to the room's
/// members, the newcomer among them.
pub open spec fn join_room_rel(
    s: AppStateView,
    name: Seq<char>,
    c: u128,
    room: u128,
    now: u64,
    s2: AppStateView,
) -> bool {
    broadcast_rel(
        (AppStateView {
            name: s.name,
            clients: s.clients,
            rooms: s.rooms.insert(
                room,
                (RoomView {
                    name: s.rooms[room].name,
                    uuid: room,
                    members: s.rooms[room].members.insert(c),
                }),
            ),
        }),
        hello_message(name, now),
        room,
        s2,
    )
}

/// What a successful exit does to the store: the client leaves every room
/// (with a departure notice per shared room to everyone concerned) and its
/// entry, outbound queue included, is deleted.
pub open spec fn exit_app_rel(s: AppStateView, c: u128, now: u64, s2: AppStateView) -> bool {
    &&& s2.name == s.name
    &&& (forall|k: u128| #[trigger]
        s2.clients.contains_key(k) <==> (s.clients.contains_key(k) && k != c))
    &&& (forall|k: u128|
        s2.clients.contains_key(k) ==> {
            let cl = s.clients[k];
            let cl2 = #[trigger] s2.clients[k];
            &&& cl2.alive == cl.alive
            &&& cl2.name == cl.name
            &&& cl2.outbox == cl.outbox + repeat_msg(
                chat_message_json(goodbye_message(s.clients[c].name, now)),
                shared_rooms(s, c, k).len(),
            )
        })
    &&& s2.rooms.dom() == s.rooms.dom()
    &&& (forall|r: u128|
        s.rooms.contains_key(r) ==> {
            let rm = s.rooms[r];
            let rm2 = #[trigger] s2.rooms[r];
            &&& rm2.name == rm.name
            &&& rm2.uuid == rm.uuid
            &&& rm2.members == rm.members.remove(c)
        })
}

/// Reports that the server is up, by name.
pub fn handle_health_check(app: &AppState) -> (r: String)
    ensures
        r@ == "I am "@ + app@.name + " and I am alive!"@,
{
    let mut s = "I am ".to_owned();
    s.append(app.name.as_str());
    s.append(" and I am alive!");
    s
}

/// Registers a new client: the one operation arriving over the duplex
/// connection's handshake rather than the request channel. Any payload other
/// than a registration is refused without creating a client.
pub fn handle_registration(app: &mut AppState, data: ReqData) -> (r: Result<ClientUuid, ApiError>)
    requires
        old(app).wf(),
        old(app)@.clients.dom().len() < usize::MAX,
    ensures
        final(app).wf(),
        match data {
            ReqData::RegistrationData(name) => r matches Ok(id) && !old(
                app,
            )@.clients.contains_key(id.0) && final(app)@.clients == old(app)@.clients.insert(
                id.0,
                (ClientView { alive: true, name: name.0@, outbox: Seq::empty() }),
            ) && final(app)@.rooms == old(app)@.rooms && final(app)@.name == old(app)@.name,
            _ => r matches Err(e) && e == ApiError::MalformedRequest && final(app)@ == old(app)@,
        },
{
    match data {
        ReqData::RegistrationData(name) => Ok(app.insert_client(name.0.as_str())),
        _ => Err(ApiError::MalformedRequest),
    }
}

/// Looks a display name up: whether this name is already registered, and
/// under which identifier. An unknown name is an ordinary `None`, not an
/// error: the caller is expected to register instead.
pub fn handle_login(app: &AppState, data: ReqData) -> (r: Result<Option<ClientUuid>, ApiError>)
    requires
        app.wf(),
    ensures
        match data {
            ReqData::LoginData(name) => match r {
                Ok(found) => match found {
                    Some(id) => app@.clients.contains_key(id.0) && app@.clients[id.0].name
                        == name.0@,
                    None => forall|k: u128|
                        app@.clients.contains_key(k) ==> app@.clients[k].name != name.0@,
                },
                Err(_) => false,
            },
            _ => r matches Err(e) && e == ApiError::MalformedRequest,
        },
{
    match data {
        ReqData::LoginData(name) => Ok(app.find_client_by_name(name.0.as_str())),
        _ => Err(ApiError::MalformedRequest),
    }
}

/// Finds or creates the room of the given name; idempotent by name. The
/// flag says whether a new room came into being, so the caller can announce
/// a created room.
pub fn handle_create_room(app: &mut AppState, data: ReqData) -> (r: Result<
    (RoomUuid, bool),
    ApiError,
>)
    requires
        old(app).wf(),
        old(app)@.rooms.dom().len() < usize::MAX,
    ensures
        final(app).wf(),
        match data {
            ReqData::CreateRoomData(name) => r matches Ok(p) && get_or_create_rel(
                old(app)@,
                name.0@,
                p.0.0,
                p.1,
                final(app)@,
            ),
            _ => r matches Err(e) && e == ApiError::MalformedRequest && final(app)@ == old(app)@,
        },
{
    match data {
        ReqData::CreateRoomData(name) => Ok(app.get_or_create_room(name.0.as_str())),
        _ => Err(ApiError::MalformedRequest),
    }
}

/// Looks a room up by name; an unknown name is an ordinary `None`.
pub fn handle_get_room(app: &AppState, data: ReqData) -> (r: Result<Option<RoomUuid>, ApiError>)
    requires
        app.wf(),
    ensures
        match data {
            ReqData::GetRoomData(name) => match r {
                Ok(found) => match found {
                    Some(id) => room_named(app@, name.0@, id.0),
                    None => forall|k: u128| !room_named(app@, name.0@, k),
                },
                Err(_) => false,
            },
            _ => r matches Err(e) && e == ApiError::MalformedRequest,
        },
{
    match data {
        ReqData::GetRoomData(name) => Ok(app.find_room_by_name(name.0.as_str())),
        _ => Err(ApiError::MalformedRequest),
    }
}

/// Joins a client to a room and announces the arrival to the room. The
/// flag reports whether the room exists; joining a missing room changes
/// nothing and is reported as `false` rather than as an error.
pub fn handle_join_room(app: &mut AppState, data: ReqData, now: u64) -> (r: Result<bool, ApiError>)
    requires
        old(app).wf(),
    ensures
        final(app).wf(),
        match data {
            ReqData::JoinRoomData(name, client_uuid, room_uuid) => r matches Ok(joined) && joined
                == old(app)@.rooms.contains_key(room_uuid.0) && (joined ==> join_room_rel(
                old(app)@,
                name.0@,
                client_uuid.0,
                room_uuid.0,
                now,
                final(app)@,
            )) && (!joined ==> final(app)@ == old(app)@),
            _ => r matches Err(e) && e == ApiError::MalformedRequest && final(app)@ == old(app)@,
        },
{
    match data {
        ReqData::JoinRoomData(name, client_uuid, room_uuid) => {
            let found = app.add_member(room_uuid, client_uuid);
            if found {
                let mut contents = name.0;
                contents.append(" has joined the chat");
                let hello = ChatMessage {
                    author: SERVER_SIGNATURE.to_owned(),
                    contents,
                    timestamp: now,
                };
                app.send_to_room(&hello, room_uuid);
                Ok(true)
            } else {
                Ok(false)
            }
        },
        _ => Err(ApiError::MalformedRequest),
    }
}

/// Broadcasts a chat message to a room. The room must exist; the sender
/// need not be one of its members, and a missing room is reported as not
/// found. Handing the message to the logging collaborator is the caller's
/// step, after this one succeeds.
pub fn handle_send_msg(app: &mut AppState, data: ReqData) -> (r: Result<(), ApiError>)
    requires
        old(app).wf(),
    ensures
        final(app).wf(),
        match data {
            ReqData::SendMsgData(msg, room_uuid) => {
                &&& (old(app)@.rooms.contains_key(room_uuid.0) ==> (r matches Ok(u) && u == ()
                    && broadcast_rel(old(app)@, msg@, room_uuid.0, final(app)@)))
                &&& (!old(app)@.rooms.contains_key(room_uuid.0) ==> (r matches Err(e) && e
                    == ApiError::NotFound && final(app)@ == old(app)@))
            },
            _ => r matches Err(e) && e == ApiError::MalformedRequest && final(app)@ == old(app)@,
        },
{
    match data {
        ReqData::SendMsgData(msg, room_uuid) => {
            if app.room_exists(room_uuid) {
                app.send_to_room(&msg, room_uuid);
                Ok(())
            } else {
                Err(ApiError::NotFound)
            }
        },
        _ => Err(ApiError::MalformedRequest),
    }
}

/// Takes a client out of one room, announcing the departure to the room
/// first (so the leaver still receives the notice). Leaving a room one is
/// not a member of is a no-op on the membership, not an error; an unknown
/// client or room is reported as not found.
pub fn handle_leave_room(app: &mut AppState, data: ReqData, now: u64) -> (r: Result<(), ApiError>)
    requires
        old(app).wf(),
    ensures
        final(app).wf(),
        match data {
            ReqData::LeaveRoomData(room_uuid, client_uuid) => {
                &&& (old(app)@.clients.contains_key(client_uuid.0)
                    && old(app)@.rooms.contains_key(room_uuid.0) ==> (r matches Ok(u) && u == ()
                    && disconnect_one_rel(
                    old(app)@,
                    client_uuid.0,
                    room_uuid.0,
                    now,
                    final(app)@,
                )))
                &&& (!(old(app)@.clients.contains_key(client_uuid.0)
                    && old(app)@.rooms.contains_key(room_uuid.0)) ==> (r matches Err(e) && e
                    == ApiError::NotFound && final(app)@ == old(app)@))
            },
            _ => r matches Err(e) && e == ApiError::MalformedRequest && final(app)@ == old(app)@,
        },
{
    match data {
        ReqData::LeaveRoomData(room_uuid, client_uuid) => {
            if app.client_exists(client_uuid) && app.room_exists(room_uuid) {
                app.disconnect_client_from_one(client_uuid, room_uuid, now);
                Ok(())
            } else {
                Err(ApiError::NotFound)
            }
        },
        _ => Err(ApiError::MalformedRequest),
    }
}

/// Removes a client from the hub altogether: a departure notice per room it
/// belonged to, then the entry itself is deleted. Idempotent: exiting an
/// unknown (for instance, already evicted) client changes nothing and still
/// succeeds.
pub fn handle_exit_app(app: &mut AppState, data: ReqData, now: u64) -> (r: Result<(), ApiError>)
    requires
        old(app).wf(),
    ensures
        final(app).wf(),
        match data {
            ReqData::ExitAppData(client_uuid) => {
                &&& (old(app)@.clients.contains_key(client_uuid.0) ==> (r matches Ok(u) && u == ()
                    && exit_app_rel(old(app)@, client_uuid.0, now, final(app)@)))
                &&& (!old(app)@.clients.contains_key(client_uuid.0) ==> (r matches Ok(u) && u == ()
                    && final(app)@ == old(app)@))
            },
            _ => r matches Err(e) && e == ApiError::MalformedRequest && final(app)@ == old(app)@,
        },
{
    match data {
        ReqData::ExitAppData(client_uuid) => {
            if app.client_exists(client_uuid) {
                let ghost s0 = app@;
                app.disconnect_client_from_all(client_uuid, now);
                let ghost s1 = app@;
                app.remove(client_uuid);
                proof {
                    assert forall|k: u128| #[trigger]
                        final(app)@.clients.contains_key(k) <==> (s0.clients.contains_key(k) && k
                            != client_uuid.0) by {}
                }
                Ok(())
            } else {
                Ok(())
            }
        },
        _ => Err(ApiError::MalformedRequest),
    }
}

/// Marks a client alive for the current sweep window. A heartbeat from a
/// client that is no longer registered (for instance, already evicted) is
/// reported as not found; the client must register anew.
pub fn handle_heartbeat(app: &mut AppState, data: ReqData) -> (r: Result<(), ApiError>)
    requires
        old(app).wf(),
    ensures
        final(app).wf(),
        match data {
            ReqData::HeartbeatData(client_uuid) => {
                &&& (old(app)@.clients.contains_key(client_uuid.0) ==> (r matches Ok(u) && u == ()
                    && final(app)@.clients == old(app)@.clients.insert(
                    client_uuid.0,
                    (ClientView {
                        alive: true,
                        name: old(app)@.clients[client_uuid.0].name,
                        outbox: old(app)@.clients[client_uuid.0].outbox,
                    }),
                ) && final(app)@.rooms == old(app)@.rooms && final(app)@.name == old(app)@.name))
                &&& (!old(app)@.clients.contains_key(client_uuid.0) ==> (r matches Err(e) && e
                    == ApiError::NotFound && final(app)@ == old(app)@))
            },
            _ => r matches Err(e) && e == ApiError::MalformedRequest && final(app)@ == old(app)@,
        },
{
    match data {
        ReqData::HeartbeatData(client_uuid) => {
            if app.mark_alive(client_uuid) {
                Ok(())
            } else {
                Err(ApiError::NotFound)
            }
        },
        _ => Err(ApiError::MalformedRequest),
    }
}

} // verus!
