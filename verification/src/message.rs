//! The data carried between clients and the hub: identifiers, display names,
//! chat messages, and the tagged request payloads of the session protocol.

use vstd::prelude::*;

verus! {

/// Author string the server signs its own synthetic notices with.
pub const SERVER_SIGNATURE: &'static str = "SERVER";

/// Opaque identifier of a registered client, drawn at registration time.
#[derive(Clone, Copy, PartialEq, Eq, Structural, Debug)]
pub struct ClientUuid(pub u128);

/// Opaque identifier of a room, drawn when the room is created.
#[derive(Clone, Copy, PartialEq, Eq, Structural, Debug)]
pub struct RoomUuid(pub u128);

/// Display name a client registers under. Not required to be unique.
#[derive(Clone, PartialEq, Debug)]
pub struct ClientName(pub String);

/// Name a room is created under. Unique within the registry.
#[derive(Clone, PartialEq, Debug)]
pub struct RoomName(pub String);

/// Which of the hub's two listeners an address is built for.
pub enum Protocol {
    HTTP,
    WS,
}

/// A chat message as it travels through the hub: immutable once built, the
/// timestamp in whole seconds since the Unix epoch.
pub struct ChatMessage {
    pub author: String,
    pub contents: String,
    pub timestamp: u64,
}

/// Mathematical image of a [`ChatMessage`].
pub struct ChatMessageView {
    pub author: Seq<char>,
    pub contents: Seq<char>,
    pub timestamp: u64,
}

impl View for ChatMessage {
    type V = ChatMessageView;

    open spec fn view(&self) -> ChatMessageView {
        ChatMessageView {
            author: self.author@,
            contents: self.contents@,
            timestamp: self.timestamp,
        }
    }
}

impl ChatMessage {
    /// Builds a message stamped with the current wall-clock time.
    pub fn new(author: &str, contents: &str) -> (m: ChatMessage)
        ensures
            m@.author == author@,
            m@.contents == contents@,
    {
        ChatMessage {
            author: author.to_owned(),
            contents: contents.to_owned(),
            timestamp: crate::clock::now_unix_seconds(),
        }
    }
}

/// The earliest wire record of a chat line, kept for callers of the first
/// protocol generation; same shape as [`ChatMessage`].
pub struct Message {
    pub author: String,
    pub contents: String,
    pub timestamp: u64,
}

impl View for Message {
    type V = ChatMessageView;

    open spec fn view(&self) -> ChatMessageView {
        ChatMessageView {
            author: self.author@,
            contents: self.contents@,
            timestamp: self.timestamp,
        }
    }
}

impl Message {
    /// Builds a record stamped with the current wall-clock time.
    pub fn new(author: &str, contents: &str) -> (m: Message)
        ensures
            m@.author == author@,
            m@.contents == contents@,
    {
        Message {
            author: author.to_owned(),
            contents: contents.to_owned(),
            timestamp: crate::clock::now_unix_seconds(),
        }
    }
}

/// The tagged request payloads of the session protocol, one variant per
/// operation. A handler given a payload of the wrong variant reports a
/// malformed request.
pub enum ReqData {
    HeartbeatData(ClientUuid),
    CreateRoomData(RoomName),
    GetRoomData(RoomName),
    JoinRoomData(ClientName, ClientUuid, RoomUuid),
    SendMsgData(ChatMessage, RoomUuid),
    LoginData(ClientName),
    RegistrationData(ClientName),
    LeaveRoomData(RoomUuid, ClientUuid),
    ExitAppData(ClientUuid),
}

} // verus!
