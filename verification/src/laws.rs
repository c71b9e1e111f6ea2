//! The laws of the session engine: properties that relate several
//! operations, each proved from the operations' own contracts. The
//! single-operation guarantees (a broadcast reaches every valid member
//! exactly once and skips dangling memberships silently) are the `ensures`
//! of the operations themselves, in [`crate::registry`].

use vstd::prelude::*;

use crate::message::ClientUuid;
use crate::registry::{
    broadcast_rel, get_or_create_rel, room_named, room_names_unique, AppStateView, ClientView,
    RoomView,
};
use crate::sweep::sweep_rel;
use crate::wire::chat_message_json;
use crate::message::ChatMessageView;

verus! {

/// Broadcast order is kept per recipient: two broadcasts to the same room
/// enqueue their serialized messages on every member's outbound queue in
/// the order the broadcast calls occurred.
pub proof fn lemma_broadcast_order(
    s: AppStateView,
    m1: ChatMessageView,
    m2: ChatMessageView,
    room: u128,
    s1: AppStateView,
    s2: AppStateView,
    k: u128,
)
    requires
        broadcast_rel(s, m1, room, s1),
        broadcast_rel(s1, m2, room, s2),
        s.clients.contains_key(k),
        s.rooms.contains_key(room),
        s.rooms[room].members.contains(k),
    ensures
        s2.clients[k].outbox == s.clients[k].outbox.push(chat_message_json(m1)).push(
            chat_message_json(m2),
        ),
{
    assert(s1.clients.contains_key(k));
}

/// Removing a member twice leaves the same membership as removing it once:
/// removing an absent member is a no-op. The hypotheses are the shape of
/// `AppState::remove_member`'s contract for a present room.
pub proof fn lemma_remove_member_idempotent(
    s: AppStateView,
    room: u128,
    c: u128,
    s1: AppStateView,
    s2: AppStateView,
)
    requires
        s.rooms.contains_key(room),
        s1.rooms == s.rooms.insert(
            room,
            (RoomView {
                name: s.rooms[room].name,
                uuid: room,
                members: s.rooms[room].members.remove(c),
            }),
        ),
        s2.rooms == s1.rooms.insert(
            room,
            (RoomView {
                name: s1.rooms[room].name,
                uuid: room,
                members: s1.rooms[room].members.remove(c),
            }),
        ),
    ensures
        s2.rooms == s1.rooms,
{
    assert(s1.rooms[room].members =~= s.rooms[room].members.remove(c));
    assert(s1.rooms[room].members.remove(c) =~= s1.rooms[room].members);
    assert(s2.rooms =~= s1.rooms);
}

/// Find-or-create is idempotent by name: a second call with the same name
/// returns the identifier the first call returned, reports nothing created,
/// and leaves the store as it was.
pub proof fn lemma_get_or_create_idempotent(
    s: AppStateView,
    name: Seq<char>,
    id1: u128,
    created1: bool,
    s1: AppStateView,
    id2: u128,
    created2: bool,
    s2: AppStateView,
)
    requires
        room_names_unique(s),
        get_or_create_rel(s, name, id1, created1, s1),
        get_or_create_rel(s1, name, id2, created2, s2),
    ensures
        id2 == id1,
        created2 == false,
        s2 == s1,
{
    if created1 {
        assert(room_named(s1, name, id1));
        assert(room_names_unique(s1)) by {
            assert forall|r1: u128, r2: u128|
                s1.rooms.contains_key(r1) && s1.rooms.contains_key(r2) && s1.rooms[r1].name
                    == s1.rooms[r2].name implies r1 == r2 by {
                if r1 != id1 && r2 != id1 {
                    assert(s.rooms.contains_key(r1) && s.rooms.contains_key(r2));
                } else if r1 == id1 && r2 != id1 {
                    assert(s.rooms.contains_key(r2));
                    assert(!room_named(s, name, r2));
                    assert(false);
                } else if r2 == id1 && r1 != id1 {
                    assert(s.rooms.contains_key(r1));
                    assert(!room_named(s, name, r1));
                    assert(false);
                }
            }
        }
        assert(!created2);
        assert(room_named(s1, name, id2));
        assert(id2 == id1);
    } else {
        assert(s1 == s);
        assert(room_named(s1, name, id1));
        assert(!created2);
        assert(room_named(s1, name, id2));
        assert(id2 == id1);
    }
}

/// A client that heartbeats at least once per sweep interval is never
/// evicted: it is absent from both sweeps' eviction sets and still
/// registered afterwards. The heartbeat between the sweeps is stated in the
/// shape of `handle_heartbeat`'s contract.
pub proof fn lemma_heartbeat_prevents_eviction(
    s0: AppStateView,
    now1: u64,
    ev1: Seq<ClientUuid>,
    s1: AppStateView,
    s1b: AppStateView,
    now2: u64,
    ev2: Seq<ClientUuid>,
    s2: AppStateView,
    c: u128,
)
    requires
        s0.clients.contains_key(c),
        s0.clients[c].alive,
        sweep_rel(s0, now1, ev1, s1),
        s1b.clients == s1.clients.insert(
            c,
            (ClientView {
                alive: true,
                name: s1.clients[c].name,
                outbox: s1.clients[c].outbox,
            }),
        ),
        s1b.rooms == s1.rooms,
        sweep_rel(s1b, now2, ev2, s2),
    ensures
        forall|a: int| 0 <= a < ev1.len() ==> ev1[a].0 != c,
        forall|a: int| 0 <= a < ev2.len() ==> ev2[a].0 != c,
        s2.clients.contains_key(c),
{
    assert(s1.clients.contains_key(c));
    assert(s1b.clients.contains_key(c) && s1b.clients[c].alive);
    assert forall|a: int| 0 <= a < ev2.len() implies ev2[a].0 != c by {
        assert(!s1b.clients[ev2[a].0].alive);
    }
}

/// A client with no heartbeat for two consecutive sweep intervals is
/// evicted by the second sweep: it survives the first (armed), is named in
/// the second sweep's eviction set, its entry is gone, no room's membership
/// still holds it, and every surviving client that shared a room with it
/// has the departure notice on its outbound queue.
pub proof fn lemma_two_missed_sweeps_evict(
    s0: AppStateView,
    now1: u64,
    ev1: Seq<ClientUuid>,
    s1: AppStateView,
    now2: u64,
    ev2: Seq<ClientUuid>,
    s2: AppStateView,
    c: u128,
)
    requires
        s0.clients.contains_key(c),
        s0.clients[c].alive,
        sweep_rel(s0, now1, ev1, s1),
        sweep_rel(s1, now2, ev2, s2),
    ensures
        forall|a: int| 0 <= a < ev1.len() ==> ev1[a].0 != c,
        exists|a: int| 0 <= a < ev2.len() && ev2[a].0 == c,
        !s2.clients.contains_key(c),
        forall|r: u128|
            s2.rooms.contains_key(r) ==> !(#[trigger] s2.rooms[r]).members.contains(c),
        forall|k: u128|
            s2.clients.contains_key(k) && (exists|r: u128|
                crate::registry::shared_rooms(s1, c, k).contains(r))
                ==> s2.clients[k].outbox.contains(
                chat_message_json(crate::registry::goodbye_message(s0.clients[c].name, now2)),
            ),
{
    assert(s1.clients.contains_key(c) && !s1.clients[c].alive);
    let a2 = choose|a: int| 0 <= a < ev2.len() && ev2[a].0 == c;
    assert forall|r: u128|
        s2.rooms.contains_key(r) implies !(#[trigger] s2.rooms[r]).members.contains(c) by {
        assert(s1.rooms.contains_key(r));
    }
    assert(s1.clients[c].name == s0.clients[c].name);
    assert forall|k: u128|
        s2.clients.contains_key(k) && (exists|r: u128|
            crate::registry::shared_rooms(s1, c, k).contains(r)) implies s2.clients[k].outbox.contains(
        chat_message_json(crate::registry::goodbye_message(s0.clients[c].name, now2)),
    ) by {
        assert(exists|a: int| 0 <= a < ev2.len() && ev2[a].0 == c);
    }
}

} // verus!
