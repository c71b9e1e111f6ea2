//! The registry: the single shared store of all clients and rooms. Every
//! other part of the hub reads and mutates session state only through the
//! atomic operations of [`AppState`]; no caller can observe a partially
//! updated client/room pair.
//!
//! The store is modelled as a pair of finite maps: client id to client, and
//! room id to room. Each client entry owns the outbound queue of serialized
//! messages for its connection; the broadcast engine only ever appends to
//! those queues.
//!
//! Room lifecycle policy: rooms are never reclaimed. A room that loses its
//! last member stays, empty, under its name and identifier; and a client
//! that leaves its last room stays registered.

use vstd::prelude::*;

use crate::message::{
    ChatMessage, ChatMessageView, ClientName, ClientUuid, RoomName, RoomUuid, SERVER_SIGNATURE,
};
use crate::wire::{chat_message_json, chat_message_to_json, copy_bytes};
use vstd::string::StringExecFns;

verus! {

/// A registered client: the liveness flag consulted and re-armed by the
/// presence sweep, the display name, and the outbound queue of serialized
/// messages that the connection layer drains toward the client's physical
/// connection.
pub struct Client {
    pub is_alive: bool,
    pub name: ClientName,
    pub outbox: Vec<Vec<u8>>,
}

/// Mathematical image of a [`Client`].
pub struct ClientView {
    pub alive: bool,
    pub name: Seq<char>,
    pub outbox: Seq<Seq<u8>>,
}

/// The serialized messages a queue holds, each by its byte view.
pub open spec fn msgs_view(s: Seq<Vec<u8>>) -> Seq<Seq<u8>> {
    Seq::new(s.len(), |i: int| s[i]@)
}

impl View for Client {
    type V = ClientView;

    open spec fn view(&self) -> ClientView {
        ClientView { alive: self.is_alive, name: self.name.0@, outbox: msgs_view(self.outbox@) }
    }
}

impl Client {
    /// A fresh entry: alive, the given display name, an empty outbound queue.
    pub fn new(name: &str) -> (c: Client)
        ensures
            c@.alive == true,
            c@.name == name@,
            c@.outbox == Seq::<Seq<u8>>::empty(),
    {
        let c = Client { is_alive: true, name: ClientName(name.to_owned()), outbox: Vec::new() };
        proof {
            assert(c@.outbox =~= Seq::<Seq<u8>>::empty());
        }
        c
    }
}

/// The identifiers a member list holds, as a set.
pub open spec fn member_set(s: Seq<ClientUuid>) -> Set<u128> {
    Set::new(|k: u128| exists|i: int| 0 <= i < s.len() && s[i].0 == k)
}

/// A member list holds each identifier at most once.
pub open spec fn distinct_members(s: Seq<ClientUuid>) -> bool {
    forall|i: int, j: int| 0 <= i < j < s.len() ==> s[i].0 != s[j].0
}

proof fn lemma_member_set_push(s: Seq<ClientUuid>, c: ClientUuid)
    ensures
        member_set(s.push(c)) == member_set(s).insert(c.0),
{
    assert forall|k: u128| member_set(s.push(c)).contains(k) implies member_set(s).insert(
        c.0,
    ).contains(k) by {
        let a = choose|a: int| 0 <= a < s.push(c).len() && s.push(c)[a].0 == k;
        if a < s.len() {
            assert(s[a].0 == k);
        }
    }
    assert forall|k: u128| member_set(s).insert(c.0).contains(k) implies member_set(
        s.push(c),
    ).contains(k) by {
        if k == c.0 {
            assert(s.push(c)[s.len() as int].0 == k);
        } else {
            let a = choose|a: int| 0 <= a < s.len() && s[a].0 == k;
            assert(s.push(c)[a].0 == k);
        }
    }
    assert(member_set(s.push(c)) =~= member_set(s).insert(c.0));
}

proof fn lemma_member_set_remove_at(s: Seq<ClientUuid>, i: int)
    requires
        0 <= i < s.len(),
        distinct_members(s),
    ensures
        member_set(s.remove(i)) == member_set(s).remove(s[i].0),
{
    s.remove_ensures(i);
    let t = s.remove(i);
    assert forall|k: u128| member_set(t).contains(k) implies member_set(s).remove(
        s[i].0,
    ).contains(k) by {
        let a = choose|a: int| 0 <= a < t.len() && t[a].0 == k;
        if a < i {
            assert(s[a].0 == k);
        } else {
            assert(s[a + 1].0 == k);
        }
    }
    assert forall|k: u128| member_set(s).remove(s[i].0).contains(k) implies member_set(
        t,
    ).contains(k) by {
        let a = choose|a: int| 0 <= a < s.len() && s[a].0 == k;
        assert(a != i);
        if a < i {
            assert(t[a].0 == k);
        } else {
            assert(t[a - 1].0 == k);
        }
    }
    assert(member_set(s.remove(i)) =~= member_set(s).remove(s[i].0));
}

/// A named room and its current membership.
pub struct Room {
    pub name: RoomName,
    pub uuid: RoomUuid,
    pub members: Vec<ClientUuid>,
}

/// Mathematical image of a [`Room`]: membership is a set, as insertion and
/// removal order is irrelevant.
pub struct RoomView {
    pub name: Seq<char>,
    pub uuid: u128,
    pub members: Set<u128>,
}

impl View for Room {
    type V = RoomView;

    open spec fn view(&self) -> RoomView {
        RoomView { name: self.name.0@, uuid: self.uuid.0, members: member_set(self.members@) }
    }
}

impl Room {
    /// The member list holds each client at most once.
    pub open spec fn wf(self) -> bool {
        distinct_members(self.members@)
    }

    /// An empty room under a freshly drawn identifier.
    pub fn new(name: &str) -> (r: Room)
        ensures
            r.wf(),
            r@.name == name@,
            r@.members == Set::<u128>::empty(),
    {
        let r = Room {
            name: RoomName(name.to_owned()),
            uuid: RoomUuid(crate::ids::random_uuid_128()),
            members: Vec::new(),
        };
        proof {
            assert(r@.members =~= Set::<u128>::empty());
        }
        r
    }

    /// Whether the client is currently a member.
    pub fn contains(&self, client_uuid: &ClientUuid) -> (r: bool)
        ensures
            r == self@.members.contains(client_uuid.0),
    {
        let mut i: usize = 0;
        while i < self.members.len()
            invariant
                i <= self.members@.len(),
                forall|j: int| 0 <= j < i ==> self.members@[j].0 != client_uuid.0,
            decreases self.members@.len() - i,
        {
            if self.members[i].0 == client_uuid.0 {
                return true;
            }
            i = i + 1;
        }
        false
    }

    /// Adds a member; a no-op if the client is already one.
    pub fn add(&mut self, client_uuid: ClientUuid)
        requires
            old(self).wf(),
        ensures
            final(self).wf(),
            final(self)@.name == old(self)@.name,
            final(self)@.uuid == old(self)@.uuid,
            final(self)@.members == old(self)@.members.insert(client_uuid.0),
    {
        if !self.contains(&client_uuid) {
            self.members.push(client_uuid);
            proof {
                lemma_member_set_push(old(self).members@, client_uuid);
            }
        } else {
            proof {
                assert(final(self)@.members =~= old(self)@.members.insert(client_uuid.0));
            }
        }
    }

    /// Removes a member; a no-op if the client is not one.
    pub fn remove(&mut self, client_uuid: ClientUuid)
        requires
            old(self).wf(),
        ensures
            final(self).wf(),
            final(self)@.name == old(self)@.name,
            final(self)@.uuid == old(self)@.uuid,
            final(self)@.members == old(self)@.members.remove(client_uuid.0),
    {
        let mut i: usize = 0;
        while i < self.members.len()
            invariant
                *self == *old(self),
                old(self).wf(),
                i <= self.members@.len(),
                forall|j: int| 0 <= j < i ==> self.members@[j].0 != client_uuid.0,
            decreases self.members@.len() - i,
        {
            if self.members[i].0 == client_uuid.0 {
                self.members.remove(i);
                proof {
                    lemma_member_set_remove_at(old(self).members@, i as int);
                    old(self).members@.remove_ensures(i as int);
                }
                return ;
            }
            i = i + 1;
        }
        proof {
            assert forall|k: u128| member_set(self.members@).contains(k) implies old(
                self,
            )@.members.remove(client_uuid.0).contains(k) by {
                let a = choose|a: int| 0 <= a < self.members@.len() && self.members@[a].0 == k;
                assert(self.members@[a].0 != client_uuid.0);
            }
            assert(final(self)@.members =~= old(self)@.members.remove(client_uuid.0));
        }
    }
}

/// The client map an entry list stands for: later entries would win, though
/// the registry keeps the keys distinct.
pub open spec fn clients_map(s: Seq<(ClientUuid, Client)>) -> Map<u128, ClientView>
    decreases s.len(),
{
    if s.len() == 0 {
        Map::empty()
    } else {
        clients_map(s.drop_last()).insert(s.last().0.0, s.last().1@)
    }
}

/// The entry list holds each client identifier at most once.
pub open spec fn distinct_client_keys(s: Seq<(ClientUuid, Client)>) -> bool {
    forall|i: int, j: int| 0 <= i < j < s.len() ==> s[i].0.0 != s[j].0.0
}

/// The room map a room list stands for.
pub open spec fn rooms_map(s: Seq<Room>) -> Map<u128, RoomView>
    decreases s.len(),
{
    if s.len() == 0 {
        Map::empty()
    } else {
        rooms_map(s.drop_last()).insert(s.last().uuid.0, s.last()@)
    }
}

/// The room list holds each room identifier at most once.
pub open spec fn distinct_room_keys(s: Seq<Room>) -> bool {
    forall|i: int, j: int| 0 <= i < j < s.len() ==> s[i].uuid.0 != s[j].uuid.0
}

/// The room list holds each room name at most once.
pub open spec fn distinct_room_names(s: Seq<Room>) -> bool {
    forall|i: int, j: int| 0 <= i < j < s.len() ==> s[i].name.0@ != s[j].name.0@
}

proof fn lemma_clients_map_contains(s: Seq<(ClientUuid, Client)>, k: u128)
    ensures
        clients_map(s).contains_key(k) <==> exists|i: int| 0 <= i < s.len() && s[i].0.0 == k,
    decreases s.len(),
{
    if s.len() > 0 {
        lemma_clients_map_contains(s.drop_last(), k);
        if s.last().0.0 == k {
            assert(s[s.len() - 1].0.0 == k);
        } else {
            if exists|i: int| 0 <= i < s.drop_last().len() && s.drop_last()[i].0.0 == k {
                let i = choose|i: int| 0 <= i < s.drop_last().len() && s.drop_last()[i].0.0 == k;
                assert(s[i].0.0 == k);
            }
            if exists|i: int| 0 <= i < s.len() && s[i].0.0 == k {
                let i = choose|i: int| 0 <= i < s.len() && s[i].0.0 == k;
                assert(i < s.len() - 1);
                assert(s.drop_last()[i].0.0 == k);
            }
        }
    }
}

proof fn lemma_clients_map_index(s: Seq<(ClientUuid, Client)>, i: int)
    requires
        distinct_client_keys(s),
        0 <= i < s.len(),
    ensures
        clients_map(s).contains_key(s[i].0.0),
        clients_map(s)[s[i].0.0] == s[i].1@,
    decreases s.len(),
{
    if i < s.len() - 1 {
        assert(s.drop_last()[i] == s[i]);
        lemma_clients_map_index(s.drop_last(), i);
        assert(s.last().0.0 != s[i].0.0);
    }
}

proof fn lemma_clients_map_push(s: Seq<(ClientUuid, Client)>, p: (ClientUuid, Client))
    ensures
        clients_map(s.push(p)) == clients_map(s).insert(p.0.0, p.1@),
{
    assert(s.push(p).drop_last() =~= s);
    assert(s.push(p).last() == p);
}

proof fn lemma_clients_map_update(s: Seq<(ClientUuid, Client)>, i: int, c: Client)
    requires
        distinct_client_keys(s),
        0 <= i < s.len(),
    ensures
        clients_map(s.update(i, (s[i].0, c))) == clients_map(s).insert(s[i].0.0, c@),
    decreases s.len(),
{
    let t = s.update(i, (s[i].0, c));
    if i == s.len() - 1 {
        assert(t.drop_last() =~= s.drop_last());
        assert(t.last() == (s[i].0, c));
        assert(clients_map(t) =~= clients_map(s).insert(s[i].0.0, c@));
    } else {
        assert(t.drop_last() =~= s.drop_last().update(i, (s[i].0, c)));
        assert(s.drop_last()[i] == s[i]);
        lemma_clients_map_update(s.drop_last(), i, c);
        assert(t.last() == s.last());
        assert(s.last().0.0 != s[i].0.0);
        assert(clients_map(t) =~= clients_map(s).insert(s[i].0.0, c@));
    }
}

proof fn lemma_clients_map_remove(s: Seq<(ClientUuid, Client)>, i: int)
    requires
        distinct_client_keys(s),
        0 <= i < s.len(),
    ensures
        clients_map(s.remove(i)) == clients_map(s).remove(s[i].0.0),
    decreases s.len(),
{
    s.remove_ensures(i);
    let t = s.remove(i);
    if i == s.len() - 1 {
        assert(t =~= s.drop_last());
        lemma_clients_map_contains(s.drop_last(), s[i].0.0);
        assert forall|j: int| 0 <= j < s.drop_last().len() implies s.drop_last()[j].0.0
            != s[i].0.0 by {
            assert(s.drop_last()[j] == s[j]);
        }
        assert(!clients_map(s.drop_last()).contains_key(s[i].0.0));
        assert(clients_map(t) =~= clients_map(s).remove(s[i].0.0));
    } else {
        s.drop_last().remove_ensures(i);
        assert(t.drop_last() =~= s.drop_last().remove(i));
        assert(s.drop_last()[i] == s[i]);
        lemma_clients_map_remove(s.drop_last(), i);
        assert(t.last() == s.last());
        assert(s.last().0.0 != s[i].0.0);
        assert(clients_map(t) =~= clients_map(s).remove(s[i].0.0));
    }
}

proof fn lemma_clients_map_finite(s: Seq<(ClientUuid, Client)>)
    ensures
        clients_map(s).dom().finite(),
        clients_map(s).dom().len() <= s.len(),
    decreases s.len(),
{
    if s.len() > 0 {
        lemma_clients_map_finite(s.drop_last());
        vstd::set::axiom_set_insert_len(clients_map(s.drop_last()).dom(), s.last().0.0);
    }
}

proof fn lemma_clients_map_len(s: Seq<(ClientUuid, Client)>)
    requires
        distinct_client_keys(s),
    ensures
        clients_map(s).dom().finite(),
        clients_map(s).dom().len() == s.len(),
    decreases s.len(),
{
    if s.len() > 0 {
        assert forall|i: int, j: int| 0 <= i < j < s.drop_last().len() implies s.drop_last()[i].0.0
            != s.drop_last()[j].0.0 by {
            assert(s.drop_last()[i] == s[i]);
            assert(s.drop_last()[j] == s[j]);
        }
        lemma_clients_map_len(s.drop_last());
        lemma_clients_map_contains(s.drop_last(), s.last().0.0);
        assert forall|i: int| 0 <= i < s.drop_last().len() implies s.drop_last()[i].0.0 != s.last().0.0 by {
            assert(s.drop_last()[i] == s[i]);
        }
        vstd::set::axiom_set_insert_len(clients_map(s.drop_last()).dom(), s.last().0.0);
    }
}

proof fn lemma_rooms_map_len(s: Seq<Room>)
    requires
        distinct_room_keys(s),
    ensures
        rooms_map(s).dom().finite(),
        rooms_map(s).dom().len() == s.len(),
    decreases s.len(),
{
    if s.len() > 0 {
        assert forall|i: int, j: int| 0 <= i < j < s.drop_last().len() implies s.drop_last()[i].uuid.0
            != s.drop_last()[j].uuid.0 by {
            assert(s.drop_last()[i] == s[i]);
            assert(s.drop_last()[j] == s[j]);
        }
        lemma_rooms_map_len(s.drop_last());
        lemma_rooms_map_contains(s.drop_last(), s.last().uuid.0);
        assert forall|i: int| 0 <= i < s.drop_last().len() implies s.drop_last()[i].uuid.0
            != s.last().uuid.0 by {
            assert(s.drop_last()[i] == s[i]);
        }
        vstd::set::axiom_set_insert_len(rooms_map(s.drop_last()).dom(), s.last().uuid.0);
    }
}

/// The set of identifiers strictly below the bound `n`.
spec fn below_set(n: int) -> Set<u128> {
    Set::new(|x: u128| (x as int) < n)
}

proof fn lemma_below_set_len(n: int)
    requires
        0 <= n <= u128::MAX,
    ensures
        below_set(n).finite(),
        below_set(n).len() == n,
    decreases n,
{
    if n == 0 {
        assert(below_set(0) =~= Set::<u128>::empty());
    } else {
        lemma_below_set_len(n - 1);
        assert(below_set(n) =~= below_set(n - 1).insert((n - 1) as u128));
        vstd::set::axiom_set_insert_len(below_set(n - 1), (n - 1) as u128);
    }
}

proof fn lemma_rooms_map_contains(s: Seq<Room>, k: u128)
    ensures
        rooms_map(s).contains_key(k) <==> exists|i: int| 0 <= i < s.len() && s[i].uuid.0 == k,
    decreases s.len(),
{
    if s.len() > 0 {
        lemma_rooms_map_contains(s.drop_last(), k);
        if s.last().uuid.0 == k {
            assert(s[s.len() - 1].uuid.0 == k);
        } else {
            if exists|i: int| 0 <= i < s.drop_last().len() && s.drop_last()[i].uuid.0 == k {
                let i = choose|i: int|
                    0 <= i < s.drop_last().len() && s.drop_last()[i].uuid.0 == k;
                assert(s[i].uuid.0 == k);
            }
            if exists|i: int| 0 <= i < s.len() && s[i].uuid.0 == k {
                let i = choose|i: int| 0 <= i < s.len() && s[i].uuid.0 == k;
                assert(i < s.len() - 1);
                assert(s.drop_last()[i].uuid.0 == k);
            }
        }
    }
}

proof fn lemma_rooms_map_index(s: Seq<Room>, i: int)
    requires
        distinct_room_keys(s),
        0 <= i < s.len(),
    ensures
        rooms_map(s).contains_key(s[i].uuid.0),
        rooms_map(s)[s[i].uuid.0] == s[i]@,
    decreases s.len(),
{
    if i < s.len() - 1 {
        assert(s.drop_last()[i] == s[i]);
        lemma_rooms_map_index(s.drop_last(), i);
        assert(s.last().uuid.0 != s[i].uuid.0);
    }
}

proof fn lemma_rooms_map_push(s: Seq<Room>, r: Room)
    ensures
        rooms_map(s.push(r)) == rooms_map(s).insert(r.uuid.0, r@),
{
    assert(s.push(r).drop_last() =~= s);
    assert(s.push(r).last() == r);
}

proof fn lemma_rooms_map_update(s: Seq<Room>, i: int, r: Room)
    requires
        distinct_room_keys(s),
        0 <= i < s.len(),
        r.uuid == s[i].uuid,
    ensures
        rooms_map(s.update(i, r)) == rooms_map(s).insert(s[i].uuid.0, r@),
    decreases s.len(),
{
    let t = s.update(i, r);
    if i == s.len() - 1 {
        assert(t.drop_last() =~= s.drop_last());
        assert(t.last() == r);
        assert(rooms_map(t) =~= rooms_map(s).insert(s[i].uuid.0, r@));
    } else {
        assert(t.drop_last() =~= s.drop_last().update(i, r));
        assert(s.drop_last()[i] == s[i]);
        lemma_rooms_map_update(s.drop_last(), i, r);
        assert(t.last() == s.last());
        assert(s.last().uuid.0 != s[i].uuid.0);
        assert(rooms_map(t) =~= rooms_map(s).insert(s[i].uuid.0, r@));
    }
}

proof fn lemma_rooms_map_key_uuid(s: Seq<Room>)
    ensures
        forall|r: u128| #[trigger]
            rooms_map(s).contains_key(r) ==> rooms_map(s)[r].uuid == r,
    decreases s.len(),
{
    if s.len() > 0 {
        lemma_rooms_map_key_uuid(s.drop_last());
        assert forall|r: u128| rooms_map(s).contains_key(r) implies rooms_map(s)[r].uuid == r by {
            if r != s.last().uuid.0 {
                assert(rooms_map(s.drop_last()).contains_key(r));
            }
        }
    }
}

proof fn lemma_rooms_map_finite(s: Seq<Room>)
    ensures
        rooms_map(s).dom().finite(),
        rooms_map(s).dom().len() <= s.len(),
    decreases s.len(),
{
    if s.len() > 0 {
        lemma_rooms_map_finite(s.drop_last());
        vstd::set::axiom_set_insert_len(rooms_map(s.drop_last()).dom(), s.last().uuid.0);
    }
}

/// Both key sets of the store are finite: they come from finite entry lists.
pub proof fn lemma_app_rooms_dom_finite(app: &AppState)
    ensures
        app@.rooms.dom().finite(),
        app@.clients.dom().finite(),
{
    lemma_rooms_map_finite(app.rooms@);
    lemma_clients_map_finite(app.clients@);
}

/// The single shared store of clients and rooms, together with the server's
/// display name. All session state lives here and is only reached through
/// the atomic operations below; the surrounding server holds the store
/// behind one mutual-exclusion boundary.
pub struct AppState {
    pub name: String,
    pub clients: Vec<(ClientUuid, Client)>,
    pub rooms: Vec<Room>,
}

/// Mathematical image of the store: two finite maps.
pub struct AppStateView {
    pub name: Seq<char>,
    pub clients: Map<u128, ClientView>,
    pub rooms: Map<u128, RoomView>,
}

/// What one broadcast to a room does to the store: the serialized message is
/// appended exactly once to the outbound queue of every member that has a
/// client entry, nothing is appended for anyone else, and all other state is
/// untouched. A member without a client entry (a stale membership) is
/// skipped, never an error. Queues only grow: delivery is best effort and
/// order per queue is the order of the broadcast calls.
pub open spec fn broadcast_rel(
    s: AppStateView,
    m: ChatMessageView,
    room: u128,
    s2: AppStateView,
) -> bool {
    &&& s2.name == s.name
    &&& s2.rooms == s.rooms
    &&& s2.clients.dom() == s.clients.dom()
    &&& forall|k: u128|
        s.clients.contains_key(k) ==> {
            let c = s.clients[k];
            let c2 = #[trigger] s2.clients[k];
            &&& c2.alive == c.alive
            &&& c2.name == c.name
            &&& c2.outbox == (if s.rooms[room].members.contains(k) {
                c.outbox.push(chat_message_json(m))
            } else {
                c.outbox
            })
        }
}

/// The departure notice for a client of this name.
pub open spec fn goodbye_text(name: Seq<char>) -> Seq<char> {
    name + " has left the chat"@
}

/// The synthetic system message announcing a departure.
pub open spec fn goodbye_message(name: Seq<char>, now: u64) -> ChatMessageView {
    ChatMessageView { author: SERVER_SIGNATURE@, contents: goodbye_text(name), timestamp: now }
}

/// The same serialized message `n` times over.
pub open spec fn repeat_msg(m: Seq<u8>, n: nat) -> Seq<Seq<u8>>
    decreases n,
{
    if n == 0 {
        Seq::empty()
    } else {
        repeat_msg(m, (n - 1) as nat).push(m)
    }
}

/// The rooms of which both `c` and `k` are members: how many departure
/// notices about `c` client `k` is owed when `c` leaves everywhere.
pub open spec fn shared_rooms(s: AppStateView, c: u128, k: u128) -> Set<u128> {
    Set::new(
        |r: u128|
            s.rooms.contains_key(r) && s.rooms[r].members.contains(c)
                && s.rooms[r].members.contains(k),
    )
}

/// What disconnecting a client from one room does to the store: the
/// departure notice is broadcast to the room's current members (the leaver,
/// still a member while the notice goes out, gets it too), and then the
/// leaver is taken out of that room's membership. The client entry itself
/// stays.
pub open spec fn disconnect_one_rel(
    s: AppStateView,
    c: u128,
    room: u128,
    now: u64,
    s2: AppStateView,
) -> bool {
    &&& s2.name == s.name
    &&& s2.clients.dom() == s.clients.dom()
    &&& forall|k: u128|
        s.clients.contains_key(k) ==> {
            let cl = s.clients[k];
            let cl2 = #[trigger] s2.clients[k];
            &&& cl2.alive == cl.alive
            &&& cl2.name == cl.name
            &&& cl2.outbox == (if s.rooms[room].members.contains(k) {
                cl.outbox.push(chat_message_json(goodbye_message(s.clients[c].name, now)))
            } else {
                cl.outbox
            })
        }
    &&& s2.rooms == s.rooms.insert(
        room,
        (RoomView {
            name: s.rooms[room].name,
            uuid: room,
            members: s.rooms[room].members.remove(c),
        }),
    )
}

/// What disconnecting a client from every room does to the store: the
/// client vanishes from every membership set, and every client that shared
/// a room with the leaver is owed the departure notice once per shared
/// room (the leaver included: its queue outlives the memberships until the
/// entry itself is deleted).
pub open spec fn disconnect_all_rel(s: AppStateView, c: u128, now: u64, s2: AppStateView) -> bool {
    &&& s2.name == s.name
    &&& s2.clients.dom() == s.clients.dom()
    &&& forall|k: u128|
        s.clients.contains_key(k) ==> {
            let cl = s.clients[k];
            let cl2 = #[trigger] s2.clients[k];
            &&& cl2.alive == cl.alive
            &&& cl2.name == cl.name
            &&& cl2.outbox == cl.outbox + repeat_msg(
                chat_message_json(goodbye_message(s.clients[c].name, now)),
                shared_rooms(s, c, k).len(),
            )
        }
    &&& s2.rooms.dom() == s.rooms.dom()
    &&& forall|r: u128|
        s.rooms.contains_key(r) ==> {
            let rm = s.rooms[r];
            let rm2 = #[trigger] s2.rooms[r];
            &&& rm2.name == rm.name
            &&& rm2.uuid == rm.uuid
            &&& rm2.members == rm.members.remove(c)
        }
}

/// How many of the first `i` rooms named in `rl` have `k` as a member.
pub open spec fn goodbye_count(s: AppStateView, rl: Seq<RoomUuid>, i: int, k: u128) -> nat
    decreases i,
{
    if i <= 0 {
        0
    } else {
        goodbye_count(s, rl, i - 1, k) + (if s.rooms[rl[i - 1].0].members.contains(k) {
            1nat
        } else {
            0nat
        })
    }
}

/// The identifiers among the first `i` entries of `rl` whose room holds `k`.
spec fn shared_upto_set(s: AppStateView, rl: Seq<RoomUuid>, i: int, k: u128) -> Set<u128> {
    Set::new(
        |r: u128|
            (exists|a: int| 0 <= a < i && rl[a].0 == r) && s.rooms.contains_key(r)
                && s.rooms[r].members.contains(k),
    )
}

proof fn lemma_goodbye_count_is_shared(
    s: AppStateView,
    rl: Seq<RoomUuid>,
    i: int,
    c: u128,
    k: u128,
)
    requires
        0 <= i <= rl.len(),
        s.rooms.dom().finite(),
        forall|a: int, b: int| 0 <= a < b < rl.len() ==> rl[a].0 != rl[b].0,
        forall|a: int|
            0 <= a < rl.len() ==> s.rooms.contains_key(#[trigger] rl[a].0)
                && s.rooms[rl[a].0].members.contains(c),
    ensures
        shared_upto_set(s, rl, i, k).finite(),
        goodbye_count(s, rl, i, k) == shared_upto_set(s, rl, i, k).len(),
    decreases i,
{
    if i == 0 {
        assert(shared_upto_set(s, rl, 0, k) =~= Set::<u128>::empty());
    } else {
        lemma_goodbye_count_is_shared(s, rl, i - 1, c, k);
        let prev = shared_upto_set(s, rl, i - 1, k);
        let rid = rl[i - 1].0;
        if s.rooms[rid].members.contains(k) {
            assert forall|r: u128|
                shared_upto_set(s, rl, i, k).contains(r) implies prev.insert(rid).contains(r) by {
                let a = choose|a: int| 0 <= a < i && rl[a].0 == r;
                if a < i - 1 {
                    assert(prev.contains(r));
                }
            }
            assert forall|r: u128| prev.insert(rid).contains(r) implies shared_upto_set(
                s,
                rl,
                i,
                k,
            ).contains(r) by {
                if r == rid {
                    assert(rl[i - 1].0 == r);
                } else {
                    let a = choose|a: int| 0 <= a < i - 1 && rl[a].0 == r;
                    assert(rl[a].0 == r);
                }
            }
            assert(shared_upto_set(s, rl, i, k) =~= prev.insert(rid));
            assert(!prev.contains(rid)) by {
                if prev.contains(rid) {
                    let a = choose|a: int| 0 <= a < i - 1 && rl[a].0 == rid;
                    assert(rl[a].0 != rl[i - 1].0);
                }
            }
            vstd::set::axiom_set_insert_len(prev, rid);
        } else {
            assert forall|r: u128| shared_upto_set(s, rl, i, k).contains(r) implies prev.contains(
                r,
            ) by {
                let a = choose|a: int| 0 <= a < i && rl[a].0 == r;
                assert(a != i - 1);
            }
            assert forall|r: u128| prev.contains(r) implies shared_upto_set(s, rl, i, k).contains(
                r,
            ) by {
                let a = choose|a: int| 0 <= a < i - 1 && rl[a].0 == r;
                assert(rl[a].0 == r);
            }
            assert(shared_upto_set(s, rl, i, k) =~= prev);
        }
    }
}

/// A room with this identifier exists and bears this name.
pub open spec fn room_named(s: AppStateView, name: Seq<char>, id: u128) -> bool {
    s.rooms.contains_key(id) && s.rooms[id].name == name
}

/// No two rooms bear the same name.
pub open spec fn room_names_unique(s: AppStateView) -> bool {
    forall|r1: u128, r2: u128|
        s.rooms.contains_key(r1) && s.rooms.contains_key(r2) && (#[trigger] s.rooms[r1]).name == (
        #[trigger] s.rooms[r2]).name ==> r1 == r2
}

/// A well-formed store names its rooms uniquely, seen at the view level.
pub proof fn lemma_wf_room_names_unique(app: &AppState)
    requires
        app.wf(),
    ensures
        room_names_unique(app@),
{
    assert forall|r1: u128, r2: u128|
        app@.rooms.contains_key(r1) && app@.rooms.contains_key(r2) && (#[trigger] app@.rooms[r1]).name
            == (#[trigger] app@.rooms[r2]).name implies r1 == r2 by {
        lemma_rooms_map_contains(app.rooms@, r1);
        lemma_rooms_map_contains(app.rooms@, r2);
        let i1 = choose|i: int| 0 <= i < app.rooms@.len() && app.rooms@[i].uuid.0 == r1;
        let i2 = choose|i: int| 0 <= i < app.rooms@.len() && app.rooms@[i].uuid.0 == r2;
        lemma_rooms_map_index(app.rooms@, i1);
        lemma_rooms_map_index(app.rooms@, i2);
        assert(i1 == i2);
    }
}

/// What find-or-create does to the store: when a room of that name exists,
/// nothing, and its identifier comes back with `created == false`; otherwise
/// an empty room is added under a fresh identifier and `created == true`.
pub open spec fn get_or_create_rel(
    s: AppStateView,
    name: Seq<char>,
    id: u128,
    created: bool,
    s2: AppStateView,
) -> bool {
    &&& s2.name == s.name
    &&& s2.clients == s.clients
    &&& created == !(exists|k: u128| room_named(s, name, k))
    &&& !created ==> room_named(s, name, id) && s2 == s
    &&& created ==> !s.rooms.contains_key(id) && s2.rooms == s.rooms.insert(
        id,
        (RoomView { name: name, uuid: id, members: Set::empty() }),
    )
}

impl View for AppState {
    type V = AppStateView;

    open spec fn view(&self) -> AppStateView {
        AppStateView {
            name: self.name@,
            clients: clients_map(self.clients@),
            rooms: rooms_map(self.rooms@),
        }
    }
}

impl AppState {
    /// Client keys are distinct, room keys and room names are distinct, each
    /// room is well formed, and each room's recorded identifier is the one it
    /// is stored under.
    pub open spec fn wf(self) -> bool {
        &&& distinct_client_keys(self.clients@)
        &&& distinct_room_keys(self.rooms@)
        &&& distinct_room_names(self.rooms@)
        &&& forall|i: int| 0 <= i < self.rooms@.len() ==> (#[trigger] self.rooms@[i]).wf()
    }

    /// An empty store under the given server name.
    pub fn new(name: &str) -> (app: AppState)
        ensures
            app.wf(),
            app@.name == name@,
            app@.clients == Map::<u128, ClientView>::empty(),
            app@.rooms == Map::<u128, RoomView>::empty(),
    {
        AppState { name: name.to_owned(), clients: Vec::new(), rooms: Vec::new() }
    }

    /// Index of the entry of the given client, if it is registered.
    fn find_client_idx(&self, client_uuid: ClientUuid) -> (r: Option<usize>)
        ensures
            match r {
                Some(i) => i < self.clients@.len() && self.clients@[i as int].0.0
                    == client_uuid.0,
                None => forall|j: int|
                    0 <= j < self.clients@.len() ==> self.clients@[j].0.0 != client_uuid.0,
            },
    {
        let mut i: usize = 0;
        while i < self.clients.len()
            invariant
                i <= self.clients@.len(),
                forall|j: int| 0 <= j < i ==> self.clients@[j].0.0 != client_uuid.0,
            decreases self.clients@.len() - i,
        {
            if self.clients[i].0.0 == client_uuid.0 {
                return Some(i);
            }
            i = i + 1;
        }
        None
    }

    /// Index of the room with the given identifier, if it exists.
    fn find_room_idx(&self, room_uuid: RoomUuid) -> (r: Option<usize>)
        ensures
            match r {
                Some(i) => i < self.rooms@.len() && self.rooms@[i as int].uuid.0 == room_uuid.0,
                None => forall|j: int|
                    0 <= j < self.rooms@.len() ==> self.rooms@[j].uuid.0 != room_uuid.0,
            },
    {
        let mut i: usize = 0;
        while i < self.rooms.len()
            invariant
                i <= self.rooms@.len(),
                forall|j: int| 0 <= j < i ==> self.rooms@[j].uuid.0 != room_uuid.0,
            decreases self.rooms@.len() - i,
        {
            if self.rooms[i].uuid.0 == room_uuid.0 {
                return Some(i);
            }
            i = i + 1;
        }
        None
    }

    /// Whether a client with this identifier is registered.
    pub fn client_exists(&self, client_uuid: ClientUuid) -> (r: bool)
        ensures
            r == self@.clients.contains_key(client_uuid.0),
    {
        proof {
            lemma_clients_map_contains(self.clients@, client_uuid.0);
        }
        self.find_client_idx(client_uuid).is_some()
    }

    /// Whether a room with this identifier exists.
    pub fn room_exists(&self, room_uuid: RoomUuid) -> (r: bool)
        ensures
            r == self@.rooms.contains_key(room_uuid.0),
    {
        proof {
            lemma_rooms_map_contains(self.rooms@, room_uuid.0);
        }
        self.find_room_idx(room_uuid).is_some()
    }

    /// An identifier no current client is stored under: the first candidate
    /// counted up from zero that is unused. Among `len + 1` candidates at
    /// least one must be, as the keys are finitely many.
    fn unused_client_id(&self) -> (id: u128)
        requires
            self.clients@.len() < usize::MAX,
        ensures
            !self@.clients.contains_key(id),
    {
        let n = self.clients.len();
        let mut c: u128 = 0;
        let mut i: usize = 0;
        while i <= n
            invariant
                c == i as u128,
                i <= n + 1,
                n == self.clients@.len(),
                n < usize::MAX,
                forall|x: u128| x < c ==> self@.clients.contains_key(x),
            decreases n + 1 - i,
        {
            if !self.client_exists(ClientUuid(c)) {
                return c;
            }
            i = i + 1;
            c = c + 1;
        }
        proof {
            lemma_clients_map_finite(self.clients@);
            lemma_below_set_len(n as int + 1);
            assert(below_set(n as int + 1).subset_of(self@.clients.dom()));
            vstd::set_lib::lemma_len_subset(below_set(n as int + 1), self@.clients.dom());
        }
        vstd::pervasive::unreached()
    }

    /// Registers a new client under a fresh identifier, alive and with an
    /// empty outbound queue. Never fails. The identifier is randomly drawn;
    /// in the vanishingly rare case that the draw is already taken, the
    /// smallest unused value stands in for it.
    pub fn insert_client(&mut self, name: &str) -> (id: ClientUuid)
        requires
            old(self).wf(),
            old(self)@.clients.dom().len() < usize::MAX,
        ensures
            final(self).wf(),
            !old(self)@.clients.contains_key(id.0),
            final(self)@.clients == old(self)@.clients.insert(
                id.0,
                (ClientView { alive: true, name: name@, outbox: Seq::empty() }),
            ),
            final(self)@.rooms == old(self)@.rooms,
            final(self)@.name == old(self)@.name,
    {
        proof {
            lemma_clients_map_len(self.clients@);
        }
        let drawn = ClientUuid(crate::ids::random_uuid_128());
        let id = if !self.client_exists(drawn) {
            drawn
        } else {
            ClientUuid(self.unused_client_id())
        };
        let c = Client::new(name);
        proof {
            lemma_clients_map_push(self.clients@, (id, c));
            lemma_clients_map_contains(self.clients@, id.0);
        }
        self.clients.push((id, c));
        id
    }

    /// Looks a client up by display name; an O(n) scan. When several clients
    /// share the name, one of them is returned.
    pub fn find_client_by_name(&self, name: &str) -> (r: Option<ClientUuid>)
        requires
            self.wf(),
        ensures
            match r {
                Some(id) => self@.clients.contains_key(id.0) && self@.clients[id.0].name == name@,
                None => forall|k: u128|
                    self@.clients.contains_key(k) ==> self@.clients[k].name != name@,
            },
    {
        let name_owned = name.to_owned();
        let mut i: usize = 0;
        while i < self.clients.len()
            invariant
                self.wf(),
                i <= self.clients@.len(),
                name_owned@ == name@,
                forall|j: int| 0 <= j < i ==> self.clients@[j].1@.name != name@,
            decreases self.clients@.len() - i,
        {
            if self.clients[i].1.name.0 == name_owned {
                proof {
                    lemma_clients_map_index(self.clients@, i as int);
                }
                return Some(self.clients[i].0);
            }
            i = i + 1;
        }
        proof {
            assert forall|k: u128| self@.clients.contains_key(k) implies self@.clients[k].name
                != name@ by {
                lemma_clients_map_contains(self.clients@, k);
                let j = choose|j: int| 0 <= j < self.clients@.len() && self.clients@[j].0.0 == k;
                lemma_clients_map_index(self.clients@, j);
            }
        }
        None
    }

    /// Resets the liveness flag of the given client, telling the caller
    /// whether the client was still registered.
    pub fn mark_alive(&mut self, client_uuid: ClientUuid) -> (found: bool)
        requires
            old(self).wf(),
        ensures
            final(self).wf(),
            found == old(self)@.clients.contains_key(client_uuid.0),
            final(self)@.rooms == old(self)@.rooms,
            final(self)@.name == old(self)@.name,
            found ==> final(self)@.clients == old(self)@.clients.insert(
                client_uuid.0,
                (ClientView {
                    alive: true,
                    name: old(self)@.clients[client_uuid.0].name,
                    outbox: old(self)@.clients[client_uuid.0].outbox,
                }),
            ),
            !found ==> final(self)@ == old(self)@,
    {
        proof {
            lemma_clients_map_contains(self.clients@, client_uuid.0);
        }
        match self.find_client_idx(client_uuid) {
            Some(i) => {
                proof {
                    lemma_clients_map_index(self.clients@, i as int);
                }
                let entry = &mut self.clients[i];
                entry.1.is_alive = true;
                proof {
                    lemma_clients_map_update(
                        old(self).clients@,
                        i as int,
                        self.clients@[i as int].1,
                    );
                    assert(self.clients@ =~= old(self).clients@.update(
                        i as int,
                        (old(self).clients@[i as int].0, self.clients@[i as int].1),
                    ));
                }
                true
            },
            None => false,
        }
    }

    /// An identifier no current room is stored under: the first candidate
    /// counted up from zero that is unused. Among `len + 1` candidates at
    /// least one must be, as the keys are finitely many.
    fn unused_room_id(&self) -> (id: u128)
        requires
            self.rooms@.len() < usize::MAX,
        ensures
            !self@.rooms.contains_key(id),
    {
        let n = self.rooms.len();
        let mut c: u128 = 0;
        let mut i: usize = 0;
        while i <= n
            invariant
                c == i as u128,
                i <= n + 1,
                n == self.rooms@.len(),
                n < usize::MAX,
                forall|x: u128| x < c ==> self@.rooms.contains_key(x),
            decreases n + 1 - i,
        {
            if !self.room_exists(RoomUuid(c)) {
                return c;
            }
            i = i + 1;
            c = c + 1;
        }
        proof {
            lemma_rooms_map_finite(self.rooms@);
            lemma_below_set_len(n as int + 1);
            assert(below_set(n as int + 1).subset_of(self@.rooms.dom()));
            vstd::set_lib::lemma_len_subset(below_set(n as int + 1), self@.rooms.dom());
        }
        vstd::pervasive::unreached()
    }

    /// Finds the room created under this name, if any. Room names are
    /// unique, so the match is the room.
    pub fn find_room_by_name(&self, name: &str) -> (r: Option<RoomUuid>)
        requires
            self.wf(),
        ensures
            match r {
                Some(id) => room_named(self@, name@, id.0),
                None => forall|k: u128| !room_named(self@, name@, k),
            },
    {
        let name_owned = name.to_owned();
        let mut i: usize = 0;
        while i < self.rooms.len()
            invariant
                self.wf(),
                i <= self.rooms@.len(),
                name_owned@ == name@,
                forall|j: int| 0 <= j < i ==> self.rooms@[j].name.0@ != name@,
            decreases self.rooms@.len() - i,
        {
            if self.rooms[i].name.0 == name_owned {
                proof {
                    lemma_rooms_map_index(self.rooms@, i as int);
                }
                return Some(self.rooms[i].uuid);
            }
            i = i + 1;
        }
        proof {
            assert forall|k: u128| !room_named(self@, name@, k) by {
                if self@.rooms.contains_key(k) {
                    lemma_rooms_map_contains(self.rooms@, k);
                    let j = choose|j: int| 0 <= j < self.rooms@.len() && self.rooms@[j].uuid.0 == k;
                    lemma_rooms_map_index(self.rooms@, j);
                }
            }
        }
        None
    }

    /// Finds the room created under this name or creates an empty one,
    /// telling the caller whether a new room came into being. Idempotent by
    /// name: a second call with the same name returns the same identifier
    /// and reports nothing created.
    pub fn get_or_create_room(&mut self, name: &str) -> (r: (RoomUuid, bool))
        requires
            old(self).wf(),
            old(self)@.rooms.dom().len() < usize::MAX,
        ensures
            final(self).wf(),
            get_or_create_rel(old(self)@, name@, r.0.0, r.1, final(self)@),
    {
        match self.find_room_by_name(name) {
            Some(id) => {
                proof {
                    assert(room_named(old(self)@, name@, id.0));
                }
                (id, false)
            },
            None => {
                proof {
                    lemma_rooms_map_len(self.rooms@);
                }
                let drawn = RoomUuid(crate::ids::random_uuid_128());
                let id = if !self.room_exists(drawn) {
                    drawn
                } else {
                    RoomUuid(self.unused_room_id())
                };
                let room = Room { name: RoomName(name.to_owned()), uuid: id, members: Vec::new() };
                proof {
                    lemma_rooms_map_push(self.rooms@, room);
                    lemma_rooms_map_contains(self.rooms@, id.0);
                    assert(room@.members =~= Set::<u128>::empty());
                    assert forall|j: int| 0 <= j < self.rooms@.len() implies self.rooms@[j].name.0@
                        != name@ by {
                        lemma_rooms_map_index(self.rooms@, j);
                        assert(!room_named(old(self)@, name@, self.rooms@[j].uuid.0));
                    }
                }
                self.rooms.push(room);
                (id, true)
            },
        }
    }

    /// Adds the client to the room's membership, telling the caller whether
    /// the room exists. Idempotent: adding a present member changes nothing.
    /// The client is not required to be registered; broadcast skips members
    /// without a client entry.
    pub fn add_member(&mut self, room_uuid: RoomUuid, client_uuid: ClientUuid) -> (found: bool)
        requires
            old(self).wf(),
        ensures
            final(self).wf(),
            final(self)@.clients == old(self)@.clients,
            final(self)@.name == old(self)@.name,
            found == old(self)@.rooms.contains_key(room_uuid.0),
            found ==> final(self)@.rooms == old(self)@.rooms.insert(
                room_uuid.0,
                (RoomView {
                    name: old(self)@.rooms[room_uuid.0].name,
                    uuid: room_uuid.0,
                    members: old(self)@.rooms[room_uuid.0].members.insert(client_uuid.0),
                }),
            ),
            !found ==> final(self)@ == old(self)@,
    {
        proof {
            lemma_rooms_map_contains(self.rooms@, room_uuid.0);
        }
        match self.find_room_idx(room_uuid) {
            Some(i) => {
                proof {
                    lemma_rooms_map_index(self.rooms@, i as int);
                }
                let room = &mut self.rooms[i];
                room.add(client_uuid);
                proof {
                    assert(self.rooms@ =~= old(self).rooms@.update(
                        i as int,
                        self.rooms@[i as int],
                    ));
                    lemma_rooms_map_update(old(self).rooms@, i as int, self.rooms@[i as int]);
                }
                true
            },
            None => false,
        }
    }

    /// Takes the client out of the room's membership, telling the caller
    /// whether the room exists. Idempotent: removing an absent member is a
    /// no-op, not an error.
    pub fn remove_member(&mut self, room_uuid: RoomUuid, client_uuid: ClientUuid) -> (found: bool)
        requires
            old(self).wf(),
        ensures
            final(self).wf(),
            final(self)@.clients == old(self)@.clients,
            final(self)@.name == old(self)@.name,
            found == old(self)@.rooms.contains_key(room_uuid.0),
            found ==> final(self)@.rooms == old(self)@.rooms.insert(
                room_uuid.0,
                (RoomView {
                    name: old(self)@.rooms[room_uuid.0].name,
                    uuid: room_uuid.0,
                    members: old(self)@.rooms[room_uuid.0].members.remove(client_uuid.0),
                }),
            ),
            !found ==> final(self)@ == old(self)@,
    {
        proof {
            lemma_rooms_map_contains(self.rooms@, room_uuid.0);
        }
        match self.find_room_idx(room_uuid) {
            Some(i) => {
                proof {
                    lemma_rooms_map_index(self.rooms@, i as int);
                }
                let room = &mut self.rooms[i];
                room.remove(client_uuid);
                proof {
                    assert(self.rooms@ =~= old(self).rooms@.update(
                        i as int,
                        self.rooms@[i as int],
                    ));
                    lemma_rooms_map_update(old(self).rooms@, i as int, self.rooms@[i as int]);
                }
                true
            },
            None => false,
        }
    }

    /// The identifiers of all clients whose liveness flag is down: the
    /// eviction set of the next sweep.
    pub fn get_dead_clients(&self) -> (dead: Vec<ClientUuid>)
        requires
            self.wf(),
        ensures
            forall|a: int, b: int| 0 <= a < b < dead@.len() ==> dead@[a].0 != dead@[b].0,
            forall|a: int|
                0 <= a < dead@.len() ==> self@.clients.contains_key(#[trigger] dead@[a].0)
                    && !self@.clients[dead@[a].0].alive,
            forall|k: u128|
                self@.clients.contains_key(k) && !self@.clients[k].alive ==> exists|a: int|
                    0 <= a < dead@.len() && dead@[a].0 == k,
    {
        let mut dead: Vec<ClientUuid> = Vec::new();
        let mut i: usize = 0;
        while i < self.clients.len()
            invariant
                self.wf(),
                i <= self.clients@.len(),
                forall|a: int, b: int| 0 <= a < b < dead@.len() ==> dead@[a].0 != dead@[b].0,
                forall|a: int|
                    0 <= a < dead@.len() ==> exists|j: int|
                        0 <= j < i && self.clients@[j].0.0 == #[trigger] dead@[a].0,
                forall|a: int|
                    0 <= a < dead@.len() ==> self@.clients.contains_key(#[trigger] dead@[a].0)
                        && !self@.clients[dead@[a].0].alive,
                forall|j: int|
                    0 <= j < i && !self.clients@[j].1@.alive ==> exists|a: int|
                        0 <= a < dead@.len() && dead@[a].0 == #[trigger] self.clients@[j].0.0,
            decreases self.clients@.len() - i,
        {
            if !self.clients[i].1.is_alive {
                proof {
                    lemma_clients_map_index(self.clients@, i as int);
                    assert forall|a: int| 0 <= a < dead@.len() implies dead@[a].0
                        != self.clients@[i as int].0.0 by {
                        let j = choose|j: int| 0 <= j < i && self.clients@[j].0.0 == dead@[a].0;
                    }
                }
                let ghost prev = dead@;
                dead.push(self.clients[i].0);
                proof {
                    assert(dead@[dead@.len() - 1].0 == self.clients@[i as int].0.0);
                    assert forall|j: int|
                        0 <= j < i + 1 && !self.clients@[j].1@.alive implies exists|a: int|
                        0 <= a < dead@.len() && dead@[a].0 == self.clients@[j].0.0 by {
                        if j < i {
                            let a = choose|a: int|
                                0 <= a < prev.len() && prev[a].0 == self.clients@[j].0.0;
                            assert(dead@[a].0 == self.clients@[j].0.0);
                        } else {
                            assert(dead@[dead@.len() - 1].0 == self.clients@[j].0.0);
                        }
                    }
                }
            }
            i = i + 1;
        }
        proof {
            assert forall|k: u128|
                self@.clients.contains_key(k) && !self@.clients[k].alive implies exists|a: int|
                0 <= a < dead@.len() && dead@[a].0 == k by {
                lemma_clients_map_contains(self.clients@, k);
                let j = choose|j: int| 0 <= j < self.clients@.len() && self.clients@[j].0.0 == k;
                lemma_clients_map_index(self.clients@, j);
            }
        }
        dead
    }

    /// The identifiers of every room the client is currently a member of.
    pub fn get_client_rooms(&self, client_uuid: ClientUuid) -> (rs: Vec<RoomUuid>)
        requires
            self.wf(),
        ensures
            forall|a: int, b: int| 0 <= a < b < rs@.len() ==> rs@[a].0 != rs@[b].0,
            forall|a: int|
                0 <= a < rs@.len() ==> self@.rooms.contains_key(#[trigger] rs@[a].0)
                    && self@.rooms[rs@[a].0].members.contains(client_uuid.0),
            forall|k: u128|
                self@.rooms.contains_key(k) && self@.rooms[k].members.contains(client_uuid.0)
                    ==> exists|a: int| 0 <= a < rs@.len() && rs@[a].0 == k,
    {
        let mut rs: Vec<RoomUuid> = Vec::new();
        let mut i: usize = 0;
        while i < self.rooms.len()
            invariant
                self.wf(),
                i <= self.rooms@.len(),
                forall|a: int, b: int| 0 <= a < b < rs@.len() ==> rs@[a].0 != rs@[b].0,
                forall|a: int|
                    0 <= a < rs@.len() ==> exists|j: int|
                        0 <= j < i && self.rooms@[j].uuid.0 == #[trigger] rs@[a].0,
                forall|a: int|
                    0 <= a < rs@.len() ==> self@.rooms.contains_key(#[trigger] rs@[a].0)
                        && self@.rooms[rs@[a].0].members.contains(client_uuid.0),
                forall|j: int|
                    0 <= j < i && self.rooms@[j]@.members.contains(client_uuid.0) ==> exists|a: int|
                        0 <= a < rs@.len() && rs@[a].0 == #[trigger] self.rooms@[j].uuid.0,
            decreases self.rooms@.len() - i,
        {
            if self.rooms[i].contains(&client_uuid) {
                proof {
                    lemma_rooms_map_index(self.rooms@, i as int);
                    assert forall|a: int| 0 <= a < rs@.len() implies rs@[a].0
                        != self.rooms@[i as int].uuid.0 by {
                        let j = choose|j: int| 0 <= j < i && self.rooms@[j].uuid.0 == rs@[a].0;
                    }
                }
                let ghost prev = rs@;
                rs.push(self.rooms[i].uuid);
                proof {
                    assert(rs@[rs@.len() - 1].0 == self.rooms@[i as int].uuid.0);
                    assert forall|j: int|
                        0 <= j < i + 1 && self.rooms@[j]@.members.contains(
                            client_uuid.0,
                        ) implies exists|a: int| 0 <= a < rs@.len() && rs@[a].0
                        == self.rooms@[j].uuid.0 by {
                        if j < i {
                            let a = choose|a: int|
                                0 <= a < prev.len() && prev[a].0 == self.rooms@[j].uuid.0;
                            assert(rs@[a].0 == self.rooms@[j].uuid.0);
                        } else {
                            assert(rs@[rs@.len() - 1].0 == self.rooms@[j].uuid.0);
                        }
                    }
                }
            }
            i = i + 1;
        }
        proof {
            assert forall|k: u128|
                self@.rooms.contains_key(k) && self@.rooms[k].members.contains(
                    client_uuid.0,
                ) implies exists|a: int| 0 <= a < rs@.len() && rs@[a].0 == k by {
                lemma_rooms_map_contains(self.rooms@, k);
                let j = choose|j: int| 0 <= j < self.rooms@.len() && self.rooms@[j].uuid.0 == k;
                lemma_rooms_map_index(self.rooms@, j);
            }
        }
        rs
    }

    /// One sweep of the two-phase presence check: collects the identifiers
    /// of every client whose liveness flag is already down (they missed the
    /// whole previous window), then lowers every remaining flag, arming the
    /// next window. A client is therefore evicted only after two whole
    /// sweep intervals without a heartbeat.
    pub fn sweep_dead(&mut self) -> (dead: Vec<ClientUuid>)
        requires
            old(self).wf(),
        ensures
            final(self).wf(),
            forall|a: int, b: int| 0 <= a < b < dead@.len() ==> dead@[a].0 != dead@[b].0,
            forall|a: int|
                0 <= a < dead@.len() ==> old(self)@.clients.contains_key(#[trigger] dead@[a].0)
                    && !old(self)@.clients[dead@[a].0].alive,
            forall|k: u128|
                old(self)@.clients.contains_key(k) && !old(self)@.clients[k].alive ==> exists|
                    a: int,
                |
                    0 <= a < dead@.len() && dead@[a].0 == k,
            final(self)@.name == old(self)@.name,
            final(self)@.rooms == old(self)@.rooms,
            final(self)@.clients.dom() == old(self)@.clients.dom(),
            forall|k: u128|
                old(self)@.clients.contains_key(k) ==> {
                    let cl = old(self)@.clients[k];
                    let cl2 = #[trigger] final(self)@.clients[k];
                    &&& cl2.alive == false
                    &&& cl2.name == cl.name
                    &&& cl2.outbox == cl.outbox
                },
    {
        let dead = self.get_dead_clients();
        let mut i: usize = 0;
        while i < self.clients.len()
            invariant
                old(self).wf(),
                i <= self.clients@.len(),
                self.name == old(self).name,
                self.rooms@ == old(self).rooms@,
                self.clients@.len() == old(self).clients@.len(),
                forall|t: int|
                    0 <= t < self.clients@.len() ==> (#[trigger] self.clients@[t]).0 == old(
                        self,
                    ).clients@[t].0,
                forall|t: int|
                    0 <= t < i ==> {
                        let oc = (#[trigger] old(self).clients@[t]).1@;
                        let nc = self.clients@[t].1@;
                        nc.alive == false && nc.name == oc.name && nc.outbox == oc.outbox
                    },
                forall|t: int|
                    i <= t < self.clients@.len() ==> (#[trigger] self.clients@[t]).1 == old(
                        self,
                    ).clients@[t].1,
            decreases self.clients@.len() - i,
        {
            let entry = &mut self.clients[i];
            entry.1.is_alive = false;
            i = i + 1;
        }
        proof {
            assert(distinct_client_keys(self.clients@));
            assert forall|k: u128|
                old(self)@.clients.contains_key(k) <==> final(self)@.clients.contains_key(k) by {
                lemma_clients_map_contains(old(self).clients@, k);
                lemma_clients_map_contains(self.clients@, k);
            }
            assert(old(self)@.clients.dom() =~= final(self)@.clients.dom());
            assert forall|k: u128| old(self)@.clients.contains_key(k) implies {
                let cl = old(self)@.clients[k];
                let cl2 = final(self)@.clients[k];
                &&& cl2.alive == false
                &&& cl2.name == cl.name
                &&& cl2.outbox == cl.outbox
            } by {
                lemma_clients_map_contains(old(self).clients@, k);
                let t = choose|t: int|
                    0 <= t < old(self).clients@.len() && old(self).clients@[t].0.0 == k;
                lemma_clients_map_index(old(self).clients@, t);
                lemma_clients_map_index(self.clients@, t);
            }
        }
        dead
    }

    /// Broadcasts a message to a room: serializes it once and enqueues the
    /// bytes on the outbound queue of every member that has a client entry.
    /// Members without one (stale memberships) are skipped silently; the
    /// call returns once every member has been attempted, not once anything
    /// is delivered.
    pub fn send_to_room(&mut self, msg: &ChatMessage, room_uuid: RoomUuid)
        requires
            old(self).wf(),
            old(self)@.rooms.contains_key(room_uuid.0),
        ensures
            final(self).wf(),
            broadcast_rel(old(self)@, msg@, room_uuid.0, final(self)@),
    {
        let payload = chat_message_to_json(msg);
        proof {
            lemma_rooms_map_contains(self.rooms@, room_uuid.0);
        }
        let room_idx = match self.find_room_idx(room_uuid) {
            Some(i) => i,
            None => {
                return vstd::pervasive::unreached();
            },
        };
        proof {
            lemma_rooms_map_index(self.rooms@, room_idx as int);
        }
        let ghost ms = self.rooms@[room_idx as int].members@;
        let mut j: usize = 0;
        while j < self.rooms[room_idx].members.len()
            invariant
                old(self).wf(),
                self.name == old(self).name,
                self.rooms@ == old(self).rooms@,
                self.clients@.len() == old(self).clients@.len(),
                forall|t: int|
                    0 <= t < self.clients@.len() ==> (#[trigger] self.clients@[t]).0 == old(
                        self,
                    ).clients@[t].0,
                room_idx < self.rooms@.len(),
                self.rooms@[room_idx as int].uuid.0 == room_uuid.0,
                ms == self.rooms@[room_idx as int].members@,
                j <= ms.len(),
                payload@ == chat_message_json(msg@),
                forall|t: int|
                    0 <= t < self.clients@.len() ==> {
                        let oc = (#[trigger] old(self).clients@[t]).1@;
                        let nc = self.clients@[t].1@;
                        &&& nc.alive == oc.alive
                        &&& nc.name == oc.name
                        &&& nc.outbox == (if exists|a: int|
                            0 <= a < j && ms[a].0 == old(self).clients@[t].0.0 {
                            oc.outbox.push(chat_message_json(msg@))
                        } else {
                            oc.outbox
                        })
                    },
            decreases ms.len() - j,
        {
            let member = self.rooms[room_idx].members[j];
            match self.find_client_idx(member) {
                Some(ci) => {
                    let ghost prev = self.clients@;
                    let bytes = copy_bytes(&payload);
                    let entry = &mut self.clients[ci];
                    entry.1.outbox.push(bytes);
                    proof {
                        assert(self.clients@[ci as int].1@.outbox =~= prev[ci as int].1@.outbox.push(
                            payload@,
                        ));
                        assert forall|t: int| 0 <= t < self.clients@.len() implies {
                            let oc = (#[trigger] old(self).clients@[t]).1@;
                            let nc = self.clients@[t].1@;
                            &&& nc.alive == oc.alive
                            &&& nc.name == oc.name
                            &&& nc.outbox == (if exists|a: int|
                                0 <= a < j + 1 && ms[a].0 == old(self).clients@[t].0.0 {
                                oc.outbox.push(chat_message_json(msg@))
                            } else {
                                oc.outbox
                            })
                        } by {
                            if t == ci {
                                assert(ms[j as int].0 == old(self).clients@[t].0.0);
                                assert forall|a: int| 0 <= a < j implies ms[a].0 != old(
                                    self,
                                ).clients@[t].0.0 by {
                                    assert(self.rooms@[room_idx as int].wf());
                                }
                            } else {
                                assert(prev[t] == self.clients@[t]);
                                assert(old(self).clients@[t].0.0 != old(
                                    self,
                                ).clients@[ci as int].0.0);
                                assert(ms[j as int].0 != old(self).clients@[t].0.0);
                            }
                        }
                    }
                },
                None => {
                    proof {
                        assert forall|t: int| 0 <= t < self.clients@.len() implies ms[j as int].0
                            != old(self).clients@[t].0.0 by {
                            assert(self.clients@[t].0.0 != member.0);
                        }
                    }
                },
            }
            j = j + 1;
        }
        proof {
            assert(distinct_client_keys(self.clients@));
            assert forall|k: u128|
                old(self)@.clients.contains_key(k) <==> final(self)@.clients.contains_key(k) by {
                lemma_clients_map_contains(old(self).clients@, k);
                lemma_clients_map_contains(self.clients@, k);
            }
            assert(old(self)@.clients.dom() =~= final(self)@.clients.dom());
            assert forall|k: u128| old(self)@.clients.contains_key(k) implies {
                let c = old(self)@.clients[k];
                let c2 = final(self)@.clients[k];
                &&& c2.alive == c.alive
                &&& c2.name == c.name
                &&& c2.outbox == (if old(self)@.rooms[room_uuid.0].members.contains(k) {
                    c.outbox.push(chat_message_json(msg@))
                } else {
                    c.outbox
                })
            } by {
                lemma_clients_map_contains(old(self).clients@, k);
                let t = choose|t: int|
                    0 <= t < old(self).clients@.len() && old(self).clients@[t].0.0 == k;
                lemma_clients_map_index(old(self).clients@, t);
                lemma_clients_map_index(self.clients@, t);
                assert(old(self)@.rooms[room_uuid.0] == old(self).rooms@[room_idx as int]@);
                assert(old(self)@.rooms[room_uuid.0].members.contains(k) <==> exists|a: int|
                    0 <= a < ms.len() && ms[a].0 == k);
            }
        }
    }

    /// The identifiers of all registered clients, for the connection layer
    /// to walk when it drains outbound queues.
    pub fn client_ids(&self) -> (ids: Vec<ClientUuid>)
        requires
            self.wf(),
        ensures
            forall|a: int, b: int| 0 <= a < b < ids@.len() ==> ids@[a].0 != ids@[b].0,
            forall|a: int| 0 <= a < ids@.len() ==> self@.clients.contains_key(#[trigger] ids@[a].0),
            forall|k: u128|
                self@.clients.contains_key(k) ==> exists|a: int|
                    0 <= a < ids@.len() && ids@[a].0 == k,
    {
        let mut ids: Vec<ClientUuid> = Vec::new();
        let mut i: usize = 0;
        while i < self.clients.len()
            invariant
                self.wf(),
                i <= self.clients@.len(),
                ids@.len() == i,
                forall|a: int| 0 <= a < i ==> (#[trigger] ids@[a]).0 == self.clients@[a].0.0,
            decreases self.clients@.len() - i,
        {
            ids.push(self.clients[i].0);
            i = i + 1;
        }
        proof {
            assert forall|a: int, b: int| 0 <= a < b < ids@.len() implies ids@[a].0
                != ids@[b].0 by {}
            assert forall|a: int| 0 <= a < ids@.len() implies self@.clients.contains_key(
                ids@[a].0,
            ) by {
                lemma_clients_map_index(self.clients@, a);
            }
            assert forall|k: u128| self@.clients.contains_key(k) implies exists|a: int|
                0 <= a < ids@.len() && ids@[a].0 == k by {
                lemma_clients_map_contains(self.clients@, k);
                let j = choose|j: int| 0 <= j < self.clients@.len() && self.clients@[j].0.0 == k;
                assert(ids@[j].0 == k);
            }
        }
        ids
    }

    /// Hands the caller everything currently queued for the given client,
    /// leaving its queue empty: how the connection layer moves pending
    /// messages toward the physical connection. An unknown client yields
    /// nothing.
    pub fn take_outbox(&mut self, client_uuid: ClientUuid) -> (msgs: Vec<Vec<u8>>)
        requires
            old(self).wf(),
        ensures
            final(self).wf(),
            final(self)@.rooms == old(self)@.rooms,
            final(self)@.name == old(self)@.name,
            old(self)@.clients.contains_key(client_uuid.0) ==> msgs_view(msgs@) == old(
                self,
            )@.clients[client_uuid.0].outbox && final(self)@.clients == old(self)@.clients.insert(
                client_uuid.0,
                (ClientView {
                    alive: old(self)@.clients[client_uuid.0].alive,
                    name: old(self)@.clients[client_uuid.0].name,
                    outbox: Seq::empty(),
                }),
            ),
            !old(self)@.clients.contains_key(client_uuid.0) ==> final(self)@ == old(self)@
                && msgs@.len() == 0,
    {
        proof {
            lemma_clients_map_contains(self.clients@, client_uuid.0);
        }
        match self.find_client_idx(client_uuid) {
            Some(i) => {
                proof {
                    lemma_clients_map_index(self.clients@, i as int);
                }
                let mut msgs: Vec<Vec<u8>> = Vec::new();
                let entry = &mut self.clients[i];
                core::mem::swap(&mut entry.1.outbox, &mut msgs);
                proof {
                    assert(msgs_view(Seq::<Vec<u8>>::empty()) =~= Seq::<Seq<u8>>::empty());
                    lemma_clients_map_update(
                        old(self).clients@,
                        i as int,
                        self.clients@[i as int].1,
                    );
                    assert(self.clients@ =~= old(self).clients@.update(
                        i as int,
                        (old(self).clients@[i as int].0, self.clients@[i as int].1),
                    ));
                }
                msgs
            },
            None => Vec::new(),
        }
    }

    /// The display name the given client registered under.
    pub fn client_name(&self, client_uuid: ClientUuid) -> (r: String)
        requires
            self.wf(),
            self@.clients.contains_key(client_uuid.0),
        ensures
            r@ == self@.clients[client_uuid.0].name,
    {
        proof {
            lemma_clients_map_contains(self.clients@, client_uuid.0);
        }
        match self.find_client_idx(client_uuid) {
            Some(i) => {
                proof {
                    lemma_clients_map_index(self.clients@, i as int);
                }
                self.clients[i].1.name.0.clone()
            },
            None => vstd::pervasive::unreached(),
        }
    }

    /// Announces a client's departure to one room and takes the client out
    /// of its membership. The notice goes out first, so the leaver (still a
    /// member at that point) receives its own departure notice.
    pub fn disconnect_client_from_one(
        &mut self,
        client_uuid: ClientUuid,
        room_uuid: RoomUuid,
        now: u64,
    )
        requires
            old(self).wf(),
            old(self)@.clients.contains_key(client_uuid.0),
            old(self)@.rooms.contains_key(room_uuid.0),
        ensures
            final(self).wf(),
            disconnect_one_rel(old(self)@, client_uuid.0, room_uuid.0, now, final(self)@),
    {
        let mut contents = self.client_name(client_uuid);
        contents.append(" has left the chat");
        let goodbye = ChatMessage {
            author: SERVER_SIGNATURE.to_owned(),
            contents,
            timestamp: now,
        };
        proof {
            assert(goodbye@ == goodbye_message(old(self)@.clients[client_uuid.0].name, now));
        }
        self.send_to_room(&goodbye, room_uuid);
        self.remove_member(room_uuid, client_uuid);
    }

    /// Announces a client's departure to every room it belongs to, and takes
    /// it out of each of those rooms' membership. The client entry itself
    /// stays; deleting it is the caller's decision.
    pub fn disconnect_client_from_all(&mut self, client_uuid: ClientUuid, now: u64)
        requires
            old(self).wf(),
            old(self)@.clients.contains_key(client_uuid.0),
        ensures
            final(self).wf(),
            disconnect_all_rel(old(self)@, client_uuid.0, now, final(self)@),
    {
        let ghost s0 = old(self)@;
        let ghost gj = chat_message_json(goodbye_message(s0.clients[client_uuid.0].name, now));
        let rooms = self.get_client_rooms(client_uuid);
        let ghost rl = rooms@;
        proof {
            lemma_rooms_map_finite(self.rooms@);
            lemma_rooms_map_key_uuid(self.rooms@);
        }
        let mut i: usize = 0;
        while i < rooms.len()
            invariant
                i <= rl.len(),
                rl == rooms@,
                self.wf(),
                s0 == old(self)@,
                s0.rooms.dom().finite(),
                forall|r: u128| #[trigger] s0.rooms.contains_key(r) ==> s0.rooms[r].uuid == r,
                s0.clients.contains_key(client_uuid.0),
                gj == chat_message_json(goodbye_message(s0.clients[client_uuid.0].name, now)),
                forall|a: int, b: int| 0 <= a < b < rl.len() ==> rl[a].0 != rl[b].0,
                forall|a: int|
                    0 <= a < rl.len() ==> s0.rooms.contains_key(#[trigger] rl[a].0)
                        && s0.rooms[rl[a].0].members.contains(client_uuid.0),
                forall|k: u128|
                    s0.rooms.contains_key(k) && s0.rooms[k].members.contains(client_uuid.0)
                        ==> exists|a: int| 0 <= a < rl.len() && rl[a].0 == k,
                self@.name == s0.name,
                self@.clients.dom() == s0.clients.dom(),
                forall|k: u128|
                    s0.clients.contains_key(k) ==> {
                        let cl = s0.clients[k];
                        let cl2 = #[trigger] self@.clients[k];
                        &&& cl2.alive == cl.alive
                        &&& cl2.name == cl.name
                        &&& cl2.outbox == cl.outbox + repeat_msg(
                            gj,
                            goodbye_count(s0, rl, i as int, k),
                        )
                    },
                self@.rooms.dom() == s0.rooms.dom(),
                forall|r: u128|
                    s0.rooms.contains_key(r) ==> {
                        let rm = s0.rooms[r];
                        let rm2 = #[trigger] self@.rooms[r];
                        &&& rm2.name == rm.name
                        &&& rm2.uuid == rm.uuid
                        &&& rm2.members == (if exists|a: int| 0 <= a < i && rl[a].0 == r {
                            rm.members.remove(client_uuid.0)
                        } else {
                            rm.members
                        })
                    },
            decreases rl.len() - i,
        {
            let ghost s1 = self@;
            let rid = rooms[i];
            proof {
                assert(!(exists|a: int| 0 <= a < i && rl[a].0 == rid.0));
                assert(s1.rooms[rid.0].members == s0.rooms[rid.0].members);
            }
            self.disconnect_client_from_one(client_uuid, rid, now);
            proof {
                let s2 = self@;
                assert forall|k: u128| s0.clients.contains_key(k) implies {
                    let cl = s0.clients[k];
                    let cl2 = #[trigger] s2.clients[k];
                    &&& cl2.alive == cl.alive
                    &&& cl2.name == cl.name
                    &&& cl2.outbox == cl.outbox + repeat_msg(
                        gj,
                        goodbye_count(s0, rl, i + 1, k),
                    )
                } by {
                    assert(s1.clients[client_uuid.0].name == s0.clients[client_uuid.0].name);
                    if s0.rooms[rid.0].members.contains(k) {
                        assert(s2.clients[k].outbox == s1.clients[k].outbox.push(gj));
                        assert(goodbye_count(s0, rl, i + 1, k) == goodbye_count(
                            s0,
                            rl,
                            i as int,
                            k,
                        ) + 1);
                        assert(s0.clients[k].outbox + repeat_msg(
                            gj,
                            goodbye_count(s0, rl, i + 1, k),
                        ) =~= (s0.clients[k].outbox + repeat_msg(
                            gj,
                            goodbye_count(s0, rl, i as int, k),
                        )).push(gj));
                    } else {
                        assert(s2.clients[k].outbox == s1.clients[k].outbox);
                        assert(goodbye_count(s0, rl, i + 1, k) == goodbye_count(
                            s0,
                            rl,
                            i as int,
                            k,
                        ));
                    }
                }
                assert forall|r: u128| s0.rooms.contains_key(r) implies {
                    let rm = s0.rooms[r];
                    let rm2 = #[trigger] self@.rooms[r];
                    &&& rm2.name == rm.name
                    &&& rm2.uuid == rm.uuid
                    &&& rm2.members == (if exists|a: int| 0 <= a < i + 1 && rl[a].0 == r {
                        rm.members.remove(client_uuid.0)
                    } else {
                        rm.members
                    })
                } by {
                    if r == rid.0 {
                        assert(rl[i as int].0 == r);
                    } else {
                        assert(self@.rooms[r] == s1.rooms[r]);
                        assert forall|a: int| 0 <= a < i + 1 && rl[a].0 == r implies 0 <= a
                            < i by {}
                    }
                }
                assert(self@.clients.dom() =~= s0.clients.dom());
                assert(self@.rooms.dom() =~= s0.rooms.dom());
            }
            i = i + 1;
        }
        proof {
            assert forall|k: u128| s0.clients.contains_key(k) implies {
                let cl = s0.clients[k];
                let cl2 = #[trigger] final(self)@.clients[k];
                &&& cl2.alive == cl.alive
                &&& cl2.name == cl.name
                &&& cl2.outbox == cl.outbox + repeat_msg(gj, shared_rooms(s0, client_uuid.0, k).len())
            } by {
                lemma_goodbye_count_is_shared(s0, rl, rl.len() as int, client_uuid.0, k);
                assert forall|r: u128|
                    shared_upto_set(s0, rl, rl.len() as int, k).contains(r) implies shared_rooms(
                    s0,
                    client_uuid.0,
                    k,
                ).contains(r) by {
                    let a = choose|a: int| 0 <= a < rl.len() && rl[a].0 == r;
                    assert(s0.rooms[r].members.contains(client_uuid.0));
                }
                assert(shared_upto_set(s0, rl, rl.len() as int, k) =~= shared_rooms(
                    s0,
                    client_uuid.0,
                    k,
                ));
            }
            assert forall|r: u128| s0.rooms.contains_key(r) implies {
                let rm = s0.rooms[r];
                let rm2 = #[trigger] final(self)@.rooms[r];
                &&& rm2.name == rm.name
                &&& rm2.uuid == rm.uuid
                &&& rm2.members == rm.members.remove(client_uuid.0)
            } by {
                if !(exists|a: int| 0 <= a < rl.len() && rl[a].0 == r) {
                    assert(!s0.rooms[r].members.contains(client_uuid.0));
                    assert(final(self)@.rooms[r].members =~= s0.rooms[r].members.remove(
                        client_uuid.0,
                    ));
                }
            }
        }
    }

    /// Deletes a client's entry (and with it the client's outbound queue);
    /// a no-op if the client is not registered. Room memberships are not
    /// touched: a stale membership is tolerated and skipped by broadcast.
    pub fn remove(&mut self, client_uuid: ClientUuid)
        requires
            old(self).wf(),
        ensures
            final(self).wf(),
            final(self)@.clients == old(self)@.clients.remove(client_uuid.0),
            final(self)@.rooms == old(self)@.rooms,
            final(self)@.name == old(self)@.name,
    {
        proof {
            lemma_clients_map_contains(self.clients@, client_uuid.0);
        }
        match self.find_client_idx(client_uuid) {
            Some(i) => {
                proof {
                    lemma_clients_map_remove(self.clients@, i as int);
                }
                self.clients.remove(i);
            },
            None => {
                proof {
                    assert(final(self)@.clients =~= old(self)@.clients.remove(client_uuid.0));
                }
            },
        }
    }
}

} // verus!
