//! One pass of the presence sweeper. The surrounding server runs it on a
//! fixed interval, independently of request traffic: each pass evicts the
//! clients that missed the whole previous window, announces each departure
//! to the rooms the client belonged to, scrubs its memberships, deletes its
//! entry, and arms every surviving client for the next window. Eviction is
//! unconditional once two sweep windows are missed.

use vstd::prelude::*;

use crate::message::ClientUuid;
use crate::registry::{goodbye_message, repeat_msg, shared_rooms, AppState, AppStateView};
use crate::wire::chat_message_json;

verus! {

/// Everything the pass appends to client `k`'s outbound queue: for each
/// of the first `i` evicted clients, in eviction order, its departure
/// notice once per room the two shared when the pass began.
pub open spec fn sweep_notices(
    s: AppStateView,
    evicted: Seq<ClientUuid>,
    i: int,
    now: u64,
    k: u128,
) -> Seq<Seq<u8>>
    decreases i,
{
    if i <= 0 {
        Seq::empty()
    } else {
        sweep_notices(s, evicted, i - 1, now, k) + repeat_msg(
            chat_message_json(goodbye_message(s.clients[evicted[i - 1].0].name, now)),
            shared_rooms(s, evicted[i - 1].0, k).len(),
        )
    }
}

/// What one sweeper pass does to the store.
///
/// The eviction set is exactly the set of clients whose liveness flag was
/// already down when the pass began; the survivors are exactly the clients
/// whose flag was up, and each comes out with the flag down again, armed for
/// the next window. Every room keeps its name and loses exactly the evicted
/// from its membership. Each survivor's outbound queue grows by exactly the
/// departure notices it is owed — one per room shared with each evicted
/// client, in eviction order — and in particular holds the notice of every
/// evicted client it shared a room with.
pub open spec fn sweep_rel(
    s: AppStateView,
    now: u64,
    evicted: Seq<ClientUuid>,
    s2: AppStateView,
) -> bool {
    &&& s2.name == s.name
    &&& (forall|a: int, b: int| 0 <= a < b < evicted.len() ==> evicted[a].0 != evicted[b].0)
    &&& (forall|a: int|
        0 <= a < evicted.len() ==> s.clients.contains_key(#[trigger] evicted[a].0)
            && !s.clients[evicted[a].0].alive)
    &&& (forall|k: u128|
        s.clients.contains_key(k) && !s.clients[k].alive ==> exists|a: int|
            0 <= a < evicted.len() && evicted[a].0 == k)
    &&& (forall|k: u128| #[trigger]
        s2.clients.contains_key(k) <==> (s.clients.contains_key(k) && s.clients[k].alive))
    &&& (forall|k: u128|
        s2.clients.contains_key(k) ==> {
            let cl = s.clients[k];
            let cl2 = #[trigger] s2.clients[k];
            &&& cl2.alive == false
            &&& cl2.name == cl.name
            &&& cl2.outbox == cl.outbox + sweep_notices(s, evicted, evicted.len() as int, now, k)
        })
    &&& s2.rooms.dom() == s.rooms.dom()
    &&& (forall|r: u128|
        s.rooms.contains_key(r) ==> {
            let rm = s.rooms[r];
            let rm2 = #[trigger] s2.rooms[r];
            &&& rm2.name == rm.name
            &&& rm2.uuid == rm.uuid
            &&& (forall|k: u128|
                rm2.members.contains(k) <==> (rm.members.contains(k) && !(s.clients.contains_key(
                    k,
                ) && !s.clients[k].alive)))
        })
    &&& (forall|a: int, k: u128|
        #![trigger evicted[a], s2.clients[k]]
        0 <= a < evicted.len() && s2.clients.contains_key(k) && (exists|r: u128|
            shared_rooms(s, evicted[a].0, k).contains(r)) ==> s2.clients[k].outbox.contains(
            chat_message_json(goodbye_message(s.clients[evicted[a].0].name, now)),
        ))
}

proof fn lemma_concat_contains_left(a: Seq<Seq<u8>>, b: Seq<Seq<u8>>, x: Seq<u8>)
    requires
        a.contains(x),
    ensures
        (a + b).contains(x),
{
    let idx = choose|idx: int| 0 <= idx < a.len() && a[idx] == x;
    assert((a + b)[idx] == x);
}

proof fn lemma_concat_contains_right(a: Seq<Seq<u8>>, b: Seq<Seq<u8>>, x: Seq<u8>)
    requires
        b.contains(x),
    ensures
        (a + b).contains(x),
{
    let idx = choose|idx: int| 0 <= idx < b.len() && b[idx] == x;
    assert((a + b)[a.len() + idx] == x);
}

proof fn lemma_repeat_msg_facts(m: Seq<u8>, n: nat)
    ensures
        repeat_msg(m, n).len() == n,
        n > 0 ==> repeat_msg(m, n).contains(m),
    decreases n,
{
    if n > 0 {
        lemma_repeat_msg_facts(m, (n - 1) as nat);
        assert(repeat_msg(m, n)[n - 1] == m);
    }
}

/// Runs one sweeper pass over the store and hands back the identifiers of
/// the clients it evicted.
pub fn sweep_once(app: &mut AppState, now: u64) -> (evicted: Vec<ClientUuid>)
    requires
        old(app).wf(),
    ensures
        final(app).wf(),
        sweep_rel(old(app)@, now, evicted@, final(app)@),
{
    let ghost s0 = old(app)@;
    let dead = app.sweep_dead();
    let ghost dl = dead@;
    proof {
        crate::registry::lemma_app_rooms_dom_finite(app);
    }
    let mut i: usize = 0;
    while i < dead.len()
        invariant
            i <= dl.len(),
            dl == dead@,
            app.wf(),
            s0 == old(app)@,
            app@.rooms.dom().finite(),
            forall|a: int, b: int| 0 <= a < b < dl.len() ==> dl[a].0 != dl[b].0,
            forall|a: int|
                0 <= a < dl.len() ==> s0.clients.contains_key(#[trigger] dl[a].0)
                    && !s0.clients[dl[a].0].alive,
            forall|k: u128|
                s0.clients.contains_key(k) && !s0.clients[k].alive ==> exists|a: int|
                    0 <= a < dl.len() && dl[a].0 == k,
            app@.name == s0.name,
            forall|k: u128| #[trigger]
                app@.clients.contains_key(k) <==> (s0.clients.contains_key(k) && !(exists|a: int|
                    0 <= a < i && dl[a].0 == k)),
            forall|k: u128|
                app@.clients.contains_key(k) ==> {
                    let cl = s0.clients[k];
                    let cl2 = #[trigger] app@.clients[k];
                    &&& cl2.alive == false
                    &&& cl2.name == cl.name
                    &&& cl2.outbox == cl.outbox + sweep_notices(s0, dl, i as int, now, k)
                },
            app@.rooms.dom() == s0.rooms.dom(),
            forall|r: u128|
                s0.rooms.contains_key(r) ==> {
                    let rm = s0.rooms[r];
                    let rm2 = #[trigger] app@.rooms[r];
                    &&& rm2.name == rm.name
                    &&& rm2.uuid == rm.uuid
                    &&& (forall|k: u128|
                        rm2.members.contains(k) <==> (rm.members.contains(k) && !(exists|a: int|
                            0 <= a < i && dl[a].0 == k)))
                },
            forall|a: int, k: u128|
                #![trigger dl[a], app@.clients[k]]
                0 <= a < i && app@.clients.contains_key(k) && (exists|r: u128|
                    shared_rooms(s0, dl[a].0, k).contains(r)) ==> app@.clients[k].outbox.contains(
                    chat_message_json(goodbye_message(s0.clients[dl[a].0].name, now)),
                ),
        decreases dl.len() - i,
    {
        let ghost s1 = app@;
        let e = dead[i];
        proof {
            assert(!(exists|a: int| 0 <= a < i && dl[a].0 == e.0));
            assert(app@.clients.contains_key(e.0));
        }
        app.disconnect_client_from_all(e, now);
        let ghost s2 = app@;
        app.remove(e);
        proof {
            let s3 = app@;
            let gj = chat_message_json(goodbye_message(s1.clients[e.0].name, now));
            assert(s1.clients[e.0].name == s0.clients[e.0].name);

            assert forall|k: u128| #[trigger]
                s3.clients.contains_key(k) <==> (s0.clients.contains_key(k) && !(exists|a: int|
                    0 <= a < i + 1 && dl[a].0 == k)) by {
                if s3.clients.contains_key(k) {
                    assert(k != e.0);
                    assert forall|a: int| 0 <= a < i + 1 implies dl[a].0 != k by {
                        if a < i {
                            assert(s1.clients.contains_key(k));
                        }
                    }
                } else {
                    if s0.clients.contains_key(k) && !(exists|a: int|
                        0 <= a < i + 1 && dl[a].0 == k) {
                        assert(s1.clients.contains_key(k));
                        assert(k != e.0);
                        assert(false);
                    }
                }
            }
            assert forall|k: u128| s3.clients.contains_key(k) implies {
                let cl = s0.clients[k];
                let cl2 = s3.clients[k];
                &&& cl2.alive == false
                &&& cl2.name == cl.name
                &&& cl2.outbox == cl.outbox + sweep_notices(s0, dl, i + 1, now, k)
            } by {
                assert(s1.clients.contains_key(k));
                assert(s2.clients[k].outbox == s1.clients[k].outbox + repeat_msg(
                    gj,
                    shared_rooms(s1, e.0, k).len(),
                ));
                assert(!(exists|b: int| 0 <= b < i && dl[b].0 == k));
                assert forall|r: u128|
                    shared_rooms(s1, e.0, k).contains(r) <==> shared_rooms(s0, e.0, k).contains(
                    r,
                ) by {
                    if s0.rooms.contains_key(r) {
                        assert(s1.rooms[r].members.contains(e.0) <==> s0.rooms[r].members.contains(
                            e.0,
                        ));
                        assert(s1.rooms[r].members.contains(k) <==> s0.rooms[r].members.contains(
                            k,
                        ));
                    }
                }
                assert(shared_rooms(s1, e.0, k) =~= shared_rooms(s0, e.0, k));
                assert(s3.clients[k] == s2.clients[k]);
                assert(sweep_notices(s0, dl, i + 1, now, k) == sweep_notices(s0, dl, i as int, now, k)
                    + repeat_msg(
                    chat_message_json(goodbye_message(s0.clients[e.0].name, now)),
                    shared_rooms(s0, e.0, k).len(),
                ));
                assert(s3.clients[k].outbox =~= s0.clients[k].outbox + sweep_notices(
                    s0,
                    dl,
                    i + 1,
                    now,
                    k,
                ));
            }
            assert forall|r: u128| s0.rooms.contains_key(r) implies {
                let rm = s0.rooms[r];
                let rm2 = s3.rooms[r];
                &&& rm2.name == rm.name
                &&& rm2.uuid == rm.uuid
                &&& (forall|k: u128|
                    rm2.members.contains(k) <==> (rm.members.contains(k) && !(exists|a: int|
                        0 <= a < i + 1 && dl[a].0 == k)))
            } by {
                assert(s1.rooms.contains_key(r));
                assert(s3.rooms[r] == s2.rooms[r]);
                assert(s2.rooms[r].members == s1.rooms[r].members.remove(e.0));
                assert forall|k: u128|
                    s3.rooms[r].members.contains(k) <==> (s0.rooms[r].members.contains(k) && !(
                    exists|a: int|
                        0 <= a < i + 1 && dl[a].0 == k)) by {
                    if s3.rooms[r].members.contains(k) {
                        assert(k != e.0);
                        assert forall|a: int| 0 <= a < i + 1 implies dl[a].0 != k by {
                            if a < i {
                                assert(s1.rooms[r].members.contains(k));
                            }
                        }
                    } else {
                        if s0.rooms[r].members.contains(k) && !(exists|a: int|
                            0 <= a < i + 1 && dl[a].0 == k) {
                            assert(s1.rooms[r].members.contains(k));
                            assert(k != e.0);
                            assert(false);
                        }
                    }
                }
            }
            assert forall|a: int, k: u128|
                0 <= a < i + 1 && s3.clients.contains_key(k) && (exists|r: u128|
                    shared_rooms(s0, dl[a].0, k).contains(r)) implies s3.clients[k].outbox.contains(
                chat_message_json(goodbye_message(s0.clients[dl[a].0].name, now)),
            ) by {
                let gja = chat_message_json(goodbye_message(s0.clients[dl[a].0].name, now));
                assert(s1.clients.contains_key(k));
                assert(s3.clients[k] == s2.clients[k]);
                if a < i {
                    assert(s1.clients[k].outbox.contains(gja));
                    lemma_concat_contains_left(s1.clients[k].outbox, repeat_msg(
                        gj,
                        shared_rooms(s1, e.0, k).len(),
                    ), gja);
                } else {
                    assert(dl[a].0 == e.0);
                    let r = choose|r: u128| shared_rooms(s0, e.0, k).contains(r);
                    assert(s0.rooms.contains_key(r));
                    assert(!(exists|b: int| 0 <= b < i && dl[b].0 == e.0));
                    assert(!(exists|b: int| 0 <= b < i && dl[b].0 == k));
                    assert(s1.rooms[r].members.contains(e.0));
                    assert(s1.rooms[r].members.contains(k));
                    assert(shared_rooms(s1, e.0, k).contains(r));
                    let sh = shared_rooms(s1, e.0, k);
                    assert(sh.subset_of(s1.rooms.dom()));
                    vstd::set_lib::lemma_len_subset(sh, s1.rooms.dom());
                    if sh.len() == 0 {
                        sh.lemma_len0_is_empty();
                        assert(false);
                    }
                    lemma_repeat_msg_facts(gj, sh.len());
                    lemma_concat_contains_right(s1.clients[k].outbox, repeat_msg(gj, sh.len()), gj);
                    assert(gja == gj);
                }
            }
        }
        i = i + 1;
    }
    proof {
        assert forall|k: u128| #[trigger]
            final(app)@.clients.contains_key(k) <==> (s0.clients.contains_key(k)
                && s0.clients[k].alive) by {
            if s0.clients.contains_key(k) && !s0.clients[k].alive {
                assert(exists|a: int| 0 <= a < dl.len() && dl[a].0 == k);
            }
            if exists|a: int| 0 <= a < dl.len() && dl[a].0 == k {
                let a = choose|a: int| 0 <= a < dl.len() && dl[a].0 == k;
                assert(!s0.clients[k].alive);
            }
        }
        assert forall|r: u128| s0.rooms.contains_key(r) implies {
            let rm = s0.rooms[r];
            let rm2 = final(app)@.rooms[r];
            forall|k: u128|
                rm2.members.contains(k) <==> (rm.members.contains(k) && !(s0.clients.contains_key(
                    k,
                ) && !s0.clients[k].alive))
        } by {
            assert forall|k: u128|
                final(app)@.rooms[r].members.contains(k) <==> (s0.rooms[r].members.contains(k) && !(
                s0.clients.contains_key(k) && !s0.clients[k].alive)) by {
                if s0.clients.contains_key(k) && !s0.clients[k].alive {
                    assert(exists|a: int| 0 <= a < dl.len() && dl[a].0 == k);
                }
                if exists|a: int| 0 <= a < dl.len() && dl[a].0 == k {
                    let a = choose|a: int| 0 <= a < dl.len() && dl[a].0 == k;
                    assert(!s0.clients[k].alive);
                }
            }
        }
    }
    dead
}

} // verus!
