//! The login server's handling of packets, connections and disconnections.
use vstd::prelude::*;
use crate::after_login::{after_login_handled, after_login_packet_ok, AfterLoginAction};
use crate::before_login::{before_login_handled, PACKET_LOGIN};
use crate::component::{ClientState, EntityId, EntityKind, MsgToConnSender, PeerAddr, PongInfo};
use crate::object::{EntityView, World};
use crate::on_game::{game_handled, game_packet_ok};
use crate::on_lobby::{lobby_handled, lobby_packet_ok};
use crate::on_room::{room_handled, room_packet_ok};
use crate::reader::PacketReader;
use crate::server::{in_room_ok, object_error, room_of, HandleError, Server};
use crate::on_room::{exit_told, exit_world, left_room};
use crate::session::{client_entity, create};
use crate::consistency::{
    entity_ok, lemma_add_keeps, lemma_exit_keeps, lemma_handle_packet_keeps, lemma_kept_twice, lemma_logins_kept,
    lemma_remove_keeps, world_ok,
};

verus! {

/// The port of the login server.
pub const LOGIN_PORT: u16 = 9874;

/// How many times a second the server handles its messages and timers.
pub const FPS: u64 = 20;

/// What a packet leaves for the caller to do with the user and board records.
#[derive(Debug)]
pub enum Action {
    /// Nothing.
    Done,
    /// Look up the user with this id and check this password.
    Login(String, String),
    /// What a logged-in client asked of the records.
    AfterLogin(AfterLoginAction),
}

/// What a packet from `eid` needs, by where its client is.
pub open spec fn packet_ok(world: &World, eid: EntityId, pr: PacketReader) -> bool {
    let w = world@;
    w.contains_key(eid) && w[eid].state is Some ==> match w[eid].state->0 {
        ClientState::BeforeLogin => pr.op() == PACKET_LOGIN ==> pr.pos() + 26 <= pr.bytes().len(),
        ClientState::AfterLogin => after_login_packet_ok(world, eid, pr),
        ClientState::OnLobby => lobby_packet_ok(world, eid, pr),
        ClientState::OnRoom => room_packet_ok(world, eid, pr),
        ClientState::OnGame => game_packet_ok(w, eid, pr),
    }
}

/// What `handle` makes of the server `s0` for a packet `pr` from the client
/// `eid`, by where the client is: the server `s1` and the result `r`.
pub open spec fn packet_handled(s0: Server, s1: Server, eid: EntityId, pr: PacketReader, r: Result<Action, HandleError>) -> bool {
    &&& s1.config == s0.config
    &&& s1.world.wf()
    &&& !s0.world@.contains_key(eid) ==> r == Err::<Action, HandleError>(HandleError::NoEntity) && s1 == s0
    &&& s0.world@.contains_key(eid) && s0.world@[eid].state is None ==> r == Err::<Action, HandleError>(
        HandleError::NoComponent,
    ) && s1 == s0
    &&& s0.world@.contains_key(eid) ==> match s0.world@[eid].state {
        Some(ClientState::BeforeLogin) => exists|r0: Result<Option<(String, String)>, HandleError>|
            #[trigger] before_login_handled(s0, s1, eid, pr, r0) && r == match r0 {
                Ok(Some((id, pw))) => Ok::<Action, HandleError>(Action::Login(id, pw)),
                Ok(None) => Ok::<Action, HandleError>(Action::Done),
                Err(e) => Err(e),
            },
        Some(ClientState::AfterLogin) => exists|r0: Result<AfterLoginAction, HandleError>|
            #[trigger] after_login_handled(s0, s1, eid, pr, r0) && r == match r0 {
                Ok(a) => Ok::<Action, HandleError>(Action::AfterLogin(a)),
                Err(e) => Err(e),
            },
        Some(ClientState::OnLobby) => exists|r0: Result<(), HandleError>|
            #[trigger] lobby_handled(s0, s1, eid, pr, r0) && r == match r0 {
                Ok(()) => Ok::<Action, HandleError>(Action::Done),
                Err(e) => Err(e),
            },
        Some(ClientState::OnRoom) => exists|r0: Result<(), HandleError>|
            #[trigger] room_handled(s0, s1, eid, pr, r0) && r == match r0 {
                Ok(()) => Ok::<Action, HandleError>(Action::Done),
                Err(e) => Err(e),
            },
        Some(ClientState::OnGame) => exists|r0: Result<(), HandleError>|
            #[trigger] game_handled(s0, s1, eid, pr, r0) && r == match r0 {
                Ok(()) => Ok::<Action, HandleError>(Action::Done),
                Err(e) => Err(e),
            },
        None => true,
    }
}

/// Handles a packet from the client `entity_id` by where the client is.
pub fn handle(server: &mut Server, entity_id: EntityId, pr: PacketReader) -> (r: Result<Action, HandleError>)
    requires
        old(server).world.wf(),
        packet_ok(&old(server).world, entity_id, pr),
    ensures
        packet_handled(*old(server), *final(server), entity_id, pr, r),
{
    let state = {
        let entity = match server.world.get(&entity_id) {
            Ok(e) => e,
            Err(e) => return Err(object_error(e)),
        };
        match entity.get::<ClientState>() {
            Ok(s) => *s,
            Err(e) => return Err(object_error(e)),
        }
    };
    match state {
        ClientState::BeforeLogin => match crate::before_login::handle(server, &entity_id, pr) {
            Ok(Some((id, pw))) => Ok(Action::Login(id, pw)),
            Ok(None) => Ok(Action::Done),
            Err(e) => Err(e),
        },
        ClientState::AfterLogin => match crate::after_login::handle(server, &entity_id, pr) {
            Ok(a) => Ok(Action::AfterLogin(a)),
            Err(e) => Err(e),
        },
        ClientState::OnLobby => match crate::on_lobby::handle(server, &entity_id, pr) {
            Ok(()) => Ok(Action::Done),
            Err(e) => Err(e),
        },
        ClientState::OnRoom => match crate::on_room::handle(server, &entity_id, pr) {
            Ok(()) => Ok(Action::Done),
            Err(e) => Err(e),
        },
        ClientState::OnGame => match crate::on_game::handle(server, &entity_id, pr) {
            Ok(()) => Ok(Action::Done),
            Err(e) => Err(e),
        },
    }
}

/// Whether the entity `eid` is gone.
pub fn is_entity_offline(server: &Server, eid: &EntityId) -> (r: bool)
    requires
        server.world.wf(),
    ensures
        r == !server.world@.contains_key(*eid),
{
    server.world.get(eid).is_err()
}

/// What `handle_packet` makes of the server `s0` for a packet `pr` from `eid`:
/// the server `s1` and the result `r`.
pub open spec fn packet_done(s0: Server, s1: Server, eid: EntityId, pr: PacketReader, r: Result<Action, HandleError>) -> bool {
    &&& s1.config == s0.config
    &&& s1.world.wf()
    &&& !s0.world@.contains_key(eid) ==> (r matches Ok(Action::Done)) && s1 == s0
    &&& r is Ok && s1.world@.contains_key(eid) ==> s1.world@[eid].pong == Some(PongInfo(true))
    &&& s0.world@.contains_key(eid) ==> exists|mid: Server|
        #[trigger] packet_handled(s0, mid, eid, pr, r) && s1.config == mid.config
            && s1.outbox == mid.outbox && s1.now == mid.now && s1.world@ == if r is Ok
            && mid.world@.contains_key(eid) {
            mid.world@.insert(eid, EntityView { pong: Some(PongInfo(true)), ..mid.world@[eid] })
        } else {
            mid.world@
        }
}

/// Handles a packet from `eid`: one from a client that is gone is ignored; a
/// packet that was handled marks the client as having answered. What is left
/// for the caller to do comes back, with the error if there was one.
pub fn handle_packet(server: &mut Server, eid: EntityId, pr: PacketReader) -> (r: Result<Action, HandleError>)
    requires
        old(server).world.wf(),
        packet_ok(&old(server).world, eid, pr),
    ensures
        packet_done(*old(server), *final(server), eid, pr, r),
        world_ok(old(server).world@) ==> world_ok(final(server).world@),
{
    if is_entity_offline(server, &eid) {
        return Ok(Action::Done);
    }
    let r = handle(server, eid, pr);
    let ghost mid: Server = *server;
    assert(packet_handled(*old(server), mid, eid, pr, r));
    if r.is_ok() {
        if let Ok(entity) = server.world.get_mut(&eid) {
            entity.push(PongInfo(true));
        }
    }
    proof {
        assert(packet_done(*old(server), *server, eid, pr, r));
        if world_ok(old(server).world@) {
            lemma_handle_packet_keeps(*old(server), *server, eid, pr, r);
            lemma_logins_kept(old(server).world@, server.world@);
        }
    }
    r
}

/// A new connection from `addr`: a client entity with a connection.
pub fn register_connection(world: &mut World, addr: PeerAddr) -> (id: EntityId)
    requires
        old(world).wf(),
        old(world).next_id() < u64::MAX,
    ensures
        id == old(world).next_id(),
        final(world).wf(),
        final(world).next_id() == old(world).next_id() + 1,
        final(world)@ == old(world)@.insert(id, EntityView { sender: Some(MsgToConnSender), ..client_entity(id, addr) }),
        world_ok(old(world)@) ==> world_ok(final(world)@),
{
    let entity = create(world, addr);
    let entity_id = entity.id();
    entity.push(MsgToConnSender);
    proof {
        if world_ok(old(world)@) {
            old(world).lemma_views();
            lemma_add_keeps(old(world)@, entity_id, EntityView { sender: Some(MsgToConnSender), ..client_entity(entity_id, addr) });
            lemma_logins_kept(old(world)@, world@);
        }
    }
    entity_id
}

/// The client `entity_id` has gone: it leaves its room or game first, then its
/// entity is removed.
pub fn handle_disconnection(server: &mut Server, entity_id: EntityId)
    requires
        old(server).world.wf(),
        old(server).world@.contains_key(entity_id),
        old(server).world@[entity_id].state is Some,
        old(server).world@[entity_id].state == Some(ClientState::OnRoom) || old(server).world@[entity_id].state == Some(
            ClientState::OnGame,
        ) ==> in_room_ok(old(server).world@, entity_id),
    ensures
        final(server).world.wf(),
        !final(server).world@.contains_key(entity_id),
        final(server).config == old(server).config,
        !(old(server).world@[entity_id].state == Some(ClientState::OnRoom) || old(server).world@[entity_id].state == Some(
            ClientState::OnGame,
        )) ==> final(server).world@ == old(server).world@.remove(entity_id) && final(server).outbox == old(server).outbox,
        (old(server).world@[entity_id].state == Some(ClientState::OnRoom) || old(server).world@[entity_id].state == Some(
            ClientState::OnGame,
        )) ==> exit_told(old(server).outbox@, final(server).outbox@, old(server).world@, entity_id) && exists|w1: Map<EntityId, EntityView>|
            #[trigger] left_room(old(server).world@, w1, entity_id) && final(server).world@ == w1.remove(entity_id),
        world_ok(old(server).world@) ==> world_ok(final(server).world@),
{
    let ghost w0 = server.world@;
    let state = *server.world.get(&entity_id).unwrap().get::<ClientState>().unwrap();
    if state == ClientState::OnRoom || state == ClientState::OnGame {
        crate::on_room::handle_exit(server, &entity_id);
        let ghost r = server.world@[room_of(w0, entity_id)];
        let ghost w1 = server.world@;
        server.world.remove(&entity_id);
        assert(server.world@ == exit_world(w0, entity_id, r).remove(entity_id));
        proof {
            if world_ok(w0) {
                assert(entity_ok(w0[entity_id]));
                lemma_exit_keeps(w0, w1, entity_id);
                lemma_remove_keeps(w1, entity_id);
                lemma_kept_twice(w0, w1, server.world@);
                lemma_logins_kept(w0, server.world@);
            }
        }
        return;
    }
    server.world.remove(&entity_id);
    proof {
        if world_ok(w0) {
            assert(entity_ok(w0[entity_id]));
            lemma_remove_keeps(w0, entity_id);
            lemma_logins_kept(w0, server.world@);
        }
    }
}

/// The ids of the timer entities, in id order.
pub fn timer_ids(world: &World) -> (r: Vec<EntityId>)
    requires
        world.wf(),
        forall|k: EntityId| #[trigger] world@.contains_key(k) ==> world@[k].kind is Some,
    ensures
        forall|i: int| 0 <= i < r@.len() ==> world@.contains_key(#[trigger] r@[i]) && world@[r@[i]].kind == Some(EntityKind::Timer),
        forall|k: EntityId| #[trigger] world@.contains_key(k) && world@[k].kind == Some(EntityKind::Timer) ==> r@.contains(k),
{
    let v = world.values();
    let mut r: Vec<EntityId> = Vec::new();
    let mut i: usize = 0;
    proof {
        world.lemma_views();
    }
    while i < v.len()
        invariant
            i <= v@.len(),
            world.wf(),
            v@.len() == world.views().len(),
            forall|j: int| 0 <= j < v@.len() ==> #[trigger] v@[j]@ == world.views()[j],
            forall|k: EntityId| #[trigger] world@.contains_key(k) ==> world@[k].kind is Some,
            forall|j: int| 0 <= j < r@.len() ==> world@.contains_key(#[trigger] r@[j]) && world@[r@[j]].kind == Some(EntityKind::Timer),
            forall|j: int| 0 <= j < i && world.views()[j].kind == Some(EntityKind::Timer) ==> r@.contains(#[trigger] world.views()[j].id),
        decreases v@.len() - i,
    {
        proof {
            world.lemma_views();
            assert(world@.contains_key(world.views()[i as int].id));
        }
        let kind = *v[i].get::<EntityKind>().unwrap();
        if kind == EntityKind::Timer {
            let ghost before = r@;
            r.push(v[i].id());
            proof {
                assert forall|j: int| 0 <= j < i + 1 && world.views()[j].kind == Some(EntityKind::Timer) implies r@.contains(#[trigger] world.views()[j].id) by {
                    if j < i {
                        assert(before.contains(world.views()[j].id));
                        let t = choose|t: int| 0 <= t < before.len() && before[t] == world.views()[j].id;
                        assert(r@[t] == before[t]);
                    } else {
                        assert(r@[r@.len() - 1] == world.views()[j].id);
                    }
                }
            }
        }
        i = i + 1;
    }
    proof {
        world.lemma_views();
        assert forall|k: EntityId| #[trigger] world@.contains_key(k) && world@[k].kind == Some(EntityKind::Timer) implies r@.contains(k) by {
            let j = crate::object::position_of(world.views(), k);
            assert(world.views()[j] == world@[k]);
            assert(world.views()[j].id == k);
        }
    }
    r
}

} // verus!
