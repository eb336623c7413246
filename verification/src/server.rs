//! The state of the login server and helpers shared by the packet handlers.
use vstd::prelude::*;
use crate::component::{EntityId, OnRoomInfo, RoomInfo};
use crate::config::Config;
use crate::object::{EntityView, ObjectError, World};
use crate::room::{index_of_member, member_ids, members_reachable, send_to_all};
use crate::session::{outbox_view, packets_to, Outgoing};
use crate::writer::is_packet_of;

verus! {

/// The login server: its entities, the messages waiting for their connections,
/// its configuration, and the current time in milliseconds, which the caller
/// keeps up to date.
pub struct Server {
    pub world: World,
    pub outbox: Vec<Outgoing>,
    pub config: Config,
    pub now: u64,
}

/// Why a packet could not be handled.
#[derive(Debug, Clone, Copy, PartialEq, Eq, Structural)]
pub enum HandleError {
    /// An entity that the packet refers to does not exist.
    NoEntity,
    /// An entity lacks a component that the packet needs.
    NoComponent,
    /// A client re-entered the server without having logged in.
    NotAuthenticated,
    /// A client that is not the master of its room tried to change the map.
    NotRoomMaster,
    /// A chat packet has an unknown kind.
    InvalidChatKind,
    /// A board write has an unknown mode.
    InvalidWriteMode,
}

/// The handler error for a failed lookup.
pub open spec fn from_object(e: ObjectError) -> HandleError {
    match e {
        ObjectError::NoEntity => HandleError::NoEntity,
        ObjectError::NoComponent => HandleError::NoComponent,
    }
}

/// Turns a failed lookup into a handler error.
pub fn object_error(e: ObjectError) -> (r: HandleError)
    ensures
        r == from_object(e),
{
    match e {
        ObjectError::NoEntity => HandleError::NoEntity,
        ObjectError::NoComponent => HandleError::NoComponent,
    }
}

/// The room that the client `eid` is in.
pub open spec fn room_of(w: Map<EntityId, EntityView>, eid: EntityId) -> EntityId {
    w[eid].on_room->0.room_entity_id
}

/// The room information of the room that the client `eid` is in.
pub open spec fn room_info_of(w: Map<EntityId, EntityView>, eid: EntityId) -> RoomInfo {
    w[room_of(w, eid)].room->0
}

/// The client `eid` is in a room that exists, holds it as a member, and whose
/// members all exist with a connection.
pub open spec fn in_room_ok(w: Map<EntityId, EntityView>, eid: EntityId) -> bool {
    &&& w.contains_key(eid)
    &&& w[eid].on_room is Some
    &&& room_of(w, eid) != eid
    &&& w.contains_key(room_of(w, eid))
    &&& w[room_of(w, eid)].room is Some
    &&& index_of_member(room_info_of(w, eid).members@, eid) is Some
    &&& members_reachable(w, room_info_of(w, eid))
}

/// The place of the client `eid` in its room.
pub open spec fn place_of(w: Map<EntityId, EntityView>, eid: EntityId) -> nat {
    index_of_member(room_info_of(w, eid).members@, eid)->0
}

/// `w` with the room state of the client `eid` replaced by `info`.
pub open spec fn with_on_room(w: Map<EntityId, EntityView>, eid: EntityId, info: OnRoomInfo) -> Map<
    EntityId,
    EntityView,
> {
    w.insert(eid, EntityView { on_room: Some(info), ..w[eid] })
}

/// Replaces the room state of the client `eid`.
pub fn set_on_room(world: &mut World, eid: &EntityId, info: OnRoomInfo)
    requires
        old(world).wf(),
        old(world)@.contains_key(*eid),
        old(world)@[*eid].on_room is Some,
    ensures
        final(world).wf(),
        final(world)@ == with_on_room(old(world)@, *eid, info),
        final(world).next_id() == old(world).next_id(),
{
    let entity = world.get_mut(eid).unwrap();
    let slot = entity.get_mut::<OnRoomInfo>().unwrap();
    *slot = info;
}

/// Queues `pkt` for every member of the room `room_eid`, in place order.
pub fn send_to_room(world: &World, outbox: &mut Vec<Outgoing>, room_eid: &EntityId, pkt: &Vec<u8>)
    requires
        world.wf(),
        world@.contains_key(*room_eid),
        world@[*room_eid].room is Some,
        members_reachable(world@, world@[*room_eid].room->0),
    ensures
        outbox_view(final(outbox)@) == outbox_view(old(outbox)@) + packets_to(
            member_ids(world@[*room_eid].room->0.members@),
            pkt@,
        ),
{
    let room = world.get(room_eid).unwrap();
    send_to_all(world, outbox, room, pkt);
}

/// One packet with `body` was queued for each of `ids`, in order, and nothing else.
pub open spec fn told(before: Seq<Outgoing>, after: Seq<Outgoing>, ids: Seq<EntityId>, body: Seq<u8>) -> bool {
    exists|p: Seq<u8>| is_packet_of(p, body) && outbox_view(after) == outbox_view(before) + packets_to(ids, p)
}

impl Server {
    /// A server with no entities but its timers, the periodic check of
    /// clients among them, and no messages waiting; the time is `now`.
    pub fn new(config: Config, now: u64) -> (s: Self)
        ensures
            s.world.wf(),
            s.world.next_id() == 1,
            s.world@ == Map::<EntityId, EntityView>::empty().insert(
                0,
                crate::timer::timer_entity(0, crate::timer::PING_PONG_PERIOD, crate::component::TimerTask::PingPongCheck, now),
            ),
            s.outbox@ == Seq::<Outgoing>::empty(),
            s.config == config,
            s.now == now,
            crate::consistency::world_ok(s.world@),
    {
        let mut world = World::default();
        crate::timer::register_timers(&mut world, now);
        proof {
            let empty = Map::<EntityId, EntityView>::empty();
            assert(crate::consistency::consistent(empty));
            assert(crate::consistency::logins_unique(empty));
            crate::consistency::lemma_add_keeps(
                empty,
                0,
                crate::timer::timer_entity(0, crate::timer::PING_PONG_PERIOD, crate::component::TimerTask::PingPongCheck, now),
            );
            crate::consistency::lemma_logins_kept(empty, world@);
        }
        Server { world: world, outbox: Vec::new(), config: config, now: now }
    }
}

} // verus!
