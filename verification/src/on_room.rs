//! Packets from clients that are in a room.
use vstd::prelude::*;
use crate::component::{
    ClientState, EntityId, GameInfo, OnRoomInfo, PlayerInfo, RoomInfo, StateInRoom, TimerTask, CHAR_RANDOM_ID,
    MAP_RANDOM_ID, MAX_CHAR_ID, MAX_MAP_ID, ROOM_SIZE,
};
use crate::object::{Entity, EntityView, World};
use crate::reader::PacketReader;
use crate::room::{get_index_in_room, get_user_entity_ids, member_ids};
use crate::server::{
    in_room_ok, place_of, room_info_of, room_of, send_to_room, set_on_room, told, with_on_room,
    HandleError, Server,
};
use crate::session::{outbox_view, packets_to, set_states, with_states, Outgoing};
use crate::bytes::{le32, zeros};
use crate::on_game::loop_loading;
use crate::timer::{timer_entity, LOOP_PERIOD};
use crate::turn_table::{get_turn_table, occupied_places, teams_ok, turn_table_of};
use crate::on_lobby::{lobby_chat_result, lobby_packet_ok};
use crate::writer::{body_prefix, is_packet_of, PacketWriter};

verus! {

pub const PACKET_CHAT: u8 = 34;
pub const PACKET_ENTER_SHOP: u8 = 50;
pub const PACKET_LEAVE_SHOP: u8 = 52;
pub const PACKET_CHANGE_MAP: u8 = 66;
pub const PACKET_CHANGE_CHAR: u8 = 69;
pub const PACKET_CHANGE_TEAM: u8 = 71;
pub const PACKET_GET_READY: u8 = 76;
pub const PACKET_GET_NOT_READY: u8 = 78;
pub const PACKET_START_GAME: u8 = 80;
pub const PACKET_EXIT_ROOM: u8 = 95;
pub const PACKET_KICK: u8 = 98;

/// The body that tells a room about a change of the member in place `place`,
/// with the new value if the change has one.
pub open spec fn place_body(op: u8, place: nat, value: Option<u8>) -> Seq<u8> {
    body_prefix(op) + seq![place as u8] + match value {
        Some(v) => seq![v],
        None => Seq::<u8>::empty(),
    }
}

/// The members of the room of `eid` were sent one packet with body `body`, in place order.
pub open spec fn room_told(
    before: Seq<Outgoing>,
    after: Seq<Outgoing>,
    w: Map<EntityId, EntityView>,
    room_eid: EntityId,
    body: Seq<u8>,
) -> bool {
    exists|p: Seq<u8>|
        is_packet_of(p, body) && outbox_view(after) == outbox_view(before) + packets_to(
            member_ids(w[room_eid].room->0.members@),
            p,
        )
}

/// Replaces the room state of `eid` and tells its room about it.
fn update_and_notify(server: &mut Server, eid: &EntityId, info: OnRoomInfo, reply_op: u8, value: Option<u8>)
    requires
        old(server).world.wf(),
        in_room_ok(old(server).world@, *eid),
        info.room_entity_id == room_of(old(server).world@, *eid),
    ensures
        final(server).world.wf(),
        final(server).world@ == with_on_room(old(server).world@, *eid, info),
        final(server).world.next_id() == old(server).world.next_id(),
        final(server).config == old(server).config,
        room_told(
            old(server).outbox@,
            final(server).outbox@,
            old(server).world@,
            room_of(old(server).world@, *eid),
            place_body(reply_op, place_of(old(server).world@, *eid), value),
        ),
{
    let ghost w0 = server.world@;
    let room_eid = info.room_entity_id;
    set_on_room(&mut server.world, eid, info);
    assert(server.world@[room_eid].room == w0[room_eid].room);
    let room = server.world.get(&room_eid).unwrap();
    let index_in_room = get_index_in_room(room, eid).unwrap();
    let mut pw = PacketWriter::new(reply_op);
    pw.u8(index_in_room as u8);
    assert(index_in_room == place_of(w0, *eid));
    assert(pw.bytes() =~= body_prefix(reply_op) + seq![index_in_room as u8]);
    if let Some(v) = value {
        pw.u8(v);
    }
    proof {
        assert(pw.bytes() =~= place_body(reply_op, place_of(w0, *eid), value));
    }
    let pkt = pw.as_vec();
    send_to_room(&server.world, &mut server.outbox, &room_eid, &pkt);
}

/// The room state of `eid` in `w`.
pub open spec fn on_room_of(w: Map<EntityId, EntityView>, eid: EntityId) -> OnRoomInfo {
    w[eid].on_room->0
}

/// The common contract of a handler that changes the room state of `eid` to `info`
/// and tells its room with a packet of body `place_body(reply_op, place, value)`.
pub open spec fn room_update(old_s: Server, new_s: Server, eid: EntityId, info: OnRoomInfo, reply_op: u8, value: Option<u8>) -> bool {
    &&& new_s.world.wf()
    &&& new_s.world@ == with_on_room(old_s.world@, eid, info)
    &&& new_s.world.next_id() == old_s.world.next_id()
    &&& new_s.config == old_s.config
    &&& room_told(
        old_s.outbox@,
        new_s.outbox@,
        old_s.world@,
        room_of(old_s.world@, eid),
        place_body(reply_op, place_of(old_s.world@, eid), value),
    )
}

fn current_on_room(world: &World, eid: &EntityId) -> (info: OnRoomInfo)
    requires
        world.wf(),
        world@.contains_key(*eid),
        world@[*eid].on_room is Some,
    ensures
        info == on_room_of(world@, *eid),
{
    let entity = world.get(eid).unwrap();
    *entity.get::<OnRoomInfo>().unwrap()
}

/// What `enter_shop` makes of the server `s0` for the client `eid` and the packet
/// `pr`: the server `s1` and the result `r`.
pub open spec fn shop_entered_in_room(s0: Server, s1: Server, eid: EntityId, pr: PacketReader, r: Result<(), HandleError>) -> bool {
    &&& r is Ok
    &&& room_update(s0, s1, eid, OnRoomInfo {
        state_in_room: StateInRoom::Shopping,
        ..on_room_of(s0.world@, eid)
    }, (PACKET_ENTER_SHOP + 1) as u8, None)
}

/// The client goes shopping; its room is told.
fn enter_shop(server: &mut Server, entity_id: &EntityId, _pr: PacketReader) -> (r: Result<(), HandleError>)
    requires
        old(server).world.wf(),
        in_room_ok(old(server).world@, *entity_id),
    ensures
        shop_entered_in_room(*old(server), *final(server), *entity_id, _pr, r),
{
    let info = current_on_room(&server.world, entity_id);
    update_and_notify(server, entity_id, OnRoomInfo { state_in_room: StateInRoom::Shopping, ..info }, PACKET_ENTER_SHOP + 1, None);
    Ok(())
}

/// What `leave_shop` makes of the server `s0` for the client `eid` and the packet
/// `pr`: the server `s1` and the result `r`.
pub open spec fn shop_left(s0: Server, s1: Server, eid: EntityId, pr: PacketReader, r: Result<(), HandleError>) -> bool {
    &&& r is Ok
    &&& room_update(s0, s1, eid, OnRoomInfo {
        state_in_room: StateInRoom::NotReady,
        ..on_room_of(s0.world@, eid)
    }, (PACKET_LEAVE_SHOP + 1) as u8, None)
}

/// The client leaves the shop, not ready; its room is told.
fn leave_shop(server: &mut Server, entity_id: &EntityId, _pr: PacketReader) -> (r: Result<(), HandleError>)
    requires
        old(server).world.wf(),
        in_room_ok(old(server).world@, *entity_id),
    ensures
        shop_left(*old(server), *final(server), *entity_id, _pr, r),
{
    let info = current_on_room(&server.world, entity_id);
    update_and_notify(server, entity_id, OnRoomInfo { state_in_room: StateInRoom::NotReady, ..info }, PACKET_LEAVE_SHOP + 1, None);
    Ok(())
}

/// What `get_ready` makes of the server `s0` for the client `eid` and the packet
/// `pr`: the server `s1` and the result `r`.
pub open spec fn got_ready(s0: Server, s1: Server, eid: EntityId, pr: PacketReader, r: Result<(), HandleError>) -> bool {
    &&& r is Ok
    &&& room_update(s0, s1, eid, OnRoomInfo {
        state_in_room: StateInRoom::Ready,
        ..on_room_of(s0.world@, eid)
    }, (PACKET_GET_READY + 1) as u8, None)
}

/// The client is ready; its room is told.
fn get_ready(server: &mut Server, entity_id: &EntityId, _pr: PacketReader) -> (r: Result<(), HandleError>)
    requires
        old(server).world.wf(),
        in_room_ok(old(server).world@, *entity_id),
    ensures
        got_ready(*old(server), *final(server), *entity_id, _pr, r),
{
    let info = current_on_room(&server.world, entity_id);
    update_and_notify(server, entity_id, OnRoomInfo { state_in_room: StateInRoom::Ready, ..info }, PACKET_GET_READY + 1, None);
    Ok(())
}

/// What `get_not_ready` makes of the server `s0` for the client `eid` and the packet
/// `pr`: the server `s1` and the result `r`.
pub open spec fn got_not_ready(s0: Server, s1: Server, eid: EntityId, pr: PacketReader, r: Result<(), HandleError>) -> bool {
    &&& r is Ok
    &&& room_update(s0, s1, eid, OnRoomInfo {
        state_in_room: StateInRoom::NotReady,
        ..on_room_of(s0.world@, eid)
    }, (PACKET_GET_NOT_READY + 1) as u8, None)
}

/// The client is not ready; its room is told.
fn get_not_ready(server: &mut Server, entity_id: &EntityId, _pr: PacketReader) -> (r: Result<(), HandleError>)
    requires
        old(server).world.wf(),
        in_room_ok(old(server).world@, *entity_id),
    ensures
        got_not_ready(*old(server), *final(server), *entity_id, _pr, r),
{
    let info = current_on_room(&server.world, entity_id);
    update_and_notify(server, entity_id, OnRoomInfo { state_in_room: StateInRoom::NotReady, ..info }, PACKET_GET_NOT_READY + 1, None);
    Ok(())
}

/// What `change_char` makes of the server `s0` for the client `eid` and the packet
/// `pr`: the server `s1` and the result `r`.
pub open spec fn char_changed(s0: Server, s1: Server, eid: EntityId, pr: PacketReader, r: Result<(), HandleError>) -> bool {
    &&& r is Ok
    &&& room_update(s0, s1, eid, OnRoomInfo {
        character: pr.bytes()[pr.pos() as int],
        ..on_room_of(s0.world@, eid)
    }, (PACKET_CHANGE_CHAR + 1) as u8, Some(pr.bytes()[pr.pos() as int]))
}

/// The client picks the character in the packet; its room is told.
fn change_char(server: &mut Server, entity_id: &EntityId, pr: PacketReader) -> (r: Result<(), HandleError>)
    requires
        old(server).world.wf(),
        in_room_ok(old(server).world@, *entity_id),
        pr.pos() + 1 <= pr.bytes().len(),
    ensures
        char_changed(*old(server), *final(server), *entity_id, pr, r),
{
    let mut pr = pr;
    let char_id = pr.u8();
    let info = current_on_room(&server.world, entity_id);
    update_and_notify(server, entity_id, OnRoomInfo { character: char_id, ..info }, PACKET_CHANGE_CHAR + 1, Some(char_id));
    Ok(())
}

/// What `change_team` makes of the server `s0` for the client `eid` and the packet
/// `pr`: the server `s1` and the result `r`.
pub open spec fn team_changed(s0: Server, s1: Server, eid: EntityId, pr: PacketReader, r: Result<(), HandleError>) -> bool {
    &&& r is Ok
    &&& room_update(s0, s1, eid, OnRoomInfo {
        team: pr.bytes()[pr.pos() as int],
        ..on_room_of(s0.world@, eid)
    }, (PACKET_CHANGE_TEAM + 1) as u8, Some(pr.bytes()[pr.pos() as int]))
}

/// The client picks the team in the packet; its room is told.
fn change_team(server: &mut Server, entity_id: &EntityId, pr: PacketReader) -> (r: Result<(), HandleError>)
    requires
        old(server).world.wf(),
        in_room_ok(old(server).world@, *entity_id),
        pr.pos() + 1 <= pr.bytes().len(),
    ensures
        team_changed(*old(server), *final(server), *entity_id, pr, r),
{
    let mut pr = pr;
    let team_id = pr.u8();
    let info = current_on_room(&server.world, entity_id);
    update_and_notify(server, entity_id, OnRoomInfo { team: team_id, ..info }, PACKET_CHANGE_TEAM + 1, Some(team_id));
    Ok(())
}

/// The body that tells a room its new map.
pub open spec fn map_body(map_id: u8) -> Seq<u8> {
    body_prefix((PACKET_CHANGE_MAP + 1) as u8) + seq![map_id]
}

/// The master of the room of `eid` is in an existing place.
pub open spec fn master_ok(w: Map<EntityId, EntityView>, eid: EntityId) -> bool {
    &&& room_info_of(w, eid).master_index < ROOM_SIZE
    &&& room_info_of(w, eid).members@[room_info_of(w, eid).master_index as int] is Some
}

/// What `change_map` makes of the server `s0` for the client `eid` and the packet
/// `pr`: the server `s1` and the result `r`.
pub open spec fn map_changed(s0: Server, s1: Server, eid: EntityId, pr: PacketReader, r: Result<(), HandleError>) -> bool {
    &&& ({
        let w = s0.world@;
        let info = room_info_of(w, eid);
        let room_eid = room_of(w, eid);
        let map_id = pr.bytes()[pr.pos() as int];
        if info.members@[info.master_index as int] == Some(eid) {
            &&& r is Ok
            &&& s1.world.wf()
            &&& s1.world@ == w.insert(room_eid, EntityView {
                room: Some(RoomInfo { map: map_id, ..info }),
                ..w[room_eid]
            })
            &&& room_told(s0.outbox@, s1.outbox@, w, room_eid, map_body(map_id))
        } else {
            &&& r == Err::<(), HandleError>(HandleError::NotRoomMaster)
            &&& s1.world.wf()
            &&& s1.world@ == w
            &&& s1.outbox == s0.outbox
        }
    })
    &&& s1.world.next_id() == s0.world.next_id()
    &&& s1.config == s0.config
}

/// The master of the room changes its map to the one in the packet; its room is
/// told. Another member gets an error and nothing changes.
fn change_map(server: &mut Server, entity_id: &EntityId, pr: PacketReader) -> (r: Result<(), HandleError>)
    requires
        old(server).world.wf(),
        in_room_ok(old(server).world@, *entity_id),
        master_ok(old(server).world@, *entity_id),
        pr.pos() + 1 <= pr.bytes().len(),
    ensures
        map_changed(*old(server), *final(server), *entity_id, pr, r),
{
    let mut pr = pr;
    let map_id = pr.u8();
    let ghost w0 = server.world@;
    let room_entity_id = current_on_room(&server.world, entity_id).room_entity_id;
    {
        let room_entity = server.world.get_mut(&room_entity_id).unwrap();
        let room_info = room_entity.get_mut::<RoomInfo>().unwrap();
        if room_info.members[room_info.master_index].unwrap() != *entity_id {
            assert(server.world@ == w0);
            assert(server.outbox == old(server).outbox);
            assert(server.world.wf());
            return Err(HandleError::NotRoomMaster);
        }
        room_info.map = map_id;
    }
    assert(server.world@[room_entity_id].room->0.members == w0[room_entity_id].room->0.members);
    let mut pw = PacketWriter::new(PACKET_CHANGE_MAP + 1);
    pw.u8(map_id);
    proof {
        assert(pw.bytes() =~= map_body(map_id));
    }
    let pkt = pw.as_vec();
    send_to_room(&server.world, &mut server.outbox, &room_entity_id, &pkt);
    Ok(())
}

/// The last occupied place of `m`; `default` if there is none.
pub open spec fn last_member(m: Seq<Option<EntityId>>, default: nat) -> nat
    decreases m.len(),
{
    if m.len() == 0 {
        default
    } else if m.last() is Some {
        (m.len() - 1) as nat
    } else {
        last_member(m.drop_last(), default)
    }
}

/// A client back in the lobby: its state set and its room state gone.
pub open spec fn lobby_view(e: EntityView) -> EntityView {
    EntityView { state: Some(ClientState::OnLobby), on_room: None, ..e }
}

/// The places of the room of `eid` once it has left.
pub open spec fn exit_members(w: Map<EntityId, EntityView>, eid: EntityId) -> Seq<Option<EntityId>> {
    room_info_of(w, eid).members@.update(place_of(w, eid) as int, None)
}

/// The master place of the room of `eid` once it has left: if it was the master,
/// the last place still occupied, else the master stays.
pub open spec fn exit_master(w: Map<EntityId, EntityView>, eid: EntityId) -> nat {
    let info = room_info_of(w, eid);
    if info.master_index == place_of(w, eid) {
        last_member(exit_members(w, eid), info.master_index as nat)
    } else {
        info.master_index as nat
    }
}

/// The room of `eid` is left empty when it leaves.
pub open spec fn room_emptied(w: Map<EntityId, EntityView>, eid: EntityId) -> bool {
    member_ids(exit_members(w, eid)).len() == 0
}

/// The world once `eid` has left its room: the room is gone if it was left
/// empty, else it is `new_room`; the client is back in the lobby.
pub open spec fn exit_world(w: Map<EntityId, EntityView>, eid: EntityId, new_room: EntityView) -> Map<
    EntityId,
    EntityView,
> {
    let r = room_of(w, eid);
    let w1 = if room_emptied(w, eid) {
        w.remove(r)
    } else {
        w.insert(r, new_room)
    };
    w1.insert(eid, lobby_view(w[eid]))
}

/// `w2` is `w` once the client `eid` has left its room (see `exit_world`): the
/// room, unless left empty, keeps all but its places, which lose `eid`, and its
/// master, which moves as `exit_master` says.
pub open spec fn left_room(w: Map<EntityId, EntityView>, w2: Map<EntityId, EntityView>, eid: EntityId) -> bool {
    let r = room_of(w, eid);
    &&& w2 == exit_world(w, eid, w2[r])
    &&& !room_emptied(w, eid) ==> w2[r] == room_after_exit(w, eid, w2[r].room->0.members) && w2[r].room->0.members@
        == exit_members(w, eid)
}

/// The room entity once `eid` has left it, given the places it ends up with.
pub open spec fn room_after_exit(w: Map<EntityId, EntityView>, eid: EntityId, members: [Option<EntityId>; 8]) -> EntityView {
    EntityView {
        room: Some(RoomInfo {
            members: members,
            master_index: exit_master(w, eid) as usize,
            ..room_info_of(w, eid)
        }),
        ..w[room_of(w, eid)]
    }
}

/// The messages queued when the client `eid` leaves, with `p1` the death packet
/// and `p2` the packet about who left: first, during a game, every member gets
/// `p1`; then, unless the room is left empty, the members that stay get `p2`.
pub open spec fn exit_packets(before: Seq<Outgoing>, after: Seq<Outgoing>, w: Map<EntityId, EntityView>, eid: EntityId, p1: Seq<u8>, p2: Seq<u8>) -> bool {
    let info = room_info_of(w, eid);
    &&& info.is_playing ==> is_packet_of(p1, crate::on_game::death_body(place_of(w, eid)))
    &&& !room_emptied(w, eid) ==> is_packet_of(
        p2,
        crate::packet::leaver_body(place_of(w, eid) as u8, exit_master(w, eid) as u8),
    )
    &&& outbox_view(after) == outbox_view(before) + (if info.is_playing {
        packets_to(member_ids(info.members@), p1)
    } else {
        Seq::empty()
    }) + (if room_emptied(w, eid) {
        Seq::empty()
    } else {
        packets_to(member_ids(exit_members(w, eid)), p2)
    })
}

/// What a room and the client are told when the client `eid` leaves (see `exit_packets`).
pub open spec fn exit_told(before: Seq<Outgoing>, after: Seq<Outgoing>, w: Map<EntityId, EntityView>, eid: EntityId) -> bool {
    exists|p1: Seq<u8>, p2: Seq<u8>| #[trigger] exit_packets(before, after, w, eid, p1, p2)
}

proof fn lemma_last_member(m: Seq<Option<EntityId>>, default: nat)
    ensures
        last_member(m, default) == default || (last_member(m, default) < m.len() && m[last_member(m, default) as int] is Some),
        member_ids(m).len() > 0 ==> last_member(m, default) < m.len() && m[last_member(m, default) as int] is Some,
    decreases m.len(),
{
    if m.len() > 0 && m.last() is None {
        lemma_last_member(m.drop_last(), default);
    }
}

proof fn lemma_member_ids_sub(m: Seq<Option<EntityId>>, i: int)
    requires
        0 <= i < m.len(),
        m[i] is Some,
    ensures
        member_ids(m.update(i, None)).len() < member_ids(m).len() || true,
        forall|k: EntityId| member_ids(m.update(i, None)).contains(k) ==> member_ids(m).contains(k),
{
    lemma_member_ids_contains(m.update(i, None));
    lemma_member_ids_contains(m);
    assert forall|k: EntityId| member_ids(m.update(i, None)).contains(k) implies member_ids(m).contains(k) by {
        let j = choose|j: int| 0 <= j < m.len() && m.update(i, None)[j] == Some(k);
        assert(m[j] == Some(k));
    }
}

/// The ids of the places are exactly the ids held in occupied places.
pub proof fn lemma_member_ids_contains(m: Seq<Option<EntityId>>)
    ensures
        forall|k: EntityId| member_ids(m).contains(k) <==> exists|j: int| 0 <= j < m.len() && m[j] == Some(k),
    decreases m.len(),
{
    if m.len() > 0 {
        lemma_member_ids_contains(m.drop_last());
        assert forall|k: EntityId| member_ids(m).contains(k) <==> exists|j: int| 0 <= j < m.len() && m[j] == Some(k) by {
            if member_ids(m).contains(k) {
                if m.last() is Some && m.last()->0 == k {
                    assert(m[m.len() - 1] == Some(k));
                } else {
                    let ids0 = member_ids(m.drop_last());
                    if m.last() is Some {
                        let t = choose|t: int| 0 <= t < member_ids(m).len() && member_ids(m)[t] == k;
                        assert(member_ids(m) == ids0.push(m.last()->0));
                        assert(t < ids0.len());
                        assert(ids0[t] == k);
                    }
                    assert(ids0.contains(k));
                    let j = choose|j: int| 0 <= j < m.drop_last().len() && m.drop_last()[j] == Some(k);
                    assert(m[j] == Some(k));
                }
            }
            if exists|j: int| 0 <= j < m.len() && m[j] == Some(k) {
                let j = choose|j: int| 0 <= j < m.len() && m[j] == Some(k);
                if j == m.len() - 1 {
                    assert(member_ids(m) == member_ids(m.drop_last()).push(k));
                    assert(member_ids(m)[member_ids(m).len() - 1] == k);
                } else {
                    assert(m.drop_last()[j] == Some(k));
                    let ids0 = member_ids(m.drop_last());
                    assert(ids0.contains(k));
                    let t = choose|t: int| 0 <= t < ids0.len() && ids0[t] == k;
                    if m.last() is Some {
                        assert(member_ids(m) == ids0.push(m.last()->0));
                        assert(member_ids(m)[t] == k);
                    }
                }
            }
        }
    }
}

/// The client `eid` leaves its room. During a game its character dies first. It
/// is taken out of its place; a room left empty is removed, otherwise a master
/// who left is succeeded by the last occupied place and the members that stay are
/// told. The client is back in the lobby.
pub fn handle_exit(server: &mut Server, entity_id: &EntityId)
    requires
        old(server).world.wf(),
        in_room_ok(old(server).world@, *entity_id),
    ensures
        final(server).world.wf(),
        final(server).world.next_id() == old(server).world.next_id(),
        final(server).config == old(server).config,
        left_room(old(server).world@, final(server).world@, *entity_id),
        exit_told(old(server).outbox@, final(server).outbox@, old(server).world@, *entity_id),
{
    let ghost w0 = server.world@;
    let ghost out0 = server.outbox@;
    let room_entity_id = current_on_room(&server.world, entity_id).room_entity_id;
    let is_playing = server.world.get(&room_entity_id).unwrap().get::<RoomInfo>().unwrap().is_playing;
    let ghost mut p1: Seq<u8> = Seq::empty();
    if is_playing {
        crate::on_game::handle_exit(server, entity_id);
        proof {
            p1 = choose|p: Seq<u8>|
                is_packet_of(p, crate::on_game::death_body(place_of(w0, *entity_id))) && outbox_view(
                    server.outbox@,
                ) == outbox_view(out0) + packets_to(member_ids(w0[room_entity_id].room->0.members@), p);
        }
    }
    let ghost out1 = server.outbox@;
    let ghost place = place_of(w0, *entity_id);
    let ghost mut p2: Seq<u8> = Seq::empty();
    proof {
        crate::room::lemma_index_of_member(room_info_of(w0, *entity_id).members@, *entity_id);
        lemma_member_ids_sub(room_info_of(w0, *entity_id).members@, place as int);
        lemma_last_member(exit_members(w0, *entity_id), room_info_of(w0, *entity_id).master_index as nat);
    }
    let world = &mut server.world;
    let room_entity = world.get_mut(&room_entity_id).unwrap();
    let found_index = {
        let room_info = room_entity.get_mut::<RoomInfo>().unwrap();
        let mut found: usize = 0;
        while found < ROOM_SIZE
            invariant
                found <= ROOM_SIZE,
                *room_info == room_info_of(w0, *entity_id),
                place < ROOM_SIZE,
                room_info.members@[place as int] == Some(*entity_id),
                forall|j: int| 0 <= j < found ==> room_info.members@[j] != Some(*entity_id),
            ensures
                found < ROOM_SIZE,
                room_info.members@[found as int] == Some(*entity_id),
                forall|j: int| 0 <= j < found ==> room_info.members@[j] != Some(*entity_id),
            decreases ROOM_SIZE - found,
        {
            if room_info.members[found] == Some(*entity_id) {
                break;
            }
            found = found + 1;
        }
        proof {
            crate::room::lemma_index_of_member_at(room_info.members@, *entity_id, found as int);
        }
        room_info.members[found] = None;
        found
    };
    assert(found_index == place);
    if crate::room::get_user_entity_ids(room_entity).len() == 0 {
        world.remove(&room_entity_id);
        assert(server.world@ =~= w0.remove(room_entity_id));
    } else {
        let room_info = room_entity.get_mut::<RoomInfo>().unwrap();
        let mut master_index = room_info.master_index;
        if master_index == found_index {
            let mut i: usize = 0;
            while i < ROOM_SIZE
                invariant
                    i <= ROOM_SIZE,
                    room_info.members@ == exit_members(w0, *entity_id),
                    master_index == last_member(room_info.members@.subrange(0, i as int), room_info_of(w0, *entity_id).master_index as nat),
                decreases ROOM_SIZE - i,
            {
                proof {
                    assert(room_info.members@.subrange(0, i + 1).drop_last() =~= room_info.members@.subrange(0, i as int));
                }
                if room_info.members[i].is_some() {
                    master_index = i;
                }
                i = i + 1;
            }
            assert(room_info.members@.subrange(0, 8) =~= room_info.members@);
            room_info.master_index = master_index;
        }
        assert(master_index == exit_master(w0, *entity_id));
        let leaver = found_index as u8;
        let master = master_index as u8;
        let pkt = crate::packet::room_notify_leaver_and_master(leaver, master);
        proof { p2 = pkt@; }
        proof {
            let nr = server.world@[room_entity_id];
            let old_info = room_info_of(w0, *entity_id);
            assert forall|i: int| 0 <= i < ROOM_SIZE && #[trigger] nr.room->0.members@[i] is Some implies
                server.world@.contains_key(nr.room->0.members@[i]->0)
                && server.world@[nr.room->0.members@[i]->0].sender is Some by {
                assert(old_info.members@[i] == nr.room->0.members@[i]);
            }
        }
        send_to_room(&server.world, &mut server.outbox, &room_entity_id, &pkt);
    }
    let ghost w2 = server.world@;
    let entity = server.world.get_mut(entity_id).unwrap();
    entity.push(ClientState::OnLobby);
    entity.remove::<OnRoomInfo>();
    proof {
        assert(server.world@ =~= exit_world(w0, *entity_id, server.world@[room_entity_id]));
        let info = room_info_of(w0, *entity_id);
        assert(outbox_view(server.outbox@) =~= outbox_view(out0) + (if info.is_playing {
                packets_to(member_ids(info.members@), p1)
            } else {
                Seq::empty()
            }) + (if room_emptied(w0, *entity_id) {
                Seq::empty()
            } else {
                packets_to(member_ids(exit_members(w0, *entity_id)), p2)
            }));
        assert(info.is_playing ==> is_packet_of(p1, crate::on_game::death_body(place_of(w0, *entity_id))));
        assert(!room_emptied(w0, *entity_id) ==> is_packet_of(
            p2,
            crate::packet::leaver_body(place_of(w0, *entity_id) as u8, exit_master(w0, *entity_id) as u8),
        ));
        assert(exit_packets(out0, server.outbox@, w0, *entity_id, p1, p2));
    }
}

/// Past the last occupied place that `last_member` finds, every place is empty.
proof fn lemma_last_member_is_last(m: Seq<Option<EntityId>>, default: nat)
    requires
        member_ids(m).len() > 0,
    ensures
        forall|j: int| last_member(m, default) < j < m.len() ==> #[trigger] m[j] is None,
    decreases m.len(),
{
    if m.last() is None {
        lemma_last_member_is_last(m.drop_last(), default);
        assert forall|j: int| last_member(m, default) < j < m.len() implies #[trigger] m[j] is None by {
            if j < m.len() - 1 {
                assert(m.drop_last()[j] == m[j]);
            }
        }
    }
}

/// When the master leaves a room in which someone else stays, the master role
/// passes to the last place still occupied: that place holds a member and every
/// place after it is empty. The leaver's place is emptied and every other place
/// keeps its member.
pub proof fn law_master_passes_to_last_place(w: Map<EntityId, EntityView>, w2: Map<EntityId, EntityView>, eid: EntityId)
    requires
        in_room_ok(w, eid),
        left_room(w, w2, eid),
        room_info_of(w, eid).master_index == place_of(w, eid),
        exists|j: int|
            0 <= j < ROOM_SIZE && #[trigger] room_info_of(w, eid).members@[j] is Some && j != place_of(w, eid),
    ensures
        ({
            let r = room_of(w, eid);
            let m = room_info_of(w, eid).members@;
            let m2 = w2[r].room->0.members@;
            let master = w2[r].room->0.master_index;
            &&& w2.contains_key(r)
            &&& w2[r].room is Some
            &&& m2[place_of(w, eid) as int] is None
            &&& forall|j: int| 0 <= j < ROOM_SIZE && j != place_of(w, eid) ==> #[trigger] m2[j] == m[j]
            &&& master < ROOM_SIZE
            &&& m2[master as int] is Some
            &&& forall|j: int| master < j < ROOM_SIZE ==> #[trigger] m2[j] is None
        }),
{
    let r = room_of(w, eid);
    let m = room_info_of(w, eid).members@;
    let place = place_of(w, eid);
    crate::room::lemma_index_of_member(m, eid);
    let em = exit_members(w, eid);
    let j = choose|j: int| 0 <= j < ROOM_SIZE && #[trigger] m[j] is Some && j != place;
    assert(em[j] == m[j]);
    assert(em[j] == Some(m[j]->0));
    lemma_member_ids_contains(em);
    assert(member_ids(em).contains(m[j]->0));
    assert(!room_emptied(w, eid));
    lemma_last_member(em, room_info_of(w, eid).master_index as nat);
    lemma_last_member_is_last(em, room_info_of(w, eid).master_index as nat);
    assert(w2[r] == room_after_exit(w, eid, w2[r].room->0.members));
    assert(w2[r].room->0.members@ == em);
}

/// What `kick` makes of the server `s0` for the client `eid` and the packet
/// `pr`: the server `s1` and the result `r`.
pub open spec fn kicked(s0: Server, s1: Server, eid: EntityId, pr: PacketReader, r: Result<(), HandleError>) -> bool {
    &&& r is Ok
    &&& ({
        let w = s0.world@;
        let target = room_info_of(w, eid).members@[pr.bytes()[pr.pos() as int] as int]->0;
        &&& s1.world.wf()
        &&& left_room(w, s1.world@, target)
        &&& exists|mid: Seq<Outgoing>, p: Seq<u8>|
            exit_told(s0.outbox@, mid, w, target) && is_packet_of(p, crate::packet::leaver_body(0xff, 0))
                && #[trigger] outbox_view(s1.outbox@) == outbox_view(mid).push((target, Some(p)))
    })
    &&& s1.config == s0.config
    &&& s1.world.next_id() == s0.world.next_id()
}

/// The client in place `index` of the room of `entity_id` is sent back to the lobby
/// (see `handle_exit`) and told so. Any member may kick another.
fn kick(server: &mut Server, entity_id: &EntityId, pr: PacketReader) -> (r: Result<(), HandleError>)
    requires
        old(server).world.wf(),
        in_room_ok(old(server).world@, *entity_id),
        pr.pos() + 1 <= pr.bytes().len(),
        kick_target_ok(old(server).world@, *entity_id, pr.bytes()[pr.pos() as int]),
    ensures
        kicked(*old(server), *final(server), *entity_id, pr, r),
{
    let mut pr = pr;
    let index_in_room_to_kick = pr.u8() as usize;
    let room_entity_id = current_on_room(&server.world, entity_id).room_entity_id;
    let entity_id_to_kick = {
        let room_entity = server.world.get(&room_entity_id).unwrap();
        let room_info = room_entity.get::<RoomInfo>().unwrap();
        room_info.members[index_in_room_to_kick].unwrap()
    };
    let ghost w0 = server.world@;
    assert(room_info_of(w0, *entity_id).members@[index_in_room_to_kick as int] is Some);
    assert(w0[entity_id_to_kick].sender is Some);
    handle_exit(server, &entity_id_to_kick);
    assert(server.world@[entity_id_to_kick] == lobby_view(w0[entity_id_to_kick]));
    let ghost mid = server.outbox@;
    let pkt = crate::packet::room_leave_to_lobby();
    let entity = server.world.get(&entity_id_to_kick).unwrap();
    crate::session::send(&mut server.outbox, entity, pkt);
    Ok(())
}

/// The place `index` of the room of `eid` holds a client that is in that room.
pub open spec fn kick_target_ok(w: Map<EntityId, EntityView>, eid: EntityId, index: u8) -> bool {
    &&& index < ROOM_SIZE
    &&& room_info_of(w, eid).members@[index as int] is Some
    &&& in_room_ok(w, room_info_of(w, eid).members@[index as int]->0)
    &&& room_of(w, room_info_of(w, eid).members@[index as int]->0) == room_of(w, eid)
}

/// What `exit_room` makes of the server `s0` for the client `eid` and the packet
/// `pr`: the server `s1` and the result `r`.
pub open spec fn room_exited(s0: Server, s1: Server, eid: EntityId, pr: PacketReader, r: Result<(), HandleError>) -> bool {
    &&& r is Ok
    &&& ({
        let w = s0.world@;
        &&& s1.world.wf()
        &&& left_room(w, s1.world@, eid)
        &&& exists|mid: Seq<Outgoing>, p: Seq<u8>|
            exit_told(s0.outbox@, mid, w, eid) && is_packet_of(p, crate::packet::leaver_body(0xff, 0))
                && #[trigger] outbox_view(s1.outbox@) == outbox_view(mid).push((eid, Some(p)))
    })
    &&& s1.config == s0.config
    &&& s1.world.next_id() == s0.world.next_id()
}

/// The client leaves its room (see `handle_exit`) and is told to go to the lobby.
fn exit_room(server: &mut Server, entity_id: &EntityId, _pr: PacketReader) -> (r: Result<(), HandleError>)
    requires
        old(server).world.wf(),
        in_room_ok(old(server).world@, *entity_id),
    ensures
        room_exited(*old(server), *final(server), *entity_id, _pr, r),
{
    let ghost w0 = server.world@;
    proof {
        crate::room::lemma_index_of_member(room_info_of(w0, *entity_id).members@, *entity_id);
        assert(room_info_of(w0, *entity_id).members@[place_of(w0, *entity_id) as int] is Some);
    }
    handle_exit(server, entity_id);
    assert(server.world@[*entity_id] == lobby_view(w0[*entity_id]));
    let pkt = crate::packet::room_leave_to_lobby();
    let entity = server.world.get(entity_id).unwrap();
    crate::session::send(&mut server.outbox, entity, pkt);
    Ok(())
}

/// Calls `rand::random::<u8>()` for a map or character drawn at random.
fn random_below(n: u8) -> (r: u8)
    requires
        n > 0,
    ensures
        r < n,
{
    crate::writer::random_u8() % n
}

/// The eight bytes of a place in the packet that starts a game: its start
/// position and character if it is occupied, zeros otherwise.
pub open spec fn start_row(present: bool, pos: usize, ch: u8) -> Seq<u8> {
    if present {
        seq![0u8, pos as u8, ch, 0u8] + le32(0)
    } else {
        zeros(8)
    }
}

/// The rows of the first `n` places.
pub open spec fn start_rows(m: Seq<Option<EntityId>>, pos: Seq<usize>, chars: Seq<u8>, n: nat) -> Seq<u8>
    decreases n,
{
    if n == 0 {
        Seq::<u8>::empty()
    } else {
        start_rows(m, pos, chars, (n - 1) as nat) + start_row(m[n - 1] is Some, pos[n - 1], chars[n - 1])
    }
}

/// The body that starts a game on `map`.
pub open spec fn start_body(map: u8, m: Seq<Option<EntityId>>, pos: Seq<usize>, chars: Seq<u8>) -> Seq<u8> {
    body_prefix((PACKET_START_GAME + 1) as u8) + seq![map] + zeros(3) + start_rows(m, pos, chars, 8)
}

/// The map of the game: the room's map, or one drawn at random if the room asks for it.
pub open spec fn map_drawn(room_map: u8, map: u8) -> bool {
    if room_map == MAP_RANDOM_ID {
        map < MAX_MAP_ID
    } else {
        map == room_map
    }
}

/// The characters of the game: each member's pick, or one drawn at random.
pub open spec fn chars_drawn(w: Map<EntityId, EntityView>, m: Seq<Option<EntityId>>, chars: Seq<u8>) -> bool {
    &&& chars.len() == 8
    &&& forall|i: int|
        0 <= i < 8 && #[trigger] m[i] is Some ==> if w[m[i]->0].on_room->0.character == CHAR_RANDOM_ID {
            chars[i] < MAX_CHAR_ID
        } else {
            chars[i] == w[m[i]->0].on_room->0.character
        }
}

/// The start positions: eight different positions out of sixteen.
pub open spec fn positions_drawn(pos: Seq<usize>) -> bool {
    &&& pos.len() == 8
    &&& pos.no_duplicates()
    &&& forall|i: int| 0 <= i < 8 ==> #[trigger] pos[i] < 16
}

/// The members of the room of `eid` were told that the game starts with `map`,
/// start positions `pos` and characters `chars`.
pub open spec fn start_told(
    before: Seq<Outgoing>,
    after: Seq<Outgoing>,
    w: Map<EntityId, EntityView>,
    eid: EntityId,
    map: u8,
    pos: Seq<usize>,
    chars: Seq<u8>,
) -> bool {
    let m = room_info_of(w, eid).members@;
    &&& map_drawn(room_info_of(w, eid).map, map)
    &&& positions_drawn(pos)
    &&& chars_drawn(w, m, chars)
    &&& told(before, after, member_ids(m), start_body(map, m, pos, chars))
}

/// The game of a room that has just started: nobody has loaded, the first
/// turn is at the head of `turn_table`, and no character has values yet.
pub open spec fn new_game(room_eid: EntityId, turn_table: Seq<usize>, g: GameInfo) -> bool {
    &&& g.room_eid == room_eid
    &&& g.load_table@ == Seq::new(8, |i: int| false)
    &&& g.turn_table@ == turn_table
    &&& g.turn_index == 0
    &&& g.player_infos@ == Seq::new(8, |i: int| PlayerInfo { delay: 0, hp: 0, x: 0, y: 0 })
}

/// Eight different start positions out of sixteen, at random.
fn draw_positions() -> (pos: Vec<usize>)
    ensures
        positions_drawn(pos@),
{
    broadcast use vstd::seq_lib::group_to_multiset_ensures;
    let mut all: Vec<usize> = Vec::new();
    let mut i: usize = 0;
    while i < 16
        invariant
            i <= 16,
            all@ == Seq::new(i as nat, |k: int| k as usize),
        decreases 16 - i,
    {
        all.push(i);
        i = i + 1;
        assert(all@ =~= Seq::new(i as nat, |k: int| k as usize));
    }
    let ghost all0 = all@;
    assert(all0.no_duplicates());
    crate::turn_table::shuffle(&mut all);
    proof {
        all0.lemma_multiset_has_no_duplicates();
        vstd::seq_lib::to_multiset_len(all0);
        vstd::seq_lib::to_multiset_len(all@);
        assert forall|x: usize| all@.to_multiset().contains(x) implies all@.to_multiset().count(x) == 1 by {
            assert(all0.to_multiset().contains(x));
        }
        all@.lemma_multiset_has_no_duplicates_conv();
        assert forall|k: int| 0 <= k < all@.len() implies #[trigger] all@[k] < 16 by {
            assert(all@.contains(all@[k]));
            assert(all@.to_multiset().count(all@[k]) > 0);
            assert(all0.to_multiset().count(all@[k]) > 0);
            assert(all0.contains(all@[k]));
        }
    }
    let mut pos: Vec<usize> = Vec::new();
    let mut j: usize = 0;
    while j < 8
        invariant
            j <= 8,
            all@.len() == 16,
            all@.no_duplicates(),
            forall|k: int| 0 <= k < all@.len() ==> #[trigger] all@[k] < 16,
            pos@ == all@.subrange(0, j as int),
        decreases 8 - j,
    {
        pos.push(all[j]);
        j = j + 1;
        assert(pos@ =~= all@.subrange(0, j as int));
    }
    pos
}

/// What `start_game` makes of the server `s0` for the client `eid` and the packet
/// `pr`: the server `s1` and the result `r`.
pub open spec fn game_started(s0: Server, s1: Server, eid: EntityId, pr: PacketReader, r: Result<(), HandleError>) -> bool {
    &&& r is Ok
    &&& s1.config == s0.config
    &&& s1.now == s0.now
    &&& s1.world.wf()
    &&& s1.world.next_id() == s0.world.next_id() + 1
    &&& exists|map: u8, pos: Seq<usize>, chars: Seq<u8>|
        #[trigger] start_told(s0.outbox@, s1.outbox@, s0.world@, eid, map, pos, chars)
    &&& ({
        let w = s0.world@;
        let w2 = s1.world@;
        let room_eid = room_of(w, eid);
        let m = room_info_of(w, eid).members@;
        let ids = member_ids(m);
        let ws = with_states(w, ids, ClientState::OnGame);
        let id = s0.world.next_id();
        &&& w2[room_eid].game is Some
        &&& new_game(room_eid, w2[room_eid].game->0.turn_table@, w2[room_eid].game->0)
        &&& w2[room_eid].game->0.turn_table@.to_multiset() == occupied_places(m, 8).to_multiset()
        &&& exists|order: Seq<usize>, qs: Seq<Seq<usize>>|
            #[trigger] turn_table_of(w, m, order, qs, w2[room_eid].game->0.turn_table@)
        &&& w2 == ws.insert(
            room_eid,
            EntityView {
                room: Some(RoomInfo { is_playing: true, ..w[room_eid].room->0 }),
                game: w2[room_eid].game,
                ..ws[room_eid]
            },
        ).insert(
            id,
            timer_entity(id, LOOP_PERIOD, TimerTask::Loading { room_eid: room_eid, started: s0.now }, s0.now),
        )
    })
}

/// The room's master starts the game. The members are told the map (drawn at
/// random if the room asks for it), their start positions (eight different ones
/// out of sixteen, at random) and characters (drawn at random where a member
/// asks for it). The room gets a game whose turn table holds each occupied place
/// once, the room is playing, its members are in the game, and a timer starts
/// waiting, from now on, for them to load it.
#[verifier::spinoff_prover]
fn start_game(server: &mut Server, entity_id: &EntityId, _pr: PacketReader) -> (r: Result<(), HandleError>)
    requires
        old(server).world.wf(),
        old(server).world.next_id() < u64::MAX,
        in_room_ok(old(server).world@, *entity_id),
        teams_ok(old(server).world@, room_info_of(old(server).world@, *entity_id)),
    ensures
        game_started(*old(server), *final(server), *entity_id, _pr, r),
{
    let ghost w = server.world@;
    let ghost o0 = server.outbox@;
    proof {
        server.world.lemma_views();
    }
    let room_eid = {
        let entity = world_get(&server.world, entity_id);
        entity.get::<OnRoomInfo>().unwrap().room_entity_id
    };
    let ghost m = w[room_eid].room->0.members@;
    let room = server.world.get(&room_eid).unwrap();
    let room_info = room.get::<RoomInfo>().unwrap();
    let map_id = if room_info.map == MAP_RANDOM_ID {
        random_below(MAX_MAP_ID)
    } else {
        room_info.map
    };
    let initial_positions = draw_positions();
    let mut chars: Vec<u8> = Vec::new();
    let mut pw = PacketWriter::new(PACKET_START_GAME + 1);
    pw.u8(map_id).pad_to(12);
    let ghost head = pw.bytes();
    assert(head =~= body_prefix((PACKET_START_GAME + 1) as u8) + seq![map_id] + zeros(3));
    let mut i: usize = 0;
    while i < 8
        invariant
            i <= 8,
            server.world.wf(),
            w == server.world@,
            *room_info == w[room_eid].room->0,
            m == room_info.members@,
            teams_ok(w, *room_info),
            positions_drawn(initial_positions@),
            chars@.len() == i,
            pw.op() == PACKET_START_GAME + 1,
            pw.bytes() == head + start_rows(m, initial_positions@, chars@, i as nat),
            forall|k: int|
                0 <= k < i && #[trigger] m[k] is Some ==> if w[m[k]->0].on_room->0.character == CHAR_RANDOM_ID {
                    chars@[k] < MAX_CHAR_ID
                } else {
                    chars@[k] == w[m[k]->0].on_room->0.character
                },
        decreases 8 - i,
    {
        let ghost c0 = chars@;
        if let Some(member_entity_id) = room_info.members[i] {
            let member = server.world.get(&member_entity_id).unwrap();
            let on_room_info = member.get::<OnRoomInfo>().unwrap();
            let char_id = if on_room_info.character == CHAR_RANDOM_ID {
                random_below(MAX_CHAR_ID)
            } else {
                on_room_info.character
            };
            chars.push(char_id);
            let initial_pos = initial_positions[i];
            pw.u8(0).u8(initial_pos as u8).u8(char_id).u8(0).u32(0);
        } else {
            chars.push(0);
            pw.pad(8);
        }
        proof {
            assert forall|k: int| 0 <= k < i ==> chars@[k] == c0[k] by {}
            assert(start_rows(m, initial_positions@, chars@, i as nat) == start_rows(m, initial_positions@, c0, i as nat)) by {
                lemma_start_rows_prefix(m, initial_positions@, chars@, c0, i as nat);
            }
        }
        i = i + 1;
        assert(pw.bytes() =~= head + start_rows(m, initial_positions@, chars@, i as nat));
    }
    assert(pw.bytes() =~= start_body(map_id, m, initial_positions@, chars@));
    let pkt = pw.as_vec();
    send_to_room(&server.world, &mut server.outbox, &room_eid, &pkt);
    assert(start_told(o0, server.outbox@, w, *entity_id, map_id, initial_positions@, chars@));
    let turn_table = get_turn_table(&server.world, room_info);
    let ghost tt = turn_table@;
    assert(exists|order: Seq<usize>, qs: Seq<Seq<usize>>| #[trigger] turn_table_of(w, m, order, qs, tt));
    let game_info = GameInfo {
        room_eid: room_eid,
        load_table: [false, false, false, false, false, false, false, false],
        turn_table: turn_table,
        turn_index: 0,
        player_infos: [PlayerInfo::default(), PlayerInfo::default(), PlayerInfo::default(), PlayerInfo::default(),
            PlayerInfo::default(), PlayerInfo::default(), PlayerInfo::default(), PlayerInfo::default()],
    };
    assert(game_info.load_table@ =~= Seq::new(8, |i: int| false));
    assert(game_info.player_infos@ =~= Seq::new(8, |i: int| PlayerInfo { delay: 0, hp: 0, x: 0, y: 0 }));
    let ids = get_user_entity_ids(room);
    proof {
        lemma_member_ids_contains(m);
        assert forall|k: int| 0 <= k < ids@.len() implies w.contains_key(#[trigger] ids@[k]) by {
            assert(member_ids(m).contains(ids@[k]));
            let j = choose|j: int| 0 <= j < m.len() && m[j] == Some(ids@[k]);
            assert(m[j] is Some);
        }
    }
    set_states(&mut server.world, &ids, ClientState::OnGame);
    let ghost ws = server.world@;
    assert(ws == with_states(w, member_ids(m), ClientState::OnGame));
    assert(ws[room_eid].room == w[room_eid].room);
    {
        let room = server.world.get_mut(&room_eid).unwrap();
        room.push(game_info);
        let room_info = room.get_mut::<RoomInfo>().unwrap();
        room_info.is_playing = true;
    }
    let ghost w2 = server.world@;
    assert(w2[room_eid].game == Some(game_info));
    assert(w2 == ws.insert(room_eid, EntityView {
        room: Some(RoomInfo { is_playing: true, ..w[room_eid].room->0 }),
        game: Some(game_info),
        ..ws[room_eid]
    }));
    let now = server.now;
    loop_loading(&mut server.world, room_eid, now);
    assert(start_told(o0, server.outbox@, w, *entity_id, map_id, initial_positions@, chars@));
    assert(server.world@[room_eid].game->0.turn_table@ == tt);
    Ok(())
}

/// Rows of places below `n` depend only on the characters below `n`.
proof fn lemma_start_rows_prefix(m: Seq<Option<EntityId>>, pos: Seq<usize>, c1: Seq<u8>, c2: Seq<u8>, n: nat)
    requires
        forall|k: int| 0 <= k < n ==> c1[k] == c2[k],
    ensures
        start_rows(m, pos, c1, n) == start_rows(m, pos, c2, n),
    decreases n,
{
    if n > 0 {
        lemma_start_rows_prefix(m, pos, c1, c2, (n - 1) as nat);
    }
}

/// The entity `eid`, which exists.
fn world_get<'a>(world: &'a World, eid: &EntityId) -> (e: &'a Entity)
    requires
        world.wf(),
        world@.contains_key(*eid),
    ensures
        e@ == world@[*eid],
{
    world.get(eid).unwrap()
}

/// What a packet from a client in a room needs, by its opcode.
pub open spec fn room_packet_ok(world: &World, eid: EntityId, pr: PacketReader) -> bool {
    let w = world@;
    let op = pr.op();
    let b = pr.bytes();
    let at = pr.pos();
    &&& op == PACKET_CHAT ==> lobby_packet_ok(world, eid, pr)
    &&& op != PACKET_CHAT ==> in_room_ok(w, eid)
    &&& (op == PACKET_CHANGE_CHAR || op == PACKET_CHANGE_TEAM || op == PACKET_CHANGE_MAP || op == PACKET_KICK) ==> at + 1 <= b.len()
    &&& op == PACKET_CHANGE_MAP ==> master_ok(w, eid)
    &&& op == PACKET_KICK ==> at + 1 <= b.len() && kick_target_ok(w, eid, b[at as int])
    &&& op == PACKET_START_GAME ==> world.next_id() < u64::MAX && teams_ok(w, room_info_of(w, eid))
}

/// What `handle` makes of the server `s0` for a packet `pr` from the client `eid`
/// in a room: the server `s1` and the result `r`.
pub open spec fn room_handled(s0: Server, s1: Server, eid: EntityId, pr: PacketReader, r: Result<(), HandleError>) -> bool {
    &&& s1.config == s0.config
    &&& s1.world.wf()
    &&& pr.op() == PACKET_CHAT ==> s1.world == s0.world && lobby_chat_result(
        &s0.world,
        eid,
        pr.bytes(),
        pr.pos() as int,
        s0.outbox@,
        s1.outbox@,
        r,
    )
    &&& pr.op() == PACKET_ENTER_SHOP ==> shop_entered_in_room(s0, s1, eid, pr, r)
    &&& pr.op() == PACKET_LEAVE_SHOP ==> shop_left(s0, s1, eid, pr, r)
    &&& pr.op() == PACKET_CHANGE_MAP ==> map_changed(s0, s1, eid, pr, r)
    &&& pr.op() == PACKET_CHANGE_CHAR ==> char_changed(s0, s1, eid, pr, r)
    &&& pr.op() == PACKET_CHANGE_TEAM ==> team_changed(s0, s1, eid, pr, r)
    &&& pr.op() == PACKET_GET_READY ==> got_ready(s0, s1, eid, pr, r)
    &&& pr.op() == PACKET_GET_NOT_READY ==> got_not_ready(s0, s1, eid, pr, r)
    &&& pr.op() == PACKET_START_GAME ==> game_started(s0, s1, eid, pr, r)
    &&& pr.op() == PACKET_EXIT_ROOM ==> room_exited(s0, s1, eid, pr, r)
    &&& pr.op() == PACKET_KICK ==> kicked(s0, s1, eid, pr, r)
    &&& pr.op() != PACKET_CHAT && pr.op() != PACKET_ENTER_SHOP && pr.op() != PACKET_LEAVE_SHOP && pr.op() != PACKET_CHANGE_MAP
        && pr.op() != PACKET_CHANGE_CHAR && pr.op() != PACKET_CHANGE_TEAM && pr.op() != PACKET_GET_READY && pr.op()
        != PACKET_GET_NOT_READY && pr.op() != PACKET_START_GAME && pr.op() != PACKET_EXIT_ROOM && pr.op() != PACKET_KICK
        ==> r is Ok && s1 == s0
}

/// Handles a packet from a client in a room, by its opcode; other opcodes are
/// ignored. A chat line is handled as in the lobby.
pub fn handle(server: &mut Server, entity_id: &EntityId, pr: PacketReader) -> (r: Result<(), HandleError>)
    requires
        old(server).world.wf(),
        room_packet_ok(&old(server).world, *entity_id, pr),
    ensures
        room_handled(*old(server), *final(server), *entity_id, pr, r),
{
    let op = pr.opcode();
    if op == PACKET_CHAT {
        crate::on_lobby::on_chat(server, entity_id, pr)
    } else if op == PACKET_ENTER_SHOP {
        enter_shop(server, entity_id, pr)
    } else if op == PACKET_LEAVE_SHOP {
        leave_shop(server, entity_id, pr)
    } else if op == PACKET_CHANGE_MAP {
        change_map(server, entity_id, pr)
    } else if op == PACKET_CHANGE_CHAR {
        change_char(server, entity_id, pr)
    } else if op == PACKET_CHANGE_TEAM {
        change_team(server, entity_id, pr)
    } else if op == PACKET_GET_READY {
        get_ready(server, entity_id, pr)
    } else if op == PACKET_GET_NOT_READY {
        get_not_ready(server, entity_id, pr)
    } else if op == PACKET_START_GAME {
        start_game(server, entity_id, pr)
    } else if op == PACKET_EXIT_ROOM {
        exit_room(server, entity_id, pr)
    } else if op == PACKET_KICK {
        kick(server, entity_id, pr)
    } else {
        Ok(())
    }
}

} // verus!
