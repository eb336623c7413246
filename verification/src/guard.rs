//! Checks that the world holds what a handler relies on, made before a packet,
//! a timer or a disconnection is handled.
use vstd::prelude::*;
use crate::after_login::{
    after_login_packet_ok, PACKET_CHANGE_NICKNAME, PACKET_ENTER_BOARD, PACKET_ENTER_LOBBY, PACKET_READ_ARTICLE,
    PACKET_REQUEST_NOTICE, PACKET_REQUEST_TICKER, PACKET_UPDATE_SETTINGS, PACKET_WRITE_ARTICLE,
};
use crate::before_login::PACKET_LOGIN;
use crate::component::{
    AfterLoginInfo, ClientState, EntityId, EntityKind, GameInfo, MsgToConnSender, OnRoomInfo, PongInfo, RoomInfo,
    RoomState, TimerInfo, TimerTask, ROOM_SIZE,
};
use crate::login::packet_ok;
use crate::object::{Entity, EntityView, World};
use crate::on_game::{
    alive_places, anyone_alive, check_if_load_finished, game_ok, game_packet_ok, game_running, members_in_room,
    LOADING_LIMIT, PACKET_END_LOADING, PACKET_END_TURN, PACKET_ON_FRAME, PACKET_USE_ITEM, TURN_LIMIT,
};
use crate::on_lobby::{
    all_rooms_listable, find_room_by_uid, lobby_packet_ok, logged_reachable, members_showable, room_reachable,
    state_reachable, try_get_new_room_id, PACKET_CHAT, PACKET_CREATE_ROOM, PACKET_ENTER_ROOM,
    PACKET_REQUEST_ROOM_LIST, PACKET_REQUEST_USER_LIST,
};
use crate::on_room::{
    kick_target_ok, room_packet_ok, PACKET_CHANGE_CHAR, PACKET_CHANGE_MAP, PACKET_CHANGE_TEAM, PACKET_KICK,
    PACKET_START_GAME,
};
use crate::packet::rooms_listable;
use crate::reader::PacketReader;
use crate::room::{acceptable, first_empty, get_index_in_room, get_room_state, lemma_first_empty, members_reachable};
use crate::server::{in_room_ok, room_info_of, Server};
use crate::timer::{is_runnable, stale, stale_reachable, tick_ok};
use crate::turn_table::teams_ok;

verus! {

/// Whether `k` is an entity with a connection.
pub fn has_sender(world: &World, k: &EntityId) -> (b: bool)
    requires
        world.wf(),
    ensures
        b == (world@.contains_key(*k) && world@[*k].sender is Some),
{
    match world.get(k) {
        Ok(e) => e.get::<MsgToConnSender>().is_ok(),
        Err(_) => false,
    }
}

/// Whether every member of the room with `info` is an entity with a connection.
pub fn check_members_reachable(world: &World, info: &RoomInfo) -> (b: bool)
    requires
        world.wf(),
    ensures
        b == members_reachable(world@, *info),
{
    let mut i: usize = 0;
    while i < ROOM_SIZE
        invariant
            world.wf(),
            i <= ROOM_SIZE,
            forall|j: int| 0 <= j < i && #[trigger] info.members@[j] is Some ==> world@.contains_key(
                info.members@[j]->0,
            ) && world@[info.members@[j]->0].sender is Some,
        decreases ROOM_SIZE - i,
    {
        if let Some(m) = info.members[i] {
            if !has_sender(world, &m) {
                return false;
            }
        }
        i = i + 1;
    }
    true
}

/// Whether the client `eid` is in a room that exists, holds it as a member,
/// and whose members all have a connection.
pub fn check_in_room(world: &World, eid: &EntityId) -> (b: bool)
    requires
        world.wf(),
    ensures
        b == in_room_ok(world@, *eid),
{
    let entity = match world.get(eid) {
        Ok(e) => e,
        Err(_) => return false,
    };
    let room_eid = match entity.get::<OnRoomInfo>() {
        Ok(info) => info.room_entity_id,
        Err(_) => return false,
    };
    if room_eid == *eid {
        return false;
    }
    let room = match world.get(&room_eid) {
        Ok(r) => r,
        Err(_) => return false,
    };
    let info = match room.get::<RoomInfo>() {
        Ok(info) => info,
        Err(_) => return false,
    };
    if get_index_in_room(room, eid).is_none() {
        return false;
    }
    check_members_reachable(world, info)
}

/// Whether every client that has logged in has a connection.
pub fn check_logged_reachable(world: &World) -> (b: bool)
    requires
        world.wf(),
    ensures
        b == logged_reachable(world@),
{
    let es = world.values();
    let mut i: usize = 0;
    while i < es.len()
        invariant
            world.wf(),
            es@.len() == world.views().len(),
            forall|j: int| 0 <= j < es@.len() ==> #[trigger] es@[j]@ == world.views()[j],
            i <= es@.len(),
            forall|j: int| 0 <= j < i ==> (#[trigger] world.views()[j]).login is Some ==> world.views()[j].sender is Some,
        decreases es@.len() - i,
    {
        let e = es[i];
        if e.get::<AfterLoginInfo>().is_ok() && e.get::<MsgToConnSender>().is_err() {
            proof {
                world.lemma_views();
                assert(world@.contains_key(world.views()[i as int].id));
            }
            return false;
        }
        i = i + 1;
    }
    proof {
        world.lemma_forall_views(|e: EntityView| e.login is Some ==> e.sender is Some);
    }
    true
}

/// Whether every client in session state `st` has a connection.
pub fn check_state_reachable(world: &World, st: ClientState) -> (b: bool)
    requires
        world.wf(),
    ensures
        b == state_reachable(world@, st),
{
    let es = world.values();
    let mut i: usize = 0;
    while i < es.len()
        invariant
            world.wf(),
            es@.len() == world.views().len(),
            forall|j: int| 0 <= j < es@.len() ==> #[trigger] es@[j]@ == world.views()[j],
            i <= es@.len(),
            forall|j: int|
                0 <= j < i ==> (#[trigger] world.views()[j]).state == Some(st) ==> world.views()[j].sender is Some,
        decreases es@.len() - i,
    {
        let e = es[i];
        let in_state = match e.get::<ClientState>() {
            Ok(s) => *s == st,
            Err(_) => false,
        };
        if in_state && e.get::<MsgToConnSender>().is_err() {
            proof {
                world.lemma_views();
                assert(world@.contains_key(world.views()[i as int].id));
            }
            return false;
        }
        i = i + 1;
    }
    proof {
        world.lemma_forall_views(|e: EntityView| e.state == Some(st) ==> e.sender is Some);
    }
    true
}

/// Whether every client that has not answered since the last check has a
/// connection.
pub fn check_stale_reachable(world: &World) -> (b: bool)
    requires
        world.wf(),
    ensures
        b == stale_reachable(world@),
{
    let es = world.values();
    let mut i: usize = 0;
    while i < es.len()
        invariant
            world.wf(),
            es@.len() == world.views().len(),
            forall|j: int| 0 <= j < es@.len() ==> #[trigger] es@[j]@ == world.views()[j],
            i <= es@.len(),
            forall|j: int| 0 <= j < i ==> stale(#[trigger] world.views()[j]) ==> world.views()[j].sender is Some,
        decreases es@.len() - i,
    {
        let e = es[i];
        let is_client = match e.get::<EntityKind>() {
            Ok(k) => *k == EntityKind::Client,
            Err(_) => false,
        };
        let unanswered = match e.get::<PongInfo>() {
            Ok(p) => !p.0,
            Err(_) => false,
        };
        if is_client && unanswered && e.get::<MsgToConnSender>().is_err() {
            proof {
                world.lemma_views();
                assert(world@.contains_key(world.views()[i as int].id));
            }
            return false;
        }
        i = i + 1;
    }
    proof {
        world.lemma_forall_views(|e: EntityView| stale(e) ==> e.sender is Some);
    }
    true
}

/// The members of the room `e`, where it is one, that exist have logged in.
pub open spec fn room_listable(w: Map<EntityId, EntityView>, e: EntityView) -> bool {
    e.room is Some ==> rooms_listable(w, seq![e])
}

/// Whether each member of the room `e` that exists has logged in.
fn check_room_listable(world: &World, e: &Entity) -> (b: bool)
    requires
        world.wf(),
    ensures
        b == room_listable(world@, e@),
{
    let info = match e.get::<RoomInfo>() {
        Ok(info) => info,
        Err(_) => return true,
    };
    let ghost x = e@;
    let mut i: usize = 0;
    while i < ROOM_SIZE
        invariant
            world.wf(),
            x == e@,
            x.room == Some(*info),
            i <= ROOM_SIZE,
            forall|j: int|
                0 <= j < i && #[trigger] info.members@[j] is Some && world@.contains_key(info.members@[j]->0)
                    ==> world@[info.members@[j]->0].login is Some,
        decreases ROOM_SIZE - i,
    {
        if let Some(m) = info.members[i] {
            if let Ok(member) = world.get(&m) {
                if member.get::<AfterLoginInfo>().is_err() {
                    proof {
                        let one = seq![x];
                        assert(one[0] == x);
                        assert(one[0].room->0.members@[i as int] is Some);
                        assert(world@.contains_key(one[0].room->0.members@[i as int]->0));
                    }
                    return false;
                }
            }
        }
        i = i + 1;
    }
    assert(rooms_listable(world@, seq![x])) by {
        assert forall|k: int| #![trigger seq![x][k]] 0 <= k < 1 implies seq![x][k].room is Some && forall|j: int|
            0 <= j < ROOM_SIZE && #[trigger] seq![x][k].room->0.members@[j] is Some && world@.contains_key(
                seq![x][k].room->0.members@[j]->0,
            ) ==> world@[seq![x][k].room->0.members@[j]->0].login is Some by {
            assert(seq![x][k] == x);
        }
    }
    true
}

/// Whether every member of every room that exists has logged in.
pub fn check_all_rooms_listable(world: &World) -> (b: bool)
    requires
        world.wf(),
    ensures
        b == all_rooms_listable(world@),
{
    let es = world.values();
    let mut i: usize = 0;
    while i < es.len()
        invariant
            world.wf(),
            es@.len() == world.views().len(),
            forall|j: int| 0 <= j < es@.len() ==> #[trigger] es@[j]@ == world.views()[j],
            i <= es@.len(),
            forall|j: int| 0 <= j < i ==> room_listable(world@, #[trigger] world.views()[j]),
        decreases es@.len() - i,
    {
        if !check_room_listable(world, es[i]) {
            proof {
                world.lemma_views();
                assert(world@.contains_key(world.views()[i as int].id));
            }
            return false;
        }
        i = i + 1;
    }
    proof {
        let w = world@;
        world.lemma_forall_views(|e: EntityView| room_listable(w, e));
    }
    true
}

/// Where the client `eid` is in a room that exists with room information,
/// whether that room's members all have a connection.
pub fn check_room_reachable(world: &World, eid: &EntityId) -> (b: bool)
    requires
        world.wf(),
        world@.contains_key(*eid),
    ensures
        b == room_reachable(world@, *eid),
{
    let entity = world.get(eid).unwrap();
    let room_eid = match entity.get::<OnRoomInfo>() {
        Ok(info) => info.room_entity_id,
        Err(_) => return true,
    };
    let room = match world.get(&room_eid) {
        Ok(r) => r,
        Err(_) => return true,
    };
    match room.get::<RoomInfo>() {
        Ok(info) => check_members_reachable(world, info),
        Err(_) => true,
    }
}

/// Whether some place of `m` is empty.
fn has_empty_place(m: &[Option<EntityId>; 8]) -> (b: bool)
    ensures
        b == (first_empty(m@) is Some),
{
    let mut i: usize = 0;
    while i < ROOM_SIZE
        invariant
            i <= ROOM_SIZE,
            m@.len() == ROOM_SIZE,
            forall|j: int| 0 <= j < i ==> m@[j] is Some,
        decreases ROOM_SIZE - i,
    {
        if m[i].is_none() {
            proof { lemma_first_empty(m@); }
            return true;
        }
        i = i + 1;
    }
    proof { lemma_first_empty(m@); }
    false
}

/// Whether `e` is a room that a client can be put into.
fn check_acceptable(e: &Entity) -> (b: bool)
    ensures
        b == acceptable(e@),
{
    let info = match e.get::<RoomInfo>() {
        Ok(info) => info,
        Err(_) => return false,
    };
    match get_room_state(e) {
        Some(RoomState::Waiting) => has_empty_place(&info.members),
        _ => true,
    }
}

/// Whether each member in `m` exists with a connection, a login and a place
/// in a room.
fn check_members_showable(world: &World, m: &[Option<EntityId>; 8]) -> (b: bool)
    requires
        world.wf(),
    ensures
        b == members_showable(world@, m@),
{
    let mut i: usize = 0;
    while i < ROOM_SIZE
        invariant
            world.wf(),
            i <= ROOM_SIZE,
            m@.len() == ROOM_SIZE,
            forall|j: int|
                0 <= j < i && #[trigger] m@[j] is Some ==> {
                    &&& world@.contains_key(m@[j]->0)
                    &&& world@[m@[j]->0].sender is Some
                    &&& world@[m@[j]->0].login is Some
                    &&& world@[m@[j]->0].on_room is Some
                },
        decreases ROOM_SIZE - i,
    {
        if let Some(k) = m[i] {
            let ok = match world.get(&k) {
                Ok(e) => e.get::<MsgToConnSender>().is_ok() && e.get::<AfterLoginInfo>().is_ok()
                    && e.get::<OnRoomInfo>().is_ok(),
                Err(_) => false,
            };
            if !ok {
                return false;
            }
        }
        i = i + 1;
    }
    true
}

/// The room information of the room that the client `eid` is in.
fn room_info<'a>(world: &'a World, eid: &EntityId) -> (info: &'a RoomInfo)
    requires
        world.wf(),
        in_room_ok(world@, *eid),
    ensures
        *info == room_info_of(world@, *eid),
{
    let room_eid = world.get(eid).unwrap().get::<OnRoomInfo>().unwrap().room_entity_id;
    world.get(&room_eid).unwrap().get::<RoomInfo>().unwrap()
}

/// Whether every member of the room with `info` exists in a room, on a team
/// below 8.
fn check_teams(world: &World, info: &RoomInfo) -> (b: bool)
    requires
        world.wf(),
    ensures
        b == teams_ok(world@, *info),
{
    let mut i: usize = 0;
    while i < ROOM_SIZE
        invariant
            world.wf(),
            i <= ROOM_SIZE,
            forall|j: int|
                0 <= j < i && #[trigger] info.members@[j] is Some ==> {
                    &&& world@.contains_key(info.members@[j]->0)
                    &&& world@[info.members@[j]->0].on_room is Some
                    &&& world@[info.members@[j]->0].on_room->0.team < 8
                },
        decreases ROOM_SIZE - i,
    {
        if let Some(k) = info.members[i] {
            let ok = match world.get(&k) {
                Ok(e) => match e.get::<OnRoomInfo>() {
                    Ok(r) => r.team < 8,
                    Err(_) => false,
                },
                Err(_) => false,
            };
            if !ok {
                return false;
            }
        }
        i = i + 1;
    }
    true
}

/// Whether the place `index` of the room of `eid` holds a client that is in
/// that same room, as `in_room_ok` asks.
fn check_kick_target(world: &World, eid: &EntityId, index: u8) -> (b: bool)
    requires
        world.wf(),
        in_room_ok(world@, *eid),
    ensures
        b == kick_target_ok(world@, *eid, index),
{
    if index as usize >= ROOM_SIZE {
        return false;
    }
    let info = room_info(world, eid);
    let target = match info.members[index as usize] {
        Some(t) => t,
        None => return false,
    };
    if !check_in_room(world, &target) {
        return false;
    }
    let target_room = world.get(&target).unwrap().get::<OnRoomInfo>().unwrap().room_entity_id;
    let own_room = world.get(eid).unwrap().get::<OnRoomInfo>().unwrap().room_entity_id;
    target_room == own_room
}

/// Whether the world and the packet hold what the room's handler needs.
pub fn check_room_packet(world: &World, eid: &EntityId, pr: &PacketReader) -> (b: bool)
    requires
        world.wf(),
    ensures
        b == room_packet_ok(world, *eid, *pr),
{
    let op = pr.opcode();
    if op == PACKET_CHAT {
        return check_lobby_packet(world, eid, pr);
    }
    if !check_in_room(world, eid) {
        return false;
    }
    let info = room_info(world, eid);
    if op == PACKET_CHANGE_CHAR || op == PACKET_CHANGE_TEAM {
        pr.has(1)
    } else if op == PACKET_CHANGE_MAP {
        pr.has(1) && info.master_index < ROOM_SIZE && info.members[info.master_index].is_some()
    } else if op == PACKET_KICK {
        pr.has(1) && check_kick_target(world, eid, pr.peek(0))
    } else if op == PACKET_START_GAME {
        world.id_counter() < u64::MAX && check_teams(world, info)
    } else {
        true
    }
}

/// Whether the world and the packet hold what the lobby's handler needs.
pub fn check_lobby_packet(world: &World, eid: &EntityId, pr: &PacketReader) -> (b: bool)
    requires
        world.wf(),
    ensures
        b == lobby_packet_ok(world, *eid, *pr),
{
    let op = pr.opcode();
    if op == PACKET_CHAT {
        if !pr.has(195) {
            return false;
        }
        if pr.peek(1) == 1 && !pr.has(208) {
            return false;
        }
        if !check_logged_reachable(world) || !check_state_reachable(world, ClientState::OnLobby) {
            return false;
        }
        world.get(eid).is_err() || check_room_reachable(world, eid)
    } else if op == PACKET_REQUEST_USER_LIST {
        has_sender(world, eid)
    } else if op == PACKET_REQUEST_ROOM_LIST {
        has_sender(world, eid) && check_all_rooms_listable(world) && pr.has(3)
    } else if op == PACKET_CREATE_ROOM {
        if world.id_counter() == u64::MAX || !has_sender(world, eid) {
            return false;
        }
        try_get_new_room_id(world).is_none() || pr.has(42)
    } else if op == PACKET_ENTER_ROOM {
        let entity = match world.get(eid) {
            Ok(e) => e,
            Err(_) => return false,
        };
        if entity.get::<MsgToConnSender>().is_err() || entity.get::<AfterLoginInfo>().is_err()
            || entity.get::<RoomInfo>().is_ok() || !pr.has(1) {
            return false;
        }
        match find_room_by_uid(world, pr.peek(0)) {
            Some(rid) => {
                let room = world.get(&rid).unwrap();
                check_acceptable(room) && check_members_showable(world, &room.get::<RoomInfo>().unwrap().members)
            },
            None => true,
        }
    } else {
        true
    }
}

/// Whether each member of the room of `eid` is in a room.
fn check_members_in_room(world: &World, eid: &EntityId) -> (b: bool)
    requires
        world.wf(),
        in_room_ok(world@, *eid),
    ensures
        b == members_in_room(world@, *eid),
{
    let info = room_info(world, eid);
    let mut i: usize = 0;
    while i < ROOM_SIZE
        invariant
            world.wf(),
            in_room_ok(world@, *eid),
            *info == room_info_of(world@, *eid),
            i <= ROOM_SIZE,
            forall|j: int|
                0 <= j < i && #[trigger] info.members@[j] is Some ==> world@[info.members@[j]->0].on_room is Some,
        decreases ROOM_SIZE - i,
    {
        if let Some(k) = info.members[i] {
            if world.get(&k).unwrap().get::<OnRoomInfo>().is_err() {
                return false;
            }
        }
        i = i + 1;
    }
    true
}

/// Whether the world and the packet hold what the game's handler needs.
pub fn check_game_packet(world: &World, eid: &EntityId, pr: &PacketReader) -> (b: bool)
    requires
        world.wf(),
    ensures
        b == game_packet_ok(world@, *eid, *pr),
{
    if !check_in_room(world, eid) {
        return false;
    }
    let op = pr.opcode();
    if op == PACKET_CHAT {
        if !pr.has(195) {
            return false;
        }
        pr.peek(1) != 2 || check_members_in_room(world, eid)
    } else if op == PACKET_ON_FRAME || op == PACKET_END_LOADING || op == PACKET_END_TURN {
        let room_eid = world.get(eid).unwrap().get::<OnRoomInfo>().unwrap().room_entity_id;
        let game = match world.get(&room_eid).unwrap().get::<GameInfo>() {
            Ok(g) => g,
            Err(_) => return false,
        };
        if op == PACKET_ON_FRAME {
            game.turn_index < game.turn_table.len() && pr.has(4)
        } else {
            pr.has(8)
        }
    } else if op == PACKET_USE_ITEM {
        pr.has(0)
    } else {
        true
    }
}

/// Whether the world and the packet hold what the handler of logged-in
/// clients needs.
pub fn check_after_login_packet(world: &World, eid: &EntityId, pr: &PacketReader) -> (b: bool)
    requires
        world.wf(),
    ensures
        b == after_login_packet_ok(world, *eid, *pr),
{
    let op = pr.opcode();
    if op == PACKET_REQUEST_NOTICE || op == PACKET_REQUEST_TICKER {
        has_sender(world, eid)
    } else if op == PACKET_ENTER_LOBBY {
        has_sender(world, eid) && pr.has(3) && check_all_rooms_listable(world)
    } else if op == PACKET_ENTER_BOARD || op == PACKET_READ_ARTICLE {
        pr.has(4)
    } else if op == PACKET_WRITE_ARTICLE {
        pr.has(2108) && (world.get(eid).is_err() || has_sender(world, eid))
    } else if op == PACKET_UPDATE_SETTINGS {
        pr.has(572)
    } else if op == PACKET_CHANGE_NICKNAME {
        pr.has(13)
    } else {
        true
    }
}

/// Whether the world and the packet hold what the handler of a packet from
/// `eid` needs, by where its client is. A packet that fails this check is not
/// handled.
pub fn check_packet(world: &World, eid: &EntityId, pr: &PacketReader) -> (b: bool)
    requires
        world.wf(),
    ensures
        b == packet_ok(world, *eid, *pr),
{
    let entity = match world.get(eid) {
        Ok(e) => e,
        Err(_) => return true,
    };
    let state = match entity.get::<ClientState>() {
        Ok(s) => *s,
        Err(_) => return true,
    };
    match state {
        ClientState::BeforeLogin => pr.opcode() != PACKET_LOGIN || pr.has(26),
        ClientState::AfterLogin => check_after_login_packet(world, eid, pr),
        ClientState::OnLobby => check_lobby_packet(world, eid, pr),
        ClientState::OnRoom => check_room_packet(world, eid, pr),
        ClientState::OnGame => check_game_packet(world, eid, pr),
    }
}

/// Whether `room_eid` is a room with a game whose members all have a connection.
fn check_game(world: &World, room_eid: &EntityId) -> (b: bool)
    requires
        world.wf(),
    ensures
        b == game_ok(world@, *room_eid),
{
    let room = match world.get(room_eid) {
        Ok(r) => r,
        Err(_) => return false,
    };
    let info = match room.get::<RoomInfo>() {
        Ok(i) => i,
        Err(_) => return false,
    };
    room.get::<GameInfo>().is_ok() && check_members_reachable(world, info)
}

/// Whether the game of room `room_eid` is under way: each member is a client
/// in a room on a team below 8 and heads no room, and the turn table holds
/// places.
fn check_game_running(world: &World, room_eid: &EntityId) -> (b: bool)
    requires
        world.wf(),
    ensures
        b == game_running(world@, *room_eid),
{
    if !check_game(world, room_eid) {
        return false;
    }
    let room = world.get(room_eid).unwrap();
    let info = room.get::<RoomInfo>().unwrap();
    let game = room.get::<GameInfo>().unwrap();
    let ghost w = world@;
    let mut i: usize = 0;
    while i < ROOM_SIZE
        invariant
            world.wf(),
            w == world@,
            w[*room_eid].room == Some(*info),
            i <= ROOM_SIZE,
            forall|j: int|
                0 <= j < i && #[trigger] info.members@[j] is Some ==> {
                    let k = info.members@[j]->0;
                    &&& w.contains_key(k)
                    &&& w[k].on_room is Some
                    &&& w[k].room is None
                    &&& w[k].on_room->0.team < 8
                },
        decreases ROOM_SIZE - i,
    {
        if let Some(k) = info.members[i] {
            let ok = match world.get(&k) {
                Ok(e) => e.get::<RoomInfo>().is_err() && match e.get::<OnRoomInfo>() {
                    Ok(r) => r.team < 8,
                    Err(_) => false,
                },
                Err(_) => false,
            };
            if !ok {
                return false;
            }
        }
        i = i + 1;
    }
    let mut t: usize = 0;
    while t < game.turn_table.len()
        invariant
            world@[*room_eid].game == Some(*game),
            t <= game.turn_table@.len(),
            forall|j: int| 0 <= j < t ==> #[trigger] game.turn_table@[j] < 8,
        decreases game.turn_table@.len() - t,
    {
        if game.turn_table[t] >= 8 {
            return false;
        }
        t = t + 1;
    }
    game.turn_index < usize::MAX
}

/// How many places hold a member with hit points left.
fn alive_count(info: &RoomInfo, game: &GameInfo) -> (n: usize)
    ensures
        n == alive_places(info.members@, game.player_infos@, 8).len(),
{
    let mut n: usize = 0;
    let mut i: usize = 0;
    while i < ROOM_SIZE
        invariant
            i <= ROOM_SIZE,
            n == alive_places(info.members@, game.player_infos@, i as nat).len(),
            n <= i,
        decreases ROOM_SIZE - i,
    {
        if info.members[i].is_some() && game.player_infos[i].hp != 0 {
            n = n + 1;
        }
        i = i + 1;
    }
    n
}

/// Whether some member of the room of a game has hit points left.
fn check_anyone_alive(world: &World, room_eid: &EntityId) -> (b: bool)
    requires
        world.wf(),
        game_ok(world@, *room_eid),
    ensures
        b == anyone_alive(world@, *room_eid),
{
    let room = world.get(room_eid).unwrap();
    let info = room.get::<RoomInfo>().unwrap();
    let game = room.get::<GameInfo>().unwrap();
    let mut i: usize = 0;
    while i < ROOM_SIZE
        invariant
            world@[*room_eid].room == Some(*info),
            world@[*room_eid].game == Some(*game),
            i <= ROOM_SIZE,
            forall|j: int| 0 <= j < i ==> !(#[trigger] info.members@[j] is Some && game.player_infos@[j].hp > 0),
        decreases ROOM_SIZE - i,
    {
        if info.members[i].is_some() && game.player_infos[i].hp > 0 {
            assert(info.members@[i as int] is Some);
            return true;
        }
        i = i + 1;
    }
    false
}

/// Whether the world holds what running the timer `timer_eid` at `now` needs.
/// A timer that fails this check is not run.
pub fn check_tick(server: &Server, timer_eid: &EntityId, now: u64) -> (b: bool)
    requires
        server.world.wf(),
    ensures
        b == ({
            let w = server.world@;
            &&& server.world.next_id() < u64::MAX
            &&& w.contains_key(*timer_eid)
            &&& w[*timer_eid].kind == Some(EntityKind::Timer)
            &&& w[*timer_eid].timer is Some
            &&& w[*timer_eid].instant is Some
            &&& tick_ok(w, w[*timer_eid], now)
        }),
{
    let world = &server.world;
    if world.id_counter() == u64::MAX {
        return false;
    }
    let timer = match world.get(timer_eid) {
        Ok(t) => t,
        Err(_) => return false,
    };
    let is_timer = match timer.get::<EntityKind>() {
        Ok(k) => *k == EntityKind::Timer,
        Err(_) => false,
    };
    if !is_timer || timer.get::<crate::component::Instant>().is_err() {
        return false;
    }
    let task = match timer.get::<TimerInfo>() {
        Ok(t) => t.task,
        Err(_) => return false,
    };
    if !is_runnable(world, timer_eid, now) {
        return true;
    }
    match task {
        TimerTask::PingPongCheck => check_stale_reachable(world),
        TimerTask::Loading { room_eid, started } => {
            if !check_game_running(world, &room_eid) || now.saturating_sub(started) >= LOADING_LIMIT {
                return false;
            }
            if !check_if_load_finished(world, &room_eid) {
                return true;
            }
            let room = world.get(&room_eid).unwrap();
            let game = room.get::<GameInfo>().unwrap();
            !(game.turn_index >= game.turn_table.len() && alive_count(room.get::<RoomInfo>().unwrap(), game) == 0)
        },
        TimerTask::MainLoop { room_eid, turn_started } => {
            if !check_game_running(world, &room_eid) || now.saturating_sub(turn_started) >= TURN_LIMIT {
                return false;
            }
            !check_if_load_finished(world, &room_eid) || check_anyone_alive(world, &room_eid)
        },
    }
}

/// Whether every entity has a kind.
pub fn check_kinds(world: &World) -> (b: bool)
    requires
        world.wf(),
    ensures
        b == (forall|k: EntityId| #[trigger] world@.contains_key(k) ==> world@[k].kind is Some),
{
    let es = world.values();
    let mut i: usize = 0;
    while i < es.len()
        invariant
            world.wf(),
            es@.len() == world.views().len(),
            forall|j: int| 0 <= j < es@.len() ==> #[trigger] es@[j]@ == world.views()[j],
            i <= es@.len(),
            forall|j: int| 0 <= j < i ==> (#[trigger] world.views()[j]).kind is Some,
        decreases es@.len() - i,
    {
        if es[i].get::<EntityKind>().is_err() {
            proof {
                world.lemma_views();
                assert(world@.contains_key(world.views()[i as int].id));
            }
            return false;
        }
        i = i + 1;
    }
    proof {
        world.lemma_forall_views(|e: EntityView| e.kind is Some);
    }
    true
}

/// Whether the world holds what the disconnection of `eid` needs: a client
/// whose session state is known, in a room as `in_room_ok` asks where it is
/// in a room or a game.
pub fn check_disconnection(world: &World, eid: &EntityId) -> (b: bool)
    requires
        world.wf(),
    ensures
        b == (world@.contains_key(*eid) && world@[*eid].state is Some && (world@[*eid].state == Some(
            ClientState::OnRoom,
        ) || world@[*eid].state == Some(ClientState::OnGame) ==> in_room_ok(world@, *eid))),
{
    let state = match world.get(eid) {
        Ok(e) => match e.get::<ClientState>() {
            Ok(s) => *s,
            Err(_) => return false,
        },
        Err(_) => return false,
    };
    match state {
        ClientState::OnRoom | ClientState::OnGame => check_in_room(world, eid),
        _ => true,
    }
}

} // verus!
