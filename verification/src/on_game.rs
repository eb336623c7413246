//! Packets from clients that are playing a game, and the turns of a game.
use vstd::prelude::*;
use crate::component::{AfterLoginInfo, ClientState, EntityId, GameInfo, OnRoomInfo, PlayerInfo, RoomInfo, StateInRoom, TimerTask, ROOM_SIZE};
use crate::object::{EntityView, World};
use crate::room::{get_index_in_room, get_user_entity_ids, member_ids, member_ids_except, members_reachable, send_to_all, send_to_all_except, send_to_team, team_ids};
use crate::reader::{field_text, PacketReader};
use crate::packet::{chat_in_game, chat_in_game_body};
use crate::bytes::{get_u16, le16, le32, zeros};
use crate::server::{in_room_ok, object_error, place_of, room_info_of, room_of, send_to_room, told, HandleError, Server};
use crate::session::{outbox_view, packets_to, set_states, with_states, Outgoing};
use crate::timer::{create, elapsed, timer_entity, LOOP_PERIOD};
use crate::on_room::lemma_member_ids_contains;
use crate::writer::{body_prefix, is_packet_of, PacketWriter};
use crate::on_room::room_told;

verus! {

pub const PACKET_ON_FRAME: u8 = 32;
pub const PACKET_CHAT: u8 = 34;
pub const PACKET_END_LOADING: u8 = 83;
pub const PACKET_USE_ITEM: u8 = 85;
pub const PACKET_END_TURN: u8 = 86;
pub const PACKET_ON_DEATH: u8 = 88;
pub const PACKET_GO_TO_LOBBY: u8 = 95;
pub const PACKET_EXIT_GAME: u8 = 128;

/// The body that tells a room that the character in place `index_in_room` died.
pub open spec fn death_body(index_in_room: nat) -> Seq<u8> {
    body_prefix((PACKET_ON_DEATH + 1) as u8) + seq![index_in_room as u8]
}

/// The packet that tells a room that the character in place `index_in_room` died.
pub fn make_on_death_packet(index_in_room: usize) -> (pkt: Vec<u8>)
    ensures
        is_packet_of(pkt@, death_body(index_in_room as nat)),
{
    let mut pw = PacketWriter::new(PACKET_ON_DEATH + 1);
    pw.u8(index_in_room as u8);
    proof {
        assert(pw.bytes() =~= death_body(index_in_room as nat));
    }
    pw.as_vec()
}

/// The room of `eid`, which must be in one.
pub fn get_room_eid(world: &World, eid: &EntityId) -> (r: EntityId)
    requires
        world.wf(),
        world@.contains_key(*eid),
        world@[*eid].on_room is Some,
    ensures
        r == room_of(world@, *eid),
{
    let entity = world.get(eid).unwrap();
    let on_room_info = entity.get::<OnRoomInfo>().unwrap();
    on_room_info.room_entity_id
}

/// Tells the room of `eid` that its character died.
pub fn handle_on_death(server: &mut Server, eid: &EntityId) -> (r: Result<(), HandleError>)
    requires
        old(server).world.wf(),
        in_room_ok(old(server).world@, *eid),
    ensures
        r is Ok,
        final(server).world == old(server).world,
        final(server).config == old(server).config,
        exists|p: Seq<u8>|
            is_packet_of(p, death_body(place_of(old(server).world@, *eid))) && outbox_view(
                final(server).outbox@,
            ) == outbox_view(old(server).outbox@) + packets_to(
                member_ids(old(server).world@[room_of(old(server).world@, *eid)].room->0.members@),
                p,
            ),
{
    let world = &server.world;
    let room_eid = get_room_eid(world, eid);
    let pkt = {
        let room = match world.get(&room_eid) {
            Ok(room) => room,
            Err(e) => return Err(object_error(e)),
        };
        let index_in_room = get_index_in_room(room, eid).unwrap();
        assert(index_in_room as nat == place_of(world@, *eid));
        make_on_death_packet(index_in_room)
    };
    assert(is_packet_of(pkt@, death_body(place_of(world@, *eid))));
    send_to_room(world, &mut server.outbox, &room_eid, &pkt);
    Ok(())
}

/// A client that leaves a game dies in it.
pub fn handle_exit(server: &mut Server, eid: &EntityId)
    requires
        old(server).world.wf(),
        in_room_ok(old(server).world@, *eid),
    ensures
        final(server).world == old(server).world,
        final(server).config == old(server).config,
        exists|p: Seq<u8>|
            is_packet_of(p, death_body(place_of(old(server).world@, *eid))) && outbox_view(
                final(server).outbox@,
            ) == outbox_view(old(server).outbox@) + packets_to(
                member_ids(old(server).world@[room_of(old(server).world@, *eid)].room->0.members@),
                p,
            ),
{
    let _ = handle_on_death(server, eid);
}

/// The largest wind speed either way.
pub const MAX_WIND_VELOCITY: i8 = 30;

/// Calls `rand::random::<i8>()`. Any value may come back.
#[verifier::external_body]
fn random_i8() -> (r: i8) {
    rand::random::<i8>()
}

/// The eight bytes that describe the character in one place in a turn packet.
pub open spec fn turn_row(hp: u32) -> Seq<u8> {
    le16(0) + zeros(2) + le32(hp) + zeros(4)
}

/// The rows of the first `n` places.
pub open spec fn turn_rows(hp_list: Seq<u32>, n: nat) -> Seq<u8>
    decreases n,
{
    if n == 0 {
        Seq::<u8>::empty()
    } else {
        turn_rows(hp_list, (n - 1) as nat) + turn_row(hp_list[n - 1])
    }
}

/// The body that starts a turn.
pub open spec fn turn_body(
    index_in_room: u8,
    wind_velocity: i8,
    item: Option<(u8, u16)>,
    kurumon: Option<u16>,
    hp_list: Seq<u32>,
) -> Seq<u8> {
    let (item_no, item_pos) = match item {
        Some(p) => p,
        None => (0u8, 0u16),
    };
    body_prefix((PACKET_END_TURN + 1) as u8) + le32((wind_velocity as i32) as u32) + seq![
        1u8,
        0u8,
        if kurumon is Some { 0u8 } else { 1u8 },
    ] + zeros(1) + le16(
        match kurumon {
            Some(k) => k,
            None => 0u16,
        },
    ) + seq![0u8, item_no] + le16(item_pos) + seq![1u8, index_in_room] + turn_rows(hp_list, 8) + le16(0)
        + le16(0)
}

/// The packet that starts the turn of the character in place `index_in_room`.
pub fn make_turn_change_pkt(
    index_in_room: u8,
    wind_velocity: i8,
    item: Option<(u8, u16)>,
    kurumon: Option<u16>,
    delay_list: &Vec<u16>,
    hp_list: &Vec<u32>,
) -> (pkt: Vec<u8>)
    requires
        hp_list@.len() >= 8,
    ensures
        is_packet_of(pkt@, turn_body(index_in_room, wind_velocity, item, kurumon, hp_list@)),
{
    let (item_no, item_pos) = match item {
        Some(p) => p,
        None => (0u8, 0u16),
    };
    let mut pw = PacketWriter::new(PACKET_END_TURN + 1);
    pw.i32(wind_velocity as i32).u8(1).u8(0).u8(if kurumon.is_some() { 0 } else { 1 }).pad(1).u16(
        match kurumon {
            Some(k) => k,
            None => 0,
        },
    ).u8(0x00).u8(item_no).u16(item_pos).u8(1).u8(index_in_room);
    let ghost head = pw.bytes();
    let mut i: usize = 0;
    while i < 8
        invariant
            i <= 8,
            hp_list@.len() >= 8,
            pw.op() == PACKET_END_TURN + 1,
            pw.bytes() == head + turn_rows(hp_list@, i as nat),
        decreases 8 - i,
    {
        pw.u16(0).pad(2).u32(hp_list[i]).pad(4);
        i = i + 1;
        assert(pw.bytes() =~= head + turn_rows(hp_list@, i as nat));
    }
    pw.u16(0).u16(0);
    proof {
        assert(pw.bytes() =~= turn_body(index_in_room, wind_velocity, item, kurumon, hp_list@));
    }
    pw.as_vec()
}

/// The room entity `room_eid` exists, has room information and a game, and its
/// members all exist with a connection.
pub open spec fn game_ok(w: Map<EntityId, EntityView>, room_eid: EntityId) -> bool {
    &&& w.contains_key(room_eid)
    &&& w[room_eid].room is Some
    &&& w[room_eid].game is Some
    &&& members_reachable(w, w[room_eid].room->0)
}

/// The game of room `room_eid`.
pub open spec fn game_of(w: Map<EntityId, EntityView>, room_eid: EntityId) -> GameInfo {
    w[room_eid].game->0
}

/// The place whose turn it is.
pub open spec fn place_in_turn(g: GameInfo) -> usize {
    g.turn_table@[g.turn_index as int]
}

/// The place whose turn it is in the game of room `room_eid`.
fn get_index_in_room_in_turn(world: &World, room_eid: &EntityId) -> (r: usize)
    requires
        world.wf(),
        game_ok(world@, *room_eid),
        game_of(world@, *room_eid).turn_index < game_of(world@, *room_eid).turn_table@.len(),
    ensures
        r == place_in_turn(game_of(world@, *room_eid)),
{
    let room = world.get(room_eid).unwrap();
    let game_info = room.get::<GameInfo>().unwrap();
    let turn_index = game_info.turn_index;
    game_info.turn_table[turn_index]
}

/// The delays of the eight places.
fn get_delay_list(world: &World, room_eid: &EntityId) -> (r: Vec<u16>)
    requires
        world.wf(),
        game_ok(world@, *room_eid),
    ensures
        r@.len() == 8,
        forall|i: int| 0 <= i < 8 ==> #[trigger] r@[i] == game_of(world@, *room_eid).player_infos@[i].delay,
{
    let room = world.get(room_eid).unwrap();
    let game_info = room.get::<GameInfo>().unwrap();
    let mut out: Vec<u16> = Vec::new();
    let mut i: usize = 0;
    while i < 8
        invariant
            i <= 8,
            *game_info == game_of(world@, *room_eid),
            out@.len() == i,
            forall|k: int| 0 <= k < i ==> #[trigger] out@[k] == game_info.player_infos@[k].delay,
        decreases 8 - i,
    {
        out.push(game_info.player_infos[i].delay);
        i = i + 1;
    }
    out
}

/// The hit points of the eight places.
fn get_hp_list(world: &World, room_eid: &EntityId) -> (r: Vec<u32>)
    requires
        world.wf(),
        game_ok(world@, *room_eid),
    ensures
        r@.len() == 8,
        forall|i: int| 0 <= i < 8 ==> #[trigger] r@[i] == game_of(world@, *room_eid).player_infos@[i].hp as u32,
{
    let room = world.get(room_eid).unwrap();
    let game_info = room.get::<GameInfo>().unwrap();
    let mut out: Vec<u32> = Vec::new();
    let mut i: usize = 0;
    while i < 8
        invariant
            i <= 8,
            *game_info == game_of(world@, *room_eid),
            out@.len() == i,
            forall|k: int| 0 <= k < i ==> #[trigger] out@[k] == game_info.player_infos@[k].hp as u32,
        decreases 8 - i,
    {
        out.push(game_info.player_infos[i].hp as u32);
        i = i + 1;
    }
    out
}

/// The hit points as the turn packet lists them.
pub open spec fn hp_list_of(g: GameInfo) -> Seq<u32> {
    Seq::new(8, |i: int| g.player_infos@[i].hp as u32)
}

/// Every member of the room has finished loading (or its turn).
pub open spec fn load_finished(w: Map<EntityId, EntityView>, room_eid: EntityId) -> bool {
    forall|i: int|
        0 <= i < ROOM_SIZE ==> !(#[trigger] w[room_eid].room->0.members@[i] is Some) || game_of(w, room_eid).load_table@[i]
}

/// Whether every member of the room has finished loading (or its turn).
pub fn check_if_load_finished(world: &World, room_eid: &EntityId) -> (r: bool)
    requires
        world.wf(),
        game_ok(world@, *room_eid),
    ensures
        r == load_finished(world@, *room_eid),
{
    let room = world.get(room_eid).unwrap();
    let game_info = room.get::<GameInfo>().unwrap();
    let room_info = room.get::<RoomInfo>().unwrap();
    let mut i: usize = 0;
    while i < 8
        invariant
            i <= 8,
            *game_info == game_of(world@, *room_eid),
            *room_info == world@[*room_eid].room->0,
            forall|k: int| 0 <= k < i ==> !(#[trigger] room_info.members@[k] is Some) || game_info.load_table@[k],
        decreases 8 - i,
    {
        let user_exists = room_info.members[i].is_some();
        let is_loaded = game_info.load_table[i];
        if !(!user_exists || is_loaded) {
            return false;
        }
        i = i + 1;
    }
    true
}

/// Whether it is the turn of the client `eid`.
pub fn check_if_his_turn(world: &World, eid: &EntityId) -> (r: bool)
    requires
        world.wf(),
        in_room_ok(world@, *eid),
        game_ok(world@, room_of(world@, *eid)),
        game_of(world@, room_of(world@, *eid)).turn_index < game_of(world@, room_of(world@, *eid)).turn_table@.len(),
    ensures
        r == (place_of(world@, *eid) == place_in_turn(game_of(world@, room_of(world@, *eid)))),
{
    let room_eid = get_room_eid(world, eid);
    let room = world.get(&room_eid).unwrap();
    let index_in_room = get_index_in_room(room, eid).unwrap();
    let index_in_room_in_turn = get_index_in_room_in_turn(world, &room_eid);
    index_in_room == index_in_room_in_turn
}

/// Every member of the room is a client with room state whose team is below 8.
pub open spec fn members_are_players(w: Map<EntityId, EntityView>, room_eid: EntityId) -> bool {
    forall|i: int|
        0 <= i < ROOM_SIZE && #[trigger] w[room_eid].room->0.members@[i] is Some ==> {
            let k = w[room_eid].room->0.members@[i]->0;
            &&& w.contains_key(k)
            &&& w[k].on_room is Some
            &&& w[k].room is None
            &&& w[k].on_room->0.team < 8
        }
}

/// Some member of team `t` still has hit points.
pub open spec fn team_alive(w: Map<EntityId, EntityView>, room_eid: EntityId, t: int) -> bool {
    exists|i: int|
        0 <= i < ROOM_SIZE && #[trigger] w[room_eid].room->0.members@[i] is Some && game_of(w, room_eid).player_infos@[i].hp > 0
            && w[w[room_eid].room->0.members@[i]->0].on_room->0.team == t
}

/// Some member still has hit points.
pub open spec fn anyone_alive(w: Map<EntityId, EntityView>, room_eid: EntityId) -> bool {
    exists|i: int|
        0 <= i < ROOM_SIZE && #[trigger] w[room_eid].room->0.members@[i] is Some && game_of(w, room_eid).player_infos@[i].hp > 0
}

/// The team that has won, if exactly one team has a member with hit points left.
pub fn check_if_game_finished(world: &World, room_eid: &EntityId) -> (r: Option<usize>)
    requires
        world.wf(),
        game_ok(world@, *room_eid),
        members_are_players(world@, *room_eid),
        anyone_alive(world@, *room_eid),
    ensures
        match r {
            Some(t) => t < 8 && team_alive(world@, *room_eid, t as int) && forall|u: int|
                0 <= u < 8 && u != t ==> !team_alive(world@, *room_eid, u),
            None => exists|a: int, b: int|
                0 <= a < b < 8 && team_alive(world@, *room_eid, a) && team_alive(world@, *room_eid, b),
        },
{
    let room = world.get(room_eid).unwrap();
    let game_info = room.get::<GameInfo>().unwrap();
    let room_info = room.get::<RoomInfo>().unwrap();
    let ghost w = world@;
    let mut survivors_by_team: [usize; 8] = [0, 0, 0, 0, 0, 0, 0, 0];
    let mut i: usize = 0;
    while i < 8
        invariant
            i <= 8,
            world.wf(),
            w == world@,
            game_ok(w, *room_eid),
            members_are_players(w, *room_eid),
            *game_info == game_of(w, *room_eid),
            *room_info == w[*room_eid].room->0,
            forall|t: int| 0 <= t < 8 ==> #[trigger] survivors_by_team@[t] <= i,
            forall|t: int| 0 <= t < 8 ==> (#[trigger] survivors_by_team@[t] > 0 <==> exists|j: int|
                0 <= j < i && #[trigger] room_info.members@[j] is Some && game_info.player_infos@[j].hp > 0
                    && w[room_info.members@[j]->0].on_room->0.team == t),
        decreases 8 - i,
    {
        if let Some(member_eid) = room_info.members[i] {
            let member = world.get(&member_eid).unwrap();
            let on_room_info = member.get::<OnRoomInfo>().unwrap();
            let team_id = on_room_info.team;
            let hp = game_info.player_infos[i].hp;
            if hp > 0 {
                survivors_by_team[team_id as usize] = survivors_by_team[team_id as usize] + 1;
            }
        }
        proof {
            assert forall|t: int| 0 <= t < 8 implies (#[trigger] survivors_by_team@[t] > 0 <==> exists|j: int|
                0 <= j < i + 1 && #[trigger] room_info.members@[j] is Some && game_info.player_infos@[j].hp > 0
                    && w[room_info.members@[j]->0].on_room->0.team == t) by {
                if survivors_by_team@[t] > 0 {
                    if !(exists|j: int| 0 <= j < i && #[trigger] room_info.members@[j] is Some && game_info.player_infos@[j].hp > 0
                        && w[room_info.members@[j]->0].on_room->0.team == t) {
                        assert(room_info.members@[i as int] is Some);
                    }
                }
            }
        }
        i = i + 1;
    }
    let mut survived_teams: usize = 0;
    let mut first: usize = 8;
    let mut t: usize = 0;
    while t < 8
        invariant
            t <= 8,
            survived_teams <= t,
            first <= 8,
            survived_teams == 0 ==> first == 8,
            survived_teams > 0 ==> first < t && survivors_by_team@[first as int] > 0,
            forall|u: int| 0 <= u < first && u < t ==> survivors_by_team@[u] == 0,
            survived_teams <= 1 ==> forall|u: int| 0 <= u < t && u != first ==> survivors_by_team@[u] == 0,
            survived_teams >= 2 ==> exists|a: int, b: int| 0 <= a < b < t && survivors_by_team@[a] > 0 && survivors_by_team@[b] > 0,
        decreases 8 - t,
    {
        if survivors_by_team[t] > 0 {
            if survived_teams == 0 {
                first = t;
            } else {
                assert(survivors_by_team@[first as int] > 0);
            }
            survived_teams = survived_teams + 1;
        }
        t = t + 1;
    }
    if survived_teams == 0 {
        proof {
            let j = choose|j: int| 0 <= j < ROOM_SIZE && #[trigger] w[*room_eid].room->0.members@[j] is Some
                && game_of(w, *room_eid).player_infos@[j].hp > 0;
            let tm = w[w[*room_eid].room->0.members@[j]->0].on_room->0.team as int;
            assert(survivors_by_team@[tm] > 0);
        }
        assert(false);
        None
    } else if survived_teams == 1 {
        proof {
            assert forall|u: int| 0 <= u < 8 && u != first implies !team_alive(w, *room_eid, u) by {
                if team_alive(w, *room_eid, u) {
                    let j = choose|j: int| 0 <= j < ROOM_SIZE && #[trigger] w[*room_eid].room->0.members@[j] is Some
                        && game_of(w, *room_eid).player_infos@[j].hp > 0 && w[w[*room_eid].room->0.members@[j]->0].on_room->0.team == u;
                    assert(survivors_by_team@[u] > 0);
                }
            }
        }
        proof {
            assert(survivors_by_team@[first as int] > 0);
            let j = choose|j: int|
                0 <= j < 8 && #[trigger] room_info.members@[j] is Some && game_info.player_infos@[j].hp > 0
                    && w[room_info.members@[j]->0].on_room->0.team == first;
            assert(w[*room_eid].room->0.members@[j] is Some);
        }
        Some(first)
    } else {
        proof {
            let (a, b) = choose|a: int, b: int| 0 <= a < b < 8 && survivors_by_team@[a] > 0 && survivors_by_team@[b] > 0;
            assert(survivors_by_team@[a] > 0);
            let ja = choose|j: int|
                0 <= j < 8 && #[trigger] room_info.members@[j] is Some && game_info.player_infos@[j].hp > 0
                    && w[room_info.members@[j]->0].on_room->0.team == a;
            assert(w[*room_eid].room->0.members@[ja] is Some);
            assert(team_alive(w, *room_eid, a));
            assert(survivors_by_team@[b] > 0);
            let jb = choose|j: int|
                0 <= j < 8 && #[trigger] room_info.members@[j] is Some && game_info.player_infos@[j].hp > 0
                    && w[room_info.members@[j]->0].on_room->0.team == b;
            assert(w[*room_eid].room->0.members@[jb] is Some);
            assert(team_alive(w, *room_eid, b));
        }
        None
    }
}

/// Delays do not decrease along the places `t`.
pub open spec fn sorted_by_delay(t: Seq<usize>, infos: Seq<PlayerInfo>) -> bool {
    forall|a: int, b: int| 0 <= a <= b < t.len() ==> infos[t[a] as int].delay <= infos[t[b] as int].delay
}

/// The occupied places below `n` whose characters have hit points, in increasing order.
pub open spec fn alive_places(m: Seq<Option<EntityId>>, infos: Seq<PlayerInfo>, n: nat) -> Seq<usize>
    decreases n,
{
    if n == 0 {
        Seq::<usize>::empty()
    } else if m[n - 1] is Some && infos[n - 1].hp != 0 {
        alive_places(m, infos, (n - 1) as nat).push((n - 1) as usize)
    } else {
        alive_places(m, infos, (n - 1) as nat)
    }
}

/// The first position from `from` on in the turn table whose character has hit
/// points; at least the table's length if there is none.
pub open spec fn next_turn_index(g: GameInfo, from: nat) -> nat
    decreases g.turn_table@.len() - from,
{
    if from >= g.turn_table@.len() {
        from
    } else if g.player_infos@[g.turn_table@[from as int] as int].hp != 0 {
        from
    } else {
        next_turn_index(g, from + 1)
    }
}

/// The turn table only names places.
pub open spec fn turn_table_ok(g: GameInfo) -> bool {
    forall|k: int| 0 <= k < g.turn_table@.len() ==> #[trigger] g.turn_table@[k] < 8
}

/// Orders the places by delay, equal delays in random order.
fn order_by_delay(places: &Vec<usize>, infos: &[PlayerInfo; 8]) -> (r: Vec<usize>)
    requires
        forall|k: int| 0 <= k < places@.len() ==> #[trigger] places@[k] < 8,
    ensures
        r@.to_multiset() == places@.to_multiset(),
        sorted_by_delay(r@, infos@),
        forall|k: int| 0 <= k < r@.len() ==> #[trigger] r@[k] < 8,
{
    let mut out: Vec<usize> = Vec::new();
    let mut i: usize = 0;
    assert(out@ =~= places@.subrange(0, 0));
    while i < places.len()
        invariant
            i <= places@.len(),
            forall|k: int| 0 <= k < places@.len() ==> #[trigger] places@[k] < 8,
            forall|k: int| 0 <= k < out@.len() ==> #[trigger] out@[k] < 8,
            out@.to_multiset() == places@.subrange(0, i as int).to_multiset(),
            sorted_by_delay(out@, infos@),
        decreases places@.len() - i,
    {
        let x = places[i];
        let dx = infos[x].delay;
        let mut j: usize = 0;
        while j < out.len()
            invariant
                j <= out@.len(),
                forall|k: int| 0 <= k < out@.len() ==> #[trigger] out@[k] < 8,
                forall|k: int| 0 <= k < j ==> infos@[(#[trigger] out@[k]) as int].delay <= dx,
            ensures
                j <= out@.len(),
                forall|k: int| 0 <= k < j ==> infos@[(#[trigger] out@[k]) as int].delay <= dx,
                j < out@.len() ==> infos@[out@[j as int] as int].delay >= dx,
            decreases out@.len() - j,
        {
            let dj = infos[out[j]].delay;
            if dj > dx {
                break;
            }
            if dj == dx && crate::writer::random_u8() % 3 == 0 {
                break;
            }
            j = j + 1;
        }
        let ghost before = out@;
        out.insert(j, x);
        proof {
            vstd::seq_lib::to_multiset_insert(before, j as int, x);
            vstd::seq_lib::to_multiset_build(places@.subrange(0, i as int), x);
            assert(places@.subrange(0, i + 1) =~= places@.subrange(0, i as int).push(x));
            let v = out@;
            assert forall|a: int, b: int| 0 <= a <= b < v.len() implies infos@[v[a] as int].delay <= infos@[v[b] as int].delay by {
                if a < j && b < j {
                    assert(v[a] == before[a] && v[b] == before[b]);
                } else if a < j && b == j {
                    assert(v[a] == before[a]);
                } else if a < j {
                    assert(v[a] == before[a] && v[b] == before[b - 1]);
                } else if a == j && b == j {
                } else if a == j {
                    assert(v[b] == before[b - 1]);
                    assert(infos@[before[j as int] as int].delay >= dx);
                } else {
                    assert(v[a] == before[a - 1] && v[b] == before[b - 1]);
                }
            }
            assert forall|k: int| 0 <= k < v.len() implies #[trigger] v[k] < 8 by {
                if k < j {
                    assert(v[k] == before[k]);
                } else if k > j {
                    assert(v[k] == before[k - 1]);
                }
            }
        }
        i = i + 1;
    }
    assert(places@.subrange(0, i as int) =~= places@);
    out
}

/// A wind speed from -30 to 30: a random byte's remainder by 31, keeping its sign.
fn random_wind() -> (w: i8)
    ensures
        -30 <= w <= 30,
{
    let r = random_i8() as i16;
    let m: i16 = if r >= 0 {
        r % 31
    } else {
        -((-r) % 31)
    };
    m as i8
}

/// The game of `room_eid` after its turn moves on (see `change_turn`).
pub open spec fn turn_moved(g: GameInfo, g2: GameInfo, m: Seq<Option<EntityId>>, is_starting_game: bool) -> bool {
    let ti = if is_starting_game { g.turn_index as nat } else { next_turn_index(g, (g.turn_index + 1) as nat) };
    &&& g2.room_eid == g.room_eid
    &&& g2.player_infos == g.player_infos
    &&& g2.load_table@ == Seq::new(8, |i: int| false)
    &&& turn_table_ok(g2)
    &&& g2.turn_index < g2.turn_table@.len()
    &&& if ti >= g.turn_table@.len() {
        &&& g2.turn_index == 0
        &&& g2.turn_table@.to_multiset() == alive_places(m, g.player_infos@, 8).to_multiset()
        &&& sorted_by_delay(g2.turn_table@, g.player_infos@)
    } else {
        &&& g2.turn_table == g.turn_table
        &&& g2.turn_index == ti
    }
}

/// A new cycle starts and no character has hit points left: the turn cannot move on.
pub open spec fn turn_stuck(w: Map<EntityId, EntityView>, room_eid: EntityId, is_starting_game: bool) -> bool {
    let g = game_of(w, room_eid);
    let ti = if is_starting_game { g.turn_index as nat } else { next_turn_index(g, (g.turn_index + 1) as nat) };
    ti >= g.turn_table@.len() && alive_places(w[room_eid].room->0.members@, g.player_infos@, 8).len() == 0
}

proof fn lemma_alive_places(m: Seq<Option<EntityId>>, infos: Seq<PlayerInfo>, n: nat)
    requires
        n <= 8,
    ensures
        forall|k: int| 0 <= k < alive_places(m, infos, n).len() ==> #[trigger] alive_places(m, infos, n)[k] < n,
    decreases n,
{
    if n > 0 {
        lemma_alive_places(m, infos, (n - 1) as nat);
        let s = alive_places(m, infos, n);
        let s0 = alive_places(m, infos, (n - 1) as nat);
        assert forall|k: int| 0 <= k < s.len() implies #[trigger] s[k] < n by {
            if k < s0.len() {
                assert(s[k] == s0[k]);
            }
        }
    }
}

proof fn lemma_next_turn_index(g: GameInfo, from: nat)
    ensures
        next_turn_index(g, from) >= from,
        next_turn_index(g, from) < g.turn_table@.len() ==> g.player_infos@[g.turn_table@[next_turn_index(g, from) as int] as int].hp != 0,
        forall|k: int| from <= k < next_turn_index(g, from) && k < g.turn_table@.len() ==> g.player_infos@[#[trigger] g.turn_table@[k] as int].hp == 0,
        next_turn_index(g, from) > g.turn_table@.len() ==> next_turn_index(g, from) == from,
    decreases g.turn_table@.len() - from,
{
    if from < g.turn_table@.len() && g.player_infos@[g.turn_table@[from as int] as int].hp == 0 {
        lemma_next_turn_index(g, from + 1);
    }
}

/// Moves the game of `room_eid` to its next turn and tells its members whose
/// turn it is. Unless the game is starting, the turn passes to the next place in
/// the turn table whose character has hit points. When the table is used up, a
/// new cycle orders the occupied places with hit points by delay (equal delays
/// in random order). Loading marks are cleared; the wind is random from -30 to 30.
pub fn change_turn(world: &mut World, outbox: &mut Vec<Outgoing>, room_eid: &EntityId, is_starting_game: bool)
    requires
        old(world).wf(),
        game_ok(old(world)@, *room_eid),
        turn_table_ok(game_of(old(world)@, *room_eid)),
        game_of(old(world)@, *room_eid).turn_index < usize::MAX,
        !turn_stuck(old(world)@, *room_eid, is_starting_game),
    ensures
        final(world).wf(),
        final(world).next_id() == old(world).next_id(),
        final(world)@ == old(world)@.insert(*room_eid, EntityView {
            game: Some(game_of(final(world)@, *room_eid)),
            ..old(world)@[*room_eid]
        }),
        turn_moved(game_of(old(world)@, *room_eid), game_of(final(world)@, *room_eid), old(world)@[*room_eid].room->0.members@, is_starting_game),
        exists|wind: i8|
            -30 <= wind <= 30 && #[trigger] room_told(
                old(outbox)@,
                final(outbox)@,
                old(world)@,
                *room_eid,
                turn_body(
                    place_in_turn(game_of(final(world)@, *room_eid)) as u8,
                    wind,
                    None,
                    None,
                    hp_list_of(game_of(old(world)@, *room_eid)),
                ),
            ),
{
    let ghost w0 = world@;
    let ghost g0 = game_of(w0, *room_eid);
    let members = world.get(room_eid).unwrap().get::<RoomInfo>().unwrap().members;
    let room = world.get_mut(room_eid).unwrap();
    let game_info = room.get_mut::<GameInfo>().unwrap();
    if !is_starting_game {
        let turn_table_len = game_info.turn_table.len();
        let mut idx = game_info.turn_index + 1;
        proof { lemma_next_turn_index(g0, idx as nat); }
        while idx < turn_table_len
            invariant
                *game_info == g0,
                turn_table_len == g0.turn_table@.len(),
                turn_table_ok(g0),
                g0.turn_index + 1 <= idx,
                next_turn_index(g0, (g0.turn_index + 1) as nat) == next_turn_index(g0, idx as nat),
            ensures
                idx == next_turn_index(g0, (g0.turn_index + 1) as nat),
            decreases turn_table_len - idx,
        {
            let i = game_info.turn_table[idx];
            let hp = game_info.player_infos[i].hp;
            if hp != 0 {
                break;
            }
            idx = idx + 1;
        }
        game_info.turn_index = idx;
    }
    let turn_index = game_info.turn_index;
    let turn_table_len = game_info.turn_table.len();
    let ghost ti = if is_starting_game { g0.turn_index as nat } else { next_turn_index(g0, (g0.turn_index + 1) as nat) };
    assert(game_info.turn_index == ti);
    assert(members@ == w0[*room_eid].room->0.members@);
    if turn_index >= turn_table_len {
        let mut alive: Vec<usize> = Vec::new();
        let mut i: usize = 0;
        let ghost gb = *game_info;
        while i < 8
            invariant
                i <= 8,
                *game_info == gb,
                game_info.player_infos == g0.player_infos,
                alive@ == alive_places(members@, g0.player_infos@, i as nat),
                forall|k: int| 0 <= k < alive@.len() ==> #[trigger] alive@[k] < i,
            decreases 8 - i,
        {
            if members[i].is_some() && game_info.player_infos[i].hp != 0 {
                alive.push(i);
            }
            i = i + 1;
        }
        let order = order_by_delay(&alive, &game_info.player_infos);
        game_info.turn_table = order;
        game_info.turn_index = 0;
        proof {
            if order@.len() == 0 {
                vstd::seq_lib::to_multiset_len(order@);
                vstd::seq_lib::to_multiset_len(alive@);
                assert(alive@.len() == 0);
            }
        }
    }
    let ghost g1 = *game_info;
    assert(g1.room_eid == g0.room_eid && g1.player_infos == g0.player_infos);
    assert(turn_table_ok(g1) && g1.turn_index < g1.turn_table@.len());
    let mut i: usize = 0;
    while i < 8
        invariant
            i <= 8,
            game_info.room_eid == g1.room_eid,
            game_info.player_infos == g1.player_infos,
            game_info.turn_table == g1.turn_table,
            game_info.turn_index == g1.turn_index,
            forall|k: int| 0 <= k < i ==> #[trigger] game_info.load_table@[k] == false,
        decreases 8 - i,
    {
        game_info.load_table[i] = false;
        i = i + 1;
    }
    assert(game_info.load_table@ =~= Seq::new(8, |k: int| false));
    let ghost g2 = *game_info;
    assert(turn_moved(g0, g2, members@, is_starting_game));
    assert(world@[*room_eid].room == w0[*room_eid].room);
    let index_in_room = get_index_in_room_in_turn(world, room_eid);
    let delay_list = get_delay_list(world, room_eid);
    let hp_list = get_hp_list(world, room_eid);
    assert(hp_list@ =~= hp_list_of(g0));
    let wind_velocity = random_wind();
    let pkt = make_turn_change_pkt(index_in_room as u8, wind_velocity, None, None, &delay_list, &hp_list);
    let room = world.get(room_eid).unwrap();
    crate::room::send_to_all(world, outbox, room, &pkt);
    proof {
        assert(is_packet_of(pkt@, turn_body(index_in_room as u8, wind_velocity, None, None, hp_list_of(g0))));
        assert(room_told(old(outbox)@, outbox@, w0, *room_eid,
            turn_body(index_in_room as u8, wind_velocity, None, None, hp_list_of(g0))));
    }
}

/// The body that ends a game won by `winner_team`.
pub open spec fn end_body(winner_team: usize) -> Seq<u8> {
    body_prefix(90) + seq![winner_team as u8, 0u8]
}

/// Puts every member of the room `room_eid` back in the room.
pub fn set_client_states_to_on_room(world: &mut World, room_eid: &EntityId)
    requires
        old(world).wf(),
        old(world)@.contains_key(*room_eid),
        old(world)@[*room_eid].room is Some,
        members_reachable(old(world)@, old(world)@[*room_eid].room->0),
    ensures
        final(world).wf(),
        final(world).next_id() == old(world).next_id(),
        final(world)@ == with_states(
            old(world)@,
            member_ids(old(world)@[*room_eid].room->0.members@),
            ClientState::OnRoom,
        ),
{
    let ids = {
        let room = world.get(room_eid).unwrap();
        get_user_entity_ids(room)
    };
    proof {
        let m = world@[*room_eid].room->0.members@;
        lemma_member_ids_contains(m);
        assert forall|i: int| 0 <= i < ids@.len() implies world@.contains_key(#[trigger] ids@[i]) by {
            assert(member_ids(m).contains(ids@[i]));
            let j = choose|j: int| 0 <= j < m.len() && m[j] == Some(ids@[i]);
            assert(m[j] is Some);
        }
    }
    set_states(world, &ids, ClientState::OnRoom);
}

/// `w` with each of `ids` not ready in its room.
pub open spec fn with_not_ready(w: Map<EntityId, EntityView>, ids: Seq<EntityId>) -> Map<EntityId, EntityView> {
    Map::new(
        |k: EntityId| w.contains_key(k),
        |k: EntityId|
            if ids.contains(k) {
                EntityView {
                    on_room: Some(OnRoomInfo { state_in_room: StateInRoom::NotReady, ..w[k].on_room->0 }),
                    ..w[k]
                }
            } else {
                w[k]
            },
    )
}

/// Makes each of `ids` not ready in its room.
fn set_not_ready(world: &mut World, ids: &Vec<EntityId>)
    requires
        old(world).wf(),
        forall|i: int|
            0 <= i < ids@.len() ==> old(world)@.contains_key(#[trigger] ids@[i]) && old(world)@[ids@[i]].on_room is Some,
    ensures
        final(world).wf(),
        final(world).next_id() == old(world).next_id(),
        final(world)@ == with_not_ready(old(world)@, ids@),
{
    let ghost w0 = world@;
    let mut i: usize = 0;
    assert(w0 =~= with_not_ready(w0, ids@.subrange(0, 0)));
    while i < ids.len()
        invariant
            i <= ids@.len(),
            world.wf(),
            world.next_id() == old(world).next_id(),
            w0 == old(world)@,
            forall|j: int| 0 <= j < ids@.len() ==> w0.contains_key(#[trigger] ids@[j]) && w0[ids@[j]].on_room is Some,
            world@ == with_not_ready(w0, ids@.subrange(0, i as int)),
        decreases ids@.len() - i,
    {
        let id = ids[i];
        assert(world@.contains_key(id));
        let entity = world.get_mut(&id).unwrap();
        let info = entity.get_mut::<OnRoomInfo>().unwrap();
        info.state_in_room = StateInRoom::NotReady;
        proof {
            let s0 = ids@.subrange(0, i as int);
            let s1 = ids@.subrange(0, i + 1);
            assert(s1 =~= s0.push(id));
            assert forall|k: EntityId| #![auto] s1.contains(k) <==> (s0.contains(k) || k == id) by {
                if s1.contains(k) {
                    let j = choose|j: int| 0 <= j < s1.len() && s1[j] == k;
                    if j < s0.len() {
                        assert(s0[j] == k);
                    }
                }
                if s0.contains(k) {
                    let j = choose|j: int| 0 <= j < s0.len() && s0[j] == k;
                    assert(s1[j] == k);
                }
                if k == id {
                    assert(s1[i as int] == k);
                }
            }
            assert(world@ =~= with_not_ready(w0, s1));
        }
        i = i + 1;
    }
    assert(ids@.subrange(0, i as int) =~= ids@);
}

/// The world after the game of room `room_eid` ends: its members are back in
/// the room and not ready, and the room is no longer playing.
pub open spec fn end_world(w: Map<EntityId, EntityView>, room_eid: EntityId) -> Map<EntityId, EntityView> {
    let ids = member_ids(w[room_eid].room->0.members@);
    let w1 = with_states(w, ids, ClientState::OnRoom);
    let w2 = w1.insert(
        room_eid,
        EntityView { room: Some(RoomInfo { is_playing: false, ..w1[room_eid].room->0 }), ..w1[room_eid] },
    );
    with_not_ready(w2, ids)
}

/// Ends the game of room `room_eid`, won by `winner_team`: tells the members,
/// puts them back in the room, not ready, and marks the room as not playing.
pub fn end_game(world: &mut World, outbox: &mut Vec<Outgoing>, room_eid: &EntityId, winner_team: usize)
    requires
        old(world).wf(),
        game_ok(old(world)@, *room_eid),
        members_are_players(old(world)@, *room_eid),
    ensures
        final(world).wf(),
        final(world).next_id() == old(world).next_id(),
        final(world)@ == end_world(old(world)@, *room_eid),
        room_told(old(outbox)@, final(outbox)@, old(world)@, *room_eid, end_body(winner_team)),
{
    let ghost w0 = world@;
    let ghost m = w0[*room_eid].room->0.members@;
    let mut pw = PacketWriter::new(90);
    pw.u8(winner_team as u8).u8(0);
    proof {
        assert(pw.bytes() =~= end_body(winner_team));
    }
    let pkt = pw.as_vec();
    send_to_room(world, outbox, room_eid, &pkt);
    assert(room_told(old(outbox)@, outbox@, w0, *room_eid, end_body(winner_team)));
    set_client_states_to_on_room(world, room_eid);
    let ghost w1 = world@;
    assert(w1[*room_eid] == w0[*room_eid] || w1[*room_eid].room == w0[*room_eid].room);
    {
        let room = world.get_mut(room_eid).unwrap();
        let room_info = room.get_mut::<RoomInfo>().unwrap();
        room_info.is_playing = false;
    }
    let ghost w2 = world@;
    let ids = {
        let room = world.get(room_eid).unwrap();
        get_user_entity_ids(room)
    };
    proof {
        lemma_member_ids_contains(m);
        assert(w2[*room_eid].room->0.members == w0[*room_eid].room->0.members);
        assert(ids@ == member_ids(m));
        assert forall|i: int| 0 <= i < ids@.len() implies w2.contains_key(#[trigger] ids@[i]) && w2[ids@[i]].on_room is Some by {
            assert(member_ids(m).contains(ids@[i]));
            let j = choose|j: int| 0 <= j < m.len() && m[j] == Some(ids@[i]);
            assert(m[j] is Some);
        }
    }
    set_not_ready(world, &ids);
    assert(world@ =~= end_world(w0, *room_eid));
}

/// Some place has a character with hit points: the list of living places is not empty.
proof fn lemma_alive_nonempty(m: Seq<Option<EntityId>>, infos: Seq<PlayerInfo>, n: nat, j: int)
    requires
        0 <= j < n,
        n <= 8,
        m[j] is Some,
        infos[j].hp != 0,
    ensures
        alive_places(m, infos, n).len() > 0,
    decreases n,
{
    if j < n - 1 {
        lemma_alive_nonempty(m, infos, (n - 1) as nat, j);
    }
}

/// The game of room `room_eid` can be driven: it exists with its members, who are
/// players, and its turn table names places.
pub open spec fn game_running(w: Map<EntityId, EntityView>, room_eid: EntityId) -> bool {
    &&& game_ok(w, room_eid)
    &&& members_are_players(w, room_eid)
    &&& turn_table_ok(game_of(w, room_eid))
    &&& game_of(w, room_eid).turn_index < usize::MAX
}

/// `w1` and `after` are `w0` and `before` once the turns of the game of room
/// `room_eid` have started at `now`: the first turn is set, the room is told
/// whose it is, and the timer that runs the turns is added under `timer_id`.
pub open spec fn turns_started(
    w0: Map<EntityId, EntityView>,
    w1: Map<EntityId, EntityView>,
    before: Seq<Outgoing>,
    after: Seq<Outgoing>,
    room_eid: EntityId,
    timer_id: EntityId,
    now: u64,
) -> bool {
    &&& turn_moved(game_of(w0, room_eid), game_of(w1, room_eid), w0[room_eid].room->0.members@, true)
    &&& w1 == w0.insert(room_eid, EntityView { game: Some(game_of(w1, room_eid)), ..w0[room_eid] }).insert(
        timer_id,
        timer_entity(timer_id, LOOP_PERIOD, TimerTask::MainLoop { room_eid: room_eid, turn_started: now }, now),
    )
    &&& exists|wind: i8|
        -30 <= wind <= 30 && #[trigger] room_told(
            before,
            after,
            w0,
            room_eid,
            turn_body(place_in_turn(game_of(w1, room_eid)) as u8, wind, None, None, hp_list_of(game_of(w0, room_eid))),
        )
}

/// Starts the turns of the game of room `room_eid` and adds the timer that runs
/// them, from `now` on.
pub fn loop_main(world: &mut World, outbox: &mut Vec<Outgoing>, room_eid: EntityId, now: u64)
    requires
        old(world).wf(),
        old(world).next_id() < u64::MAX,
        game_running(old(world)@, room_eid),
        !turn_stuck(old(world)@, room_eid, true),
    ensures
        final(world).wf(),
        final(world).next_id() == old(world).next_id() + 1,
        turns_started(old(world)@, final(world)@, old(outbox)@, final(outbox)@, room_eid, old(world).next_id(), now),
{
    change_turn(world, outbox, &room_eid, true);
    let ghost w1 = world@;
    let _ = create(world, LOOP_PERIOD, TimerTask::MainLoop { room_eid: room_eid, turn_started: now }, now);
    assert(w1.contains_key(room_eid));
}

/// Adds the timer that waits for the members of room `room_eid` to load the game, from `now` on.
pub fn loop_loading(world: &mut World, room_eid: EntityId, now: u64)
    requires
        old(world).wf(),
        old(world).next_id() < u64::MAX,
    ensures
        final(world).wf(),
        final(world).next_id() == old(world).next_id() + 1,
        final(world)@ == old(world)@.insert(
            old(world).next_id(),
            timer_entity(old(world).next_id(), LOOP_PERIOD, TimerTask::Loading { room_eid: room_eid, started: now }, now),
        ),
{
    let _ = create(world, LOOP_PERIOD, TimerTask::Loading { room_eid: room_eid, started: now }, now);
}

/// How long the members of a room may take to load a game, in milliseconds.
pub const LOADING_LIMIT: u64 = 30000;

/// How long a turn may take, in milliseconds.
pub const TURN_LIMIT: u64 = 120000;

/// One run of the timer that waits for the members of room `room_eid` to load
/// the game since `started`. Once all have loaded, the turns start (see
/// `loop_main`) and the timer is done (false); until then it keeps running (true).
pub fn loading_step(server: &mut Server, room_eid: EntityId, started: u64, now: u64) -> (keep: bool)
    requires
        old(server).world.wf(),
        old(server).world.next_id() < u64::MAX,
        game_running(old(server).world@, room_eid),
        elapsed(started, now) < LOADING_LIMIT,
        load_finished(old(server).world@, room_eid) ==> !turn_stuck(old(server).world@, room_eid, true),
    ensures
        final(server).config == old(server).config,
        final(server).world.wf(),
        keep == !load_finished(old(server).world@, room_eid),
        keep ==> final(server).world@ == old(server).world@ && final(server).outbox@ == old(server).outbox@
            && final(server).world.next_id() == old(server).world.next_id(),
        !keep ==> final(server).world.next_id() == old(server).world.next_id() + 1 && turns_started(
            old(server).world@,
            final(server).world@,
            old(server).outbox@,
            final(server).outbox@,
            room_eid,
            old(server).world.next_id(),
            now,
        ),
{
    let is_all_loaded = check_if_load_finished(&server.world, &room_eid);
    if is_all_loaded {
        loop_main(&mut server.world, &mut server.outbox, room_eid, now);
        return false;
    }
    true
}

/// Team `t` is the only team with a member that has hit points.
pub open spec fn sole_team(w: Map<EntityId, EntityView>, room_eid: EntityId, t: int) -> bool {
    &&& 0 <= t < 8
    &&& team_alive(w, room_eid, t)
    &&& forall|u: int| 0 <= u < 8 && u != t ==> !team_alive(w, room_eid, u)
}

/// `w1`, `after` and `r` are what one run of the timer that drives the game of
/// room `room_eid` makes of `w0` and `before`: while a member has not finished
/// its turn nothing changes and the turn keeps its start; then, if one team is
/// left, the game ends (none); otherwise the next turn starts at `now`.
pub open spec fn main_stepped(
    w0: Map<EntityId, EntityView>,
    w1: Map<EntityId, EntityView>,
    before: Seq<Outgoing>,
    after: Seq<Outgoing>,
    room_eid: EntityId,
    r: Option<u64>,
    turn_started: u64,
    now: u64,
) -> bool {
    if !load_finished(w0, room_eid) {
        r == Some(turn_started) && w1 == w0 && after == before
    } else {
        match r {
            None => exists|t: int|
                sole_team(w0, room_eid, t) && w1 == end_world(w0, room_eid) && #[trigger] room_told(
                    before,
                    after,
                    w0,
                    room_eid,
                    end_body(t as usize),
                ),
            Some(t) => {
                &&& t == now
                &&& forall|u: int| !sole_team(w0, room_eid, u)
                &&& turn_moved(game_of(w0, room_eid), game_of(w1, room_eid), w0[room_eid].room->0.members@, false)
                &&& w1 == w0.insert(room_eid, EntityView { game: Some(game_of(w1, room_eid)), ..w0[room_eid] })
                &&& exists|wind: i8|
                    -30 <= wind <= 30 && #[trigger] room_told(
                        before,
                        after,
                        w0,
                        room_eid,
                        turn_body(place_in_turn(game_of(w1, room_eid)) as u8, wind, None, None, hp_list_of(game_of(w0, room_eid))),
                    )
            },
        }
    }
}

/// One run of the timer that drives the game of room `room_eid`, whose current
/// turn started at `turn_started`. While a member has not finished its turn,
/// nothing happens. Then, if one team is left, the game ends and the timer is
/// done (none); otherwise the next turn starts at `now`.
pub fn main_step(server: &mut Server, room_eid: EntityId, turn_started: u64, now: u64) -> (r: Option<u64>)
    requires
        old(server).world.wf(),
        game_running(old(server).world@, room_eid),
        elapsed(turn_started, now) < TURN_LIMIT,
        load_finished(old(server).world@, room_eid) ==> anyone_alive(old(server).world@, room_eid),
    ensures
        final(server).config == old(server).config,
        final(server).world.wf(),
        final(server).world.next_id() == old(server).world.next_id(),
        main_stepped(
            old(server).world@,
            final(server).world@,
            old(server).outbox@,
            final(server).outbox@,
            room_eid,
            r,
            turn_started,
            now,
        ),
{
    let ghost w0 = server.world@;
    let is_turn_finished = check_if_load_finished(&server.world, &room_eid);
    if is_turn_finished {
        if let Some(team) = check_if_game_finished(&server.world, &room_eid) {
            let ghost o0 = server.outbox@;
            end_game(&mut server.world, &mut server.outbox, &room_eid, team);
            assert(sole_team(w0, room_eid, team as int));
            assert((team as int) as usize == team);
            assert(room_told(o0, server.outbox@, w0, room_eid, end_body((team as int) as usize)));
            return None;
        }
        proof {
            let (a, b) = choose|a: int, b: int|
                0 <= a < b < 8 && team_alive(w0, room_eid, a) && team_alive(w0, room_eid, b);
            let j = choose|j: int|
                0 <= j < ROOM_SIZE && #[trigger] w0[room_eid].room->0.members@[j] is Some
                    && game_of(w0, room_eid).player_infos@[j].hp > 0
                    && w0[w0[room_eid].room->0.members@[j]->0].on_room->0.team == a;
            lemma_alive_nonempty(w0[room_eid].room->0.members@, game_of(w0, room_eid).player_infos@, 8, j);
            assert forall|u: int| !sole_team(w0, room_eid, u) by {
                if sole_team(w0, room_eid, u) {
                    assert(u == a || !team_alive(w0, room_eid, a));
                    assert(u == b || !team_alive(w0, room_eid, b));
                }
            }
        }
        let ghost o0 = server.outbox@;
        change_turn(&mut server.world, &mut server.outbox, &room_eid, false);
        proof {
            let w1 = server.world@;
            let wind = choose|wind: i8|
                -30 <= wind <= 30 && #[trigger] room_told(o0, server.outbox@, w0, room_eid,
                    turn_body(place_in_turn(game_of(w1, room_eid)) as u8, wind, None, None, hp_list_of(game_of(w0, room_eid))));
            assert(room_told(o0, server.outbox@, w0, room_eid,
                turn_body(place_in_turn(game_of(w1, room_eid)) as u8, wind, None, None, hp_list_of(game_of(w0, room_eid)))));
        }
        assert(server.world@ == w0.insert(room_eid, EntityView { game: Some(game_of(server.world@, room_eid)), ..w0[room_eid] }));
        return Some(now);
    }
    Some(turn_started)
}

/// Who gets an in-game chat line of `kind` from `eid`: every member for kind 0,
/// nobody for a whisper (kind 1), the members of its team for kind 2.
pub open spec fn game_chat_recipients(w: Map<EntityId, EntityView>, eid: EntityId, kind: u8) -> Seq<EntityId> {
    let m = room_info_of(w, eid).members@;
    if kind == 0 {
        member_ids(m)
    } else if kind == 2 {
        team_ids(w, m, w[eid].on_room->0.team)
    } else {
        Seq::<EntityId>::empty()
    }
}

/// The members of the room of `eid` all have room state.
pub open spec fn members_in_room(w: Map<EntityId, EntityView>, eid: EntityId) -> bool {
    forall|i: int|
        0 <= i < ROOM_SIZE && #[trigger] room_info_of(w, eid).members@[i] is Some ==> w[room_info_of(w, eid).members@[i]->0].on_room is Some
}

/// What `on_chat` makes of the server `s0` for the client `eid` and the packet
/// `pr`: the server `s1` and the result `r`.
pub open spec fn chatted_in_game(s0: Server, s1: Server, eid: EntityId, pr: PacketReader, r: Result<(), HandleError>) -> bool {
    &&& s1.world == s0.world
    &&& s1.config == s0.config
    &&& ({
        let w = s0.world@;
        let b = pr.bytes();
        let kind = b[pr.pos() + 1int];
        if w[eid].login is None {
            r == Err::<(), HandleError>(HandleError::NoComponent) && s1.outbox@ == s0.outbox@
        } else if kind > 2 {
            r == Err::<(), HandleError>(HandleError::InvalidChatKind) && s1.outbox@ == s0.outbox@
        } else {
            &&& r is Ok
            &&& told(
                s0.outbox@,
                s1.outbox@,
                game_chat_recipients(w, eid, kind),
                chat_in_game_body(
                    b[pr.pos() as int],
                    kind,
                    w[eid].login->0.user_schema.name@,
                    field_text(b.subrange(pr.pos() + 2int, pr.pos() + 195int)),
                    None,
                    Some(place_of(w, eid) as u8),
                ),
            )
        }
    })
}

/// A chat line during a game: a byte, the kind, and 193 bytes of text. It goes
/// out with the sender's name and place to the recipients of its kind.
pub fn on_chat(server: &mut Server, entity_id: &EntityId, pr: PacketReader) -> (r: Result<(), HandleError>)
    requires
        old(server).world.wf(),
        in_room_ok(old(server).world@, *entity_id),
        pr.pos() + 195 <= pr.bytes().len(),
        pr.bytes()[pr.pos() + 1int] == 2 ==> members_in_room(old(server).world@, *entity_id),
    ensures
        chatted_in_game(*old(server), *final(server), *entity_id, pr, r),
{
    let ghost w = server.world@;
    let mut pr = pr;
    let unknown = pr.u8();
    let chat_kind = pr.u8();
    let text = pr.string(193);
    let world = &server.world;
    let entity = match world.get(entity_id) {
        Ok(e) => e,
        Err(e) => return Err(object_error(e)),
    };
    let login = match entity.get::<AfterLoginInfo>() {
        Ok(l) => l,
        Err(e) => return Err(object_error(e)),
    };
    let name = login.user_schema.name.as_str();
    let room_eid = get_room_eid(world, entity_id);
    let room = match world.get(&room_eid) {
        Ok(room) => room,
        Err(e) => return Err(object_error(e)),
    };
    let index_in_room = get_index_in_room(room, entity_id).unwrap();
    let pkt = chat_in_game(unknown, chat_kind, name, text.as_str(), None, Some(index_in_room as u8));
    if chat_kind == 0 {
        send_to_all(world, &mut server.outbox, room, &pkt);
    } else if chat_kind == 1 {
        assert(outbox_view(server.outbox@) =~= outbox_view(old(server).outbox@) + packets_to(Seq::<EntityId>::empty(), pkt@));
    } else if chat_kind == 2 {
        let team_no = entity.get::<OnRoomInfo>().unwrap().team;
        send_to_team(world, &mut server.outbox, room, &pkt, team_no);
    } else {
        return Err(HandleError::InvalidChatKind);
    }
    Ok(())
}

/// A team chat line during a game (kind 2) goes to exactly the members of the
/// sender's room whose team is the sender's team, the sender among them, and to
/// nobody else: a member of another team never receives it. What was queued
/// before stays as it was.
pub proof fn law_team_chat_stays_in_team(s0: Server, s1: Server, eid: EntityId, pr: PacketReader, r: Result<(), HandleError>)
    requires
        chatted_in_game(s0, s1, eid, pr, r),
        s0.world@[eid].login is Some,
        pr.bytes()[pr.pos() + 1int] == 2,
    ensures
        ({
            let w = s0.world@;
            let before = outbox_view(s0.outbox@);
            let after = outbox_view(s1.outbox@);
            let m = w[w[eid].on_room->0.room_entity_id].room->0.members@;
            &&& r is Ok
            &&& before.len() <= after.len()
            &&& after.subrange(0, before.len() as int) == before
            &&& forall|k: int|
                #![trigger after[k]]
                before.len() <= k < after.len() ==> exists|j: int|
                    0 <= j < m.len() && #[trigger] m[j] == Some(after[k].0) && w[after[k].0].on_room->0.team
                        == w[eid].on_room->0.team
            &&& forall|j: int|
                0 <= j < m.len() && #[trigger] m[j] is Some && w[m[j]->0].on_room->0.team == w[eid].on_room->0.team
                    ==> exists|k: int| before.len() <= k < after.len() && (#[trigger] after[k]).0 == m[j]->0
        }),
{
    let w = s0.world@;
    let b = pr.bytes();
    let kind = b[pr.pos() + 1int];
    let before = outbox_view(s0.outbox@);
    let after = outbox_view(s1.outbox@);
    let m = room_info_of(w, eid).members@;
    let team = w[eid].on_room->0.team;
    let ids = game_chat_recipients(w, eid, kind);
    assert(ids == team_ids(w, m, team));
    let body = chat_in_game_body(
        b[pr.pos() as int],
        kind,
        w[eid].login->0.user_schema.name@,
        field_text(b.subrange(pr.pos() + 2int, pr.pos() + 195int)),
        None,
        Some(place_of(w, eid) as u8),
    );
    let p = choose|p: Seq<u8>| is_packet_of(p, body) && after == before + packets_to(ids, p);
    assert(after == before + packets_to(ids, p));
    assert(after.subrange(0, before.len() as int) =~= before);
    crate::room::lemma_team_ids_contains(w, m, team);
    assert forall|k: int| #![trigger after[k]] before.len() <= k < after.len() implies exists|j: int|
        0 <= j < m.len() && #[trigger] m[j] == Some(after[k].0) && w[after[k].0].on_room->0.team == team by {
        assert(after[k] == packets_to(ids, p)[k - before.len()]);
        assert(ids[k - before.len()] == after[k].0);
        assert(ids.contains(after[k].0));
    }
    assert forall|j: int| 0 <= j < m.len() && #[trigger] m[j] is Some && w[m[j]->0].on_room->0.team == team implies exists|k: int|
        before.len() <= k < after.len() && (#[trigger] after[k]).0 == m[j]->0 by {
        let id = m[j]->0;
        assert(m[j] == Some(id));
        assert(ids.contains(id));
        let t = choose|t: int| 0 <= t < ids.len() && ids[t] == id;
        assert(after[before.len() + t] == packets_to(ids, p)[t]);
        assert(after[before.len() + t].0 == id);
    }
}

/// The game of the room of `eid` is there, with its turn in the table.
pub open spec fn playing_ok(w: Map<EntityId, EntityView>, eid: EntityId) -> bool {
    &&& in_room_ok(w, eid)
    &&& game_ok(w, room_of(w, eid))
    &&& game_of(w, room_of(w, eid)).turn_index < game_of(w, room_of(w, eid)).turn_table@.len()
}

/// The body that passes on a frame of movement: zeros up to byte 27, then `data`.
pub open spec fn frame_body(data: Seq<u8>) -> Seq<u8> {
    body_prefix((PACKET_ON_FRAME + 1) as u8) + zeros(19) + data
}

/// What `on_frame` makes of the server `s0` for the client `eid` and the packet
/// `pr`: the server `s1` and the result `r`.
pub open spec fn frame_passed(s0: Server, s1: Server, eid: EntityId, pr: PacketReader, r: Result<(), HandleError>) -> bool {
    &&& r is Ok
    &&& s1.world == s0.world
    &&& s1.config == s0.config
    &&& ({
        let w = s0.world@;
        if place_of(w, eid) == place_in_turn(game_of(w, room_of(w, eid))) {
            told(
                s0.outbox@,
                s1.outbox@,
                member_ids_except(room_info_of(w, eid).members@, eid),
                frame_body(pr.bytes().subrange(pr.pos() + 4int, pr.bytes().len() as int)),
            )
        } else {
            s1.outbox@ == s0.outbox@
        }
    })
}

/// A frame of movement from the client whose turn it is: what follows its first
/// four bytes goes to the other members of its room. From anyone else it is ignored.
pub fn on_frame(server: &mut Server, eid: &EntityId, pr: PacketReader) -> (r: Result<(), HandleError>)
    requires
        old(server).world.wf(),
        playing_ok(old(server).world@, *eid),
        pr.pos() + 4 <= pr.bytes().len(),
    ensures
        frame_passed(*old(server), *final(server), *eid, pr, r),
{
    let ghost w = server.world@;
    let world = &server.world;
    if !check_if_his_turn(world, eid) {
        return Ok(());
    }
    let mut pr = pr;
    let _ = pr.len();
    pr.seek(4);
    let left = pr.left();
    let movement_data = pr.vec(left);
    let pkt = {
        let mut pw = PacketWriter::new(PACKET_ON_FRAME + 1);
        pw.pad_to(27);
        pw.vec(&movement_data);
        proof {
            assert(pw.bytes() =~= frame_body(movement_data@));
        }
        pw.as_vec()
    };
    let room_eid = get_room_eid(world, eid);
    let room = world.get(&room_eid).unwrap();
    send_to_all_except(world, &mut server.outbox, room, &pkt, *eid);
    Ok(())
}

/// The game `g2` is `g` after the character in `place` reported its delay, hit
/// points and position (the four `u16` values at `at` in `b`) and finished.
pub open spec fn reported(g: GameInfo, g2: GameInfo, place: nat, b: Seq<u8>, at: int) -> bool {
    &&& g2.room_eid == g.room_eid
    &&& g2.turn_table == g.turn_table
    &&& g2.turn_index == g.turn_index
    &&& g2.load_table@ == g.load_table@.update(place as int, true)
    &&& g2.player_infos@ == g.player_infos@.update(
        place as int,
        PlayerInfo { delay: get_u16(b, at), hp: get_u16(b, at + 2), x: get_u16(b, at + 4), y: get_u16(b, at + 6) },
    )
}

/// Records the report of the client `eid`: its character's delay, hit points and
/// position, and that it has finished (loading, or its turn).
fn record_report(server: &mut Server, eid: &EntityId, pr: PacketReader)
    requires
        old(server).world.wf(),
        in_room_ok(old(server).world@, *eid),
        game_ok(old(server).world@, room_of(old(server).world@, *eid)),
        pr.pos() + 8 <= pr.bytes().len(),
    ensures
        final(server).config == old(server).config,
        final(server).outbox == old(server).outbox,
        final(server).world.wf(),
        final(server).world.next_id() == old(server).world.next_id(),
        ({
            let w = old(server).world@;
            let w2 = final(server).world@;
            let room_eid = room_of(w, *eid);
            &&& w2 == w.insert(room_eid, EntityView { game: Some(game_of(w2, room_eid)), ..w[room_eid] })
            &&& reported(game_of(w, room_eid), game_of(w2, room_eid), place_of(w, *eid), pr.bytes(), pr.pos() as int)
        }),
{
    let ghost w = server.world@;
    let mut pr = pr;
    let d = pr.u16();
    let h = pr.u16();
    let x = pr.u16();
    let y = pr.u16();
    let room_eid = get_room_eid(&server.world, eid);
    let room = server.world.get_mut(&room_eid).unwrap();
    let index_in_room = get_index_in_room(room, eid).unwrap();
    let game_info = room.get_mut::<GameInfo>().unwrap();
    game_info.load_table.set(index_in_room, true);
    game_info.player_infos.set(index_in_room, PlayerInfo { delay: d, hp: h, x: x, y: y });
}

/// What `end_loading` makes of the server `s0` for the client `eid` and the packet
/// `pr`: the server `s1` and the result `r`.
pub open spec fn loading_reported(s0: Server, s1: Server, eid: EntityId, pr: PacketReader, r: Result<(), HandleError>) -> bool {
    &&& r is Ok
    &&& s1.config == s0.config
    &&& s1.outbox == s0.outbox
    &&& s1.world.wf()
    &&& s1.world.next_id() == s0.world.next_id()
    &&& ({
        let w = s0.world@;
        let w2 = s1.world@;
        let room_eid = room_of(w, eid);
        &&& w2 == w.insert(room_eid, EntityView { game: Some(game_of(w2, room_eid)), ..w[room_eid] })
        &&& reported(game_of(w, room_eid), game_of(w2, room_eid), place_of(w, eid), pr.bytes(), pr.pos() as int)
    })
}

/// A client has loaded the game: its character's delay, hit points and position
/// are recorded, and it is marked as loaded.
pub fn end_loading(server: &mut Server, eid: &EntityId, pr: PacketReader) -> (r: Result<(), HandleError>)
    requires
        old(server).world.wf(),
        in_room_ok(old(server).world@, *eid),
        game_ok(old(server).world@, room_of(old(server).world@, *eid)),
        pr.pos() + 8 <= pr.bytes().len(),
    ensures
        loading_reported(*old(server), *final(server), *eid, pr, r),
{
    record_report(server, eid, pr);
    Ok(())
}

/// What `end_turn` makes of the server `s0` for the client `eid` and the packet
/// `pr`: the server `s1` and the result `r`.
pub open spec fn turn_reported(s0: Server, s1: Server, eid: EntityId, pr: PacketReader, r: Result<(), HandleError>) -> bool {
    &&& r is Ok
    &&& s1.config == s0.config
    &&& s1.outbox == s0.outbox
    &&& s1.world.wf()
    &&& s1.world.next_id() == s0.world.next_id()
    &&& ({
        let w = s0.world@;
        let w2 = s1.world@;
        let room_eid = room_of(w, eid);
        &&& w2 == w.insert(room_eid, EntityView { game: Some(game_of(w2, room_eid)), ..w[room_eid] })
        &&& reported(game_of(w, room_eid), game_of(w2, room_eid), place_of(w, eid), pr.bytes(), pr.pos() as int)
    })
}

/// A client has ended its turn: its character's delay, hit points and position
/// are recorded, and it is marked as done.
pub fn end_turn(server: &mut Server, eid: &EntityId, pr: PacketReader) -> (r: Result<(), HandleError>)
    requires
        old(server).world.wf(),
        in_room_ok(old(server).world@, *eid),
        game_ok(old(server).world@, room_of(old(server).world@, *eid)),
        pr.pos() + 8 <= pr.bytes().len(),
    ensures
        turn_reported(*old(server), *final(server), *eid, pr, r),
{
    record_report(server, eid, pr);
    Ok(())
}

/// The body that passes on the use of an item: the opcode, then the bytes as sent.
pub open spec fn item_body(data: Seq<u8>) -> Seq<u8> {
    body_prefix(PACKET_USE_ITEM) + data
}

/// What `use_item` makes of the server `s0` for the client `eid` and the packet
/// `pr`: the server `s1` and the result `r`.
pub open spec fn item_used(s0: Server, s1: Server, eid: EntityId, pr: PacketReader, r: Result<(), HandleError>) -> bool {
    &&& r is Ok
    &&& s1.world == s0.world
    &&& s1.config == s0.config
    &&& told(
        s0.outbox@,
        s1.outbox@,
        member_ids_except(room_info_of(s0.world@, eid).members@, eid),
        item_body(pr.bytes().subrange(pr.pos() as int, pr.bytes().len() as int)),
    )
}

/// A client used an item: the rest of its packet goes to the other members.
pub fn use_item(server: &mut Server, eid: &EntityId, pr: PacketReader) -> (r: Result<(), HandleError>)
    requires
        old(server).world.wf(),
        in_room_ok(old(server).world@, *eid),
        pr.pos() <= pr.bytes().len(),
    ensures
        item_used(*old(server), *final(server), *eid, pr, r),
{
    let mut pr = pr;
    let left = pr.left();
    let bytes = pr.vec(left);
    let mut pw = PacketWriter::new(PACKET_USE_ITEM);
    pw.vec(&bytes);
    proof {
        assert(pw.bytes() =~= item_body(bytes@));
    }
    let pkt = pw.as_vec();
    let world = &server.world;
    let room_eid = get_room_eid(world, eid);
    let room = world.get(&room_eid).unwrap();
    send_to_all_except(world, &mut server.outbox, room, &pkt, *eid);
    Ok(())
}

/// What `on_death` makes of the server `s0` for the client `eid` and the packet
/// `pr`: the server `s1` and the result `r`.
pub open spec fn death_reported(s0: Server, s1: Server, eid: EntityId, pr: PacketReader, r: Result<(), HandleError>) -> bool {
    &&& r is Ok
    &&& s1.world == s0.world
    &&& s1.config == s0.config
    &&& told(
        s0.outbox@,
        s1.outbox@,
        member_ids(room_info_of(s0.world@, eid).members@),
        death_body(place_of(s0.world@, eid)),
    )
}

/// A client's character died: its room is told.
pub fn on_death(server: &mut Server, eid: &EntityId, pr: PacketReader) -> (r: Result<(), HandleError>)
    requires
        old(server).world.wf(),
        in_room_ok(old(server).world@, *eid),
    ensures
        death_reported(*old(server), *final(server), *eid, pr, r),
{
    handle_on_death(server, eid)
}

/// What a packet from a client in a game needs, by its opcode.
pub open spec fn game_packet_ok(w: Map<EntityId, EntityView>, eid: EntityId, pr: PacketReader) -> bool {
    let op = pr.op();
    let b = pr.bytes();
    let at = pr.pos();
    &&& in_room_ok(w, eid)
    &&& op == PACKET_CHAT ==> at + 195 <= b.len() && (b[at + 1int] == 2 ==> members_in_room(w, eid))
    &&& op == PACKET_ON_FRAME ==> playing_ok(w, eid) && at + 4 <= b.len()
    &&& (op == PACKET_END_LOADING || op == PACKET_END_TURN) ==> game_ok(w, room_of(w, eid)) && at + 8 <= b.len()
    &&& op == PACKET_USE_ITEM ==> at <= b.len()
}

/// What `handle` makes of the server `s0` for a packet `pr` from the client `eid`
/// in a game: the server `s1` and the result `r`.
pub open spec fn game_handled(s0: Server, s1: Server, eid: EntityId, pr: PacketReader, r: Result<(), HandleError>) -> bool {
    &&& s1.config == s0.config
    &&& s1.world.wf()
    &&& s1.world.next_id() == s0.world.next_id()
    &&& pr.op() == PACKET_CHAT || pr.op() == PACKET_ON_FRAME || pr.op() == PACKET_USE_ITEM || pr.op() == PACKET_ON_DEATH
        ==> s1.world == s0.world
    &&& pr.op() == PACKET_CHAT ==> chatted_in_game(s0, s1, eid, pr, r)
    &&& pr.op() == PACKET_ON_FRAME ==> frame_passed(s0, s1, eid, pr, r)
    &&& pr.op() == PACKET_END_LOADING ==> loading_reported(s0, s1, eid, pr, r)
    &&& pr.op() == PACKET_USE_ITEM ==> item_used(s0, s1, eid, pr, r)
    &&& pr.op() == PACKET_END_TURN ==> turn_reported(s0, s1, eid, pr, r)
    &&& pr.op() == PACKET_ON_DEATH ==> death_reported(s0, s1, eid, pr, r)
    &&& pr.op() != PACKET_CHAT ==> r is Ok
    &&& pr.op() != PACKET_CHAT && pr.op() != PACKET_ON_FRAME && pr.op() != PACKET_END_LOADING && pr.op() != PACKET_USE_ITEM
        && pr.op() != PACKET_END_TURN && pr.op() != PACKET_ON_DEATH ==> s1.world == s0.world
        && s1.outbox == s0.outbox
}

/// Handles a packet from a client that is in a game, by its opcode; other
/// opcodes are ignored.
pub fn handle(server: &mut Server, entity_id: &EntityId, pr: PacketReader) -> (r: Result<(), HandleError>)
    requires
        old(server).world.wf(),
        game_packet_ok(old(server).world@, *entity_id, pr),
    ensures
        game_handled(*old(server), *final(server), *entity_id, pr, r),
{
    let op = pr.opcode();
    if op == PACKET_CHAT {
        on_chat(server, entity_id, pr)
    } else if op == PACKET_ON_FRAME {
        on_frame(server, entity_id, pr)
    } else if op == PACKET_END_LOADING {
        end_loading(server, entity_id, pr)
    } else if op == PACKET_USE_ITEM {
        use_item(server, entity_id, pr)
    } else if op == PACKET_END_TURN {
        end_turn(server, entity_id, pr)
    } else if op == PACKET_ON_DEATH {
        on_death(server, entity_id, pr)
    } else {
        Ok(())
    }
}

} // verus!
