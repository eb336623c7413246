//! Room entities: membership, state and the room list.
use vstd::prelude::*;
use crate::component::{EntityId, EntityKind, OnRoomInfo, RoomId, RoomInfo, RoomState, ROOM_SIZE};
use crate::object::{empty_entity, picked, Entity, EntityView, World};
use crate::session::{outbox_view, packets_to, send, Outgoing};

verus! {

/// The number of occupied places.
pub open spec fn member_count(m: Seq<Option<EntityId>>) -> nat
    decreases m.len(),
{
    if m.len() == 0 {
        0
    } else {
        member_count(m.drop_last()) + if m.last() is Some { 1nat } else { 0nat }
    }
}

/// The ids in the occupied places, in place order.
pub open spec fn member_ids(m: Seq<Option<EntityId>>) -> Seq<EntityId>
    decreases m.len(),
{
    if m.len() == 0 {
        Seq::<EntityId>::empty()
    } else if m.last() is Some {
        member_ids(m.drop_last()).push(m.last()->0)
    } else {
        member_ids(m.drop_last())
    }
}

/// The ids in the occupied places other than `except`, in place order.
pub open spec fn member_ids_except(m: Seq<Option<EntityId>>, except: EntityId) -> Seq<EntityId>
    decreases m.len(),
{
    if m.len() == 0 {
        Seq::<EntityId>::empty()
    } else if m.last() is Some && m.last()->0 != except {
        member_ids_except(m.drop_last(), except).push(m.last()->0)
    } else {
        member_ids_except(m.drop_last(), except)
    }
}

/// The state a room shows: playing, or waiting while there is room under its limit, or full.
pub open spec fn room_state_of(info: RoomInfo) -> RoomState {
    if info.is_playing {
        RoomState::Playing
    } else if member_count(info.members@) < info.max_clients {
        RoomState::Waiting
    } else {
        RoomState::Full
    }
}

/// The state of a room entity, if it is one.
pub open spec fn room_state_spec(e: EntityView) -> Option<RoomState> {
    match e.room {
        Some(info) => Some(room_state_of(info)),
        None => None,
    }
}

/// The first place that holds `id`, if any.
pub open spec fn index_of_member(m: Seq<Option<EntityId>>, id: EntityId) -> Option<nat>
    decreases m.len(),
{
    if m.len() == 0 {
        None
    } else if m[0] == Some(id) {
        Some(0)
    } else {
        match index_of_member(m.drop_first(), id) {
            Some(i) => Some(i + 1),
            None => None,
        }
    }
}

/// The first empty place, if any.
pub open spec fn first_empty(m: Seq<Option<EntityId>>) -> Option<nat>
    decreases m.len(),
{
    if m.len() == 0 {
        None
    } else if m[0] is None {
        Some(0)
    } else {
        match first_empty(m.drop_first()) {
            Some(i) => Some(i + 1),
            None => None,
        }
    }
}

/// A room holds at most as many members as it has places, and where it holds
/// as many, every place is taken.
pub proof fn lemma_member_count_bound(m: Seq<Option<EntityId>>)
    ensures
        member_count(m) <= m.len(),
        member_count(m) == m.len() ==> forall|i: int| 0 <= i < m.len() ==> m[i] is Some,
    decreases m.len(),
{
    if m.len() > 0 {
        lemma_member_count_bound(m.drop_last());
        if member_count(m) == m.len() {
            assert forall|i: int| 0 <= i < m.len() implies m[i] is Some by {
                if i < m.len() - 1 {
                    assert(m.drop_last()[i] == m[i]);
                }
            }
        }
    }
}

/// The first empty place is empty and every place before it is taken; if there
/// is none, every place is taken.
pub proof fn lemma_first_empty(m: Seq<Option<EntityId>>)
    ensures
        match first_empty(m) {
            Some(i) => i < m.len() && m[i as int] is None && forall|j: int| 0 <= j < i ==> m[j] is Some,
            None => forall|j: int| 0 <= j < m.len() ==> m[j] is Some,
        },
    decreases m.len(),
{
    if m.len() > 0 && m[0] is Some {
        lemma_first_empty(m.drop_first());
        assert forall|j: int| 1 <= j < m.len() implies m[j] == m.drop_first()[j - 1] by {}
    }
}

/// The place of `id` holds it and no place before does; if it has none, no
/// place holds it.
pub proof fn lemma_index_of_member(m: Seq<Option<EntityId>>, id: EntityId)
    ensures
        match index_of_member(m, id) {
            Some(i) => i < m.len() && m[i as int] == Some(id) && forall|j: int| 0 <= j < i ==> m[j] != Some(id),
            None => forall|j: int| 0 <= j < m.len() ==> m[j] != Some(id),
        },
    decreases m.len(),
{
    if m.len() > 0 && m[0] != Some(id) {
        lemma_index_of_member(m.drop_first(), id);
        assert forall|j: int| 1 <= j < m.len() implies m[j] == m.drop_first()[j - 1] by {}
    }
}

/// The position of the first place whose content satisfies the scan so far.
proof fn lemma_first_empty_at(m: Seq<Option<EntityId>>, i: int)
    requires
        0 <= i <= m.len(),
        forall|j: int| 0 <= j < i ==> m[j] is Some,
        i < m.len() ==> m[i] is None,
    ensures
        first_empty(m) == if i < m.len() { Some(i as nat) } else { None::<nat> },
    decreases m.len(),
{
    if m.len() > 0 && i > 0 {
        assert forall|j: int| 0 <= j < i - 1 implies m.drop_first()[j] is Some by {
            assert(m.drop_first()[j] == m[j + 1]);
        }
        lemma_first_empty_at(m.drop_first(), i - 1);
    }
}

/// The place of `id` is `i` where `i` holds it and no place before does.
pub proof fn lemma_index_of_member_at(m: Seq<Option<EntityId>>, id: EntityId, i: int)
    requires
        0 <= i <= m.len(),
        forall|j: int| 0 <= j < i ==> m[j] != Some(id),
        i < m.len() ==> m[i] == Some(id),
    ensures
        index_of_member(m, id) == if i < m.len() { Some(i as nat) } else { None::<nat> },
    decreases m.len(),
{
    if m.len() > 0 && i > 0 {
        assert forall|j: int| 0 <= j < i - 1 implies m.drop_first()[j] != Some(id) by {
            assert(m.drop_first()[j] == m[j + 1]);
        }
        lemma_index_of_member_at(m.drop_first(), id, i - 1);
    }
}

/// A new room entity.
pub open spec fn room_entity(id: EntityId, info: RoomInfo) -> EntityView {
    EntityView { kind: Some(EntityKind::Room), room: Some(info), ..empty_entity(id) }
}

/// Adds a room entity holding `info`.
pub fn create(world: &mut World, info: RoomInfo) -> (e: &mut Entity)
    requires
        old(world).wf(),
        old(world).next_id() < u64::MAX,
    ensures
        !old(world)@.contains_key(old(world).next_id()),
        e@ == room_entity(old(world).next_id(), info),
        final(e)@.id == old(world).next_id() ==> final(world).wf() && final(world)@ == old(
            world,
        )@.insert(old(world).next_id(), final(e)@),
        final(world).next_id() == old(world).next_id() + 1,
{
    let id = world.push();
    let entity = world.get_mut(&id).unwrap();
    entity.push(EntityKind::Room);
    entity.push(info);
    entity
}

/// The number of occupied places of `members`.
fn count_members(members: &[Option<EntityId>; 8]) -> (n: u8)
    ensures
        n == member_count(members@),
        n <= 8,
{
    let mut n: u8 = 0;
    let mut i: usize = 0;
    while i < ROOM_SIZE
        invariant
            i <= ROOM_SIZE,
            n == member_count(members@.subrange(0, i as int)),
            n <= i,
        decreases ROOM_SIZE - i,
    {
        proof {
            assert(members@.subrange(0, i + 1).drop_last() =~= members@.subrange(0, i as int));
        }
        if members[i].is_some() {
            n = n + 1;
        }
        i = i + 1;
    }
    assert(members@.subrange(0, 8) =~= members@);
    n
}

/// The state of a room entity; none if it has no room information.
pub fn get_room_state(room: &Entity) -> (r: Option<RoomState>)
    ensures
        r == room_state_spec(room@),
{
    if let Ok(info) = room.get::<RoomInfo>() {
        if info.is_playing {
            Some(RoomState::Playing)
        } else {
            let count = count_members(&info.members);
            if count < info.max_clients {
                Some(RoomState::Waiting)
            } else {
                Some(RoomState::Full)
            }
        }
    } else {
        None
    }
}

/// What happened when a client tried to join a room.
#[derive(Debug, Clone, Copy, PartialEq, Eq, Structural)]
pub enum TryAcceptClientResult {
    Accepted,
    FullOfClients,
    InGame,
}

/// A waiting room has an empty place (else joining it fails on a missing place).
pub open spec fn acceptable(e: EntityView) -> bool {
    &&& e.room is Some
    &&& room_state_of(e.room->0) == RoomState::Waiting ==> first_empty(e.room->0.members@) is Some
}

/// Puts the client `entity_id` into the first empty place of a waiting room.
pub fn try_accept_client(room: &mut Entity, entity_id: EntityId) -> (r: TryAcceptClientResult)
    requires
        acceptable(old(room)@),
    ensures
        final(room)@.id == old(room)@.id,
        ({
            let info = old(room)@.room->0;
            match room_state_of(info) {
                RoomState::Full => r == TryAcceptClientResult::FullOfClients && final(room)@ == old(room)@,
                RoomState::Playing => r == TryAcceptClientResult::InGame && final(room)@ == old(room)@,
                RoomState::Waiting => r == TryAcceptClientResult::Accepted && final(room)@ == (EntityView {
                    room: Some(RoomInfo {
                        members: final(room)@.room->0.members,
                        ..info
                    }),
                    ..old(room)@
                }) && final(room)@.room->0.members@ == info.members@.update(
                    first_empty(info.members@)->0 as int,
                    Some(entity_id),
                ),
            }
        }),
{
    let state = get_room_state(room).unwrap();
    if state == RoomState::Full {
        return TryAcceptClientResult::FullOfClients;
    } else if state == RoomState::Playing {
        return TryAcceptClientResult::InGame;
    }
    let room_info = room.get_mut::<RoomInfo>().unwrap();
    let mut empty_index: usize = 0;
    while empty_index < ROOM_SIZE
        invariant
            empty_index <= ROOM_SIZE,
            *room_info == old(room)@.room->0,
            forall|j: int| 0 <= j < empty_index ==> room_info.members@[j] is Some,
        ensures
            empty_index <= ROOM_SIZE,
            forall|j: int| 0 <= j < empty_index ==> room_info.members@[j] is Some,
            empty_index < ROOM_SIZE ==> room_info.members@[empty_index as int] is None,
        decreases ROOM_SIZE - empty_index,
    {
        if room_info.members[empty_index].is_none() {
            break;
        }
        empty_index = empty_index + 1;
    }
    proof {
        lemma_first_empty_at(room_info.members@, empty_index as int);
    }
    room_info.members[empty_index] = Some(entity_id);
    TryAcceptClientResult::Accepted
}

/// The ids of the members of a room, in place order.
pub fn get_user_entity_ids(room: &Entity) -> (ids: Vec<EntityId>)
    requires
        room@.room is Some,
    ensures
        ids@ == member_ids(room@.room->0.members@),
{
    let info = room.get::<RoomInfo>().unwrap();
    let mut ret: Vec<EntityId> = Vec::new();
    let mut i: usize = 0;
    while i < ROOM_SIZE
        invariant
            i <= ROOM_SIZE,
            info.members@.len() == ROOM_SIZE,
            ret@ == member_ids(info.members@.subrange(0, i as int)),
        decreases ROOM_SIZE - i,
    {
        proof {
            assert(info.members@.subrange(0, i + 1).drop_last() =~= info.members@.subrange(0, i as int));
        }
        if let Some(id) = info.members[i] {
            ret.push(id);
        }
        i = i + 1;
    }
    assert(info.members@.subrange(0, 8) =~= info.members@);
    ret
}

/// The place of `entity_id` in a room, if it is a member.
pub fn get_index_in_room(room: &Entity, entity_id: &EntityId) -> (r: Option<usize>)
    requires
        room@.room is Some,
    ensures
        match index_of_member(room@.room->0.members@, *entity_id) {
            Some(i) => r == Some(i as usize),
            None => r is None,
        },
        r matches Some(i) ==> i < ROOM_SIZE,
        index_of_member(room@.room->0.members@, *entity_id) is Some ==> index_of_member(
            room@.room->0.members@,
            *entity_id,
        )->0 < ROOM_SIZE,
{
    proof { lemma_index_of_member(room@.room->0.members@, *entity_id); }
    let info = room.get::<RoomInfo>().unwrap();
    let mut i: usize = 0;
    while i < ROOM_SIZE
        invariant
            i <= ROOM_SIZE,
            *info == room@.room->0,
            info.members@.len() == ROOM_SIZE,
            forall|j: int| 0 <= j < i ==> info.members@[j] != Some(*entity_id),
        decreases ROOM_SIZE - i,
    {
        if let Some(id) = info.members[i] {
            if id == *entity_id {
                proof { lemma_index_of_member_at(info.members@, *entity_id, i as int); }
                return Some(i);
            }
        }
        i = i + 1;
    }
    proof { lemma_index_of_member_at(info.members@, *entity_id, i as int); }
    None
}

/// Every member of the room is an entity of the world with a connection.
pub open spec fn members_reachable(world: Map<EntityId, EntityView>, info: RoomInfo) -> bool {
    forall|i: int|
        0 <= i < ROOM_SIZE && #[trigger] info.members@[i] is Some ==> world.contains_key(
            info.members@[i]->0,
        ) && world[info.members@[i]->0].sender is Some
}

/// Queues `pkt` for every member of the room, in place order.
pub fn send_to_all(world: &World, outbox: &mut Vec<Outgoing>, room: &Entity, pkt: &Vec<u8>)
    requires
        world.wf(),
        room@.room is Some,
        members_reachable(world@, room@.room->0),
    ensures
        outbox_view(final(outbox)@) == outbox_view(old(outbox)@) + packets_to(
            member_ids(room@.room->0.members@),
            pkt@,
        ),
{
    let info = room.get::<RoomInfo>().unwrap();
    let mut i: usize = 0;
    while i < ROOM_SIZE
        invariant
            i <= ROOM_SIZE,
            world.wf(),
            info.members@.len() == ROOM_SIZE,
            members_reachable(world@, *info),
            outbox_view(outbox@) == outbox_view(old(outbox)@) + packets_to(
                member_ids(info.members@.subrange(0, i as int)),
                pkt@,
            ),
        decreases ROOM_SIZE - i,
    {
        proof {
            assert(info.members@.subrange(0, i + 1).drop_last() =~= info.members@.subrange(0, i as int));
        }
        let ghost before = outbox_view(outbox@);
        if let Some(id) = info.members[i] {
            let entity = world.get(&id).unwrap();
            send(outbox, entity, pkt.clone());
            proof {
                let ids = member_ids(info.members@.subrange(0, i as int));
                assert(packets_to(ids.push(id), pkt@) =~= packets_to(ids, pkt@).push((id, Some(pkt@))));
            }
        }
        i = i + 1;
        assert(outbox_view(outbox@) =~= outbox_view(old(outbox)@) + packets_to(
            member_ids(info.members@.subrange(0, i as int)),
            pkt@,
        ));
    }
    assert(info.members@.subrange(0, 8) =~= info.members@);
}

/// Queues `pkt` for every member of the room but `except_id`, in place order.
pub fn send_to_all_except(
    world: &World,
    outbox: &mut Vec<Outgoing>,
    room: &Entity,
    pkt: &Vec<u8>,
    except_id: EntityId,
)
    requires
        world.wf(),
        room@.room is Some,
        members_reachable(world@, room@.room->0),
    ensures
        outbox_view(final(outbox)@) == outbox_view(old(outbox)@) + packets_to(
            member_ids_except(room@.room->0.members@, except_id),
            pkt@,
        ),
{
    let info = room.get::<RoomInfo>().unwrap();
    let mut i: usize = 0;
    while i < ROOM_SIZE
        invariant
            i <= ROOM_SIZE,
            world.wf(),
            info.members@.len() == ROOM_SIZE,
            members_reachable(world@, *info),
            outbox_view(outbox@) == outbox_view(old(outbox)@) + packets_to(
                member_ids_except(info.members@.subrange(0, i as int), except_id),
                pkt@,
            ),
        decreases ROOM_SIZE - i,
    {
        proof {
            assert(info.members@.subrange(0, i + 1).drop_last() =~= info.members@.subrange(0, i as int));
        }
        if let Some(id) = info.members[i] {
            if id != except_id {
                let entity = world.get(&id).unwrap();
                send(outbox, entity, pkt.clone());
                proof {
                    let ids = member_ids_except(info.members@.subrange(0, i as int), except_id);
                    assert(packets_to(ids.push(id), pkt@) =~= packets_to(ids, pkt@).push((id, Some(pkt@))));
                }
            }
        }
        i = i + 1;
        assert(outbox_view(outbox@) =~= outbox_view(old(outbox)@) + packets_to(
            member_ids_except(info.members@.subrange(0, i as int), except_id),
            pkt@,
        ));
    }
    assert(info.members@.subrange(0, 8) =~= info.members@);
}

/// The ids in the occupied places whose members are in `team`, in place order.
pub open spec fn team_ids(w: Map<EntityId, EntityView>, m: Seq<Option<EntityId>>, team: u8) -> Seq<EntityId>
    decreases m.len(),
{
    if m.len() == 0 {
        Seq::<EntityId>::empty()
    } else if m.last() is Some && w[m.last()->0].on_room->0.team == team {
        team_ids(w, m.drop_last(), team).push(m.last()->0)
    } else {
        team_ids(w, m.drop_last(), team)
    }
}

/// The ids of the team are exactly the ids held in occupied places whose
/// members are in `team`.
pub proof fn lemma_team_ids_contains(w: Map<EntityId, EntityView>, m: Seq<Option<EntityId>>, team: u8)
    ensures
        forall|k: EntityId|
            team_ids(w, m, team).contains(k) <==> exists|j: int|
                0 <= j < m.len() && #[trigger] m[j] == Some(k) && w[k].on_room->0.team == team,
    decreases m.len(),
{
    if m.len() > 0 {
        let m0 = m.drop_last();
        lemma_team_ids_contains(w, m0, team);
        let ids0 = team_ids(w, m0, team);
        let in_last = m.last() is Some && w[m.last()->0].on_room->0.team == team;
        assert forall|k: EntityId|
            team_ids(w, m, team).contains(k) <==> exists|j: int|
                0 <= j < m.len() && #[trigger] m[j] == Some(k) && w[k].on_room->0.team == team by {
            if team_ids(w, m, team).contains(k) {
                if in_last && m.last()->0 == k {
                    assert(m[m.len() - 1] == Some(k));
                } else {
                    if in_last {
                        let t = choose|t: int| 0 <= t < team_ids(w, m, team).len() && team_ids(w, m, team)[t] == k;
                        assert(team_ids(w, m, team) == ids0.push(m.last()->0));
                        assert(ids0[t] == k);
                    }
                    assert(ids0.contains(k));
                    let j = choose|j: int| 0 <= j < m0.len() && #[trigger] m0[j] == Some(k) && w[k].on_room->0.team == team;
                    assert(m[j] == Some(k));
                }
            }
            if exists|j: int| 0 <= j < m.len() && #[trigger] m[j] == Some(k) && w[k].on_room->0.team == team {
                let j = choose|j: int| 0 <= j < m.len() && #[trigger] m[j] == Some(k) && w[k].on_room->0.team == team;
                if j == m.len() - 1 {
                    assert(team_ids(w, m, team) == ids0.push(k));
                    assert(team_ids(w, m, team)[team_ids(w, m, team).len() - 1] == k);
                } else {
                    assert(m0[j] == Some(k));
                    assert(ids0.contains(k));
                    let t = choose|t: int| 0 <= t < ids0.len() && ids0[t] == k;
                    if in_last {
                        assert(team_ids(w, m, team) == ids0.push(m.last()->0));
                        assert(team_ids(w, m, team)[t] == k);
                    }
                }
            }
        }
    }
}

/// Queues `pkt` for every member of the room who is in `team`, in place order.
pub fn send_to_team(world: &World, outbox: &mut Vec<Outgoing>, room: &Entity, pkt: &Vec<u8>, team: u8)
    requires
        world.wf(),
        room@.room is Some,
        members_reachable(world@, room@.room->0),
        forall|i: int|
            0 <= i < ROOM_SIZE && #[trigger] room@.room->0.members@[i] is Some ==> world@[room@.room->0.members@[i]->0].on_room is Some,
    ensures
        outbox_view(final(outbox)@) == outbox_view(old(outbox)@) + packets_to(
            team_ids(world@, room@.room->0.members@, team),
            pkt@,
        ),
{
    let info = room.get::<RoomInfo>().unwrap();
    let mut i: usize = 0;
    while i < ROOM_SIZE
        invariant
            i <= ROOM_SIZE,
            world.wf(),
            info.members@.len() == ROOM_SIZE,
            members_reachable(world@, *info),
            forall|j: int|
                0 <= j < ROOM_SIZE && #[trigger] info.members@[j] is Some ==> world@[info.members@[j]->0].on_room is Some,
            outbox_view(outbox@) == outbox_view(old(outbox)@) + packets_to(
                team_ids(world@, info.members@.subrange(0, i as int), team),
                pkt@,
            ),
        decreases ROOM_SIZE - i,
    {
        proof {
            assert(info.members@.subrange(0, i + 1).drop_last() =~= info.members@.subrange(0, i as int));
        }
        if let Some(id) = info.members[i] {
            let entity = world.get(&id).unwrap();
            let member_team = entity.get::<OnRoomInfo>().unwrap().team;
            if member_team == team {
                send(outbox, entity, pkt.clone());
                proof {
                    let ids = team_ids(world@, info.members@.subrange(0, i as int), team);
                    assert(packets_to(ids.push(id), pkt@) =~= packets_to(ids, pkt@).push((id, Some(pkt@))));
                }
            }
        }
        i = i + 1;
        assert(outbox_view(outbox@) =~= outbox_view(old(outbox)@) + packets_to(
            team_ids(world@, info.members@.subrange(0, i as int), team),
            pkt@,
        ));
    }
    assert(info.members@.subrange(0, 8) =~= info.members@);
}

/// The room number of a room entity.
pub open spec fn uid_of(e: EntityView) -> u8 {
    e.room->0.room_uid
}

/// The rooms that a room list may show: all rooms, or the waiting ones only.
pub open spec fn listed(e: EntityView, waiting_only: bool) -> bool {
    &&& e.room is Some
    &&& waiting_only ==> room_state_of(e.room->0) == RoomState::Waiting
}

/// Room numbers do not decrease along `s`.
pub open spec fn sorted_by_uid(s: Seq<EntityView>) -> bool {
    forall|i: int, j: int| 0 <= i <= j < s.len() ==> uid_of(s[i]) <= uid_of(s[j])
}

/// The number of rooms of `s` numbered below `base`.
pub open spec fn count_below(s: Seq<EntityView>, base: u8) -> nat
    decreases s.len(),
{
    if s.len() == 0 {
        0
    } else {
        count_below(s.drop_last(), base) + if uid_of(s.last()) < base { 1nat } else { 0nat }
    }
}

/// The number of rooms of `s` numbered at most `base`.
pub open spec fn count_upto(s: Seq<EntityView>, base: u8) -> nat
    decreases s.len(),
{
    if s.len() == 0 {
        0
    } else {
        count_upto(s.drop_last(), base) + if uid_of(s.last()) <= base { 1nat } else { 0nat }
    }
}

/// The smaller of two numbers.
pub open spec fn min_nat(a: nat, b: nat) -> nat {
    if a <= b { a } else { b }
}

/// The page of at most eight rooms that a room list shows out of the sorted rooms `s`:
/// mode 1 pages forward from room `base`, filling up with the rooms just before it;
/// mode 2 pages backward to room `base`, filling up with the rooms just after it;
/// any other mode shows the first eight.
pub open spec fn room_window(s: Seq<EntityView>, mode: u8, base: u8) -> Seq<EntityView> {
    let n = s.len();
    if mode == 1 {
        let p = count_below(s, base);
        let na = min_nat(8, (n - p) as nat);
        let nb = min_nat((8 - na) as nat, p);
        s.subrange(p - nb, (p + na) as int)
    } else if mode == 2 {
        let q = count_upto(s, base);
        let na = min_nat(8, q);
        let nb = min_nat((8 - na) as nat, (n - q) as nat);
        s.subrange(q - na, (q + nb) as int)
    } else {
        s.subrange(0, min_nat(8, n) as int)
    }
}

/// The views of a sequence of entity references.
pub open spec fn ref_views(v: Seq<&Entity>) -> Seq<EntityView> {
    v.map_values(|e: &Entity| e@)
}

proof fn lemma_count_below(s: Seq<EntityView>, base: u8, p: int)
    requires
        0 <= p <= s.len(),
        forall|i: int| 0 <= i < p ==> uid_of(s[i]) < base,
        forall|i: int| p <= i < s.len() ==> uid_of(s[i]) >= base,
    ensures
        count_below(s, base) == p,
    decreases s.len(),
{
    if s.len() > 0 {
        let t = s.drop_last();
        if p == s.len() {
            lemma_count_below(t, base, p - 1);
        } else {
            lemma_count_below(t, base, p);
        }
    }
}

proof fn lemma_count_upto(s: Seq<EntityView>, base: u8, p: int)
    requires
        0 <= p <= s.len(),
        forall|i: int| 0 <= i < p ==> uid_of(s[i]) <= base,
        forall|i: int| p <= i < s.len() ==> uid_of(s[i]) > base,
    ensures
        count_upto(s, base) == p,
    decreases s.len(),
{
    if s.len() > 0 {
        let t = s.drop_last();
        if p == s.len() {
            lemma_count_upto(t, base, p - 1);
        } else {
            lemma_count_upto(t, base, p);
        }
    }
}

/// Sorts room entities by room number, keeping the order of equal numbers.
fn sort_rooms<'a>(rooms: Vec<&'a Entity>) -> (r: Vec<&'a Entity>)
    requires
        forall|i: int| 0 <= i < rooms@.len() ==> (#[trigger] rooms@[i])@.room is Some,
    ensures
        ref_views(r@).to_multiset() == ref_views(rooms@).to_multiset(),
        sorted_by_uid(ref_views(r@)),
        forall|i: int| 0 <= i < r@.len() ==> (#[trigger] r@[i])@.room is Some,
{
    broadcast use vstd::seq_lib::group_to_multiset_ensures;
    let mut out: Vec<&'a Entity> = Vec::new();
    let mut i: usize = 0;
    while i < rooms.len()
        invariant
            i <= rooms@.len(),
            forall|k: int| 0 <= k < rooms@.len() ==> (#[trigger] rooms@[k])@.room is Some,
            forall|k: int| 0 <= k < out@.len() ==> (#[trigger] out@[k])@.room is Some,
            ref_views(out@).to_multiset() == ref_views(rooms@.subrange(0, i as int)).to_multiset(),
            sorted_by_uid(ref_views(out@)),
        decreases rooms@.len() - i,
    {
        let x = rooms[i];
        let ux = x.get::<RoomInfo>().unwrap().room_uid;
        let mut j: usize = 0;
        while j < out.len()
            invariant
                j <= out@.len(),
                forall|k: int| 0 <= k < out@.len() ==> (#[trigger] out@[k])@.room is Some,
                forall|k: int| 0 <= k < j ==> uid_of((#[trigger] out@[k])@) <= ux,
            ensures
                j <= out@.len(),
                forall|k: int| 0 <= k < j ==> uid_of((#[trigger] out@[k])@) <= ux,
                j < out@.len() ==> uid_of(out@[j as int]@) > ux,
            decreases out@.len() - j,
        {
            if out[j].get::<RoomInfo>().unwrap().room_uid > ux {
                break;
            }
            j = j + 1;
        }
        let ghost before = out@;
        out.insert(j, x);
        proof {
            assert(ref_views(out@) =~= ref_views(before).insert(j as int, x@));
            assert(rooms@.subrange(0, i + 1) =~= rooms@.subrange(0, i as int).push(x));
            assert(ref_views(rooms@.subrange(0, i + 1)) =~= ref_views(rooms@.subrange(0, i as int)).push(x@));
            vstd::seq_lib::to_multiset_insert(ref_views(before), j as int, x@);
            vstd::seq_lib::to_multiset_build(ref_views(rooms@.subrange(0, i as int)), x@);
            let v = ref_views(out@);
            assert forall|a: int, b: int| 0 <= a <= b < v.len() implies uid_of(v[a]) <= uid_of(v[b]) by {
                let bv = ref_views(before);
                if a < j && b < j {
                    assert(v[a] == bv[a] && v[b] == bv[b]);
                } else if a < j && b == j {
                    assert(v[a] == bv[a]);
                } else if a < j {
                    assert(v[a] == bv[a] && v[b] == bv[b - 1]);
                } else if a == j && b == j {
                } else if a == j {
                    assert(v[b] == bv[b - 1]);
                    assert(uid_of(bv[j as int]) > ux);
                } else {
                    assert(v[a] == bv[a - 1] && v[b] == bv[b - 1]);
                }
            }
        }
        i = i + 1;
    }
    assert(rooms@.subrange(0, i as int) =~= rooms@);
    out
}

fn listed_room(e: &Entity, is_waiting_only: bool) -> (b: bool)
    ensures
        b == listed(e@, is_waiting_only),
{
    if let Some(state) = get_room_state(e) {
        if is_waiting_only {
            state == RoomState::Waiting
        } else {
            true
        }
    } else {
        false
    }
}

/// The rooms of the world that a room list shows: at most eight rooms, sorted by
/// room number, chosen by `mode` around room `base_room_id` (see `room_window`).
pub fn get_room_list(world: &World, is_waiting_only: bool, mode: u8, base_room_id: RoomId)
    -> (r: Vec<&Entity>)
    ensures
        exists|picks: Seq<bool>, sorted: Seq<EntityView>|
            {
                &&& picks.len() == world.views().len()
                &&& forall|i: int| 0 <= i < picks.len() ==> #[trigger] picks[i] == listed(world.views()[i], is_waiting_only)
                &&& sorted.to_multiset() == picked(world.views(), picks).to_multiset()
                &&& sorted_by_uid(sorted)
                &&& ref_views(r@) == room_window(sorted, mode, base_room_id)
            },
        r@.len() <= 8,
        forall|i: int| 0 <= i < r@.len() ==> (#[trigger] r@[i])@.room is Some,
        forall|i: int|
            0 <= i < r@.len() ==> exists|j: int| 0 <= j < world.views().len() && world.views()[j] == (#[trigger] r@[i])@,
{
    let f = |e: &Entity| -> (b: bool)
        ensures
            b == listed(e@, is_waiting_only),
        { listed_room(e, is_waiting_only) };
    let selected = world.select(f);
    let ghost picks = choose|picks: Seq<bool>|
        {
            &&& picks.len() == world.views().len()
            &&& forall|i: int|
                0 <= i < picks.len() ==> f.ensures((&world.entity_seq()[i],), #[trigger] picks[i])
            &&& ref_views(selected@) == picked(world.views(), picks)
        };
    proof {
        world.lemma_entity_seq();
        assert forall|i: int| 0 <= i < picks.len() implies #[trigger] picks[i] == listed(
            world.views()[i],
            is_waiting_only,
        ) by {
            assert(f.ensures((&world.entity_seq()[i],), picks[i]));
        }
        lemma_picked_listed(world.views(), picks, is_waiting_only);
        assert forall|i: int| 0 <= i < selected@.len() implies (#[trigger] selected@[i])@.room is Some by {
            assert(ref_views(selected@)[i] == selected@[i]@);
        }
    }
    let rooms = sort_rooms(selected);
    let ghost sorted = ref_views(rooms@);
    proof {
        broadcast use vstd::seq_lib::group_to_multiset_ensures;
        lemma_picked_from(world.views(), picks);
        assert forall|m: int| 0 <= m < rooms@.len() implies exists|j: int|
            0 <= j < world.views().len() && world.views()[j] == (#[trigger] rooms@[m])@ by {
            let x = rooms@[m]@;
            assert(sorted[m] == x);
            assert(sorted.contains(x));
            assert(sorted.to_multiset().count(x) > 0);
            assert(ref_views(selected@).to_multiset().count(x) > 0);
            assert(ref_views(selected@).contains(x));
            let t = choose|t: int| 0 <= t < ref_views(selected@).len() && ref_views(selected@)[t] == x;
            assert(picked(world.views(), picks)[t] == x);
        }
    }
    let n = rooms.len();
    let mut lo: usize = 0;
    let mut hi: usize = if n < 8 { n } else { 8 };
    if mode == 1 || mode == 2 {
        let mut p: usize = 0;
        while p < n
            invariant
                p <= n,
                n == rooms@.len(),
                sorted == ref_views(rooms@),
                forall|k: int| 0 <= k < n ==> (#[trigger] rooms@[k])@.room is Some,
                mode == 1 ==> forall|k: int| 0 <= k < p ==> uid_of(sorted[k]) < base_room_id,
                mode == 2 ==> forall|k: int| 0 <= k < p ==> uid_of(sorted[k]) <= base_room_id,
            ensures
                p <= n,
                mode == 1 ==> forall|k: int| 0 <= k < p ==> uid_of(sorted[k]) < base_room_id,
                mode == 2 ==> forall|k: int| 0 <= k < p ==> uid_of(sorted[k]) <= base_room_id,
                p < n ==> (mode == 1 ==> uid_of(sorted[p as int]) >= base_room_id),
                p < n ==> (mode == 2 ==> uid_of(sorted[p as int]) > base_room_id),
            decreases n - p,
        {
            let u = rooms[p].get::<RoomInfo>().unwrap().room_uid;
            if (mode == 1 && u >= base_room_id) || (mode == 2 && u > base_room_id) {
                break;
            }
            p = p + 1;
        }
        proof {
            assert forall|k: int| p <= k < n implies (mode == 1 ==> uid_of(sorted[k]) >= base_room_id)
                && (mode == 2 ==> uid_of(sorted[k]) > base_room_id) by {
                assert(uid_of(sorted[p as int]) <= uid_of(sorted[k]));
            }
            if mode == 1 {
                lemma_count_below(sorted, base_room_id, p as int);
            } else {
                lemma_count_upto(sorted, base_room_id, p as int);
            }
        }
        if mode == 1 {
            let na = if n - p < 8 { n - p } else { 8 };
            let nb = if 8 - na < p { 8 - na } else { p };
            lo = p - nb;
            hi = p + na;
        } else {
            let na = if p < 8 { p } else { 8 };
            let nb = if 8 - na < n - p { 8 - na } else { n - p };
            lo = p - na;
            hi = p + nb;
        }
    }
    let mut out: Vec<&Entity> = Vec::new();
    let mut k: usize = lo;
    while k < hi
        invariant
            lo <= k <= hi,
            hi <= n,
            n == rooms@.len(),
            forall|m: int| 0 <= m < n ==> (#[trigger] rooms@[m])@.room is Some,
            out@ == rooms@.subrange(lo as int, k as int),
            forall|m: int| 0 <= m < n ==> exists|j: int|
                0 <= j < world.views().len() && world.views()[j] == (#[trigger] rooms@[m])@,
        decreases hi - k,
    {
        out.push(rooms[k]);
        k = k + 1;
        assert(out@ =~= rooms@.subrange(lo as int, k as int));
    }
    assert(ref_views(out@) =~= room_window(sorted, mode, base_room_id));
    assert forall|i: int| 0 <= i < out@.len() implies exists|j: int|
        0 <= j < world.views().len() && world.views()[j] == (#[trigger] out@[i])@ by {
        assert(out@[i] == rooms@[lo + i]);
    }
    out
}

proof fn lemma_picked_from(s: Seq<EntityView>, picks: Seq<bool>)
    ensures
        forall|i: int|
            0 <= i < picked(s, picks).len() ==> exists|j: int| 0 <= j < s.len() && s[j] == #[trigger] picked(s, picks)[i],
    decreases s.len(),
{
    if s.len() > 0 && picks.len() > 0 {
        lemma_picked_from(s.drop_last(), picks.drop_last());
        let p = picked(s, picks);
        let p0 = picked(s.drop_last(), picks.drop_last());
        assert forall|i: int| 0 <= i < p.len() implies exists|j: int| 0 <= j < s.len() && s[j] == #[trigger] p[i] by {
            if i < p0.len() {
                assert(p[i] == p0[i]);
                let j = choose|j: int| 0 <= j < s.drop_last().len() && s.drop_last()[j] == p0[i];
                assert(s[j] == s.drop_last()[j]);
            } else {
                assert(p[i] == s[s.len() - 1]);
            }
        }
    }
}

proof fn lemma_picked_listed(s: Seq<EntityView>, picks: Seq<bool>, waiting_only: bool)
    requires
        picks.len() == s.len(),
        forall|i: int| 0 <= i < picks.len() ==> #[trigger] picks[i] == listed(s[i], waiting_only),
    ensures
        forall|i: int| 0 <= i < picked(s, picks).len() ==> (#[trigger] picked(s, picks)[i]).room is Some,
    decreases s.len(),
{
    if s.len() > 0 {
        lemma_picked_listed(s.drop_last(), picks.drop_last(), waiting_only);
    }
}

} // verus!
