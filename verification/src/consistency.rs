//! What the operations on the world keep: the clients in rooms and the rooms
//! that hold them agree.
use vstd::prelude::*;
use crate::after_login::{after_login_handled, lobby_entered, settings_updated, AfterLoginAction, PACKET_ENTER_LOBBY, PACKET_UPDATE_SETTINGS};
use crate::before_login::{before_login_handled, client_uids_unique, users_unique, PACKET_REENTER_SERVER};
use crate::component::{ClientState, EntityId, EntityKind, Instant, OnRoomInfo, PongInfo, RoomInfo, RoomState, TimerTask};
use crate::db::SettingSchema;
use crate::login::{packet_done, packet_handled, packet_ok, Action};
use crate::object::{empty_entity, EntityView};
use crate::on_game::{
    end_world, game_handled, game_running, load_finished, main_stepped, turns_started, with_not_ready,
    PACKET_END_LOADING, PACKET_END_TURN,
};
use crate::on_lobby::{
    all_rooms_listable, logged_reachable, members_showable, room_reachable, state_reachable,
    joined, lemma_room_with_uid, lobby_handled, lobby_packet_ok, room_created, room_entered, room_with_uid, rooms_full,
    went_back, PACKET_CREATE_ROOM, PACKET_ENTER_ROOM, PACKET_GO_BACK,
};
use crate::on_room::{
    char_changed, exit_members, game_started, got_not_ready, got_ready, kicked, left_room, lemma_member_ids_contains,
    map_changed, room_emptied, room_exited, room_handled, room_packet_ok, shop_entered_in_room, shop_left, team_changed,
    PACKET_CHANGE_CHAR, PACKET_CHANGE_MAP, PACKET_CHANGE_TEAM, PACKET_ENTER_SHOP, PACKET_EXIT_ROOM, PACKET_GET_NOT_READY,
    PACKET_GET_READY, PACKET_KICK, PACKET_LEAVE_SHOP, PACKET_START_GAME,
};
use crate::reader::PacketReader;
use crate::room::{
    acceptable, first_empty, index_of_member, lemma_first_empty, lemma_index_of_member, member_ids, members_reachable,
    room_state_of,
};
use crate::server::{in_room_ok, place_of, room_info_of, room_of, HandleError, Server};
use crate::session::with_states;
use crate::timer::{due, game_ticked, is_client, pinged_on, stale_reachable, tick_ok, timer_entity, LOOP_PERIOD};
use crate::packet::rooms_listable;

verus! {

/// The kind, the connection, the session state, the login and the room place
/// of an entity agree: only a client has a session state, a login or a place in
/// a room, and every client has a connection; a client has a place in a room
/// exactly while it is in a room or a game, and a login once it is past the
/// login screen; only a room has room information.
pub open spec fn entity_ok(e: EntityView) -> bool {
    &&& e.state is Some ==> e.kind == Some(EntityKind::Client) && (e.on_room is Some <==> (e.state == Some(
        ClientState::OnRoom,
    ) || e.state == Some(ClientState::OnGame)))
    &&& e.state is Some && e.state != Some(ClientState::BeforeLogin) ==> e.login is Some
    &&& e.on_room is Some ==> e.kind == Some(EntityKind::Client) && e.state is Some
    &&& e.login is Some ==> e.kind == Some(EntityKind::Client)
    &&& e.kind == Some(EntityKind::Client) ==> e.sender is Some
    &&& e.room is Some ==> e.kind == Some(EntityKind::Room)
}

/// Each member of room `r` is a client whose place is in `r`, and none is a
/// member twice.
pub open spec fn room_ok(w: Map<EntityId, EntityView>, r: EntityId) -> bool {
    let m = w[r].room->0.members@;
    &&& forall|i: int|
        0 <= i < 8 && #[trigger] m[i] is Some ==> w.contains_key(m[i]->0) && w[m[i]->0].on_room is Some && room_of(
            w,
            m[i]->0,
        ) == r
    &&& forall|i: int, j: int| 0 <= i < j < 8 && #[trigger] m[i] is Some && #[trigger] m[j] is Some ==> m[i] != m[j]
}

/// The world hangs together: every entity is as `entity_ok` says, every client
/// with a place in a room is in that room as `in_room_ok` says, and every room
/// is as `room_ok` says.
pub open spec fn consistent(w: Map<EntityId, EntityView>) -> bool {
    &&& forall|k: EntityId| #[trigger] w.contains_key(k) ==> entity_ok(w[k])
    &&& forall|k: EntityId| #[trigger] w.contains_key(k) && w[k].on_room is Some ==> in_room_ok(w, k)
    &&& forall|k: EntityId| #[trigger] w.contains_key(k) && w[k].room is Some ==> room_ok(w, k)
}

/// Two views of an entity agree on its login: neither has one, or both belong
/// to the same user under the same client uid.
pub open spec fn same_login(a: EntityView, b: EntityView) -> bool {
    &&& a.login is Some == b.login is Some
    &&& a.login is Some ==> a.login->0.client_uid == b.login->0.client_uid && a.login->0.user_schema.id@
        == b.login->0.user_schema.id@
}

/// Every login of `w2` was already in `w`, on the same entity.
pub open spec fn logins_kept(w: Map<EntityId, EntityView>, w2: Map<EntityId, EntityView>) -> bool {
    forall|k: EntityId|
        #[trigger] w2.contains_key(k) && w2[k].login is Some ==> w.contains_key(k) && same_login(w2[k], w[k])
}

/// No client uid, and no user, is logged in on two entities.
pub open spec fn logins_unique(w: Map<EntityId, EntityView>) -> bool {
    client_uids_unique(w) && users_unique(w)
}

/// The world hangs together and its logins are unique.
pub open spec fn world_ok(w: Map<EntityId, EntityView>) -> bool {
    consistent(w) && logins_unique(w)
}

/// Keeping the logins keeps them unique.
pub proof fn lemma_logins_kept(w: Map<EntityId, EntityView>, w2: Map<EntityId, EntityView>)
    requires
        logins_unique(w),
        logins_kept(w, w2),
    ensures
        logins_unique(w2),
{
    assert forall|a: EntityId, b: EntityId|
        #![trigger w2[a].login, w2[b].login]
        w2.contains_key(a) && w2.contains_key(b) && a != b && w2[a].login is Some && w2[b].login is Some
            implies w2[a].login->0.client_uid != w2[b].login->0.client_uid
            && w2[a].login->0.user_schema.id@ != w2[b].login->0.user_schema.id@ by {
        assert(w.contains_key(a) && same_login(w2[a], w[a]));
        assert(w.contains_key(b) && same_login(w2[b], w[b]));
        assert(w[a].login is Some && w[b].login is Some);
    }
}

/// Keeping the logins twice keeps them.
pub proof fn lemma_kept_twice(w1: Map<EntityId, EntityView>, w2: Map<EntityId, EntityView>, w3: Map<EntityId, EntityView>)
    requires
        logins_kept(w1, w2),
        logins_kept(w2, w3),
    ensures
        logins_kept(w1, w3),
{
    assert forall|k: EntityId| #[trigger] w3.contains_key(k) && w3[k].login is Some implies w1.contains_key(k)
        && same_login(w3[k], w1[k]) by {
        assert(w2.contains_key(k) && same_login(w3[k], w2[k]));
    }
}

/// In a consistent world, a client in a room or a game is in its room as
/// `in_room_ok` says: what its disconnection and its packets in the room rely on.
pub proof fn lemma_in_room(w: Map<EntityId, EntityView>, eid: EntityId)
    requires
        consistent(w),
        w.contains_key(eid),
        w[eid].state == Some(ClientState::OnRoom) || w[eid].state == Some(ClientState::OnGame),
    ensures
        in_room_ok(w, eid),
{
    assert(entity_ok(w[eid]));
}

/// In a consistent world, every client that has logged in, is in a session
/// state or has not answered the last check has a connection, and the members
/// of every room exist with a connection, a login and a place in a room: what
/// the chat, the user and room lists, the way into a room and the periodic
/// check of clients rely on.
pub proof fn lemma_reachable(w: Map<EntityId, EntityView>, eid: EntityId, st: ClientState)
    requires
        consistent(w),
    ensures
        logged_reachable(w),
        state_reachable(w, st),
        stale_reachable(w),
        all_rooms_listable(w),
        w.contains_key(eid) ==> room_reachable(w, eid),
        forall|r: EntityId| #[trigger] w.contains_key(r) && w[r].room is Some ==> members_showable(w, w[r].room->0.members@),
{
    assert forall|k: EntityId| #[trigger] w.contains_key(k) && w[k].login is Some implies w[k].sender is Some by {
        assert(entity_ok(w[k]));
    }
    assert forall|k: EntityId| #[trigger] w.contains_key(k) && w[k].state == Some(st) implies w[k].sender is Some by {
        assert(entity_ok(w[k]));
    }
    assert forall|k: EntityId| #[trigger] w.contains_key(k) && crate::timer::stale(w[k]) implies w[k].sender is Some by {
        assert(entity_ok(w[k]));
    }
    assert forall|r: EntityId| #[trigger] w.contains_key(r) && w[r].room is Some implies members_showable(
        w,
        w[r].room->0.members@,
    ) && rooms_listable(w, seq![w[r]]) by {
        assert(room_ok(w, r));
        let m = w[r].room->0.members@;
        assert forall|i: int| 0 <= i < 8 && #[trigger] m[i] is Some implies {
            &&& w.contains_key(m[i]->0)
            &&& w[m[i]->0].sender is Some
            &&& w[m[i]->0].login is Some
            &&& w[m[i]->0].on_room is Some
        } by {
            assert(entity_ok(w[m[i]->0]));
        }
        let one = seq![w[r]];
        assert(one[0] == w[r]);
        assert forall|k: int| #![trigger one[k]] 0 <= k < 1 implies one[k].room is Some && forall|j: int|
            0 <= j < 8 && #[trigger] one[k].room->0.members@[j] is Some && w.contains_key(one[k].room->0.members@[j]->0)
                ==> w[one[k].room->0.members@[j]->0].login is Some by {
            assert(one[k] == w[r]);
        }
    }
    if w.contains_key(eid) && w[eid].on_room is Some {
        assert(in_room_ok(w, eid));
    }
}

/// Changing an entity keeps the world consistent where the entity stays as
/// `entity_ok` says, keeps its connection, the room its place is in, and
/// whether it is a room with which members.
pub proof fn lemma_update_keeps(w: Map<EntityId, EntityView>, e: EntityId, v: EntityView)
    requires
        consistent(w),
        w.contains_key(e),
        entity_ok(v),
        v.sender == w[e].sender,
        v.on_room is Some == w[e].on_room is Some,
        v.on_room is Some ==> v.on_room->0.room_entity_id == w[e].on_room->0.room_entity_id,
        v.room is Some == w[e].room is Some,
        v.room is Some ==> v.room->0.members == w[e].room->0.members,
    ensures
        consistent(w.insert(e, v)),
        same_login(v, w[e]) ==> logins_kept(w, w.insert(e, v)),
{
    let w2 = w.insert(e, v);
    assert forall|k: EntityId| #[trigger] w2.contains_key(k) && w2[k].on_room is Some implies in_room_ok(w2, k) by {
        assert(in_room_ok(w, k));
        let r = room_of(w, k);
        assert(room_of(w2, k) == r);
        assert(room_info_of(w2, k).members == room_info_of(w, k).members);
        let m = room_info_of(w, k).members@;
        assert forall|i: int| 0 <= i < 8 && #[trigger] m[i] is Some implies w2.contains_key(m[i]->0)
            && w2[m[i]->0].sender is Some by {
            assert(members_reachable(w, room_info_of(w, k)));
        }
    }
    assert forall|k: EntityId| #[trigger] w2.contains_key(k) && w2[k].room is Some implies room_ok(w2, k) by {
        assert(room_ok(w, k));
        let m = w[k].room->0.members@;
        assert(w2[k].room->0.members@ == m);
        assert forall|i: int| 0 <= i < 8 && #[trigger] m[i] is Some implies w2.contains_key(m[i]->0)
            && w2[m[i]->0].on_room is Some && room_of(w2, m[i]->0) == k by {}
    }
}

/// Adding an entity that is as `entity_ok` says and has no place in a room and
/// no room information keeps the world consistent.
pub proof fn lemma_add_keeps(w: Map<EntityId, EntityView>, id: EntityId, v: EntityView)
    requires
        consistent(w),
        !w.contains_key(id),
        entity_ok(v),
        v.on_room is None,
        v.room is None,
        v.login is None,
    ensures
        consistent(w.insert(id, v)),
        logins_kept(w, w.insert(id, v)),
{
    let w2 = w.insert(id, v);
    assert forall|k: EntityId| #[trigger] w2.contains_key(k) && w2[k].on_room is Some implies in_room_ok(w2, k) by {
        assert(in_room_ok(w, k));
        let m = room_info_of(w, k).members@;
        assert forall|i: int| 0 <= i < 8 && #[trigger] m[i] is Some implies w2.contains_key(m[i]->0)
            && w2[m[i]->0].sender is Some by {
            assert(members_reachable(w, room_info_of(w, k)));
        }
    }
    assert forall|k: EntityId| #[trigger] w2.contains_key(k) && w2[k].room is Some implies room_ok(w2, k) by {
        assert(room_ok(w, k));
        let m = w[k].room->0.members@;
        assert forall|i: int| 0 <= i < 8 && #[trigger] m[i] is Some implies w2.contains_key(m[i]->0)
            && w2[m[i]->0].on_room is Some && room_of(w2, m[i]->0) == k by {}
    }
}

/// Removing an entity that has no place in a room and no room information
/// keeps the world consistent.
pub proof fn lemma_remove_keeps(w: Map<EntityId, EntityView>, id: EntityId)
    requires
        consistent(w),
        w.contains_key(id) ==> w[id].on_room is None && w[id].room is None,
    ensures
        consistent(w.remove(id)),
        logins_kept(w, w.remove(id)),
{
    let w2 = w.remove(id);
    assert forall|k: EntityId| #[trigger] w2.contains_key(k) && w2[k].on_room is Some implies in_room_ok(w2, k) by {
        assert(in_room_ok(w, k));
        let r = room_of(w, k);
        assert(room_ok(w, r));
        let m = room_info_of(w, k).members@;
        assert forall|i: int| 0 <= i < 8 && #[trigger] m[i] is Some implies w2.contains_key(m[i]->0)
            && w2[m[i]->0].sender is Some by {
            assert(members_reachable(w, room_info_of(w, k)));
        }
    }
    assert forall|k: EntityId| #[trigger] w2.contains_key(k) && w2[k].room is Some implies room_ok(w2, k) by {
        assert(room_ok(w, k));
        let m = w[k].room->0.members@;
        assert forall|i: int| 0 <= i < 8 && #[trigger] m[i] is Some implies w2.contains_key(m[i]->0)
            && w2[m[i]->0].on_room is Some && room_of(w2, m[i]->0) == k by {}
    }
}

/// Putting clients that have a place in a room into a room or a game keeps the
/// world consistent.
pub proof fn lemma_states_keep(w: Map<EntityId, EntityView>, ids: Seq<EntityId>, st: ClientState)
    requires
        consistent(w),
        forall|i: int| 0 <= i < ids.len() ==> w.contains_key(#[trigger] ids[i]) && w[ids[i]].on_room is Some,
        st == ClientState::OnRoom || st == ClientState::OnGame,
    ensures
        consistent(with_states(w, ids, st)),
        logins_kept(w, with_states(w, ids, st)),
{
    let w2 = with_states(w, ids, st);
    assert forall|k: EntityId| #[trigger] w2.contains_key(k) implies entity_ok(w2[k]) by {
        assert(entity_ok(w[k]));
        if ids.contains(k) {
            let i = choose|i: int| 0 <= i < ids.len() && ids[i] == k;
            assert(w[ids[i]].on_room is Some);
        }
    }
    assert forall|k: EntityId| #[trigger] w2.contains_key(k) && w2[k].on_room is Some implies in_room_ok(w2, k) by {
        assert(in_room_ok(w, k));
        let m = room_info_of(w, k).members@;
        assert forall|i: int| 0 <= i < 8 && #[trigger] m[i] is Some implies w2.contains_key(m[i]->0)
            && w2[m[i]->0].sender is Some by {
            assert(members_reachable(w, room_info_of(w, k)));
        }
    }
    assert forall|k: EntityId| #[trigger] w2.contains_key(k) && w2[k].room is Some implies room_ok(w2, k) by {
        assert(room_ok(w, k));
        let m = w[k].room->0.members@;
        assert forall|i: int| 0 <= i < 8 && #[trigger] m[i] is Some implies w2.contains_key(m[i]->0)
            && w2[m[i]->0].on_room is Some && room_of(w2, m[i]->0) == k by {}
    }
}

/// The periodic check of clients keeps the world consistent.
pub proof fn lemma_pinged_keeps(w: Map<EntityId, EntityView>, ids: Seq<EntityId>)
    requires
        consistent(w),
    ensures
        consistent(pinged_on(w, ids)),
        logins_kept(w, pinged_on(w, ids)),
{
    let w2 = pinged_on(w, ids);
    assert forall|k: EntityId| #[trigger] w2.contains_key(k) implies entity_ok(w2[k]) by {
        assert(entity_ok(w[k]));
    }
    assert forall|k: EntityId| #[trigger] w2.contains_key(k) && w2[k].on_room is Some implies in_room_ok(w2, k) by {
        assert(in_room_ok(w, k));
        let m = room_info_of(w, k).members@;
        assert forall|i: int| 0 <= i < 8 && #[trigger] m[i] is Some implies w2.contains_key(m[i]->0)
            && w2[m[i]->0].sender is Some by {
            assert(members_reachable(w, room_info_of(w, k)));
        }
    }
    assert forall|k: EntityId| #[trigger] w2.contains_key(k) && w2[k].room is Some implies room_ok(w2, k) by {
        assert(room_ok(w, k));
        let m = w[k].room->0.members@;
        assert forall|i: int| 0 <= i < 8 && #[trigger] m[i] is Some implies w2.contains_key(m[i]->0)
            && w2[m[i]->0].on_room is Some && room_of(w2, m[i]->0) == k by {}
    }
}

/// A client leaving its room keeps the world consistent.
pub proof fn lemma_exit_keeps(w: Map<EntityId, EntityView>, w2: Map<EntityId, EntityView>, eid: EntityId)
    requires
        consistent(w),
        w.contains_key(eid),
        w[eid].on_room is Some,
        left_room(w, w2, eid),
    ensures
        consistent(w2),
        logins_kept(w, w2),
{
    assert(entity_ok(w[eid]));
    assert(in_room_ok(w, eid));
    let r = room_of(w, eid);
    let m = room_info_of(w, eid).members@;
    let p = place_of(w, eid) as int;
    lemma_index_of_member(m, eid);
    assert(room_ok(w, r));
    assert(entity_ok(w[r]));
    let m2 = exit_members(w, eid);
    lemma_member_ids_contains(m2);
    // Every other member of the room keeps its place, so the room is not left empty.
    assert forall|i: int| 0 <= i < 8 && i != p && #[trigger] m[i] is Some implies m2[i] == m[i] && m[i] != Some(eid)
        && !room_emptied(w, eid) by {
        assert(m[p] is Some);
        assert(m2[i] == Some(m[i]->0));
        assert(member_ids(m2).contains(m[i]->0));
    }
    assert forall|k: EntityId| #[trigger] w2.contains_key(k) implies entity_ok(w2[k]) by {
        assert(entity_ok(w[k]));
    }
    assert forall|k: EntityId| #[trigger] w2.contains_key(k) && w2[k].on_room is Some implies in_room_ok(w2, k) by {
        assert(k != eid);
        assert(in_room_ok(w, k));
        let rk = room_of(w, k);
        assert(entity_ok(w[rk]));
        let mk = room_info_of(w, k).members@;
        lemma_index_of_member(mk, k);
        let i = index_of_member(mk, k)->0 as int;
        assert(room_ok(w, rk));
        if rk == r {
            assert(mk[i] == Some(k));
            assert(i != p);
            assert(!room_emptied(w, eid));
            let m3 = w2[r].room->0.members@;
            assert(m3 == m2);
            assert forall|j: int| 0 <= j < i implies m3[j] != Some(k) by {
                if j == p {
                } else {
                    assert(m3[j] == mk[j]);
                }
            }
            assert(m3[i] == Some(k));
            assert forall|j: int| 0 <= j < 8 && #[trigger] m3[j] is Some implies w2.contains_key(m3[j]->0)
                && w2[m3[j]->0].sender is Some by {
                assert(j != p);
                assert(m3[j] == mk[j]);
                assert(members_reachable(w, room_info_of(w, k)));
                assert(mk[j]->0 != eid);
                assert(w[mk[j]->0].on_room is Some);
                assert(entity_ok(w[mk[j]->0]));
            }
            crate::room::lemma_index_of_member_at(m3, k, i);
        } else {
            assert(rk != eid);
            assert(w2[rk] == w[rk]);
            assert forall|j: int| 0 <= j < 8 && #[trigger] mk[j] is Some implies w2.contains_key(mk[j]->0)
                && w2[mk[j]->0].sender is Some by {
                assert(members_reachable(w, room_info_of(w, k)));
                assert(room_of(w, mk[j]->0) == rk);
                assert(mk[j]->0 != eid);
                assert(w[mk[j]->0].on_room is Some);
                assert(entity_ok(w[mk[j]->0]));
            }
        }
    }
    assert forall|q: EntityId| #[trigger] w2.contains_key(q) && w2[q].room is Some implies room_ok(w2, q) by {
        assert(q != eid);
        assert(room_ok(w, q));
        assert(entity_ok(w[q]));
        let mq = w[q].room->0.members@;
        if q == r {
            assert(!room_emptied(w, eid));
            let m3 = w2[r].room->0.members@;
            assert(m3 == m2);
            assert forall|j: int| 0 <= j < 8 && #[trigger] m3[j] is Some implies w2.contains_key(m3[j]->0)
                && w2[m3[j]->0].on_room is Some && room_of(w2, m3[j]->0) == q by {
                assert(j != p);
                assert(m3[j] == mq[j]);
                assert(mq[j]->0 != eid);
            }
            assert forall|i: int, j: int| 0 <= i < j < 8 && #[trigger] m3[i] is Some && #[trigger] m3[j] is Some
                implies m3[i] != m3[j] by {
                assert(i != p && j != p);
                assert(m3[i] == mq[i] && m3[j] == mq[j]);
            }
        } else {
            assert(w2[q] == w[q]);
            assert forall|j: int| 0 <= j < 8 && #[trigger] mq[j] is Some implies w2.contains_key(mq[j]->0)
                && w2[mq[j]->0].on_room is Some && room_of(w2, mq[j]->0) == q by {
                assert(room_of(w, mq[j]->0) == q);
                assert(mq[j]->0 != eid);
                assert(w[mq[j]->0].on_room is Some);
                assert(entity_ok(w[mq[j]->0]));
            }
        }
    }
}

/// A logged-in client with no place in a room making a room, as its only
/// member, under a new id keeps the world consistent.
pub proof fn lemma_create_keeps(
    w: Map<EntityId, EntityView>,
    eid: EntityId,
    id: EntityId,
    info: RoomInfo,
    place: OnRoomInfo,
)
    requires
        consistent(w),
        !w.contains_key(id),
        w.contains_key(eid),
        w[eid].kind == Some(EntityKind::Client),
        w[eid].sender is Some,
        w[eid].login is Some,
        w[eid].on_room is None,
        info.members@ == seq![Some(eid)] + Seq::new(7, |i: int| None::<EntityId>),
        place.room_entity_id == id,
    ensures
        consistent(
            w.insert(id, EntityView { kind: Some(EntityKind::Room), room: Some(info), ..empty_entity(id) }).insert(
                eid,
                EntityView { state: Some(ClientState::OnRoom), on_room: Some(place), ..w[eid] },
            ),
        ),
        logins_kept(w, w.insert(id, EntityView { kind: Some(EntityKind::Room), room: Some(info), ..empty_entity(id) }).insert(
                eid,
                EntityView { state: Some(ClientState::OnRoom), on_room: Some(place), ..w[eid] },
            ),),
{
    let w1 = w.insert(id, EntityView { kind: Some(EntityKind::Room), room: Some(info), ..empty_entity(id) });
    let w2 = w1.insert(eid, EntityView { state: Some(ClientState::OnRoom), on_room: Some(place), ..w[eid] });
    let m = info.members@;
    assert(entity_ok(w[eid]));
    assert(m[0] == Some(eid));
    assert forall|i: int| 1 <= i < 8 implies m[i] is None by {}
    assert forall|k: EntityId| #[trigger] w2.contains_key(k) implies entity_ok(w2[k]) by {
        if k != id && k != eid {
            assert(entity_ok(w[k]));
        }
    }
    assert forall|k: EntityId| #[trigger] w2.contains_key(k) && w2[k].on_room is Some implies in_room_ok(w2, k) by {
        if k == eid {
            crate::room::lemma_index_of_member_at(m, eid, 0);
            assert forall|j: int| 0 <= j < 8 && #[trigger] m[j] is Some implies w2.contains_key(m[j]->0)
                && w2[m[j]->0].sender is Some by {}
        } else {
            assert(in_room_ok(w, k));
            let rk = room_of(w, k);
            assert(room_ok(w, rk));
            let mk = room_info_of(w, k).members@;
            assert forall|j: int| 0 <= j < 8 && #[trigger] mk[j] is Some implies w2.contains_key(mk[j]->0)
                && w2[mk[j]->0].sender is Some by {
                assert(members_reachable(w, room_info_of(w, k)));
                assert(w[mk[j]->0].on_room is Some);
            }
        }
    }
    assert forall|q: EntityId| #[trigger] w2.contains_key(q) && w2[q].room is Some implies room_ok(w2, q) by {
        if q != id {
            assert(q != eid);
            assert(room_ok(w, q));
            let mq = w[q].room->0.members@;
            assert forall|j: int| 0 <= j < 8 && #[trigger] mq[j] is Some implies w2.contains_key(mq[j]->0)
                && w2[mq[j]->0].on_room is Some && room_of(w2, mq[j]->0) == q by {
                assert(w[mq[j]->0].on_room is Some);
            }
        }
    }
}

/// A logged-in client with no place in a room joining a room in its first empty
/// place keeps the world consistent.
pub proof fn lemma_join_keeps(
    w: Map<EntityId, EntityView>,
    eid: EntityId,
    rid: EntityId,
    info2: RoomInfo,
    place: OnRoomInfo,
)
    requires
        consistent(w),
        w.contains_key(eid),
        w[eid].kind == Some(EntityKind::Client),
        w[eid].sender is Some,
        w[eid].login is Some,
        w[eid].on_room is None,
        w.contains_key(rid),
        w[rid].room is Some,
        first_empty(w[rid].room->0.members@) is Some,
        info2.members@ == w[rid].room->0.members@.update(first_empty(w[rid].room->0.members@)->0 as int, Some(eid)),
        place.room_entity_id == rid,
    ensures
        consistent(
            w.insert(rid, EntityView { room: Some(info2), ..w[rid] }).insert(
                eid,
                EntityView { state: Some(ClientState::OnRoom), on_room: Some(place), ..w[eid] },
            ),
        ),
        logins_kept(w, w.insert(rid, EntityView { room: Some(info2), ..w[rid] }).insert(
                eid,
                EntityView { state: Some(ClientState::OnRoom), on_room: Some(place), ..w[eid] },
            ),),
{
    let w2 = w.insert(rid, EntityView { room: Some(info2), ..w[rid] }).insert(
        eid,
        EntityView { state: Some(ClientState::OnRoom), on_room: Some(place), ..w[eid] },
    );
    let m = w[rid].room->0.members@;
    let m2 = info2.members@;
    let f = first_empty(m)->0 as int;
    lemma_first_empty(m);
    assert(entity_ok(w[eid]));
    assert(entity_ok(w[rid]));
    assert(room_ok(w, rid));
    assert(eid != rid);
    // The client was in no room, so it is no member of any.
    assert forall|q: EntityId, j: int|
        w.contains_key(q) && w[q].room is Some && 0 <= j < 8 && #[trigger] w[q].room->0.members@[j] is Some
            implies w[q].room->0.members@[j] != Some(eid) by {
        assert(room_ok(w, q));
    }
    // The members of the room were reachable before.
    assert forall|j: int| 0 <= j < 8 && #[trigger] m2[j] is Some implies w2.contains_key(m2[j]->0)
        && w2[m2[j]->0].sender is Some && w2[m2[j]->0].on_room is Some && room_of(w2, m2[j]->0) == rid by {
        if j != f {
            assert(m2[j] == m[j]);
            let x = m[j]->0;
            assert(w[x].on_room is Some && room_of(w, x) == rid);
            assert(in_room_ok(w, x));
            assert(members_reachable(w, room_info_of(w, x)));
            assert(x != eid);
        }
    }
    assert forall|k: EntityId| #[trigger] w2.contains_key(k) implies entity_ok(w2[k]) by {
        if k != eid && k != rid {
            assert(entity_ok(w[k]));
        }
    }
    assert forall|k: EntityId| #[trigger] w2.contains_key(k) && w2[k].on_room is Some implies in_room_ok(w2, k) by {
        if k == eid {
            assert forall|j: int| 0 <= j < f implies m2[j] != Some(eid) by {
                assert(m2[j] == m[j]);
            }
            crate::room::lemma_index_of_member_at(m2, eid, f);
        } else {
            assert(in_room_ok(w, k));
            let rk = room_of(w, k);
            let mk = room_info_of(w, k).members@;
            lemma_index_of_member(mk, k);
            let i = index_of_member(mk, k)->0 as int;
            if rk == rid {
                assert(mk == m);
                assert(i != f);
                assert forall|j: int| 0 <= j < i implies m2[j] != Some(k) by {
                    if j != f {
                        assert(m2[j] == m[j]);
                    }
                }
                assert(m2[i] == Some(k));
                crate::room::lemma_index_of_member_at(m2, k, i);
            } else {
                assert(room_ok(w, rk));
                assert forall|j: int| 0 <= j < 8 && #[trigger] mk[j] is Some implies w2.contains_key(mk[j]->0)
                    && w2[mk[j]->0].sender is Some by {
                    assert(members_reachable(w, room_info_of(w, k)));
                }
            }
        }
    }
    assert forall|q: EntityId| #[trigger] w2.contains_key(q) && w2[q].room is Some implies room_ok(w2, q) by {
        if q == rid {
            assert forall|i: int, j: int| 0 <= i < j < 8 && #[trigger] m2[i] is Some && #[trigger] m2[j] is Some
                implies m2[i] != m2[j] by {
                if i != f && j != f {
                    assert(m2[i] == m[i] && m2[j] == m[j]);
                } else if i == f {
                    assert(m2[j] == m[j]);
                } else {
                    assert(m2[i] == m[i]);
                }
            }
        } else {
            assert(q != eid);
            assert(room_ok(w, q));
            let mq = w[q].room->0.members@;
            assert forall|j: int| 0 <= j < 8 && #[trigger] mq[j] is Some implies w2.contains_key(mq[j]->0)
                && w2[mq[j]->0].on_room is Some && room_of(w2, mq[j]->0) == q by {
                assert(mq[j] != Some(eid));
                assert(mq[j]->0 != rid) by {
                    assert(w[mq[j]->0].on_room is Some);
                    assert(entity_ok(w[mq[j]->0]));
                }
            }
        }
    }
}

/// Marking clients that have a place in a room as not ready keeps the world
/// consistent.
pub proof fn lemma_not_ready_keeps(w: Map<EntityId, EntityView>, ids: Seq<EntityId>)
    requires
        consistent(w),
        forall|i: int| 0 <= i < ids.len() ==> w.contains_key(#[trigger] ids[i]) && w[ids[i]].on_room is Some,
    ensures
        consistent(with_not_ready(w, ids)),
        logins_kept(w, with_not_ready(w, ids)),
{
    let w2 = with_not_ready(w, ids);
    assert forall|k: EntityId| #[trigger] w2.contains_key(k) implies entity_ok(w2[k]) && (w2[k].on_room is Some
        == w[k].on_room is Some) && (w2[k].on_room is Some ==> w2[k].on_room->0.room_entity_id
        == w[k].on_room->0.room_entity_id) by {
        assert(entity_ok(w[k]));
        if ids.contains(k) {
            let i = choose|i: int| 0 <= i < ids.len() && ids[i] == k;
            assert(w[ids[i]].on_room is Some);
        }
    }
    assert forall|k: EntityId| #[trigger] w2.contains_key(k) && w2[k].on_room is Some implies in_room_ok(w2, k) by {
        assert(in_room_ok(w, k));
        let m = room_info_of(w, k).members@;
        assert(w2[room_of(w, k)].room == w[room_of(w, k)].room);
        assert forall|i: int| 0 <= i < 8 && #[trigger] m[i] is Some implies w2.contains_key(m[i]->0)
            && w2[m[i]->0].sender is Some by {
            assert(members_reachable(w, room_info_of(w, k)));
        }
    }
    assert forall|k: EntityId| #[trigger] w2.contains_key(k) && w2[k].room is Some implies room_ok(w2, k) by {
        assert(room_ok(w, k));
        let m = w[k].room->0.members@;
        assert forall|i: int| 0 <= i < 8 && #[trigger] m[i] is Some implies w2.contains_key(m[i]->0)
            && w2[m[i]->0].on_room is Some && room_of(w2, m[i]->0) == k by {}
    }
}

/// Ending the game of a room keeps the world consistent.
pub proof fn lemma_end_keeps(w: Map<EntityId, EntityView>, room_eid: EntityId)
    requires
        consistent(w),
        w.contains_key(room_eid),
        w[room_eid].room is Some,
    ensures
        consistent(end_world(w, room_eid)),
        logins_kept(w, end_world(w, room_eid)),
{
    let m = w[room_eid].room->0.members@;
    let ids = member_ids(m);
    assert(room_ok(w, room_eid));
    assert(entity_ok(w[room_eid]));
    lemma_member_ids_contains(m);
    assert forall|i: int| 0 <= i < ids.len() implies w.contains_key(#[trigger] ids[i]) && w[ids[i]].on_room is Some by {
        assert(ids.contains(ids[i]));
        let j = choose|j: int| 0 <= j < m.len() && m[j] == Some(ids[i]);
        assert(m[j] is Some);
    }
    assert(!ids.contains(room_eid)) by {
        if ids.contains(room_eid) {
            let j = choose|j: int| 0 <= j < m.len() && m[j] == Some(room_eid);
            assert(m[j] is Some);
        }
    }
    lemma_states_keep(w, ids, ClientState::OnRoom);
    let w1 = with_states(w, ids, ClientState::OnRoom);
    let v = EntityView { room: Some(RoomInfo { is_playing: false, ..w1[room_eid].room->0 }), ..w1[room_eid] };
    lemma_update_keeps(w1, room_eid, v);
    let w2 = w1.insert(room_eid, v);
    assert forall|i: int| 0 <= i < ids.len() implies w2.contains_key(#[trigger] ids[i]) && w2[ids[i]].on_room is Some by {
        assert(ids[i] != room_eid);
    }
    lemma_not_ready_keeps(w2, ids);
}

/// Running a timer keeps the world consistent.
pub proof fn lemma_tick_keeps(
    w0: Map<EntityId, EntityView>,
    w1: Map<EntityId, EntityView>,
    before: Seq<crate::session::Outgoing>,
    after: Seq<crate::session::Outgoing>,
    timer_eid: EntityId,
    next_id: EntityId,
    now: u64,
    ids: Seq<EntityId>,
)
    requires
        consistent(w0),
        forall|k: EntityId| #[trigger] w0.contains_key(k) ==> k < next_id,
        w0.contains_key(timer_eid),
        w0[timer_eid].kind == Some(EntityKind::Timer),
        w0[timer_eid].timer is Some,
        tick_ok(w0, w0[timer_eid], now),
        !due(w0[timer_eid], now) ==> w1 == w0,
        due(w0[timer_eid], now) && w0[timer_eid].timer->0.task == TimerTask::PingPongCheck ==> w1 == pinged_on(
            w0,
            ids,
        ).insert(timer_eid, EntityView { instant: Some(Instant { millis: now }), ..w0[timer_eid] }),
        game_ticked(w0, w1, before, after, timer_eid, next_id, now),
    ensures
        consistent(w1),
        logins_kept(w0, w1),
{
    let e0 = w0[timer_eid];
    assert(entity_ok(e0));
    if due(e0, now) {
        match e0.timer->0.task {
            TimerTask::PingPongCheck => {
                lemma_pinged_keeps(w0, ids);
                let wp = pinged_on(w0, ids);
                assert(!is_client(e0));
                assert(wp[timer_eid] == e0);
                lemma_update_keeps(wp, timer_eid, EntityView { instant: Some(Instant { millis: now }), ..e0 });
            },
            TimerTask::Loading { room_eid, started } => {
                if load_finished(w0, room_eid) {
                    let mid = choose|mid: Map<EntityId, EntityView>|
                        #[trigger] turns_started(w0, mid, before, after, room_eid, next_id, now) && w1 == mid.remove(timer_eid);
                    assert(game_running(w0, room_eid));
                    assert(entity_ok(w0[room_eid]));
                    let v = EntityView { game: mid[room_eid].game, ..w0[room_eid] };
                    lemma_update_keeps(w0, room_eid, v);
                    let wa = w0.insert(room_eid, v);
                    assert(!wa.contains_key(next_id));
                    let t = crate::timer::timer_entity(
                        next_id,
                        crate::timer::LOOP_PERIOD,
                        TimerTask::MainLoop { room_eid: room_eid, turn_started: now },
                        now,
                    );
                    lemma_add_keeps(wa, next_id, t);
                    assert(mid == wa.insert(next_id, t));
                    assert(room_eid != timer_eid);
                    assert(mid[timer_eid] == e0);
                    lemma_remove_keeps(mid, timer_eid);
                } else {
                    lemma_update_keeps(w0, timer_eid, EntityView { instant: Some(Instant { millis: now }), ..e0 });
                }
            },
            TimerTask::MainLoop { room_eid, turn_started } => {
                let (mid, r) = choose|mid: Map<EntityId, EntityView>, r: Option<u64>|
                    #[trigger] main_stepped(w0, mid, before, after, room_eid, r, turn_started, now) && w1 == match r {
                        None => mid.remove(timer_eid),
                        Some(t) => mid.insert(
                            timer_eid,
                            EntityView {
                                timer: Some(
                                    crate::component::TimerInfo {
                                        task: TimerTask::MainLoop { room_eid: room_eid, turn_started: t },
                                        duration: e0.timer->0.duration,
                                    },
                                ),
                                instant: Some(Instant { millis: now }),
                                ..mid[timer_eid]
                            },
                        ),
                    };
                assert(game_running(w0, room_eid));
                assert(entity_ok(w0[room_eid]));
                assert(room_eid != timer_eid);
                if !load_finished(w0, room_eid) {
                    assert(mid == w0);
                } else if r is None {
                    lemma_end_keeps(w0, room_eid);
                } else {
                    lemma_update_keeps(w0, room_eid, mid[room_eid]);
                    assert(mid == w0.insert(room_eid, mid[room_eid]));
                }
                assert(consistent(mid));
                assert(mid.contains_key(timer_eid));
                assert(mid[timer_eid].kind == e0.kind && mid[timer_eid].on_room == e0.on_room && mid[timer_eid].room
                    == e0.room && mid[timer_eid].sender == e0.sender && mid[timer_eid].state == e0.state);
                assert(entity_ok(mid[timer_eid]));
                match r {
                    None => {
                        lemma_remove_keeps(mid, timer_eid);
                    },
                    Some(t) => {
                        lemma_update_keeps(
                            mid,
                            timer_eid,
                            EntityView {
                                timer: Some(
                                    crate::component::TimerInfo {
                                        task: TimerTask::MainLoop { room_eid: room_eid, turn_started: t },
                                        duration: e0.timer->0.duration,
                                    },
                                ),
                                instant: Some(Instant { millis: now }),
                                ..mid[timer_eid]
                            },
                        );
                    },
                }
            },
        }
    }
}

/// Handling a packet from a client that has not logged in keeps the world
/// consistent.
pub proof fn lemma_before_login_keeps(
    s0: Server,
    s1: Server,
    eid: EntityId,
    pr: PacketReader,
    r: Result<Option<(String, String)>, HandleError>,
)
    requires
        consistent(s0.world@),
        s0.world@.contains_key(eid),
        s0.world@[eid].state == Some(ClientState::BeforeLogin),
        before_login_handled(s0, s1, eid, pr, r),
    ensures
        consistent(s1.world@),
        logins_kept(s0.world@, s1.world@),
{
    let w = s0.world@;
    assert(entity_ok(w[eid]));
    if pr.op() == PACKET_REENTER_SERVER && w[eid].login is Some {
        lemma_update_keeps(w, eid, EntityView { state: Some(ClientState::AfterLogin), ..w[eid] });
    }
}

/// Handling a packet from a client that has logged in keeps the world
/// consistent.
pub proof fn lemma_after_login_keeps(
    s0: Server,
    s1: Server,
    eid: EntityId,
    pr: PacketReader,
    r: Result<AfterLoginAction, HandleError>,
)
    requires
        consistent(s0.world@),
        s0.world@.contains_key(eid),
        s0.world@[eid].state == Some(ClientState::AfterLogin),
        after_login_handled(s0, s1, eid, pr, r),
    ensures
        consistent(s1.world@),
        logins_kept(s0.world@, s1.world@),
{
    let w = s0.world@;
    assert(entity_ok(w[eid]));
    if pr.op() == PACKET_UPDATE_SETTINGS {
        let r0 = choose|r0: Result<(String, SettingSchema), HandleError>| #[trigger] settings_updated(s0, s1, eid, pr, r0);
        assert(settings_updated(s0, s1, eid, pr, r0));
        if w[eid].login is Some {
            lemma_update_keeps(w, eid, s1.world@[eid]);
            assert(s1.world@ == w.insert(eid, s1.world@[eid]));
        }
    } else if pr.op() == PACKET_ENTER_LOBBY {
        let r0 = choose|r0: Result<(), HandleError>| #[trigger] lobby_entered(s0, s1, eid, pr, r0);
        assert(lobby_entered(s0, s1, eid, pr, r0));
        lemma_update_keeps(w, eid, EntityView { state: Some(ClientState::OnLobby), ..w[eid] });
    }
}

/// Handling a packet from a client in a game keeps the world consistent.
pub proof fn lemma_game_keeps(s0: Server, s1: Server, eid: EntityId, pr: PacketReader, r: Result<(), HandleError>)
    requires
        consistent(s0.world@),
        s0.world@.contains_key(eid),
        s0.world@[eid].state == Some(ClientState::OnGame),
        game_handled(s0, s1, eid, pr, r),
    ensures
        consistent(s1.world@),
        logins_kept(s0.world@, s1.world@),
{
    let w = s0.world@;
    assert(entity_ok(w[eid]));
    assert(in_room_ok(w, eid));
    let room_eid = room_of(w, eid);
    if pr.op() == PACKET_END_LOADING || pr.op() == PACKET_END_TURN {
        assert(entity_ok(w[room_eid]));
        lemma_update_keeps(w, room_eid, s1.world@[room_eid]);
        assert(s1.world@ == w.insert(room_eid, s1.world@[room_eid]));
    }
}

/// Handling a packet from a client in the lobby keeps the world consistent.
pub proof fn lemma_lobby_keeps(s0: Server, s1: Server, eid: EntityId, pr: PacketReader, r: Result<(), HandleError>)
    requires
        consistent(s0.world@),
        s0.world.wf(),
        s0.world@.contains_key(eid),
        s0.world@[eid].state == Some(ClientState::OnLobby),
        lobby_packet_ok(&s0.world, eid, pr),
        lobby_handled(s0, s1, eid, pr, r),
    ensures
        consistent(s1.world@),
        logins_kept(s0.world@, s1.world@),
{
    let w = s0.world@;
    assert(entity_ok(w[eid]));
    if pr.op() == PACKET_GO_BACK {
        assert(went_back(s0, s1, eid, pr, r));
        lemma_update_keeps(w, eid, EntityView { state: Some(ClientState::BeforeLogin), ..w[eid] });
    } else if pr.op() == PACKET_CREATE_ROOM {
        assert(room_created(s0, s1, eid, pr, r));
        if !rooms_full(w) {
            let id = s0.world.next_id();
            let w2 = s1.world@;
            let place = w2[eid].on_room->0;
            lemma_create_keeps(w, eid, id, w2[id].room->0, place);
        }
    } else if pr.op() == PACKET_ENTER_ROOM {
        assert(room_entered(s0, s1, eid, pr, r));
        let uid = pr.bytes()[pr.pos() as int];
        lemma_room_with_uid(&s0.world, uid);
        if let Some(rid) = room_with_uid(&s0.world, uid) {
            if room_state_of(w[rid].room->0) == RoomState::Waiting {
                let w2 = s1.world@;
                assert(joined(w, w2, eid, rid));
                assert(acceptable(w[rid]));
                lemma_join_keeps(w, eid, rid, w2[rid].room->0, w2[eid].on_room->0);
            }
        }
    }
}

/// Starting the game of a room keeps the world consistent.
pub proof fn lemma_start_keeps(s0: Server, s1: Server, eid: EntityId, pr: PacketReader, r: Result<(), HandleError>)
    requires
        consistent(s0.world@),
        s0.world.wf(),
        in_room_ok(s0.world@, eid),
        game_started(s0, s1, eid, pr, r),
    ensures
        consistent(s1.world@),
        logins_kept(s0.world@, s1.world@),
{
    let w = s0.world@;
    let room_eid = room_of(w, eid);
    let m = room_info_of(w, eid).members@;
    let ids = member_ids(m);
    let ws = with_states(w, ids, ClientState::OnGame);
    let id = s0.world.next_id();
    assert(room_ok(w, room_eid));
    lemma_member_ids_contains(m);
    assert forall|i: int| 0 <= i < ids.len() implies w.contains_key(#[trigger] ids[i]) && w[ids[i]].on_room is Some by {
        assert(ids.contains(ids[i]));
        let j = choose|j: int| 0 <= j < m.len() && m[j] == Some(ids[i]);
        assert(m[j] is Some);
    }
    lemma_states_keep(w, ids, ClientState::OnGame);
    assert(entity_ok(w[room_eid]));
    assert(!ids.contains(room_eid)) by {
        if ids.contains(room_eid) {
            let j = choose|j: int| 0 <= j < m.len() && m[j] == Some(room_eid);
            assert(m[j] is Some);
            assert(entity_ok(w[room_eid]));
        }
    }
    let v = EntityView {
        room: Some(RoomInfo { is_playing: true, ..w[room_eid].room->0 }),
        game: s1.world@[room_eid].game,
        ..ws[room_eid]
    };
    lemma_update_keeps(ws, room_eid, v);
    let w1 = ws.insert(room_eid, v);
    s0.world.lemma_views();
    assert(!w1.contains_key(id));
    lemma_add_keeps(w1, id, timer_entity(id, LOOP_PERIOD, TimerTask::Loading { room_eid: room_eid, started: s0.now }, s0.now));
}

/// Handling a packet from a client in a room keeps the world consistent.
pub proof fn lemma_room_keeps(s0: Server, s1: Server, eid: EntityId, pr: PacketReader, r: Result<(), HandleError>)
    requires
        consistent(s0.world@),
        s0.world.wf(),
        s0.world@.contains_key(eid),
        s0.world@[eid].state == Some(ClientState::OnRoom),
        room_packet_ok(&s0.world, eid, pr),
        room_handled(s0, s1, eid, pr, r),
    ensures
        consistent(s1.world@),
        logins_kept(s0.world@, s1.world@),
{
    let w = s0.world@;
    let op = pr.op();
    assert(entity_ok(w[eid]));
    assert(in_room_ok(w, eid));
    let room_eid = room_of(w, eid);
    if op == PACKET_ENTER_SHOP || op == PACKET_LEAVE_SHOP || op == PACKET_CHANGE_CHAR || op == PACKET_CHANGE_TEAM
        || op == PACKET_GET_READY || op == PACKET_GET_NOT_READY {
        if op == PACKET_ENTER_SHOP {
            assert(shop_entered_in_room(s0, s1, eid, pr, r));
        } else if op == PACKET_LEAVE_SHOP {
            assert(shop_left(s0, s1, eid, pr, r));
        } else if op == PACKET_CHANGE_CHAR {
            assert(char_changed(s0, s1, eid, pr, r));
        } else if op == PACKET_CHANGE_TEAM {
            assert(team_changed(s0, s1, eid, pr, r));
        } else if op == PACKET_GET_READY {
            assert(got_ready(s0, s1, eid, pr, r));
        } else {
            assert(got_not_ready(s0, s1, eid, pr, r));
        }
        lemma_update_keeps(w, eid, s1.world@[eid]);
        assert(s1.world@ == w.insert(eid, s1.world@[eid]));
    } else if op == PACKET_CHANGE_MAP {
        assert(map_changed(s0, s1, eid, pr, r));
        assert(entity_ok(w[room_eid]));
        if s1.world@ != w {
            lemma_update_keeps(w, room_eid, s1.world@[room_eid]);
            assert(s1.world@ == w.insert(room_eid, s1.world@[room_eid]));
        }
    } else if op == PACKET_START_GAME {
        lemma_start_keeps(s0, s1, eid, pr, r);
    } else if op == PACKET_EXIT_ROOM {
        assert(room_exited(s0, s1, eid, pr, r));
        lemma_exit_keeps(w, s1.world@, eid);
    } else if op == PACKET_KICK {
        assert(kicked(s0, s1, eid, pr, r));
        let target = room_info_of(w, eid).members@[pr.bytes()[pr.pos() as int] as int]->0;
        assert(in_room_ok(w, target));
        lemma_exit_keeps(w, s1.world@, target);
    }
}

/// Handling a packet keeps the world consistent, whoever sent it and whatever
/// it holds, as long as it fits what its handler reads.
pub proof fn lemma_packet_keeps(s0: Server, s1: Server, eid: EntityId, pr: PacketReader, r: Result<Action, HandleError>)
    requires
        consistent(s0.world@),
        s0.world.wf(),
        packet_ok(&s0.world, eid, pr),
        packet_handled(s0, s1, eid, pr, r),
    ensures
        consistent(s1.world@),
        logins_kept(s0.world@, s1.world@),
{
    let w = s0.world@;
    if w.contains_key(eid) {
        match w[eid].state {
            Some(ClientState::BeforeLogin) => {
                let r0 = choose|r0: Result<Option<(String, String)>, HandleError>|
                    #[trigger] before_login_handled(s0, s1, eid, pr, r0) && r == match r0 {
                        Ok(Some((id, pw))) => Ok::<Action, HandleError>(Action::Login(id, pw)),
                        Ok(None) => Ok::<Action, HandleError>(Action::Done),
                        Err(e) => Err(e),
                    };
                lemma_before_login_keeps(s0, s1, eid, pr, r0);
            },
            Some(ClientState::AfterLogin) => {
                let r0 = choose|r0: Result<AfterLoginAction, HandleError>|
                    #[trigger] after_login_handled(s0, s1, eid, pr, r0) && r == match r0 {
                        Ok(a) => Ok::<Action, HandleError>(Action::AfterLogin(a)),
                        Err(e) => Err(e),
                    };
                lemma_after_login_keeps(s0, s1, eid, pr, r0);
            },
            Some(ClientState::OnLobby) => {
                let r0 = choose|r0: Result<(), HandleError>|
                    #[trigger] lobby_handled(s0, s1, eid, pr, r0) && r == match r0 {
                        Ok(()) => Ok::<Action, HandleError>(Action::Done),
                        Err(e) => Err(e),
                    };
                lemma_lobby_keeps(s0, s1, eid, pr, r0);
            },
            Some(ClientState::OnRoom) => {
                let r0 = choose|r0: Result<(), HandleError>|
                    #[trigger] room_handled(s0, s1, eid, pr, r0) && r == match r0 {
                        Ok(()) => Ok::<Action, HandleError>(Action::Done),
                        Err(e) => Err(e),
                    };
                lemma_room_keeps(s0, s1, eid, pr, r0);
            },
            Some(ClientState::OnGame) => {
                let r0 = choose|r0: Result<(), HandleError>|
                    #[trigger] game_handled(s0, s1, eid, pr, r0) && r == match r0 {
                        Ok(()) => Ok::<Action, HandleError>(Action::Done),
                        Err(e) => Err(e),
                    };
                lemma_game_keeps(s0, s1, eid, pr, r0);
            },
            None => {},
        }
    }
}

/// Taking in a packet, as `handle_packet` does, keeps the world consistent.
pub proof fn lemma_handle_packet_keeps(s0: Server, s1: Server, eid: EntityId, pr: PacketReader, r: Result<Action, HandleError>)
    requires
        consistent(s0.world@),
        s0.world.wf(),
        packet_ok(&s0.world, eid, pr),
        packet_done(s0, s1, eid, pr, r),
    ensures
        consistent(s1.world@),
        logins_kept(s0.world@, s1.world@),
{
    if s0.world@.contains_key(eid) {
        let mid = choose|mid: Server|
            #[trigger] packet_handled(s0, mid, eid, pr, r) && s1.config == mid.config && s1.outbox == mid.outbox
                && s1.now == mid.now && s1.world@ == if r is Ok && mid.world@.contains_key(eid) {
                mid.world@.insert(eid, EntityView { pong: Some(PongInfo(true)), ..mid.world@[eid] })
            } else {
                mid.world@
            };
        lemma_packet_keeps(s0, mid, eid, pr, r);
        if r is Ok && mid.world@.contains_key(eid) {
            assert(entity_ok(mid.world@[eid]));
            lemma_update_keeps(mid.world@, eid, EntityView { pong: Some(PongInfo(true)), ..mid.world@[eid] });
        }
    }
}

} // verus!
