//! Packets from clients that are in the lobby.
use vstd::prelude::*;
use crate::component::{
    AfterLoginInfo, ClientState, EntityId, EntityKind, OnRoomInfo, RoomId, RoomInfo, StateInRoom, CHAR_RANDOM_ID,
    MAP_RANDOM_ID, MAX_ROOM_ID, MIN_ROOM_ID,
};
use crate::object::{empty_entity, EntityView, World};
use crate::packet::{chat, chat_body, error, error_body, room_list, room_list_body, rooms_listable, ErrorKind};
use crate::reader::{field_text, PacketReader};
use crate::room::{first_empty, get_room_list, acceptable, room_state_of, try_accept_client, TryAcceptClientResult, get_user_entity_ids, index_of_member, listed, member_ids, members_reachable, ref_views, room_window, sorted_by_uid};
use crate::object::picked;
use crate::server::{object_error, told, HandleError, Server};
use crate::session::{ids_in_state, outbox_view, packets_to, send, send_each, state_ids, Outgoing};
use crate::writer::{body_prefix, fixed_text, is_packet_of, PacketWriter};
use crate::bytes::{le16, zeros};
use crate::component::RoomState;

verus! {

pub const PACKET_CHAT: u8 = 34;
pub const PACKET_ENTER_SHOP: u8 = 50;
pub const PACKET_GO_BACK: u8 = 54;
pub const PACKET_REQUEST_USER_LIST: u8 = 55;
pub const PACKET_REQUEST_ROOM_LIST: u8 = 57;
pub const PACKET_CREATE_ROOM: u8 = 59;
pub const PACKET_ENTER_ROOM: u8 = 62;

/// The room numbers of the rooms of `s`, in order.
pub open spec fn room_uids(s: Seq<EntityView>) -> Seq<u8>
    decreases s.len(),
{
    if s.len() == 0 {
        Seq::<u8>::empty()
    } else if s.last().room is Some {
        room_uids(s.drop_last()).push(s.last().room->0.room_uid)
    } else {
        room_uids(s.drop_last())
    }
}

proof fn lemma_room_uids(s: Seq<EntityView>, c: u8)
    ensures
        room_uids(s).contains(c) <==> exists|j: int| 0 <= j < s.len() && s[j].room is Some && s[j].room->0.room_uid == c,
    decreases s.len(),
{
    if s.len() > 0 {
        lemma_room_uids(s.drop_last(), c);
        let r = room_uids(s);
        let r0 = room_uids(s.drop_last());
        if r.contains(c) {
            let t = choose|t: int| 0 <= t < r.len() && r[t] == c;
            if t < r0.len() {
                assert(r[t] == r0[t]);
                assert(r0.contains(c));
                let j = choose|j: int| 0 <= j < s.drop_last().len() && s.drop_last()[j].room is Some && s.drop_last()[j].room->0.room_uid == c;
                assert(s[j] == s.drop_last()[j]);
            } else {
                assert(s[s.len() - 1].room is Some);
            }
        }
        if exists|j: int| 0 <= j < s.len() && s[j].room is Some && s[j].room->0.room_uid == c {
            let j = choose|j: int| 0 <= j < s.len() && s[j].room is Some && s[j].room->0.room_uid == c;
            if j < s.len() - 1 {
                assert(s.drop_last()[j] == s[j]);
                assert(r0.contains(c));
                let t = choose|t: int| 0 <= t < r0.len() && r0[t] == c;
                assert(r[t] == c);
            } else {
                assert(r[r.len() - 1] == c);
            }
        }
    }
}

/// Some room of the world has the room number `c`.
pub open spec fn uid_used(w: Map<EntityId, EntityView>, c: u8) -> bool {
    exists|k: EntityId| #[trigger] w.contains_key(k) && w[k].room is Some && w[k].room->0.room_uid == c
}

/// Whether `v` holds `x`.
fn holds(v: &Vec<u8>, x: u8) -> (b: bool)
    ensures
        b == v@.contains(x),
{
    let mut i: usize = 0;
    while i < v.len()
        invariant
            i <= v@.len(),
            forall|j: int| 0 <= j < i ==> v@[j] != x,
        decreases v@.len() - i,
    {
        if v[i] == x {
            return true;
        }
        i = i + 1;
    }
    false
}

/// The smallest room number that no room has; none if all are taken.
pub(crate) fn try_get_new_room_id(world: &World) -> (r: Option<RoomId>)
    requires
        world.wf(),
    ensures
        match r {
            Some(c) => MIN_ROOM_ID <= c <= MAX_ROOM_ID && !uid_used(world@, c) && forall|d: u8|
                MIN_ROOM_ID <= d < c ==> #[trigger] uid_used(world@, d),
            None => forall|d: u8| MIN_ROOM_ID <= d <= MAX_ROOM_ID ==> #[trigger] uid_used(world@, d),
        },
{
    let v = world.values();
    let mut ids: Vec<u8> = Vec::new();
    let mut i: usize = 0;
    while i < v.len()
        invariant
            i <= v@.len(),
            v@.len() == world.views().len(),
            forall|j: int| 0 <= j < v@.len() ==> #[trigger] v@[j]@ == world.views()[j],
            ids@ == room_uids(world.views().subrange(0, i as int)),
        decreases v@.len() - i,
    {
        let ghost sub = world.views().subrange(0, i + 1);
        assert(sub.drop_last() =~= world.views().subrange(0, i as int));
        match v[i].get::<RoomInfo>() {
            Ok(info) => {
                ids.push(info.room_uid);
            },
            Err(_) => {},
        }
        i = i + 1;
    }
    assert(world.views().subrange(0, i as int) =~= world.views());
    proof {
        world.lemma_views();
        assert forall|c: u8| ids@.contains(c) <==> uid_used(world@, c) by {
            lemma_room_uids(world.views(), c);
            if ids@.contains(c) {
                let j = choose|j: int| 0 <= j < world.views().len() && world.views()[j].room is Some && world.views()[j].room->0.room_uid == c;
                assert(world@.contains_key(world.views()[j].id));
            }
            if uid_used(world@, c) {
                let k = choose|k: EntityId| #[trigger] world@.contains_key(k) && world@[k].room is Some && world@[k].room->0.room_uid == c;
                let j = crate::object::position_of(world.views(), k);
                assert(world.views()[j] == world@[k]);
            }
        }
    }
    let mut candidate: u8 = MIN_ROOM_ID;
    loop
        invariant
            MIN_ROOM_ID <= candidate <= MAX_ROOM_ID,
            forall|c: u8| ids@.contains(c) <==> uid_used(world@, c),
            forall|d: u8| MIN_ROOM_ID <= d < candidate ==> #[trigger] uid_used(world@, d),
        decreases MAX_ROOM_ID - candidate,
    {
        if !holds(&ids, candidate) {
            return Some(candidate);
        }
        if candidate == MAX_ROOM_ID {
            return None;
        }
        candidate = candidate + 1;
    }
}

/// The first entity of `s` from position `i` on whose user is named `name`.
pub open spec fn first_named_from(s: Seq<EntityView>, name: Seq<char>, i: nat) -> Option<EntityId>
    decreases s.len() - i,
{
    if i >= s.len() {
        None
    } else if s[i as int].login is Some && s[i as int].login->0.user_schema.name@ == name {
        Some(s[i as int].id)
    } else {
        first_named_from(s, name, i + 1)
    }
}

/// The first entity of the world, in id order, whose user is named `name`.
fn find_by_name(world: &World, name: &String) -> (r: Option<EntityId>)
    requires
        world.wf(),
    ensures
        r == first_named_from(world.views(), name@, 0),
        r matches Some(k) ==> world@.contains_key(k) && world@[k].login is Some,
{
    let v = world.values();
    let mut i: usize = 0;
    while i < v.len()
        invariant
            i <= v@.len(),
            world.wf(),
            v@.len() == world.views().len(),
            forall|j: int| 0 <= j < v@.len() ==> #[trigger] v@[j]@ == world.views()[j],
            first_named_from(world.views(), name@, 0) == first_named_from(world.views(), name@, i as nat),
        decreases v@.len() - i,
    {
        let e = v[i];
        if let Ok(info) = e.get::<AfterLoginInfo>() {
            if info.user_schema.name == *name {
                proof {
                    world.lemma_views();
                    assert(world@.contains_key(world.views()[i as int].id));
                }
                return Some(e.id());
            }
        }
        i = i + 1;
    }
    None
}

/// What the sender of a chat line is told when nobody has the name it whispered to.
pub const NO_SUCH_USER: &'static str = "존재하지 않는 아이디입니다.";

/// Every logged-in entity can be reached through its connection.
pub open spec fn logged_reachable(w: Map<EntityId, EntityView>) -> bool {
    forall|k: EntityId| #[trigger] w.contains_key(k) && w[k].login is Some ==> w[k].sender is Some
}

/// Every entity in session state `st` can be reached through its connection.
pub open spec fn state_reachable(w: Map<EntityId, EntityView>, st: ClientState) -> bool {
    forall|k: EntityId| #[trigger] w.contains_key(k) && w[k].state == Some(st) ==> w[k].sender is Some
}

/// The room that the client `eid` is in exists with room information, and its
/// members can be reached.
pub open spec fn room_reachable(w: Map<EntityId, EntityView>, eid: EntityId) -> bool {
    let r = w[eid].on_room->0.room_entity_id;
    w[eid].on_room is Some && w.contains_key(r) && w[r].room is Some ==> members_reachable(w, w[r].room->0)
}

/// How a lobby or room chat line from `eid` is answered, given the packet bytes
/// `b` read from `at`, the text it carries and the whispered name.
pub open spec fn lobby_chat_result(
    world: &World,
    eid: EntityId,
    b: Seq<u8>,
    at: int,
    before: Seq<Outgoing>,
    after: Seq<Outgoing>,
    r: Result<(), HandleError>,
) -> bool {
    let w = world@;
    let kind = b[at + 1];
    let text = field_text(b.subrange(at + 2, at + 195));
    if !w.contains_key(eid) {
        r == Err::<(), HandleError>(HandleError::NoEntity) && after == before
    } else if w[eid].login is None {
        r == Err::<(), HandleError>(HandleError::NoComponent) && after == before
    } else {
        let name = w[eid].login->0.user_schema.name@;
        if kind == 1 {
            let to = field_text(b.subrange(at + 195, at + 208));
            &&& r is Ok
            &&& match first_named_from(world.views(), to, 0) {
                Some(k) => told(before, after, seq![k], chat_body(false, true, name, text)),
                None => told(before, after, seq![eid], chat_body(true, false, Seq::<char>::empty(), NO_SUCH_USER@)),
            }
        } else if w[eid].state is None {
            r == Err::<(), HandleError>(HandleError::NoComponent) && after == before
        } else if w[eid].state == Some(ClientState::OnLobby) {
            r is Ok && told(before, after, state_ids(world.views(), ClientState::OnLobby), chat_body(false, false, name, text))
        } else if w[eid].state == Some(ClientState::OnRoom) {
            let rid = w[eid].on_room->0.room_entity_id;
            if w[eid].on_room is None {
                r == Err::<(), HandleError>(HandleError::NoComponent) && after == before
            } else if !w.contains_key(rid) {
                r == Err::<(), HandleError>(HandleError::NoEntity) && after == before
            } else if w[rid].room is None {
                r == Err::<(), HandleError>(HandleError::NoComponent) && after == before
            } else {
                r is Ok && told(before, after, member_ids(w[rid].room->0.members@), chat_body(false, false, name, text))
            }
        } else {
            r is Ok && after == before
        }
    }
}

/// A chat line from the lobby or a room: a byte, the kind (1 for a whisper),
/// 193 bytes of text, and for a whisper 13 bytes of the addressee's name. A
/// whisper goes to the first user with that name, or the sender is told that
/// there is none; other lines go to everyone in the lobby, or to the sender's
/// room, by where the sender is; nothing is sent from anywhere else.
pub fn on_chat(server: &mut Server, entity_id: &EntityId, pr: PacketReader) -> (r: Result<(), HandleError>)
    requires
        old(server).world.wf(),
        pr.pos() + 195 <= pr.bytes().len(),
        pr.bytes()[pr.pos() + 1int] == 1 ==> pr.pos() + 208 <= pr.bytes().len(),
        logged_reachable(old(server).world@),
        state_reachable(old(server).world@, ClientState::OnLobby),
        old(server).world@.contains_key(*entity_id) ==> room_reachable(old(server).world@, *entity_id),
    ensures
        final(server).world == old(server).world,
        final(server).config == old(server).config,
        final(server).now == old(server).now,
        lobby_chat_result(&old(server).world, *entity_id, pr.bytes(), pr.pos() as int, old(server).outbox@, final(server).outbox@, r),
{
    let mut pr = pr;
    let unknown = pr.u8();
    let chat_kind = pr.u8();
    let text = pr.string(193);
    let world = &server.world;
    let entity = match world.get(entity_id) {
        Ok(e) => e,
        Err(e) => return Err(object_error(e)),
    };
    let login = match entity.get::<AfterLoginInfo>() {
        Ok(l) => l,
        Err(e) => return Err(object_error(e)),
    };
    let name = login.user_schema.name.as_str();
    if chat_kind == 1 {
        let receiver_name = pr.string(13);
        match find_by_name(world, &receiver_name) {
            None => {
                proof {
                    reveal_strlit("");
                }
                let pkt = chat(true, false, "", NO_SUCH_USER);
                assert(""@ =~= Seq::<char>::empty());
                send(&mut server.outbox, entity, pkt);
            },
            Some(receiver_id) => {
                let receiver = world.get(&receiver_id).unwrap();
                let pkt = chat(false, true, name, text.as_str());
                send(&mut server.outbox, receiver, pkt);
            },
        }
        proof {
            let o = outbox_view(server.outbox@);
            let o0 = outbox_view(old(server).outbox@);
            assert(o =~= o0 + packets_to(seq![o.last().0], o.last().1->0));
        }
        return Ok(());
    }
    let state = match entity.get::<ClientState>() {
        Ok(s0) => *s0,
        Err(e) => return Err(object_error(e)),
    };
    let pkt = chat(false, false, name, text.as_str());
    match state {
        ClientState::OnLobby => {
            let users = ids_in_state(world, ClientState::OnLobby);
            send_each(world, &mut server.outbox, &users, &pkt);
        },
        ClientState::OnRoom => {
            let on_room_info = match entity.get::<OnRoomInfo>() {
                Ok(i) => i,
                Err(e) => return Err(object_error(e)),
            };
            let room_entity = match world.get(&on_room_info.room_entity_id) {
                Ok(e) => e,
                Err(e) => return Err(object_error(e)),
            };
            if room_entity.get::<RoomInfo>().is_err() {
                return Err(HandleError::NoComponent);
            }
            crate::room::send_to_all(world, &mut server.outbox, room_entity, &pkt);
        },
        _ => {},
    }
    Ok(())
}

/// What `enter_shop` makes of the server `s0` for the client `eid` and the packet
/// `pr`: the server `s1` and the result `r`.
pub open spec fn shop_entered(s0: Server, s1: Server, eid: EntityId, pr: PacketReader, r: Result<(), HandleError>) -> bool {
    &&& r is Ok
    &&& s1 == s0
}

/// Opening the shop from the lobby changes nothing.
fn enter_shop(server: &mut Server, entity_id: &EntityId, pr: PacketReader) -> (r: Result<(), HandleError>)
    ensures
        shop_entered(*old(server), *final(server), *entity_id, pr, r),
{
    Ok(())
}

/// What `go_back` makes of the server `s0` for the client `eid` and the packet
/// `pr`: the server `s1` and the result `r`.
pub open spec fn went_back(s0: Server, s1: Server, eid: EntityId, pr: PacketReader, r: Result<(), HandleError>) -> bool {
    &&& s1.config == s0.config
    &&& s1.outbox == s0.outbox
    &&& s1.now == s0.now
    &&& s1.world.wf()
    &&& s1.world.next_id() == s0.world.next_id()
    &&& if s0.world@.contains_key(eid) {
        r is Ok && s1.world@ == s0.world@.insert(
            eid,
            EntityView { state: Some(ClientState::BeforeLogin), ..s0.world@[eid] },
        )
    } else {
        r == Err::<(), HandleError>(HandleError::NoEntity) && s1.world@ == s0.world@
    }
}

/// The client goes back to the login screen.
fn go_back(server: &mut Server, entity_id: &EntityId, pr: PacketReader) -> (r: Result<(), HandleError>)
    requires
        old(server).world.wf(),
    ensures
        went_back(*old(server), *final(server), *entity_id, pr, r),
{
    match server.world.get_mut(entity_id) {
        Ok(entity) => {
            entity.push(ClientState::BeforeLogin);
            Ok(())
        },
        Err(e) => Err(object_error(e)),
    }
}

/// The row of a user in the user list: name, level, four zero bytes.
pub open spec fn user_row(e: EntityView) -> Seq<u8> {
    fixed_text(e.login->0.user_schema.name@, 13) + seq![e.login->0.user_schema.level] + zeros(4)
}

/// The rows of the users `ids`.
pub open spec fn user_rows(w: Map<EntityId, EntityView>, ids: Seq<EntityId>) -> Seq<u8>
    decreases ids.len(),
{
    if ids.len() == 0 {
        Seq::<u8>::empty()
    } else {
        user_rows(w, ids.drop_last()) + user_row(w[ids.last()])
    }
}

/// The body of the list of the users in the lobby.
pub open spec fn user_list_body(w: Map<EntityId, EntityView>, ids: Seq<EntityId>) -> Seq<u8> {
    body_prefix((PACKET_REQUEST_USER_LIST + 1) as u8) + le16(ids.len() as u16) + user_rows(w, ids)
}

/// What `send_user_list` makes of the server `s0` for the client `eid` and the packet
/// `pr`: the server `s1` and the result `r`.
pub open spec fn user_list_sent(s0: Server, s1: Server, eid: EntityId, pr: PacketReader, r: Result<(), HandleError>) -> bool {
    &&& s1.world == s0.world
    &&& s1.config == s0.config
    &&& s1.now == s0.now
    &&& ({
        let w = s0.world@;
        let ids = state_ids(s0.world.views(), ClientState::OnLobby);
        if forall|i: int| 0 <= i < ids.len() ==> w[#[trigger] ids[i]].login is Some {
            r is Ok && told(s0.outbox@, s1.outbox@, seq![eid], user_list_body(w, ids))
        } else {
            r == Err::<(), HandleError>(HandleError::NoComponent) && s1.outbox@ == s0.outbox@
        }
    })
}

/// Sends the client the list of the users in the lobby, in id order; fails if
/// one of them has not logged in.
fn send_user_list(server: &mut Server, entity_id: &EntityId, pr: PacketReader) -> (r: Result<(), HandleError>)
    requires
        old(server).world.wf(),
        old(server).world@.contains_key(*entity_id),
        old(server).world@[*entity_id].sender is Some,
    ensures
        user_list_sent(*old(server), *final(server), *entity_id, pr, r),
{
    let world = &server.world;
    let entity = world.get(entity_id).unwrap();
    let users = ids_in_state(world, ClientState::OnLobby);
    let user_count = users.len();
    let mut pw = PacketWriter::new(PACKET_REQUEST_USER_LIST + 1);
    pw.u16(user_count as u16).pad_to(10);
    let ghost head = pw.bytes();
    let mut i: usize = 0;
    while i < users.len()
        invariant
            i <= users@.len(),
            world.wf(),
            forall|j: int| 0 <= j < users@.len() ==> world@.contains_key(#[trigger] users@[j]),
            forall|j: int| 0 <= j < i ==> world@[#[trigger] users@[j]].login is Some,
            users@ == state_ids(world.views(), ClientState::OnLobby),
            *world == old(server).world,
            pw.op() == PACKET_REQUEST_USER_LIST + 1,
            pw.bytes() == head + user_rows(world@, users@.subrange(0, i as int)),
        decreases users@.len() - i,
    {
        let user = world.get(&users[i]).unwrap();
        let info = match user.get::<AfterLoginInfo>() {
            Ok(info) => info,
            Err(e) => {
                assert(world@[users@[i as int]].login is None);
                return Err(object_error(e));
            },
        };
        pw.string(info.user_schema.name.as_str(), 13).u8(info.user_schema.level).pad(4);
        proof {
            assert(users@.subrange(0, i + 1).drop_last() =~= users@.subrange(0, i as int));
        }
        i = i + 1;
        assert(pw.bytes() =~= head + user_rows(world@, users@.subrange(0, i as int)));
    }
    assert(users@.subrange(0, i as int) =~= users@);
    assert(pw.bytes() =~= user_list_body(world@, users@));
    let pkt = pw.as_vec();
    send(&mut server.outbox, entity, pkt);
    assert(outbox_view(server.outbox@) =~= outbox_view(old(server).outbox@) + packets_to(seq![*entity_id], pkt@));
    Ok(())
}

/// Every room of the world can be listed: each of its members still in the
/// world has logged in.
pub open spec fn all_rooms_listable(w: Map<EntityId, EntityView>) -> bool {
    forall|k: EntityId| #[trigger] w.contains_key(k) && w[k].room is Some ==> rooms_listable(w, seq![w[k]])
}

/// The client was sent a room list made as `get_room_list` makes it.
pub open spec fn room_list_told(
    world: &World,
    before: Seq<Outgoing>,
    after: Seq<Outgoing>,
    eid: EntityId,
    waiting_byte: u8,
    mode: u8,
    base: u8,
    picks: Seq<bool>,
    sorted: Seq<EntityView>,
) -> bool {
    let waiting_only = waiting_byte == 1;
    &&& picks.len() == world.views().len()
    &&& forall|i: int| 0 <= i < picks.len() ==> #[trigger] picks[i] == listed(world.views()[i], waiting_only)
    &&& sorted.to_multiset() == picked(world.views(), picks).to_multiset()
    &&& sorted_by_uid(sorted)
    &&& told(before, after, seq![eid], room_list_body(world@, room_window(sorted, mode, base)))
}

/// What `send_room_list` makes of the server `s0` for the client `eid` and the packet
/// `pr`: the server `s1` and the result `r`.
pub open spec fn room_list_sent(s0: Server, s1: Server, eid: EntityId, pr: PacketReader, r: Result<(), HandleError>) -> bool {
    &&& r is Ok
    &&& s1.world == s0.world
    &&& s1.config == s0.config
    &&& s1.now == s0.now
    &&& ({
        let b = pr.bytes();
        let at = pr.pos() as int;
        exists|picks: Seq<bool>, sorted: Seq<EntityView>|
            #[trigger] room_list_told(
                &s0.world,
                s0.outbox@,
                s1.outbox@,
                eid,
                b[at],
                b[at + 1],
                b[at + 2],
                picks,
                sorted,
            )
    })
}

/// Sends the client a page of the room list: the packet says whether only
/// waiting rooms count, the paging mode and the room number to page from.
pub(crate) fn send_room_list(server: &mut Server, entity_id: &EntityId, pr: PacketReader) -> (r: Result<(), HandleError>)
    requires
        old(server).world.wf(),
        old(server).world@.contains_key(*entity_id),
        old(server).world@[*entity_id].sender is Some,
        all_rooms_listable(old(server).world@),
        pr.pos() + 3 <= pr.bytes().len(),
    ensures
        room_list_sent(*old(server), *final(server), *entity_id, pr, r),
{
    let world = &server.world;
    let ghost b0 = pr.bytes();
    let ghost at0 = pr.pos() as int;
    let mut rd = pr;
    let is_waiting_only = rd.u8() == 1;
    let mode = rd.u8();
    let base_room_id = rd.u8();
    assert(mode == b0[at0 + 1] && base_room_id == b0[at0 + 2] && is_waiting_only == (b0[at0] == 1));
    let rooms = get_room_list(world, is_waiting_only, mode, base_room_id);
    proof {
        world.lemma_views();
        assert forall|i: int| #![trigger ref_views(rooms@)[i]] 0 <= i < ref_views(rooms@).len() implies rooms_listable(world@, seq![ref_views(rooms@)[i]]) by {
            assert(ref_views(rooms@)[i] == rooms@[i]@);
            let j = choose|j: int| 0 <= j < world.views().len() && world.views()[j] == (#[trigger] rooms@[i])@;
            assert(world@.contains_key(world.views()[j].id));
        }
        assert forall|i: int| #![trigger ref_views(rooms@)[i]] 0 <= i < ref_views(rooms@).len() implies ref_views(rooms@)[i].room is Some
            && forall|j: int|
            0 <= j < 8 && #[trigger] ref_views(rooms@)[i].room->0.members@[j] is Some && world@.contains_key(
                ref_views(rooms@)[i].room->0.members@[j]->0,
            ) ==> world@[ref_views(rooms@)[i].room->0.members@[j]->0].login is Some by {
            assert(rooms_listable(world@, seq![ref_views(rooms@)[i]]));
            assert(seq![ref_views(rooms@)[i]][0] == ref_views(rooms@)[i]);
        }
    }
    let entity = world.get(entity_id).unwrap();
    let pkt = room_list(world, &rooms);
    send(&mut server.outbox, entity, pkt);
    proof {
        let picks = choose|picks: Seq<bool>, sorted: Seq<EntityView>|
            {
                &&& picks.len() == world.views().len()
                &&& forall|i: int| 0 <= i < picks.len() ==> #[trigger] picks[i] == listed(world.views()[i], is_waiting_only)
                &&& sorted.to_multiset() == picked(world.views(), picks).to_multiset()
                &&& sorted_by_uid(sorted)
                &&& ref_views(rooms@) == room_window(sorted, mode, base_room_id)
            };
        assert(outbox_view(server.outbox@) =~= outbox_view(old(server).outbox@) + packets_to(seq![*entity_id], pkt@));
        assert(room_list_told(&old(server).world, old(server).outbox@, server.outbox@, *entity_id, b0[at0], b0[at0 + 1], b0[at0 + 2], picks.0, picks.1));
    }
    Ok(())
}

/// `ri` is the information of a room just made by `master`.
pub open spec fn new_room_info(
    ri: RoomInfo,
    uid: u8,
    name: Seq<char>,
    password: Seq<char>,
    master: EntityId,
    max_clients: u8,
    level_condition: u8,
    level_base: u8,
    bits: u8,
) -> bool {
    &&& ri.room_uid == uid
    &&& !ri.is_playing
    &&& ri.name@ == name
    &&& ri.password@ == password
    &&& ri.master_index == 0
    &&& ri.map == MAP_RANDOM_ID
    &&& ri.members@ == seq![Some(master)] + Seq::new(7, |i: int| None::<EntityId>)
    &&& ri.allows_item == (bits & 1u8 != 0u8)
    &&& ri.allows_evol == (bits & 2u8 != 0u8)
    &&& ri.max_clients == max_clients
    &&& ri.level_condition == level_condition
    &&& ri.level_base == level_base
}

/// The body that tells a client that it made room `uid`.
pub open spec fn room_made_body(uid: u8) -> Seq<u8> {
    body_prefix((PACKET_CREATE_ROOM + 1) as u8) + le16(uid as u16)
}

/// Every room number is taken.
pub open spec fn rooms_full(w: Map<EntityId, EntityView>) -> bool {
    forall|d: u8| MIN_ROOM_ID <= d <= MAX_ROOM_ID ==> #[trigger] uid_used(w, d)
}

/// No two rooms share a room number.
pub open spec fn room_uids_unique(w: Map<EntityId, EntityView>) -> bool {
    forall|a: EntityId, b: EntityId|
        #![trigger w[a].room, w[b].room]
        w.contains_key(a) && w.contains_key(b) && a != b && w[a].room is Some && w[b].room is Some
            ==> w[a].room->0.room_uid != w[b].room->0.room_uid
}

/// A new room under a free number, with one other entity changed but for its
/// room, keeps room numbers unique.
proof fn lemma_new_room_keeps_unique(
    w: Map<EntityId, EntityView>,
    id: EntityId,
    room: EntityView,
    eid: EntityId,
    e: EntityView,
)
    requires
        room_uids_unique(w),
        !w.contains_key(id),
        w.contains_key(eid),
        room.room is Some,
        !uid_used(w, room.room->0.room_uid),
        e.room == w[eid].room,
    ensures
        room_uids_unique(w.insert(id, room).insert(eid, e)),
{
    let w2 = w.insert(id, room).insert(eid, e);
    assert forall|a: EntityId, b: EntityId|
        #![trigger w2[a].room, w2[b].room]
        w2.contains_key(a) && w2.contains_key(b) && a != b && w2[a].room is Some && w2[b].room is Some
            implies w2[a].room->0.room_uid != w2[b].room->0.room_uid by {
        if a == id {
            assert(w.contains_key(b) && w2[b].room == w[b].room);
        } else if b == id {
            assert(w.contains_key(a) && w2[a].room == w[a].room);
        } else {
            assert(w2[a].room == w[a].room && w2[b].room == w[b].room);
        }
    }
}

/// What `create_room` makes of the server `s0` for the client `eid` and the packet
/// `pr`: the server `s1` and the result `r`.
pub open spec fn room_created(s0: Server, s1: Server, eid: EntityId, pr: PacketReader, r: Result<(), HandleError>) -> bool {
    &&& r is Ok
    &&& s1.config == s0.config
    &&& s1.now == s0.now
    &&& s1.world.wf()
    &&& ({
        let w = s0.world@;
        let w2 = s1.world@;
        let b = pr.bytes();
        let at = pr.pos() as int;
        let id = s0.world.next_id();
        if rooms_full(w) {
            &&& w2 == w
            &&& s1.world.next_id() == s0.world.next_id()
            &&& told(s0.outbox@, s1.outbox@, seq![eid], error_body(ErrorKind::FullOfClientsInRoom))
        } else {
            let uid = choose|c: u8| MIN_ROOM_ID <= c <= MAX_ROOM_ID && !uid_used(w, c) && forall|d: u8|
                MIN_ROOM_ID <= d < c ==> #[trigger] uid_used(w, d);
            &&& !w.contains_key(id)
            &&& s1.world.next_id() == id + 1
            &&& w2[id].room is Some
            &&& new_room_info(
                w2[id].room->0,
                uid,
                field_text(b.subrange(at, at + 13)),
                field_text(b.subrange(at + 25, at + 38)),
                eid,
                b[at + 38],
                b[at + 39],
                b[at + 40],
                b[at + 41],
            )
            &&& w2 == w.insert(id, EntityView { kind: Some(EntityKind::Room), room: w2[id].room, ..empty_entity(id) }).insert(
                eid,
                EntityView {
                    state: Some(ClientState::OnRoom),
                    on_room: Some(OnRoomInfo {
                        room_entity_id: id,
                        team: 0,
                        character: CHAR_RANDOM_ID,
                        state_in_room: StateInRoom::NotReady,
                    }),
                    ..w[eid]
                },
            )
            &&& told(s0.outbox@, s1.outbox@, seq![eid], room_made_body(uid))
        }
    })
    &&& room_uids_unique(s0.world@) ==> room_uids_unique(s1.world@)
}

/// The client makes a room: 13 bytes of name, 12 bytes skipped, 13 bytes of
/// password, the largest number of members, the level condition and base, and
/// bits for items (1) and evolution (2). The room takes the smallest free room
/// number and the client as its master; the client is in the room and is told
/// its number. If every number is taken, the client is told that instead.
fn create_room(server: &mut Server, entity_id: &EntityId, pr: PacketReader) -> (r: Result<(), HandleError>)
    requires
        old(server).world.wf(),
        old(server).world.next_id() < u64::MAX,
        old(server).world@.contains_key(*entity_id),
        old(server).world@[*entity_id].sender is Some,
        !rooms_full(old(server).world@) ==> pr.pos() + 42 <= pr.bytes().len(),
    ensures
        room_created(*old(server), *final(server), *entity_id, pr, r),
{
    let ghost w = server.world@;
    proof {
        server.world.lemma_views();
    }
    let room_id = match try_get_new_room_id(&server.world) {
        Some(id) => id,
        None => {
            let entity = server.world.get(entity_id).unwrap();
            let pkt = error(ErrorKind::FullOfClientsInRoom);
            send(&mut server.outbox, entity, pkt);
            assert(outbox_view(server.outbox@) =~= outbox_view(old(server).outbox@) + packets_to(seq![*entity_id], pkt@));
            return Ok(());
        },
    };
    proof {
        let c = choose|c: u8| MIN_ROOM_ID <= c <= MAX_ROOM_ID && !uid_used(w, c) && forall|d: u8|
            MIN_ROOM_ID <= d < c ==> #[trigger] uid_used(w, d);
        if c < room_id {
            assert(uid_used(w, c));
        } else if room_id < c {
            assert(uid_used(w, room_id));
        }
    }
    let mut pr = pr;
    let _ = pr.len();
    let name = pr.string(13);
    pr.seek(12);
    let password = pr.string(13);
    let max_users = pr.u8();
    let lev_condition = pr.u8();
    let lev_base = pr.u8();
    let bits = pr.u8();
    let allows_item = bits & 1 != 0;
    let allows_evol = bits & 2 != 0;
    let info = RoomInfo::new(
        room_id,
        name.as_str(),
        password.as_str(),
        *entity_id,
        allows_item,
        allows_evol,
        max_users,
        lev_condition,
        lev_base,
    );
    let room = crate::room::create(&mut server.world, info);
    let room_entity_id = room.id();
    let ghost w1 = server.world@;
    assert(room_entity_id == old(server).world.next_id());
    let entity = server.world.get_mut(entity_id).unwrap();
    entity.push(ClientState::OnRoom);
    entity.push(OnRoomInfo::new(room_entity_id));
    let entity = server.world.get(entity_id).unwrap();
    let mut pw = PacketWriter::new(PACKET_CREATE_ROOM + 1);
    pw.u16(room_id as u16);
    assert(pw.bytes() =~= room_made_body(room_id));
    let pkt = pw.as_vec();
    send(&mut server.outbox, entity, pkt);
    assert(outbox_view(server.outbox@) =~= outbox_view(old(server).outbox@) + packets_to(seq![*entity_id], pkt@));
    assert(*entity_id != room_entity_id);
    assert(server.world@ =~= w.insert(room_entity_id, EntityView { kind: Some(EntityKind::Room), room: server.world@[room_entity_id].room, ..empty_entity(room_entity_id) }).insert(
        *entity_id,
        EntityView {
            state: Some(ClientState::OnRoom),
            on_room: Some(OnRoomInfo {
                room_entity_id: room_entity_id,
                team: 0,
                character: CHAR_RANDOM_ID,
                state_in_room: StateInRoom::NotReady,
            }),
            ..w[*entity_id]
        },
    ));
    proof {
        if room_uids_unique(w) {
            lemma_new_room_keeps_unique(
                w,
                room_entity_id,
                EntityView { kind: Some(EntityKind::Room), room: server.world@[room_entity_id].room, ..empty_entity(room_entity_id) },
                *entity_id,
                EntityView {
                    state: Some(ClientState::OnRoom),
                    on_room: Some(OnRoomInfo {
                        room_entity_id: room_entity_id,
                        team: 0,
                        character: CHAR_RANDOM_ID,
                        state_in_room: StateInRoom::NotReady,
                    }),
                    ..w[*entity_id]
                },
            );
        }
    }
    Ok(())
}

/// A room made from a create-room packet, when a room number is free, is the
/// room that its maker is then in. It allows items exactly when bit 0 (value 1)
/// of the packet's settings byte (payload offset 41) is set, and evolution
/// exactly when bit 1 (value 2) is set; no other bit matters.
pub proof fn law_new_room_settings(s0: Server, s1: Server, eid: EntityId, pr: PacketReader, r: Result<(), HandleError>)
    requires
        room_created(s0, s1, eid, pr, r),
        !rooms_full(s0.world@),
    ensures
        ({
            let w2 = s1.world@;
            let bits = pr.bytes()[pr.pos() + 41int];
            &&& w2[eid].on_room is Some
            &&& w2.contains_key(w2[eid].on_room->0.room_entity_id)
            &&& w2[w2[eid].on_room->0.room_entity_id].room is Some
            &&& w2[w2[eid].on_room->0.room_entity_id].room->0.allows_item == (bits % 2 == 1)
            &&& w2[w2[eid].on_room->0.room_entity_id].room->0.allows_evol == ((bits / 2) % 2 == 1)
        }),
{
    let bits = pr.bytes()[pr.pos() + 41int];
    assert((bits & 1u8 != 0u8) == (bits % 2 == 1) && (bits & 2u8 != 0u8) == ((bits / 2) % 2 == 1)) by (bit_vector);
}

/// The position in `s`, below `n`, of the last room with room number `uid`.
pub open spec fn last_room_with(s: Seq<EntityView>, uid: u8, n: nat) -> Option<nat>
    decreases n,
{
    if n == 0 {
        None
    } else if s[n - 1].room is Some && s[n - 1].room->0.room_uid == uid {
        Some((n - 1) as nat)
    } else {
        last_room_with(s, uid, (n - 1) as nat)
    }
}

/// The room of the world, the last in id order, with room number `uid`.
pub open spec fn room_with_uid(world: &World, uid: u8) -> Option<EntityId> {
    match last_room_with(world.views(), uid, world.views().len()) {
        Some(i) => Some(world.views()[i as int].id),
        None => None,
    }
}

proof fn lemma_last_room_with(s: Seq<EntityView>, uid: u8, n: nat)
    requires
        n <= s.len(),
    ensures
        last_room_with(s, uid, n) matches Some(i) ==> i < n && s[i as int].room is Some && s[i as int].room->0.room_uid == uid,
    decreases n,
{
    if n > 0 {
        lemma_last_room_with(s, uid, (n - 1) as nat);
    }
}

/// The room that `room_with_uid` finds is a room of the world.
pub proof fn lemma_room_with_uid(world: &World, uid: u8)
    requires
        world.wf(),
    ensures
        room_with_uid(world, uid) matches Some(k) ==> world@.contains_key(k) && world@[k].room is Some,
{
    lemma_last_room_with(world.views(), uid, world.views().len());
    world.lemma_views();
}

/// Finds the room with room number `uid` (the last in id order).
pub(crate) fn find_room_by_uid(world: &World, uid: u8) -> (r: Option<EntityId>)
    requires
        world.wf(),
    ensures
        r == room_with_uid(world, uid),
        r matches Some(k) ==> world@.contains_key(k) && world@[k].room is Some && world@[k].room->0.room_uid == uid,
{
    let v = world.values();
    let mut found: Option<EntityId> = None;
    let mut i: usize = 0;
    while i < v.len()
        invariant
            i <= v@.len(),
            v@.len() == world.views().len(),
            forall|j: int| 0 <= j < v@.len() ==> #[trigger] v@[j]@ == world.views()[j],
            found == match last_room_with(world.views(), uid, i as nat) {
                Some(j) => Some(world.views()[j as int].id),
                None => None::<EntityId>,
            },
        decreases v@.len() - i,
    {
        if let Ok(info) = v[i].get::<RoomInfo>() {
            if info.room_uid == uid {
                found = Some(v[i].id());
            }
        }
        i = i + 1;
    }
    proof {
        world.lemma_views();
        lemma_last_room_with(world.views(), uid, world.views().len());
        if let Some(j) = last_room_with(world.views(), uid, world.views().len()) {
            assert(world@.contains_key(world.views()[j as int].id));
        }
    }
    found
}

/// The twenty bytes of a place in the packet that lets a client into a room.
pub open spec fn enter_row(w: Map<EntityId, EntityView>, place: Option<EntityId>) -> Seq<u8> {
    match place {
        Some(k) => {
            let login = w[k].login->0;
            let on_room = w[k].on_room->0;
            seq![1u8, on_room.character, on_room.state_in_room.spec_code(), login.user_schema.level]
                + fixed_text(login.user_schema.name@, 13) + seq![on_room.team] + le16(login.client_uid)
        },
        None => seq![0u8] + zeros(19),
    }
}

/// The rows of the first `n` places.
pub open spec fn enter_rows(w: Map<EntityId, EntityView>, m: Seq<Option<EntityId>>, n: nat) -> Seq<u8>
    decreases n,
{
    if n == 0 {
        Seq::<u8>::empty()
    } else {
        enter_rows(w, m, (n - 1) as nat) + enter_row(w, m[n - 1])
    }
}

/// The body that lets a client into the room `info`.
pub open spec fn enter_body(w: Map<EntityId, EntityView>, info: RoomInfo) -> Seq<u8> {
    body_prefix((PACKET_ENTER_ROOM + 1) as u8) + seq![info.master_index as u8, info.map] + enter_rows(w, info.members@, 8)
}

/// The body that tells a room that `eid` came into place `place`.
pub open spec fn newcomer_body(w: Map<EntityId, EntityView>, eid: EntityId, place: nat) -> Seq<u8> {
    let login = w[eid].login->0;
    body_prefix((PACKET_ENTER_ROOM + 2) as u8) + seq![place as u8] + zeros(4) + seq![login.user_schema.level]
        + fixed_text(login.user_schema.name@, 13) + seq![w[eid].on_room->0.team] + le16(login.client_uid)
}

/// A room's members, with the newcomer in the first empty place, can all be
/// shown: each exists with a connection, has logged in and has room state.
pub open spec fn members_showable(w: Map<EntityId, EntityView>, m: Seq<Option<EntityId>>) -> bool {
    forall|i: int|
        0 <= i < 8 && #[trigger] m[i] is Some ==> {
            &&& w.contains_key(m[i]->0)
            &&& w[m[i]->0].sender is Some
            &&& w[m[i]->0].login is Some
            &&& w[m[i]->0].on_room is Some
        }
}

/// `w2` is `w` after `eid` joined the room `rid` in its first empty place.
pub open spec fn joined(w: Map<EntityId, EntityView>, w2: Map<EntityId, EntityView>, eid: EntityId, rid: EntityId) -> bool {
    let info = w[rid].room->0;
    let info2 = w2[rid].room->0;
    &&& w2[rid].room is Some
    &&& info2 == RoomInfo { members: info2.members, ..info }
    &&& info2.members@ == info.members@.update(first_empty(info.members@)->0 as int, Some(eid))
    &&& w2 == w.insert(rid, EntityView { room: Some(info2), ..w[rid] }).insert(
        eid,
        EntityView {
            state: Some(ClientState::OnRoom),
            on_room: Some(OnRoomInfo {
                room_entity_id: rid,
                team: 0,
                character: CHAR_RANDOM_ID,
                state_in_room: StateInRoom::NotReady,
            }),
            ..w[eid]
        },
    )
}

/// The client `eid` was let into room `rid` of `w2` with `p1`, and the members
/// of the room, the client among them, were told with `p2`.
pub open spec fn entered_told(
    before: Seq<Outgoing>,
    after: Seq<Outgoing>,
    w2: Map<EntityId, EntityView>,
    eid: EntityId,
    rid: EntityId,
    p1: Seq<u8>,
    p2: Seq<u8>,
) -> bool {
    let info2 = w2[rid].room->0;
    &&& is_packet_of(p1, enter_body(w2, info2))
    &&& is_packet_of(p2, newcomer_body(w2, eid, index_of_member(info2.members@, eid)->0))
    &&& outbox_view(after) == outbox_view(before).push((eid, Some(p1))) + packets_to(member_ids(info2.members@), p2)
}

/// Writes the rows of the places of `info` for the packet that lets a client in.
#[verifier::rlimit(30)]
fn write_enter_rows(world: &World, pw: &mut PacketWriter, info: &RoomInfo)
    requires
        world.wf(),
        members_showable(world@, info.members@),
    ensures
        final(pw).bytes() == old(pw).bytes() + enter_rows(world@, info.members@, 8),
        final(pw).op() == old(pw).op(),
{
    let mut i: usize = 0;
    while i < 8
        invariant
            i <= 8,
            world.wf(),
            members_showable(world@, info.members@),
            pw.op() == old(pw).op(),
            pw.bytes() == old(pw).bytes() + enter_rows(world@, info.members@, i as nat),
        decreases 8 - i,
    {
        if let Some(member_entity_id) = info.members[i] {
            let member_entity = world.get(&member_entity_id).unwrap();
            let member_info = member_entity.get::<AfterLoginInfo>().unwrap();
            let on_room_info = member_entity.get::<OnRoomInfo>().unwrap();
            pw.u8(1).u8(on_room_info.character).u8(on_room_info.state_in_room.code()).u8(member_info.user_schema.level)
                .string(member_info.user_schema.name.as_str(), 13).u8(on_room_info.team).u16(member_info.client_uid);
        } else {
            pw.u8(0).pad(19);
        }
        i = i + 1;
        assert(pw.bytes() =~= old(pw).bytes() + enter_rows(world@, info.members@, i as nat));
    }
}

/// What `enter_room` makes of the server `s0` for the client `eid` and the packet
/// `pr`: the server `s1` and the result `r`.
pub open spec fn room_entered(s0: Server, s1: Server, eid: EntityId, pr: PacketReader, r: Result<(), HandleError>) -> bool {
    &&& r is Ok
    &&& s1.config == s0.config
    &&& s1.now == s0.now
    &&& s1.world.wf()
    &&& s1.world.next_id() == s0.world.next_id()
    &&& ({
        let w = s0.world@;
        let w2 = s1.world@;
        let before = s0.outbox@;
        let after = s1.outbox@;
        match room_with_uid(&s0.world, pr.bytes()[pr.pos() as int]) {
            None => w2 == w && told(before, after, seq![eid], error_body(ErrorKind::NoRoom)),
            Some(rid) => match room_state_of(w[rid].room->0) {
                RoomState::Playing => w2 == w && told(before, after, seq![eid], error_body(ErrorKind::NoRoom)),
                RoomState::Full => w2 == w && told(before, after, seq![eid], error_body(ErrorKind::FullOfClientsInRoom)),
                RoomState::Waiting => joined(w, w2, eid, rid) && exists|p1: Seq<u8>, p2: Seq<u8>|
                    #[trigger] entered_told(before, after, w2, eid, rid, p1, p2),
            },
        }
    })
}

/// The client asks to join the room whose number is the packet's byte. If there
/// is no such room, or it is playing, it is told there is no room; if the room
/// is full, it is told so. Otherwise it takes the room's first empty place, is
/// let in with the room's places, and the members are told about it.
fn enter_room(server: &mut Server, entity_id: &EntityId, pr: PacketReader) -> (r: Result<(), HandleError>)
    requires
        old(server).world.wf(),
        old(server).world@.contains_key(*entity_id),
        old(server).world@[*entity_id].sender is Some,
        old(server).world@[*entity_id].login is Some,
        old(server).world@[*entity_id].room is None,
        pr.pos() + 1 <= pr.bytes().len(),
        room_with_uid(&old(server).world, pr.bytes()[pr.pos() as int]) matches Some(rid) ==> {
            let info = old(server).world@[rid].room->0;
            &&& acceptable(old(server).world@[rid])
            &&& members_showable(old(server).world@, info.members@)
        },
    ensures
        room_entered(*old(server), *final(server), *entity_id, pr, r),
{
    let ghost w = server.world@;
    proof {
        server.world.lemma_views();
    }
    let mut pr = pr;
    let requested_room_id = pr.u8();
    let rid = match find_room_by_uid(&server.world, requested_room_id) {
        Some(rid) => rid,
        None => {
            let entity = server.world.get(entity_id).unwrap();
            let pkt = error(ErrorKind::NoRoom);
            send(&mut server.outbox, entity, pkt);
            assert(outbox_view(server.outbox@) =~= outbox_view(old(server).outbox@) + packets_to(seq![*entity_id], pkt@));
            return Ok(());
        },
    };
    let room = server.world.get_mut(&rid).unwrap();
    let res = try_accept_client(room, *entity_id);
    match res {
        TryAcceptClientResult::InGame => {
            let entity = server.world.get(entity_id).unwrap();
            let pkt = error(ErrorKind::NoRoom);
            send(&mut server.outbox, entity, pkt);
            assert(server.world@ =~= w);
            assert(outbox_view(server.outbox@) =~= outbox_view(old(server).outbox@) + packets_to(seq![*entity_id], pkt@));
            return Ok(());
        },
        TryAcceptClientResult::FullOfClients => {
            let entity = server.world.get(entity_id).unwrap();
            let pkt = error(ErrorKind::FullOfClientsInRoom);
            send(&mut server.outbox, entity, pkt);
            assert(server.world@ =~= w);
            assert(outbox_view(server.outbox@) =~= outbox_view(old(server).outbox@) + packets_to(seq![*entity_id], pkt@));
            return Ok(());
        },
        TryAcceptClientResult::Accepted => {},
    }
    let entity = server.world.get_mut(entity_id).unwrap();
    entity.push(OnRoomInfo::new(rid));
    entity.push(ClientState::OnRoom);
    let ghost w2 = server.world@;
    let ghost info2 = w2[rid].room->0;
    assert(joined(w, w2, *entity_id, rid));
    let ghost m2 = info2.members@;
    let ghost place = first_empty(w[rid].room->0.members@)->0;
    proof {
        crate::room::lemma_first_empty(w[rid].room->0.members@);
        crate::room::lemma_index_of_member(m2, *entity_id);
        if index_of_member(m2, *entity_id) is None {
            assert(m2[place as int] == Some(*entity_id));
        }
        assert forall|i: int| 0 <= i < 8 && #[trigger] m2[i] is Some implies {
            &&& w2.contains_key(m2[i]->0)
            &&& w2[m2[i]->0].sender is Some
            &&& w2[m2[i]->0].login is Some
            &&& w2[m2[i]->0].on_room is Some
        } by {
            if i != place {
                assert(m2[i] == w[rid].room->0.members@[i]);
            }
        }
    }
    let world = &server.world;
    let room_entity = world.get(&rid).unwrap();
    let room_info = room_entity.get::<RoomInfo>().unwrap();
    let mut pw = PacketWriter::new(PACKET_ENTER_ROOM + 1);
    pw.u8(room_info.master_index as u8).u8(room_info.map);
    write_enter_rows(world, &mut pw, room_info);
    assert(pw.bytes() =~= enter_body(w2, info2));
    let pkt = pw.as_vec();
    let ghost p1 = pkt@;
    let entity = world.get(entity_id).unwrap();
    send(&mut server.outbox, entity, pkt);
    let ghost mid = outbox_view(server.outbox@);
    let member_info = entity.get::<AfterLoginInfo>().unwrap();
    let on_room_info = entity.get::<OnRoomInfo>().unwrap();
    let index_in_room = crate::room::get_index_in_room(room_entity, entity_id).unwrap();
    let mut pw2 = PacketWriter::new(PACKET_ENTER_ROOM + 2);
    pw2.u8(index_in_room as u8).pad_to(13).u8(member_info.user_schema.level).string(member_info.user_schema.name.as_str(), 13)
        .u8(on_room_info.team).u16(member_info.client_uid);
    assert(pw2.bytes() =~= newcomer_body(w2, *entity_id, index_of_member(m2, *entity_id)->0));
    let pkt2 = pw2.as_vec();
    let ids = get_user_entity_ids(room_entity);
    proof {
        crate::on_room::lemma_member_ids_contains(m2);
        assert forall|k: int| 0 <= k < ids@.len() implies world@.contains_key(#[trigger] ids@[k]) && world@[ids@[k]].sender is Some by {
            assert(member_ids(m2).contains(ids@[k]));
            let j = choose|j: int| 0 <= j < m2.len() && m2[j] == Some(ids@[k]);
            assert(m2[j] is Some);
        }
    }
    send_each(world, &mut server.outbox, &ids, &pkt2);
    assert(entered_told(old(server).outbox@, server.outbox@, w2, *entity_id, rid, p1, pkt2@));
    Ok(())
}

/// What a packet from a client in the lobby needs, by its opcode.
pub open spec fn lobby_packet_ok(world: &World, eid: EntityId, pr: PacketReader) -> bool {
    let w = world@;
    let op = pr.op();
    let b = pr.bytes();
    let at = pr.pos();
    &&& op == PACKET_CHAT ==> {
        &&& at + 195 <= b.len()
        &&& b[at + 1int] == 1 ==> at + 208 <= b.len()
        &&& logged_reachable(w)
        &&& state_reachable(w, ClientState::OnLobby)
        &&& w.contains_key(eid) ==> room_reachable(w, eid)
    }
    &&& op == PACKET_REQUEST_USER_LIST ==> w.contains_key(eid) && w[eid].sender is Some
    &&& op == PACKET_REQUEST_ROOM_LIST ==> {
        &&& w.contains_key(eid) && w[eid].sender is Some
        &&& all_rooms_listable(w)
        &&& at + 3 <= b.len()
    }
    &&& op == PACKET_CREATE_ROOM ==> {
        &&& world.next_id() < u64::MAX
        &&& w.contains_key(eid) && w[eid].sender is Some
        &&& !rooms_full(w) ==> at + 42 <= b.len()
    }
    &&& op == PACKET_ENTER_ROOM ==> {
        &&& w.contains_key(eid)
        &&& w[eid].sender is Some
        &&& w[eid].login is Some
        &&& w[eid].room is None
        &&& at + 1 <= b.len()
        &&& room_with_uid(world, b[at as int]) matches Some(rid) ==> acceptable(w[rid]) && members_showable(w, w[rid].room->0.members@)
    }
}

/// What `handle` makes of the server `s0` for a packet `pr` from the client `eid`
/// in the lobby: the server `s1` and the result `r`.
pub open spec fn lobby_handled(s0: Server, s1: Server, eid: EntityId, pr: PacketReader, r: Result<(), HandleError>) -> bool {
    &&& s1.config == s0.config
    &&& s1.now == s0.now
    &&& s1.world.wf()
    &&& pr.op() == PACKET_CHAT ==> s1.world == s0.world && lobby_chat_result(
        &s0.world,
        eid,
        pr.bytes(),
        pr.pos() as int,
        s0.outbox@,
        s1.outbox@,
        r,
    )
    &&& pr.op() == PACKET_ENTER_SHOP ==> shop_entered(s0, s1, eid, pr, r)
    &&& pr.op() == PACKET_GO_BACK ==> went_back(s0, s1, eid, pr, r)
    &&& pr.op() == PACKET_REQUEST_USER_LIST ==> user_list_sent(s0, s1, eid, pr, r)
    &&& pr.op() == PACKET_REQUEST_ROOM_LIST ==> room_list_sent(s0, s1, eid, pr, r)
    &&& pr.op() == PACKET_CREATE_ROOM ==> room_created(s0, s1, eid, pr, r)
    &&& pr.op() == PACKET_ENTER_ROOM ==> room_entered(s0, s1, eid, pr, r)
    &&& pr.op() != PACKET_CHAT && pr.op() != PACKET_ENTER_SHOP && pr.op() != PACKET_GO_BACK && pr.op() != PACKET_REQUEST_USER_LIST
        && pr.op() != PACKET_REQUEST_ROOM_LIST && pr.op() != PACKET_CREATE_ROOM && pr.op() != PACKET_ENTER_ROOM ==> r is Ok
        && s1 == s0
}

/// Handles a packet from a client in the lobby, by its opcode; other opcodes
/// are ignored.
pub fn handle(server: &mut Server, entity_id: &EntityId, pr: PacketReader) -> (r: Result<(), HandleError>)
    requires
        old(server).world.wf(),
        lobby_packet_ok(&old(server).world, *entity_id, pr),
    ensures
        lobby_handled(*old(server), *final(server), *entity_id, pr, r),
{
    let op = pr.opcode();
    if op == PACKET_CHAT {
        on_chat(server, entity_id, pr)
    } else if op == PACKET_ENTER_SHOP {
        enter_shop(server, entity_id, pr)
    } else if op == PACKET_GO_BACK {
        go_back(server, entity_id, pr)
    } else if op == PACKET_REQUEST_USER_LIST {
        send_user_list(server, entity_id, pr)
    } else if op == PACKET_REQUEST_ROOM_LIST {
        send_room_list(server, entity_id, pr)
    } else if op == PACKET_CREATE_ROOM {
        create_room(server, entity_id, pr)
    } else if op == PACKET_ENTER_ROOM {
        enter_room(server, entity_id, pr)
    } else {
        Ok(())
    }
}

} // verus!
