//! Packets that several handlers send.
use vstd::prelude::*;
use crate::bytes::{if_else, le32, zeros};
use crate::component::{AfterLoginInfo, EntityId, RoomInfo, ROOM_SIZE};
use crate::object::{Entity, EntityView, World};
use crate::room::{get_room_state, ref_views, room_state_of};
use crate::writer::{body_prefix, fixed_text, is_packet_of, PacketWriter};

verus! {

/// The errors that the client knows how to show.
#[derive(Debug, Clone, Copy, PartialEq, Eq, Structural)]
pub enum ErrorKind {
    FullOfClients,
    InvalidId,
    NoResponse,
    CantFindUserInfo,
    Banned,
    Online,
    FullOfClientsInRoom,
    FullOfRooms,
    NoRoom,
    NotEnoughLevel,
    UnbalancedTeamNumber,
    BoardNotReady,
    SameNickname,
    NotEnoughTicketToChangeNickname,
    DupNickname,
    InvalidAccInfo,
}

impl ErrorKind {
    /// The number that stands for the error on the wire.
    pub open spec fn spec_code(self) -> u32 {
        match self {
            ErrorKind::FullOfClients => 5001,
            ErrorKind::InvalidId => 7001,
            ErrorKind::NoResponse => 7003,
            ErrorKind::CantFindUserInfo => 7005,
            ErrorKind::Banned => 7007,
            ErrorKind::Online => 7010,
            ErrorKind::FullOfClientsInRoom => 7011,
            ErrorKind::FullOfRooms => 7012,
            ErrorKind::NoRoom => 7013,
            ErrorKind::NotEnoughLevel => 7014,
            ErrorKind::UnbalancedTeamNumber => 7016,
            ErrorKind::BoardNotReady => 7021,
            ErrorKind::SameNickname => 7027,
            ErrorKind::NotEnoughTicketToChangeNickname => 7028,
            ErrorKind::DupNickname => 7029,
            ErrorKind::InvalidAccInfo => 8003,
        }
    }

    /// The number that stands for the error on the wire.
    pub fn code(&self) -> (c: u32)
        ensures
            c == self.spec_code(),
    {
        match self {
            ErrorKind::FullOfClients => 5001,
            ErrorKind::InvalidId => 7001,
            ErrorKind::NoResponse => 7003,
            ErrorKind::CantFindUserInfo => 7005,
            ErrorKind::Banned => 7007,
            ErrorKind::Online => 7010,
            ErrorKind::FullOfClientsInRoom => 7011,
            ErrorKind::FullOfRooms => 7012,
            ErrorKind::NoRoom => 7013,
            ErrorKind::NotEnoughLevel => 7014,
            ErrorKind::UnbalancedTeamNumber => 7016,
            ErrorKind::BoardNotReady => 7021,
            ErrorKind::SameNickname => 7027,
            ErrorKind::NotEnoughTicketToChangeNickname => 7028,
            ErrorKind::DupNickname => 7029,
            ErrorKind::InvalidAccInfo => 8003,
        }
    }
}

/// 1 for true, 0 for false.
pub open spec fn flag(b: bool) -> u8 {
    if b { 1 } else { 0 }
}

/// The body of an error packet.
pub open spec fn error_body(kind: ErrorKind) -> Seq<u8> {
    body_prefix(0) + le32(kind.spec_code())
}

/// An error packet.
pub fn error(err_kind: ErrorKind) -> (pkt: Vec<u8>)
    ensures
        is_packet_of(pkt@, error_body(err_kind)),
{
    PacketWriter::new(0).u32(err_kind.code()).as_vec()
}

/// The body of a chat packet.
pub open spec fn chat_body(is_admin: bool, is_whisper: bool, name: Seq<char>, text: Seq<char>) -> Seq<u8> {
    body_prefix(34) + seq![flag(is_admin), flag(is_whisper)] + fixed_text(text, 222) + fixed_text(name, 13)
}

/// A chat line from `name`, marked as from an administrator and as a whisper as asked.
pub fn chat(is_admin: bool, is_whisper: bool, name: &str, text: &str) -> (pkt: Vec<u8>)
    ensures
        is_packet_of(pkt@, chat_body(is_admin, is_whisper, name@, text@)),
{
    let mut pw = PacketWriter::new(34);
    pw.u8(if_else(is_admin, 1, 0)).u8(if_else(is_whisper, 1, 0)).string(text, 222).string(name, 13);
    proof {
        assert(pw.bytes() =~= chat_body(is_admin, is_whisper, name@, text@));
    }
    pw.as_vec()
}

/// The body of an in-game chat packet.
pub open spec fn chat_in_game_body(
    unknown: u8,
    msg_kind: u8,
    name: Seq<char>,
    text: Seq<char>,
    emoticon: Option<u32>,
    index_in_room: Option<u8>,
) -> Seq<u8> {
    body_prefix(34) + seq![unknown, msg_kind] + fixed_text(text, 206) + le32(
        match emoticon {
            Some(e) => e,
            None => 0xffffffffu32,
        },
    ) + zeros(12) + fixed_text(name, 13) + zeros(31) + seq![
        match index_in_room {
            Some(i) => i,
            None => 0u8,
        },
    ]
}

/// A chat line inside a game; no emoticon is sent as all ones, no place as zero.
pub fn chat_in_game(
    unknown: u8,
    msg_kind: u8,
    name: &str,
    text: &str,
    emoticon: Option<u32>,
    index_in_room: Option<u8>,
) -> (pkt: Vec<u8>)
    ensures
        is_packet_of(pkt@, chat_in_game_body(unknown, msg_kind, name@, text@, emoticon, index_in_room)),
{
    let emo = match emoticon {
        Some(e) => e,
        None => 0xffffffffu32,
    };
    let idx = match index_in_room {
        Some(i) => i,
        None => 0u8,
    };
    let mut pw = PacketWriter::new(34);
    pw.u8(unknown).u8(msg_kind).string(text, 206).u32(emo).pad(12).string(name, 13).pad(31).u8(idx);
    proof {
        assert(pw.bytes() =~= chat_in_game_body(unknown, msg_kind, name@, text@, emoticon, index_in_room));
    }
    pw.as_vec()
}

/// The fourteen bytes of a place in a room list: the member's name and level,
/// or zeros when the place is empty or its entity is gone.
pub open spec fn member_entry(world: Map<EntityId, EntityView>, place: Option<EntityId>) -> Seq<u8> {
    match place {
        Some(k) => if world.contains_key(k) {
            fixed_text(world[k].login->0.user_schema.name@, 13).push(world[k].login->0.user_schema.level)
        } else {
            zeros(14)
        },
        None => zeros(14),
    }
}

/// The entries of the places `m`, in order.
pub open spec fn member_entries(world: Map<EntityId, EntityView>, m: Seq<Option<EntityId>>) -> Seq<u8>
    decreases m.len(),
{
    if m.len() == 0 {
        Seq::<u8>::empty()
    } else {
        member_entries(world, m.drop_last()) + member_entry(world, m.last())
    }
}

/// The entry of a room in a room list.
pub open spec fn room_entry(world: Map<EntityId, EntityView>, info: RoomInfo) -> Seq<u8> {
    seq![room_state_of(info).spec_code()] + fixed_text(info.name@, 25) + fixed_text(info.password@, 13)
        + seq![
        info.max_clients,
        info.level_condition,
        info.level_base,
        flag(info.allows_item) | (if info.allows_evol { 2u8 } else { 0u8 }),
        info.map,
        info.room_uid,
        0u8,
    ] + member_entries(world, info.members@)
}

/// The entries of the first `n` rows of a room list; rows past the rooms are zeros.
pub open spec fn room_rows(world: Map<EntityId, EntityView>, rooms: Seq<EntityView>, n: nat) -> Seq<u8>
    decreases n,
{
    if n == 0 {
        Seq::<u8>::empty()
    } else {
        room_rows(world, rooms, (n - 1) as nat) + if n - 1 < rooms.len() {
            room_entry(world, rooms[n - 1].room->0)
        } else {
            zeros(46 + 14 * 8)
        }
    }
}

/// The body of a room list packet.
pub open spec fn room_list_body(world: Map<EntityId, EntityView>, rooms: Seq<EntityView>) -> Seq<u8> {
    body_prefix(58) + seq![rooms.len() as u8] + room_rows(world, rooms, 8)
}

/// Rooms of a room list: each has room information, and each of its members that
/// is still in the world has logged in.
pub open spec fn rooms_listable(world: Map<EntityId, EntityView>, rooms: Seq<EntityView>) -> bool {
    forall|i: int| #![trigger rooms[i]]
        0 <= i < rooms.len() ==> rooms[i].room is Some && forall|j: int|
            0 <= j < ROOM_SIZE && #[trigger] rooms[i].room->0.members@[j] is Some && world.contains_key(
                rooms[i].room->0.members@[j]->0,
            ) ==> world[rooms[i].room->0.members@[j]->0].login is Some
}

fn member_row(world: &World, pw: &mut PacketWriter, place: Option<EntityId>)
    requires
        world.wf(),
        place is Some && world@.contains_key(place->0) ==> world@[place->0].login is Some,
    ensures
        final(pw).bytes() == old(pw).bytes() + member_entry(world@, place),
        final(pw).op() == old(pw).op(),
{
    if let Some(k) = place {
        if let Ok(entity) = world.get(&k) {
            let user_info = entity.get::<AfterLoginInfo>().unwrap();
            pw.string(user_info.user_schema.name.as_str(), 13).u8(user_info.user_schema.level);
        } else {
            pw.pad(14);
        }
    } else {
        pw.pad(14);
    }
}

#[verifier::rlimit(40)]
fn room_row(world: &World, pw: &mut PacketWriter, room: &Entity)
    requires
        world.wf(),
        room@.room is Some,
        forall|j: int|
            0 <= j < ROOM_SIZE && #[trigger] room@.room->0.members@[j] is Some && world@.contains_key(
                room@.room->0.members@[j]->0,
            ) ==> world@[room@.room->0.members@[j]->0].login is Some,
    ensures
        final(pw).bytes() == old(pw).bytes() + room_entry(world@, room@.room->0),
        final(pw).op() == old(pw).op(),
{
    let state = get_room_state(room).unwrap();
    let info = room.get::<RoomInfo>().unwrap();
    pw.u8(state.code()).string(info.name.as_str(), 24 + 1).string(info.password.as_str(), 12 + 1)
        .u8(info.max_clients).u8(info.level_condition).u8(info.level_base)
        .u8(if_else(info.allows_item, 1u8, 0u8) | if_else(info.allows_evol, 2u8, 0u8))
        .u8(info.map).u8(info.room_uid).u8(0);
    let ghost head = pw.bytes();
    let mut j: usize = 0;
    while j < ROOM_SIZE
        invariant
            j <= ROOM_SIZE,
            world.wf(),
            *info == room@.room->0,
            info.members@.len() == ROOM_SIZE,
            forall|m: int|
                0 <= m < ROOM_SIZE && #[trigger] info.members@[m] is Some && world@.contains_key(
                    info.members@[m]->0,
                ) ==> world@[info.members@[m]->0].login is Some,
            pw.op() == old(pw).op(),
            pw.bytes() == head + member_entries(world@, info.members@.subrange(0, j as int)),
        decreases ROOM_SIZE - j,
    {
        proof {
            assert(info.members@.subrange(0, j + 1).drop_last() =~= info.members@.subrange(0, j as int));
        }
        member_row(world, pw, info.members[j]);
        j = j + 1;
        assert(pw.bytes() =~= head + member_entries(world@, info.members@.subrange(0, j as int)));
    }
    assert(info.members@.subrange(0, 8) =~= info.members@);
    assert(pw.bytes() =~= old(pw).bytes() + room_entry(world@, room@.room->0));
}

/// The list of `rooms` (at most eight shown) with their members.
pub fn room_list(world: &World, rooms: &Vec<&Entity>) -> (pkt: Vec<u8>)
    requires
        world.wf(),
        rooms_listable(world@, ref_views(rooms@)),
    ensures
        is_packet_of(pkt@, room_list_body(world@, ref_views(rooms@))),
{
    let ghost rv = ref_views(rooms@);
    let mut pw = PacketWriter::new(58);
    pw.u8(rooms.len() as u8);
    let mut i: usize = 0;
    while i < 8
        invariant
            i <= 8,
            world.wf(),
            rv == ref_views(rooms@),
            rooms_listable(world@, rv),
            pw.op() == 58,
            pw.bytes() == body_prefix(58) + seq![rv.len() as u8] + room_rows(world@, rv, i as nat),
        decreases 8 - i,
    {
        let ghost before = pw.bytes();
        if i >= rooms.len() {
            pw.pad(46 + 14 * 8);
        } else {
            let room = rooms[i];
            assert(rv[i as int] == room@);
            room_row(world, &mut pw, room);
        }
        i = i + 1;
        assert(pw.bytes() =~= body_prefix(58) + seq![rv.len() as u8] + room_rows(world@, rv, i as nat));
    }
    pw.as_vec()
}

/// The body of the packet that tells a room who left and who is master now.
pub open spec fn leaver_body(leaver_index: u8, master_index: u8) -> Seq<u8> {
    body_prefix(96) + seq![leaver_index, master_index]
}

/// Tells the members of a room which place was left and which place is master now.
pub fn room_notify_leaver_and_master(leaver_index: u8, master_index: u8) -> (pkt: Vec<u8>)
    ensures
        is_packet_of(pkt@, leaver_body(leaver_index, master_index)),
{
    let mut pw = PacketWriter::new(96);
    pw.u8(leaver_index).u8(master_index);
    proof {
        assert(pw.bytes() =~= leaver_body(leaver_index, master_index));
    }
    pw.as_vec()
}

/// Sends a client from its room back to the lobby: the leaver place 0xff.
pub fn room_leave_to_lobby() -> (pkt: Vec<u8>)
    ensures
        is_packet_of(pkt@, leaver_body(0xff, 0)),
{
    room_notify_leaver_and_master(u8::MAX, 0)
}

} // verus!
