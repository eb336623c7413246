//! The components that entities of the login server carry.
use vstd::prelude::*;
use crate::db::UserSchema;

verus! {

/// The identifier of an entity in the world.
pub type EntityId = u64;
/// The identifier that distinguishes logged-in clients on the client side.
pub type ClientId = u16;
/// The number of a room as the clients see it.
pub type RoomId = u8;
/// A map number.
pub type MapKind = u8;

/// The largest number of users.
pub const MAX_USERS: usize = 1000;
/// The smallest client uid handed out.
pub const MIN_CLIENT_UID: ClientId = 1;
/// The largest client uid handed out.
pub const MAX_CLIENT_UID: ClientId = 1000;

/// The number of item slots of a user.
pub const ITEM_COUNT: usize = 4;
/// The number of experience counters of a user.
pub const EXP_COUNT: usize = 8;
/// The number of chat macros of a user.
pub const MACRO_COUNT: usize = 8;

/// The number of characters; this number itself stands for a random pick.
pub const MAX_CHAR_ID: u8 = 8;
/// The number of maps; this number itself stands for a random pick.
pub const MAX_MAP_ID: u8 = 10;
/// The character number that asks for a random character.
pub const CHAR_RANDOM_ID: u8 = 8;
/// The map number that asks for a random map.
pub const MAP_RANDOM_ID: u8 = 10;

/// The largest number of rooms.
pub const MAX_ROOMS: usize = 200;
/// The smallest room number.
pub const MIN_ROOM_ID: RoomId = 0;
/// The largest room number.
pub const MAX_ROOM_ID: RoomId = 199;

/// The number of places in a room.
pub const ROOM_SIZE: usize = 8;

/// What an entity stands for.
#[derive(Debug, Clone, Copy, PartialEq, Eq, Structural)]
pub enum EntityKind {
    Client,
    Room,
    Timer,
}

/// Where a client is in its session.
#[derive(Clone, Copy, Debug, PartialEq, Eq, Structural)]
pub enum ClientState {
    BeforeLogin,
    AfterLogin,
    OnLobby,
    OnRoom,
    OnGame,
}

/// The state of a room as the room list shows it.
#[derive(Clone, Copy, Debug, PartialEq, Eq, Structural)]
pub enum RoomState {
    Waiting,
    Full,
    Playing,
}

impl RoomState {
    /// The number that stands for the state on the wire.
    pub open spec fn spec_code(self) -> u8 {
        match self {
            RoomState::Waiting => 1,
            RoomState::Full => 2,
            RoomState::Playing => 3,
        }
    }

    /// The number that stands for the state on the wire.
    pub fn code(&self) -> (c: u8)
        ensures
            c == self.spec_code(),
    {
        match self {
            RoomState::Waiting => 1,
            RoomState::Full => 2,
            RoomState::Playing => 3,
        }
    }
}

/// What a client has once it has logged in.
#[derive(Clone, Debug, PartialEq)]
pub struct AfterLoginInfo {
    pub client_uid: ClientId,
    pub user_schema: UserSchema,
}

impl AfterLoginInfo {
    /// Bundles a client uid and the user's record.
    pub fn new(client_uid: ClientId, user_schema: UserSchema) -> (r: Self)
        ensures
            r.client_uid == client_uid,
            r.user_schema == user_schema,
    {
        Self { client_uid: client_uid, user_schema: user_schema }
    }
}

/// What a member of a room is doing in it.
#[derive(Clone, Copy, Debug, PartialEq, Eq, Structural)]
pub enum StateInRoom {
    NotReady,
    Shopping,
    Ready,
}

impl StateInRoom {
    /// The number that stands for the state on the wire.
    pub open spec fn spec_code(self) -> u8 {
        match self {
            StateInRoom::NotReady => 1,
            StateInRoom::Shopping => 2,
            StateInRoom::Ready => 3,
        }
    }

    /// The number that stands for the state on the wire.
    pub fn code(&self) -> (c: u8)
        ensures
            c == self.spec_code(),
    {
        match self {
            StateInRoom::NotReady => 1,
            StateInRoom::Shopping => 2,
            StateInRoom::Ready => 3,
        }
    }
}

/// What a client has while it is in a room.
#[derive(Clone, Copy, Debug, PartialEq, Eq, Structural)]
pub struct OnRoomInfo {
    pub room_entity_id: EntityId,
    pub team: u8,
    pub character: u8,
    pub state_in_room: StateInRoom,
}

impl OnRoomInfo {
    /// A newcomer to the room `room_entity_id`: team 0, a random character, not ready.
    pub fn new(room_entity_id: EntityId) -> (r: Self)
        ensures
            r == (OnRoomInfo {
                room_entity_id: room_entity_id,
                team: 0,
                character: CHAR_RANDOM_ID,
                state_in_room: StateInRoom::NotReady,
            }),
    {
        Self {
            room_entity_id: room_entity_id,
            team: 0,
            character: CHAR_RANDOM_ID,
            state_in_room: StateInRoom::NotReady,
        }
    }
}

/// Whether a client has answered since the last ping-pong check.
#[derive(Clone, Copy, Debug, PartialEq, Eq, Structural)]
pub struct PongInfo(pub bool);

/// What a room entity has.
#[derive(Clone, Debug, PartialEq)]
pub struct RoomInfo {
    pub room_uid: RoomId,
    pub master_index: usize,
    pub members: [Option<EntityId>; 8],
    pub is_playing: bool,
    pub name: String,
    pub password: String,
    pub map: MapKind,
    pub allows_item: bool,
    pub allows_evol: bool,
    pub max_clients: u8,
    pub level_condition: u8,
    pub level_base: u8,
}

impl RoomInfo {
    /// A new room whose only member, in place 0, is its master; the map is random.
    pub fn new(
        room_uid: RoomId,
        name: &str,
        password: &str,
        master_entity_id: EntityId,
        allows_item: bool,
        allows_evol: bool,
        max_clients: u8,
        level_condition: u8,
        level_base: u8,
    ) -> (r: Self)
        ensures
            r.room_uid == room_uid,
            r.is_playing == false,
            r.name@ == name@,
            r.password@ == password@,
            r.master_index == 0,
            r.map == MAP_RANDOM_ID,
            r.members@ == seq![Some(master_entity_id)] + Seq::new(7, |i: int| None::<EntityId>),
            r.allows_item == allows_item,
            r.allows_evol == allows_evol,
            r.max_clients == max_clients,
            r.level_condition == level_condition,
            r.level_base == level_base,
    {
        let mut members: [Option<EntityId>; 8] = [None, None, None, None, None, None, None, None];
        members[0] = Some(master_entity_id);
        assert(members@ =~= seq![Some(master_entity_id)] + Seq::new(7, |i: int| None::<EntityId>));
        Self {
            room_uid: room_uid,
            is_playing: false,
            name: name.to_owned(),
            password: password.to_owned(),
            master_index: 0,
            map: MAP_RANDOM_ID,
            members: members,
            allows_item: allows_item,
            allows_evol: allows_evol,
            max_clients: max_clients,
            level_condition: level_condition,
            level_base: level_base,
        }
    }
}

/// The in-game state of one character.
#[derive(Clone, Copy, Debug, PartialEq, Eq, Structural)]
pub struct PlayerInfo {
    pub delay: u16,
    pub hp: u16,
    pub x: u16,
    pub y: u16,
}

impl PlayerInfo {
    /// All values zero.
    pub fn default() -> (r: Self)
        ensures
            r == (PlayerInfo { delay: 0, hp: 0, x: 0, y: 0 }),
    {
        Self { delay: 0, hp: 0, x: 0, y: 0 }
    }
}

/// What a room entity has while a game is played in it.
#[derive(Clone, Debug, PartialEq)]
pub struct GameInfo {
    pub room_eid: EntityId,
    /// Which places have finished loading, or their turn.
    pub load_table: [bool; 8],
    /// The places in the order in which they take turns in this cycle.
    pub turn_table: Vec<usize>,
    /// The position in `turn_table` of the place whose turn it is.
    pub turn_index: usize,
    /// The in-game state of the character in each place.
    pub player_infos: [PlayerInfo; 8],
}

/// The network address of a client.
#[derive(Clone, Debug, PartialEq)]
pub struct PeerAddr {
    pub ip: Vec<u8>,
    pub port: u16,
}

/// The handle of a client's connection: what is sent through it is addressed
/// to the entity that has it.
#[derive(Clone, Copy, Debug, PartialEq, Eq, Structural)]
pub struct MsgToConnSender;

/// A point in time, in milliseconds.
#[derive(Clone, Copy, Debug, PartialEq, Eq, Structural)]
pub struct Instant {
    pub millis: u64,
}

/// What a timer does when it runs.
#[derive(Clone, Copy, Debug, PartialEq, Eq, Structural)]
pub enum TimerTask {
    /// Disconnects clients that did not answer since the previous run.
    PingPongCheck,
    /// Waits for the clients of a room to load a game, from `started` on.
    Loading { room_eid: EntityId, started: u64 },
    /// Runs the turns of a game; the current turn started at `turn_started`.
    MainLoop { room_eid: EntityId, turn_started: u64 },
}

/// What a timer entity has: its task and its period in milliseconds.
#[derive(Clone, Copy, Debug, PartialEq, Eq, Structural)]
pub struct TimerInfo {
    pub task: TimerTask,
    pub duration: u64,
}

} // verus!
