use rustydo::after_login::AfterLoginAction;
use rustydo::before_login::{check_new_account, finish_login, login_step, make_account, try_get_user_schema, AccountCheck, LoginStep};
use rustydo::component::{
    AfterLoginInfo, ClientState, EntityId, GameInfo, OnRoomInfo, PeerAddr, RoomInfo, StateInRoom, TimerInfo, TimerTask,
};
use rustydo::config::{Config, ConfigMessage, ConfigServer, ConfigTicker, ConfigUser};
use rustydo::crypt::{decode, decrypt};
use rustydo::db::UserSchema;
use rustydo::guard::{check_disconnection, check_in_room, check_kinds, check_packet, check_tick};
use rustydo::login::{handle_disconnection, handle_packet, register_connection, timer_ids, Action};
use rustydo::packet::ErrorKind;
use rustydo::reader::PacketReader;
use rustydo::server::{HandleError, Server};
use rustydo::timer::{tick_fault, TickFault};
use rustydo::session::MsgToConn;
use rustydo::bytes::read_u16;

fn config() -> Config {
    Config {
        server: ConfigServer { password: "secret".to_string(), use_auto_account: true, max_users: 1000 },
        user: ConfigUser { initial_level: 1, initial_money: 100 },
        message: ConfigMessage { notice: "hello\nworld".to_string() },
        ticker: ConfigTicker {
            initial: String::new(),
            board: String::new(),
            ranking: String::new(),
            selection: String::new(),
        },
    }
}

/// The body of a packet with opcode `op` and payload `payload`.
fn body(op: u8, payload: &[u8]) -> Vec<u8> {
    let mut b = vec![op, 0, 0, 0, 0x78, 0x56, 0x34, 0x12];
    b.extend_from_slice(payload);
    b
}

/// A text field of `size` bytes.
fn field(s: &str, size: usize) -> Vec<u8> {
    let mut v = s.as_bytes().to_vec();
    v.resize(size, 0);
    v
}

/// Opens a sealed packet: its body.
fn open(pkt: &[u8]) -> Vec<u8> {
    let header = decode(&pkt[0..9]).unwrap();
    let len = read_u16(&header, 0) as usize;
    decrypt(&pkt[9..9 + len])
}

/// The bodies queued for `eid`, in order, from position `from` of the outbox.
fn bodies_for(server: &Server, eid: EntityId, from: usize) -> Vec<Vec<u8>> {
    server.outbox[from..]
        .iter()
        .filter(|o| o.to == eid)
        .filter_map(|o| match &o.msg {
            MsgToConn::SendPacket(p) => Some(open(p)),
            MsgToConn::Shutdown => None,
        })
        .collect()
}

fn send(server: &mut Server, eid: EntityId, b: Vec<u8>) -> Result<Action, HandleError> {
    let pr = PacketReader::new(&b);
    assert!(check_packet(&server.world, &eid, &pr));
    handle_packet(server, eid, pr)
}

/// Runs a timer, after checking that the world can run it.
fn tick(server: &mut Server, timer: EntityId, now: u64) {
    assert!(check_tick(server, &timer, now));
    rustydo::timer::tick(server, &timer, now);
}

fn connect(server: &mut Server, port: u16) -> EntityId {
    register_connection(&mut server.world, PeerAddr { ip: vec![127, 0, 0, 1], port: port })
}

/// Logs a new client in as `id`, with an account made for it.
fn log_in(server: &mut Server, id: &str, port: u16) -> EntityId {
    let eid = connect(server, port);
    let mut payload = field(id, 13);
    payload.extend(field("pw", 13));
    let (uid, pw) = match send(server, eid, body(3, &payload)) {
        Ok(Action::Login(uid, pw)) => (uid, pw),
        other => panic!("unexpected {:?}", other),
    };
    assert_eq!(uid, id);
    assert_eq!(pw, "pw");
    let check = try_get_user_schema(None, &pw);
    let step = login_step(check, server.config.server.use_auto_account);
    assert!(matches!(step, LoginStep::CreateAccount));
    let account = make_account(&server.config, &uid, &uid, &pw);
    let check = try_get_user_schema(Some(account), &pw);
    let user = match login_step(check, true) {
        LoginStep::Accept(u) => u,
        other => panic!("unexpected {:?}", other),
    };
    finish_login(server, &eid, &uid, user).unwrap();
    eid
}

fn state_of(server: &Server, eid: EntityId) -> ClientState {
    *server.world.get(&eid).unwrap().get::<ClientState>().unwrap()
}

fn enter_lobby(server: &mut Server, eid: EntityId) {
    let r = send(server, eid, body(57, &[0, 0, 0]));
    assert!(matches!(r, Ok(Action::AfterLogin(AfterLoginAction::Done))));
    assert_eq!(state_of(server, eid), ClientState::OnLobby);
}

fn create_room(server: &mut Server, eid: EntityId, name: &str) {
    let mut payload = field(name, 13);
    payload.extend(vec![0u8; 12]);
    payload.extend(field("", 13));
    payload.extend([8u8, 0, 0, 3]);
    assert!(send(server, eid, body(59, &payload)).is_ok());
}

fn room_of(server: &Server, eid: EntityId) -> EntityId {
    server.world.get(&eid).unwrap().get::<OnRoomInfo>().unwrap().room_entity_id
}

#[test]
fn login_gives_the_first_client_uid() {
    let mut server = Server::new(config(), 0);
    let before = server.outbox.len();
    let eid = log_in(&mut server, "alice", 1);
    assert_eq!(state_of(&server, eid), ClientState::AfterLogin);
    let info = server.world.get(&eid).unwrap().get::<AfterLoginInfo>().unwrap();
    assert_eq!(info.client_uid, 1);
    assert_eq!(info.user_schema.level, 1);
    assert_eq!(info.user_schema.money, 100);
    let sent = bodies_for(&server, eid, before);
    assert_eq!(sent.len(), 1);
    assert_eq!(sent[0][0], 4);
    assert_eq!(read_u16(&sent[0], 8), 1);
    assert_eq!(sent[0].len(), 1492);
}

#[test]
fn second_login_of_the_same_user_is_refused() {
    let mut server = Server::new(config(), 0);
    let _ = log_in(&mut server, "bob", 1);
    let eid = connect(&mut server, 2);
    let before = server.outbox.len();
    let account = make_account(&server.config, &"bob".to_string(), &"bob".to_string(), &"pw".to_string());
    finish_login(&mut server, &eid, &"bob".to_string(), account).unwrap();
    assert_eq!(state_of(&server, eid), ClientState::BeforeLogin);
    let sent = bodies_for(&server, eid, before);
    assert_eq!(sent.len(), 1);
    assert_eq!(sent[0][0], 0);
    assert_eq!(u32::from_le_bytes([sent[0][8], sent[0][9], sent[0][10], sent[0][11]]), 7010);
}

#[test]
fn wrong_password_and_banned_users() {
    let cfg = config();
    let mut account = make_account(&cfg, &"carol".to_string(), &"carol".to_string(), &"right".to_string());
    let (u, e) = try_get_user_schema(Some(account.clone()), &"wrong".to_string());
    assert!(u.is_none());
    assert_eq!(e, Some(ErrorKind::InvalidAccInfo));
    account.is_banned = true;
    let (u, e) = try_get_user_schema(Some(account), &"right".to_string());
    assert!(u.is_none());
    assert_eq!(e, Some(ErrorKind::Banned));
    let (u, e) = try_get_user_schema(None, &"right".to_string());
    assert!(u.is_none());
    assert_eq!(e, Some(ErrorKind::InvalidId));
    assert!(matches!(login_step((None, Some(ErrorKind::InvalidId)), false), LoginStep::Reject(ErrorKind::InvalidId)));
}

#[test]
fn reentering_needs_a_login() {
    let mut server = Server::new(config(), 0);
    let eid = connect(&mut server, 1);
    let r = send(&mut server, eid, body(20, &[]));
    assert_eq!(r.err(), Some(HandleError::NotAuthenticated));
    let eid2 = log_in(&mut server, "dave", 2);
    enter_lobby(&mut server, eid2);
    let pr_body = body(54, &[]);
    assert!(send(&mut server, eid2, pr_body).is_ok());
    assert_eq!(state_of(&server, eid2), ClientState::BeforeLogin);
    assert!(send(&mut server, eid2, body(20, &[])).is_ok());
    assert_eq!(state_of(&server, eid2), ClientState::AfterLogin);
}

#[test]
fn unknown_entities_are_ignored() {
    let mut server = Server::new(config(), 0);
    let r = send(&mut server, 77, body(3, &[0u8; 26]));
    assert!(matches!(r, Ok(Action::Done)));
    assert!(server.outbox.is_empty());
}

#[test]
fn notice_has_carriage_returns() {
    let mut server = Server::new(config(), 0);
    let eid = log_in(&mut server, "erin", 1);
    let before = server.outbox.len();
    assert!(send(&mut server, eid, body(16, &[])).is_ok());
    let sent = bodies_for(&server, eid, before);
    assert_eq!(sent[0][0], 17);
    assert_eq!(&sent[0][8..], b"hello\r\n\r\nworld\0");
}

#[test]
fn rooms_take_the_smallest_free_number() {
    let mut server = Server::new(config(), 0);
    let a = log_in(&mut server, "a", 1);
    let b = log_in(&mut server, "b", 2);
    enter_lobby(&mut server, a);
    enter_lobby(&mut server, b);
    let before = server.outbox.len();
    create_room(&mut server, a, "first");
    assert_eq!(state_of(&server, a), ClientState::OnRoom);
    let sent = bodies_for(&server, a, before);
    assert_eq!(sent[0][0], 60);
    assert_eq!(read_u16(&sent[0], 8), 0);
    let before = server.outbox.len();
    create_room(&mut server, b, "second");
    let sent = bodies_for(&server, b, before);
    assert_eq!(read_u16(&sent[0], 8), 1);
    let room = server.world.get(&room_of(&server, b)).unwrap().get::<RoomInfo>().unwrap();
    assert_eq!(room.name, "second");
    assert_eq!(room.max_clients, 8);
    assert!(room.allows_item && room.allows_evol);
    assert_eq!(room.members[0], Some(b));
}

#[test]
fn lobby_chat_reaches_the_lobby() {
    let mut server = Server::new(config(), 0);
    let a = log_in(&mut server, "a", 1);
    let b = log_in(&mut server, "b", 2);
    let c = log_in(&mut server, "c", 3);
    enter_lobby(&mut server, a);
    enter_lobby(&mut server, b);
    let before = server.outbox.len();
    let mut payload = vec![0u8, 0];
    payload.extend(field("hi all", 193));
    assert!(send(&mut server, a, body(34, &payload)).is_ok());
    assert_eq!(bodies_for(&server, a, before).len(), 1);
    assert_eq!(bodies_for(&server, b, before).len(), 1);
    assert_eq!(bodies_for(&server, c, before).len(), 0);
    let chat = &bodies_for(&server, b, before)[0];
    assert_eq!(chat[0], 34);
}

#[test]
fn whisper_to_nobody_tells_the_sender() {
    let mut server = Server::new(config(), 0);
    let a = log_in(&mut server, "a", 1);
    let b = log_in(&mut server, "b", 2);
    enter_lobby(&mut server, a);
    let before = server.outbox.len();
    let mut payload = vec![0u8, 1];
    payload.extend(field("psst", 193));
    payload.extend(field("b", 13));
    assert!(send(&mut server, a, body(34, &payload)).is_ok());
    assert_eq!(bodies_for(&server, b, before).len(), 1);
    assert_eq!(bodies_for(&server, a, before).len(), 0);
    let before = server.outbox.len();
    let mut payload = vec![0u8, 1];
    payload.extend(field("psst", 193));
    payload.extend(field("nobody", 13));
    assert!(send(&mut server, a, body(34, &payload)).is_ok());
    assert_eq!(bodies_for(&server, a, before).len(), 1);
}

#[test]
fn entering_a_room_tells_everyone() {
    let mut server = Server::new(config(), 0);
    let a = log_in(&mut server, "a", 1);
    let b = log_in(&mut server, "b", 2);
    enter_lobby(&mut server, a);
    enter_lobby(&mut server, b);
    create_room(&mut server, a, "room");
    let before = server.outbox.len();
    assert!(send(&mut server, b, body(62, &[0])).is_ok());
    assert_eq!(state_of(&server, b), ClientState::OnRoom);
    let to_b = bodies_for(&server, b, before);
    assert_eq!(to_b.len(), 2);
    assert_eq!(to_b[0][0], 63);
    assert_eq!(to_b[0].len(), 8 + 2 + 8 * 20);
    assert_eq!(to_b[1][0], 64);
    assert_eq!(to_b[1][8], 1);
    let to_a = bodies_for(&server, a, before);
    assert_eq!(to_a.len(), 1);
    assert_eq!(to_a[0][0], 64);
    let room = server.world.get(&room_of(&server, b)).unwrap().get::<RoomInfo>().unwrap();
    assert_eq!(room.members[1], Some(b));
}

#[test]
fn entering_a_missing_room_is_refused() {
    let mut server = Server::new(config(), 0);
    let a = log_in(&mut server, "a", 1);
    enter_lobby(&mut server, a);
    let before = server.outbox.len();
    assert!(send(&mut server, a, body(62, &[9])).is_ok());
    assert_eq!(state_of(&server, a), ClientState::OnLobby);
    let sent = bodies_for(&server, a, before);
    assert_eq!(u32::from_le_bytes([sent[0][8], sent[0][9], sent[0][10], sent[0][11]]), 7013);
}

/// Two clients in one room, on teams 0 and 1.
fn two_in_a_room(server: &mut Server) -> (EntityId, EntityId) {
    let a = log_in(server, "a", 1);
    let b = log_in(server, "b", 2);
    enter_lobby(server, a);
    enter_lobby(server, b);
    create_room(server, a, "room");
    assert!(send(server, b, body(62, &[0])).is_ok());
    assert!(send(server, b, body(71, &[1])).is_ok());
    (a, b)
}

#[test]
fn room_changes_are_told() {
    let mut server = Server::new(config(), 0);
    let (a, b) = two_in_a_room(&mut server);
    assert_eq!(server.world.get(&b).unwrap().get::<OnRoomInfo>().unwrap().team, 1);
    let before = server.outbox.len();
    assert!(send(&mut server, a, body(76, &[])).is_ok());
    let info = server.world.get(&a).unwrap().get::<OnRoomInfo>().unwrap();
    assert_eq!(info.state_in_room, StateInRoom::Ready);
    assert_eq!(bodies_for(&server, b, before).len(), 1);
    assert_eq!(bodies_for(&server, b, before)[0][0], 77);
    assert!(send(&mut server, a, body(69, &[3])).is_ok());
    assert_eq!(server.world.get(&a).unwrap().get::<OnRoomInfo>().unwrap().character, 3);
}

#[test]
fn only_the_master_changes_the_map() {
    let mut server = Server::new(config(), 0);
    let (a, b) = two_in_a_room(&mut server);
    assert!(send(&mut server, a, body(66, &[4])).is_ok());
    let room = server.world.get(&room_of(&server, a)).unwrap().get::<RoomInfo>().unwrap();
    assert_eq!(room.map, 4);
    let r = send(&mut server, b, body(66, &[5]));
    assert_eq!(r.err(), Some(HandleError::NotRoomMaster));
}

#[test]
fn starting_a_game() {
    let mut server = Server::new(config(), 5000);
    let (a, b) = two_in_a_room(&mut server);
    let before = server.outbox.len();
    assert!(send(&mut server, a, body(80, &[])).is_ok());
    assert_eq!(state_of(&server, a), ClientState::OnGame);
    assert_eq!(state_of(&server, b), ClientState::OnGame);
    let start_a = bodies_for(&server, a, before);
    let start_b = bodies_for(&server, b, before);
    assert_eq!(start_a.len(), 1);
    assert_eq!(start_a[0][0], 81);
    assert_eq!(start_a[0].len(), 12 + 64);
    assert_eq!(start_a[0][8], start_b[0][8]);
    assert!(start_a[0][8] < 10);
    let p0 = start_a[0][12 + 1];
    let p1 = start_a[0][20 + 1];
    assert!(p0 < 16 && p1 < 16 && p0 != p1);
    let room_eid = room_of(&server, a);
    let room = server.world.get(&room_eid).unwrap();
    assert!(room.get::<RoomInfo>().unwrap().is_playing);
    let game = room.get::<GameInfo>().unwrap();
    let mut table = game.turn_table.clone();
    table.sort();
    assert_eq!(table, vec![0, 1]);
    assert_eq!(game.turn_index, 0);
    assert_eq!(game.load_table, [false; 8]);
    let timers = timer_ids(&server.world);
    assert_eq!(timers.len(), 2);
    let loading = server.world.get(&timers[1]).unwrap().get::<TimerInfo>().unwrap();
    assert_eq!(loading.task, TimerTask::Loading { room_eid: room_eid, started: 5000 });
}

/// Two clients in a started game that both have loaded it.
fn loaded_game(server: &mut Server) -> (EntityId, EntityId, EntityId) {
    let (a, b) = two_in_a_room(server);
    assert!(send(server, a, body(80, &[])).is_ok());
    for (eid, delay) in [(a, 10u16), (b, 20u16)] {
        let mut payload = delay.to_le_bytes().to_vec();
        payload.extend(100u16.to_le_bytes());
        payload.extend(5u16.to_le_bytes());
        payload.extend(6u16.to_le_bytes());
        assert!(send(server, eid, body(83, &payload)).is_ok());
    }
    let timers = timer_ids(&server.world);
    (a, b, timers[1])
}

#[test]
fn loading_then_turns() {
    let mut server = Server::new(config(), 0);
    let (a, b, loading) = loaded_game(&mut server);
    let room_eid = room_of(&server, a);
    let game = server.world.get(&room_eid).unwrap().get::<GameInfo>().unwrap();
    assert_eq!(game.load_table[0], true);
    assert_eq!(game.player_infos[1].delay, 20);
    assert_eq!(game.player_infos[1].hp, 100);
    let before = server.outbox.len();
    tick(&mut server, loading, 50);
    assert!(server.world.get(&loading).is_ok());
    assert!(server.outbox.len() == before);
    tick(&mut server, loading, 150);
    assert!(server.world.get(&loading).is_err());
    let turn = bodies_for(&server, a, before);
    assert_eq!(turn.len(), 1);
    assert_eq!(turn[0][0], 87);
    let wind = i32::from_le_bytes([turn[0][8], turn[0][9], turn[0][10], turn[0][11]]);
    assert!(-30 <= wind && wind <= 30);
    assert_eq!(bodies_for(&server, b, before).len(), 1);
    let game = server.world.get(&room_eid).unwrap().get::<GameInfo>().unwrap();
    assert_eq!(game.load_table, [false; 8]);
    let timers = timer_ids(&server.world);
    assert_eq!(timers.len(), 2);
    let main = server.world.get(&timers[1]).unwrap().get::<TimerInfo>().unwrap();
    assert_eq!(main.task, TimerTask::MainLoop { room_eid: room_eid, turn_started: 150 });
}

#[test]
fn a_game_ends_when_one_team_is_left() {
    let mut server = Server::new(config(), 0);
    let (a, b, loading) = loaded_game(&mut server);
    tick(&mut server, loading, 150);
    let main = timer_ids(&server.world)[1];
    // Both end their turn; the character of b has no hit points left.
    for (eid, hp) in [(a, 100u16), (b, 0u16)] {
        let mut payload = 10u16.to_le_bytes().to_vec();
        payload.extend(hp.to_le_bytes());
        payload.extend(0u16.to_le_bytes());
        payload.extend(0u16.to_le_bytes());
        assert!(send(&mut server, eid, body(86, &payload)).is_ok());
    }
    let before = server.outbox.len();
    tick(&mut server, main, 300);
    assert!(server.world.get(&main).is_err());
    let end = bodies_for(&server, a, before);
    assert_eq!(end.len(), 1);
    assert_eq!(end[0][0], 90);
    assert_eq!(end[0][8], 0);
    assert_eq!(state_of(&server, a), ClientState::OnRoom);
    assert_eq!(state_of(&server, b), ClientState::OnRoom);
    let room = server.world.get(&room_of(&server, a)).unwrap().get::<RoomInfo>().unwrap();
    assert!(!room.is_playing);
}

#[test]
fn turns_pass_to_the_living() {
    let mut server = Server::new(config(), 0);
    let (a, b, loading) = loaded_game(&mut server);
    tick(&mut server, loading, 150);
    let main = timer_ids(&server.world)[1];
    let room_eid = room_of(&server, a);
    let first = {
        let game = server.world.get(&room_eid).unwrap().get::<GameInfo>().unwrap();
        game.turn_table[game.turn_index]
    };
    for eid in [a, b] {
        let mut payload = 10u16.to_le_bytes().to_vec();
        payload.extend(50u16.to_le_bytes());
        payload.extend(0u16.to_le_bytes());
        payload.extend(0u16.to_le_bytes());
        assert!(send(&mut server, eid, body(86, &payload)).is_ok());
    }
    let before = server.outbox.len();
    tick(&mut server, main, 300);
    assert!(server.world.get(&main).is_ok());
    let game = server.world.get(&room_eid).unwrap().get::<GameInfo>().unwrap();
    assert_eq!(game.turn_index, 1);
    assert_ne!(game.turn_table[game.turn_index], first);
    let turn = bodies_for(&server, b, before);
    assert_eq!(turn[0][0], 87);
    assert_eq!(turn[0][23] as usize, game.turn_table[1]);
}

#[test]
fn frames_go_to_the_others_in_turn() {
    let mut server = Server::new(config(), 0);
    let (a, b, loading) = loaded_game(&mut server);
    tick(&mut server, loading, 150);
    let room_eid = room_of(&server, a);
    let in_turn = {
        let game = server.world.get(&room_eid).unwrap().get::<GameInfo>().unwrap();
        game.turn_table[game.turn_index]
    };
    let (mover, other) = if in_turn == 0 { (a, b) } else { (b, a) };
    let before = server.outbox.len();
    assert!(send(&mut server, mover, body(32, &[1, 2, 3, 4, 9, 9])).is_ok());
    assert_eq!(bodies_for(&server, mover, before).len(), 0);
    let frame = bodies_for(&server, other, before);
    assert_eq!(frame.len(), 1);
    assert_eq!(frame[0][0], 33);
    assert_eq!(&frame[0][27..], &[9, 9]);
    let before = server.outbox.len();
    assert!(send(&mut server, other, body(32, &[1, 2, 3, 4, 7])).is_ok());
    assert_eq!(server.outbox.len(), before);
}

#[test]
fn leaving_a_room_hands_it_over() {
    let mut server = Server::new(config(), 0);
    let (a, b) = two_in_a_room(&mut server);
    let room_eid = room_of(&server, a);
    let before = server.outbox.len();
    assert!(send(&mut server, a, body(95, &[])).is_ok());
    assert_eq!(state_of(&server, a), ClientState::OnLobby);
    let room = server.world.get(&room_eid).unwrap().get::<RoomInfo>().unwrap();
    assert_eq!(room.members[0], None);
    assert_eq!(room.master_index, 1);
    assert!(bodies_for(&server, b, before).len() >= 1);
    assert!(check_disconnection(&server.world, &b));
    handle_disconnection(&mut server, b);
    assert!(server.world.get(&b).is_err());
    assert!(server.world.get(&room_eid).is_err());
}

#[test]
fn the_ping_check_drops_the_silent() {
    let mut server = Server::new(config(), 0);
    let a = connect(&mut server, 1);
    let b = connect(&mut server, 2);
    let timer = timer_ids(&server.world)[0];
    tick(&mut server, timer, 600_000);
    assert!(server.outbox.is_empty());
    // b answers; a does not.
    assert!(send(&mut server, b, body(200, &[])).is_ok());
    tick(&mut server, timer, 1_200_000);
    let to_a: Vec<_> = server.outbox.iter().filter(|o| o.to == a).collect();
    assert_eq!(to_a.len(), 2);
    assert!(matches!(to_a[1].msg, MsgToConn::Shutdown));
    assert!(server.outbox.iter().all(|o| o.to != b));
}

#[test]
fn new_accounts_need_a_free_id_then_a_free_name() {
    assert_eq!(check_new_account(true, true), AccountCheck::IdDup);
    assert_eq!(check_new_account(true, false), AccountCheck::IdDup);
    assert_eq!(check_new_account(false, true), AccountCheck::NameDup);
    assert_eq!(check_new_account(false, false), AccountCheck::Free);
    assert_eq!(AccountCheck::IdDup.as_text(), "id_dup");
    assert_eq!(AccountCheck::NameDup.as_text(), "name_dup");
    assert_eq!(AccountCheck::Free.as_text(), "");
    let cfg = config();
    let u = make_account(&cfg, &"Dora".to_string(), &"dora".to_string(), &"pw".to_string());
    assert_eq!(u.name, "Dora");
    assert_eq!(u.id, "dora");
}

#[test]
fn packets_that_do_not_fit_are_caught() {
    let mut server = Server::new(config(), 0);
    let eid = connect(&mut server, 7);
    let short = body(3, &field("ann", 13));
    assert!(!check_packet(&server.world, &eid, &PacketReader::new(&short)));
    let mut full = field("ann", 13);
    full.extend(field("pw", 13));
    assert!(check_packet(&server.world, &eid, &PacketReader::new(&body(3, &full))));
    assert!(check_packet(&server.world, &999, &PacketReader::new(&short)));
    let a = log_in(&mut server, "ann", 8);
    enter_lobby(&mut server, a);
    assert!(!check_packet(&server.world, &a, &PacketReader::new(&body(59, &[0; 10]))));
    create_room(&mut server, a, "r");
    assert!(!check_packet(&server.world, &a, &PacketReader::new(&body(98, &[]))));
    assert!(!check_packet(&server.world, &a, &PacketReader::new(&body(98, &[5]))));
    assert!(check_packet(&server.world, &a, &PacketReader::new(&body(98, &[0]))));
    assert!(check_disconnection(&server.world, &a));
    assert!(!check_disconnection(&server.world, &999));
    assert!(check_kinds(&server.world));
}

#[test]
fn timers_are_checked_before_they_run() {
    let mut server = Server::new(config(), 0);
    let timers = timer_ids(&server.world);
    assert_eq!(timers.len(), 1);
    assert!(check_tick(&server, &timers[0], 10));
    assert!(check_tick(&server, &timers[0], 600_000));
    let eid = connect(&mut server, 9);
    assert!(!check_tick(&server, &eid, 0));
}

#[test]
fn the_login_packet_names_friends_and_tests() {
    let mut server = Server::new(config(), 0);
    let before = server.outbox.len();
    let eid = log_in(&mut server, "erin", 11);
    let sent = bodies_for(&server, eid, before);
    let login = &sent[sent.len() - 1];
    assert_eq!(&login[756..762], b"User 3");
    assert_eq!(login[762], 0);
    assert_eq!(&login[1285..1291], b"Test 5");
}

#[test]
fn an_empty_password_is_filled_with_letters_and_digits() {
    let mut cfg = config();
    cfg.server.password = String::new();
    cfg.fill_password();
    assert_eq!(cfg.server.password.len(), 32);
    assert!(cfg.server.password.chars().all(|c| c.is_ascii_alphanumeric()));
    let mut kept = config();
    kept.fill_password();
    assert_eq!(kept.server.password, "secret");
}

/// Every client in a room or a game is in that room, and every room's members
/// point back at it.
fn rooms_hang_together(server: &Server) {
    for e in server.world.values() {
        let id = e.id();
        if let Ok(st) = e.get::<ClientState>() {
            let in_room = *st == ClientState::OnRoom || *st == ClientState::OnGame;
            assert_eq!(e.get::<OnRoomInfo>().is_ok(), in_room);
            if in_room {
                assert!(check_in_room(&server.world, &id));
            }
        }
        if let Ok(info) = e.get::<RoomInfo>() {
            for m in info.members.iter().flatten() {
                assert_eq!(room_of(server, *m), id);
            }
        }
    }
}

#[test]
fn the_world_hangs_together_through_a_game() {
    let mut server = Server::new(config(), 0);
    rooms_hang_together(&server);
    let (a, b, loading) = loaded_game(&mut server);
    rooms_hang_together(&server);
    tick(&mut server, loading, 150);
    rooms_hang_together(&server);
    let c = log_in(&mut server, "c", 3);
    enter_lobby(&mut server, c);
    create_room(&mut server, c, "other");
    rooms_hang_together(&server);
    assert!(check_disconnection(&server.world, &a));
    handle_disconnection(&mut server, a);
    rooms_hang_together(&server);
    assert!(send(&mut server, c, body(95, &[])).is_ok());
    rooms_hang_together(&server);
}

#[test]
fn slow_loading_and_slow_turns_are_faults() {
    let mut server = Server::new(config(), 0);
    let (a, _b) = two_in_a_room(&mut server);
    assert!(send(&mut server, a, body(80, &[])).is_ok());
    let timers = timer_ids(&server.world);
    assert_eq!(tick_fault(&server, &timers[0], 50), None);
    assert_eq!(tick_fault(&server, &timers[1], 29999), None);
    assert_eq!(tick_fault(&server, &timers[1], 30000), Some(TickFault::LoadingTimeout));

    let mut server = Server::new(config(), 0);
    let (_a, _b, loading) = loaded_game(&mut server);
    tick(&mut server, loading, 150);
    let timers = timer_ids(&server.world);
    assert_eq!(tick_fault(&server, &timers[1], 150 + 119999), None);
    assert_eq!(tick_fault(&server, &timers[1], 150 + 120000), Some(TickFault::TurnTimeout));
}
