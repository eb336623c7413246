use rustydo::component::{ClientState, EntityId, EntityKind, OnRoomInfo, PongInfo, RoomInfo, RoomState};
use rustydo::turn_table::get_turn_table;
use rustydo::object::{ObjectError, World};
use rustydo::room::{create, get_index_in_room, get_room_list, get_room_state, get_user_entity_ids, try_accept_client, TryAcceptClientResult};

#[test]
fn world_ids_count_up() {
    let mut w = World::default();
    assert_eq!(w.push(), 0);
    assert_eq!(w.push(), 1);
    assert!(w.remove(&0));
    assert!(!w.remove(&0));
    assert_eq!(w.push(), 2);
    assert!(w.get(&0).is_err());
    assert_eq!(w.get(&1).unwrap().id(), 1);
    assert_eq!(w.values().len(), 2);
}

#[test]
fn missing_things_are_errors() {
    let mut w = World::default();
    assert_eq!(w.get(&5).err(), Some(ObjectError::NoEntity));
    let id = w.push();
    let e = w.get_mut(&id).unwrap();
    assert_eq!(e.get::<ClientState>().err(), Some(ObjectError::NoComponent));
    assert!(e.push(ClientState::OnLobby));
    assert!(!e.push(ClientState::OnRoom));
    assert_eq!(*e.get::<ClientState>().unwrap(), ClientState::OnRoom);
    *e.get_mut::<ClientState>().unwrap() = ClientState::OnGame;
    assert_eq!(*e.get::<ClientState>().unwrap(), ClientState::OnGame);
    assert!(e.remove::<ClientState>());
    assert!(!e.remove::<ClientState>());
}

#[test]
fn select_keeps_id_order() {
    let mut w = World::default();
    for i in 0..5u64 {
        let id = w.push();
        let e = w.get_mut(&id).unwrap();
        e.push(PongInfo(i % 2 == 0));
    }
    let picked: Vec<EntityId> = w
        .select(|e| matches!(e.get::<PongInfo>(), Ok(PongInfo(true))))
        .iter()
        .map(|e| e.id())
        .collect();
    assert_eq!(picked, vec![0, 2, 4]);
}

fn room(uid: u8, max: u8) -> RoomInfo {
    RoomInfo::new(uid, "r", "", 1000, false, false, max, 0, 0)
}

#[test]
fn rooms_accept_until_full() {
    let mut w = World::default();
    let r = create(&mut w, room(3, 2)).id();
    let e = w.get_mut(&r).unwrap();
    assert_eq!(*e.get::<EntityKind>().unwrap(), EntityKind::Room);
    assert_eq!(get_room_state(e), Some(RoomState::Waiting));
    assert_eq!(try_accept_client(e, 7), TryAcceptClientResult::Accepted);
    assert_eq!(get_room_state(e), Some(RoomState::Full));
    assert_eq!(try_accept_client(e, 8), TryAcceptClientResult::FullOfClients);
    assert_eq!(get_user_entity_ids(e), vec![1000, 7]);
    assert_eq!(get_index_in_room(e, &7), Some(1));
    assert_eq!(get_index_in_room(e, &8), None);
    e.get_mut::<RoomInfo>().unwrap().is_playing = true;
    assert_eq!(get_room_state(e), Some(RoomState::Playing));
    assert_eq!(try_accept_client(e, 9), TryAcceptClientResult::InGame);
}

#[test]
fn room_lists_are_sorted_pages() {
    let mut w = World::default();
    for uid in [5u8, 1, 9, 3, 7, 2, 8, 4, 6, 0] {
        create(&mut w, room(uid, 8));
    }
    let uids = |rooms: Vec<&rustydo::object::Entity>| -> Vec<u8> {
        rooms.iter().map(|e| e.get::<RoomInfo>().unwrap().room_uid).collect()
    };
    assert_eq!(uids(get_room_list(&w, false, 0, 0)), vec![0, 1, 2, 3, 4, 5, 6, 7]);
    assert_eq!(uids(get_room_list(&w, false, 1, 5)), vec![2, 3, 4, 5, 6, 7, 8, 9]);
    assert_eq!(uids(get_room_list(&w, false, 1, 1)), vec![1, 2, 3, 4, 5, 6, 7, 8]);
    assert_eq!(uids(get_room_list(&w, false, 2, 3)), vec![0, 1, 2, 3, 4, 5, 6, 7]);
    assert_eq!(uids(get_room_list(&w, false, 2, 9)), vec![2, 3, 4, 5, 6, 7, 8, 9]);
    let full = create(&mut w, room(11, 1)).id();
    let _ = full;
    assert!(!uids(get_room_list(&w, true, 1, 10)).contains(&11));
    assert!(uids(get_room_list(&w, false, 1, 10)).contains(&11));
}

#[test]
fn values_mut_writes_through() {
    let mut w = World::default();
    for _ in 0..3 {
        w.push();
    }
    for e in w.values_mut() {
        e.push(PongInfo(false));
    }
    assert_eq!(w.values().iter().filter(|e| e.get::<PongInfo>().is_ok()).count(), 3);
}

#[test]
fn select_mut_touches_only_picked() {
    let mut w = World::default();
    for i in 0..4u64 {
        let id = w.push();
        if i % 2 == 1 {
            w.get_mut(&id).unwrap().push(ClientState::OnLobby);
        }
    }
    let picked = w.select_mut(|e| e.get::<ClientState>().is_ok());
    assert_eq!(picked.iter().map(|e| e.id()).collect::<Vec<EntityId>>(), vec![1, 3]);
    for e in picked {
        *e.get_mut::<ClientState>().unwrap() = ClientState::OnGame;
        e.push(PongInfo(true));
    }
    assert_eq!(*w.get(&1).unwrap().get::<ClientState>().unwrap(), ClientState::OnGame);
    assert_eq!(*w.get(&3).unwrap().get::<ClientState>().unwrap(), ClientState::OnGame);
    assert!(w.get(&0).unwrap().get::<PongInfo>().is_err());
    assert!(w.get(&2).unwrap().get::<PongInfo>().is_err());
}

#[test]
fn turn_tables_take_one_place_per_team_each_pass() {
    let mut w = World::default();
    let mut ids = vec![];
    for team in [0u8, 0, 0, 1] {
        let id = w.push();
        let mut info = OnRoomInfo::new(99);
        info.team = team;
        w.get_mut(&id).unwrap().push(info);
        ids.push(id);
    }
    let mut ri = RoomInfo::new(1, "r", "", ids[0], false, false, 8, 0, 0);
    ri.members = [Some(ids[0]), Some(ids[1]), Some(ids[2]), Some(ids[3]), None, None, None, None];
    for _ in 0..20 {
        let t = get_turn_table(&w, &ri);
        assert_eq!(t.len(), 4);
        assert!(t[0..2].contains(&3));
        assert!(!t[2..].contains(&3));
        let mut sorted = t.clone();
        sorted.sort();
        assert_eq!(sorted, vec![0, 1, 2, 3]);
    }
}
