use rustydo::after_login::{assign_new_post_id, board_bounds, get_board_info_pkt, make_packet_for_change_nickname, make_packet_for_write_article, new_post};
use rustydo::bytes::read_u16;
use rustydo::crypt::{decode, decrypt};
use rustydo::db::{DateTimeSchema, PostSchema};
use rustydo::hash::{from_str, hash_password};
use rustydo::packet::ErrorKind;
use rustydo::status::{generate_inter_packet, handle_packet, try_get_inter_msg};

fn open(pkt: &[u8]) -> Vec<u8> {
    let header = decode(&pkt[0..9]).unwrap();
    let len = read_u16(&header, 0) as usize;
    decrypt(&pkt[9..9 + len])
}

#[test]
fn sha3_of_the_empty_text() {
    let d = from_str("");
    assert_eq!(d.len(), 32);
    assert_eq!(
        hash_password(""),
        "a7ffc6f8bf1ed76651c14756a061d662f580ff4de43b49fa82d80a4b80f8434a"
    );
}

#[test]
fn stored_passwords_are_hex_digests() {
    let h = hash_password("pw");
    assert_eq!(h.len(), 64);
    assert!(h.chars().all(|c| c.is_ascii_hexdigit() && !c.is_ascii_uppercase()));
    assert_ne!(h, hash_password("pw2"));
}

#[test]
fn board_pages_count_down_from_the_newest() {
    assert_eq!(board_bounds(30, 0), (20, 30));
    assert_eq!(board_bounds(30, 1), (9, 19));
    assert_eq!(board_bounds(5, 1), (-16, -6));
}

#[test]
fn new_posts_get_the_next_id() {
    assert_eq!(assign_new_post_id(None), 1);
    assert_eq!(assign_new_post_id(Some(41)), 42);
    let dt = DateTimeSchema { year: 2022, month: 3, day: 4, hour: 5, min: 6 };
    let p = new_post(7, "w".to_string(), "t".to_string(), "x".to_string(), dt);
    assert_eq!(p.parent_post_id, Some(7));
    assert!(!p.is_deleted && !p.is_notice);
    assert_eq!(p.views, 0);
}

#[test]
fn a_board_page_lists_the_newest_first() {
    let dt = DateTimeSchema { year: 2022, month: 3, day: 4, hour: 5, min: 6 };
    let mut old = new_post(1, "w".to_string(), "old".to_string(), "x".to_string(), dt);
    old.is_deleted = true;
    let newer = new_post(2, "w".to_string(), "new".to_string(), "x".to_string(), dt);
    let pkt = get_board_info_pkt(&vec![old, newer], &vec![Some("writer".to_string()), None]);
    let body = open(&pkt);
    assert_eq!(body[0], 27);
    assert_eq!(body[8], 2);
    assert_eq!(body.len(), 12 + 2 * 88);
    let first = &body[12..100];
    assert_eq!(u32::from_le_bytes([first[4], first[5], first[6], first[7]]), 2);
    assert_eq!(&first[12..15], b"new");
    assert_eq!(u32::from_le_bytes([first[76], first[77], first[78], first[79]]), (2022 << 16) | (3 << 8) | 4);
    assert_eq!(u32::from_le_bytes([first[80], first[81], first[82], first[83]]), (5 << 16) | (6 << 8));
    let second = &body[100..188];
    assert_eq!(u32::from_le_bytes([second[4], second[5], second[6], second[7]]), 1);
    assert_eq!(&second[61..67], b"writer");
    assert_ne!(&second[12..15], b"old");
}

#[test]
fn write_and_nickname_replies() {
    let body = open(&make_packet_for_write_article(Some(ErrorKind::BoardNotReady), 0));
    assert_eq!(body[0], 31);
    assert_eq!(u32::from_le_bytes([body[8], body[9], body[10], body[11]]), 7021);
    assert_eq!(body[12], 0);
    let body = open(&make_packet_for_write_article(None, 1));
    assert_eq!(&body[8..], &[0, 0, 0, 0, 1]);
    let body = open(&make_packet_for_change_nickname(Some(ErrorKind::DupNickname)));
    assert_eq!(body[0], 124);
    assert_eq!(u32::from_le_bytes([body[8], body[9], body[10], body[11]]), 7029);
}

#[test]
fn status_server_list() {
    let data = vec![1u8, 0, 0, 0, 0x78, 0x56, 0x34, 0x12, 77];
    let reply = open(&handle_packet(&data).unwrap());
    assert_eq!(reply[0], 2);
    assert_eq!(reply[8], 77);
    assert_eq!(reply[9], 1);
    assert_eq!(read_u16(&reply, 10), 401);
    assert_eq!(read_u16(&reply, 12), 1000);
    assert_eq!(read_u16(&reply, 14), 1000);
    let data = vec![46u8, 0, 0, 0, 0x78, 0x56, 0x34, 0x12, 5];
    let reply = open(&handle_packet(&data).unwrap());
    assert_eq!(&reply[..], &[47, 0, 0, 0, 0x78, 0x56, 0x34, 0x12, 5, 1, 0, 0]);
    assert!(handle_packet(&[9u8]).is_none());
}

#[test]
fn inter_messages_roundtrip() {
    let pkt = generate_inter_packet("secret".to_string(), "{\"opcode\":\"ping\"}".to_string());
    assert_eq!(&pkt[..10], b"!INTER_MSG");
    assert_eq!(pkt[10], 0xff);
    assert_eq!(try_get_inter_msg("secret".to_string(), &pkt), Some("{\"opcode\":\"ping\"}".to_string()));
    assert_eq!(try_get_inter_msg("other".to_string(), &pkt), None);
    assert_eq!(try_get_inter_msg("secret".to_string(), &b"!INTER_MSG".to_vec()), None);
    let mut bad = pkt.clone();
    bad[0] = b'?';
    assert_eq!(try_get_inter_msg("secret".to_string(), &bad), None);
}
