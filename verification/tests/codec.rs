use rustydo::bytes::{concat_list_of_vec, if_else, read_u16, read_u32};
use rustydo::crypt::{decode, decrypt, encode, encrypt, transfer, Crypt, CryptError};
use rustydo::reader::PacketReader;
use rustydo::status::{parse_packet, StatusError};
use rustydo::writer::PacketWriter;

/// Opens a sealed packet: its body, as the header announces it.
fn open(pkt: &[u8]) -> Vec<u8> {
    let header = decode(&pkt[0..9]).unwrap();
    let len = read_u16(&header, 0) as usize;
    assert_eq!(&header[2..8], &[0xb9, 0x00, 0x08, 0x00, 0x09, 0x00]);
    assert_eq!(pkt.len(), 9 + len + 3);
    assert_eq!(&pkt[9 + len..], &[0, 0, 0]);
    decrypt(&pkt[9..9 + len])
}

#[test]
fn rc4_transfer_is_its_own_inverse() {
    let data: Vec<u8> = (0..=255u8).collect();
    let once = transfer(&data);
    assert_ne!(once, data);
    let twice = transfer(&once);
    assert_eq!(twice, data);
}

#[test]
fn encrypt_then_decrypt_gives_back_the_body() {
    let body = b"hello, digimon".to_vec();
    let enc = encrypt(&body);
    assert_eq!(enc.len(), body.len());
    assert_eq!(decrypt(&enc), body);
    let c = Crypt::default();
    assert_eq!(c.decrypt(&c.encrypt(&body)), body);
}

#[test]
fn rc4_with_a_known_key() {
    // The classic test vector: key "Key", plaintext "Plaintext".
    let src = b"Plaintext";
    let mut dst = [0u8; 9];
    rustydo::rc4::transfer(src, &mut dst, b"Key");
    assert_eq!(dst, [0xBB, 0xF3, 0x16, 0xE8, 0xD9, 0x40, 0xAF, 0x0A, 0xD3]);
}

#[test]
fn header_codec_roundtrip() {
    let header = [0x12u8, 0x00, 0xb9, 0x00, 0x08, 0x00, 0x09, 0x00, 0x03];
    let enc = encode(&header).unwrap();
    assert_eq!(enc.len(), 9);
    assert_eq!(enc[8], 3);
    let dec = decode(&enc).unwrap();
    assert_eq!(dec, header[0..8].to_vec());
}

#[test]
fn header_codec_errors() {
    assert_eq!(decode(&[1, 2, 3]), Err(CryptError::BadLength));
    assert_eq!(encode(&[0u8; 10]), Err(CryptError::BadLength));
    assert_eq!(decode(&[0, 0, 0, 0, 0, 0, 0, 0, 8]), Err(CryptError::BadSeed));
    assert_eq!(encode(&[0, 0, 0, 0, 0, 0, 0, 0, 9]), Err(CryptError::BadSeed));
}

#[test]
fn header_decode_known_value() {
    // Seed 1: each byte is shifted left by one, taking the top bit of the next.
    let data = [0x80u8, 0x01, 0, 0, 0, 0, 0, 0, 1];
    let dec = decode(&data).unwrap();
    assert_eq!(dec, vec![0x00, 0x02, 0, 0, 0, 0, 0, 0x01]);
}

#[test]
fn little_endian_reads() {
    let v = [0x34u8, 0x12, 0x78, 0x56, 0x34, 0x12];
    assert_eq!(read_u16(&v, 0), 0x1234);
    assert_eq!(read_u32(&v, 2), 0x12345678);
}

#[test]
fn concat_and_if_else() {
    let a = vec![1u8, 2];
    let b = vec![3u8];
    let c: Vec<u8> = vec![];
    assert_eq!(concat_list_of_vec(&[&a, &b, &c]), vec![1, 2, 3]);
    assert_eq!(if_else(true, 1, 2), 1);
    assert_eq!(if_else(false, 1, 2), 2);
}

#[test]
fn writer_starts_with_the_body_prefix() {
    let mut pw = PacketWriter::new(7);
    assert_eq!(pw.len(), 8);
    assert_eq!(pw.opcode(), 7);
    let pkt = pw.as_vec();
    assert_eq!(open(&pkt), vec![7, 0, 0, 0, 0x78, 0x56, 0x34, 0x12]);
}

#[test]
fn read_what_was_written() {
    let mut pw = PacketWriter::new(9);
    pw.u8(0xab).u16(0x1234).u32(0xdeadbeef).i32(-2).string("abc", 5).string_with_null("hi").vec(&vec![5, 6]).pad(2).pad_to(34);
    assert_eq!(pw.len(), 34);
    let body = open(&pw.as_vec());
    let mut pr = PacketReader::new(&body);
    assert_eq!(pr.opcode(), 9);
    assert_eq!(pr.len(), 34);
    assert_eq!(pr.u8(), 0xab);
    assert_eq!(pr.u16(), 0x1234);
    assert_eq!(pr.u32(), 0xdeadbeef);
    assert_eq!(pr.u32(), (-2i32) as u32);
    assert_eq!(pr.string(5), "abc");
    assert_eq!(pr.left(), 34 - 8 - 1 - 2 - 4 - 4 - 5);
    assert_eq!(pr.vec(3), vec![b'h', b'i', 0]);
    assert_eq!(pr.vec(2), vec![5, 6]);
    assert_eq!(pr.left(), 5);
    let mut copy = PacketReader::new(&body);
    copy.seek(1 + 2 + 4 + 4 + 5 + 3 + 2);
    assert_eq!(copy.vec(5), vec![0; 5]);
}

#[test]
fn long_text_is_cut() {
    let mut pw = PacketWriter::new(1);
    pw.string("abcdefgh", 4);
    let body = open(&pw.as_vec());
    assert_eq!(&body[8..], b"abcd");
}

#[test]
fn korean_text_is_euc_kr() {
    let mut pw = PacketWriter::new(1);
    pw.string("가", 4);
    let body = open(&pw.as_vec());
    assert_eq!(&body[8..], &[0xb0, 0xa1, 0, 0]);
    let mut pr = PacketReader::new(&body);
    assert_eq!(pr.string(4), "가");
}

#[test]
fn reader_string_with_null() {
    // The reader moves on by one more than the terminator's index in the whole body.
    let mut body = vec![1u8, 0, 0, 0, 0, 0, 0, 0, b'a', b'b', 0];
    body.extend_from_slice(&[b'c'; 9]);
    let mut pr = PacketReader::new(&body);
    let s = pr.string_with_null().unwrap();
    assert_eq!(s, "ab");
    assert_eq!(pr.left(), 1);
}

#[test]
fn reader_to_str_lists_bytes_in_hex() {
    let body = vec![1u8, 0, 0x1f, 0, 0x78, 0x56, 0x34, 0x12];
    let pr = PacketReader::new(&body);
    assert_eq!(pr.to_str(), "[1, 0, 1f, 0, 78, 56, 34, 12]");
}

#[test]
fn parse_packet_opens_a_sealed_packet() {
    let mut pw = PacketWriter::new(1);
    pw.u8(42);
    let pkt = pw.as_vec();
    let n = pkt.len();
    let mut buf = pkt.clone();
    buf.extend_from_slice(&[0u8; 20]);
    let body = parse_packet(&buf, n).unwrap();
    assert_eq!(body.len(), 9 + 3);
    assert_eq!(&body[..9], &[1, 0, 0, 0, 0x78, 0x56, 0x34, 0x12, 42]);
}

#[test]
fn parse_packet_errors() {
    let buf = vec![0u8; 8];
    assert_eq!(parse_packet(&buf, 8), Err(StatusError::TooShort));
    let mut pw = PacketWriter::new(1);
    pw.u8(42);
    let pkt = pw.as_vec();
    assert_eq!(parse_packet(&pkt, pkt.len() - 1), Err(StatusError::SizeTooLong));
    let mut bad = pkt.clone();
    bad[8] = 9;
    assert_eq!(parse_packet(&bad, bad.len()), Err(StatusError::BadHeader(CryptError::BadSeed)));
}

#[test]
fn seeds_are_between_two_and_seven() {
    for _ in 0..50 {
        let mut pw = PacketWriter::new(3);
        let pkt = pw.as_vec();
        assert!(pkt[8] >= 2 && pkt[8] <= 7);
    }
    let mut pw = PacketWriter::new(3);
    let pkt = pw.as_vec_seeded(255);
    assert_eq!(pkt[8], 255 % 6 + 2);
}

#[test]
fn reader_string_with_null_without_terminator() {
    let body = vec![1u8, 0, 0, 0, 0, 0, 0, 0, b'a', b'b'];
    let mut pr = PacketReader::new(&body);
    assert!(pr.string_with_null().is_err());
    assert_eq!(pr.left(), 2);
}

#[test]
fn cipher_header_methods_match_the_free_functions() {
    let c = Crypt::default();
    let header = [0x12u8, 0x00, 0xb9, 0x00, 0x08, 0x00, 0x09, 0x00, 0x03];
    assert_eq!(c.encode_header(&header), encode(&header));
    let enc = c.encode_header(&header).unwrap();
    assert_eq!(c.decode_header(&enc).unwrap(), header[0..8].to_vec());
    assert_eq!(c.decode_header(&[1, 2]), Err(CryptError::BadLength));
}
