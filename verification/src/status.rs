//! The status server: server list queries over UDP, and messages from other
//! servers that know the password.
use vstd::prelude::*;
use crate::bytes::{get_u16, read_u16, HEADER_SIZE, TAIL_SIZE};
use crate::component::MAX_USERS;
use crate::crypt::{decode, decoded_header, decrypt, feed_key, header_error, zero_seed, CryptError};
use crate::rc4::rc4_apply;
use crate::reader::PacketReader;
use crate::writer::{body_prefix, is_packet_of, PacketWriter};
use crate::bytes::le16;
use vstd::string::StringSliceAdditionalSpecFns;

verus! {

pub const STATUS_PORT: u16 = 9874;

/// Why a datagram is not a packet.
#[derive(Debug, Clone, Copy, PartialEq, Eq, Structural)]
pub enum StatusError {
    /// Shorter than a header and a tail.
    TooShort,
    /// The header does not decode.
    BadHeader(CryptError),
    /// The header announces more bytes than came.
    SizeTooLong,
}

/// The decrypted body (with its tail) of the first `n` bytes of a datagram, or why there is none.
pub open spec fn parsed(buf: Seq<u8>, n: nat) -> Result<Seq<u8>, StatusError> {
    if n < HEADER_SIZE + TAIL_SIZE {
        Err(StatusError::TooShort)
    } else {
        let header = buf.subrange(0, HEADER_SIZE as int);
        match header_error(header) {
            Some(e) => Err(StatusError::BadHeader(e)),
            None => {
                let body_size = get_u16(decoded_header(header), 0);
                let to_read = body_size + TAIL_SIZE;
                if n < HEADER_SIZE + to_read {
                    Err(StatusError::SizeTooLong)
                } else {
                    Ok(rc4_apply(feed_key(), buf.subrange(HEADER_SIZE as int, HEADER_SIZE + to_read)))
                }
            },
        }
    }
}

/// Opens the first `n` bytes of a datagram: decodes the header and decrypts
/// the body it announces, with the tail.
pub fn parse_packet(buf: &Vec<u8>, n: usize) -> (r: Result<Vec<u8>, StatusError>)
    requires
        n <= buf@.len(),
        n >= HEADER_SIZE + TAIL_SIZE ==> !zero_seed(buf@.subrange(0, HEADER_SIZE as int)),
    ensures
        match parsed(buf@, n as nat) {
            Ok(b) => r matches Ok(v) && v@ == b,
            Err(e) => r == Err::<Vec<u8>, StatusError>(e),
        },
{
    if n < HEADER_SIZE + TAIL_SIZE {
        return Err(StatusError::TooShort);
    }
    let header = buf.as_slice().split_at(HEADER_SIZE).0;
    assert(header@ =~= buf@.subrange(0, HEADER_SIZE as int));
    let header = match decode(header) {
        Ok(h) => h,
        Err(e) => return Err(StatusError::BadHeader(e)),
    };
    let body_size = read_u16(header.as_slice(), 0) as usize;
    let to_read = body_size + TAIL_SIZE;
    if n < HEADER_SIZE + to_read {
        return Err(StatusError::SizeTooLong);
    }
    let mut body: Vec<u8> = Vec::new();
    let mut i: usize = HEADER_SIZE;
    while i < HEADER_SIZE + to_read
        invariant
            HEADER_SIZE <= i <= HEADER_SIZE + to_read,
            HEADER_SIZE + to_read <= n <= buf@.len(),
            body@ == buf@.subrange(HEADER_SIZE as int, i as int),
        decreases HEADER_SIZE + to_read - i,
    {
        body.push(buf[i]);
        i = i + 1;
        assert(body@ =~= buf@.subrange(HEADER_SIZE as int, i as int));
    }
    Ok(decrypt(body.as_slice()))
}

/// The server uid that the server list shows.
pub const SERVER_UID: u16 = 401;

/// The body that answers a server list query with `pong`: one server, with all
/// its places available.
pub open spec fn server_list_body(pong: u8) -> Seq<u8> {
    body_prefix(2) + seq![pong, 1u8] + le16(SERVER_UID) + le16(MAX_USERS as u16) + le16(MAX_USERS as u16)
}

/// The body that answers a client that has just logged in, with `pong`.
pub open spec fn permit_body(pong: u8) -> Seq<u8> {
    body_prefix(47) + seq![pong, 1u8] + le16(0)
}

/// The reply to a status packet `data`: a server list query (opcode 1) or a
/// client that has just logged in (opcode 46) gets its byte back in a reply;
/// other packets get none.
pub fn handle_packet(data: &[u8]) -> (r: Option<Vec<u8>>)
    requires
        data@.len() > 0,
        data@[0] == 1 || data@[0] == 46 ==> data@.len() >= 9,
    ensures
        data@[0] == 1 ==> (r matches Some(p) && is_packet_of(p@, server_list_body(data@[8]))),
        data@[0] == 46 ==> (r matches Some(p) && is_packet_of(p@, permit_body(data@[8]))),
        data@[0] != 1 && data@[0] != 46 ==> r is None,
{
    let mut pr = PacketReader::new(data);
    let opcode = pr.opcode();
    if opcode == 1 {
        let ping = pr.u8();
        let pong = ping;
        let curr: usize = 0;
        let max = MAX_USERS as u16;
        let avail = (MAX_USERS - curr) as u16;
        let mut pw = PacketWriter::new(opcode + 1);
        pw.u8(pong).u8(1).u16(SERVER_UID).u16(avail).u16(max);
        assert(pw.bytes() =~= server_list_body(pong));
        Some(pw.as_vec())
    } else if opcode == 46 {
        let mut pw = PacketWriter::new(opcode + 1);
        let ping = pr.u8();
        let pong = ping;
        let is_send_permitted = true;
        pw.u8(pong).u8(if is_send_permitted { 1 } else { 0 }).u16(0);
        assert(pw.bytes() =~= permit_body(pong));
        Some(pw.as_vec())
    } else {
        None
    }
}

/// What starts a message from another server.
pub const INTER_MSG_PREFIX: &'static str = "!INTER_MSG";

/// What separates the parts of a message from another server.
pub const DELIMITER: u8 = 0xff;

/// The bytes of a message from another server: the prefix, the password and
/// the contents, separated by the delimiter.
pub open spec fn inter_packet(pw: Seq<u8>, msg: Seq<u8>) -> Seq<u8> {
    INTER_MSG_PREFIX.spec_bytes() + seq![DELIMITER] + pw + seq![DELIMITER] + msg
}

/// Appends `bytes` to `out`.
fn append_bytes(out: &mut Vec<u8>, bytes: &[u8])
    ensures
        final(out)@ == old(out)@ + bytes@,
{
    let mut i: usize = 0;
    while i < bytes.len()
        invariant
            i <= bytes@.len(),
            out@ == old(out)@ + bytes@.subrange(0, i as int),
        decreases bytes@.len() - i,
    {
        out.push(bytes[i]);
        i = i + 1;
        assert(out@ =~= old(out)@ + bytes@.subrange(0, i as int));
    }
    assert(bytes@.subrange(0, i as int) =~= bytes@);
}

/// The message `msg` to another server, with the password `pw`.
pub fn generate_inter_packet(pw: String, msg: String) -> (r: Vec<u8>)
    ensures
        r@ == inter_packet(vstd::utf8::encode_utf8(pw@), vstd::utf8::encode_utf8(msg@)),
{
    let mut ret: Vec<u8> = Vec::new();
    append_bytes(&mut ret, INTER_MSG_PREFIX.as_bytes());
    ret.push(DELIMITER);
    append_bytes(&mut ret, pw.as_str().as_bytes());
    ret.push(DELIMITER);
    append_bytes(&mut ret, msg.as_str().as_bytes());
    assert(ret@ =~= inter_packet(vstd::utf8::encode_utf8(pw@), vstd::utf8::encode_utf8(msg@)));
    ret
}

/// Calls `String::from_utf8` on a copy of `bytes`: text if the bytes are
/// valid UTF-8, none otherwise.
#[verifier::external_body]
fn utf8_text(bytes: &[u8]) -> (r: Option<String>)
    ensures
        r is Some <==> vstd::utf8::valid_utf8(bytes@),
        r matches Some(s) ==> s@ == vstd::utf8::decode_utf8(bytes@),
{
    String::from_utf8(bytes.to_vec()).ok()
}

/// The first position from `i` on that holds the delimiter; the length if none does.
pub open spec fn piece_end(b: Seq<u8>, i: int) -> int
    decreases b.len() - i,
{
    if i >= b.len() {
        b.len() as int
    } else if b[i] == DELIMITER {
        i
    } else {
        piece_end(b, i + 1)
    }
}

proof fn lemma_piece_end(b: Seq<u8>, i: int)
    requires
        0 <= i <= b.len(),
    ensures
        i <= piece_end(b, i) <= b.len(),
        piece_end(b, i) < b.len() ==> b[piece_end(b, i)] == DELIMITER,
    decreases b.len() - i,
{
    if i < b.len() && b[i] != DELIMITER {
        lemma_piece_end(b, i + 1);
    }
}

/// The position of the delimiter that ends the part starting at `from`.
fn find_delimiter(b: &Vec<u8>, from: usize) -> (r: usize)
    requires
        from <= b@.len(),
    ensures
        r == piece_end(b@, from as int),
{
    let mut i = from;
    while i < b.len()
        invariant
            from <= i <= b@.len(),
            piece_end(b@, from as int) == piece_end(b@, i as int),
        decreases b@.len() - i,
    {
        if b[i] == DELIMITER {
            return i;
        }
        i = i + 1;
    }
    i
}

/// The bytes of `b` from `lo` up to `hi`.
fn slice_of(b: &Vec<u8>, lo: usize, hi: usize) -> (r: Vec<u8>)
    requires
        lo <= hi <= b@.len(),
    ensures
        r@ == b@.subrange(lo as int, hi as int),
{
    let mut r: Vec<u8> = Vec::new();
    let mut i = lo;
    while i < hi
        invariant
            lo <= i <= hi <= b@.len(),
            r@ == b@.subrange(lo as int, i as int),
        decreases hi - i,
    {
        r.push(b[i]);
        i = i + 1;
        assert(r@ =~= b@.subrange(lo as int, i as int));
    }
    r
}

/// The contents of a message from another server in `pkt`, if its first three
/// parts (split at the delimiter) are text, the first is the prefix and the
/// second is the password `pw`.
pub open spec fn inter_msg(pw: Seq<char>, b: Seq<u8>) -> Option<Seq<char>> {
    let e0 = piece_end(b, 0);
    let e1 = piece_end(b, e0 + 1);
    let e2 = piece_end(b, e1 + 1);
    let p0 = b.subrange(0, e0);
    let p1 = b.subrange(e0 + 1, e1);
    let p2 = b.subrange(e1 + 1, e2);
    if e0 >= b.len() || e1 >= b.len() {
        None
    } else if !vstd::utf8::valid_utf8(p0) || !vstd::utf8::valid_utf8(p1) || !vstd::utf8::valid_utf8(p2) {
        None
    } else if vstd::utf8::decode_utf8(p0) == INTER_MSG_PREFIX@ && vstd::utf8::decode_utf8(p1) == pw {
        Some(vstd::utf8::decode_utf8(p2))
    } else {
        None
    }
}

/// The contents of `pkt` if it is a message from another server that knows the password `pw`.
pub fn try_get_inter_msg(pw: String, pkt: &Vec<u8>) -> (r: Option<String>)
    ensures
        match inter_msg(pw@, pkt@) {
            Some(c) => r matches Some(s) && s@ == c,
            None => r is None,
        },
{
    let e0 = find_delimiter(pkt, 0);
    proof {
        lemma_piece_end(pkt@, 0);
    }
    if e0 >= pkt.len() {
        return None;
    }
    let e1 = find_delimiter(pkt, e0 + 1);
    proof {
        lemma_piece_end(pkt@, e0 + 1);
    }
    if e1 >= pkt.len() {
        return None;
    }
    let e2 = find_delimiter(pkt, e1 + 1);
    proof {
        lemma_piece_end(pkt@, e1 + 1);
    }
    let prefix = match utf8_text(slice_of(pkt, 0, e0).as_slice()) {
        Some(s) => s,
        None => return None,
    };
    let password = match utf8_text(slice_of(pkt, e0 + 1, e1).as_slice()) {
        Some(s) => s,
        None => return None,
    };
    let contents = match utf8_text(slice_of(pkt, e1 + 1, e2).as_slice()) {
        Some(s) => s,
        None => return None,
    };
    let expected = String::from_str(INTER_MSG_PREFIX);
    if prefix == expected && password == pw {
        Some(contents)
    } else {
        None
    }
}

/// No byte of the UTF-8 encoding of a scalar is the delimiter.
proof fn lemma_scalar_bytes(c: u32)
    ensures
        forall|k: int| 0 <= k < vstd::utf8::encode_scalar(c).len() ==> #[trigger] vstd::utf8::encode_scalar(c)[k] != DELIMITER,
{
    assert(((c & 0x7F) as u8) != 0xffu8) by (bit_vector);
    assert((0xC0u8 | ((c >> 6u32) & 0x1F) as u8) != 0xffu8) by (bit_vector);
    assert((0xE0u8 | ((c >> 12u32) & 0x0F) as u8) != 0xffu8) by (bit_vector);
    assert((0xF0u8 | ((c >> 18u32) & 0x7) as u8) != 0xffu8) by (bit_vector);
    assert((0x80u8 | (c & 0x3F) as u8) != 0xffu8) by (bit_vector);
    assert((0x80u8 | ((c >> 6u32) & 0x3F) as u8) != 0xffu8) by (bit_vector);
    assert((0x80u8 | ((c >> 12u32) & 0x3F) as u8) != 0xffu8) by (bit_vector);
}

/// No byte of the UTF-8 encoding of text is the delimiter.
proof fn lemma_text_bytes(chars: Seq<char>)
    ensures
        forall|k: int| 0 <= k < vstd::utf8::encode_utf8(chars).len() ==> #[trigger] vstd::utf8::encode_utf8(chars)[k] != DELIMITER,
    decreases chars.len(),
{
    if chars.len() > 0 {
        lemma_scalar_bytes(chars[0] as u32);
        lemma_text_bytes(chars.drop_first());
        let a = vstd::utf8::encode_scalar(chars[0] as u32);
        let r = vstd::utf8::encode_utf8(chars.drop_first());
        assert forall|k: int| 0 <= k < (a + r).len() implies #[trigger] (a + r)[k] != DELIMITER by {
            if k < a.len() {
                assert((a + r)[k] == a[k]);
            } else {
                assert((a + r)[k] == r[k - a.len()]);
            }
        }
    }
}

/// A part that holds no delimiter ends where the next delimiter, or the end, is.
proof fn lemma_piece_end_at(b: Seq<u8>, i: int, j: int)
    requires
        0 <= i <= j <= b.len(),
        forall|k: int| i <= k < j ==> b[k] != DELIMITER,
        j < b.len() ==> b[j] == DELIMITER,
    ensures
        piece_end(b, i) == j,
    decreases j - i,
{
    if i < j {
        lemma_piece_end_at(b, i + 1, j);
    }
}

/// A message made for another server is read back by a server with the same
/// password: the contents come back whole, whatever text they hold.
pub proof fn lemma_inter_roundtrip(pw: Seq<char>, msg: Seq<char>)
    ensures
        inter_msg(pw, inter_packet(vstd::utf8::encode_utf8(pw), vstd::utf8::encode_utf8(msg))) == Some(msg),
{
    broadcast use vstd::utf8::encode_utf8_valid_utf8, vstd::utf8::encode_utf8_decode_utf8;
    let p = vstd::utf8::encode_utf8(INTER_MSG_PREFIX@);
    let a = vstd::utf8::encode_utf8(pw);
    let m = vstd::utf8::encode_utf8(msg);
    let b = inter_packet(a, m);
    assert(INTER_MSG_PREFIX.spec_bytes() == p);
    lemma_text_bytes(INTER_MSG_PREFIX@);
    lemma_text_bytes(pw);
    lemma_text_bytes(msg);
    let e0 = p.len() as int;
    let e1 = e0 + 1 + a.len();
    let e2 = e1 + 1 + m.len();
    assert(b.len() == e2);
    assert(b.subrange(0, e0) =~= p);
    assert(b.subrange(e0 + 1, e1) =~= a);
    assert(b.subrange(e1 + 1, e2) =~= m);
    assert forall|k: int| 0 <= k < e0 implies b[k] != DELIMITER by {
        assert(b[k] == p[k]);
    }
    assert forall|k: int| e0 + 1 <= k < e1 implies b[k] != DELIMITER by {
        assert(b[k] == a[k - e0 - 1]);
    }
    assert forall|k: int| e1 + 1 <= k < e2 implies b[k] != DELIMITER by {
        assert(b[k] == m[k - e1 - 1]);
    }
    lemma_piece_end_at(b, 0, e0);
    lemma_piece_end_at(b, e0 + 1, e1);
    lemma_piece_end_at(b, e1 + 1, e2);
}

} // verus!
