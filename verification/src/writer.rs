//! Building packet bodies and sealing them into wire packets.
use vstd::prelude::*;
use crate::bytes::{concat_list_of_vec, concat_views, get_u16, get_u32, lemma_u16_roundtrip, lemma_u32_roundtrip, HEADER_SIZE, le16, le32, zeros, TAIL_SIZE};
use crate::crypt;
use crate::crypt::{decoded_header, encoded_header, feed_key, header_error, lemma_decode_encode, seed_of, zero_seed};
use crate::rc4::{lemma_rc4_involution, rc4_apply};
use crate::text::{encode_text, euc_kr_encode};

verus! {

/// The stamp that follows the opcode at the start of every body.
pub const BODY_MAGIC_STAMP: u32 = 0x12345678;

/// The first eight bytes of every body: the opcode, a zero byte, a zero `u16`, the stamp.
pub open spec fn body_prefix(opcode: u8) -> Seq<u8> {
    seq![opcode, 0u8] + le16(0) + le32(BODY_MAGIC_STAMP)
}

/// `msg` encoded and cut or zero-padded to exactly `size` bytes.
pub open spec fn fixed_text(msg: Seq<char>, size: nat) -> Seq<u8> {
    let enc = euc_kr_encode(msg);
    if enc.len() > size {
        enc.subrange(0, size as int)
    } else {
        enc + zeros((size - enc.len()) as nat)
    }
}

/// `msg` encoded and followed by one zero byte.
pub open spec fn null_text(msg: Seq<char>) -> Seq<u8> {
    euc_kr_encode(msg).push(0u8)
}

/// The seed that a random byte yields: one of 2 to 7.
pub open spec fn seed_from(random: u8) -> u8 {
    (random % 6 + 2) as u8
}

/// The plain nine-byte header of a body of `body_len` bytes.
pub open spec fn plain_header(body_len: nat, seed: u8) -> Seq<u8> {
    le16(body_len as u16) + le16(0xb9) + le16(0x08) + le16(0x09) + seq![seed]
}

/// The wire packet of `body` under `seed`: encoded header, encrypted body, zero tail.
pub open spec fn frame(seed: u8, body: Seq<u8>) -> Seq<u8> {
    encoded_header(plain_header(body.len(), seed)) + rc4_apply(feed_key(), body) + zeros(
        TAIL_SIZE as nat,
    )
}

/// `pkt` is the wire packet of `body` under one of the seeds that sealing can pick.
pub open spec fn is_packet_of(pkt: Seq<u8>, body: Seq<u8>) -> bool {
    exists|seed: u8| 2 <= seed <= 7 && pkt == frame(seed, body)
}

/// Calls `rand::random::<u8>()`. Any byte may come back.
#[verifier::external_body]
pub(crate) fn random_u8() -> (r: u8) {
    rand::random::<u8>()
}

/// A body under construction.
pub struct PacketWriter {
    opcode: u8,
    data: Vec<u8>,
}

impl PacketWriter {
    /// The bytes written so far.
    pub closed spec fn bytes(&self) -> Seq<u8> {
        self.data@
    }

    /// The opcode the body was started with.
    pub closed spec fn op(&self) -> u8 {
        self.opcode
    }

    /// Starts a body with `opcode`.
    pub fn new(opcode: u8) -> (pw: Self)
        ensures
            pw.op() == opcode,
            pw.bytes() == body_prefix(opcode),
    {
        let mut pw = PacketWriter { opcode: opcode, data: Vec::new() };
        pw.u8(opcode).u8(0).u16(0).u32(BODY_MAGIC_STAMP);
        assert(pw.bytes() =~= body_prefix(opcode));
        pw
    }

    /// The number of bytes written so far.
    pub fn len(&mut self) -> (n: usize)
        ensures
            n == old(self).bytes().len(),
            *final(self) == *old(self),
    {
        self.data.len()
    }

    /// The opcode the body was started with.
    pub fn opcode(&self) -> (op: u8)
        ensures
            op == self.op(),
    {
        self.opcode
    }

    /// Appends a byte.
    pub fn u8(&mut self, v: u8) -> (r: &mut Self)
        ensures
            r.bytes() == old(self).bytes().push(v),
            r.op() == old(self).op(),
            *final(self) == *final(r),
    {
        self.data.push(v);
        self
    }

    /// Appends a little-endian `u16`.
    pub fn u16(&mut self, v: u16) -> (r: &mut Self)
        ensures
            r.bytes() == old(self).bytes() + le16(v),
            r.op() == old(self).op(),
            *final(self) == *final(r),
    {
        self.data.push((v & 0xff) as u8);
        self.data.push(((v >> 8u16) & 0xff) as u8);
        assert(self.data@ =~= old(self).bytes() + le16(v));
        self
    }

    /// Appends a little-endian `u32`.
    pub fn u32(&mut self, v: u32) -> (r: &mut Self)
        ensures
            r.bytes() == old(self).bytes() + le32(v),
            r.op() == old(self).op(),
            *final(self) == *final(r),
    {
        self.data.push((v & 0xff) as u8);
        self.data.push(((v >> 8u32) & 0xff) as u8);
        self.data.push(((v >> 16u32) & 0xff) as u8);
        self.data.push(((v >> 24u32) & 0xff) as u8);
        assert(self.data@ =~= old(self).bytes() + le32(v));
        self
    }

    /// Appends a little-endian `i32` (its two's-complement bytes).
    pub fn i32(&mut self, v: i32) -> (r: &mut Self)
        ensures
            r.bytes() == old(self).bytes() + le32(v as u32),
            r.op() == old(self).op(),
            *final(self) == *final(r),
    {
        self.u32(v as u32)
    }

    /// Appends `msg` in the client's code page, cut or zero-padded to `size` bytes.
    pub fn string(&mut self, msg: &str, size: usize) -> (r: &mut Self)
        ensures
            r.bytes() == old(self).bytes() + fixed_text(msg@, size as nat),
            r.op() == old(self).op(),
            *final(self) == *final(r),
    {
        let data = encode_text(msg);
        let len = data.len();
        if len > size {
            self.u8s(data.as_slice().split_at(size).0)
        } else {
            let shortage = size - len;
            self.u8s(data.as_slice());
            self.pad(shortage)
        }
    }

    /// Appends `msg` in the client's code page and a zero terminator.
    pub fn string_with_null(&mut self, msg: &str) -> (r: &mut Self)
        ensures
            r.bytes() == old(self).bytes() + null_text(msg@),
            r.op() == old(self).op(),
            *final(self) == *final(r),
    {
        let data = encode_text(msg);
        self.u8s(data.as_slice());
        let r = self.u8(0);
        assert(r.bytes() =~= old(self).bytes() + null_text(msg@));
        r
    }

    /// Appends the bytes of `vec`.
    pub fn vec(&mut self, vec: &Vec<u8>) -> (r: &mut Self)
        ensures
            r.bytes() == old(self).bytes() + vec@,
            r.op() == old(self).op(),
            *final(self) == *final(r),
    {
        self.u8s(vec.as_slice())
    }

    /// Appends `bytes`.
    pub fn u8s(&mut self, bytes: &[u8]) -> (r: &mut Self)
        ensures
            r.bytes() == old(self).bytes() + bytes@,
            r.op() == old(self).op(),
            *final(self) == *final(r),
    {
        let vec_len = bytes.len();
        let mut i: usize = 0;
        while i < vec_len
            invariant
                vec_len == bytes@.len(),
                i <= vec_len,
                self.opcode == old(self).opcode,
                self.data@ == old(self).data@ + bytes@.subrange(0, i as int),
            decreases vec_len - i,
        {
            self.data.push(bytes[i]);
            i = i + 1;
            assert(self.data@ =~= old(self).data@ + bytes@.subrange(0, i as int));
        }
        assert(bytes@.subrange(0, vec_len as int) =~= bytes@);
        self
    }

    /// Appends `n` zero bytes.
    pub fn pad(&mut self, n: usize) -> (r: &mut Self)
        ensures
            r.bytes() == old(self).bytes() + zeros(n as nat),
            r.op() == old(self).op(),
            *final(self) == *final(r),
    {
        let mut i: usize = 0;
        while i < n
            invariant
                i <= n,
                self.opcode == old(self).opcode,
                self.data@ == old(self).data@ + zeros(i as nat),
            decreases n - i,
        {
            self.data.push(0u8);
            i = i + 1;
            assert(self.data@ =~= old(self).data@ + zeros(i as nat));
        }
        self
    }

    /// Appends zero bytes until the body is `len` bytes long.
    pub fn pad_to(&mut self, len: usize) -> (r: &mut Self)
        requires
            old(self).bytes().len() <= len,
        ensures
            r.bytes() == old(self).bytes() + zeros((len - old(self).bytes().len()) as nat),
            r.bytes().len() == len,
            r.op() == old(self).op(),
            *final(self) == *final(r),
    {
        let curr_len = self.data.len();
        self.pad(len - curr_len)
    }

    /// Seals the body into a wire packet under the seed that `random` yields.
    pub fn as_vec_seeded(&mut self, random: u8) -> (pkt: Vec<u8>)
        ensures
            pkt@ == frame(seed_from(random), old(self).bytes()),
            *final(self) == *old(self),
    {
        let body_len = self.len();
        let header = create_header(body_len, random);
        let header_enc = match crypt::encode(header.as_slice()) {
            Ok(h) => h,
            Err(_) => {
                assert(false);
                Vec::new()
            },
        };
        let body_enc = crypt::encrypt(self.data.as_slice());
        let mut tail: Vec<u8> = Vec::new();
        let mut i: usize = 0;
        while i < TAIL_SIZE
            invariant
                i <= TAIL_SIZE,
                tail@ == zeros(i as nat),
            decreases TAIL_SIZE - i,
        {
            tail.push(0u8);
            i = i + 1;
            assert(tail@ =~= zeros(i as nat));
        }
        let list = [&header_enc, &body_enc, &tail];
        let pkt = concat_list_of_vec(list.as_slice());
        proof {
            let l = list@;
            assert(l.drop_last() =~= seq![&header_enc, &body_enc]);
            assert(l.drop_last().drop_last() =~= seq![&header_enc]);
            assert(l.drop_last().drop_last().drop_last() =~= Seq::<&Vec<u8>>::empty());
            let l1 = l.drop_last().drop_last();
            assert(concat_views(l1.drop_last()) == Seq::<u8>::empty());
            assert(concat_views(l1) =~= header_enc@);
            assert(concat_views(l.drop_last()) =~= header_enc@ + body_enc@);
            assert(pkt@ =~= header_enc@ + body_enc@ + tail@);
            assert(header_enc@ == encoded_header(plain_header(old(self).bytes().len(), seed_from(random))));
            assert(body_enc@ == rc4_apply(feed_key(), old(self).bytes()));
            assert(pkt@ =~= frame(seed_from(random), old(self).bytes()));
        }
        pkt
    }

    /// Seals the body into a wire packet under a random seed from 2 to 7.
    pub fn as_vec(&mut self) -> (pkt: Vec<u8>)
        ensures
            is_packet_of(pkt@, old(self).bytes()),
            *final(self) == *old(self),
    {
        let random = random_u8();
        let pkt = self.as_vec_seeded(random);
        assert(2 <= seed_from(random) <= 7);
        pkt
    }
}

/// A little-endian `u16` written after any bytes is read back from where it was written.
pub proof fn lemma_read_written_u16(before: Seq<u8>, v: u16, after: Seq<u8>)
    ensures
        get_u16(before + le16(v) + after, before.len() as int) == v,
{
    lemma_u16_roundtrip(v);
    let all = before + le16(v) + after;
    assert(all[before.len() as int] == le16(v)[0]);
    assert(all[before.len() + 1int] == le16(v)[1]);
}

/// A little-endian `u32` written after any bytes is read back from where it was written.
pub proof fn lemma_read_written_u32(before: Seq<u8>, v: u32, after: Seq<u8>)
    ensures
        get_u32(before + le32(v) + after, before.len() as int) == v,
{
    lemma_u32_roundtrip(v);
    let all = before + le32(v) + after;
    assert(all[before.len() as int] == le32(v)[0]);
    assert(all[before.len() + 1int] == le32(v)[1]);
    assert(all[before.len() + 2int] == le32(v)[2]);
    assert(all[before.len() + 3int] == le32(v)[3]);
}

/// A sealed packet opens again: its header decodes (the seed is from 2 to 7)
/// to a length field equal to the body's length, and decrypting that many bytes
/// after the header gives back the body.
pub proof fn lemma_frame_opens(seed: u8, body: Seq<u8>)
    requires
        2 <= seed <= 7,
        body.len() <= u16::MAX,
    ensures
        frame(seed, body).len() == HEADER_SIZE + body.len() + TAIL_SIZE,
        header_error(frame(seed, body).subrange(0, HEADER_SIZE as int)) is None,
        !zero_seed(frame(seed, body).subrange(0, HEADER_SIZE as int)),
        get_u16(decoded_header(frame(seed, body).subrange(0, HEADER_SIZE as int)), 0)
            == body.len(),
        rc4_apply(
            feed_key(),
            frame(seed, body).subrange(HEADER_SIZE as int, HEADER_SIZE + body.len() as int),
        ) == body,
{
    let h = plain_header(body.len(), seed);
    let p = frame(seed, body);
    let eh = encoded_header(h);
    let enc = rc4_apply(feed_key(), body);
    assert(h.len() == 9);
    assert(seed_of(h) == seed);
    assert(p.subrange(0, 9) =~= eh);
    lemma_decode_encode(h);
    assert(decoded_header(eh) == h.subrange(0, 8));
    lemma_read_written_u16(Seq::<u8>::empty(), body.len() as u16, h.subrange(2, 9));
    assert(h.subrange(0, 8)[0] == h[0]);
    assert(h.subrange(0, 8)[1] == h[1]);
    assert(h =~= Seq::<u8>::empty() + le16(body.len() as u16) + h.subrange(2, 9));
    assert(p.subrange(9, 9 + body.len() as int) =~= enc);
    lemma_rc4_involution(feed_key(), body);
}

/// The plain header of a body of `body_len` bytes, with the seed that `random` yields.
fn create_header(body_len: usize, random: u8) -> (h: Vec<u8>)
    ensures
        h@ == plain_header(body_len as nat, seed_from(random)),
        h@.len() == 9,
        2 <= h@[8] <= 7,
{
    let random_seed = random % 6 + 2;
    let mut pw = PacketWriter { opcode: 0, data: Vec::new() };
    pw.u16(body_len as u16).u16(0xb9).u16(0x08).u16(0x09).u8(random_seed);
    assert(pw.data@ =~= plain_header(body_len as nat, seed_from(random)));
    pw.data
}

/// A fixed-size text field is exactly `size` bytes long.
pub proof fn lemma_fixed_text_len(msg: Seq<char>, size: nat)
    ensures
        fixed_text(msg, size).len() == size,
{
}

} // verus!
