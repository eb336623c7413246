//! How a connection cuts the bytes it receives into packets.
use vstd::prelude::*;
use crate::bytes::{get_u16, read_u16, HEADER_SIZE, TAIL_SIZE};
use crate::crypt::{decode, decoded_header, decrypt, feed_key, header_error, zero_seed, CryptError};
use crate::rc4::{lemma_rc4_prefix, rc4_apply};
use crate::writer::{frame, lemma_frame_opens};

verus! {

/// What a connection waits for.
#[derive(Debug, Clone, Copy, PartialEq, Eq, Structural)]
pub enum RecvState {
    /// The nine bytes of a header.
    WaitForHeader,
    /// The body (and tail) that the last header announced.
    WaitForBody,
}

/// What a connection does with the bytes it waited for: then waits for the
/// next state's bytes, of the length given, having received the body given if any.
pub open spec fn chunk_step(state: RecvState, buf: Seq<u8>) -> Result<(RecvState, nat, Option<Seq<u8>>), CryptError> {
    match state {
        RecvState::WaitForHeader => match header_error(buf) {
            Some(e) => Err(e),
            None => Ok((RecvState::WaitForBody, (get_u16(decoded_header(buf), 0) + TAIL_SIZE) as nat, None)),
        },
        RecvState::WaitForBody => Ok((RecvState::WaitForHeader, HEADER_SIZE as nat, Some(rc4_apply(feed_key(), buf)))),
    }
}

/// Handles the bytes `buf` that a connection waited for in `state`: a header
/// tells how many bytes to wait for next; a body (with its tail) is decrypted
/// and handed on, and the next header is awaited.
pub fn handle_packet_chunk(state: RecvState, buf: &Vec<u8>) -> (r: Result<(RecvState, usize, Option<Vec<u8>>), CryptError>)
    requires
        state == RecvState::WaitForHeader ==> !zero_seed(buf@),
    ensures
        match chunk_step(state, buf@) {
            Ok((s, n, b)) => r matches Ok((s2, n2, b2)) && s2 == s && n2 == n && match b {
                Some(body) => b2 matches Some(v) && v@ == body,
                None => b2 is None,
            },
            Err(e) => r == Err::<(RecvState, usize, Option<Vec<u8>>), CryptError>(e),
        },
{
    match state {
        RecvState::WaitForHeader => {
            let decoded = match decode(buf.as_slice()) {
                Ok(d) => d,
                Err(e) => return Err(e),
            };
            let body_size = read_u16(decoded.as_slice(), 0) as usize;
            Ok((RecvState::WaitForBody, body_size + TAIL_SIZE, None))
        },
        RecvState::WaitForBody => {
            let decrypted = decrypt(buf.as_slice());
            Ok((RecvState::WaitForHeader, HEADER_SIZE, Some(decrypted)))
        },
    }
}

/// What the server sends is what a connection receives: the header of a
/// sealed packet announces the body and its tail, and the bytes that follow
/// decrypt to the body first. The status server opens it the same way.
pub proof fn lemma_sealed_packet_received(seed: u8, body: Seq<u8>)
    requires
        2 <= seed <= 7,
        body.len() <= u16::MAX,
    ensures
        chunk_step(RecvState::WaitForHeader, frame(seed, body).subrange(0, HEADER_SIZE as int)) == Ok::<
            (RecvState, nat, Option<Seq<u8>>),
            CryptError,
        >((RecvState::WaitForBody, (body.len() + TAIL_SIZE) as nat, None)),
        chunk_step(RecvState::WaitForBody, frame(seed, body).subrange(HEADER_SIZE as int, frame(seed, body).len() as int))
            matches Ok((s, n, Some(b))) && s == RecvState::WaitForHeader && n == HEADER_SIZE && b.subrange(
            0,
            body.len() as int,
        ) == body,
        crate::status::parsed(frame(seed, body), frame(seed, body).len()) matches Ok(b) && b.subrange(0, body.len() as int)
            == body,
{
    let p = frame(seed, body);
    lemma_frame_opens(seed, body);
    let rest = p.subrange(HEADER_SIZE as int, p.len() as int);
    lemma_rc4_prefix(feed_key(), rest, body.len());
    assert(rest.subrange(0, body.len() as int) =~= p.subrange(HEADER_SIZE as int, HEADER_SIZE + body.len() as int));
    assert(p.subrange(HEADER_SIZE as int, HEADER_SIZE + body.len() + TAIL_SIZE) =~= rest);
}

} // verus!
