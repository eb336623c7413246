//! Packet cryptography: the RC4 body cipher and the rotating header codec.
use vstd::prelude::*;
use crate::rc4;
use crate::rc4::rc4_apply;

verus! {

/// Length of an encoded packet header: eight header bytes and one seed byte.
pub const HEADER_LENGTH: usize = 9;

/// Number of zero salt bytes that follow the five derived key bytes.
pub const SALT_LENGTH: usize = 11;

/// The RC4 key used for packet bodies: five derived bytes followed by zero salt.
pub open spec fn feed_key() -> Seq<u8> {
    seq![0xf6u8, 0xef, 0x8b, 0xa1, 0x5c] + Seq::new(SALT_LENGTH as nat, |i: int| 0u8)
}

/// Why a header could not be encoded or decoded.
#[derive(Debug, Clone, Copy, PartialEq, Eq, Structural)]
pub enum CryptError {
    /// The header is not exactly `HEADER_LENGTH` bytes long.
    BadLength,
    /// The seed byte is 8 or more.
    BadSeed,
}

fn feed() -> (key: Vec<u8>)
    ensures
        key@ == feed_key(),
{
    let mut key: Vec<u8> = vec![0xf6u8, 0xef, 0x8b, 0xa1, 0x5c];
    let mut n: usize = 0;
    while n < SALT_LENGTH
        invariant
            n <= SALT_LENGTH,
            key@ == seq![0xf6u8, 0xef, 0x8b, 0xa1, 0x5c] + Seq::new(n as nat, |i: int| 0u8),
        decreases SALT_LENGTH - n,
    {
        key.push(0u8);
        n = n + 1;
        assert(key@ =~= seq![0xf6u8, 0xef, 0x8b, 0xa1, 0x5c] + Seq::new(n as nat, |i: int| 0u8));
    }
    key
}

/// Encrypts or decrypts a packet body (RC4 is its own inverse).
pub fn transfer(data: &[u8]) -> (out: Vec<u8>)
    ensures
        out@ == rc4_apply(feed_key(), data@),
{
    let key = feed();
    let mut out: Vec<u8> = Vec::new();
    let mut n: usize = 0;
    while n < data.len()
        invariant
            n <= data@.len(),
            out@.len() == n,
        decreases data@.len() - n,
    {
        out.push(0u8);
        n = n + 1;
    }
    rc4::transfer(data, out.as_mut_slice(), key.as_slice());
    assert(out@ =~= out@.subrange(0, data@.len() as int));
    out
}

/// Decrypts the body of a packet.
pub fn decrypt(enc: &[u8]) -> (out: Vec<u8>)
    ensures
        out@ == rc4_apply(feed_key(), enc@),
{
    transfer(enc)
}

/// Encrypts the body of a packet.
pub fn encrypt(dec: &[u8]) -> (out: Vec<u8>)
    ensures
        out@ == rc4_apply(feed_key(), dec@),
{
    transfer(dec)
}

/// The seed byte of a nine-byte header.
pub open spec fn seed_of(data: Seq<u8>) -> u8 {
    data[8]
}

/// Byte `i` of a decoded header: the eight header bytes, taken as one 64-bit
/// string, rotated left by the seed.
pub open spec fn decoded_byte(data: Seq<u8>, i: int) -> u8 {
    let k = seed_of(data);
    ((data[i] << k) | (data[(i + 1) % 8] >> ((8 - k) as u8))) as u8
}

/// Byte `i` of an encoded header: the eight header bytes rotated right by the seed.
pub open spec fn encoded_byte(data: Seq<u8>, i: int) -> u8 {
    let k = seed_of(data);
    ((data[i] >> k) | (data[(i + 7) % 8] << ((8 - k) as u8))) as u8
}

/// The eight bytes that decoding a valid header yields.
pub open spec fn decoded_header(data: Seq<u8>) -> Seq<u8> {
    Seq::new(8, |i: int| decoded_byte(data, i))
}

/// The nine bytes that encoding a valid header yields: eight rotated bytes, then the seed.
pub open spec fn encoded_header(data: Seq<u8>) -> Seq<u8> {
    Seq::new(8, |i: int| encoded_byte(data, i)).push(seed_of(data))
}

/// The header is the right length and its seed is below 8.
pub open spec fn header_ok(data: Seq<u8>) -> bool {
    data.len() == HEADER_LENGTH && seed_of(data) < 8
}

/// The error, if any, that the codec reports for `data`.
pub open spec fn header_error(data: Seq<u8>) -> Option<CryptError> {
    if data.len() != HEADER_LENGTH {
        Some(CryptError::BadLength)
    } else if seed_of(data) >= 8 {
        Some(CryptError::BadSeed)
    } else {
        None
    }
}

/// A header whose seed is zero: the codec shifts a byte by eight, which Rust rejects.
pub open spec fn zero_seed(data: Seq<u8>) -> bool {
    data.len() == HEADER_LENGTH && seed_of(data) == 0
}

/// Decodes a nine-byte header (eight bytes and a seed); returns the eight header bytes.
pub fn decode(data: &[u8]) -> (out: Result<Vec<u8>, CryptError>)
    requires
        !zero_seed(data@),
    ensures
        match header_error(data@) {
            Some(e) => out == Err::<Vec<u8>, CryptError>(e),
            None => out matches Ok(v) && v@ == decoded_header(data@),
        },
{
    let len = data.len();
    if len != HEADER_LENGTH {
        return Err(CryptError::BadLength);
    }
    let key = data[len - 1];
    if key >= 8 {
        return Err(CryptError::BadSeed);
    }
    let mut out: Vec<u8> = Vec::new();
    let mut i: usize = 0;
    while i < len - 1
        invariant
            len == HEADER_LENGTH,
            data@.len() == len,
            key == seed_of(data@),
            1 <= key < 8,
            i <= 8,
            out@ =~= Seq::new(i as nat, |m: int| decoded_byte(data@, m)),
        decreases 8 - i,
    {
        let b = (data[i] << key) | (data[(i + 1) % 8] >> (8 - key));
        out.push(b);
        i = i + 1;
    }
    Ok(out)
}

/// Encodes a nine-byte header (eight bytes and a seed); returns nine bytes, the seed last.
pub fn encode(data: &[u8]) -> (out: Result<Vec<u8>, CryptError>)
    requires
        !zero_seed(data@),
    ensures
        match header_error(data@) {
            Some(e) => out == Err::<Vec<u8>, CryptError>(e),
            None => out matches Ok(v) && v@ == encoded_header(data@),
        },
{
    let len = data.len();
    if len != HEADER_LENGTH {
        return Err(CryptError::BadLength);
    }
    let key = data[len - 1];
    if key >= 8 {
        return Err(CryptError::BadSeed);
    }
    let mut out: Vec<u8> = Vec::new();
    let mut i: usize = 0;
    while i < len - 1
        invariant
            len == HEADER_LENGTH,
            data@.len() == len,
            key == seed_of(data@),
            1 <= key < 8,
            i <= 8,
            out@ =~= Seq::new(i as nat, |m: int| encoded_byte(data@, m)),
        decreases 8 - i,
    {
        let b = (data[i] >> key) | (data[(i + 8 - 1) % 8] << (8 - key));
        out.push(b);
        i = i + 1;
    }
    out.push(key);
    Ok(out)
}

proof fn lemma_rotate_back(a: u8, b: u8, c: u8, k: u8)
    requires
        1 <= k < 8,
    ensures
        ((((b >> k) | (a << ((8 - k) as u8))) as u8) << k
            | (((((c >> k) | (b << ((8 - k) as u8))) as u8) >> ((8 - k) as u8)))) as u8 == b,
        ((((b << k) | (c >> ((8 - k) as u8))) as u8) >> k
            | (((((a << k) | (b >> ((8 - k) as u8))) as u8) << ((8 - k) as u8)))) as u8 == b,
{
    assert(((((b >> k) | (a << ((8 - k) as u8))) as u8) << k
            | (((((c >> k) | (b << ((8 - k) as u8))) as u8) >> ((8 - k) as u8)))) as u8 == b)
        by (bit_vector)
        requires 1 <= k < 8;
    assert(((((b << k) | (c >> ((8 - k) as u8))) as u8) >> k
            | (((((a << k) | (b >> ((8 - k) as u8))) as u8) << ((8 - k) as u8)))) as u8 == b)
        by (bit_vector)
        requires 1 <= k < 8;
}

/// Decoding an encoded header gives back its eight header bytes, for every seed
/// from 1 to 7.
pub proof fn lemma_decode_encode(data: Seq<u8>)
    requires
        header_ok(data),
        !zero_seed(data),
    ensures
        header_ok(encoded_header(data)),
        !zero_seed(encoded_header(data)),
        decoded_header(encoded_header(data)) == data.subrange(0, 8),
{
    let e = encoded_header(data);
    let k = seed_of(data);
    assert(seed_of(e) == k);
    assert forall|i: int| 0 <= i < 8 implies #[trigger] decoded_header(e)[i] == data[i] by {
        lemma_rotate_back(data[(i + 7) % 8], data[i], data[(i + 1) % 8], k);
        assert(e[i] == encoded_byte(data, i));
        assert(e[(i + 1) % 8] == encoded_byte(data, (i + 1) % 8));
        assert(((i + 1) % 8 + 7) % 8 == i);
    }
    assert(decoded_header(e) =~= data.subrange(0, 8));
}

/// Encoding the decoded bytes of a header, with its seed put back, gives back
/// the header, for every seed from 1 to 7.
pub proof fn lemma_encode_decode(data: Seq<u8>)
    requires
        header_ok(data),
        !zero_seed(data),
    ensures
        encoded_header(decoded_header(data).push(seed_of(data))) == data,
{
    let k = seed_of(data);
    let d = decoded_header(data).push(k);
    assert(seed_of(d) == k);
    let e = encoded_header(d);
    assert forall|i: int| 0 <= i < 8 implies #[trigger] e[i] == data[i] by {
        lemma_rotate_back(data[(i + 7) % 8], data[i], data[(i + 1) % 8], k);
        assert(d[i] == decoded_byte(data, i));
        assert(d[(i + 7) % 8] == decoded_byte(data, (i + 7) % 8));
        assert(((i + 7) % 8 + 1) % 8 == i);
    }
    assert(e =~= data);
}

/// A packet cipher: the header codec and the RC4 body cipher with its derived key.
pub struct Crypt {
    key: Vec<u8>,
}

impl Clone for Crypt {
    fn clone(&self) -> (c: Crypt)
        ensures
            c.key_view() == self.key_view(),
    {
        proof { use_type_invariant(self); }
        let key = self.key.clone();
        assert(key@ =~= self.key@);
        Crypt { key }
    }
}

impl Crypt {
    #[verifier::type_invariant]
    spec fn key_is_feed(self) -> bool {
        self.key@ == feed_key()
    }

    /// The RC4 key that this cipher uses.
    pub closed spec fn key_view(self) -> Seq<u8> {
        self.key@
    }

    /// Derives the cipher from the fixed feed.
    pub fn default() -> (c: Crypt)
        ensures
            c.key_view() == feed_key(),
    {
        Crypt { key: feed() }
    }

    /// Decodes a nine-byte header (eight bytes and a seed); returns the eight header bytes.
    pub fn decode_header(&self, data: &[u8]) -> (out: Result<Vec<u8>, CryptError>)
        requires
            !zero_seed(data@),
        ensures
            match header_error(data@) {
                Some(e) => out == Err::<Vec<u8>, CryptError>(e),
                None => out matches Ok(v) && v@ == decoded_header(data@),
            },
    {
        decode(data)
    }

    /// Encodes a nine-byte header (eight bytes and a seed); returns nine bytes, the seed last.
    pub fn encode_header(&self, data: &[u8]) -> (out: Result<Vec<u8>, CryptError>)
        requires
            !zero_seed(data@),
        ensures
            match header_error(data@) {
                Some(e) => out == Err::<Vec<u8>, CryptError>(e),
                None => out matches Ok(v) && v@ == encoded_header(data@),
            },
    {
        encode(data)
    }

    /// Decrypts the body of a packet.
    pub fn decrypt(&self, enc: &[u8]) -> (out: Vec<u8>)
        ensures
            out@ == rc4_apply(self.key_view(), enc@),
    {
        proof { use_type_invariant(self); }
        decrypt(enc)
    }

    /// Encrypts the body of a packet.
    pub fn encrypt(&self, dec: &[u8]) -> (out: Vec<u8>)
        ensures
            out@ == rc4_apply(self.key_view(), dec@),
    {
        proof { use_type_invariant(self); }
        encrypt(dec)
    }
}

} // verus!
