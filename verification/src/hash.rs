//! Password digests: SHA3-256, written in lower-case hexadecimal.
use vstd::prelude::*;
use sha3::Digest;
use crate::reader::hex_digit;

verus! {

/// The SHA3-256 digest of the UTF-8 bytes of `text`.
pub uninterp spec fn sha3_256_of(text: Seq<char>) -> Seq<u8>;

/// Calls `sha3::Sha3_256::digest` on the UTF-8 bytes of `s`. The result is
/// named by `sha3_256_of`; that it is 32 bytes long is what the digest's output
/// size says. Nothing else about it is stated.
#[verifier::external_body]
pub fn from_str(s: &str) -> (r: Vec<u8>)
    ensures
        r@ == sha3_256_of(s@),
        r@.len() == 32,
{
    sha3::Sha3_256::digest(s.as_bytes()).to_vec()
}

/// Each byte of `b` as two lower-case hexadecimal digits.
pub open spec fn hex_text(b: Seq<u8>) -> Seq<char>
    decreases b.len(),
{
    if b.len() == 0 {
        Seq::<char>::empty()
    } else {
        hex_text(b.drop_last()) + seq![hex_digit(b.last() / 16), hex_digit(b.last() % 16)]
    }
}

/// Calls `hex::encode`, which writes each byte as two lower-case hexadecimal
/// digits, in order.
#[verifier::external_body]
fn hex_encode(bytes: &Vec<u8>) -> (s: String)
    ensures
        s@ == hex_text(bytes@),
{
    hex::encode(bytes)
}

/// The stored form of a password: its SHA3-256 digest in hexadecimal.
pub fn hash_password(pw: &str) -> (r: String)
    ensures
        r@ == hex_text(sha3_256_of(pw@)),
        r@.len() == 64,
{
    let digest = from_str(pw);
    let r = hex_encode(&digest);
    proof {
        lemma_hex_text_len(digest@);
    }
    r
}

/// Two digits per byte.
pub proof fn lemma_hex_text_len(b: Seq<u8>)
    ensures
        hex_text(b).len() == 2 * b.len(),
    decreases b.len(),
{
    if b.len() > 0 {
        lemma_hex_text_len(b.drop_last());
    }
}

} // verus!
