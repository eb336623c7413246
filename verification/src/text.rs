//! Text in packets: the Korean code page (EUC-KR / Windows-949) that the client uses.
use vstd::prelude::*;
use encoding::{all, Encoding, EncoderTrap, DecoderTrap};

verus! {

/// The Windows-949 bytes of `s`, characters that the code page lacks left out.
pub uninterp spec fn euc_kr_encode(s: Seq<char>) -> Seq<u8>;

/// The text that Windows-949 bytes stand for, undecodable bytes left out.
pub uninterp spec fn euc_kr_decode(b: Seq<u8>) -> Seq<char>;

/// Calls `encoding::all::WINDOWS_949.encode` with `EncoderTrap::Ignore`. The
/// result is named by `euc_kr_encode`; with the `Ignore` trap the crate's
/// `encode_to` never takes its error exit, so the result is always `Ok`.
#[verifier::external_body]
pub(crate) fn encode_text(s: &str) -> (r: Vec<u8>)
    ensures
        r@ == euc_kr_encode(s@),
{
    match all::WINDOWS_949.encode(s, EncoderTrap::Ignore) {
        Ok(v) => v,
        Err(_) => Vec::new(),
    }
}

/// Calls `encoding::all::WINDOWS_949.decode` with `DecoderTrap::Ignore`. The
/// result is named by `euc_kr_decode`; with the `Ignore` trap the crate's
/// `decode_to` never takes its error exit, so the result is always `Ok`.
#[verifier::external_body]
pub(crate) fn decode_text(b: &[u8]) -> (r: String)
    ensures
        r@ == euc_kr_decode(b@),
{
    match all::WINDOWS_949.decode(b, DecoderTrap::Ignore) {
        Ok(s) => s,
        Err(_) => String::new(),
    }
}

} // verus!
