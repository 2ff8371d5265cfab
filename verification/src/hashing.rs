//! Piece hashing: SHA-1 digests via openssl, and the hex file names
//! derived from a torrent's 20-byte info hash.
use vstd::prelude::*;

use crate::encdec::{hex_of, push_hex};

verus! {

/// The SHA-1 digest of a byte string; 20 bytes.
pub uninterp spec fn sha1_of(data: Seq<u8>) -> Seq<u8>;

/// Relies on openssl's `sha::sha1`: the 20-byte SHA-1 digest of `data`,
/// a function of the bytes alone.
#[verifier::external_body]
pub fn sha1(data: &[u8]) -> (r: Vec<u8>)
    ensures
        r@ == sha1_of(data@),
        r@.len() == 20,
{
    openssl::sha::sha1(data).to_vec()
}

/// The session file name for a 20-byte hash: its lower-case hex form.
pub fn hash_to_id(hash: &[u8]) -> (r: Vec<u8>)
    ensures
        r@ == hex_of(hash@),
{
    let mut out: Vec<u8> = Vec::new();
    push_hex(&mut out, hash);
    out
}

} // verus!
