//! Context hashing: the canonical storage key of a context.
//!
//! A context (a finite symbol sequence) is encoded unambiguously by the codec
//! and reduced to a fixed-width content hash. The hash string is the external
//! identity of the context: every storage backend indexes by it. The same
//! derivation serves writing and reading, so a context always maps to the one
//! key.

use vstd::prelude::*;
use crate::codec::{encode_tokens, spec_encode_tokens};
use crate::token::Token;

verus! {

/// The hex digest that the hashing routine assigns to a byte string. It is a
/// function of the bytes alone; nothing further is assumed of it.
pub uninterp spec fn spec_sha256_hex_of(b: Seq<u8>) -> Seq<u8>;

/// The canonical storage key of a context: the hex digest of the context's
/// unambiguous byte encoding.
pub open spec fn spec_key_of(ctx: Seq<Token>) -> Seq<u8> {
    spec_sha256_hex_of(spec_encode_tokens(ctx))
}

/// A lowercase hexadecimal digit, as an ASCII byte.
pub open spec fn is_hex_ascii(b: u8) -> bool {
    (0x30 <= b && b <= 0x39) || (0x61 <= b && b <= 0x66)
}

/// Relies on sha256::digest: the hex-encoded SHA-256 digest of the input,
/// determined by the input bytes alone — always 64 lowercase hexadecimal
/// characters.
#[verifier::external_body]
fn sha256_hex(bytes: &Vec<u8>) -> (r: Vec<u8>)
    ensures
        r@ == spec_sha256_hex_of(bytes@),
        r@.len() == 64,
        forall|i: int| 0 <= i < r@.len() ==> is_hex_ascii(#[trigger] r@[i]),
{
    sha256::digest(bytes).into_bytes()
}

/// Derive the storage key of a context: a fixed-width hex digest string.
pub fn hash_tokens(ctx: &Vec<Token>) -> (r: Vec<u8>)
    ensures
        r@ == spec_key_of(ctx@),
        r@.len() == 64,
        forall|i: int| 0 <= i < r@.len() ==> is_hex_ascii(#[trigger] r@[i]),
{
    let encoded = encode_tokens(ctx);
    sha256_hex(&encoded)
}

} // verus!
