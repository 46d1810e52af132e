//! The node's public key in hexadecimal.

use vstd::prelude::*;
use vstd::string::*;

verus! {

/// The Ed25519 public key that belongs to a secret key, as `tesseras_dht` computes it.
pub uninterp spec fn public_key_of(secret: Seq<u8>) -> Seq<u8>;

/// The lower-case hexadecimal digit that stands for `n`.
pub open spec fn hex_digit(n: int) -> char {
    if n < 10 {
        ('0' as int + n) as char
    } else {
        ('a' as int + n - 10) as char
    }
}

/// Each byte of `bytes` as two hexadecimal digits.
pub open spec fn hex_text(bytes: Seq<u8>) -> Seq<char> {
    Seq::new(
        2 * bytes.len(),
        |i: int|
            hex_digit(
                if i % 2 == 0 {
                    bytes[i / 2] as int / 16
                } else {
                    bytes[i / 2] as int % 16
                },
            ),
    )
}

/// Calls `hex::encode`: each byte becomes two lower-case hexadecimal digits, the high half first.
#[verifier::external_body]
pub(crate) fn encode_hex(bytes: &[u8; 32]) -> (r: String)
    ensures
        r@ == hex_text(bytes@),
{
    hex::encode(bytes)
}

/// Calls `tesseras_dht::crypto::Identity::from_seed` and reads the public key of the identity:
/// the result is `public_key_of` the secret.
#[verifier::external_body]
fn derive_public_key(secret: &[u8; 32]) -> (r: [u8; 32])
    ensures
        r@ == public_key_of(secret@),
{
    *tesseras_dht::crypto::Identity::from_seed(*secret).public_key()
}

/// A public key in hexadecimal, or a stand-in when no identity is stored.
pub fn key_text(key: Option<[u8; 32]>) -> (r: String)
    ensures
        r@ == (match key {
            Some(k) => hex_text(k@),
            None => "(unknown)"@,
        }),
{
    match key {
        Some(k) => encode_hex(&k),
        None => "(unknown)".to_owned(),
    }
}

/// The public key that belongs to a stored secret, in hexadecimal, or a stand-in when no
/// identity is stored.
pub fn public_key_hex(secret: Option<[u8; 32]>) -> (r: String)
    ensures
        r@ == (match secret {
            Some(s) => hex_text(public_key_of(s@)),
            None => "(unknown)"@,
        }),
{
    match secret {
        Some(s) => key_text(Some(derive_public_key(&s))),
        None => key_text(None),
    }
}

} // verus!
