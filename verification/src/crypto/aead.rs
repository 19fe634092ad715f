//! The calls into the cipher.
//!
//! What the cipher computes is named, not restated: [`aead_sealed`] and
//! [`aead_opened`] stand for what `ChaCha20Poly1305` returns. Everything else in
//! this crate speaks of those two names.

use chacha20poly1305::aead::{Aead, KeyInit, Payload};
use chacha20poly1305::{ChaCha20Poly1305, Error as AeadError, Key, Nonce};
use vstd::prelude::*;

use super::{KEY_LEN, NONCE_LEN, TAG_LEN};

verus! {

/// The cipher's error, which says nothing about its cause.
#[verifier::external_type_specification]
#[verifier::external_body]
pub struct ExAeadError(AeadError);

/// The longest message the cipher seals, in bytes: 2^32 - 2 blocks of 64.
pub const MAX_MESSAGE: u64 = 274_877_906_816;

/// From this length on the cipher reports an error: 2^32 - 1 blocks of 64.
pub const MIN_REFUSED: u64 = 274_877_906_880;

/// Lengths on which the cipher returns at all. Between the two limits its
/// keystream ends inside the last block, and it panics.
pub open spec fn cipher_returns(len: int) -> bool {
    len <= MAX_MESSAGE || len >= MIN_REFUSED
}

/// The ciphertext with its tag that `ChaCha20Poly1305` makes of `msg` and `aad`
/// under `key` and `nonce`, or nothing if it refuses.
pub uninterp spec fn aead_sealed(key: Seq<u8>, nonce: Seq<u8>, aad: Seq<u8>, msg: Seq<u8>) -> Option<Seq<u8>>;

/// The message that `ChaCha20Poly1305` recovers from `sealed` and `aad` under
/// `key` and `nonce`, or nothing if the tag does not match.
pub uninterp spec fn aead_opened(key: Seq<u8>, nonce: Seq<u8>, aad: Seq<u8>, sealed: Seq<u8>) -> Option<Seq<u8>>;

/// `Aead::encrypt` of `ChaCha20Poly1305`, on a cipher made from `key`.
///
/// Claimed of it: what it returns depends on the four arguments alone; it
/// succeeds exactly up to [`MAX_MESSAGE`]; the ciphertext is the message's length
/// plus a 16-byte tag; and opening it under the same key, nonce and associated
/// data gives the message back.
#[verifier::external_body]
pub(super) fn aead_encrypt(key: &[u8; KEY_LEN], nonce: &[u8; NONCE_LEN], aad: &[u8], msg: &[u8]) -> (r: Result<Vec<u8>, AeadError>)
    requires
        msg@.len() + TAG_LEN <= isize::MAX,
        cipher_returns(msg@.len() as int),
    ensures
        match r {
            Ok(c) => aead_sealed(key@, nonce@, aad@, msg@) == Some(c@),
            Err(_) => aead_sealed(key@, nonce@, aad@, msg@) is None,
        },
        r is Ok <==> msg@.len() <= MAX_MESSAGE,
        r matches Ok(c) ==> c@.len() == msg@.len() + TAG_LEN,
        r matches Ok(c) ==> aead_opened(key@, nonce@, aad@, c@) == Some(msg@),
{
    let cipher = ChaCha20Poly1305::new(&Key::from(*key));
    cipher.encrypt(&Nonce::from(*nonce), Payload { msg, aad })
}

/// `Aead::decrypt` of `ChaCha20Poly1305`, on a cipher made from `key`.
///
/// Claimed of it: what it returns depends on the four arguments alone; the
/// message is 16 bytes shorter than what was opened, so anything shorter than a
/// tag is refused; and sealing the message again under the same key, nonce and
/// associated data gives exactly the bytes that were opened.
#[verifier::external_body]
pub(super) fn aead_decrypt(key: &[u8; KEY_LEN], nonce: &[u8; NONCE_LEN], aad: &[u8], sealed: &[u8]) -> (r: Result<Vec<u8>, AeadError>)
    requires
        cipher_returns(sealed@.len() - TAG_LEN),
    ensures
        match r {
            Ok(m) => aead_opened(key@, nonce@, aad@, sealed@) == Some(m@),
            Err(_) => aead_opened(key@, nonce@, aad@, sealed@) is None,
        },
        r matches Ok(m) ==> m@.len() + TAG_LEN == sealed@.len(),
        r matches Ok(m) ==> aead_sealed(key@, nonce@, aad@, m@) == Some(sealed@),
{
    let cipher = ChaCha20Poly1305::new(&Key::from(*key));
    cipher.decrypt(&Nonce::from(*nonce), Payload { msg: sealed, aad })
}

} // verus!
