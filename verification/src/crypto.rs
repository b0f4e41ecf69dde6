//! The cryptographic primitives and random values that the protocol is built
//! on, each a call into the crate that provides it.

use aes_gcm::aead::{Aead, Payload};
use aes_gcm::{Aes256Gcm, Key, KeyInit, Nonce};
use blake2::{Blake2s256, Digest};
use rand::RngExt;
use uuid::Uuid;

use vstd::prelude::*;

verus! {

/// The longest message and the longest associated data of AES-GCM.
pub const AES_GCM_MAX: u64 = 0x10_0000_0000;

/// The BLAKE2s hash with 256 bits of output, as `Blake2s256::digest` computes
/// it.
pub uninterp spec fn blake2s256(data: Seq<u8>) -> Seq<u8>;

/// AES-256-GCM encryption as `Aead::encrypt` of `Aes256Gcm` computes it: the
/// ciphertext, followed by the authentication tag.
pub uninterp spec fn aes256_gcm_sealed(
    key: Seq<u8>,
    nonce: Seq<u8>,
    aad: Seq<u8>,
    message: Seq<u8>,
) -> Seq<u8>;

/// AES-256-GCM decryption as `Aead::decrypt` of `Aes256Gcm` computes it: the
/// message, unless ciphertext, tag or associated data are not authentic.
pub uninterp spec fn aes256_gcm_opened(
    key: Seq<u8>,
    nonce: Seq<u8>,
    aad: Seq<u8>,
    sealed: Seq<u8>,
) -> Option<Seq<u8>>;

/// Calls `Blake2s256::digest`, which hashes its argument to 32 bytes.
#[verifier::external_body]
pub(crate) fn hash_blake2s256(data: &[u8]) -> (digest: [u8; 32])
    ensures
        digest@ == blake2s256(data@),
{
    Blake2s256::digest(data).into()
}

/// Calls `Aead::encrypt` of `Aes256Gcm`. It fails exactly on a message or
/// associated data beyond the maximum length. Otherwise it returns as many
/// bytes as the message has and a tag of 16 bytes, which decryption under the
/// same key, nonce and associated data turns into the message again.
#[verifier::external_body]
pub(crate) fn seal_aes256_gcm(key: &[u8; 32], nonce: &[u8; 12], aad: &[u8], message: &[u8]) -> (
sealed: Option<Vec<u8>>)
    requires
        message@.len() + 16 <= isize::MAX,
    ensures
        match sealed {
            Some(bytes) => {
                &&& message@.len() <= AES_GCM_MAX && aad@.len() <= AES_GCM_MAX
                &&& bytes@ == aes256_gcm_sealed(key@, nonce@, aad@, message@)
                &&& bytes@.len() == message@.len() + 16
                &&& aes256_gcm_opened(key@, nonce@, aad@, bytes@) == Some(message@)
            },
            None => message@.len() > AES_GCM_MAX || aad@.len() > AES_GCM_MAX,
        },
{
    let cipher = Aes256Gcm::new(Key::<Aes256Gcm>::from_slice(key));
    cipher.encrypt(Nonce::from_slice(nonce), Payload { msg: message, aad }).ok()
}

/// Calls `Aead::decrypt` of `Aes256Gcm`, which checks the 16 bytes of tag at
/// the end and returns the message without them.
#[verifier::external_body]
pub(crate) fn open_aes256_gcm(key: &[u8; 32], nonce: &[u8; 12], aad: &[u8], sealed: &[u8]) -> (
message: Option<Vec<u8>>)
    ensures
        match message {
            Some(bytes) => aes256_gcm_opened(key@, nonce@, aad@, sealed@) == Some(bytes@)
                && bytes@.len() + 16 == sealed@.len(),
            None => aes256_gcm_opened(key@, nonce@, aad@, sealed@) is None,
        },
{
    let cipher = Aes256Gcm::new(Key::<Aes256Gcm>::from_slice(key));
    cipher.decrypt(Nonce::from_slice(nonce), Payload { msg: sealed, aad }).ok()
}

/// Calls `fill` of the generator that `rand::rng` returns; any twelve bytes
/// may come out. It panics if the system has no randomness to seed the
/// generator with.
#[verifier::external_body]
pub(crate) fn random_nonce() -> (nonce: [u8; 12]) {
    let mut nonce = [0u8; 12];
    rand::rng().fill(&mut nonce);
    nonce
}

/// Whether sixteen bytes have the form of a random UUID: version four of the
/// variant that RFC 9562 describes.
pub open spec fn is_random_uuid(bytes: Seq<u8>) -> bool {
    bytes.len() == 16 && bytes[6] / 16 == 4 && bytes[8] / 64 == 2
}

/// Calls `Uuid::new_v4`, which draws random bytes and marks them with version
/// and variant; of the bytes nothing else is said. It panics if the system has
/// no randomness to draw from.
#[verifier::external_body]
pub(crate) fn random_uuid() -> (bytes: [u8; 16])
    ensures
        is_random_uuid(bytes@),
{
    *Uuid::new_v4().as_bytes()
}

} // verus!
