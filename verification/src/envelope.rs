use vstd::prelude::*;
use vstd::slice::slice_subrange;
use crate::errors::CoreError;

verus! {

/// Length of the random nonce at the head of every envelope.
pub const NONCE_LEN: usize = 12;

/// Length of the authentication tag appended to the ciphertext.
pub const TAG_LEN: usize = 16;

/// The longest plaintext the cipher accepts (2^36 bytes).
pub const MAX_PLAINTEXT_LEN: u64 = 0x10_0000_0000;

/// What AES-256-GCM decryption with a 128-bit tag recovers from a key, a
/// 96-bit nonce and a ciphertext-with-tag: the plaintext, or nothing when the
/// tag does not verify. It is a function of its three arguments alone, so it
/// stands here as a name without a definition.
pub uninterp spec fn gcm_open(key: Seq<u8>, nonce: Seq<u8>, ciphertext: Seq<u8>) -> Option<Seq<u8>>;

/// What an envelope means under a key: the plaintext it decrypts to, or the
/// error that rejecting it must surface. A byte string shorter than a nonce
/// is malformed; a tag mismatch is an authentication failure.
pub open spec fn decrypt_spec(key: Seq<u8>, envelope: Seq<u8>) -> Result<Seq<u8>, CoreError> {
    if envelope.len() < NONCE_LEN {
        Err(CoreError::MalformedEnvelope)
    } else {
        match gcm_open(
            key,
            envelope.subrange(0, NONCE_LEN as int),
            envelope.subrange(NONCE_LEN as int, envelope.len() as int),
        ) {
            Some(plain) => Ok(plain),
            None => Err(CoreError::AuthenticationFailed),
        }
    }
}

/// A well-formed envelope of `plain` under `key`: a nonce followed by a
/// ciphertext-with-tag that authenticates and decrypts back to `plain`.
pub open spec fn is_envelope_of(key: Seq<u8>, envelope: Seq<u8>, plain: Seq<u8>) -> bool {
    &&& envelope.len() == plain.len() + NONCE_LEN + TAG_LEN
    &&& gcm_open(
        key,
        envelope.subrange(0, NONCE_LEN as int),
        envelope.subrange(NONCE_LEN as int, envelope.len() as int),
    ) == Some(plain)
}

/// Relies on `rand::random`, backed by the thread-local CSPRNG: twelve fresh
/// random bytes. Nothing can be promised of a random value.
#[verifier::external_body]
fn fresh_nonce() -> [u8; 12] {
    rand::random()
}

/// Relies on `aes_gcm::Aes256Gcm::new_from_slice` (which accepts every
/// 32-byte key) and `aes_gcm::aead::Aead::encrypt` (which cannot fail for
/// plaintexts of at most 2^36 bytes, and whose output authenticates and
/// decrypts back to the plaintext under the same key and nonce, with the
/// 16-byte tag appended).
#[verifier::external_body]
fn gcm_seal(key: &[u8; 32], nonce: &[u8; 12], data: &[u8]) -> (c: Vec<u8>)
    requires
        data@.len() <= MAX_PLAINTEXT_LEN,
    ensures
        c@.len() == data@.len() + TAG_LEN,
        gcm_open(key@, nonce@, c@) == Some(data@),
{
    let cipher = <aes_gcm::Aes256Gcm as aes_gcm::KeyInit>::new_from_slice(key.as_slice()).unwrap();
    aes_gcm::aead::Aead::encrypt(&cipher, aes_gcm::Nonce::from_slice(nonce.as_slice()), data).unwrap()
}

/// Relies on `aes_gcm::Aes256Gcm::new_from_slice` and
/// `aes_gcm::aead::Aead::decrypt`: returns the plaintext exactly when the
/// authentication tag verifies, and refuses otherwise.
#[verifier::external_body]
fn gcm_unseal(key: &[u8; 32], nonce: &[u8], ciphertext: &[u8]) -> (r: Option<Vec<u8>>)
    requires
        nonce@.len() == NONCE_LEN,
    ensures
        r matches Some(p) ==> gcm_open(key@, nonce@, ciphertext@) == Some(p@),
        r is None ==> gcm_open(key@, nonce@, ciphertext@) is None,
{
    let cipher = <aes_gcm::Aes256Gcm as aes_gcm::KeyInit>::new_from_slice(key.as_slice()).unwrap();
    aes_gcm::aead::Aead::decrypt(&cipher, aes_gcm::Nonce::from_slice(nonce), ciphertext).ok()
}

/// Encrypts `data` under `key` into an envelope: a fresh random 12-byte nonce
/// followed by the ciphertext and its authentication tag. The envelope always
/// decrypts back to `data` under the same key.
pub fn encrypt_data(key: &[u8; 32], data: &[u8]) -> (r: Result<Vec<u8>, CoreError>)
    requires
        data@.len() <= MAX_PLAINTEXT_LEN,
    ensures
        r matches Ok(envelope) ==> is_envelope_of(key@, envelope@, data@),
        r is Ok,
{
    let nonce = fresh_nonce();
    let sealed = gcm_seal(key, &nonce, data);
    let mut envelope: Vec<u8> = Vec::new();
    envelope.extend_from_slice(nonce.as_slice());
    envelope.extend_from_slice(sealed.as_slice());
    proof {
        assert(envelope@.subrange(0, NONCE_LEN as int) =~= nonce@);
        assert(envelope@.subrange(NONCE_LEN as int, envelope@.len() as int) =~= sealed@);
    }
    Ok(envelope)
}

/// Decrypts an envelope under `key`. Fails with a malformed-container error
/// when the bytes cannot even hold a nonce, and with an authentication error
/// when the tag does not verify; on success returns the exact plaintext.
pub fn decrypt_data(key: &[u8; 32], file_data: &[u8]) -> (r: Result<Vec<u8>, CoreError>)
    ensures
        r matches Ok(p) ==> decrypt_spec(key@, file_data@) == Ok::<_, CoreError>(p@),
        r matches Err(e) ==> decrypt_spec(key@, file_data@) == Err::<Seq<u8>, _>(e),
{
    if file_data.len() < NONCE_LEN {
        return Err(CoreError::MalformedEnvelope);
    }
    let nonce = slice_subrange(file_data, 0, NONCE_LEN);
    let ciphertext = slice_subrange(file_data, NONCE_LEN, file_data.len());
    match gcm_unseal(key, nonce, ciphertext) {
        Some(plain) => Ok(plain),
        None => Err(CoreError::AuthenticationFailed),
    }
}

/// Round trip: decrypting any well-formed envelope of `plain` under the key
/// that sealed it yields `plain` again, never an error.
pub proof fn lemma_envelope_round_trip(key: Seq<u8>, envelope: Seq<u8>, plain: Seq<u8>)
    requires
        is_envelope_of(key, envelope, plain),
    ensures
        decrypt_spec(key, envelope) == Ok::<_, CoreError>(plain),
{
}

/// An envelope too short to hold a nonce is rejected as malformed under every
/// key, never decrypted and never mistaken for an authentication failure.
pub proof fn lemma_short_envelope_malformed(key: Seq<u8>, envelope: Seq<u8>)
    requires
        envelope.len() < NONCE_LEN,
    ensures
        decrypt_spec(key, envelope) == Err::<Seq<u8>, _>(CoreError::MalformedEnvelope),
{
}

} // verus!

