use vstd::prelude::*;
use vstd::string::StringSliceAdditionalSpecFns;
use vstd::utf8::{decode_utf8, valid_utf8};
use crate::envelope::{decrypt_data, decrypt_spec, encrypt_data, is_envelope_of, MAX_PLAINTEXT_LEN};
use crate::errors::CoreError;
use crate::state::AppState;

verus! {

/// The text a decrypted note shows: the bytes read as UTF-8, or the empty
/// document when they are not valid UTF-8. The degradation is deliberate —
/// stray bytes must never take the whole notebook down — but it is lossy.
pub open spec fn note_text_of(plain: Seq<u8>) -> Seq<char> {
    if valid_utf8(plain) {
        decode_utf8(plain)
    } else {
        Seq::<char>::empty()
    }
}

/// Relies on `String::from_utf8`: succeeds with the decoded text exactly when
/// the bytes are valid UTF-8.
#[verifier::external_body]
fn utf8_to_string(bytes: Vec<u8>) -> (r: Option<String>)
    ensures
        r is Some <==> valid_utf8(bytes@),
        r matches Some(s) ==> s@ == decode_utf8(bytes@),
{
    String::from_utf8(bytes).ok()
}

/// Reads decrypted note bytes as text, degrading to the empty document on
/// invalid UTF-8.
pub fn note_text(plain: Vec<u8>) -> (r: String)
    ensures
        r@ == note_text_of(plain@),
{
    match utf8_to_string(plain) {
        Some(s) => s,
        None => String::new(),
    }
}

/// Opens an encrypted note: with the session key, decrypts the envelope read
/// from the note's file and returns its content as text. Fails when no one is
/// logged in, when the envelope is malformed, or when authentication fails —
/// but never on stray bytes in a successfully decrypted note.
pub fn open_encrypted_note(state: &AppState, file_data: &[u8]) -> (r: Result<String, CoreError>)
    ensures
        state.key_view() is None ==> r == Err::<String, _>(CoreError::NotAuthenticated),
        state.key_view() matches Some(k) ==> match decrypt_spec(k, file_data@) {
            Ok(plain) => r matches Ok(text) && text@ == note_text_of(plain),
            Err(e) => r == Err::<String, _>(e),
        },
{
    let key = match state.get_encryption_key() {
        Ok(k) => k,
        Err(e) => {
            return Err(e);
        },
    };
    match decrypt_data(&key, file_data) {
        Ok(plain) => Ok(note_text(plain)),
        Err(e) => Err(e),
    }
}

/// Encrypts note content for saving: with the session key, seals the
/// content's bytes into a fresh envelope. Fails only when no one is logged in
/// or when the content exceeds what the cipher accepts.
pub fn encrypt_note_content(state: &AppState, content: &str) -> (r: Result<Vec<u8>, CoreError>)
    ensures
        state.key_view() is None ==> r == Err::<Vec<u8>, _>(CoreError::NotAuthenticated),
        state.key_view() matches Some(k) ==> {
            &&& (r matches Ok(env) ==> is_envelope_of(k, env@, content.spec_bytes()))
            &&& (content.spec_bytes().len() <= MAX_PLAINTEXT_LEN ==> r is Ok)
            &&& (r matches Err(e) ==> e == CoreError::EncryptionFailed)
        },
{
    let key = match state.get_encryption_key() {
        Ok(k) => k,
        Err(e) => {
            return Err(e);
        },
    };
    let bytes = content.as_bytes();
    if (bytes.len() as u64) > MAX_PLAINTEXT_LEN {
        return Err(CoreError::EncryptionFailed);
    }
    match encrypt_data(&key, bytes) {
        Ok(env) => Ok(env),
        Err(_) => Err(CoreError::EncryptionFailed),
    }
}

} // verus!
