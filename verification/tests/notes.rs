use lockd::envelope::encrypt_data;
use lockd::errors::CoreError;
use lockd::keys::derive_encryption_key;
use lockd::notes::{encrypt_note_content, note_text, open_encrypted_note};
use lockd::state::AppState;

fn logged_in_state() -> AppState {
    let mut state = AppState::default();
    let key = derive_encryption_key("alice", "pw").unwrap();
    state.set_key(key);
    state
}

#[test]
fn note_round_trip_through_the_session() {
    let state = logged_in_state();
    let envelope = encrypt_note_content(&state, "dear diary").unwrap();
    let text = open_encrypted_note(&state, &envelope).unwrap();
    assert_eq!(text, "dear diary");
}

#[test]
fn locked_session_refuses_both_directions() {
    let state = AppState::default();
    assert_eq!(encrypt_note_content(&state, "x"), Err(CoreError::NotAuthenticated));
    assert_eq!(open_encrypted_note(&state, &[0u8; 40]), Err(CoreError::NotAuthenticated));
}

#[test]
fn invalid_utf8_degrades_to_an_empty_document() {
    let state = logged_in_state();
    let key = state.get_encryption_key().unwrap();
    let envelope = encrypt_data(&key, &[0xff, 0xfe, 0x00, 0x80]).unwrap();
    let text = open_encrypted_note(&state, &envelope).unwrap();
    assert_eq!(text, "");
}

#[test]
fn note_text_decodes_valid_utf8() {
    assert_eq!(note_text("grüße".as_bytes().to_vec()), "grüße");
    assert_eq!(note_text(vec![0xc3, 0x28]), "");
}

#[test]
fn short_note_file_is_malformed() {
    let state = logged_in_state();
    assert_eq!(open_encrypted_note(&state, b"tiny"), Err(CoreError::MalformedEnvelope));
}

#[test]
fn tampered_note_fails_authentication() {
    let state = logged_in_state();
    let mut envelope = encrypt_note_content(&state, "secret").unwrap();
    let last = envelope.len() - 1;
    envelope[last] ^= 0x01;
    assert_eq!(open_encrypted_note(&state, &envelope), Err(CoreError::AuthenticationFailed));
}
