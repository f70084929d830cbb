use vstd::prelude::*;

verus! {

/// The failure conditions of the core operations, kept apart so that a wrong
/// password is never reported as a damaged file and vice versa.
#[derive(Clone, Copy, Debug, PartialEq, Eq, Structural)]
pub enum CoreError {
    /// No key has been derived yet; the user must log in first.
    NotAuthenticated,
    /// The byte string is too short to be an envelope at all.
    MalformedEnvelope,
    /// The authentication tag did not verify: wrong key or tampered data.
    AuthenticationFailed,
    /// The cipher refused the plaintext (it exceeds the supported length).
    EncryptionFailed,
    /// The key derivation function rejected its inputs.
    KeyDerivationFailed,
    /// An id-keyed operation was given an id that is not registered.
    NotFound,
}

impl CoreError {
    /// The human-readable message that reaches the user interface.
    pub open spec fn message_spec(self) -> Seq<char> {
        match self {
            CoreError::NotAuthenticated => "Log in first"@,
            CoreError::MalformedEnvelope => "File is too short"@,
            CoreError::AuthenticationFailed => "Decryption failed"@,
            CoreError::EncryptionFailed => "Encryption failed"@,
            CoreError::KeyDerivationFailed => "Key derivation failed"@,
            CoreError::NotFound => "Note not found"@,
        }
    }

    /// The human-readable message that reaches the user interface.
    pub fn message(&self) -> (m: &'static str)
        ensures
            m@ == self.message_spec(),
    {
        match self {
            CoreError::NotAuthenticated => "Log in first",
            CoreError::MalformedEnvelope => "File is too short",
            CoreError::AuthenticationFailed => "Decryption failed",
            CoreError::EncryptionFailed => "Encryption failed",
            CoreError::KeyDerivationFailed => "Key derivation failed",
            CoreError::NotFound => "Note not found",
        }
    }
}

} // verus!
