use vstd::prelude::*;
use vstd::string::{StrSliceExecFns, StringSliceAdditionalSpecFns};
use crate::errors::CoreError;

verus! {

/// The derived symmetric key is always 256 bits.
pub const KEY_LEN: usize = 32;

/// The salt handed to the derivation function is zero-extended to this length.
pub const MIN_SALT_LEN: usize = 16;

/// The longest password and salt the derivation function accepts, in bytes.
pub const MAX_KDF_INPUT_LEN: usize = 0xFFFF_FFFF;

/// The 32-byte key that Argon2id with the crate's default cost parameters
/// derives from a password and a salt. It depends on those two byte strings
/// alone, so it stands here as a name without a definition.
pub uninterp spec fn argon2_key32(password: Seq<u8>, salt: Seq<u8>) -> Seq<u8>;

/// The user name, zero-extended to the minimum salt length when it is shorter.
pub open spec fn padded_salt(username: Seq<u8>) -> Seq<u8> {
    if username.len() >= MIN_SALT_LEN {
        username
    } else {
        username + Seq::new((MIN_SALT_LEN - username.len()) as nat, |i: int| 0u8)
    }
}

/// The key that a username/password pair derives: the UTF-8 bytes of the
/// password, salted with the padded UTF-8 bytes of the username.
pub open spec fn derived_key(username: Seq<char>, password: Seq<char>) -> Seq<u8> {
    argon2_key32(
        vstd::utf8::encode_utf8(password),
        padded_salt(vstd::utf8::encode_utf8(username)),
    )
}

/// Relies on `argon2::Argon2::hash_password_into` under default parameters:
/// it fills the 32-byte output deterministically from the password and salt
/// alone, and fails only when the password is longer than `MAX_PWD_LEN` or
/// the salt is outside `MIN_SALT_LEN ..= MAX_SALT_LEN` (8 and 0xFFFF_FFFF).
#[verifier::external_body]
fn argon2_hash32(password: &[u8], salt: &[u8]) -> (r: Option<[u8; 32]>)
    ensures
        r matches Some(k) ==> k@ == argon2_key32(password@, salt@),
        (password@.len() <= 0xFFFF_FFFF && 8 <= salt@.len() <= 0xFFFF_FFFF) ==> r is Some,
{
    let mut key = [0u8; 32];
    match argon2::Argon2::default().hash_password_into(password, salt, &mut key) {
        Ok(()) => Some(key),
        Err(_) => None,
    }
}

/// Derives the session key from a username and a password.
///
/// The username acts as the salt; a short username is zero-extended so the
/// derivation function accepts it, and the same padding is applied on every
/// session, keeping the key stable for a given pair of credentials.
pub fn derive_encryption_key(username: &str, password: &str) -> (r: Result<[u8; 32], CoreError>)
    ensures
        r matches Ok(k) ==> k@ == derived_key(username@, password@),
        r matches Err(e) ==> e == CoreError::KeyDerivationFailed,
        username.spec_bytes().len() <= MAX_KDF_INPUT_LEN
            && password.spec_bytes().len() <= MAX_KDF_INPUT_LEN ==> r is Ok,
{
    let mut salt: Vec<u8> = username.as_bytes_vec();
    let ghost raw: Seq<u8> = salt@;
    while salt.len() < MIN_SALT_LEN
        invariant
            raw.len() <= salt@.len(),
            salt@.len() <= MIN_SALT_LEN || salt@ == raw,
            salt@.subrange(0, raw.len() as int) == raw,
            forall|i: int| raw.len() <= i < salt@.len() ==> salt@[i] == 0u8,
        decreases MIN_SALT_LEN - salt@.len(),
    {
        salt.push(0u8);
    }
    proof {
        assert(salt@ =~= padded_salt(raw));
    }
    match argon2_hash32(password.as_bytes(), salt.as_slice()) {
        Some(k) => Ok(k),
        None => Err(CoreError::KeyDerivationFailed),
    }
}

/// Key determinism: deriving a key twice from the same credentials yields the
/// same key bytes.
pub proof fn lemma_key_derivation_deterministic(
    username: Seq<char>,
    password: Seq<char>,
    k1: Seq<u8>,
    k2: Seq<u8>,
)
    requires
        k1 == derived_key(username, password),
        k2 == derived_key(username, password),
    ensures
        k1 == k2,
{
}

/// Zero-extending short user names loses no information: two user names that
/// contain no zero byte collide as salts only when they are equal. (A user
/// name that itself ends in zero bytes can collide with its own padded form,
/// which is why the zero byte is excluded here.)
pub proof fn lemma_salt_padding_injective(u1: Seq<u8>, u2: Seq<u8>)
    requires
        forall|i: int| 0 <= i < u1.len() ==> u1[i] != 0u8,
        forall|i: int| 0 <= i < u2.len() ==> u2[i] != 0u8,
        padded_salt(u1) == padded_salt(u2),
    ensures
        u1 == u2,
{
    if u1.len() >= MIN_SALT_LEN && u2.len() >= MIN_SALT_LEN {
        assert(u1 == u2);
    } else if u1.len() < MIN_SALT_LEN && u2.len() < MIN_SALT_LEN {
        if u1.len() == u2.len() {
            assert forall|i: int| 0 <= i < u1.len() implies u1[i] == u2[i] by {
                assert(padded_salt(u1)[i] == u1[i]);
                assert(padded_salt(u2)[i] == u2[i]);
            }
            assert(u1 =~= u2);
        } else if u1.len() < u2.len() {
            assert(padded_salt(u1)[u1.len() as int] == 0u8);
            assert(padded_salt(u2)[u1.len() as int] == u2[u1.len() as int]);
            assert(false);
        } else {
            assert(padded_salt(u2)[u2.len() as int] == 0u8);
            assert(padded_salt(u1)[u2.len() as int] == u1[u2.len() as int]);
            assert(false);
        }
    } else if u1.len() < MIN_SALT_LEN {
        assert(padded_salt(u1).len() == MIN_SALT_LEN);
        assert(u2.len() == MIN_SALT_LEN);
        assert(padded_salt(u1)[u1.len() as int] == 0u8);
        assert(padded_salt(u2)[u1.len() as int] == u2[u1.len() as int]);
        assert(false);
    } else {
        assert(padded_salt(u2).len() == MIN_SALT_LEN);
        assert(u1.len() == MIN_SALT_LEN);
        assert(padded_salt(u2)[u2.len() as int] == 0u8);
        assert(padded_salt(u1)[u2.len() as int] == u1[u2.len() as int]);
        assert(false);
    }
}

} // verus!
