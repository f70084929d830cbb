use lockd::keys::derive_encryption_key;

#[test]
fn same_credentials_derive_the_same_key() {
    let k1 = derive_encryption_key("alice", "pw").unwrap();
    let k2 = derive_encryption_key("alice", "pw").unwrap();
    assert_eq!(k1, k2);
}

#[test]
fn different_usernames_derive_different_keys() {
    let k1 = derive_encryption_key("alice", "pw").unwrap();
    let k2 = derive_encryption_key("bob", "pw").unwrap();
    assert_ne!(k1, k2);
}

#[test]
fn different_passwords_derive_different_keys() {
    let k1 = derive_encryption_key("alice", "pw").unwrap();
    let k2 = derive_encryption_key("alice", "pw2").unwrap();
    assert_ne!(k1, k2);
}

#[test]
fn padding_boundary_usernames_do_not_collide() {
    // fifteen characters against sixteen sharing the same prefix
    let short = "aaaaaaaaaaaaaaa";
    let long = "aaaaaaaaaaaaaaaa";
    assert_eq!(short.len(), 15);
    assert_eq!(long.len(), 16);
    let k1 = derive_encryption_key(short, "pw").unwrap();
    let k2 = derive_encryption_key(long, "pw").unwrap();
    assert_ne!(k1, k2);
}

#[test]
fn short_username_derivation_is_stable() {
    // a one-character username is padded and still derives deterministically
    let k1 = derive_encryption_key("a", "pw").unwrap();
    let k2 = derive_encryption_key("a", "pw").unwrap();
    assert_eq!(k1, k2);
    assert_eq!(k1.len(), 32);
}
