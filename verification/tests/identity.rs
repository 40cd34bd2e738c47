use sha2::Digest;

use famchat_core::identity::{create, fingerprint, load, seal_with, Identity, IdentityError, StoredIdentity};

#[test]
fn identities_unlock_with_their_passphrase() {
    let (id, stored) = create("correct horse").unwrap();
    assert_eq!(stored.version, 1);
    assert_eq!(stored.public_key, hex::encode(&id.public));
    let again = load("correct horse", &stored).unwrap();
    assert_eq!(again.public, id.public);
    assert_eq!(again.secret(), id.secret());
    assert!(load("wrong horse", &stored).is_err());
}

#[test]
fn the_public_key_is_that_of_the_secret() {
    let (id, _) = create("p").unwrap();
    let mut secret = [0u8; 32];
    secret.copy_from_slice(id.secret());
    let public = x25519_dalek::PublicKey::from(&x25519_dalek::StaticSecret::from(secret));
    assert_eq!(id.public, public.as_bytes().to_vec());
}

#[test]
fn sealing_is_fixed_by_salt_and_nonce() {
    let id = Identity::from_parts(vec![1u8; 32], vec![2u8; 32]);
    let stored = seal_with("word", &id, [3u8; 16], [4u8; 24]).unwrap();
    assert_eq!(stored, seal_with("word", &id, [3u8; 16], [4u8; 24]).unwrap());
    assert_eq!(stored.kdf, "argon2id");
    assert_eq!(stored.salt, "03".repeat(16));
    assert_eq!(stored.nonce, "04".repeat(24));
    assert_eq!(stored.sealed_secret.len(), 2 * (32 + 16));
    assert_ne!(stored.sealed_secret[..64], hex::encode([2u8; 32]));
    assert_eq!(load("word", &stored).unwrap().secret(), &[2u8; 32]);
}

#[test]
fn every_broken_field_is_refused() {
    let id = Identity::from_parts(vec![1u8; 32], vec![2u8; 32]);
    let good = seal_with("word", &id, [3u8; 16], [4u8; 24]).unwrap();
    let broken = |edit: fn(&mut StoredIdentity)| {
        let mut s = good.clone();
        edit(&mut s);
        load("word", &s)
    };
    assert!(matches!(broken(|s| s.version = 2), Err(IdentityError::Version(2))));
    assert!(matches!(broken(|s| s.salt = "xyz".into()), Err(IdentityError::BadSalt(_))));
    assert!(matches!(broken(|s| s.salt = "00".into()), Err(IdentityError::Kdf(_))));
    assert!(matches!(broken(|s| s.nonce = "0".into()), Err(IdentityError::BadNonce(_))));
    assert!(matches!(broken(|s| s.nonce = "00".into()), Err(IdentityError::NonceLength)));
    assert!(matches!(broken(|s| s.sealed_secret = "q".into()), Err(IdentityError::BadSecret(_))));
    assert!(matches!(broken(|s| s.sealed_secret = "00".into()), Err(IdentityError::Locked)));
    assert!(matches!(broken(|s| s.public_key = "q".into()), Err(IdentityError::BadPublic(_))));
    assert!(broken(|_| ()).is_ok());
}

#[test]
fn fingerprints_are_the_start_of_the_hash_in_groups() {
    let hash = sha2::Sha256::digest([7u8; 32]);
    let fp = fingerprint(&[7u8; 32]);
    let compact: String = fp.chars().filter(|c| !c.is_whitespace()).collect();
    assert!(hex::encode(hash).to_uppercase().starts_with(&compact.to_uppercase()));
    assert!(fp.contains(' '));
    assert_eq!(Identity::from_parts(vec![7u8; 32], vec![]).fingerprint(), fp);
}
