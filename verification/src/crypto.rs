//! The cryptographic primitives, each one call into the crate that implements it.
//!
//! A result that takes a standard to describe has a name here, a function of
//! the values that go into the call. The contracts of the rest of the library
//! speak of those names.
use chacha20poly1305::aead::{Aead, KeyInit, Payload};
use vstd::prelude::*;

use crate::bytes;

verus! {

/// HKDF-SHA-256, extract then expand: `len` bytes out of `ikm`.
pub uninterp spec fn hkdf_sha256(salt: Option<Seq<u8>>, ikm: Seq<u8>, info: Seq<u8>, len: nat) -> Seq<u8>;

/// HKDF-SHA-256, expand alone: `len` bytes out of the pseudorandom key `prk`.
pub uninterp spec fn hkdf_expand_sha256(prk: Seq<u8>, info: Seq<u8>, len: nat) -> Seq<u8>;

/// ChaCha20-Poly1305: the ciphertext of `msg` with its tag behind it.
pub uninterp spec fn chacha20poly1305_seal(key: Seq<u8>, nonce: Seq<u8>, aad: Seq<u8>, msg: Seq<u8>) -> Seq<u8>;

/// ChaCha20-Poly1305: what `sealed` holds, if its tag is right.
pub uninterp spec fn chacha20poly1305_decrypt(
    key: Seq<u8>,
    nonce: Seq<u8>,
    aad: Seq<u8>,
    sealed: Seq<u8>,
) -> Option<Seq<u8>>;

/// What `sealed` holds, if its tag is right and it is not longer than anything
/// that can be sealed.
pub open spec fn chacha20poly1305_open(
    key: Seq<u8>,
    nonce: Seq<u8>,
    aad: Seq<u8>,
    sealed: Seq<u8>,
) -> Option<Seq<u8>> {
    if sealed.len() <= MAX_MESSAGE + TAG_LEN {
        chacha20poly1305_decrypt(key, nonce, aad, sealed)
    } else {
        None
    }
}

/// X25519: the public key of a 32-byte secret.
pub uninterp spec fn x25519_public(secret: Seq<u8>) -> Seq<u8>;

/// X25519: what a secret and a public key agree on.
pub uninterp spec fn x25519_shared(secret: Seq<u8>, public: Seq<u8>) -> Seq<u8>;

/// The length of a ChaCha20-Poly1305 tag.
pub const TAG_LEN: usize = 16;

/// The longest message of ChaCha20-Poly1305: its block counter, which begins at
/// 1, has room for `u32::MAX - 1` blocks of 64 bytes.
pub const MAX_MESSAGE: u64 = 274877906816;

/// Whether ChaCha20-Poly1305 takes a message of `len` bytes.
pub open spec fn aead_fits(len: nat) -> bool {
    len <= MAX_MESSAGE
}

/// Agreement over X25519 works from either side: a secret whose public key is
/// `public` gets from the public key of `secret` what `secret` gets from `public`.
pub open spec fn agreement_commutes(secret: Seq<u8>, public: Seq<u8>) -> bool {
    forall|other: Seq<u8>|
        other.len() == 32 && #[trigger] x25519_public(other) == public ==> x25519_shared(secret, public)
            == x25519_shared(other, x25519_public(secret))
}

/// The bytes of an optional slice.
pub open spec fn opt_bytes(s: Option<&[u8]>) -> Option<Seq<u8>> {
    match s {
        Some(b) => Some(b@),
        None => None,
    }
}

/// `hkdf::Hkdf::<Sha256>::new` and `expand`. The output has the length asked
/// for; `expand` takes any length up to 255 hash lengths.
#[verifier::external_body]
pub(crate) fn hkdf<const N: usize>(salt: Option<&[u8]>, ikm: &[u8], info: &[u8]) -> (okm: [u8; N])
    requires
        N <= 255 * 32,
    ensures
        okm@ == hkdf_sha256(opt_bytes(salt), ikm@, info@, N as nat),
{
    let mut okm = [0u8; N];
    let hk = hkdf::Hkdf::<sha2::Sha256>::new(salt, ikm);
    hk.expand(info, &mut okm).expect("the length is within the limit of HKDF");
    okm
}

/// `hkdf::Hkdf::<Sha256>::from_prk` and `expand`. A key of one hash length is
/// long enough for `from_prk`.
#[verifier::external_body]
pub(crate) fn hkdf_expand<const N: usize>(prk: &[u8; 32], info: &[u8]) -> (okm: [u8; N])
    requires
        N <= 255 * 32,
    ensures
        okm@ == hkdf_expand_sha256(prk@, info@, N as nat),
{
    let mut okm = [0u8; N];
    let hk = hkdf::Hkdf::<sha2::Sha256>::from_prk(prk).expect("a whole hash length is long enough");
    hk.expand(info, &mut okm).expect("the length is within the limit of HKDF");
    okm
}

/// `chacha20poly1305::ChaCha20Poly1305::encrypt` of a message for which the block
/// counter has room; then it does not fail. The result is the ciphertext, as long
/// as the message, with the tag behind it, and `decrypt` gets the message back
/// from it.
#[verifier::external_body]
fn encrypt(key: &[u8; 32], nonce: &[u8; 12], aad: &[u8], msg: &[u8]) -> (sealed: Vec<u8>)
    requires
        aead_fits(msg@.len()),
    ensures
        sealed@ == chacha20poly1305_seal(key@, nonce@, aad@, msg@),
        sealed@.len() == msg@.len() + TAG_LEN,
        chacha20poly1305_decrypt(key@, nonce@, aad@, sealed@) == Some(msg@),
{
    let cipher = chacha20poly1305::ChaCha20Poly1305::new(key.into());
    cipher.encrypt(nonce.into(), Payload { msg, aad }).expect("the block counter has room")
}

/// `chacha20poly1305::ChaCha20Poly1305::decrypt` of what may be a message for
/// which the block counter has room. Whatever it returns, `encrypt` makes the
/// same ciphertext of it again: the tag is recomputed over the ciphertext, and
/// the keystream is its own inverse.
#[verifier::external_body]
fn decrypt(key: &[u8; 32], nonce: &[u8; 12], aad: &[u8], sealed: &[u8]) -> (r: Option<Vec<u8>>)
    requires
        sealed@.len() <= MAX_MESSAGE + TAG_LEN,
    ensures
        match r {
            Some(msg) => {
                &&& chacha20poly1305_decrypt(key@, nonce@, aad@, sealed@) == Some(msg@)
                &&& chacha20poly1305_seal(key@, nonce@, aad@, msg@) == sealed@
                &&& sealed@.len() == msg@.len() + TAG_LEN
            },
            None => chacha20poly1305_decrypt(key@, nonce@, aad@, sealed@) is None,
        },
{
    let cipher = chacha20poly1305::ChaCha20Poly1305::new(key.into());
    cipher.decrypt(nonce.into(), Payload { msg: sealed, aad }).ok()
}

/// Seals a message, unless it is too long.
pub(crate) fn seal(key: &[u8; 32], nonce: &[u8; 12], aad: &[u8], msg: &[u8]) -> (r: Option<Vec<u8>>)
    ensures
        r is Some <==> aead_fits(msg@.len()),
        r matches Some(sealed) ==> {
            &&& sealed@ == chacha20poly1305_seal(key@, nonce@, aad@, msg@)
            &&& sealed@.len() == msg@.len() + TAG_LEN
            &&& chacha20poly1305_open(key@, nonce@, aad@, sealed@) == Some(msg@)
        },
{
    if msg.len() as u64 <= MAX_MESSAGE {
        Some(encrypt(key, nonce, aad, msg))
    } else {
        None
    }
}

/// Opens what was sealed. What is longer than anything that can be sealed is
/// refused.
pub(crate) fn open(key: &[u8; 32], nonce: &[u8; 12], aad: &[u8], sealed: &[u8]) -> (r: Option<Vec<u8>>)
    ensures
        match r {
            Some(msg) => {
                &&& chacha20poly1305_open(key@, nonce@, aad@, sealed@) == Some(msg@)
                &&& chacha20poly1305_seal(key@, nonce@, aad@, msg@) == sealed@
                &&& sealed@.len() == msg@.len() + TAG_LEN
            },
            None => chacha20poly1305_open(key@, nonce@, aad@, sealed@) is None,
        },
{
    if sealed.len() as u64 <= MAX_MESSAGE + TAG_LEN as u64 {
        decrypt(key, nonce, aad, sealed)
    } else {
        None
    }
}

/// `x25519_dalek::PublicKey::from` of a `StaticSecret`.
#[verifier::external_body]
pub(crate) fn public_key(secret: &[u8; 32]) -> (public: [u8; 32])
    ensures
        public@ == x25519_public(secret@),
{
    x25519_dalek::PublicKey::from(&x25519_dalek::StaticSecret::from(*secret)).to_bytes()
}

/// `x25519_dalek::StaticSecret::diffie_hellman`. Both ends agree: the holder of
/// the secret behind `public` computes the same from the public key of `secret`.
#[verifier::external_body]
pub(crate) fn agree(secret: &[u8; 32], public: &[u8; 32]) -> (shared: Secret)
    ensures
        shared@ == x25519_shared(secret@, public@),
        forall|other: Seq<u8>|
            other.len() == 32 && #[trigger] x25519_public(other) == public@ ==> shared@ == x25519_shared(
                other,
                x25519_public(secret@),
            ),
{
    let secret = x25519_dalek::StaticSecret::from(*secret);
    Secret { bytes: secret.diffie_hellman(&x25519_dalek::PublicKey::from(*public)).to_bytes() }
}

/// `x25519_dalek::StaticSecret::random_from_rng` on the random numbers of the
/// operating system. Which secret comes out is not known.
#[verifier::external_body]
pub(crate) fn random_secret() -> Secret {
    Secret { bytes: x25519_dalek::StaticSecret::random_from_rng(rand::rngs::OsRng).to_bytes() }
}

/// `zeroize::Zeroize::zeroize` on an array: every byte is zero afterwards.
#[verifier::external_body]
pub(crate) fn wipe<const N: usize>(buffer: &mut [u8; N])
    ensures
        final(buffer)@ == bytes::zeros(N as nat),
    opens_invariants none
    no_unwind
{
    zeroize::Zeroize::zeroize(buffer);
}

/// Thirty-two secret bytes, wiped when they go out of use.
pub struct Secret {
    pub bytes: [u8; 32],
}

impl View for Secret {
    type V = Seq<u8>;

    open spec fn view(&self) -> Seq<u8> {
        self.bytes@
    }
}

impl Drop for Secret {
    fn drop(&mut self)
        opens_invariants none
        no_unwind
    {
        wipe(&mut self.bytes);
    }
}

impl Clone for Secret {
    fn clone(&self) -> (r: Self)
        ensures
            r == *self,
    {
        Secret { bytes: self.bytes }
    }
}

impl Secret {
    /// Takes the bytes over.
    pub fn new(bytes: [u8; 32]) -> (r: Self)
        ensures
            r@ == bytes@,
    {
        Secret { bytes }
    }
}

/// `zeroize::Zeroize::zeroize` on a vector: its bytes are overwritten, and it
/// is empty afterwards.
#[verifier::external_body]
pub(crate) fn wipe_vec(buffer: &mut Vec<u8>)
    ensures
        final(buffer)@ == Seq::<u8>::empty(),
    opens_invariants none
    no_unwind
{
    zeroize::Zeroize::zeroize(buffer);
}

/// Secret bytes of any number, wiped when they go out of use.
pub struct SecretBytes {
    pub bytes: Vec<u8>,
}

impl View for SecretBytes {
    type V = Seq<u8>;

    open spec fn view(&self) -> Seq<u8> {
        self.bytes@
    }
}

impl Drop for SecretBytes {
    fn drop(&mut self)
        opens_invariants none
        no_unwind
    {
        wipe_vec(&mut self.bytes);
    }
}

impl SecretBytes {
    /// How many bytes there are.
    pub fn len(&self) -> (r: usize)
        ensures
            r == self@.len(),
    {
        self.bytes.len()
    }

    /// The bytes.
    pub fn as_slice(&self) -> (r: &[u8])
        ensures
            r@ == self@,
    {
        self.bytes.as_slice()
    }
}

/// Ed25519: the public key of a 32-byte seed.
pub uninterp spec fn ed25519_public(seed: Seq<u8>) -> Seq<u8>;

/// Ed25519: the 64-byte signature of `msg` under a seed.
pub uninterp spec fn ed25519_sign(seed: Seq<u8>, msg: Seq<u8>) -> Seq<u8>;

/// Ed25519: whether 32 bytes are the encoding of a point of the curve.
pub uninterp spec fn ed25519_is_key(public: Seq<u8>) -> bool;

/// Ed25519: whether strict verification accepts `signature` on `msg` under the
/// key `public`.
pub uninterp spec fn ed25519_accepts(public: Seq<u8>, msg: Seq<u8>, signature: Seq<u8>) -> bool;

/// The encoding of the neutral point of the curve.
pub open spec fn neutral_point() -> Seq<u8> {
    Seq::new(32, |i: int| if i == 0 { 1u8 } else { 0u8 })
}

/// `ed25519_dalek::SigningKey::from_bytes` and `verifying_key`. A key that was
/// made this way is a point of the curve.
#[verifier::external_body]
pub(crate) fn signing_public(seed: &[u8; 32]) -> (public: [u8; 32])
    ensures
        public@ == ed25519_public(seed@),
        ed25519_is_key(public@),
{
    ed25519_dalek::SigningKey::from_bytes(seed).verifying_key().to_bytes()
}

/// `ed25519_dalek::SigningKey::sign`. Strict verification accepts a signature
/// under the signer's own key, unless its nonce point happens to be the neutral
/// point: `verify_strict` refuses points of small order, and the nonce point
/// is a multiple of the base point, whose order is prime. (The key itself is
/// never of small order: a clamped scalar is a multiple of 8 below 8 times that
/// prime, and not zero.)
#[verifier::external_body]
pub(crate) fn sign(seed: &[u8; 32], msg: &[u8]) -> (signature: [u8; 64])
    ensures
        signature@ == ed25519_sign(seed@, msg@),
        signature@.take(32) != neutral_point() ==> ed25519_accepts(ed25519_public(seed@), msg@, signature@),
{
    let key = ed25519_dalek::SigningKey::from_bytes(seed);
    ed25519_dalek::Signer::sign(&key, msg).to_bytes()
}

/// `ed25519_dalek::VerifyingKey::from_bytes`, for whether it accepts the bytes.
#[verifier::external_body]
pub(crate) fn is_signing_key(public: &[u8; 32]) -> (r: bool)
    ensures
        r == ed25519_is_key(public@),
{
    ed25519_dalek::VerifyingKey::from_bytes(public).is_ok()
}

/// `ed25519_dalek::VerifyingKey::verify_strict`, on a key that `from_bytes`
/// accepts.
#[verifier::external_body]
pub(crate) fn verify_strict(public: &[u8; 32], msg: &[u8], signature: &[u8; 64]) -> (r: bool)
    requires
        ed25519_is_key(public@),
    ensures
        r == ed25519_accepts(public@, msg@, signature@),
{
    let key = ed25519_dalek::VerifyingKey::from_bytes(public).expect("the bytes are a key");
    key.verify_strict(msg, &ed25519_dalek::Signature::from_bytes(signature)).is_ok()
}

/// `ed25519_dalek::SigningKey::generate` on the random numbers of the operating
/// system. Which seed comes out is not known.
#[verifier::external_body]
pub(crate) fn random_signing_seed() -> Secret {
    Secret { bytes: ed25519_dalek::SigningKey::generate(&mut rand::rngs::OsRng).to_bytes() }
}

/// `rand::RngCore::fill_bytes` on the random numbers of the operating system.
/// Which bytes come out is not known.
#[verifier::external_body]
pub(crate) fn random_bytes<const N: usize>() -> [u8; N] {
    let mut out = [0u8; N];
    rand::RngCore::fill_bytes(&mut rand::rngs::OsRng, &mut out);
    out
}

/// SHA-256 of a byte string.
pub uninterp spec fn sha256(data: Seq<u8>) -> Seq<u8>;

/// `sha2::Sha256::digest`.
#[verifier::external_body]
pub(crate) fn digest(data: &[u8]) -> (r: [u8; 32])
    ensures
        r@ == sha256(data@),
{
    <sha2::Sha256 as sha2::Digest>::digest(data).into()
}

/// Argon2id with the parameters of `argon2::Argon2::default()`: the 32-byte key
/// of a passphrase and a salt.
pub uninterp spec fn argon2id(passphrase: Seq<u8>, salt: Seq<u8>) -> Seq<u8>;

/// The error of the `argon2` crate.
#[verifier::external_type_specification]
#[verifier::external_body]
pub struct ExArgon2Error(argon2::Error);

/// Whether Argon2 takes a passphrase and a salt of these lengths.
pub open spec fn argon2_fits(passphrase: nat, salt: nat) -> bool {
    passphrase <= 0xffff_ffff && 8 <= salt <= 0xffff_ffff
}

/// `argon2::Argon2::hash_password_into` with the default parameters and 32 bytes
/// of output. It fails on a salt of less than 8 bytes, and on a passphrase or a
/// salt beyond 32 bits of length, and on nothing else.
#[verifier::external_body]
pub(crate) fn password_key(passphrase: &[u8], salt: &[u8]) -> (r: Result<Secret, argon2::Error>)
    ensures
        r is Ok <==> argon2_fits(passphrase@.len(), salt@.len()),
        r matches Ok(key) ==> key@ == argon2id(passphrase@, salt@),
{
    let mut key = [0u8; 32];
    argon2::Argon2::default().hash_password_into(passphrase, salt, &mut key)?;
    Ok(Secret { bytes: key })
}

/// XChaCha20-Poly1305 without associated data: the ciphertext of `msg` with its
/// tag behind it.
pub uninterp spec fn xchacha20poly1305_seal(key: Seq<u8>, nonce: Seq<u8>, msg: Seq<u8>) -> Seq<u8>;

/// XChaCha20-Poly1305 without associated data: what `sealed` holds, if its tag
/// is right.
pub uninterp spec fn xchacha20poly1305_decrypt(key: Seq<u8>, nonce: Seq<u8>, sealed: Seq<u8>) -> Option<Seq<u8>>;

/// What `sealed` holds, if its tag is right and it is not longer than anything
/// that can be sealed.
pub open spec fn xchacha20poly1305_open(key: Seq<u8>, nonce: Seq<u8>, sealed: Seq<u8>) -> Option<Seq<u8>> {
    if sealed.len() <= MAX_MESSAGE + TAG_LEN {
        xchacha20poly1305_decrypt(key, nonce, sealed)
    } else {
        None
    }
}

/// `chacha20poly1305::XChaCha20Poly1305::encrypt` without associated data, of a
/// message for which the block counter has room; then it does not fail, and
/// `decrypt` gets the message back.
#[verifier::external_body]
fn xencrypt(key: &[u8; 32], nonce: &[u8; 24], msg: &[u8]) -> (sealed: Vec<u8>)
    requires
        aead_fits(msg@.len()),
    ensures
        sealed@ == xchacha20poly1305_seal(key@, nonce@, msg@),
        sealed@.len() == msg@.len() + TAG_LEN,
        xchacha20poly1305_decrypt(key@, nonce@, sealed@) == Some(msg@),
{
    let cipher = chacha20poly1305::XChaCha20Poly1305::new(key.into());
    cipher.encrypt(nonce.into(), msg).expect("the block counter has room")
}

/// `chacha20poly1305::XChaCha20Poly1305::decrypt` without associated data, of
/// what may be a message for which the block counter has room.
#[verifier::external_body]
fn xdecrypt(key: &[u8; 32], nonce: &[u8; 24], sealed: &[u8]) -> (r: Option<Vec<u8>>)
    requires
        sealed@.len() <= MAX_MESSAGE + TAG_LEN,
    ensures
        match r {
            Some(msg) => {
                &&& xchacha20poly1305_decrypt(key@, nonce@, sealed@) == Some(msg@)
                &&& sealed@.len() == msg@.len() + TAG_LEN
            },
            None => xchacha20poly1305_decrypt(key@, nonce@, sealed@) is None,
        },
{
    let cipher = chacha20poly1305::XChaCha20Poly1305::new(key.into());
    cipher.decrypt(nonce.into(), sealed).ok()
}

/// Seals a message under a long nonce, unless it is too long.
pub(crate) fn xseal(key: &[u8; 32], nonce: &[u8; 24], msg: &[u8]) -> (r: Option<Vec<u8>>)
    ensures
        r is Some <==> aead_fits(msg@.len()),
        r matches Some(sealed) ==> {
            &&& sealed@ == xchacha20poly1305_seal(key@, nonce@, msg@)
            &&& sealed@.len() == msg@.len() + TAG_LEN
            &&& xchacha20poly1305_open(key@, nonce@, sealed@) == Some(msg@)
        },
{
    if msg.len() as u64 <= MAX_MESSAGE {
        Some(xencrypt(key, nonce, msg))
    } else {
        None
    }
}

/// Opens what was sealed under a long nonce. What is longer than anything that
/// can be sealed is refused.
pub(crate) fn xopen(key: &[u8; 32], nonce: &[u8; 24], sealed: &[u8]) -> (r: Option<Vec<u8>>)
    ensures
        match r {
            Some(msg) => {
                &&& xchacha20poly1305_open(key@, nonce@, sealed@) == Some(msg@)
                &&& sealed@.len() == msg@.len() + TAG_LEN
            },
            None => xchacha20poly1305_open(key@, nonce@, sealed@) is None,
        },
{
    if sealed.len() as u64 <= MAX_MESSAGE + TAG_LEN as u64 {
        xdecrypt(key, nonce, sealed)
    } else {
        None
    }
}

} // verus!
