//! The long-term key of a user, and how it is kept.
//!
//! On disk the private key is sealed with XChaCha20-Poly1305, under a key that
//! Argon2id makes of a passphrase. Only the public key is in the clear.
use vstd::prelude::*;
use vstd::string::*;
use vstd::utf8::*;

use crate::bytes;
use crate::crypto;
use crate::hexa;
use crate::hexa::HexError;
use crate::text;

verus! {

/// The handshake between two long-term keys, which the key is made for.
pub const NOISE_PARAMS: &'static str = "Noise_XX_25519_ChaChaPoly_BLAKE2s";

/// An identity as it is kept. All but the version and the name of the key
/// derivation is hexadecimal.
#[derive(Debug, Clone, PartialEq)]
pub struct StoredIdentity {
    pub version: u8,
    pub public_key: String,
    pub kdf: String,
    pub salt: String,
    pub nonce: String,
    pub sealed_secret: String,
}

/// An identity that is unlocked. The private key is wiped when it goes out of
/// use.
pub struct Identity {
    pub public: Vec<u8>,
    secret: Vec<u8>,
}

/// An identity, as contracts see it.
pub struct IdentityModel {
    pub public: Seq<u8>,
    pub secret: Seq<u8>,
}

impl View for Identity {
    type V = IdentityModel;

    closed spec fn view(&self) -> IdentityModel {
        IdentityModel { public: self.public@, secret: self.secret@ }
    }
}

impl Drop for Identity {
    fn drop(&mut self)
        opens_invariants none
        no_unwind
    {
        crypto::wipe_vec(&mut self.secret);
    }
}

impl Identity {
    /// The private key.
    pub fn secret(&self) -> (r: &[u8])
        ensures
            r@ == self@.secret,
    {
        self.secret.as_slice()
    }

    /// An identity of the two halves of its key.
    pub fn from_parts(public: Vec<u8>, secret: Vec<u8>) -> (r: Self)
        ensures
            r@ == (IdentityModel { public: public@, secret: secret@ }),
    {
        Identity { public, secret }
    }
}

impl Identity {
    /// The fingerprint of the public key.
    pub fn fingerprint(&self) -> (r: String)
        ensures
            r@ == fingerprint_text(self@.public),
    {
        fingerprint(self.public.as_slice())
    }
}

/// Why an identity could not be made or unlocked.
#[derive(Debug)]
pub enum IdentityError {
    /// No key pair could be made.
    Keypair(snow::Error),
    /// The key derivation refused the passphrase or the salt.
    Kdf(argon2::Error),
    /// The private key could not be sealed.
    Seal,
    /// The version is not known.
    Version(u8),
    /// The salt is not hexadecimal.
    BadSalt(HexError),
    /// The nonce is not hexadecimal.
    BadNonce(HexError),
    /// The nonce is not 24 bytes long.
    NonceLength,
    /// The sealed key is not hexadecimal.
    BadSecret(HexError),
    /// The public key is not hexadecimal.
    BadPublic(HexError),
    /// The seal does not open: most likely the passphrase is wrong.
    Locked,
}

/// What an identity is kept as.
pub open spec fn stored_as(
    passphrase: Seq<char>,
    id: IdentityModel,
    salt: Seq<u8>,
    nonce: Seq<u8>,
    stored: StoredIdentity,
) -> bool {
    &&& stored.version == 1
    &&& stored.kdf@ == "argon2id"@
    &&& stored.public_key@ == hexa::hex_text(id.public)
    &&& stored.salt@ == hexa::hex_text(salt)
    &&& stored.nonce@ == hexa::hex_text(nonce)
    &&& stored.sealed_secret@ == hexa::hex_text(
        crypto::xchacha20poly1305_seal(crypto::argon2id(encode_utf8(passphrase), salt), nonce, id.secret),
    )
}

/// What unlocking an identity comes to.
pub enum Unlocked {
    Version,
    BadSalt(HexError),
    BadNonce(HexError),
    BadSecret(HexError),
    BadPublic(HexError),
    NonceLength,
    Kdf,
    Locked,
    Open(IdentityModel),
}

/// Unlocks a stored identity. What is wrong with it is found in this order.
pub open spec fn unlocked(passphrase: Seq<char>, stored: StoredIdentity) -> Unlocked {
    let salt = hexa::unhex(encode_utf8(stored.salt@));
    let nonce = hexa::unhex(encode_utf8(stored.nonce@));
    let sealed = hexa::unhex(encode_utf8(stored.sealed_secret@));
    let public = hexa::unhex(encode_utf8(stored.public_key@));
    let phrase = encode_utf8(passphrase);
    if stored.version != 1 {
        Unlocked::Version
    } else if salt is Err {
        Unlocked::BadSalt(salt->Err_0)
    } else if nonce is Err {
        Unlocked::BadNonce(nonce->Err_0)
    } else if sealed is Err {
        Unlocked::BadSecret(sealed->Err_0)
    } else if public is Err {
        Unlocked::BadPublic(public->Err_0)
    } else if !crypto::argon2_fits(phrase.len(), salt->Ok_0.len()) {
        Unlocked::Kdf
    } else if nonce->Ok_0.len() != 24 {
        Unlocked::NonceLength
    } else {
        match crypto::xchacha20poly1305_open(
            crypto::argon2id(phrase, salt->Ok_0),
            nonce->Ok_0,
            sealed->Ok_0,
        ) {
            Some(secret) => Unlocked::Open(IdentityModel { public: public->Ok_0, secret }),
            None => Unlocked::Locked,
        }
    }
}

/// Whether `r` is what unlocking comes to.
pub open spec fn same_outcome(r: Result<Identity, IdentityError>, u: Unlocked, version: u8) -> bool {
    match r {
        Ok(id) => u == Unlocked::Open(id@),
        Err(IdentityError::Version(v)) => u is Version && v == version,
        Err(IdentityError::BadSalt(e)) => u == Unlocked::BadSalt(e),
        Err(IdentityError::BadNonce(e)) => u == Unlocked::BadNonce(e),
        Err(IdentityError::BadSecret(e)) => u == Unlocked::BadSecret(e),
        Err(IdentityError::BadPublic(e)) => u == Unlocked::BadPublic(e),
        Err(IdentityError::NonceLength) => u is NonceLength,
        Err(IdentityError::Kdf(_)) => u is Kdf,
        Err(IdentityError::Locked) => u is Locked,
        Err(IdentityError::Keypair(_)) => false,
        Err(IdentityError::Seal) => false,
    }
}

/// Seals an identity under a passphrase, with a salt and a nonce drawn
/// beforehand. With the same passphrase it unlocks again.
pub fn seal_with(passphrase: &str, id: &Identity, salt: [u8; 16], nonce: [u8; 24]) -> (r: Result<
    StoredIdentity,
    IdentityError,
>)
    ensures
        match r {
            Ok(stored) => {
                &&& encode_utf8(passphrase@).len() <= 0xffff_ffff
                &&& crypto::aead_fits(id@.secret.len())
                &&& stored_as(passphrase@, id@, salt@, nonce@, stored)
                &&& unlocked(passphrase@, stored) == Unlocked::Open(id@)
            },
            Err(IdentityError::Kdf(_)) => encode_utf8(passphrase@).len() > 0xffff_ffff,
            Err(IdentityError::Seal) => !crypto::aead_fits(id@.secret.len()),
            Err(_) => false,
        },
{
    let key = match crypto::password_key(passphrase.as_bytes(), salt.as_slice()) {
        Ok(k) => k,
        Err(e) => {
            return Err(IdentityError::Kdf(e));
        },
    };
    let sealed = match crypto::xseal(&key.bytes, &nonce, id.secret.as_slice()) {
        Some(s) => s,
        None => {
            return Err(IdentityError::Seal);
        },
    };
    let stored = StoredIdentity {
        version: 1,
        public_key: hexa::encode(id.public.as_slice()),
        kdf: "argon2id".to_owned(),
        salt: hexa::encode(salt.as_slice()),
        nonce: hexa::encode(nonce.as_slice()),
        sealed_secret: hexa::encode(sealed.as_slice()),
    };
    proof {
        hexa::law_hex_round_trip(id.public@);
        hexa::law_hex_round_trip(salt@);
        hexa::law_hex_round_trip(nonce@);
        hexa::law_hex_round_trip(sealed@);
    }
    Ok(stored)
}

/// `snow::Builder::generate_keypair` for the handshake between long-term keys:
/// a private X25519 key and the public key of it, of 32 bytes each. It does not
/// fail: the protocol is one that the crate knows. Which keys come out is not
/// known.
#[verifier::external_body]
fn generate_keypair() -> (r: Result<(Vec<u8>, Vec<u8>), snow::Error>)
    ensures
        r is Ok,
        r matches Ok((public, private)) ==> public@.len() == 32 && private@.len() == 32 && public@
            == crypto::x25519_public(private@),
{
    let pair = snow::Builder::new(NOISE_PARAMS.parse()?).generate_keypair()?;
    Ok((pair.public, pair.private))
}

/// Makes a fresh identity, and seals it under a passphrase.
pub fn create(passphrase: &str) -> (r: Result<(Identity, StoredIdentity), IdentityError>)
    ensures
        match r {
            Ok((id, stored)) => {
                &&& id@.public.len() == 32
                &&& id@.secret.len() == 32
                &&& id@.public == crypto::x25519_public(id@.secret)
                &&& unlocked(passphrase@, stored) == Unlocked::Open(id@)
                &&& exists|salt: Seq<u8>, nonce: Seq<u8>|
                    salt.len() == 16 && nonce.len() == 24 && #[trigger] stored_as(
                        passphrase@,
                        id@,
                        salt,
                        nonce,
                        stored,
                    )
            },
            Err(IdentityError::Kdf(_)) => encode_utf8(passphrase@).len() > 0xffff_ffff,
            Err(_) => false,
        },
        r is Ok <==> encode_utf8(passphrase@).len() <= 0xffff_ffff,
{
    let (public, private) = match generate_keypair() {
        Ok(pair) => pair,
        Err(e) => {
            return Err(IdentityError::Keypair(e));
        },
    };
    let id = Identity::from_parts(public, private);
    let salt = crypto::random_bytes::<16>();
    let nonce = crypto::random_bytes::<24>();
    match seal_with(passphrase, &id, salt, nonce) {
        Ok(stored) => {
            assert(salt@.len() == 16 && nonce@.len() == 24 && stored_as(passphrase@, id@, salt@, nonce@, stored));
            Ok((id, stored))
        },
        Err(e) => Err(e),
    }
}

/// Unlocks a stored identity with a passphrase.
pub fn load(passphrase: &str, stored: &StoredIdentity) -> (r: Result<Identity, IdentityError>)
    ensures
        same_outcome(r, unlocked(passphrase@, *stored), stored.version),
{
    if stored.version != 1 {
        return Err(IdentityError::Version(stored.version));
    }
    let salt = match hexa::decode(stored.salt.as_str()) {
        Ok(v) => v,
        Err(e) => {
            return Err(IdentityError::BadSalt(e));
        },
    };
    let nonce = match hexa::decode(stored.nonce.as_str()) {
        Ok(v) => v,
        Err(e) => {
            return Err(IdentityError::BadNonce(e));
        },
    };
    let sealed = match hexa::decode(stored.sealed_secret.as_str()) {
        Ok(v) => v,
        Err(e) => {
            return Err(IdentityError::BadSecret(e));
        },
    };
    let public = match hexa::decode(stored.public_key.as_str()) {
        Ok(v) => v,
        Err(e) => {
            return Err(IdentityError::BadPublic(e));
        },
    };
    let key = match crypto::password_key(passphrase.as_bytes(), salt.as_slice()) {
        Ok(k) => k,
        Err(e) => {
            return Err(IdentityError::Kdf(e));
        },
    };
    if nonce.len() != 24 {
        return Err(IdentityError::NonceLength);
    }
    let fixed = bytes::take::<24>(nonce.as_slice(), 0);
    assert(fixed@ =~= nonce@);
    match crypto::xopen(&key.bytes, &fixed, sealed.as_slice()) {
        Some(secret) => Ok(Identity { public, secret }),
        None => Err(IdentityError::Locked),
    }
}

/// `count` groups of four hexadecimal digits, with a space between them.
pub open spec fn groups(d: Seq<u8>, count: nat) -> Seq<char>
    decreases count,
{
    if count == 0 {
        Seq::empty()
    } else {
        let last = hexa::hex_text(d.subrange(2 * count - 2, 2 * count as int));
        if count == 1 {
            last
        } else {
            groups(d, (count - 1) as nat) + " "@ + last
        }
    }
}

/// The fingerprint of a public key, for people to compare: the first 16 bytes
/// of its SHA-256, in eight groups.
pub open spec fn fingerprint_text(public_key: Seq<u8>) -> Seq<char> {
    text::uppercase(groups(crypto::sha256(public_key), 8))
}

/// The fingerprint of a public key.
pub fn fingerprint(public_key: &[u8]) -> (r: String)
    ensures
        r@ == fingerprint_text(public_key@),
{
    let digest = crypto::digest(public_key);
    let mut out = String::new();
    let mut i: usize = 0;
    while i < 8
        invariant
            i <= 8,
            digest@.len() == 32,
            out@ == groups(digest@, i as nat),
        decreases 8 - i,
    {
        let ghost before = out@;
        let pair = hexa::encode(vstd::slice::slice_subrange(digest.as_slice(), 2 * i, 2 * i + 2));
        if i > 0 {
            out.append(" ");
        }
        out.append(pair.as_str());
        assert(out@ =~= groups(digest@, (i + 1) as nat));
        i += 1;
    }
    text::to_uppercase(out.as_str())
}

/// An identity is unlocked by the key that its passphrase makes, and by nothing else: it
/// opens to a secret just where the seal opens to that secret under the key of this very
/// passphrase and the salt that is kept, and to the public key that is kept.
pub proof fn law_the_passphrase_unlocks(passphrase: Seq<char>, stored: StoredIdentity, id: IdentityModel)
    ensures
        unlocked(passphrase, stored) == Unlocked::Open(id) <==> {
            let salt = hexa::unhex(encode_utf8(stored.salt@));
            let nonce = hexa::unhex(encode_utf8(stored.nonce@));
            let sealed = hexa::unhex(encode_utf8(stored.sealed_secret@));
            &&& stored.version == 1
            &&& salt is Ok && nonce is Ok && sealed is Ok
            &&& hexa::unhex(encode_utf8(stored.public_key@)) == Ok::<Seq<u8>, HexError>(id.public)
            &&& crypto::argon2_fits(encode_utf8(passphrase).len(), salt->Ok_0.len())
            &&& nonce->Ok_0.len() == 24
            &&& crypto::xchacha20poly1305_open(
                crypto::argon2id(encode_utf8(passphrase), salt->Ok_0),
                nonce->Ok_0,
                sealed->Ok_0,
            ) == Some(id.secret)
        },
{
}

/// A passphrase under whose key the seal does not open unlocks nothing, and says so, where
/// another one unlocks.
pub proof fn law_wrong_passphrases_stay_out(right: Seq<char>, wrong: Seq<char>, stored: StoredIdentity)
    requires
        unlocked(right, stored) is Open,
        encode_utf8(wrong).len() <= 0xffff_ffff,
        crypto::xchacha20poly1305_open(
            crypto::argon2id(encode_utf8(wrong), hexa::unhex(encode_utf8(stored.salt@))->Ok_0),
            hexa::unhex(encode_utf8(stored.nonce@))->Ok_0,
            hexa::unhex(encode_utf8(stored.sealed_secret@))->Ok_0,
        ) is None,
    ensures
        unlocked(wrong, stored) is Locked,
{
}

/// What is kept of an identity is its public key in the clear and its secret under seal,
/// with the salt and the nonce that open it: whoever reads the fields back gets just what
/// went in.
pub proof fn law_kept_identities_can_be_read_back(
    passphrase: Seq<char>,
    id: IdentityModel,
    salt: Seq<u8>,
    nonce: Seq<u8>,
    stored: StoredIdentity,
)
    requires
        stored_as(passphrase, id, salt, nonce, stored),
    ensures
        hexa::unhex(encode_utf8(stored.public_key@)) == Ok::<Seq<u8>, HexError>(id.public),
        hexa::unhex(encode_utf8(stored.salt@)) == Ok::<Seq<u8>, HexError>(salt),
        hexa::unhex(encode_utf8(stored.nonce@)) == Ok::<Seq<u8>, HexError>(nonce),
        hexa::unhex(encode_utf8(stored.sealed_secret@)) == Ok::<Seq<u8>, HexError>(
            crypto::xchacha20poly1305_seal(crypto::argon2id(encode_utf8(passphrase), salt), nonce, id.secret),
        ),
{
    hexa::law_hex_round_trip(id.public);
    hexa::law_hex_round_trip(salt);
    hexa::law_hex_round_trip(nonce);
    hexa::law_hex_round_trip(
        crypto::xchacha20poly1305_seal(crypto::argon2id(encode_utf8(passphrase), salt), nonce, id.secret),
    );
}

/// An identity that unlocks is of the one version that there is, and what comes out is
/// what was kept: the public key that stands there, and the secret that opens under the
/// key of the passphrase and the salt. Of another version nothing is read at all.
pub proof fn law_only_whole_identities_unlock(passphrase: Seq<char>, stored: StoredIdentity)
    ensures
        stored.version != 1 <==> unlocked(passphrase, stored) is Version,
        unlocked(passphrase, stored) matches Unlocked::Open(id) ==> {
            let salt = hexa::unhex(encode_utf8(stored.salt@));
            let nonce = hexa::unhex(encode_utf8(stored.nonce@));
            let sealed = hexa::unhex(encode_utf8(stored.sealed_secret@));
            &&& stored.version == 1
            &&& salt is Ok && nonce is Ok && sealed is Ok
            &&& nonce->Ok_0.len() == 24
            &&& hexa::unhex(encode_utf8(stored.public_key@)) == Ok::<Seq<u8>, HexError>(id.public)
            &&& crypto::xchacha20poly1305_open(
                crypto::argon2id(encode_utf8(passphrase), salt->Ok_0),
                nonce->Ok_0,
                sealed->Ok_0,
            ) == Some(id.secret)
        },
{
}

/// What unlocking comes to is what is handed back: an identity where it opens and then
/// that one, and else the reason, each for itself.
pub proof fn law_outcomes_are_handed_back(r: Result<Identity, IdentityError>, u: Unlocked, version: u8)
    requires
        same_outcome(r, u, version),
    ensures
        r is Ok <==> u is Open,
        r matches Ok(id) ==> u == Unlocked::Open(id@),
        u is Locked <==> r is Err && r->Err_0 is Locked,
        u is Version <==> r is Err && r->Err_0 == IdentityError::Version(version),
        u is BadSalt <==> r is Err && r->Err_0 is BadSalt,
        u is BadNonce <==> r is Err && r->Err_0 is BadNonce,
        u is BadSecret <==> r is Err && r->Err_0 is BadSecret,
        u is BadPublic <==> r is Err && r->Err_0 is BadPublic,
        u is NonceLength <==> r is Err && r->Err_0 is NonceLength,
        u is Kdf <==> r is Err && r->Err_0 is Kdf,
{
}

} // verus!
