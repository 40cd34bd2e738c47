//! The double ratchet: a fresh key for every message, and fresh Diffie-Hellman
//! keys with every change of direction.
//!
//! The layer protects application plaintext before the transport seals it. A
//! message on the wire is a 40-byte header (the sender's current ratchet key,
//! the length of its previous chain and the index in the current one) with the
//! ciphertext behind it. Lengths are not hidden here: that is left to the
//! constant-size cells of `cover`.
//!
//! Opening a message is all or nothing. Every key is derived into scratch
//! values, and the session changes only once the tag has verified.
use vstd::prelude::*;
use vstd::string::*;

use crate::bytes;
use crate::crypto;
use crate::crypto::Secret;

verus! {

/// How many message keys one packet may make us derive, over the rest of the
/// previous chain and the gap in the current one together.
pub const MAX_SKIP: u32 = 1000;

/// How many skipped message keys a session keeps.
pub const MAX_SKIP_STORE: usize = 4000;

/// The length of the header: ratchet key, previous chain length, index.
pub const HEADER_LEN: usize = 40;

/// The label of root keys.
pub const KDF_RK_INFO: &'static str = "ciphext-double-ratchet-root-v1";

/// The label of message keys.
pub const KDF_MK_INFO: &'static str = "ciphext-double-ratchet-message-v1";

/// Why an operation failed. None of it depends on secrets.
#[derive(Debug, Clone, Copy, PartialEq, Eq, Structural)]
pub enum ErrorKind {
    /// The message is shorter than a header.
    Malformed,
    /// The tag did not verify.
    Decrypt,
    /// The message is further ahead than `MAX_SKIP` allows.
    TooManySkipped,
    /// The message belongs to a receiving chain that was never established.
    OutOfOrder,
    /// There is no sending chain yet.
    NoSendingChain,
    /// The sending chain has used its last index.
    ChainExhausted,
}

/// The error of ratchet operations.
#[derive(Debug, Clone, PartialEq, Eq, Structural)]
pub struct RatchetError {
    pub kind: ErrorKind,
}

/// The text of an error.
pub open spec fn error_text(kind: ErrorKind) -> Seq<char> {
    match kind {
        ErrorKind::Malformed => "malformed ratchet message"@,
        ErrorKind::Decrypt => "ratchet message failed authentication"@,
        ErrorKind::TooManySkipped => "message too far ahead (skip limit exceeded)"@,
        ErrorKind::OutOfOrder => "message out of order (missing receiving chain)"@,
        ErrorKind::NoSendingChain => "encrypt called before a sending chain exists"@,
        ErrorKind::ChainExhausted => "sending chain exhausted (2^32 messages; re-handshake)"@,
    }
}

impl RatchetError {
    pub fn new(kind: ErrorKind) -> (r: Self)
        ensures
            r.kind == kind,
    {
        RatchetError { kind }
    }

    /// Whether the message was too far ahead of the receiving chain.
    pub fn is_too_many_skipped(&self) -> (r: bool)
        ensures
            r == (self.kind == ErrorKind::TooManySkipped),
    {
        self.kind == ErrorKind::TooManySkipped
    }

    /// Whether the message failed authentication.
    pub fn is_authentication_failure(&self) -> (r: bool)
        ensures
            r == (self.kind == ErrorKind::Decrypt),
    {
        self.kind == ErrorKind::Decrypt
    }

    /// Whether there was no sending chain to encrypt on.
    pub fn is_no_sending_chain(&self) -> (r: bool)
        ensures
            r == (self.kind == ErrorKind::NoSendingChain),
    {
        self.kind == ErrorKind::NoSendingChain
    }

    /// Whether the sending chain has run out of indices.
    pub fn is_chain_exhausted(&self) -> (r: bool)
        ensures
            r == (self.kind == ErrorKind::ChainExhausted),
    {
        self.kind == ErrorKind::ChainExhausted
    }

    /// The error in words.
    pub fn to_string(&self) -> (r: String)
        ensures
            r@ == error_text(self.kind),
    {
        let text = match self.kind {
            ErrorKind::Malformed => "malformed ratchet message",
            ErrorKind::Decrypt => "ratchet message failed authentication",
            ErrorKind::TooManySkipped => "message too far ahead (skip limit exceeded)",
            ErrorKind::OutOfOrder => "message out of order (missing receiving chain)",
            ErrorKind::NoSendingChain => "encrypt called before a sending chain exists",
            ErrorKind::ChainExhausted => "sending chain exhausted (2^32 messages; re-handshake)",
        };
        text.to_owned()
    }
}

// ---------------------------------------------------------------------------
// The header
// ---------------------------------------------------------------------------

/// The header in front of every ciphertext.
#[derive(Debug, Clone, Copy, PartialEq, Eq)]
pub struct Header {
    /// The sender's current ratchet key.
    pub dh: [u8; 32],
    /// How many messages the sender's previous chain had.
    pub pn: u32,
    /// The index of this message in the current chain.
    pub n: u32,
}

/// The bytes of a header. They are the associated data of the ciphertext, too.
pub open spec fn header_bytes(dh: Seq<u8>, pn: int, n: int) -> Seq<u8> {
    dh + bytes::be32(pn) + bytes::be32(n)
}

/// The ratchet key that a message names.
pub open spec fn wire_dh(wire: Seq<u8>) -> Seq<u8> {
    wire.subrange(0, 32)
}

/// The length of the previous chain that a message names.
pub open spec fn wire_pn(wire: Seq<u8>) -> int {
    bytes::from_be32(wire.subrange(32, 36))
}

/// The index that a message names.
pub open spec fn wire_n(wire: Seq<u8>) -> int {
    bytes::from_be32(wire.subrange(36, 40))
}

/// A message that starts with a header names what the header was made of.
pub proof fn lemma_header(dh: Seq<u8>, pn: int, n: int, rest: Seq<u8>)
    requires
        dh.len() == 32,
        0 <= pn <= u32::MAX,
        0 <= n <= u32::MAX,
    ensures
        header_bytes(dh, pn, n).len() == HEADER_LEN,
        ({
            let wire = header_bytes(dh, pn, n) + rest;
            &&& wire_dh(wire) == dh
            &&& wire_pn(wire) == pn
            &&& wire_n(wire) == n
            &&& wire.subrange(0, 40) == header_bytes(dh, pn, n)
            &&& wire.subrange(40, wire.len() as int) == rest
        }),
{
    bytes::lemma_be32(pn, bytes::zeros(4));
    bytes::lemma_be32(n, bytes::zeros(4));
    let wire = header_bytes(dh, pn, n) + rest;
    assert(wire_dh(wire) =~= dh);
    assert(wire.subrange(32, 36) =~= bytes::be32(pn));
    assert(wire.subrange(36, 40) =~= bytes::be32(n));
    assert(wire.subrange(0, 40) =~= header_bytes(dh, pn, n));
    assert(wire.subrange(40, wire.len() as int) =~= rest);
}

impl Header {
    /// The 40 bytes of the header.
    pub fn encode(&self) -> (r: [u8; HEADER_LEN])
        ensures
            r@ == header_bytes(self.dh@, self.pn as int, self.n as int),
    {
        let mut out: Vec<u8> = Vec::new();
        out.extend_from_slice(self.dh.as_slice());
        bytes::put_be32(&mut out, self.pn);
        bytes::put_be32(&mut out, self.n);
        proof {
            lemma_header(self.dh@, self.pn as int, self.n as int, Seq::empty());
            assert(out@ =~= header_bytes(self.dh@, self.pn as int, self.n as int));
            assert(out@.subrange(0, 40) =~= out@);
        }
        bytes::take::<HEADER_LEN>(out.as_slice(), 0)
    }

    /// Reads the header in front of a message. A message that is too short for
    /// one is malformed.
    pub fn decode(bytes: &[u8]) -> (r: Result<Header, RatchetError>)
        ensures
            match r {
                Ok(h) => {
                    &&& bytes@.len() >= HEADER_LEN
                    &&& h.dh@ == wire_dh(bytes@)
                    &&& h.pn == wire_pn(bytes@)
                    &&& h.n == wire_n(bytes@)
                },
                Err(e) => bytes@.len() < HEADER_LEN && e.kind == ErrorKind::Malformed,
            },
    {
        if bytes.len() < HEADER_LEN {
            return Err(RatchetError::new(ErrorKind::Malformed));
        }
        let dh = bytes::take::<32>(bytes, 0);
        let pn: u32 = bytes::get_be32(bytes, 32);
        let n: u32 = bytes::get_be32(bytes, 36);
        Ok(Header { dh, pn, n })
    }
}

// ---------------------------------------------------------------------------
// Keys
// ---------------------------------------------------------------------------

/// The root key and the chain key that come of a root key and an agreed secret.
pub open spec fn root_step(rk: Seq<u8>, dh_out: Seq<u8>) -> (Seq<u8>, Seq<u8>) {
    let okm = crypto::hkdf_sha256(Some(rk), dh_out, KDF_RK_INFO.spec_bytes(), 64);
    (okm.subrange(0, 32), okm.subrange(32, 64))
}

/// The chain key that follows `ck`.
pub open spec fn next_chain_key(ck: Seq<u8>) -> Seq<u8> {
    crypto::hkdf_expand_sha256(ck, seq![2u8], 32)
}

/// The message key at `ck`.
pub open spec fn message_key(ck: Seq<u8>) -> Seq<u8> {
    crypto::hkdf_expand_sha256(ck, seq![1u8], 32)
}

/// The chain key `steps` steps after `ck`.
pub open spec fn chain_key(ck: Seq<u8>, steps: nat) -> Seq<u8>
    decreases steps,
{
    if steps == 0 {
        ck
    } else {
        next_chain_key(chain_key(ck, (steps - 1) as nat))
    }
}

/// The key and the nonce under which a message key encrypts.
pub open spec fn cipher_keys(mk: Seq<u8>) -> (Seq<u8>, Seq<u8>) {
    let okm = crypto::hkdf_sha256(Some(bytes::zeros(32)), mk, KDF_MK_INFO.spec_bytes(), 44);
    (okm.subrange(0, 32), okm.subrange(32, 44))
}

/// The ciphertext of `plaintext` under a message key.
pub open spec fn seal_message(mk: Seq<u8>, aad: Seq<u8>, plaintext: Seq<u8>) -> Seq<u8> {
    crypto::chacha20poly1305_seal(cipher_keys(mk).0, cipher_keys(mk).1, aad, plaintext)
}

/// What a message key opens a ciphertext to, if the tag is right.
pub open spec fn open_message(mk: Seq<u8>, aad: Seq<u8>, ciphertext: Seq<u8>) -> Option<Seq<u8>> {
    crypto::chacha20poly1305_open(cipher_keys(mk).0, cipher_keys(mk).1, aad, ciphertext)
}

/// The next root key, and a chain key. The root key is the salt, so that the
/// result is strong even where the agreed secret is weak.
fn kdf_rk(rk: &Secret, dh_out: &Secret) -> (r: (Secret, Secret))
    ensures
        (r.0@, r.1@) == root_step(rk@, dh_out@),
{
    let mut okm = crypto::hkdf::<64>(
        Some(rk.bytes.as_slice()),
        dh_out.bytes.as_slice(),
        KDF_RK_INFO.as_bytes(),
    );
    let new_rk = Secret::new(bytes::take::<32>(okm.as_slice(), 0));
    let ck = Secret::new(bytes::take::<32>(okm.as_slice(), 32));
    crypto::wipe(&mut okm);
    (new_rk, ck)
}

/// The next chain key, and the message key.
fn kdf_ck(ck: &Secret) -> (r: (Secret, Secret))
    ensures
        r.0@ == next_chain_key(ck@),
        r.1@ == message_key(ck@),
{
    let mk = Secret::new(crypto::hkdf_expand::<32>(&ck.bytes, [1u8].as_slice()));
    let next_ck = Secret::new(crypto::hkdf_expand::<32>(&ck.bytes, [2u8].as_slice()));
    assert([1u8]@ =~= seq![1u8]);
    assert([2u8]@ =~= seq![2u8]);
    (next_ck, mk)
}

/// The key and the nonce of a message. Every message key is used once, so no
/// pair of them comes twice.
fn derive_message_keys(mk: &Secret) -> (r: (Secret, [u8; 12]))
    ensures
        (r.0@, r.1@) == cipher_keys(mk@),
{
    let salt = [0u8; 32];
    assert(salt@ =~= bytes::zeros(32));
    let mut okm = crypto::hkdf::<44>(
        Some(salt.as_slice()),
        mk.bytes.as_slice(),
        KDF_MK_INFO.as_bytes(),
    );
    let key = Secret::new(bytes::take::<32>(okm.as_slice(), 0));
    let nonce = bytes::take::<12>(okm.as_slice(), 32);
    crypto::wipe(&mut okm);
    (key, nonce)
}

/// Encrypts under a message key. Fails only on a plaintext beyond the reach of
/// the cipher's block counter.
fn aead_encrypt(mk: &Secret, aad: &[u8], plaintext: &[u8]) -> (r: Result<Vec<u8>, RatchetError>)
    ensures
        match r {
            Ok(c) => {
                &&& crypto::aead_fits(plaintext@.len())
                &&& c@ == seal_message(mk@, aad@, plaintext@)
                &&& c@.len() == plaintext@.len() + crypto::TAG_LEN
                &&& open_message(mk@, aad@, c@) == Some(plaintext@)
            },
            Err(e) => !crypto::aead_fits(plaintext@.len()) && e.kind == ErrorKind::Decrypt,
        },
{
    let (key, nonce) = derive_message_keys(mk);
    match crypto::seal(&key.bytes, &nonce, aad, plaintext) {
        Some(c) => Ok(c),
        None => Err(RatchetError::new(ErrorKind::Decrypt)),
    }
}

/// Decrypts under a message key. A wrong tag is an authentication failure.
fn aead_decrypt(mk: &Secret, aad: &[u8], ciphertext: &[u8]) -> (r: Result<Vec<u8>, RatchetError>)
    ensures
        match r {
            Ok(p) => open_message(mk@, aad@, ciphertext@) == Some(p@),
            Err(e) => open_message(mk@, aad@, ciphertext@) is None && e.kind == ErrorKind::Decrypt,
        },
{
    let (key, nonce) = derive_message_keys(mk);
    match crypto::open(&key.bytes, &nonce, aad, ciphertext) {
        Some(p) => Ok(p),
        None => Err(RatchetError::new(ErrorKind::Decrypt)),
    }
}

// ---------------------------------------------------------------------------
// Skipped message keys
// ---------------------------------------------------------------------------

/// A message key kept for a message that has not arrived yet.
pub struct SkippedKey {
    /// The ratchet key of the chain.
    pub dh: [u8; 32],
    /// The index in the chain.
    pub n: u32,
    /// The message key.
    pub mk: Secret,
}

/// A skipped message key, as contracts see it.
pub struct SkippedModel {
    pub dh: Seq<u8>,
    pub n: int,
    pub mk: Seq<u8>,
}

impl View for SkippedKey {
    type V = SkippedModel;

    open spec fn view(&self) -> SkippedModel {
        SkippedModel { dh: self.dh@, n: self.n as int, mk: self.mk@ }
    }
}

impl Clone for SkippedKey {
    fn clone(&self) -> (r: Self)
        ensures
            r@ == self@,
    {
        SkippedKey { dh: self.dh, n: self.n, mk: self.mk.clone() }
    }
}

/// The elements of a sequence of skipped keys, as contracts see them.
pub open spec fn skipped_view(keys: Seq<SkippedKey>) -> Seq<SkippedModel> {
    keys.map_values(|k: SkippedKey| k@)
}

/// Where the key of message `n` of the chain `dh` stands, or -1.
pub open spec fn key_index(keys: Seq<SkippedModel>, dh: Seq<u8>, n: int) -> int
    decreases keys.len(),
{
    if keys.len() == 0 {
        -1
    } else if keys.last().dh == dh && keys.last().n == n {
        keys.len() - 1
    } else {
        key_index(keys.drop_last(), dh, n)
    }
}

/// The key of message `n` of the chain `dh`, if it is kept.
pub open spec fn find_key(keys: Seq<SkippedModel>, dh: Seq<u8>, n: int) -> Option<Seq<u8>> {
    let i = key_index(keys, dh, n);
    if i >= 0 {
        Some(keys[i].mk)
    } else {
        None
    }
}

/// The keys without that of message `n` of the chain `dh`.
pub open spec fn drop_key(keys: Seq<SkippedModel>, dh: Seq<u8>, n: int) -> Seq<SkippedModel> {
    let i = key_index(keys, dh, n);
    if i >= 0 {
        keys.remove(i)
    } else {
        keys
    }
}

/// The keys after `key` came in: a full store loses the key that came first,
/// and `key` takes the place of an earlier one for the same message.
pub open spec fn add_key(keys: Seq<SkippedModel>, key: SkippedModel) -> Seq<SkippedModel> {
    let kept = if keys.len() >= MAX_SKIP_STORE {
        keys.drop_first()
    } else {
        keys
    };
    drop_key(kept, key.dh, key.n).push(key)
}

/// The keys after all of `new` came in, one after the other.
pub open spec fn add_keys(keys: Seq<SkippedModel>, new: Seq<SkippedModel>) -> Seq<SkippedModel>
    decreases new.len(),
{
    if new.len() == 0 {
        keys
    } else {
        add_key(add_keys(keys, new.drop_last()), new.last())
    }
}

/// No message has two keys.
pub open spec fn keys_distinct(keys: Seq<SkippedModel>) -> bool {
    forall|i: int, j: int|
        #![trigger keys[i], keys[j]]
        0 <= i < j < keys.len() ==> !(keys[i].dh == keys[j].dh && keys[i].n == keys[j].n)
}

/// What `key_index` finds is the key asked for, and where it finds none there
/// is none.
pub proof fn lemma_key_index(keys: Seq<SkippedModel>, dh: Seq<u8>, n: int)
    ensures
        -1 <= key_index(keys, dh, n) < keys.len(),
        key_index(keys, dh, n) >= 0 ==> keys[key_index(keys, dh, n)].dh == dh && keys[key_index(keys, dh, n)].n == n,
        forall|i: int|
            #![trigger keys[i]]
            key_index(keys, dh, n) < i < keys.len() ==> !(keys[i].dh == dh && keys[i].n == n),
    decreases keys.len(),
{
    if keys.len() > 0 && !(keys.last().dh == dh && keys.last().n == n) {
        lemma_key_index(keys.drop_last(), dh, n);
        assert forall|i: int|
            #![trigger keys[i]]
            key_index(keys, dh, n) < i < keys.len() implies !(keys[i].dh == dh && keys[i].n == n) by {
            if i < keys.len() - 1 {
                assert(keys.drop_last()[i] == keys[i]);
            }
        }
    }
}

/// Adding a key keeps the store within its bound, without doubles.
pub proof fn lemma_add_key(keys: Seq<SkippedModel>, key: SkippedModel)
    requires
        keys_distinct(keys),
        keys.len() <= MAX_SKIP_STORE,
    ensures
        keys_distinct(add_key(keys, key)),
        1 <= add_key(keys, key).len() <= MAX_SKIP_STORE,
{
    let kept = if keys.len() >= MAX_SKIP_STORE {
        keys.drop_first()
    } else {
        keys
    };
    assert(keys_distinct(kept)) by {
        assert forall|i: int, j: int| #![trigger kept[i], kept[j]] 0 <= i < j < kept.len() implies !(kept[i].dh
            == kept[j].dh && kept[i].n == kept[j].n) by {
            if keys.len() >= MAX_SKIP_STORE {
                assert(kept[i] == keys[i + 1] && kept[j] == keys[j + 1]);
            }
        }
    }
    lemma_key_index(kept, key.dh, key.n);
    let at = key_index(kept, key.dh, key.n);
    let rest = drop_key(kept, key.dh, key.n);
    assert forall|i: int| 0 <= i < rest.len() implies !((#[trigger] rest[i]).dh == key.dh && rest[i].n == key.n) by {
        if at >= 0 {
            let k = if i < at {
                i
            } else {
                i + 1
            };
            assert(rest[i] == kept[k]);
            assert(kept[at].dh == key.dh);
        } else {
            assert(rest[i] == kept[i]);
        }
    }
    let out = add_key(keys, key);
    assert forall|i: int, j: int| #![trigger out[i], out[j]] 0 <= i < j < out.len() implies !(out[i].dh == out[j].dh
        && out[i].n == out[j].n) by {
        if j == out.len() - 1 {
            assert(out[i] == rest[i]);
        } else if at >= 0 {
            let ki = if i < at {
                i
            } else {
                i + 1
            };
            let kj = if j < at {
                j
            } else {
                j + 1
            };
            assert(out[i] == kept[ki] && out[j] == kept[kj]);
        } else {
            assert(out[i] == kept[i] && out[j] == kept[j]);
        }
    }
}

/// A bounded store of skipped message keys, oldest first.
pub struct SkippedKeys {
    keys: Vec<SkippedKey>,
}

impl View for SkippedKeys {
    type V = Seq<SkippedModel>;

    closed spec fn view(&self) -> Seq<SkippedModel> {
        skipped_view(self.keys@)
    }
}

impl SkippedKeys {
    /// No message has two keys, and there are no more than fit.
    pub open spec fn wf(&self) -> bool {
        keys_distinct(self@) && self@.len() <= MAX_SKIP_STORE
    }

    /// An empty store.
    pub fn new() -> (r: Self)
        ensures
            r@ == Seq::<SkippedModel>::empty(),
            r.wf(),
    {
        let r = SkippedKeys { keys: Vec::new() };
        assert(r@ =~= Seq::<SkippedModel>::empty());
        r
    }

    /// How many keys are kept.
    pub fn len(&self) -> (r: usize)
        ensures
            r == self@.len(),
    {
        self.keys.len()
    }

    /// Where the key of message `n` of the chain `dh` stands.
    fn position(&self, dh: &[u8; 32], n: u32) -> (r: Option<usize>)
        ensures
            match r {
                Some(i) => i == key_index(self@, dh@, n as int) && i < self@.len(),
                None => key_index(self@, dh@, n as int) < 0,
            },
    {
        let mut i: usize = self.keys.len();
        assert(self@.take(i as int) =~= self@);
        while i > 0
            invariant
                i <= self@.len(),
                self@.len() == self.keys@.len(),
                key_index(self@.take(i as int), dh@, n as int) == key_index(self@, dh@, n as int),
            decreases i,
        {
            i -= 1;
            let ghost before = self@.take(i + 1);
            assert(before.last() == self.keys@[i as int]@);
            assert(before.drop_last() =~= self@.take(i as int));
            if self.keys[i].n == n && bytes::same_bytes(self.keys[i].dh.as_slice(), dh.as_slice()) {
                return Some(i);
            }
        }
        None
    }

    /// Takes a key in.
    pub fn insert(&mut self, dh: [u8; 32], n: u32, mk: Secret)
        requires
            old(self).wf(),
        ensures
            final(self)@ == add_key(old(self)@, SkippedModel { dh: dh@, n: n as int, mk: mk@ }),
            final(self).wf(),
    {
        let ghost key = SkippedModel { dh: dh@, n: n as int, mk: mk@ };
        proof {
            lemma_add_key(self@, key);
        }
        let ghost before = self@;
        if self.keys.len() >= MAX_SKIP_STORE {
            self.keys.remove(0);
            assert(self@ =~= before.drop_first());
        }
        let ghost kept = self@;
        match self.position(&dh, n) {
            Some(i) => {
                self.keys.remove(i);
                assert(self@ =~= kept.remove(i as int));
            },
            None => {},
        }
        let ghost rest = self@;
        self.keys.push(SkippedKey { dh, n, mk });
        assert(self@ =~= rest.push(key));
    }

    /// The key of message `n` of the chain `dh`. It stays in the store: a forged
    /// message for the same index must not use it up.
    pub fn peek(&self, dh: &[u8; 32], n: u32) -> (r: Option<&Secret>)
        ensures
            match r {
                Some(mk) => find_key(self@, dh@, n as int) == Some(mk@),
                None => find_key(self@, dh@, n as int) is None,
            },
    {
        match self.position(dh, n) {
            Some(i) => Some(&self.keys[i].mk),
            None => None,
        }
    }

    /// Takes the key of message `n` of the chain `dh` out.
    pub fn remove(&mut self, dh: &[u8; 32], n: u32) -> (r: Option<Secret>)
        requires
            old(self).wf(),
        ensures
            final(self)@ == drop_key(old(self)@, dh@, n as int),
            final(self).wf(),
            match r {
                Some(mk) => find_key(old(self)@, dh@, n as int) == Some(mk@),
                None => find_key(old(self)@, dh@, n as int) is None,
            },
    {
        let ghost before = self@;
        match self.position(dh, n) {
            Some(i) => {
                let key = self.keys.remove(i);
                assert(self@ =~= before.remove(i as int));
                assert forall|a: int, b: int| #![trigger self@[a], self@[b]] 0 <= a < b < self@.len() implies !(
                self@[a].dh == self@[b].dh && self@[a].n == self@[b].n) by {
                    let ka = if a < i {
                        a
                    } else {
                        a + 1
                    };
                    let kb = if b < i {
                        b
                    } else {
                        b + 1
                    };
                    assert(self@[a] == before[ka] && self@[b] == before[kb]);
                }
                Some(key.mk)
            },
            None => None,
        }
    }
}

/// How far `until` lies ahead of `from`.
pub open spec fn gap(from: int, until: int) -> nat {
    if until > from {
        (until - from) as nat
    } else {
        0
    }
}

/// The keys of `count` messages of the chain `dh` from index `from` on, where
/// the chain key is `ck`.
pub open spec fn skipped_run(dh: Seq<u8>, from: int, ck: Seq<u8>, count: nat) -> Seq<SkippedModel> {
    Seq::new(count, |i: int| SkippedModel { dh, n: from + i, mk: message_key(chain_key(ck, i as nat)) })
}

/// Moves a receiving chain from index `nr` on to `until`, keeping the message
/// keys on the way in `banked`. Each costs one of `budget`; where that is too
/// little, nothing is derived.
fn skip_forward(
    ck: &mut Secret,
    nr: &mut u32,
    until: u32,
    dh: &[u8; 32],
    banked: &mut Vec<SkippedKey>,
    budget: &mut u32,
) -> (r: Result<(), RatchetError>)
    ensures
        ({
            let needed = gap(*old(nr) as int, until as int);
            match r {
                Ok(_) => {
                    &&& needed <= *old(budget)
                    &&& final(ck)@ == chain_key(old(ck)@, needed)
                    &&& *final(nr) == *old(nr) + needed
                    &&& *final(budget) == *old(budget) - needed
                    &&& skipped_view(final(banked)@) == skipped_view(old(banked)@) + skipped_run(
                        dh@,
                        *old(nr) as int,
                        old(ck)@,
                        needed,
                    )
                },
                Err(e) => needed > *old(budget) && e.kind == ErrorKind::TooManySkipped,
            }
        }),
{
    let ghost from = *nr as int;
    let ghost start = ck@;
    let ghost before = skipped_view(banked@);
    if until <= *nr {
        assert(before + skipped_run(dh@, from, start, 0) =~= before);
        return Ok(());
    }
    let needed: u32 = until - *nr;
    if needed > *budget {
        return Err(RatchetError::new(ErrorKind::TooManySkipped));
    }
    let ghost allowed = *budget;
    let mut done: u32 = 0;
    assert(before + skipped_run(dh@, from, start, 0) =~= before);
    while done < needed
        invariant
            done <= needed,
            needed == until - from,
            needed <= allowed,
            *nr == from + done,
            *budget == allowed - done,
            ck@ == chain_key(start, done as nat),
            skipped_view(banked@) == before + skipped_run(dh@, from, start, done as nat),
        decreases needed - done,
    {
        let (next_ck, mk) = kdf_ck(ck);
        let ghost kept = skipped_view(banked@);
        banked.push(SkippedKey { dh: *dh, n: *nr, mk });
        *ck = next_ck;
        *nr = *nr + 1;
        *budget = *budget - 1;
        proof {
            assert(skipped_view(banked@) =~= kept.push(
                SkippedModel { dh: dh@, n: from + done, mk: message_key(chain_key(start, done as nat)) },
            ));
            assert(skipped_view(banked@) =~= before + skipped_run(dh@, from, start, (done + 1) as nat));
        }
        done += 1;
    }
    Ok(())
}

// ---------------------------------------------------------------------------
// The session
// ---------------------------------------------------------------------------

/// One end of a session, as contracts see it.
pub struct RatchetModel {
    /// Our ratchet secret.
    pub dhs: Seq<u8>,
    /// The peer's ratchet key, once known.
    pub dhr: Option<Seq<u8>>,
    /// The root key.
    pub rk: Seq<u8>,
    /// The sending chain key, once there is a sending chain.
    pub cks: Option<Seq<u8>>,
    /// The receiving chain key, once there is a receiving chain.
    pub ckr: Option<Seq<u8>>,
    /// How many messages were sent on the sending chain.
    pub ns: int,
    /// The next index of the receiving chain.
    pub nr: int,
    /// How many messages the previous sending chain had.
    pub pn: int,
    /// The keys of messages that were skipped.
    pub skipped: Seq<SkippedModel>,
}

/// What holds of every end of a session.
pub open spec fn valid(m: RatchetModel) -> bool {
    &&& m.dhs.len() == 32
    &&& crypto::x25519_public(m.dhs).len() == 32
    &&& 0 <= m.ns <= u32::MAX
    &&& 0 <= m.nr <= u32::MAX
    &&& 0 <= m.pn <= u32::MAX
    &&& m.skipped.len() <= MAX_SKIP_STORE
    &&& keys_distinct(m.skipped)
    &&& m.ckr is Some ==> m.dhr is Some
    &&& m.ckr is None ==> m.nr == 0
    &&& m.cks is Some ==> m.dhr is Some && crypto::agreement_commutes(m.dhs, m.dhr->0)
}

/// The initiator of a session: it knows the responder's ratchet key, and can
/// send at once.
pub open spec fn alice_model(secret: Seq<u8>, shared_root: Seq<u8>, bob_public: Seq<u8>) -> RatchetModel {
    let (rk, cks) = root_step(shared_root, crypto::x25519_shared(secret, bob_public));
    RatchetModel {
        dhs: secret,
        dhr: Some(bob_public),
        rk,
        cks: Some(cks),
        ckr: None,
        ns: 0,
        nr: 0,
        pn: 0,
        skipped: Seq::empty(),
    }
}

/// The responder of a session: it has to receive before it can send.
pub open spec fn bob_model(secret: Seq<u8>, shared_root: Seq<u8>) -> RatchetModel {
    RatchetModel {
        dhs: secret,
        dhr: None,
        rk: shared_root,
        cks: None,
        ckr: None,
        ns: 0,
        nr: 0,
        pn: 0,
        skipped: Seq::empty(),
    }
}

/// The header of the next message.
pub open spec fn next_header(m: RatchetModel) -> Seq<u8> {
    header_bytes(crypto::x25519_public(m.dhs), m.pn, m.ns)
}

/// Encrypting: the message on the wire and the state afterwards, or why not.
pub open spec fn encrypt_step(m: RatchetModel, plaintext: Seq<u8>) -> Result<(Seq<u8>, RatchetModel), ErrorKind> {
    if m.ns == u32::MAX {
        Err(ErrorKind::ChainExhausted)
    } else {
        match m.cks {
            None => Err(ErrorKind::NoSendingChain),
            Some(ck) => Ok(
                (
                    next_header(m) + seal_message(message_key(ck), next_header(m), plaintext),
                    RatchetModel { cks: Some(next_chain_key(ck)), ns: m.ns + 1, ..m },
                ),
            ),
        }
    }
}

/// Whether a message starts a receiving chain that we have not seen.
pub open spec fn is_new_chain(m: RatchetModel, wire: Seq<u8>) -> bool {
    m.dhr != Some(wire_dh(wire))
}

/// The rest of the receiving chain that a message on a new chain makes us
/// derive: what its sender says it sent there and we have not received.
pub open spec fn flushed(m: RatchetModel, wire: Seq<u8>) -> Seq<SkippedModel> {
    match (m.dhr, m.ckr) {
        (Some(dhr), Some(ck)) => skipped_run(dhr, m.nr, ck, gap(m.nr, wire_pn(wire))),
        _ => Seq::empty(),
    }
}

/// The session after its Diffie-Hellman step to the chain of a message, with
/// `fresh` as our next ratchet secret. The receiving chain stands at its start.
pub open spec fn ratchet_step(m: RatchetModel, wire: Seq<u8>, fresh: Seq<u8>) -> RatchetModel {
    let dh = wire_dh(wire);
    let (rk_recv, ckr) = root_step(m.rk, crypto::x25519_shared(m.dhs, dh));
    let (rk_send, cks) = root_step(rk_recv, crypto::x25519_shared(fresh, dh));
    RatchetModel {
        dhs: fresh,
        dhr: Some(dh),
        rk: rk_send,
        cks: Some(cks),
        ckr: Some(ckr),
        ns: 0,
        nr: 0,
        pn: m.ns,
        skipped: m.skipped,
    }
}

/// Receiving on the established chain of `m`: the gap up to the message is
/// banked behind `banked`, within what is left of the budget.
pub open spec fn receive(m: RatchetModel, wire: Seq<u8>, banked: Seq<SkippedModel>) -> Result<
    (Seq<u8>, RatchetModel),
    ErrorKind,
> {
    let needed = gap(m.nr, wire_n(wire));
    if needed > MAX_SKIP - banked.len() {
        Err(ErrorKind::TooManySkipped)
    } else {
        let ck = chain_key(m.ckr->0, needed);
        match open_message(message_key(ck), wire.subrange(0, 40), wire.subrange(40, wire.len() as int)) {
            None => Err(ErrorKind::Decrypt),
            Some(plaintext) => Ok(
                (
                    plaintext,
                    RatchetModel {
                        ckr: Some(next_chain_key(ck)),
                        nr: (wire_n(wire) + 1) % 0x1_0000_0000,
                        skipped: add_keys(
                            m.skipped,
                            banked + skipped_run(wire_dh(wire), m.nr, m.ckr->0, needed),
                        ),
                        ..m
                    },
                ),
            ),
        }
    }
}

/// Decrypting: the plaintext and the state afterwards, or why not. `fresh` is
/// the ratchet secret to go on with if the message starts a new chain.
pub open spec fn decrypt_step(m: RatchetModel, wire: Seq<u8>, fresh: Seq<u8>) -> Result<
    (Seq<u8>, RatchetModel),
    ErrorKind,
> {
    if wire.len() < HEADER_LEN {
        Err(ErrorKind::Malformed)
    } else {
        match find_key(m.skipped, wire_dh(wire), wire_n(wire)) {
            Some(mk) => match open_message(
                mk,
                wire.subrange(0, 40),
                wire.subrange(40, wire.len() as int),
            ) {
                None => Err(ErrorKind::Decrypt),
                Some(plaintext) => Ok(
                    (
                        plaintext,
                        RatchetModel {
                            skipped: drop_key(m.skipped, wire_dh(wire), wire_n(wire)),
                            ..m
                        },
                    ),
                ),
            },
            None => if is_new_chain(m, wire) {
                if gap(m.nr, wire_pn(wire)) > MAX_SKIP {
                    Err(ErrorKind::TooManySkipped)
                } else {
                    receive(ratchet_step(m, wire, fresh), wire, flushed(m, wire))
                }
            } else if m.ckr is None {
                Err(ErrorKind::OutOfOrder)
            } else {
                receive(m, wire, Seq::empty())
            },
        }
    }
}

/// Whether a message would, if it is genuine, make us draw a fresh ratchet
/// secret: it starts a new chain, and its key is not among the skipped ones.
pub open spec fn wants_fresh(m: RatchetModel, wire: Seq<u8>) -> bool {
    &&& wire.len() >= HEADER_LEN
    &&& find_key(m.skipped, wire_dh(wire), wire_n(wire)) is None
    &&& is_new_chain(m, wire)
}

/// One end of a double-ratchet session.
///
/// The initiator starts with `init_alice` and may send at once. The responder
/// starts with `init_bob` and may send once it has decrypted the initiator's
/// first message.
pub struct DoubleRatchet {
    dhs: Secret,
    dhs_pub: [u8; 32],
    dhr: Option<[u8; 32]>,
    rk: Secret,
    cks: Option<Secret>,
    ckr: Option<Secret>,
    /// How many messages were sent on the current sending chain.
    pub ns: u32,
    nr: u32,
    pn: u32,
    skipped: SkippedKeys,
}

/// The bytes of an optional secret.
pub open spec fn opt_secret(s: Option<Secret>) -> Option<Seq<u8>> {
    match s {
        Some(k) => Some(k@),
        None => None,
    }
}

/// The bytes of an optional key.
pub open spec fn opt_key(s: Option<[u8; 32]>) -> Option<Seq<u8>> {
    match s {
        Some(k) => Some(k@),
        None => None,
    }
}

impl View for DoubleRatchet {
    type V = RatchetModel;

    closed spec fn view(&self) -> RatchetModel {
        RatchetModel {
            dhs: self.dhs@,
            dhr: opt_key(self.dhr),
            rk: self.rk@,
            cks: opt_secret(self.cks),
            ckr: opt_secret(self.ckr),
            ns: self.ns as int,
            nr: self.nr as int,
            pn: self.pn as int,
            skipped: self.skipped@,
        }
    }
}

impl Clone for DoubleRatchet {
    /// A faithful, independent copy.
    fn clone(&self) -> (r: Self)
        ensures
            r@ == self@,
            self.wf() ==> r.wf(),
    {
        DoubleRatchet {
            dhs: self.dhs.clone(),
            dhs_pub: self.dhs_pub,
            dhr: self.dhr,
            rk: self.rk.clone(),
            cks: clone_opt(&self.cks),
            ckr: clone_opt(&self.ckr),
            ns: self.ns,
            nr: self.nr,
            pn: self.pn,
            skipped: self.skipped.clone(),
        }
    }
}

/// A copy of an optional secret.
fn clone_opt(s: &Option<Secret>) -> (r: Option<Secret>)
    ensures
        opt_secret(r) == opt_secret(*s),
{
    match s {
        Some(k) => Some(k.clone()),
        None => None,
    }
}

impl Clone for SkippedKeys {
    fn clone(&self) -> (r: Self)
        ensures
            r@ == self@,
    {
        let mut keys: Vec<SkippedKey> = Vec::new();
        let mut i: usize = 0;
        while i < self.keys.len()
            invariant
                i <= self.keys@.len(),
                skipped_view(keys@) == skipped_view(self.keys@).take(i as int),
            decreases self.keys.len() - i,
        {
            let ghost before = skipped_view(keys@);
            let key = self.keys[i].clone();
            keys.push(key);
            assert(skipped_view(keys@) =~= before.push(self.keys@[i as int]@));
            i += 1;
            assert(skipped_view(keys@) =~= skipped_view(self.keys@).take(i as int));
        }
        let r = SkippedKeys { keys };
        assert(r@ =~= self@);
        r
    }
}

impl DoubleRatchet {
    /// What holds of every ratchet: the model is valid, and the public key at
    /// hand is the one that belongs to our secret.
    pub closed spec fn wf(&self) -> bool {
        &&& valid(self@)
        &&& self.dhs_pub@ == crypto::x25519_public(self.dhs@)
    }

    /// A well-formed ratchet has a valid model.
    pub proof fn lemma_wf(&self)
        requires
            self.wf(),
        ensures
            valid(self@),
    {
    }

    /// The initiator's end, from a secret drawn beforehand.
    pub fn init_alice_with(secret: Secret, shared_root: [u8; 32], bob_ratchet_public: [u8; 32]) -> (r: Self)
        ensures
            r@ == alice_model(secret@, shared_root@, bob_ratchet_public@),
            r.wf(),
    {
        let dhs_pub = crypto::public_key(&secret.bytes);
        let root = Secret::new(shared_root);
        let dh_out = crypto::agree(&secret.bytes, &bob_ratchet_public);
        let (rk, cks) = kdf_rk(&root, &dh_out);
        DoubleRatchet {
            dhs: secret,
            dhs_pub,
            dhr: Some(bob_ratchet_public),
            rk,
            cks: Some(cks),
            ckr: None,
            ns: 0,
            nr: 0,
            pn: 0,
            skipped: SkippedKeys::new(),
        }
    }

    /// The initiator's end: it holds the responder's ratchet key and has a
    /// sending chain from the start.
    pub fn init_alice(shared_root: [u8; 32], bob_ratchet_public: [u8; 32]) -> (r: Self)
        ensures
            r@ == alice_model(r@.dhs, shared_root@, bob_ratchet_public@),
            r.wf(),
    {
        Self::init_alice_with(crypto::random_secret(), shared_root, bob_ratchet_public)
    }

    /// The responder's end, from a secret drawn beforehand, and its ratchet key.
    pub fn init_bob_with(secret: Secret, shared_root: [u8; 32]) -> (r: (Self, [u8; 32]))
        ensures
            r.0@ == bob_model(secret@, shared_root@),
            r.1@ == crypto::x25519_public(secret@),
            r.0.wf(),
    {
        let dhs_pub = crypto::public_key(&secret.bytes);
        let ratchet = DoubleRatchet {
            dhs: secret,
            dhs_pub,
            dhr: None,
            rk: Secret::new(shared_root),
            cks: None,
            ckr: None,
            ns: 0,
            nr: 0,
            pn: 0,
            skipped: SkippedKeys::new(),
        };
        (ratchet, dhs_pub)
    }

    /// The responder's end, and its ratchet key, which the initiator needs.
    pub fn init_bob(shared_root: [u8; 32]) -> (r: (Self, [u8; 32]))
        ensures
            r.0@ == bob_model(r.0@.dhs, shared_root@),
            r.1@ == crypto::x25519_public(r.0@.dhs),
            r.0.wf(),
    {
        Self::init_bob_with(crypto::random_secret(), shared_root)
    }

    /// Our current ratchet key. It is public.
    pub fn ratchet_public(&self) -> (r: [u8; 32])
        requires
            self.wf(),
        ensures
            r@ == crypto::x25519_public(self@.dhs),
    {
        self.dhs_pub
    }

    /// How many skipped message keys are kept.
    pub fn skipped_len(&self) -> (r: usize)
        ensures
            r == self@.skipped.len(),
    {
        self.skipped.len()
    }

    /// Encrypts a message and moves the sending chain on by one. The result is
    /// the header with the ciphertext behind it, and opens to the plaintext
    /// under the message key. With no sending chain, or at its last index, it
    /// fails and changes nothing.
    pub fn encrypt(&mut self, plaintext: &[u8]) -> (r: Result<Vec<u8>, RatchetError>)
        requires
            old(self).wf(),
            crypto::aead_fits(plaintext@.len()),
        ensures
            final(self).wf(),
            match (r, encrypt_step(old(self)@, plaintext@)) {
                (Ok(wire), Ok((out, after))) => {
                    &&& wire@ == out
                    &&& final(self)@ == after
                    &&& wire@.len() == HEADER_LEN + plaintext@.len() + crypto::TAG_LEN
                    &&& genuine(
                        crypto::x25519_public(old(self)@.dhs),
                        old(self)@.pn,
                        old(self)@.ns,
                        message_key(old(self)@.cks->0),
                        plaintext@,
                        wire@,
                    )
                },
                (Err(e), Err(kind)) => e.kind == kind && final(self)@ == old(self)@,
                _ => false,
            },
    {
        if self.ns == u32::MAX {
            return Err(RatchetError::new(ErrorKind::ChainExhausted));
        }
        let mk = self.advance_sending_chain()?;
        let header = Header { dh: self.dhs_pub, pn: self.pn, n: self.ns };
        let header_bytes = header.encode();
        self.ns = self.ns + 1;
        let ciphertext = aead_encrypt(&mk, header_bytes.as_slice(), plaintext).unwrap();
        let mut out: Vec<u8> = Vec::new();
        out.extend_from_slice(header_bytes.as_slice());
        out.extend_from_slice(ciphertext.as_slice());
        proof {
            lemma_header(header.dh@, header.pn as int, header.n as int, ciphertext@);
            assert(out@ =~= header_bytes@ + ciphertext@);
        }
        Ok(out)
    }

    /// Moves the sending chain on by one and returns the message key.
    fn advance_sending_chain(&mut self) -> (r: Result<Secret, RatchetError>)
        requires
            old(self).wf(),
        ensures
            final(self).wf(),
            final(self).ns == old(self).ns,
            final(self).pn == old(self).pn,
            final(self).dhs_pub == old(self).dhs_pub,
            match r {
                Ok(mk) => {
                    &&& old(self)@.cks is Some
                    &&& mk@ == message_key(old(self)@.cks->0)
                    &&& final(self)@ == (RatchetModel {
                        cks: Some(next_chain_key(old(self)@.cks->0)),
                        ..old(self)@
                    })
                },
                Err(e) => {
                    &&& old(self)@.cks is None
                    &&& e.kind == ErrorKind::NoSendingChain
                    &&& *final(self) == *old(self)
                },
            },
    {
        let (next_ck, mk) = match &self.cks {
            Some(ck) => kdf_ck(ck),
            None => {
                return Err(RatchetError::new(ErrorKind::NoSendingChain));
            },
        };
        self.cks = Some(next_ck);
        Ok(mk)
    }
}

/// Whether `wire` is a message that its sender made of `plaintext`: it carries
/// the header of index `n` on the chain `dh`, and opens under the message key.
pub open spec fn genuine(dh: Seq<u8>, pn: int, n: int, mk: Seq<u8>, plaintext: Seq<u8>, wire: Seq<u8>) -> bool {
    &&& wire.len() >= HEADER_LEN
    &&& wire.subrange(0, 40) == header_bytes(dh, pn, n)
    &&& wire_dh(wire) == dh
    &&& wire_pn(wire) == pn
    &&& wire_n(wire) == n
    &&& open_message(mk, wire.subrange(0, 40), wire.subrange(40, wire.len() as int)) == Some(plaintext)
}

impl DoubleRatchet {
    /// Whether opening `wire` would take a fresh ratchet secret.
    fn wants_fresh(&self, wire: &[u8]) -> (r: bool)
        requires
            self.wf(),
        ensures
            r == wants_fresh(self@, wire@),
    {
        match Header::decode(wire) {
            Ok(header) => self.skipped.peek(&header.dh, header.n).is_none() && self.is_new(&header.dh),
            Err(_) => false,
        }
    }

    /// Whether `dh` is not the ratchet key of our receiving chain.
    fn is_new(&self, dh: &[u8; 32]) -> (r: bool)
        ensures
            r == (self@.dhr != Some(dh@)),
    {
        match &self.dhr {
            Some(current) => !bytes::same_bytes(current.as_slice(), dh.as_slice()),
            None => true,
        }
    }

    /// Decrypts a message of the peer, late and skipped ones among them. If the
    /// message starts a new chain, `fresh` becomes our ratchet secret. Where
    /// it fails, nothing has changed.
    pub fn decrypt_with(&mut self, wire: &[u8], fresh: Secret) -> (r: Result<Vec<u8>, RatchetError>)
        requires
            old(self).wf(),
        ensures
            final(self).wf(),
            match (r, decrypt_step(old(self)@, wire@, fresh@)) {
                (Ok(plaintext), Ok((out, after))) => plaintext@ == out && final(self)@ == after,
                (Err(e), Err(kind)) => e.kind == kind && final(self)@ == old(self)@,
                _ => false,
            },
    {
        let header = match Header::decode(wire) {
            Ok(h) => h,
            Err(e) => {
                return Err(e);
            },
        };
        let header_bytes = vstd::slice::slice_subrange(wire, 0, HEADER_LEN);
        let ciphertext = vstd::slice::slice_subrange(wire, HEADER_LEN, wire.len());

        // A skipped message that arrives at last. Its key is used up only once
        // the tag has verified.
        let cached = match self.skipped.peek(&header.dh, header.n) {
            Some(mk) => Some(mk.clone()),
            None => None,
        };
        if let Some(mk) = cached {
            return match aead_decrypt(&mk, header_bytes, ciphertext) {
                Ok(plaintext) => {
                    self.skipped.remove(&header.dh, header.n);
                    Ok(plaintext)
                },
                Err(e) => Err(e),
            };
        }
        let mut budget: u32 = MAX_SKIP;
        let mut banked: Vec<SkippedKey> = Vec::new();
        assert(skipped_view(banked@) =~= Seq::<SkippedModel>::empty());
        let ghost start = self@;

        if self.is_new(&header.dh) {
            // The rest of the current receiving chain comes first.
            match &self.ckr {
                Some(ckr) => {
                    let cur_dh = match self.dhr {
                        Some(d) => d,
                        None => header.dh,
                    };
                    let mut flush_ck = ckr.clone();
                    let mut flush_nr: u32 = self.nr;
                    match skip_forward(
                        &mut flush_ck,
                        &mut flush_nr,
                        header.pn,
                        &cur_dh,
                        &mut banked,
                        &mut budget,
                    ) {
                        Ok(_) => {},
                        Err(e) => {
                            return Err(e);
                        },
                    }
                },
                None => {
                    // There is nothing to derive, but the message is held to
                    // the same limit.
                    if header.pn > self.nr && header.pn - self.nr > budget {
                        return Err(RatchetError::new(ErrorKind::TooManySkipped));
                    }
                },
            }
            assert(skipped_view(banked@) =~= flushed(start, wire@));
            assert(budget == MAX_SKIP - flushed(start, wire@).len());

            let recv_dh = crypto::agree(&self.dhs.bytes, &header.dh);
            let (rk_recv, ckr) = kdf_rk(&self.rk, &recv_dh);
            let fresh_pub = crypto::public_key(&fresh.bytes);
            let send_dh = crypto::agree(&fresh.bytes, &header.dh);
            let (rk_send, cks) = kdf_rk(&rk_recv, &send_dh);
            let ghost stepped = ratchet_step(start, wire@, fresh@);

            let mut work_ckr = ckr;
            let mut work_nr: u32 = 0;
            match skip_forward(
                &mut work_ckr,
                &mut work_nr,
                header.n,
                &header.dh,
                &mut banked,
                &mut budget,
            ) {
                Ok(_) => {},
                Err(e) => {
                    return Err(e);
                },
            }
            let (post_ckr, target_mk) = kdf_ck(&work_ckr);
            let plaintext = match aead_decrypt(&target_mk, header_bytes, ciphertext) {
                Ok(p) => p,
                Err(e) => {
                    return Err(e);
                },
            };

            self.bank(&banked);
            self.dhr = Some(header.dh);
            self.rk = rk_send;
            self.dhs = fresh;
            self.dhs_pub = fresh_pub;
            self.cks = Some(cks);
            self.pn = self.ns;
            self.ns = 0;
            self.ckr = Some(post_ckr);
            self.nr = header.n.wrapping_add(1);
            Ok(plaintext)
        } else {
            let mut work_ckr = match &self.ckr {
                Some(c) => c.clone(),
                None => {
                    return Err(RatchetError::new(ErrorKind::OutOfOrder));
                },
            };
            let mut work_nr: u32 = self.nr;
            match skip_forward(
                &mut work_ckr,
                &mut work_nr,
                header.n,
                &header.dh,
                &mut banked,
                &mut budget,
            ) {
                Ok(_) => {},
                Err(e) => {
                    return Err(e);
                },
            }
            let (post_ckr, target_mk) = kdf_ck(&work_ckr);
            let plaintext = match aead_decrypt(&target_mk, header_bytes, ciphertext) {
                Ok(p) => p,
                Err(e) => {
                    return Err(e);
                },
            };
            self.bank(&banked);
            self.ckr = Some(post_ckr);
            self.nr = header.n.wrapping_add(1);
            Ok(plaintext)
        }
    }

    /// Keeps the message keys of `banked`.
    fn bank(&mut self, banked: &Vec<SkippedKey>)
        requires
            old(self).wf(),
        ensures
            final(self).wf(),
            final(self)@ == (RatchetModel {
                skipped: add_keys(old(self)@.skipped, skipped_view(banked@)),
                ..old(self)@
            }),
            final(self).ns == old(self).ns,
            final(self).dhs_pub == old(self).dhs_pub,
    {
        let ghost new = skipped_view(banked@);
        let ghost before = self@;
        let mut i: usize = 0;
        assert(new.take(0) =~= Seq::<SkippedModel>::empty());
        while i < banked.len()
            invariant
                i <= banked@.len(),
                new == skipped_view(banked@),
                self.wf(),
                self@ == (RatchetModel { skipped: add_keys(before.skipped, new.take(i as int)), ..before }),
                self.ns == old(self).ns,
                self.dhs_pub == old(self).dhs_pub,
            decreases banked.len() - i,
        {
            let key = &banked[i];
            self.skipped.insert(key.dh, key.n, key.mk.clone());
            i += 1;
            assert(new.take(i as int).drop_last() =~= new.take(i - 1));
            assert(new.take(i as int).last() == banked@[i - 1]@);
        }
        assert(new.take(i as int) =~= new);
    }

    /// Decrypts a message of the peer, drawing a fresh ratchet secret where it
    /// starts a new chain. Where it fails, nothing has changed.
    pub fn decrypt(&mut self, wire: &[u8]) -> (r: Result<Vec<u8>, RatchetError>)
        requires
            old(self).wf(),
        ensures
            final(self).wf(),
            exists|fresh: Seq<u8>|
                fresh.len() == 32 && match (r, #[trigger] decrypt_step(old(self)@, wire@, fresh)) {
                    (Ok(plaintext), Ok((out, after))) => plaintext@ == out && final(self)@ == after,
                    (Err(e), Err(kind)) => e.kind == kind && final(self)@ == old(self)@,
                    _ => false,
                },
            r is Err ==> final(self)@ == old(self)@,
    {
        let fresh = if self.wants_fresh(wire) {
            crypto::random_secret()
        } else {
            Secret::new([0u8; 32])
        };
        let ghost f = fresh@;
        let r = self.decrypt_with(wire, fresh);
        assert(f.len() == 32 && match (r, decrypt_step(old(self)@, wire@, f)) {
            (Ok(plaintext), Ok((out, after))) => plaintext@ == out && self@ == after,
            (Err(e), Err(kind)) => e.kind == kind && self@ == old(self)@,
            _ => false,
        });
        r
    }
}

} // verus!
