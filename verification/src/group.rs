//! Sender keys: group messages that are encrypted once for everyone.
//!
//! Every member owns a sending state: a hash chain and an Ed25519 signing key.
//! The others get its chain key and public key once, over a confidential
//! channel, and follow the chain from there. Everyone who follows a chain could
//! encrypt on it, so it is the signature that binds a message to its author. It
//! is checked before anything is derived.
use vstd::prelude::*;
use vstd::string::*;

use crate::bytes;
use crate::crypto;
use crate::crypto::{Secret, SecretBytes};

verus! {

/// How far ahead of the receiver's chain a message may be.
pub const MAX_SKIP: u32 = 2000;

/// How many skipped message keys a receiver keeps.
pub const MAX_SKIPPED_STORE: usize = 2000;

/// The length of a signature.
pub const SIG_LEN: usize = 64;

/// The length of the tag of a ciphertext.
pub const TAG_LEN: usize = 16;

/// The length of an iteration on the wire.
pub const ITER_LEN: usize = 4;

/// The length of the shortest message: iteration, tag, signature.
pub const MIN_WIRE_LEN: usize = 84;

/// The length of an encoded distribution: chain key, iteration, public key.
pub const DIST_LEN: usize = 68;

/// The label of message keys.
pub const INFO_MSG: &'static str = "Ciphext-SenderKey-v1-MessageKey";

/// The label of chain keys.
pub const INFO_CHAIN: &'static str = "Ciphext-SenderKey-v1-ChainKey";

/// Why a group message was refused.
#[derive(Debug, Clone, Copy, PartialEq, Eq, Structural)]
pub enum GroupError {
    /// The length is wrong, or the key is not a key.
    Malformed,
    /// The signature is not the sender's.
    BadSignature,
    /// The ciphertext did not authenticate, or its key is gone.
    Decrypt,
    /// The message is more than `MAX_SKIP` ahead.
    TooManySkipped,
}

/// The text of an error.
pub open spec fn error_text(e: GroupError) -> Seq<char> {
    match e {
        GroupError::Malformed => "malformed group message framing"@,
        GroupError::BadSignature => "sender signature verification failed"@,
        GroupError::Decrypt => "AEAD authentication/decryption failed"@,
        GroupError::TooManySkipped => "message iteration exceeds the skip bound"@,
    }
}

impl GroupError {
    /// The error in words.
    pub fn to_string(&self) -> (r: String)
        ensures
            r@ == error_text(*self),
    {
        let text = match self {
            GroupError::Malformed => "malformed group message framing",
            GroupError::BadSignature => "sender signature verification failed",
            GroupError::Decrypt => "AEAD authentication/decryption failed",
            GroupError::TooManySkipped => "message iteration exceeds the skip bound",
        };
        text.to_owned()
    }
}

// ---------------------------------------------------------------------------
// The chain
// ---------------------------------------------------------------------------

/// The key and the nonce of the message at a chain key.
pub open spec fn message_keys(ck: Seq<u8>) -> (Seq<u8>, Seq<u8>) {
    let okm = crypto::hkdf_sha256(None, ck, INFO_MSG.spec_bytes(), 44);
    (okm.subrange(0, 32), okm.subrange(32, 44))
}

/// The chain key that follows `ck`.
pub open spec fn next_chain_key(ck: Seq<u8>) -> Seq<u8> {
    crypto::hkdf_sha256(None, ck, INFO_CHAIN.spec_bytes(), 32)
}

/// The chain key `steps` steps after `ck`.
pub open spec fn chain_key(ck: Seq<u8>, steps: nat) -> Seq<u8>
    decreases steps,
{
    if steps == 0 {
        ck
    } else {
        next_chain_key(chain_key(ck, (steps - 1) as nat))
    }
}

/// The iteration after `i`. The counter stops at its last value.
pub open spec fn next_iteration(i: int) -> int {
    if i == u32::MAX {
        i
    } else {
        i + 1
    }
}

/// The key and the nonce of one message.
pub struct MessageKeys {
    key: Secret,
    nonce: [u8; 12],
}

impl View for MessageKeys {
    type V = (Seq<u8>, Seq<u8>);

    closed spec fn view(&self) -> (Seq<u8>, Seq<u8>) {
        (self.key@, self.nonce@)
    }
}

impl Drop for MessageKeys {
    fn drop(&mut self)
        opens_invariants none
        no_unwind
    {
        crypto::wipe(&mut self.nonce);
    }
}

impl Clone for MessageKeys {
    fn clone(&self) -> (r: Self)
        ensures
            r@ == self@,
    {
        MessageKeys { key: self.key.clone(), nonce: self.nonce }
    }
}

/// The keys of the message at a chain key, and the next chain key. The labels
/// differ, so the two are independent.
fn derive_message_keys(ck: &Secret) -> (r: (MessageKeys, Secret))
    ensures
        r.0@ == message_keys(ck@),
        r.1@ == next_chain_key(ck@),
{
    let mut material = crypto::hkdf::<44>(None, ck.bytes.as_slice(), INFO_MSG.as_bytes());
    let next_chain = Secret::new(crypto::hkdf::<32>(None, ck.bytes.as_slice(), INFO_CHAIN.as_bytes()));
    let key = Secret::new(bytes::take::<32>(material.as_slice(), 0));
    let nonce = bytes::take::<12>(material.as_slice(), 32);
    crypto::wipe(&mut material);
    (MessageKeys { key, nonce }, next_chain)
}

/// Encrypts under message keys, with `aad` bound in.
fn seal(mk: &MessageKeys, plaintext: &[u8], aad: &[u8]) -> (r: Vec<u8>)
    requires
        crypto::aead_fits(plaintext@.len()),
    ensures
        r@ == crypto::chacha20poly1305_seal(mk@.0, mk@.1, aad@, plaintext@),
        r@.len() == plaintext@.len() + TAG_LEN,
        crypto::chacha20poly1305_open(mk@.0, mk@.1, aad@, r@) == Some(plaintext@),
{
    crypto::seal(&mk.key.bytes, &mk.nonce, aad, plaintext).unwrap()
}

/// Decrypts under message keys, with `aad` bound in.
fn open(mk: &MessageKeys, ciphertext: &[u8], aad: &[u8]) -> (r: Result<Vec<u8>, GroupError>)
    ensures
        match r {
            Ok(p) => crypto::chacha20poly1305_open(mk@.0, mk@.1, aad@, ciphertext@) == Some(p@),
            Err(e) => {
                &&& crypto::chacha20poly1305_open(mk@.0, mk@.1, aad@, ciphertext@) is None
                &&& e == GroupError::Decrypt
            },
        },
{
    match crypto::open(&mk.key.bytes, &mk.nonce, aad, ciphertext) {
        Some(p) => Ok(p),
        None => Err(GroupError::Decrypt),
    }
}

// ---------------------------------------------------------------------------
// Distributions
// ---------------------------------------------------------------------------

/// What the others need to follow a sender: its chain key at some iteration,
/// and its public key. To be handed over confidentially.
pub struct SenderKeyDistribution {
    chain_key: Secret,
    iteration: u32,
    signing_public: [u8; 32],
}

/// A distribution, as contracts see it.
pub struct DistributionModel {
    pub chain_key: Seq<u8>,
    pub iteration: int,
    pub signing_public: Seq<u8>,
}

impl View for SenderKeyDistribution {
    type V = DistributionModel;

    closed spec fn view(&self) -> DistributionModel {
        DistributionModel {
            chain_key: self.chain_key@,
            iteration: self.iteration as int,
            signing_public: self.signing_public@,
        }
    }
}

/// What holds of every distribution.
pub open spec fn valid_distribution(d: DistributionModel) -> bool {
    &&& d.chain_key.len() == 32
    &&& 0 <= d.iteration <= u32::MAX
    &&& d.signing_public.len() == 32
}

/// The bytes of a distribution.
pub open spec fn distribution_bytes(d: DistributionModel) -> Seq<u8> {
    d.chain_key + bytes::be32(d.iteration) + d.signing_public
}

/// The distribution that bytes encode. There is none if their number is wrong,
/// or the public key is not a point of the curve.
pub open spec fn parse_distribution(b: Seq<u8>) -> Option<DistributionModel> {
    if b.len() == DIST_LEN && crypto::ed25519_is_key(b.subrange(36, 68)) {
        Some(
            DistributionModel {
                chain_key: b.subrange(0, 32),
                iteration: bytes::from_be32(b.subrange(32, 36)),
                signing_public: b.subrange(36, 68),
            },
        )
    } else {
        None
    }
}

impl SenderKeyDistribution {
    /// The model of a distribution is valid.
    pub proof fn lemma_valid(&self)
        ensures
            valid_distribution(self@),
    {
    }

    /// The 68 bytes of the distribution. They hold the chain key: to be
    /// encrypted for the recipient.
    pub fn encode(&self) -> (r: SecretBytes)
        ensures
            r@ == distribution_bytes(self@),
            r@.len() == DIST_LEN,
    {
        let mut out: Vec<u8> = Vec::with_capacity(DIST_LEN);
        out.extend_from_slice(self.chain_key.bytes.as_slice());
        bytes::put_be32(&mut out, self.iteration);
        out.extend_from_slice(self.signing_public.as_slice());
        proof {
            bytes::lemma_be32(self.iteration as int, bytes::zeros(4));
            assert(out@ =~= distribution_bytes(self@));
        }
        SecretBytes { bytes: out }
    }

    /// Reads an encoded distribution.
    pub fn decode(b: &[u8]) -> (r: Result<Self, GroupError>)
        ensures
            match r {
                Ok(d) => parse_distribution(b@) == Some(d@),
                Err(e) => parse_distribution(b@) is None && e == GroupError::Malformed,
            },
    {
        if b.len() != DIST_LEN {
            return Err(GroupError::Malformed);
        }
        let signing_public = bytes::take::<32>(b, 36);
        if !crypto::is_signing_key(&signing_public) {
            return Err(GroupError::Malformed);
        }
        Ok(
            SenderKeyDistribution {
                chain_key: Secret::new(bytes::take::<32>(b, 0)),
                iteration: bytes::get_be32(b, 32),
                signing_public,
            },
        )
    }
}

/// Decoding gives back what was encoded, if the public key is a point of the
/// curve, as that of every sender is.
pub proof fn law_distribution_round_trip(d: DistributionModel)
    requires
        valid_distribution(d),
        crypto::ed25519_is_key(d.signing_public),
    ensures
        parse_distribution(distribution_bytes(d)) == Some(d),
{
    bytes::lemma_be32(d.iteration, bytes::zeros(4));
    let b = distribution_bytes(d);
    assert(b.subrange(0, 32) =~= d.chain_key);
    assert(b.subrange(32, 36) =~= bytes::be32(d.iteration));
    assert(b.subrange(36, 68) =~= d.signing_public);
}

/// Only one string of bytes decodes to a distribution.
pub proof fn law_distribution_canonical(b: Seq<u8>)
    requires
        parse_distribution(b) is Some,
    ensures
        distribution_bytes(parse_distribution(b)->0) == b,
{
    bytes::lemma_be32(0, b.subrange(32, 36));
    assert(distribution_bytes(parse_distribution(b)->0) =~= b);
}

// ---------------------------------------------------------------------------
// Sending
// ---------------------------------------------------------------------------

/// A member's own sending state.
pub struct SenderKeyState {
    chain_key: Secret,
    iteration: u32,
    /// The Ed25519 seed that messages are signed with.
    pub signing_key: Secret,
}

/// A sending state, as contracts see it.
pub struct SenderModel {
    pub chain_key: Seq<u8>,
    pub iteration: int,
    pub seed: Seq<u8>,
}

impl View for SenderKeyState {
    type V = SenderModel;

    closed spec fn view(&self) -> SenderModel {
        SenderModel {
            chain_key: self.chain_key@,
            iteration: self.iteration as int,
            seed: self.signing_key@,
        }
    }
}

/// What holds of every sending state.
pub open spec fn valid_sender(s: SenderModel) -> bool {
    s.chain_key.len() == 32 && 0 <= s.iteration <= u32::MAX && s.seed.len() == 32
}

/// What a sender hands to the others.
pub open spec fn distribution_of(s: SenderModel) -> DistributionModel {
    DistributionModel {
        chain_key: s.chain_key,
        iteration: s.iteration,
        signing_public: crypto::ed25519_public(s.seed),
    }
}

/// The part of the next message that is signed: iteration and ciphertext.
pub open spec fn signed_part(s: SenderModel, plaintext: Seq<u8>) -> Seq<u8> {
    let (key, nonce) = message_keys(s.chain_key);
    bytes::be32(s.iteration) + crypto::chacha20poly1305_seal(key, nonce, bytes::be32(s.iteration), plaintext)
}

/// The next message: the signed part, and the signature.
pub open spec fn wire_of(s: SenderModel, plaintext: Seq<u8>) -> Seq<u8> {
    signed_part(s, plaintext) + crypto::ed25519_sign(s.seed, signed_part(s, plaintext))
}

/// The sending state after a message.
pub open spec fn sender_after(s: SenderModel) -> SenderModel {
    SenderModel {
        chain_key: next_chain_key(s.chain_key),
        iteration: next_iteration(s.iteration),
        ..s
    }
}

/// The ciphertext of a message.
pub open spec fn wire_ciphertext(wire: Seq<u8>) -> Seq<u8> {
    wire.subrange(4, wire.len() - 64)
}

/// The iteration of a message.
pub open spec fn wire_iteration(wire: Seq<u8>) -> int {
    bytes::from_be32(wire.subrange(0, 4))
}

/// Whether `wire` is a message that a sender with the chain key `ck` at
/// `iteration` made of `plaintext`, but for its signature.
pub open spec fn genuine(ck: Seq<u8>, iteration: int, plaintext: Seq<u8>, wire: Seq<u8>) -> bool {
    &&& wire.len() >= MIN_WIRE_LEN
    &&& wire_iteration(wire) == iteration
    &&& wire.subrange(0, 4) == bytes::be32(iteration)
    &&& crypto::chacha20poly1305_open(
        message_keys(ck).0,
        message_keys(ck).1,
        bytes::be32(iteration),
        wire_ciphertext(wire),
    ) == Some(plaintext)
}

/// Whether the signature of `wire` is accepted under the key `public`.
pub open spec fn signed_by(public: Seq<u8>, wire: Seq<u8>) -> bool {
    crypto::ed25519_accepts(
        public,
        wire.subrange(0, wire.len() - 64),
        wire.subrange(wire.len() - 64, wire.len() as int),
    )
}

impl SenderKeyState {
    /// The model of a sending state is valid.
    pub proof fn lemma_valid(&self)
        ensures
            valid_sender(self@),
    {
    }

    /// A sending state from a chain key and a signing seed drawn beforehand.
    pub fn from_secrets(chain_key: Secret, signing_key: Secret) -> (r: Self)
        ensures
            r@ == (SenderModel { chain_key: chain_key@, iteration: 0, seed: signing_key@ }),
    {
        SenderKeyState { chain_key, iteration: 0, signing_key }
    }

    /// A fresh sending state, with a random chain key and a random signing key.
    pub fn new() -> (r: Self)
        ensures
            r@.iteration == 0,
            valid_sender(r@),
    {
        let chain_key = Secret::new(crypto::random_bytes::<32>());
        Self::from_secrets(chain_key, crypto::random_signing_seed())
    }

    /// What to hand to the others. Who gets it can follow from here on.
    pub fn distribution(&self) -> (r: SenderKeyDistribution)
        ensures
            r@ == distribution_of(self@),
            crypto::ed25519_is_key(r@.signing_public),
    {
        SenderKeyDistribution {
            chain_key: self.chain_key.clone(),
            iteration: self.iteration,
            signing_public: crypto::signing_public(&self.signing_key.bytes),
        }
    }

    /// Encrypts a message for the group, moves the chain on, and signs. The
    /// result opens to the plaintext under the keys of this iteration, and its
    /// signature is accepted under our key (but for a nonce point that happens
    /// to be neutral).
    pub fn encrypt(&mut self, plaintext: &[u8]) -> (r: Vec<u8>)
        requires
            crypto::aead_fits(plaintext@.len()),
        ensures
            r@ == wire_of(old(self)@, plaintext@),
            final(self)@ == sender_after(old(self)@),
            r@.len() == ITER_LEN + plaintext@.len() + TAG_LEN + SIG_LEN,
            genuine(old(self)@.chain_key, old(self)@.iteration, plaintext@, r@),
            r@.subrange(r@.len() - 64, r@.len() - 32) != crypto::neutral_point() ==> signed_by(
                crypto::ed25519_public(old(self)@.seed),
                r@,
            ),
    {
        let iteration: u32 = self.iteration;
        let (mk, next_chain) = derive_message_keys(&self.chain_key);
        let mut aad: Vec<u8> = Vec::new();
        bytes::put_be32(&mut aad, iteration);
        let ghost counter = bytes::be32(iteration as int);
        assert(aad@ =~= counter);
        let ciphertext = seal(&mk, plaintext, aad.as_slice());
        self.chain_key = next_chain;
        self.iteration = self.iteration.saturating_add(1);

        let mut wire: Vec<u8> = aad;
        wire.extend_from_slice(ciphertext.as_slice());
        let ghost signed = wire@;
        assert(signed =~= counter + ciphertext@);
        let signature = crypto::sign(&self.signing_key.bytes, wire.as_slice());
        wire.extend_from_slice(signature.as_slice());
        proof {
            bytes::lemma_be32(iteration as int, bytes::zeros(4));
            assert(wire@ =~= signed + signature@);
            assert(wire@.subrange(0, 4) =~= counter);
            assert(wire_ciphertext(wire@) =~= ciphertext@);
            assert(wire@.subrange(0, wire@.len() - 64) =~= signed);
            assert(wire@.subrange(wire@.len() - 64, wire@.len() as int) =~= signature@);
            assert(wire@.subrange(wire@.len() - 64, wire@.len() - 32) =~= signature@.take(32));
        }
        wire
    }
}

impl Default for SenderKeyState {
    fn default() -> (r: Self)
        ensures
            r@.iteration == 0,
            valid_sender(r@),
    {
        Self::new()
    }
}

// ---------------------------------------------------------------------------
// Receiving
// ---------------------------------------------------------------------------

/// The keys of a message that was passed over.
pub struct SkippedMessage {
    iteration: u32,
    keys: MessageKeys,
}

/// The keys of a message that was passed over, as contracts see them.
pub struct SkippedModel {
    pub iteration: int,
    pub keys: (Seq<u8>, Seq<u8>),
}

impl View for SkippedMessage {
    type V = SkippedModel;

    closed spec fn view(&self) -> SkippedModel {
        SkippedModel { iteration: self.iteration as int, keys: self.keys@ }
    }
}

/// The elements of a sequence of skipped messages, as contracts see them.
pub open spec fn skipped_view(s: Seq<SkippedMessage>) -> Seq<SkippedModel> {
    s.map_values(|k: SkippedMessage| k@)
}

/// What follows one sender.
pub struct ReceiverState {
    chain_key: Secret,
    /// The next iteration of the chain.
    pub iteration: u32,
    /// The sender's public key. With a key that is none, no message verifies.
    verify_key: Option<[u8; 32]>,
    /// The keys of messages passed over, by rising iteration.
    skipped: Vec<SkippedMessage>,
}

/// A receiving state, as contracts see it.
pub struct ReceiverModel {
    pub chain_key: Seq<u8>,
    pub iteration: int,
    pub verify_key: Option<Seq<u8>>,
    pub skipped: Seq<SkippedModel>,
}

impl View for ReceiverState {
    type V = ReceiverModel;

    closed spec fn view(&self) -> ReceiverModel {
        ReceiverModel {
            chain_key: self.chain_key@,
            iteration: self.iteration as int,
            verify_key: match self.verify_key {
                Some(k) => Some(k@),
                None => None,
            },
            skipped: skipped_view(self.skipped@),
        }
    }
}

/// What holds of every receiving state.
pub open spec fn valid_receiver(m: ReceiverModel) -> bool {
    &&& m.chain_key.len() == 32
    &&& m.verify_key matches Some(k) ==> k.len() == 32 && crypto::ed25519_is_key(k)
    &&& keeps_order(m)
}

/// The keys kept are of iterations that the chain has passed, in rising order,
/// and no more than fit.
pub open spec fn keeps_order(m: ReceiverModel) -> bool {
    &&& 0 <= m.iteration <= u32::MAX
    &&& m.skipped.len() <= MAX_SKIPPED_STORE
    &&& forall|i: int| 0 <= i < m.skipped.len() ==> 0 <= (#[trigger] m.skipped[i]).iteration < m.iteration
    &&& forall|i: int, j: int|
        #![trigger m.skipped[i], m.skipped[j]]
        0 <= i < j < m.skipped.len() ==> m.skipped[i].iteration < m.skipped[j].iteration
}

/// Where the keys of an iteration stand, or -1.
pub open spec fn skipped_index(s: Seq<SkippedModel>, iteration: int) -> int
    decreases s.len(),
{
    if s.len() == 0 {
        -1
    } else if s.last().iteration == iteration {
        s.len() - 1
    } else {
        skipped_index(s.drop_last(), iteration)
    }
}

/// What `skipped_index` finds is what was asked for, and where it finds nothing
/// there is nothing.
pub proof fn lemma_skipped_index(s: Seq<SkippedModel>, iteration: int)
    ensures
        -1 <= skipped_index(s, iteration) < s.len(),
        skipped_index(s, iteration) >= 0 ==> s[skipped_index(s, iteration)].iteration == iteration,
        forall|i: int|
            #![trigger s[i]]
            skipped_index(s, iteration) < i < s.len() ==> s[i].iteration != iteration,
    decreases s.len(),
{
    if s.len() > 0 && s.last().iteration != iteration {
        lemma_skipped_index(s.drop_last(), iteration);
        assert forall|i: int| #![trigger s[i]] skipped_index(s, iteration) < i < s.len() implies s[i].iteration
            != iteration by {
            if i < s.len() - 1 {
                assert(s.drop_last()[i] == s[i]);
            }
        }
    }
}

/// The store after one more key came in: a store that is over its bound loses
/// the key of the lowest iteration, which stands first.
pub open spec fn store_skipped(s: Seq<SkippedModel>, key: SkippedModel) -> Seq<SkippedModel> {
    let grown = s.push(key);
    if grown.len() > MAX_SKIPPED_STORE {
        grown.drop_first()
    } else {
        grown
    }
}

/// The store after all of `new` came in, one after the other.
pub open spec fn store_all(s: Seq<SkippedModel>, new: Seq<SkippedModel>) -> Seq<SkippedModel>
    decreases new.len(),
{
    if new.len() == 0 {
        s
    } else {
        store_skipped(store_all(s, new.drop_last()), new.last())
    }
}

/// The keys of `count` messages from iteration `from` on, where the chain key
/// is `ck`.
pub open spec fn skipped_run(from: int, ck: Seq<u8>, count: nat) -> Seq<SkippedModel> {
    Seq::new(count, |i: int| SkippedModel { iteration: from + i, keys: message_keys(chain_key(ck, i as nat)) })
}

/// What follows a sender from its distribution on.
pub open spec fn receiver_of(d: DistributionModel) -> ReceiverModel {
    ReceiverModel {
        chain_key: d.chain_key,
        iteration: d.iteration,
        verify_key: if crypto::ed25519_is_key(d.signing_public) {
            Some(d.signing_public)
        } else {
            None
        },
        skipped: Seq::empty(),
    }
}

/// Opening a message: the plaintext and the state afterwards, or why not.
pub open spec fn decrypt_step(m: ReceiverModel, wire: Seq<u8>) -> Result<(Seq<u8>, ReceiverModel), GroupError> {
    let iteration = wire_iteration(wire);
    let aad = bytes::be32(iteration);
    let at = skipped_index(m.skipped, iteration);
    let ck = chain_key(m.chain_key, (iteration - m.iteration) as nat);
    if wire.len() < MIN_WIRE_LEN {
        Err(GroupError::Malformed)
    } else if m.verify_key is None || !signed_by(m.verify_key->0, wire) {
        Err(GroupError::BadSignature)
    } else if at >= 0 {
        match crypto::chacha20poly1305_open(
            m.skipped[at].keys.0,
            m.skipped[at].keys.1,
            aad,
            wire_ciphertext(wire),
        ) {
            None => Err(GroupError::Decrypt),
            Some(plaintext) => Ok((plaintext, ReceiverModel { skipped: m.skipped.remove(at), ..m })),
        }
    } else if iteration < m.iteration {
        Err(GroupError::Decrypt)
    } else if iteration - m.iteration > MAX_SKIP {
        Err(GroupError::TooManySkipped)
    } else {
        match crypto::chacha20poly1305_open(message_keys(ck).0, message_keys(ck).1, aad, wire_ciphertext(wire)) {
            None => Err(GroupError::Decrypt),
            Some(plaintext) => Ok(
                (
                    plaintext,
                    ReceiverModel {
                        chain_key: next_chain_key(ck),
                        iteration: next_iteration(iteration),
                        skipped: store_all(
                            m.skipped,
                            skipped_run(m.iteration, m.chain_key, (iteration - m.iteration) as nat),
                        ),
                        ..m
                    },
                ),
            ),
        }
    }
}

/// A store that takes in keys of iterations beyond its own stays in order and
/// within its bound, and the keys that came in stand at its end.
pub proof fn lemma_store_all(s: Seq<SkippedModel>, new: Seq<SkippedModel>, from: int)
    requires
        0 <= from,
        s.len() <= MAX_SKIPPED_STORE,
        new.len() <= MAX_SKIPPED_STORE,
        forall|i: int| 0 <= i < s.len() ==> 0 <= (#[trigger] s[i]).iteration < from,
        forall|i: int, j: int|
            #![trigger s[i], s[j]]
            0 <= i < j < s.len() ==> s[i].iteration < s[j].iteration,
        forall|i: int| 0 <= i < new.len() ==> (#[trigger] new[i]).iteration == from + i,
    ensures
        ({
            let out = store_all(s, new);
            &&& new.len() <= out.len() <= MAX_SKIPPED_STORE
            &&& out.subrange(out.len() - new.len(), out.len() as int) == new
            &&& forall|i: int| 0 <= i < out.len() ==> 0 <= (#[trigger] out[i]).iteration < from + new.len()
            &&& forall|i: int, j: int|
                #![trigger out[i], out[j]]
                0 <= i < j < out.len() ==> out[i].iteration < out[j].iteration
        }),
    decreases new.len(),
{
    let out = store_all(s, new);
    if new.len() == 0 {
        assert(out.subrange(out.len() - new.len(), out.len() as int) =~= new);
    } else {
        let shorter = new.drop_last();
        assert forall|i: int| 0 <= i < shorter.len() implies (#[trigger] shorter[i]).iteration == from + i by {
            assert(shorter[i] == new[i]);
        }
        lemma_store_all(s, shorter, from);
        let mid = store_all(s, shorter);
        let grown = mid.push(new.last());
        let drop: int = if grown.len() > MAX_SKIPPED_STORE {
            1
        } else {
            0
        };
        assert(new.last().iteration == from + new.len() - 1);
        assert forall|i: int| 0 <= i < out.len() implies out[i] == #[trigger] grown[i + drop] by {}
        assert forall|i: int| 0 <= i < out.len() implies 0 <= (#[trigger] out[i]).iteration < from + new.len() by {
            assert(out[i] == grown[i + drop]);
            if i + drop < mid.len() {
                assert(grown[i + drop] == mid[i + drop]);
            }
        }
        assert forall|i: int, j: int| #![trigger out[i], out[j]] 0 <= i < j < out.len() implies out[i].iteration
            < out[j].iteration by {
            assert(out[i] == grown[i + drop] && out[j] == grown[j + drop]);
            assert(grown[i + drop] == mid[i + drop]);
            if j + drop < mid.len() {
                assert(grown[j + drop] == mid[j + drop]);
            }
        }
        let tail = mid.subrange(mid.len() - shorter.len(), mid.len() as int);
        assert forall|i: int| 0 <= i < new.len() implies out[out.len() - new.len() + i] == #[trigger] new[i] by {
            assert(out[out.len() - new.len() + i] == grown[out.len() - new.len() + i + drop]);
            if i < shorter.len() {
                assert(tail[i] == shorter[i]);
                assert(new[i] == shorter[i]);
            }
        }
        assert(out.subrange(out.len() - new.len(), out.len() as int) =~= new);
    }
}

impl ReceiverState {
    /// What holds of every receiving state.
    pub open spec fn wf(&self) -> bool {
        valid_receiver(self@)
    }

    /// Follows a sender from its distribution on.
    pub fn from_distribution(dist: &SenderKeyDistribution) -> (r: Self)
        ensures
            r@ == receiver_of(dist@),
            r.wf(),
    {
        let verify_key = if crypto::is_signing_key(&dist.signing_public) {
            Some(dist.signing_public)
        } else {
            None
        };
        let r = ReceiverState {
            chain_key: dist.chain_key.clone(),
            iteration: dist.iteration,
            verify_key,
            skipped: Vec::new(),
        };
        assert(r@.skipped =~= Seq::<SkippedModel>::empty());
        r
    }

    /// Where the keys of an iteration are kept.
    fn position(&self, iteration: u32) -> (r: Option<usize>)
        ensures
            match r {
                Some(i) => i == skipped_index(self@.skipped, iteration as int) && i < self@.skipped.len(),
                None => skipped_index(self@.skipped, iteration as int) < 0,
            },
    {
        let ghost all = self@.skipped;
        let mut i: usize = self.skipped.len();
        assert(all.take(i as int) =~= all);
        while i > 0
            invariant
                i <= all.len(),
                all == self@.skipped,
                all.len() == self.skipped@.len(),
                skipped_index(all.take(i as int), iteration as int) == skipped_index(all, iteration as int),
            decreases i,
        {
            i -= 1;
            let ghost before = all.take(i + 1);
            assert(before.last() == self.skipped@[i as int]@);
            assert(before.drop_last() =~= all.take(i as int));
            if self.skipped[i].iteration == iteration {
                return Some(i);
            }
        }
        None
    }

    /// Opens a message of the sender. Late messages open with keys that were
    /// kept when they were passed over. Where it fails, nothing has changed.
    pub fn decrypt(&mut self, wire: &[u8]) -> (r: Result<Vec<u8>, GroupError>)
        requires
            old(self).wf(),
        ensures
            final(self).wf(),
            match (r, decrypt_step(old(self)@, wire@)) {
                (Ok(plaintext), Ok((out, after))) => plaintext@ == out && final(self)@ == after,
                (Err(e), Err(reason)) => e == reason && final(self)@ == old(self)@,
                _ => false,
            },
    {
        if wire.len() < MIN_WIRE_LEN {
            return Err(GroupError::Malformed);
        }
        let sig_start: usize = wire.len() - SIG_LEN;
        let signed = vstd::slice::slice_subrange(wire, 0, sig_start);
        let ciphertext = vstd::slice::slice_subrange(wire, ITER_LEN, sig_start);
        let iteration: u32 = bytes::get_be32(wire, 0);
        let signature = bytes::take::<SIG_LEN>(wire, sig_start);

        // The signature comes before any derivation.
        let accepted = match &self.verify_key {
            Some(key) => crypto::verify_strict(key, signed, &signature),
            None => false,
        };
        if !accepted {
            return Err(GroupError::BadSignature);
        }
        let mut aad: Vec<u8> = Vec::new();
        bytes::put_be32(&mut aad, iteration);
        assert(aad@ =~= bytes::be32(iteration as int));
        let ghost before = self@;
        proof {
            lemma_skipped_index(before.skipped, iteration as int);
        }

        match self.position(iteration) {
            Some(at) => {
                let plaintext = match open(&self.skipped[at].keys, ciphertext, aad.as_slice()) {
                    Ok(p) => p,
                    Err(e) => {
                        return Err(e);
                    },
                };
                self.skipped.remove(at);
                proof {
                    assert(self@.skipped =~= before.skipped.remove(at as int));
                    let s = self@.skipped;
                    assert forall|i: int| 0 <= i < s.len() implies 0 <= (#[trigger] s[i]).iteration
                        < before.iteration by {
                        let k = if i < at {
                            i
                        } else {
                            i + 1
                        };
                        assert(s[i] == before.skipped[k]);
                    }
                    assert forall|i: int, j: int| #![trigger s[i], s[j]] 0 <= i < j < s.len() implies s[i].iteration
                        < s[j].iteration by {
                        let ki = if i < at {
                            i
                        } else {
                            i + 1
                        };
                        let kj = if j < at {
                            j
                        } else {
                            j + 1
                        };
                        assert(s[i] == before.skipped[ki] && s[j] == before.skipped[kj]);
                    }
                }
                return Ok(plaintext);
            },
            None => {},
        }
        if iteration < self.iteration {
            return Err(GroupError::Decrypt);
        }
        let gap: u32 = iteration - self.iteration;
        if gap > MAX_SKIP {
            return Err(GroupError::TooManySkipped);
        }
        let mut chain = self.chain_key.clone();
        let mut pending: Vec<SkippedMessage> = Vec::new();
        let ghost start = self.chain_key@;
        let ghost from = self.iteration as int;
        let mut index: u32 = self.iteration;
        assert(skipped_view(pending@) =~= skipped_run(from, start, 0));
        while index < iteration
            invariant
                from <= index <= iteration,
                chain@ == chain_key(start, (index - from) as nat),
                skipped_view(pending@) == skipped_run(from, start, (index - from) as nat),
            decreases iteration - index,
        {
            let (mk, next) = derive_message_keys(&chain);
            let ghost earlier = skipped_view(pending@);
            pending.push(SkippedMessage { iteration: index, keys: mk });
            chain = next;
            proof {
                let steps = (index - from) as nat;
                assert(skipped_view(pending@) =~= earlier.push(
                    SkippedModel { iteration: from + steps, keys: message_keys(chain_key(start, steps)) },
                ));
                assert(skipped_view(pending@) =~= skipped_run(from, start, steps + 1));
            }
            index += 1;
        }
        let (target_mk, next_chain) = derive_message_keys(&chain);
        let plaintext = match open(&target_mk, ciphertext, aad.as_slice()) {
            Ok(p) => p,
            Err(e) => {
                return Err(e);
            },
        };
        proof {
            lemma_store_all(before.skipped, skipped_view(pending@), from);
        }
        self.keep(&pending);
        self.chain_key = next_chain;
        self.iteration = iteration.saturating_add(1);
        Ok(plaintext)
    }

    /// Keeps the keys of messages that were passed over.
    fn keep(&mut self, pending: &Vec<SkippedMessage>)
        requires
            old(self)@.skipped.len() <= MAX_SKIPPED_STORE,
        ensures
            final(self)@ == (ReceiverModel {
                skipped: store_all(old(self)@.skipped, skipped_view(pending@)),
                ..old(self)@
            }),
    {
        let ghost new = skipped_view(pending@);
        let ghost before = self@;
        let mut i: usize = 0;
        assert(new.take(0) =~= Seq::<SkippedModel>::empty());
        while i < pending.len()
            invariant
                i <= pending@.len(),
                new == skipped_view(pending@),
                self@.skipped.len() <= MAX_SKIPPED_STORE,
                self@ == (ReceiverModel { skipped: store_all(before.skipped, new.take(i as int)), ..before }),
            decreases pending.len() - i,
        {
            let keys = pending[i].keys.clone();
            self.store_skipped(pending[i].iteration, keys);
            i += 1;
            assert(new.take(i as int).drop_last() =~= new.take(i - 1));
            assert(new.take(i as int).last() == pending@[i - 1]@);
        }
        assert(new.take(i as int) =~= new);
    }

    /// Keeps the keys of one message, at the cost of the lowest iteration where
    /// there is no room.
    fn store_skipped(&mut self, iteration: u32, mk: MessageKeys)
        requires
            old(self)@.skipped.len() <= MAX_SKIPPED_STORE,
        ensures
            final(self)@ == (ReceiverModel {
                skipped: store_skipped(
                    old(self)@.skipped,
                    SkippedModel { iteration: iteration as int, keys: mk@ },
                ),
                ..old(self)@
            }),
            final(self)@.skipped.len() <= MAX_SKIPPED_STORE,
    {
        let ghost before = self@;
        let ghost key = SkippedModel { iteration: iteration as int, keys: mk@ };
        self.skipped.push(SkippedMessage { iteration, keys: mk });
        assert(self@.skipped =~= before.skipped.push(key));
        if self.skipped.len() > MAX_SKIPPED_STORE {
            self.skipped.remove(0);
            assert(self@.skipped =~= before.skipped.push(key).drop_first());
        }
    }
}

// ---------------------------------------------------------------------------
// Laws
// ---------------------------------------------------------------------------

/// The chain key at `iteration` of the chain that has `ck0` at iteration `base`.
pub open spec fn chain_at(ck0: Seq<u8>, base: int, iteration: int) -> Seq<u8> {
    chain_key(ck0, (iteration - base) as nat)
}

/// `m` follows the sender with the key `public` on the chain that has `ck0` at
/// iteration `base`.
pub open spec fn follows(m: ReceiverModel, public: Seq<u8>, ck0: Seq<u8>, base: int) -> bool {
    &&& base <= m.iteration
    &&& m.chain_key == chain_at(ck0, base, m.iteration)
    &&& m.verify_key == Some(public)
}

/// `s` sends on the chain that has `ck0` at iteration `base`.
pub open spec fn sends_on(s: SenderModel, ck0: Seq<u8>, base: int) -> bool {
    base <= s.iteration && s.chain_key == chain_at(ck0, base, s.iteration)
}

/// Walking a chain in two stretches is walking it in one.
pub proof fn lemma_chain_key_sum(ck: Seq<u8>, a: nat, b: nat)
    ensures
        chain_key(chain_key(ck, a), b) == chain_key(ck, a + b),
    decreases b,
{
    if b > 0 {
        lemma_chain_key_sum(ck, a, (b - 1) as nat);
    }
}

/// Who gets a sender's distribution follows that sender.
pub proof fn law_distribution_follows(s: SenderModel)
    requires
        crypto::ed25519_is_key(crypto::ed25519_public(s.seed)),
    ensures
        follows(receiver_of(distribution_of(s)), crypto::ed25519_public(s.seed), s.chain_key, s.iteration),
        sends_on(s, s.chain_key, s.iteration),
{
}

/// Sending stays on the chain, with the next iteration.
pub proof fn law_sender_stays_on_chain(s: SenderModel, ck0: Seq<u8>, base: int)
    requires
        valid_sender(s),
        sends_on(s, ck0, base),
        s.iteration < u32::MAX,
    ensures
        sends_on(sender_after(s), ck0, base),
        sender_after(s).iteration == s.iteration + 1,
{
}

/// A message of a sender that we follow opens to its plaintext, however many up
/// to `MAX_SKIP` before it are missing. The keys of all of those are kept, and
/// we go on following.
pub proof fn law_message_opens(
    m: ReceiverModel,
    public: Seq<u8>,
    ck0: Seq<u8>,
    base: int,
    iteration: int,
    plaintext: Seq<u8>,
    wire: Seq<u8>,
)
    requires
        keeps_order(m),
        follows(m, public, ck0, base),
        genuine(chain_at(ck0, base, iteration), iteration, plaintext, wire),
        signed_by(public, wire),
        m.iteration <= iteration < u32::MAX,
        iteration - m.iteration <= MAX_SKIP,
    ensures
        decrypt_step(m, wire) matches Ok((out, after)) && {
            &&& out == plaintext
            &&& follows(after, public, ck0, base)
            &&& after.iteration == iteration + 1
            &&& forall|i: int|
                #![trigger skipped_index(after.skipped, i)]
                m.iteration <= i < iteration ==> {
                    let at = skipped_index(after.skipped, i);
                    at >= 0 && after.skipped[at].keys == message_keys(chain_at(ck0, base, i))
                }
        },
{
    let count = (iteration - m.iteration) as nat;
    lemma_chain_key_sum(ck0, (m.iteration - base) as nat, count);
    lemma_skipped_index(m.skipped, iteration);
    let run = skipped_run(m.iteration, m.chain_key, count);
    lemma_store_all(m.skipped, run, m.iteration);
    let out = store_all(m.skipped, run);
    let tail = out.subrange(out.len() - run.len(), out.len() as int);
    assert forall|i: int| #![trigger skipped_index(out, i)] m.iteration <= i < iteration implies ({
        let at = skipped_index(out, i);
        at >= 0 && out[at].keys == message_keys(chain_at(ck0, base, i))
    }) by {
        lemma_chain_key_sum(ck0, (m.iteration - base) as nat, (i - m.iteration) as nat);
        lemma_skipped_index(out, i);
        let here = out.len() - run.len() + (i - m.iteration);
        assert(tail[i - m.iteration] == run[i - m.iteration]);
        assert(out[here] == run[i - m.iteration]);
        let at = skipped_index(out, i);
        if at < here {
            assert(out[here].iteration == i);
        } else if at > here {
            assert(out[at].iteration == out[here].iteration);
        }
    }
}

/// A message that comes late opens with the keys that were kept for it, which
/// are then gone.
pub proof fn law_late_message_opens(m: ReceiverModel, public: Seq<u8>, ck: Seq<u8>, iteration: int, plaintext: Seq<u8>, wire: Seq<u8>)
    requires
        keeps_order(m),
        m.verify_key == Some(public),
        genuine(ck, iteration, plaintext, wire),
        signed_by(public, wire),
        skipped_index(m.skipped, iteration) >= 0,
        m.skipped[skipped_index(m.skipped, iteration)].keys == message_keys(ck),
    ensures
        decrypt_step(m, wire) == Ok::<(Seq<u8>, ReceiverModel), GroupError>(
            (plaintext, ReceiverModel { skipped: m.skipped.remove(skipped_index(m.skipped, iteration)), ..m }),
        ),
{
}

/// A message that was opened is refused when it comes again.
pub proof fn law_replay_is_refused(m: ReceiverModel, wire: Seq<u8>)
    requires
        keeps_order(m),
        decrypt_step(m, wire) is Ok,
        wire_iteration(wire) < u32::MAX,
    ensures
        decrypt_step(m, wire) matches Ok((out, after)) && decrypt_step(after, wire) == Err::<
            (Seq<u8>, ReceiverModel),
            GroupError,
        >(GroupError::Decrypt),
{
    let iteration = wire_iteration(wire);
    lemma_skipped_index(m.skipped, iteration);
    let at = skipped_index(m.skipped, iteration);
    if at >= 0 {
        let rest = m.skipped.remove(at);
        lemma_skipped_index(rest, iteration);
        let again = skipped_index(rest, iteration);
        if again >= 0 {
            let k = if again < at {
                again
            } else {
                again + 1
            };
            assert(rest[again] == m.skipped[k]);
            assert(m.skipped[at].iteration == m.skipped[k].iteration);
        }
    } else {
        let run = skipped_run(m.iteration, m.chain_key, (iteration - m.iteration) as nat);
        lemma_store_all(m.skipped, run, m.iteration);
        let out = store_all(m.skipped, run);
        lemma_skipped_index(out, iteration);
    }
}

/// What arrives at a receiver.
pub enum Arrival {
    /// The message of that number of the sender that we follow.
    Sent(int),
    /// Something else.
    Other(Seq<u8>),
}

/// The sender `s` after `k` more messages.
pub open spec fn sender_at(s: SenderModel, k: nat) -> SenderModel
    decreases k,
{
    if k == 0 {
        s
    } else {
        sender_after(sender_at(s, (k - 1) as nat))
    }
}

/// A sender stays on its chain.
proof fn lemma_sender_at(s: SenderModel, k: nat)
    requires
        s.iteration + k <= u32::MAX,
    ensures
        sender_at(s, k).chain_key == chain_key(s.chain_key, k),
        sender_at(s, k).iteration == s.iteration + k,
        sender_at(s, k).seed == s.seed,
    decreases k,
{
    if k > 0 {
        lemma_sender_at(s, (k - 1) as nat);
    }
}

/// Whether `wires` are the messages that the sender `s` made of `plaintexts`,
/// one after the other: what encrypting gives, with all that is known of it.
pub open spec fn sent_by(s: SenderModel, plaintexts: Seq<Seq<u8>>, wires: Seq<Seq<u8>>) -> bool {
    &&& plaintexts.len() == wires.len()
    &&& forall|k: int|
        #![trigger wires[k]]
        0 <= k < wires.len() ==> {
            &&& wires[k] == wire_of(sender_at(s, k as nat), plaintexts[k])
            &&& genuine(
                sender_at(s, k as nat).chain_key,
                sender_at(s, k as nat).iteration,
                plaintexts[k],
                wires[k],
            )
            &&& signed_by(crypto::ed25519_public(s.seed), wires[k])
        }
}

/// Whether message `k` is among what has arrived.
pub open spec fn has_arrived(arrivals: Seq<Arrival>, k: int) -> bool {
    arrivals.contains(Arrival::Sent(k))
}

/// The number behind the highest of the messages that have arrived.
pub open spec fn reached(arrivals: Seq<Arrival>) -> int
    decreases arrivals.len(),
{
    if arrivals.len() == 0 {
        0
    } else {
        let before = reached(arrivals.drop_last());
        match arrivals.last() {
            Arrival::Sent(k) => if k >= before {
                k + 1
            } else {
                before
            },
            Arrival::Other(_) => before,
        }
    }
}

/// How many messages have been passed over and have not arrived since.
pub open spec fn outstanding(arrivals: Seq<Arrival>) -> int
    decreases arrivals.len(),
{
    if arrivals.len() == 0 {
        0
    } else {
        let prior = arrivals.drop_last();
        match arrivals.last() {
            Arrival::Sent(k) => if k >= reached(prior) {
                outstanding(prior) + (k - reached(prior))
            } else if has_arrived(prior, k) {
                outstanding(prior)
            } else {
                outstanding(prior) - 1
            },
            Arrival::Other(_) => outstanding(prior),
        }
    }
}

/// The receiving state after all that has arrived. What is refused changes
/// nothing.
pub open spec fn after_arrivals(m: ReceiverModel, wires: Seq<Seq<u8>>, arrivals: Seq<Arrival>) -> ReceiverModel
    decreases arrivals.len(),
{
    if arrivals.len() == 0 {
        m
    } else {
        let before = after_arrivals(m, wires, arrivals.drop_last());
        let wire = match arrivals.last() {
            Arrival::Sent(k) => wires[k],
            Arrival::Other(w) => w,
        };
        match decrypt_step(before, wire) {
            Ok((_, after)) => after,
            Err(_) => before,
        }
    }
}

/// Whether arrivals stay within the bounds: every message of the sender is one of
/// `wires`, none lies more than `MAX_SKIP` ahead, and no more are outstanding
/// than keys are kept. Whatever else arrives is refused.
pub open spec fn within_bounds(m: ReceiverModel, wires: Seq<Seq<u8>>, arrivals: Seq<Arrival>) -> bool
    decreases arrivals.len(),
{
    arrivals.len() == 0 || {
        let prior = arrivals.drop_last();
        &&& within_bounds(m, wires, prior)
        &&& outstanding(arrivals) <= MAX_SKIPPED_STORE
        &&& match arrivals.last() {
            Arrival::Sent(k) => 0 <= k < wires.len() && k - reached(prior) <= MAX_SKIP,
            Arrival::Other(w) => decrypt_step(after_arrivals(m, wires, prior), w) is Err,
        }
    }
}

/// Whether keys of an iteration are kept.
pub open spec fn keeps(m: ReceiverModel, iteration: int) -> bool {
    exists|i: int| 0 <= i < m.skipped.len() && (#[trigger] m.skipped[i]).iteration == iteration
}

/// Whether a receiving state is where arrivals have brought it: on the sender's
/// chain behind the highest message, with the right keys of just those messages
/// that are outstanding.
pub open spec fn in_place(m: ReceiverModel, s: SenderModel, arrivals: Seq<Arrival>) -> bool {
    &&& keeps_order(m)
    &&& follows(m, crypto::ed25519_public(s.seed), s.chain_key, s.iteration)
    &&& m.iteration == s.iteration + reached(arrivals)
    &&& m.skipped.len() == outstanding(arrivals)
    &&& forall|i: int|
        0 <= i < m.skipped.len() ==> {
            &&& (#[trigger] m.skipped[i]).iteration >= s.iteration
            &&& m.skipped[i].keys == message_keys(chain_at(s.chain_key, s.iteration, m.skipped[i].iteration))
        }
    &&& forall|k: int| #![trigger has_arrived(arrivals, k)] has_arrived(arrivals, k) ==> 0 <= k < reached(arrivals)
    &&& forall|k: int|
        #![trigger keeps(m, s.iteration + k)]
        0 <= k < reached(arrivals) ==> (keeps(m, s.iteration + k) <==> !has_arrived(arrivals, k))
}

/// A store with room for all new keys keeps the old ones in front of them.
proof fn lemma_store_with_room(s: Seq<SkippedModel>, new: Seq<SkippedModel>)
    requires
        s.len() + new.len() <= MAX_SKIPPED_STORE,
    ensures
        store_all(s, new) == s + new,
    decreases new.len(),
{
    if new.len() == 0 {
        assert(s + new =~= s);
    } else {
        lemma_store_with_room(s, new.drop_last());
        assert((s + new.drop_last()).push(new.last()) =~= s + new);
    }
}

/// Keys are kept where `skipped_index` finds them.
proof fn lemma_keeps(m: ReceiverModel, iteration: int)
    ensures
        keeps(m, iteration) <==> skipped_index(m.skipped, iteration) >= 0,
{
    lemma_skipped_index(m.skipped, iteration);
    let at = skipped_index(m.skipped, iteration);
    if at >= 0 {
        assert(m.skipped[at].iteration == iteration);
    }
}

/// What arrived before has arrived still, and nothing else but the last.
proof fn lemma_has_arrived(arrivals: Seq<Arrival>, k: int)
    requires
        arrivals.len() > 0,
    ensures
        has_arrived(arrivals, k) <==> has_arrived(arrivals.drop_last(), k) || arrivals.last() == Arrival::Sent(k),
{
    let prior = arrivals.drop_last();
    if has_arrived(prior, k) {
        let i = choose|i: int| 0 <= i < prior.len() && prior[i] == Arrival::Sent(k);
        assert(arrivals[i] == Arrival::Sent(k));
    }
    if arrivals.last() == Arrival::Sent(k) {
        assert(arrivals[arrivals.len() - 1] == Arrival::Sent(k));
    }
    if has_arrived(arrivals, k) {
        let i = choose|i: int| 0 <= i < arrivals.len() && arrivals[i] == Arrival::Sent(k);
        if i < prior.len() {
            assert(prior[i] == Arrival::Sent(k));
        }
    }
}

/// What a receiver that is in its place makes of the next arrival of message `k`:
/// the first opens, any other is refused, and the receiver is in its place again.
proof fn lemma_next_arrival(
    m: ReceiverModel,
    s: SenderModel,
    plaintexts: Seq<Seq<u8>>,
    wires: Seq<Seq<u8>>,
    prior: Seq<Arrival>,
    k: int,
)
    requires
        valid_sender(s),
        sent_by(s, plaintexts, wires),
        s.iteration + wires.len() <= u32::MAX,
        in_place(m, s, prior),
        0 <= k < wires.len(),
        k - reached(prior) <= MAX_SKIP,
        outstanding(prior.push(Arrival::Sent(k))) <= MAX_SKIPPED_STORE,
    ensures
        ({
            let now = prior.push(Arrival::Sent(k));
            match decrypt_step(m, wires[k]) {
                Ok((out, after)) => !has_arrived(prior, k) && out == plaintexts[k] && in_place(after, s, now),
                Err(e) => has_arrived(prior, k) && e == GroupError::Decrypt && in_place(m, s, now),
            }
        }),
{
    let now = prior.push(Arrival::Sent(k));
    assert(now.drop_last() =~= prior);
    assert(now.last() == Arrival::Sent(k));
    assert forall|j: int| #![trigger has_arrived(now, j)] has_arrived(now, j) <==> has_arrived(prior, j) || j == k by {
        lemma_has_arrived(now, j);
        if now.last() == Arrival::Sent(j) {
            assert(j == k);
        }
    }
    let iteration = s.iteration + k;
    let wire = wires[k];
    lemma_sender_at(s, k as nat);
    let public = crypto::ed25519_public(s.seed);
    let ck = chain_key(s.chain_key, k as nat);
    lemma_keeps(m, iteration);
    lemma_skipped_index(m.skipped, iteration);
    let at = skipped_index(m.skipped, iteration);
    if at >= 0 {
        assert(m.skipped[at].iteration == iteration);
        assert(0 <= k < reached(prior));
        assert(keeps(m, s.iteration + k));
        law_late_message_opens(m, public, ck, iteration, plaintexts[k], wire);
        let after = ReceiverModel { skipped: m.skipped.remove(at), ..m };
        assert forall|i: int| 0 <= i < after.skipped.len() implies (#[trigger] after.skipped[i]) == m.skipped[if i < at {
            i
        } else {
            i + 1
        }] by {}
        assert forall|i: int, j: int|
            #![trigger after.skipped[i], after.skipped[j]]
            0 <= i < j < after.skipped.len() implies after.skipped[i].iteration < after.skipped[j].iteration by {
            let ki = if i < at {
                i
            } else {
                i + 1
            };
            let kj = if j < at {
                j
            } else {
                j + 1
            };
            assert(after.skipped[i] == m.skipped[ki] && after.skipped[j] == m.skipped[kj]);
        }
        assert forall|j: int| #![trigger keeps(after, s.iteration + j)] 0 <= j < reached(now) implies (keeps(
            after,
            s.iteration + j,
        ) <==> !has_arrived(now, j)) by {
            assert(keeps(m, s.iteration + j) <==> !has_arrived(prior, j));
            if keeps(after, s.iteration + j) {
                let i = choose|i: int| 0 <= i < after.skipped.len() && (#[trigger] after.skipped[i]).iteration
                    == s.iteration + j;
                let ki = if i < at {
                    i
                } else {
                    i + 1
                };
                assert(after.skipped[i] == m.skipped[ki]);
                assert(m.skipped[ki].iteration == s.iteration + j);
                assert(keeps(m, s.iteration + j));
                if j == k {
                    assert(m.skipped[at].iteration == m.skipped[ki].iteration);
                }
            }
            if !has_arrived(now, j) {
                let i = choose|i: int| 0 <= i < m.skipped.len() && (#[trigger] m.skipped[i]).iteration == s.iteration + j;
                let ai = if i < at {
                    i
                } else {
                    i - 1
                };
                assert(i != at);
                assert(after.skipped[ai] == m.skipped[i]);
            }
        }
        assert(has_arrived(now, k));
    } else if k < reached(prior) {
        assert(keeps(m, s.iteration + k) <==> !has_arrived(prior, k));
        assert forall|j: int| #![trigger keeps(m, s.iteration + j)] 0 <= j < reached(now) implies (keeps(
            m,
            s.iteration + j,
        ) <==> !has_arrived(now, j)) by {
            assert(keeps(m, s.iteration + j) <==> !has_arrived(prior, j));
        }
    } else {
        assert(!has_arrived(prior, k));
        law_message_opens(m, public, s.chain_key, s.iteration, iteration, plaintexts[k], wire);
        let count = (iteration - m.iteration) as nat;
        let run = skipped_run(m.iteration, m.chain_key, count);
        lemma_store_all(m.skipped, run, m.iteration);
        lemma_store_with_room(m.skipped, run);
        let after = decrypt_step(m, wire)->Ok_0.1;
        assert(after.skipped == m.skipped + run);
        assert forall|i: int| 0 <= i < after.skipped.len() implies ({
            &&& (#[trigger] after.skipped[i]).iteration >= s.iteration
            &&& after.skipped[i].keys == message_keys(chain_at(s.chain_key, s.iteration, after.skipped[i].iteration))
        }) by {
            if i < m.skipped.len() {
                assert(after.skipped[i] == m.skipped[i]);
            } else {
                let d = i - m.skipped.len();
                assert(after.skipped[i] == run[d]);
                lemma_chain_key_sum(s.chain_key, (m.iteration - s.iteration) as nat, d as nat);
            }
        }
        assert forall|j: int| #![trigger keeps(after, s.iteration + j)] 0 <= j < reached(now) implies (keeps(
            after,
            s.iteration + j,
        ) <==> !has_arrived(now, j)) by {
            if j < reached(prior) {
                assert(keeps(m, s.iteration + j) <==> !has_arrived(prior, j));
                if keeps(m, s.iteration + j) {
                    let i = choose|i: int| 0 <= i < m.skipped.len() && (#[trigger] m.skipped[i]).iteration == s.iteration
                        + j;
                    assert(after.skipped[i] == m.skipped[i]);
                }
                if keeps(after, s.iteration + j) {
                    let i = choose|i: int| 0 <= i < after.skipped.len() && (#[trigger] after.skipped[i]).iteration
                        == s.iteration + j;
                    if i >= m.skipped.len() {
                        assert(after.skipped[i] == run[i - m.skipped.len()]);
                    } else {
                        assert(after.skipped[i] == m.skipped[i]);
                    }
                }
            } else if j < k {
                let d = j - reached(prior);
                assert(after.skipped[m.skipped.len() + d] == run[d]);
                assert(!has_arrived(prior, j));
            } else {
                if keeps(after, s.iteration + j) {
                    let i = choose|i: int| 0 <= i < after.skipped.len() && (#[trigger] after.skipped[i]).iteration
                        == s.iteration + j;
                    if i >= m.skipped.len() {
                        assert(after.skipped[i] == run[i - m.skipped.len()]);
                    } else {
                        assert(after.skipped[i] == m.skipped[i]);
                    }
                }
                assert(has_arrived(now, k));
            }
        }
    }
}

/// Arrivals bring a receiver to its place.
proof fn lemma_in_place(s: SenderModel, plaintexts: Seq<Seq<u8>>, wires: Seq<Seq<u8>>, arrivals: Seq<Arrival>)
    requires
        valid_sender(s),
        crypto::ed25519_is_key(crypto::ed25519_public(s.seed)),
        sent_by(s, plaintexts, wires),
        s.iteration + wires.len() <= u32::MAX,
        within_bounds(receiver_of(distribution_of(s)), wires, arrivals),
    ensures
        in_place(after_arrivals(receiver_of(distribution_of(s)), wires, arrivals), s, arrivals),
    decreases arrivals.len(),
{
    let start = receiver_of(distribution_of(s));
    if arrivals.len() > 0 {
        let prior = arrivals.drop_last();
        lemma_in_place(s, plaintexts, wires, prior);
        let m = after_arrivals(start, wires, prior);
        match arrivals.last() {
            Arrival::Sent(k) => {
                assert(prior.push(Arrival::Sent(k)) =~= arrivals);
                lemma_next_arrival(m, s, plaintexts, wires, prior, k);
            },
            Arrival::Other(w) => {
                assert forall|k: int| #![trigger has_arrived(arrivals, k)] has_arrived(arrivals, k) <==> has_arrived(
                    prior,
                    k,
                ) by {
                    lemma_has_arrived(arrivals, k);
                }
                assert forall|k: int| #![trigger keeps(m, s.iteration + k)] 0 <= k < reached(arrivals) implies (keeps(
                    m,
                    s.iteration + k,
                ) <==> !has_arrived(arrivals, k)) by {
                    assert(keeps(m, s.iteration + k) <==> !has_arrived(prior, k));
                }
            },
        }
    }
}

/// Every message opens exactly once. Who follows a sender from its distribution
/// on opens each of the messages made after that to its plaintext when it first
/// arrives, whatever the order, and refuses it whenever it arrives again, as long
/// as arrivals stay within the bounds. Whatever else arrives and is refused in
/// between changes nothing of that.
pub proof fn law_each_message_opens_once(
    s: SenderModel,
    plaintexts: Seq<Seq<u8>>,
    wires: Seq<Seq<u8>>,
    arrivals: Seq<Arrival>,
    k: int,
)
    requires
        valid_sender(s),
        crypto::ed25519_is_key(crypto::ed25519_public(s.seed)),
        sent_by(s, plaintexts, wires),
        s.iteration + wires.len() <= u32::MAX,
        within_bounds(receiver_of(distribution_of(s)), wires, arrivals.push(Arrival::Sent(k))),
    ensures
        ({
            let m = after_arrivals(receiver_of(distribution_of(s)), wires, arrivals);
            match decrypt_step(m, wires[k]) {
                Ok((out, _)) => !has_arrived(arrivals, k) && out == plaintexts[k],
                Err(e) => has_arrived(arrivals, k) && e == GroupError::Decrypt,
            }
        }),
{
    let all = arrivals.push(Arrival::Sent(k));
    assert(all.drop_last() =~= arrivals);
    lemma_in_place(s, plaintexts, wires, arrivals);
    lemma_next_arrival(
        after_arrivals(receiver_of(distribution_of(s)), wires, arrivals),
        s,
        plaintexts,
        wires,
        arrivals,
        k,
    );
}

/// What does not carry the sender's signature is refused for that, whatever else
/// it holds: a message of another sender does not open.
pub proof fn law_strangers_are_refused(m: ReceiverModel, public: Seq<u8>, wire: Seq<u8>)
    requires
        m.verify_key == Some(public),
        wire.len() >= MIN_WIRE_LEN,
        !signed_by(public, wire),
    ensures
        decrypt_step(m, wire) == Err::<(Seq<u8>, ReceiverModel), GroupError>(GroupError::BadSignature),
{
}

/// Whatever opens carries a signature that is accepted under the sender's key:
/// a member who knows the chain cannot speak for its owner.
pub proof fn law_opened_messages_are_signed(m: ReceiverModel, wire: Seq<u8>)
    requires
        decrypt_step(m, wire) is Ok,
    ensures
        m.verify_key matches Some(public) && signed_by(public, wire),
{
}

/// A signed message is refused for being too far ahead exactly where more than 2000
/// messages before it are missing, and then nothing of it is opened. One that was passed
/// over and whose keys are not kept does not open either.
pub proof fn law_far_ahead_is_refused(m: ReceiverModel, wire: Seq<u8>)
    requires
        keeps_order(m),
        wire.len() >= 84,
        m.verify_key is Some,
        signed_by(m.verify_key->0, wire),
    ensures
        wire_iteration(wire) - m.iteration > 2000 <==> decrypt_step(m, wire) == Err::<
            (Seq<u8>, ReceiverModel),
            GroupError,
        >(GroupError::TooManySkipped),
        wire_iteration(wire) < m.iteration && (forall|i: int|
            0 <= i < m.skipped.len() ==> (#[trigger] m.skipped[i]).iteration != wire_iteration(wire)) ==> decrypt_step(
            m,
            wire,
        ) == Err::<(Seq<u8>, ReceiverModel), GroupError>(GroupError::Decrypt),
{
    lemma_skipped_index(m.skipped, wire_iteration(wire));
}

/// What opens at the front of the chain, or ahead of it, was made with the chain key of
/// its own iteration, with that iteration bound in: nothing else opens there. Whatever
/// opens, the sender stays the one that is followed, the chain never goes back, and no
/// more than 2000 keys are kept.
pub proof fn law_only_genuine_messages_open(
    m: ReceiverModel,
    public: Seq<u8>,
    ck0: Seq<u8>,
    base: int,
    wire: Seq<u8>,
)
    requires
        keeps_order(m),
        follows(m, public, ck0, base),
        decrypt_step(m, wire) is Ok,
    ensures
        ({
            let (out, after) = decrypt_step(m, wire)->Ok_0;
            let iteration = wire_iteration(wire);
            &&& iteration >= m.iteration ==> genuine(chain_at(ck0, base, iteration), iteration, out, wire)
            &&& after.verify_key == m.verify_key
            &&& after.iteration >= m.iteration
            &&& iteration < m.iteration ==> after.iteration == m.iteration && after.chain_key == m.chain_key
            &&& iteration < m.iteration ==> after.skipped.len() == m.skipped.len() - 1
            &&& after.skipped.len() <= 2000
        }),
{
    let iteration = wire_iteration(wire);
    lemma_skipped_index(m.skipped, iteration);
    bytes::lemma_be32(0, wire.subrange(0, 4));
    if iteration >= m.iteration {
        let count = (iteration - m.iteration) as nat;
        lemma_chain_key_sum(ck0, (m.iteration - base) as nat, count);
        lemma_store_all(m.skipped, skipped_run(m.iteration, m.chain_key, count), m.iteration);
    }
}

/// Of the keys that were passed over the newest 2000 are kept, and the oldest go first.
pub proof fn law_the_newest_keys_are_kept(s: Seq<SkippedModel>, new: Seq<SkippedModel>)
    requires
        s.len() <= 2000,
    ensures
        ({
            let all = s + new;
            &&& all.len() <= 2000 ==> store_all(s, new) == all
            &&& all.len() > 2000 ==> store_all(s, new) == all.subrange(all.len() - 2000, all.len() as int)
        }),
    decreases new.len(),
{
    let all = s + new;
    if new.len() == 0 {
        assert(all =~= s);
        assert(all.subrange(all.len() - all.len(), all.len() as int) =~= s);
    } else {
        let shorter = new.drop_last();
        law_the_newest_keys_are_kept(s, shorter);
        let before = s + shorter;
        assert(before.push(new.last()) =~= all);
        if all.len() > 2000 {
            assert(store_all(s, new) =~= all.subrange(all.len() - 2000, all.len() as int));
        } else {
            assert(store_all(s, new) =~= all);
        }
    }
}

/// The key and the nonce of a message are the two parts of what HKDF-SHA256 gives for its
/// chain key under the label of message keys; the next chain key is what it gives under
/// the label of chain keys. Neither label is the other, so that from the keys of a message
/// nobody steps to the next.
pub proof fn law_keys_are_derived_apart(ck: Seq<u8>)
    requires
        crypto::hkdf_sha256(None, ck, "Ciphext-SenderKey-v1-MessageKey".spec_bytes(), 44).len() == 44,
    ensures
        message_keys(ck).0.len() == 32,
        message_keys(ck).1.len() == 12,
        message_keys(ck).0 + message_keys(ck).1 == crypto::hkdf_sha256(
            None,
            ck,
            "Ciphext-SenderKey-v1-MessageKey".spec_bytes(),
            44,
        ),
        next_chain_key(ck) == crypto::hkdf_sha256(None, ck, "Ciphext-SenderKey-v1-ChainKey".spec_bytes(), 32),
        INFO_MSG@ != INFO_CHAIN@,
{
    reveal_strlit("Ciphext-SenderKey-v1-MessageKey");
    reveal_strlit("Ciphext-SenderKey-v1-ChainKey");
    assert(INFO_MSG@.len() != INFO_CHAIN@.len());
    let okm = crypto::hkdf_sha256(None, ck, INFO_MSG.spec_bytes(), 44);
    assert(okm.subrange(0, 32) + okm.subrange(32, 44) =~= okm);
}

/// A message is its iteration, its ciphertext and its signature, which is made over the
/// other two with the key of the sender. After it the sender is one iteration on, with
/// the same signing key.
pub proof fn law_messages_are_signed_whole(s: SenderModel, plaintext: Seq<u8>)
    requires
        valid_sender(s),
        crypto::ed25519_sign(s.seed, signed_part(s, plaintext)).len() == 64,
    ensures
        ({
            let wire = wire_of(s, plaintext);
            let n = wire.len() - 64;
            &&& n >= 4
            &&& wire_iteration(wire) == s.iteration
            &&& wire.subrange(n, wire.len() as int) == crypto::ed25519_sign(s.seed, wire.subrange(0, n))
            &&& wire_ciphertext(wire) == crypto::chacha20poly1305_seal(
                message_keys(s.chain_key).0,
                message_keys(s.chain_key).1,
                wire.subrange(0, 4),
                plaintext,
            )
            &&& sender_after(s).seed == s.seed
            &&& s.iteration < u32::MAX ==> sender_after(s).iteration == s.iteration + 1
        }),
{
    bytes::lemma_be32(s.iteration, bytes::zeros(4));
    let wire = wire_of(s, plaintext);
    let n = wire.len() - 64;
    assert(wire.subrange(0, 4) =~= bytes::be32(s.iteration));
    assert(wire.subrange(0, n) =~= signed_part(s, plaintext));
    assert(wire.subrange(n, wire.len() as int) =~= crypto::ed25519_sign(s.seed, signed_part(s, plaintext)));
    assert(wire_ciphertext(wire) =~= crypto::chacha20poly1305_seal(
        message_keys(s.chain_key).0,
        message_keys(s.chain_key).1,
        bytes::be32(s.iteration),
        plaintext,
    ));
}

/// What is too short to be a message is malformed, and nothing else is; what is long enough
/// is looked at further only with the sender's signature.
pub proof fn law_short_messages_are_malformed(m: ReceiverModel, wire: Seq<u8>)
    ensures
        wire.len() < 84 <==> decrypt_step(m, wire) == Err::<(Seq<u8>, ReceiverModel), GroupError>(
            GroupError::Malformed,
        ),
        wire.len() >= 84 && (m.verify_key is None || !signed_by(m.verify_key->0, wire)) <==> decrypt_step(m, wire)
            == Err::<(Seq<u8>, ReceiverModel), GroupError>(GroupError::BadSignature),
{
}

} // verus!
