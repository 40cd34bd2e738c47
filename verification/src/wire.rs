//! The Noise handshake and the records behind it, one message at a time.
//!
//! Two ends prove who they are, either by their long-term keys (`XX`) or by a
//! code word (`NNpsk0` under a key that a password-authenticated exchange made
//! of the word). Afterwards every message is one sealed record. Whoever owns
//! the connection moves the bytes; whose turn it is, what is refused and what
//! comes of it is decided here.
use vstd::prelude::*;
use vstd::string::*;
use vstd::utf8::*;

use rand::SeedableRng;

use crate::bytes;
use crate::crypto;
use crate::crypto::{Secret, SecretBytes};
use crate::identity::NOISE_PARAMS;
use crate::text;

verus! {

/// The longest message of the Noise protocol.
pub const MAX_NOISE_MSG: usize = 65535;

/// The handshake between two holders of a code word.
pub const NOISE_PSK_PARAMS: &'static str = "Noise_NNpsk0_25519_ChaChaPoly_BLAKE2s";

/// The label of the exchange over a code word, so that none of another
/// application can be replayed here.
pub const SPAKE_APP_ID: &'static str = "ciphext/pake/v1";

/// The label of the key that the exchange hands to the handshake.
pub const PSK_INFO: &'static str = "ciphext/pake-to-noise-psk/v1";

/// The state of a Noise handshake, as the `snow` crate keeps it.
#[verifier::external_type_specification]
#[verifier::external_body]
pub struct ExHandshakeState(snow::HandshakeState);

/// The state of an established Noise session, as the `snow` crate keeps it.
#[verifier::external_type_specification]
#[verifier::external_body]
pub struct ExTransportState(snow::TransportState);

/// The error of the `snow` crate.
#[verifier::external_type_specification]
#[verifier::external_body]
pub struct ExSnowError(snow::Error);

/// The name of the protocol that a handshake runs, with which its state was
/// built.
pub uninterp spec fn noise_name(state: snow::HandshakeState) -> Seq<char>;

/// Whether the state of a handshake was built for the end that starts it.
pub uninterp spec fn noise_initiates(state: snow::HandshakeState) -> bool;

/// The key that the state of a handshake was built with: our private key, or the
/// key that both ends share beforehand. It has 32 bytes, or none where the state
/// was built without one.
pub uninterp spec fn noise_key(state: snow::HandshakeState) -> Seq<u8>;

/// The long-term key that the peer has shown, if it has.
pub uninterp spec fn noise_remote(state: snow::HandshakeState) -> Option<Seq<u8>>;

/// How many messages have passed in a handshake.
pub uninterp spec fn noise_position(state: snow::HandshakeState) -> nat;

/// Whether the state of a handshake takes a message as the next of the peer.
pub uninterp spec fn noise_reads(state: snow::HandshakeState, msg: Seq<u8>) -> bool;

/// The hash of all that has passed in a handshake.
pub uninterp spec fn noise_hash(state: snow::HandshakeState) -> Seq<u8>;

/// The hash with which a handshake starts, by the name of its protocol.
pub uninterp spec fn noise_start(name: Seq<char>) -> Seq<u8>;

/// The hash of all that has passed once one more message has, by the key that both
/// ends share beforehand where there is one, the hash before, the position of the
/// message and the message.
pub uninterp spec fn noise_mixed(psk: Option<Seq<u8>>, hash: Seq<u8>, position: nat, msg: Seq<u8>) -> Seq<u8>;

/// The messages that have passed in a handshake. Only a handshake has them here
/// whose state was built with nothing but its protocol, its end and its key, and
/// which has refused nothing so far.
pub uninterp spec fn noise_passed(state: snow::HandshakeState) -> Option<Seq<Seq<u8>>>;

/// The ephemeral secret of an end, which it draws for the first message that it
/// writes.
pub uninterp spec fn noise_ephemeral(state: snow::HandshakeState) -> Seq<u8>;

/// The message that an end of such a handshake writes next, by the protocol, the
/// key and the ephemeral secret of the end and the messages that have passed.
pub uninterp spec fn noise_message(name: Seq<char>, key: Seq<u8>, ephemeral: Seq<u8>, passed: Seq<Seq<u8>>) -> Seq<u8>;

/// The two keys that an end of such a handshake gets out of it, the one that the
/// initiator sends with in front, by the protocol, whether the end is the
/// initiator, its key, its ephemeral secret and all messages.
pub uninterp spec fn noise_keys(
    name: Seq<char>,
    initiator: bool,
    key: Seq<u8>,
    ephemeral: Seq<u8>,
    passed: Seq<Seq<u8>>,
) -> Seq<Seq<u8>>;

/// What an end of an exchange over a password sends, by the password, the name
/// of the exchange and the random number that its own secret is made of.
pub uninterp spec fn spake2_message(password: Seq<u8>, id: Seq<u8>, seed: Seq<u8>) -> Seq<u8>;

/// What an end of an exchange over a password gets out of a message of the other
/// end, if that is one.
pub uninterp spec fn spake2_key(password: Seq<u8>, id: Seq<u8>, seed: Seq<u8>, inbound: Seq<u8>) -> Option<Seq<u8>>;

/// The keys that a session which came of a handshake seals and opens its records
/// with, where both ends may send and the cipher is ChaCha20-Poly1305: the one
/// for sending, and the one for receiving. Any other session has none here.
pub uninterp spec fn record_keys(ts: snow::TransportState) -> Seq<Seq<u8>>;

/// How many records such a session has sealed, and how many it has opened.
pub uninterp spec fn record_counts(ts: snow::TransportState) -> Seq<u64>;

/// What can go wrong on the wire.
#[derive(Debug)]
pub enum WireError {
    /// A frame is longer than its length field can say.
    FrameTooLarge,
    /// The exchange over the code word failed.
    Exchange(ExchangeError),
    /// The handshake could not be set up.
    Setup(snow::Error),
    /// A message of the handshake was refused.
    Handshake(snow::Error),
    /// A message of a handshake over a code word was refused: most likely the
    /// two ends have different words.
    WrongCode(snow::Error),
    /// The peer showed no long-term key.
    NoStaticKey,
    /// The handshake did not lead to a session.
    Transport(snow::Error),
    /// A message is too long for a record.
    TooLong,
    /// A record could not be sealed.
    Seal(snow::Error),
    /// A record could not be opened.
    Open(snow::Error),
}

// ---------------------------------------------------------------------------
// Frames
// ---------------------------------------------------------------------------

/// The bytes of a frame: its length, and what it holds.
pub open spec fn frame_bytes(data: Seq<u8>) -> Seq<u8> {
    bytes::be16(data.len() as int) + data
}

/// The bytes of a frame around `data`.
pub fn encode_frame(data: &[u8]) -> (r: Result<Vec<u8>, WireError>)
    ensures
        match r {
            Ok(frame) => data@.len() <= MAX_NOISE_MSG && frame@ == frame_bytes(data@),
            Err(e) => data@.len() > MAX_NOISE_MSG && e is FrameTooLarge,
        },
{
    if data.len() > MAX_NOISE_MSG {
        return Err(WireError::FrameTooLarge);
    }
    let mut out: Vec<u8> = Vec::new();
    bytes::put_be16(&mut out, data.len() as u16);
    out.extend_from_slice(data);
    assert(out@ =~= frame_bytes(data@));
    Ok(out)
}

/// How much follows the two length bytes of a frame.
pub fn frame_len(prefix: &[u8; 2]) -> (r: usize)
    ensures
        r == bytes::from_be16(prefix@),
{
    assert(prefix@.subrange(0, 2) =~= prefix@);
    bytes::get_be16(prefix.as_slice(), 0) as usize
}

/// The length in front of a frame is that of what it holds.
pub proof fn law_frame_length(data: Seq<u8>)
    requires
        data.len() <= MAX_NOISE_MSG,
    ensures
        bytes::from_be16(frame_bytes(data).take(2)) == data.len(),
        frame_bytes(data).skip(2) == data,
{
    bytes::lemma_be16(data.len() as int, bytes::zeros(2));
    assert(frame_bytes(data).take(2) =~= bytes::be16(data.len() as int));
    assert(frame_bytes(data).skip(2) =~= data);
}

// ---------------------------------------------------------------------------
// The handshake
// ---------------------------------------------------------------------------

/// Why a message of an exchange over a code word is refused.
#[derive(Debug, Clone, Copy, PartialEq, Eq, Structural)]
pub enum ExchangeError {
    /// It does not have the length of such a message.
    WrongLength,
    /// It is of another kind of exchange.
    BadSide,
    /// It holds no point of the curve.
    Corrupt,
}

/// `spake2::Spake2::start_symmetric_with_rng` over the Ed25519 group, with the
/// random numbers of `rand::rngs::StdRng` on a seed: the message for the other
/// end. It is one byte that says which kind of exchange it is of, and a point.
#[verifier::external_body]
fn spake_start(password: &[u8], id: &[u8], seed: &[u8; 32]) -> (r: Vec<u8>)
    ensures
        r@ == spake2_message(password@, id@, seed@),
        r@.len() == 33,
        r@[0] == 0x53,
{
    let (word, name) = (spake2::Password::new(password), spake2::Identity::new(id));
    let rng = rand::rngs::StdRng::from_seed(*seed);
    spake2::Spake2::<spake2::Ed25519Group>::start_symmetric_with_rng(&word, &name, rng).1
}

/// `spake2::Spake2::finish` on what `start_symmetric_with_rng` makes of the same
/// password and seed. The length of the message is looked at first, then its
/// kind, then its point. Both ends agree: whoever sent `inbound` over the same
/// password gets the same key out of our message.
#[verifier::external_body]
fn spake_finish(password: &[u8], id: &[u8], seed: &[u8; 32], inbound: &[u8]) -> (r: Result<Vec<u8>, ExchangeError>)
    ensures
        match r {
            Ok(key) => {
                &&& inbound@.len() == 33 && inbound@[0] == 0x53
                &&& spake2_key(password@, id@, seed@, inbound@) == Some(key@)
                &&& key@.len() == 32
            },
            Err(ExchangeError::WrongLength) => inbound@.len() != 33,
            Err(ExchangeError::BadSide) => inbound@.len() == 33 && inbound@[0] != 0x53,
            Err(ExchangeError::Corrupt) => {
                &&& inbound@.len() == 33 && inbound@[0] == 0x53
                &&& spake2_key(password@, id@, seed@, inbound@) is None
            },
        },
        forall|other: Seq<u8>|
            other.len() == 32 && inbound@ == #[trigger] spake2_message(password@, id@, other) ==> r is Ok && spake2_key(
                password@,
                id@,
                other,
                spake2_message(password@, id@, seed@),
            ) == Some(r->Ok_0@),
{
    let (word, name) = (spake2::Password::new(password), spake2::Identity::new(id));
    let rng = rand::rngs::StdRng::from_seed(*seed);
    let ours = spake2::Spake2::<spake2::Ed25519Group>::start_symmetric_with_rng(&word, &name, rng).0;
    match ours.finish(inbound) {
        Ok(key) => Ok(key),
        Err(spake2::Error::WrongLength) => Err(ExchangeError::WrongLength),
        Err(spake2::Error::BadSide) => Err(ExchangeError::BadSide),
        Err(spake2::Error::CorruptMessage) => Err(ExchangeError::Corrupt),
    }
}

/// The password that a code word stands for: the word without white space
/// around it, in UTF-8.
pub open spec fn code_password(code: Seq<char>) -> Seq<u8> {
    encode_utf8(text::trimmed(code))
}

/// Our end of the exchange over a code word, with which a handshake between two
/// holders of the word begins. The word itself is never sent, and who does not
/// know it learns nothing to try words on.
pub struct CodeExchange {
    word: String,
    seed: Secret,
}

/// Our end of an exchange, as contracts see it.
pub struct ExchangeModel {
    pub password: Seq<u8>,
    pub seed: Seq<u8>,
}

impl View for CodeExchange {
    type V = ExchangeModel;

    closed spec fn view(&self) -> ExchangeModel {
        ExchangeModel { password: encode_utf8(self.word@), seed: self.seed@ }
    }
}

/// What an end of the exchange sends.
pub open spec fn exchange_message(m: ExchangeModel) -> Seq<u8> {
    spake2_message(m.password, SPAKE_APP_ID.spec_bytes(), m.seed)
}

/// What an end of the exchange gets out of a message of the other end.
pub open spec fn exchange_key(m: ExchangeModel, inbound: Seq<u8>) -> Option<Seq<u8>> {
    spake2_key(m.password, SPAKE_APP_ID.spec_bytes(), m.seed, inbound)
}

impl CodeExchange {
    /// Starts an exchange over a code word, from a random number drawn
    /// beforehand.
    pub fn start_with(code: &str, seed: Secret) -> (r: Self)
        ensures
            r@ == (ExchangeModel { password: code_password(code@), seed: seed@ }),
    {
        CodeExchange { word: text::trim(code), seed }
    }

    /// Starts an exchange over a code word.
    pub fn start(code: &str) -> (r: Self)
        ensures
            r@.password == code_password(code@),
            r@.seed.len() == 32,
    {
        CodeExchange::start_with(code, Secret::new(crypto::random_bytes::<32>()))
    }

    /// What the other end gets.
    pub fn message(&self) -> (r: Vec<u8>)
        ensures
            r@ == exchange_message(self@),
            r@.len() == 33,
    {
        spake_start(self.word.as_str().as_bytes(), SPAKE_APP_ID.as_bytes(), &self.seed.bytes)
    }

    /// The key of the handshake, from the message of the other end. Two ends
    /// with the same word come to the same key.
    pub fn agree(&self, inbound: &[u8]) -> (r: Result<Secret, ExchangeError>)
        ensures
            match r {
                Ok(psk) => {
                    &&& inbound@.len() == 33 && inbound@[0] == 0x53
                    &&& exchange_key(self@, inbound@) matches Some(key) && psk@ == psk_of(key)
                },
                Err(ExchangeError::WrongLength) => inbound@.len() != 33,
                Err(ExchangeError::BadSide) => inbound@.len() == 33 && inbound@[0] != 0x53,
                Err(ExchangeError::Corrupt) => {
                    &&& inbound@.len() == 33 && inbound@[0] == 0x53
                    &&& exchange_key(self@, inbound@) is None
                },
            },
            forall|other: ExchangeModel|
                other.password == self@.password && other.seed.len() == 32 && inbound@ == #[trigger] exchange_message(
                    other,
                ) ==> r is Ok && exchange_key(other, exchange_message(self@)) is Some && r->Ok_0@ == psk_of(
                    exchange_key(other, exchange_message(self@))->0,
                ),
    {
        match spake_finish(self.word.as_str().as_bytes(), SPAKE_APP_ID.as_bytes(), &self.seed.bytes, inbound) {
            Ok(key) => {
                let shared = SecretBytes { bytes: key };
                Ok(derive_psk(shared.as_slice()))
            },
            Err(e) => Err(e),
        }
    }
}

/// The key that a handshake over a code word is bound to, made of what the
/// exchange over the word agreed on. Who does not know the word cannot make it.
pub open spec fn psk_of(shared: Seq<u8>) -> Seq<u8> {
    crypto::hkdf_sha256(None, shared, PSK_INFO.spec_bytes(), 32)
}

/// The key of a handshake over a code word.
fn derive_psk(shared: &[u8]) -> (r: Secret)
    ensures
        r@ == psk_of(shared@),
{
    Secret::new(crypto::hkdf::<32>(None, shared, PSK_INFO.as_bytes()))
}

/// A private key as it is used: with zeros behind it up to its full length.
pub open spec fn padded(private: Seq<u8>) -> Seq<u8> {
    private + bytes::zeros((32 - private.len()) as nat)
}

/// `snow::Builder::build_initiator` for a handshake between long-term keys, with
/// our private key, which is filled up with zeros. It does not fail: the protocol
/// is one that the crate knows, and needs no other key. The state is one of that
/// protocol, that end and that key, and nothing has passed yet.
#[verifier::external_body]
fn initiate_xx(private: &[u8]) -> (r: Result<snow::HandshakeState, snow::Error>)
    requires
        private@.len() <= 32,
    ensures
        r is Ok,
        r matches Ok(state) ==> {
            &&& noise_name(state) == NOISE_PARAMS@
            &&& noise_initiates(state) == true
            &&& noise_key(state) == padded(private@)
            &&& noise_position(state) == 0
            &&& noise_hash(state) == noise_start(noise_name(state))
            &&& noise_passed(state) == Some(Seq::<Seq<u8>>::empty())
        },
{
    snow::Builder::new(NOISE_PARAMS.parse()?).local_private_key(private).build_initiator()
}

/// `snow::Builder::build_responder` for a handshake between long-term keys, with
/// our private key, which is filled up with zeros. It does not fail: the protocol
/// is one that the crate knows, and needs no other key. The state is one of that
/// protocol, that end and that key, and nothing has passed yet.
#[verifier::external_body]
fn respond_xx(private: &[u8]) -> (r: Result<snow::HandshakeState, snow::Error>)
    requires
        private@.len() <= 32,
    ensures
        r is Ok,
        r matches Ok(state) ==> {
            &&& noise_name(state) == NOISE_PARAMS@
            &&& noise_initiates(state) == false
            &&& noise_key(state) == padded(private@)
            &&& noise_position(state) == 0
            &&& noise_hash(state) == noise_start(noise_name(state))
            &&& noise_passed(state) == Some(Seq::<Seq<u8>>::empty())
        },
{
    snow::Builder::new(NOISE_PARAMS.parse()?).local_private_key(private).build_responder()
}

/// `snow::Builder::build_initiator` for a handshake over a code word, with its
/// key. It does not fail: the protocol is one that the crate knows, and the key
/// has the right length. The state is one of that protocol, that end and that
/// key, and nothing has passed yet.
#[verifier::external_body]
fn initiate_psk(psk: &[u8; 32]) -> (r: Result<snow::HandshakeState, snow::Error>)
    ensures
        r is Ok,
        r matches Ok(state) ==> {
            &&& noise_name(state) == NOISE_PSK_PARAMS@
            &&& noise_initiates(state) == true
            &&& noise_key(state) == psk@
            &&& noise_position(state) == 0
            &&& noise_hash(state) == noise_start(noise_name(state))
            &&& noise_passed(state) == Some(Seq::<Seq<u8>>::empty())
        },
{
    snow::Builder::new(NOISE_PSK_PARAMS.parse()?).psk(0, psk).build_initiator()
}

/// `snow::Builder::build_responder` for a handshake over a code word, with its
/// key. It does not fail: the protocol is one that the crate knows, and the key
/// has the right length. The state is one of that protocol, that end and that
/// key, and nothing has passed yet.
#[verifier::external_body]
fn respond_psk(psk: &[u8; 32]) -> (r: Result<snow::HandshakeState, snow::Error>)
    ensures
        r is Ok,
        r matches Ok(state) ==> {
            &&& noise_name(state) == NOISE_PSK_PARAMS@
            &&& noise_initiates(state) == false
            &&& noise_key(state) == psk@
            &&& noise_position(state) == 0
            &&& noise_hash(state) == noise_start(noise_name(state))
            &&& noise_passed(state) == Some(Seq::<Seq<u8>>::empty())
        },
{
    snow::Builder::new(NOISE_PSK_PARAMS.parse()?).psk(0, psk).build_responder()
}

/// Whether the state of a handshake is of the same protocol, end and key as
/// another.
pub open spec fn same_setup(before: snow::HandshakeState, after: snow::HandshakeState) -> bool {
    &&& noise_name(after) == noise_name(before)
    &&& noise_initiates(after) == noise_initiates(before)
    &&& noise_key(after) == noise_key(before)
}

/// Whether the state of a handshake is of one of the two protocols, with a key.
pub open spec fn keyed(state: snow::HandshakeState) -> bool {
    &&& noise_name(state) == NOISE_PARAMS@ || noise_name(state) == NOISE_PSK_PARAMS@
    &&& noise_key(state).len() == 32
}

/// How many messages the protocol of a handshake has.
pub open spec fn noise_count(state: snow::HandshakeState) -> nat {
    if noise_name(state) == NOISE_PSK_PARAMS@ {
        2
    } else {
        3
    }
}

/// Whether the next message of a handshake is ours.
pub open spec fn ours_is_next(state: snow::HandshakeState) -> bool {
    noise_position(state) < noise_count(state) && (noise_position(state) % 2 == 0) == noise_initiates(state)
}

/// Whether the next message of a handshake is the peer's.
pub open spec fn theirs_is_next(state: snow::HandshakeState) -> bool {
    noise_position(state) < noise_count(state) && (noise_position(state) % 2 == 0) != noise_initiates(state)
}

/// The key that both ends of a handshake share beforehand, where there is one.
pub open spec fn psk_part(state: snow::HandshakeState) -> Option<Seq<u8>> {
    if noise_name(state) == NOISE_PSK_PARAMS@ {
        Some(noise_key(state))
    } else {
        None
    }
}

/// The messages with one more behind them.
pub open spec fn one_more(passed: Option<Seq<Seq<u8>>>, msg: Seq<u8>) -> Option<Seq<Seq<u8>>> {
    match passed {
        Some(all) => Some(all.push(msg)),
        None => None,
    }
}

/// Whether messages are what two ends write in turn, the initiator with the first
/// key and ephemeral secret.
pub open spec fn made_by(
    name: Seq<char>,
    first_key: Seq<u8>,
    first_ephemeral: Seq<u8>,
    second_key: Seq<u8>,
    second_ephemeral: Seq<u8>,
    passed: Seq<Seq<u8>>,
) -> bool {
    forall|i: int|
        #![trigger passed[i]]
        0 <= i < passed.len() ==> passed[i] == if i % 2 == 0 {
            noise_message(name, first_key, first_ephemeral, passed.take(i))
        } else {
            noise_message(name, second_key, second_ephemeral, passed.take(i))
        }
}

/// Whether messages are what an end writes in turn with a peer of the given key
/// and ephemeral secret.
pub open spec fn made_with(
    state: snow::HandshakeState,
    key: Seq<u8>,
    ephemeral: Seq<u8>,
    passed: Seq<Seq<u8>>,
) -> bool {
    &&& key.len() == 32
    &&& ephemeral.len() == 32
    &&& noise_name(state) == NOISE_PSK_PARAMS@ ==> key == noise_key(state)
    &&& if noise_initiates(state) {
        made_by(noise_name(state), noise_key(state), noise_ephemeral(state), key, ephemeral, passed)
    } else {
        made_by(noise_name(state), key, ephemeral, noise_key(state), noise_ephemeral(state), passed)
    }
}

/// The two keys of a handshake as one end has them: the one for sending in front.
pub open spec fn sided(keys: Seq<Seq<u8>>, initiator: bool) -> Seq<Seq<u8>> {
    if initiator {
        keys
    } else {
        seq![keys[1], keys[0]]
    }
}

/// How long the message at a position of a handshake is: an ephemeral key, in the
/// last two messages between long-term keys a sealed long-term key, and a tag as
/// soon as there is a key to make it with.
pub open spec fn handshake_len(with_code: bool, position: nat) -> nat {
    if with_code {
        48
    } else if position == 0 {
        32
    } else if position == 1 {
        96
    } else {
        64
    }
}

/// `snow::HandshakeState::write_message` with an empty payload. In its turn it
/// does not fail: every key that the message is made of is there, and the buffer
/// is long enough. For the first message of an end an ephemeral secret is drawn;
/// the message is made of it, of the key of the end and of what has passed, and of
/// nothing else. The hash goes on with the message. The protocol, the end and its
/// key stay the same, and a message has passed unless it failed.
#[verifier::external_body]
fn write_handshake(state: &mut snow::HandshakeState) -> (r: Result<Vec<u8>, snow::Error>)
    ensures
        keyed(*old(state)) && ours_is_next(*old(state)) ==> (r matches Ok(msg) && msg@.len() == handshake_len(
            noise_name(*old(state)) == NOISE_PSK_PARAMS@,
            noise_position(*old(state)),
        )),
        keyed(*old(state)) && r is Ok ==> if noise_position(*old(state)) < 2 {
            noise_ephemeral(*final(state)).len() == 32
        } else {
            noise_ephemeral(*final(state)) == noise_ephemeral(*old(state))
        },
        keyed(*old(state)) && noise_passed(*old(state)) is Some ==> (r matches Ok(msg) ==> msg@ == noise_message(
            noise_name(*old(state)),
            noise_key(*old(state)),
            noise_ephemeral(*final(state)),
            noise_passed(*old(state))->0,
        )),
        keyed(*old(state)) ==> match r {
            Ok(msg) => {
                &&& noise_hash(*final(state)) == noise_mixed(
                    psk_part(*old(state)),
                    noise_hash(*old(state)),
                    noise_position(*old(state)),
                    msg@,
                )
                &&& noise_passed(*final(state)) == one_more(noise_passed(*old(state)), msg@)
            },
            Err(_) => noise_hash(*final(state)) == noise_hash(*old(state)),
        },
        same_setup(*old(state), *final(state)),
        noise_position(*final(state)) == noise_position(*old(state)) + if r is Ok {
            1nat
        } else {
            0nat
        },
{
    let mut out = vec![0u8; MAX_NOISE_MSG];
    let n = state.write_message(&[], &mut out)?;
    out.truncate(n);
    Ok(out)
}

/// `snow::HandshakeState::read_message`. Whether a message is taken rests on the
/// state and on the message alone. One longer than the protocol allows is not
/// taken; the one that a peer writes next, who has written all that came before,
/// is. The hash goes on with a message that is taken. The protocol, the end, its
/// key and its ephemeral secret stay the same, and a message has passed if it was
/// taken.
#[verifier::external_body]
fn read_handshake(state: &mut snow::HandshakeState, msg: &[u8]) -> (r: Result<(), snow::Error>)
    ensures
        r is Ok <==> noise_reads(*old(state), msg@),
        msg@.len() > MAX_NOISE_MSG ==> r is Err,
        keyed(*old(state)) && theirs_is_next(*old(state)) && noise_passed(*old(state)) is Some ==> forall|
            key: Seq<u8>,
            ephemeral: Seq<u8>,
        | #[trigger]
            made_with(*old(state), key, ephemeral, (noise_passed(*old(state))->0).push(msg@)) ==> r is Ok,
        keyed(*old(state)) ==> match r {
            Ok(_) => {
                &&& noise_hash(*final(state)) == noise_mixed(
                    psk_part(*old(state)),
                    noise_hash(*old(state)),
                    noise_position(*old(state)),
                    msg@,
                )
                &&& noise_passed(*final(state)) == one_more(noise_passed(*old(state)), msg@)
            },
            Err(_) => noise_hash(*final(state)) == noise_hash(*old(state)) && noise_passed(*final(state)) is None,
        },
        noise_ephemeral(*final(state)) == noise_ephemeral(*old(state)),
        same_setup(*old(state), *final(state)),
        noise_position(*final(state)) == noise_position(*old(state)) + if r is Ok {
            1nat
        } else {
            0nat
        },
{
    let mut payload = vec![0u8; MAX_NOISE_MSG];
    state.read_message(msg, &mut payload).map(|_| ())
}

/// `snow::HandshakeState::get_remote_static`: the peer's long-term key, if it
/// showed one. Which one that is is up to the peer; an X25519 key has 32 bytes.
/// Once all messages of a handshake between long-term keys have passed there is
/// one: the public key of the peer who has written them.
#[verifier::external_body]
fn remote_static(state: &snow::HandshakeState) -> (r: Option<Vec<u8>>)
    ensures
        match r {
            Some(key) => key@.len() == 32 && noise_remote(*state) == Some(key@),
            None => noise_remote(*state) is None,
        },
        noise_name(*state) == NOISE_PARAMS@ && noise_position(*state) == 3 ==> r is Some,
        keyed(*state) && noise_name(*state) == NOISE_PARAMS@ && noise_position(*state) == 3 && noise_passed(
            *state,
        ) is Some ==> forall|key: Seq<u8>, ephemeral: Seq<u8>| #[trigger]
            made_with(*state, key, ephemeral, noise_passed(*state)->0) ==> r->0@ == crypto::x25519_public(key),
{
    state.get_remote_static().map(|key| key.to_vec())
}

/// `snow::HandshakeState::get_handshake_hash`, of which BLAKE2s fills 32 bytes.
#[verifier::external_body]
fn handshake_hash(state: &snow::HandshakeState) -> (r: [u8; 32])
    ensures
        r@ == noise_hash(*state),
{
    let mut hash = [0u8; 32];
    hash.copy_from_slice(&state.get_handshake_hash()[..32]);
    hash
}

/// `snow::HandshakeState::into_transport_mode`. It succeeds once all messages of
/// the protocol have passed, and not before. Both protocols let either end send,
/// and seal with ChaCha20-Poly1305. The session has counted nothing yet. Its keys
/// are made of the key of the end, its ephemeral secret and the messages, and a
/// peer who has written the other messages gets the same two.
#[verifier::external_body]
fn into_transport(state: snow::HandshakeState) -> (r: Result<snow::TransportState, snow::Error>)
    ensures
        keyed(state) ==> match r {
            Ok(ts) => {
                &&& noise_position(state) == noise_count(state)
                &&& record_keys(ts).len() == 2
                &&& record_counts(ts) == seq![0u64, 0u64]
            },
            Err(_) => noise_position(state) != noise_count(state),
        },
        keyed(state) && noise_passed(state) is Some ==> (r matches Ok(ts) ==> {
            &&& record_keys(ts) == sided(
                noise_keys(
                    noise_name(state),
                    noise_initiates(state),
                    noise_key(state),
                    noise_ephemeral(state),
                    noise_passed(state)->0,
                ),
                noise_initiates(state),
            )
            &&& forall|key: Seq<u8>, ephemeral: Seq<u8>| #[trigger]
                made_with(state, key, ephemeral, noise_passed(state)->0) ==> record_keys(ts) == sided(
                    noise_keys(noise_name(state), !noise_initiates(state), key, ephemeral, noise_passed(state)->0),
                    noise_initiates(state),
                )
        }),
{
    state.into_transport_mode()
}

/// Whether a session has the keys and counts that records are made with.
pub open spec fn two_way(ts: snow::TransportState) -> bool {
    &&& record_keys(ts).len() == 2
    &&& record_counts(ts).len() == 2
}

/// What the owner of the connection has to do next.
#[derive(Debug, Clone, Copy, PartialEq, Eq, Structural)]
pub enum Turn {
    /// Send what `write` gives.
    Write,
    /// Receive a frame and hand it to `read`.
    Read,
    /// Nothing: the handshake is complete.
    Done,
}

/// A handshake under way.
pub struct Handshake {
    state: snow::HandshakeState,
    initiator: bool,
    with_code: bool,
    position: u8,
}

/// A handshake under way, as contracts see it.
pub struct HandshakeModel {
    /// Whether we sent the first message.
    pub initiator: bool,
    /// Whether a code word vouches for the ends, instead of long-term keys.
    pub with_code: bool,
    /// How many messages have passed.
    pub position: nat,
    /// Our private key, or the key that both ends have from the code word.
    pub key: Seq<u8>,
    /// Our ephemeral secret, which is drawn for our first message.
    pub ephemeral: Seq<u8>,
    /// The messages that have passed, as long as none was refused.
    pub passed: Option<Seq<Seq<u8>>>,
}

impl View for Handshake {
    type V = HandshakeModel;

    closed spec fn view(&self) -> HandshakeModel {
        HandshakeModel {
            initiator: self.initiator,
            with_code: self.with_code,
            position: self.position as nat,
            key: noise_key(self.state),
            ephemeral: noise_ephemeral(self.state),
            passed: noise_passed(self.state),
        }
    }
}

/// The name of the protocol of a handshake.
pub open spec fn protocol(with_code: bool) -> Seq<char> {
    if with_code {
        NOISE_PSK_PARAMS@
    } else {
        NOISE_PARAMS@
    }
}

/// The key that both ends share beforehand, where a code word vouches.
pub open spec fn shared_key(m: HandshakeModel) -> Option<Seq<u8>> {
    if m.with_code {
        Some(m.key)
    } else {
        None
    }
}

/// The hash of messages that have passed, one after the other.
pub open spec fn transcript_hash(name: Seq<char>, psk: Option<Seq<u8>>, passed: Seq<Seq<u8>>) -> Seq<u8>
    decreases passed.len(),
{
    if passed.len() == 0 {
        noise_start(name)
    } else {
        noise_mixed(
            psk,
            transcript_hash(name, psk, passed.drop_last()),
            (passed.len() - 1) as nat,
            passed.last(),
        )
    }
}

/// The hash of all that has passed in a handshake that has refused nothing.
pub open spec fn hash_of(m: HandshakeModel) -> Seq<u8> {
    transcript_hash(protocol(m.with_code), shared_key(m), m.passed->0)
}

/// How many messages a handshake has.
pub open spec fn message_count(m: HandshakeModel) -> nat {
    if m.with_code {
        2
    } else {
        3
    }
}

/// Whose turn it is: the initiator starts, and the ends take turns.
pub open spec fn turn(m: HandshakeModel) -> Turn {
    if m.position >= message_count(m) {
        Turn::Done
    } else if (m.position % 2 == 0) == m.initiator {
        Turn::Write
    } else {
        Turn::Read
    }
}

/// The handshake after one more message.
pub open spec fn advanced(m: HandshakeModel, msg: Seq<u8>) -> HandshakeModel {
    HandshakeModel { position: m.position + 1, passed: one_more(m.passed, msg), ..m }
}

/// The handshake after we have written a message, with the ephemeral secret that
/// it was made with.
pub open spec fn after_write(m: HandshakeModel, ephemeral: Seq<u8>, msg: Seq<u8>) -> HandshakeModel {
    HandshakeModel { ephemeral, ..advanced(m, msg) }
}

/// Whether an end that writes next may do so with this ephemeral secret: a fresh
/// one for its first message, and the same afterwards.
pub open spec fn may_use(m: HandshakeModel, ephemeral: Seq<u8>) -> bool {
    if m.position < 2 {
        ephemeral.len() == 32
    } else {
        ephemeral == m.ephemeral
    }
}

/// What an end that has refused nothing writes next.
pub open spec fn next_message(m: HandshakeModel, ephemeral: Seq<u8>) -> Seq<u8> {
    noise_message(protocol(m.with_code), m.key, ephemeral, m.passed->0)
}

/// Whether an end has written a message.
pub open spec fn has_written(m: HandshakeModel) -> bool {
    m.position >= if m.initiator {
        1nat
    } else {
        2nat
    }
}

/// Whether two handshakes are the two ends of one: they have opposite roles and
/// the same key from a code word where there is one, and what has passed at either
/// is what they have written in turn.
pub open spec fn meet(a: HandshakeModel, b: HandshakeModel) -> bool {
    &&& a.initiator != b.initiator
    &&& a.with_code == b.with_code
    &&& a.position == b.position
    &&& a.key.len() == 32 && b.key.len() == 32
    &&& a.with_code ==> a.key == b.key
    &&& has_written(a) ==> a.ephemeral.len() == 32
    &&& has_written(b) ==> b.ephemeral.len() == 32
    &&& a.passed is Some && a.passed == b.passed
    &&& (a.passed->0).len() == a.position
    &&& if a.initiator {
        made_by(protocol(a.with_code), a.key, a.ephemeral, b.key, b.ephemeral, a.passed->0)
    } else {
        made_by(protocol(a.with_code), b.key, b.ephemeral, a.key, a.ephemeral, a.passed->0)
    }
}

/// The two keys that come of a handshake, the one that the initiator sends with in
/// front.
pub open spec fn keys_of(m: HandshakeModel) -> Seq<Seq<u8>> {
    noise_keys(protocol(m.with_code), m.initiator, m.key, m.ephemeral, m.passed->0)
}

/// Whether a session is one that comes of a handshake: it has counted nothing, and
/// has the keys of the handshake, which are also those of the other end.
pub open spec fn comes_of(ts: snow::TransportState, m: HandshakeModel) -> bool {
    &&& two_way(ts)
    &&& record_counts(ts) == seq![0u64, 0u64]
    &&& m.passed is Some ==> record_keys(ts) == sided(keys_of(m), m.initiator)
    &&& forall|peer: HandshakeModel| #[trigger]
        meet(m, peer) ==> record_keys(ts) == sided(keys_of(peer), m.initiator)
}

/// What came of a handshake.
pub struct Session {
    /// The keys to seal and open records with.
    pub transport: snow::TransportState,
    /// The peer's long-term key. There is none where a code word vouched.
    pub remote_static: Vec<u8>,
    /// A value that both ends have got from the handshake. It is the seed of
    /// the ratchet, and nothing else.
    pub handshake_hash: [u8; 32],
}

/// The two protocols have different names.
proof fn lemma_protocols_differ()
    ensures
        NOISE_PARAMS@ != NOISE_PSK_PARAMS@,
{
    reveal_strlit("Noise_XX_25519_ChaChaPoly_BLAKE2s");
    reveal_strlit("Noise_NNpsk0_25519_ChaChaPoly_BLAKE2s");
    assert(NOISE_PARAMS@.len() != NOISE_PSK_PARAMS@.len());
}

impl Handshake {
    /// No more messages have passed than there are, and the state is built for
    /// our end and for the way in which the ends vouch for themselves, with a key,
    /// has come as far, and has hashed what has passed.
    pub closed spec fn wf(&self) -> bool {
        &&& self@.position <= message_count(self@)
        &&& noise_initiates(self.state) == self.initiator
        &&& noise_name(self.state) == protocol(self.with_code)
        &&& noise_key(self.state).len() == 32
        &&& noise_position(self.state) == self@.position
        &&& self@.passed is Some ==> (self@.passed->0).len() == self@.position && self.hash() == hash_of(self@)
    }

    /// A handshake between long-term keys. A private key that is too short is
    /// filled up with zeros.
    pub fn with_identity(private: &[u8], initiator: bool) -> (r: Result<Handshake, WireError>)
        requires
            private@.len() <= 32,
        ensures
            r matches Ok(h) && h.wf() && h.hash() == noise_start(NOISE_PARAMS@) && h@ == (HandshakeModel {
                initiator,
                with_code: false,
                position: 0,
                key: padded(private@),
                ephemeral: h@.ephemeral,
                passed: Some(Seq::empty()),
            }) && h@.key.len() == 32,
    {
        let built = if initiator {
            initiate_xx(private)
        } else {
            respond_xx(private)
        };
        proof {
            lemma_protocols_differ();
        }
        match built {
            Ok(state) => Ok(Handshake { state, initiator, with_code: false, position: 0 }),
            Err(e) => Err(WireError::Setup(e)),
        }
    }

    /// The peer's long-term key, as far as it has shown one.
    pub closed spec fn remote(&self) -> Option<Seq<u8>> {
        noise_remote(self.state)
    }

    /// Whether a message is taken as the next of the peer.
    pub closed spec fn accepts(&self, msg: Seq<u8>) -> bool {
        noise_reads(self.state, msg)
    }

    /// The hash of all that has passed.
    pub closed spec fn hash(&self) -> Seq<u8> {
        noise_hash(self.state)
    }

    /// A handshake over a code word, from the exchange over the word and the
    /// message of the other end in it. Where that end has the same word, it comes
    /// to the same key.
    pub fn with_code(exchange: &CodeExchange, inbound: &[u8], initiator: bool) -> (r: Result<Handshake, WireError>)
        ensures
            match r {
                Ok(h) => {
                    &&& h.wf()
                    &&& h.hash() == noise_start(NOISE_PSK_PARAMS@)
                    &&& exchange_key(exchange@, inbound@) matches Some(key) && h@ == (HandshakeModel {
                        initiator,
                        with_code: true,
                        position: 0,
                        key: psk_of(key),
                        ephemeral: h@.ephemeral,
                        passed: Some(Seq::empty()),
                    })
                },
                Err(WireError::Exchange(ExchangeError::WrongLength)) => inbound@.len() != 33,
                Err(WireError::Exchange(ExchangeError::BadSide)) => inbound@.len() == 33 && inbound@[0] != 0x53,
                Err(WireError::Exchange(ExchangeError::Corrupt)) => {
                    &&& inbound@.len() == 33 && inbound@[0] == 0x53
                    &&& exchange_key(exchange@, inbound@) is None
                },
                Err(_) => false,
            },
            exchange_key(exchange@, inbound@) is Some && inbound@.len() == 33 && inbound@[0] == 0x53 ==> r is Ok,
            r matches Ok(h) ==> h@.key.len() == 32,
            forall|other: ExchangeModel|
                other.password == exchange@.password && other.seed.len() == 32 && inbound@ == #[trigger] exchange_message(
                    other,
                ) ==> r is Ok && exchange_key(other, exchange_message(exchange@)) is Some && r->Ok_0@.key == psk_of(
                    exchange_key(other, exchange_message(exchange@))->0,
                ),
    {
        let psk = match exchange.agree(inbound) {
            Ok(psk) => psk,
            Err(e) => {
                return Err(WireError::Exchange(e));
            },
        };
        let built = if initiator {
            initiate_psk(&psk.bytes)
        } else {
            respond_psk(&psk.bytes)
        };
        match built {
            Ok(state) => Ok(Handshake { state, initiator, with_code: true, position: 0 }),
            Err(e) => Err(WireError::Setup(e)),
        }
    }

    /// Whose turn it is.
    pub fn turn(&self) -> (r: Turn)
        ensures
            r == turn(self@),
    {
        let count: u8 = if self.with_code {
            2
        } else {
            3
        };
        if self.position >= count {
            Turn::Done
        } else if (self.position % 2 == 0) == self.initiator {
            Turn::Write
        } else {
            Turn::Read
        }
    }

    /// The next message to send. An ephemeral secret is drawn for the first one;
    /// the message is made of it, of our key and of what has passed.
    pub fn write(&mut self) -> (r: Result<Vec<u8>, WireError>)
        requires
            old(self).wf(),
            turn(old(self)@) == Turn::Write,
        ensures
            final(self).wf(),
            r matches Ok(msg) && {
                &&& msg@.len() == handshake_len(old(self)@.with_code, old(self)@.position)
                &&& may_use(old(self)@, final(self)@.ephemeral)
                &&& final(self)@ == after_write(old(self)@, final(self)@.ephemeral, msg@)
                &&& old(self)@.passed is Some ==> msg@ == next_message(old(self)@, final(self)@.ephemeral)
                &&& final(self).hash() == noise_mixed(
                    shared_key(old(self)@),
                    old(self).hash(),
                    old(self)@.position,
                    msg@,
                )
            },
    {
        proof {
            lemma_protocols_differ();
        }
        match write_handshake(&mut self.state) {
            Ok(msg) => {
                self.position = self.position + 1;
                proof {
                    lemma_one_more_hashed(old(self)@, msg@);
                }
                Ok(msg)
            },
            Err(e) => Err(WireError::Handshake(e)),
        }
    }

    /// Takes in a message. What the other end of the handshake writes next is
    /// taken. A message that is refused leaves the handshake where it is; where a
    /// code word vouches, the refusal says so.
    pub fn read(&mut self, msg: &[u8]) -> (r: Result<(), WireError>)
        requires
            old(self).wf(),
            turn(old(self)@) == Turn::Read,
        ensures
            final(self).wf(),
            match r {
                Ok(_) => {
                    &&& final(self)@ == advanced(old(self)@, msg@)
                    &&& final(self).hash() == noise_mixed(
                        shared_key(old(self)@),
                        old(self).hash(),
                        old(self)@.position,
                        msg@,
                    )
                },
                Err(e) => {
                    &&& final(self)@ == (HandshakeModel { passed: None, ..old(self)@ })
                    &&& final(self).hash() == old(self).hash()
                    &&& old(self)@.with_code ==> e is WrongCode
                    &&& !old(self)@.with_code ==> e is Handshake
                },
            },
            r is Ok <==> old(self).accepts(msg@),
            msg@.len() > MAX_NOISE_MSG ==> r is Err,
            forall|peer: HandshakeModel| #[trigger] meet(peer, advanced(old(self)@, msg@)) ==> r is Ok,
    {
        proof {
            lemma_protocols_differ();
            assert forall|peer: HandshakeModel| #[trigger]
                meet(peer, advanced(self@, msg@)) implies made_with(
                self.state,
                peer.key,
                peer.ephemeral,
                (noise_passed(self.state)->0).push(msg@),
            ) by {}
        }
        match read_handshake(&mut self.state, msg) {
            Ok(_) => {
                self.position = self.position + 1;
                proof {
                    lemma_one_more_hashed(old(self)@, msg@);
                }
                Ok(())
            },
            Err(e) => if self.with_code {
                Err(WireError::WrongCode(e))
            } else {
                Err(WireError::Handshake(e))
            },
        }
    }

    /// Ends the handshake. A peer who was to show a long-term key has done so by
    /// now; where a code word vouched there is none.
    pub fn finish(self) -> (r: Result<Session, WireError>)
        requires
            self.wf(),
            turn(self@) == Turn::Done,
        ensures
            r matches Ok(session) && {
                &&& session.handshake_hash@ == self.hash()
                &&& self@.passed is Some ==> session.handshake_hash@ == hash_of(self@)
                &&& if self@.with_code {
                    session.remote_static@.len() == 0
                } else {
                    self.remote() == Some(session.remote_static@) && session.remote_static@.len() == 32
                }
                &&& comes_of(session.transport, self@)
                &&& forall|peer: HandshakeModel| #[trigger]
                    meet(self@, peer) && !self@.with_code ==> session.remote_static@ == crypto::x25519_public(peer.key)
            },
    {
        proof {
            lemma_protocols_differ();
            assert forall|peer: HandshakeModel| #[trigger] meet(self@, peer) implies made_with(
                self.state,
                peer.key,
                peer.ephemeral,
                noise_passed(self.state)->0,
            ) by {}
        }
        let remote = if self.with_code {
            Vec::new()
        } else {
            match remote_static(&self.state) {
                Some(key) => key,
                None => {
                    return Err(WireError::NoStaticKey);
                },
            }
        };
        let hash = handshake_hash(&self.state);
        match into_transport(self.state) {
            Ok(transport) => Ok(Session { transport, remote_static: remote, handshake_hash: hash }),
            Err(e) => Err(WireError::Transport(e)),
        }
    }
}

/// One more message is hashed behind the others.
proof fn lemma_one_more_hashed(m: HandshakeModel, msg: Seq<u8>)
    ensures
        m.passed is Some && (m.passed->0).len() == m.position ==> hash_of(advanced(m, msg)) == noise_mixed(
            shared_key(m),
            hash_of(m),
            m.position,
            msg,
        ),
{
    if m.passed is Some {
        assert((m.passed->0).push(msg).drop_last() =~= m.passed->0);
    }
}

/// Two ends of one protocol, with one key from a code word where there is one, that
/// have passed the same messages have the same hash of them. So both get the same
/// value out of the handshake.
pub proof fn law_both_ends_get_one_hash(a: Handshake, b: Handshake)
    requires
        a.wf(),
        b.wf(),
        a@.with_code == b@.with_code,
        a@.with_code ==> a@.key == b@.key,
        a@.passed is Some,
        a@.passed == b@.passed,
    ensures
        a.hash() == b.hash(),
        hash_of(a@) == hash_of(b@),
        a.hash() == hash_of(a@),
{
}

/// Two ends that have just been set up, for opposite roles and with the same key
/// from a code word where there is one, are the two ends of one handshake.
pub proof fn law_new_ends_meet(a: HandshakeModel, b: HandshakeModel)
    requires
        a.initiator != b.initiator,
        a.with_code == b.with_code,
        a.key.len() == 32,
        b.key.len() == 32,
        a.with_code ==> a.key == b.key,
        a.position == 0,
        b.position == 0,
        a.passed == Some(Seq::<Seq<u8>>::empty()),
        b.passed == Some(Seq::<Seq<u8>>::empty()),
    ensures
        meet(a, b),
        meet(b, a),
{
}

/// What one end of a handshake writes is what the other end reads: where it is the
/// turn of one to write it is the turn of the other to read, and with the message
/// they are still the two ends of one handshake, so that it is taken.
pub proof fn law_written_messages_are_read(a: HandshakeModel, b: HandshakeModel, ephemeral: Seq<u8>)
    requires
        meet(a, b),
        turn(a) == Turn::Write,
        may_use(a, ephemeral),
    ensures
        turn(b) == Turn::Read,
        ({
            let msg = next_message(a, ephemeral);
            &&& meet(after_write(a, ephemeral, msg), advanced(b, msg))
            &&& meet(advanced(b, msg), after_write(a, ephemeral, msg))
        }),
{
    let msg = next_message(a, ephemeral);
    let before = a.passed->0;
    let passed = before.push(msg);
    let name = protocol(a.with_code);
    assert forall|i: int| #![trigger passed[i]] 0 <= i < passed.len() implies passed[i] == if (i % 2 == 0)
        == a.initiator {
        noise_message(name, a.key, ephemeral, passed.take(i))
    } else {
        noise_message(name, b.key, b.ephemeral, passed.take(i))
    } by {
        assert(passed.take(i) =~= before.take(i));
        if i < before.len() {
            assert(passed[i] == before[i]);
        } else {
            assert(before.take(i) =~= before);
        }
    }
}

/// The two ends of a handshake after `n` messages, with the ephemeral secrets that
/// they draw, where each reads what the other has written.
pub open spec fn exchanged(
    first: HandshakeModel,
    second: HandshakeModel,
    first_ephemeral: Seq<u8>,
    second_ephemeral: Seq<u8>,
    n: nat,
) -> (HandshakeModel, HandshakeModel)
    decreases n,
{
    if n == 0 {
        (first, second)
    } else {
        let (a, b) = exchanged(first, second, first_ephemeral, second_ephemeral, (n - 1) as nat);
        if (n - 1) % 2 == 0 {
            let msg = next_message(a, first_ephemeral);
            (after_write(a, first_ephemeral, msg), advanced(b, msg))
        } else {
            let msg = next_message(b, second_ephemeral);
            (advanced(a, msg), after_write(b, second_ephemeral, msg))
        }
    }
}

/// A handshake between two ends that have just been set up goes through to its end,
/// whatever ephemeral secrets they draw: every message is taken, and when all have
/// passed both are done, at the two ends of one handshake and with one hash.
pub proof fn law_handshakes_complete(
    first: HandshakeModel,
    second: HandshakeModel,
    first_ephemeral: Seq<u8>,
    second_ephemeral: Seq<u8>,
    n: nat,
)
    requires
        meet(first, second),
        first.initiator,
        first.position == 0,
        first_ephemeral.len() == 32,
        second_ephemeral.len() == 32,
        n <= message_count(first),
    ensures
        ({
            let (a, b) = exchanged(first, second, first_ephemeral, second_ephemeral, n);
            &&& meet(a, b)
            &&& meet(b, a)
            &&& a.position == n
            &&& n < message_count(first) ==> if n % 2 == 0 {
                turn(a) == Turn::Write && turn(b) == Turn::Read
            } else {
                turn(a) == Turn::Read && turn(b) == Turn::Write
            }
            &&& n == message_count(first) ==> turn(a) == Turn::Done && turn(b) == Turn::Done
            &&& hash_of(a) == hash_of(b)
            &&& a.initiator && a.with_code == first.with_code && a.key == first.key && b.key == second.key
            &&& n >= 1 ==> a.ephemeral == first_ephemeral
            &&& n >= 2 ==> b.ephemeral == second_ephemeral
        }),
    decreases n,
{
    if n > 0 {
        law_handshakes_complete(first, second, first_ephemeral, second_ephemeral, (n - 1) as nat);
        let (a, b) = exchanged(first, second, first_ephemeral, second_ephemeral, (n - 1) as nat);
        if (n - 1) % 2 == 0 {
            law_written_messages_are_read(a, b, first_ephemeral);
        } else {
            law_written_messages_are_read(b, a, second_ephemeral);
        }
    }
}

/// The sessions that the two ends of a handshake get out of it fit together: each
/// opens what the other seals.
pub proof fn law_sessions_fit(
    a: HandshakeModel,
    b: HandshakeModel,
    for_a: snow::TransportState,
    for_b: snow::TransportState,
)
    requires
        meet(a, b),
        comes_of(for_a, a),
        comes_of(for_b, b),
    ensures
        in_step(for_a, for_b),
        in_step(for_b, for_a),
        hash_of(a) == hash_of(b),
{
}

/// Two ends of a handshake that have passed the same number of messages fit
/// together: while it lasts one writes and the other reads, and they are done
/// at the same time.
pub proof fn law_turns_fit(a: HandshakeModel, b: HandshakeModel)
    requires
        a.initiator != b.initiator,
        a.with_code == b.with_code,
        a.position == b.position,
    ensures
        turn(a) == Turn::Write <==> turn(b) == Turn::Read,
        turn(a) == Turn::Read <==> turn(b) == Turn::Write,
        turn(a) == Turn::Done <==> turn(b) == Turn::Done,
{
}

// ---------------------------------------------------------------------------
// Records
// ---------------------------------------------------------------------------

/// The nonce of a record: its number, the lowest byte first, behind four zeros.
pub open spec fn record_nonce(n: u64) -> Seq<u8> {
    bytes::zeros(4) + bytes::be64(n as int).reverse()
}

/// The record that a plaintext is sealed as under a key, as the `n`-th.
pub open spec fn record_of(key: Seq<u8>, n: u64, plaintext: Seq<u8>) -> Seq<u8> {
    crypto::chacha20poly1305_seal(key, record_nonce(n), Seq::empty(), plaintext)
}

/// The plaintext of a record under a key, as the `n`-th, if that is what it is.
pub open spec fn plaintext_of(key: Seq<u8>, n: u64, record: Seq<u8>) -> Option<Seq<u8>> {
    crypto::chacha20poly1305_open(key, record_nonce(n), Seq::empty(), record)
}

/// Whether a session can seal one more record.
pub open spec fn can_seal(ts: snow::TransportState) -> bool {
    record_counts(ts)[0] < u64::MAX
}

/// Whether a record opens in a session, and what it holds.
pub open spec fn opens_to(ts: snow::TransportState, record: Seq<u8>) -> Option<Seq<u8>> {
    if 16 <= record.len() <= MAX_NOISE_MSG && record_counts(ts)[1] < u64::MAX {
        plaintext_of(record_keys(ts)[1], record_counts(ts)[1], record)
    } else {
        None
    }
}

/// Whether a session with the keys and counts of `before` has those of `after`
/// once it has sealed (`which` is 0) or opened (1) a record.
pub open spec fn counted(before: snow::TransportState, after: snow::TransportState, which: int) -> bool {
    &&& record_keys(after) == record_keys(before)
    &&& record_counts(after) == record_counts(before).update(which, (record_counts(before)[which] + 1) as u64)
}

/// Whether a session has the keys and counts of another.
pub open spec fn unchanged(before: snow::TransportState, after: snow::TransportState) -> bool {
    &&& record_keys(after) == record_keys(before)
    &&& record_counts(after) == record_counts(before)
}

/// Whether a session seals a plaintext as a record, from which the other end
/// gets the plaintext back.
pub open spec fn seals(
    before: snow::TransportState,
    after: snow::TransportState,
    plaintext: Seq<u8>,
    record: Seq<u8>,
) -> bool {
    let key = record_keys(before)[0];
    let n = record_counts(before)[0];
    &&& record == record_of(key, n, plaintext)
    &&& plaintext_of(key, n, record) == Some(plaintext)
    &&& counted(before, after, 0)
}

/// `snow::TransportState::write_message`. The plaintext is sealed with
/// ChaCha20-Poly1305 under the key for sending, with the number of the record
/// as its nonce, and can be got back from the record. Only a count that is used
/// up makes it fail, and then nothing changes. Of sessions with another cipher
/// only the length of a record is stated.
#[verifier::external_body]
fn write_record(ts: &mut snow::TransportState, plaintext: &[u8]) -> (r: Result<Vec<u8>, snow::Error>)
    requires
        plaintext@.len() + 16 <= MAX_NOISE_MSG,
    ensures
        r matches Ok(record) ==> record@.len() == plaintext@.len() + 16,
        two_way(*old(ts)) ==> match r {
            Ok(record) => can_seal(*old(ts)) && seals(*old(ts), *final(ts), plaintext@, record@),
            Err(_) => !can_seal(*old(ts)) && unchanged(*old(ts), *final(ts)),
        },
{
    let mut out = vec![0u8; plaintext.len() + 16];
    let n = ts.write_message(plaintext, &mut out)?;
    out.truncate(n);
    Ok(out)
}

/// `snow::TransportState::read_message`. A record is opened with
/// ChaCha20-Poly1305 under the key for receiving, with its number as the nonce.
/// What is too short for a tag or longer than the protocol allows is refused,
/// and so is what was altered or comes out of turn; then nothing changes. Of
/// sessions with another cipher only the length of a plaintext is stated.
#[verifier::external_body]
fn read_record(ts: &mut snow::TransportState, record: &[u8]) -> (r: Result<Vec<u8>, snow::Error>)
    ensures
        r matches Ok(plaintext) ==> record@.len() == plaintext@.len() + 16 && record@.len() <= MAX_NOISE_MSG,
        two_way(*old(ts)) ==> match r {
            Ok(plaintext) => opens_to(*old(ts), record@) == Some(plaintext@) && counted(*old(ts), *final(ts), 1),
            Err(_) => opens_to(*old(ts), record@) is None && unchanged(*old(ts), *final(ts)),
        },
{
    let mut out = vec![0u8; record.len()];
    let n = ts.read_message(record, &mut out)?;
    out.truncate(n);
    Ok(out)
}

/// Seals a message as one record. A message that leaves no room for the tag is
/// too long, and no record is made.
pub fn seal(ts: &mut snow::TransportState, plaintext: &[u8]) -> (r: Result<Vec<u8>, WireError>)
    ensures
        match r {
            Ok(record) => {
                &&& plaintext@.len() <= MAX_NOISE_MSG - 16
                &&& record@.len() == plaintext@.len() + 16
                &&& two_way(*old(ts)) ==> can_seal(*old(ts)) && seals(*old(ts), *final(ts), plaintext@, record@)
            },
            Err(e) => if plaintext@.len() > MAX_NOISE_MSG - 16 {
                e is TooLong && *final(ts) == *old(ts)
            } else {
                &&& e is Seal
                &&& two_way(*old(ts)) ==> !can_seal(*old(ts)) && unchanged(*old(ts), *final(ts))
            },
        },
{
    if plaintext.len() > MAX_NOISE_MSG - 16 {
        return Err(WireError::TooLong);
    }
    match write_record(ts, plaintext) {
        Ok(record) => Ok(record),
        Err(e) => Err(WireError::Seal(e)),
    }
}

/// Opens a record. One that was altered, or comes out of turn, is refused.
pub fn open(ts: &mut snow::TransportState, record: &[u8]) -> (r: Result<Vec<u8>, WireError>)
    ensures
        match r {
            Ok(plaintext) => {
                &&& record@.len() == plaintext@.len() + 16
                &&& record@.len() <= MAX_NOISE_MSG
                &&& two_way(*old(ts)) ==> opens_to(*old(ts), record@) == Some(plaintext@) && counted(
                    *old(ts),
                    *final(ts),
                    1,
                )
            },
            Err(e) => {
                &&& e is Open
                &&& two_way(*old(ts)) ==> opens_to(*old(ts), record@) is None && unchanged(*old(ts), *final(ts))
            },
        },
{
    match read_record(ts, record) {
        Ok(plaintext) => Ok(plaintext),
        Err(e) => Err(WireError::Open(e)),
    }
}

/// Whether `b` opens next what `a` seals next.
pub open spec fn in_step(a: snow::TransportState, b: snow::TransportState) -> bool {
    &&& two_way(a)
    &&& two_way(b)
    &&& record_keys(a)[0] == record_keys(b)[1]
    &&& record_counts(a)[0] == record_counts(b)[1]
}

/// What one end seals, the other end opens to the same plaintext, and both stay
/// in step.
pub proof fn law_sealed_records_open(
    a: snow::TransportState,
    sealed_by: snow::TransportState,
    b: snow::TransportState,
    plaintext: Seq<u8>,
    record: Seq<u8>,
)
    requires
        in_step(a, b),
        can_seal(a),
        plaintext.len() + 16 <= MAX_NOISE_MSG,
        record.len() == plaintext.len() + 16,
        seals(a, sealed_by, plaintext, record),
    ensures
        opens_to(b, record) == Some(plaintext),
        forall|opened_by: snow::TransportState| #[trigger] counted(b, opened_by, 1) ==> in_step(sealed_by, opened_by),
{
}

/// White space around a code word makes no difference, and nothing else is left out: two
/// words make the same password exactly where they are the same without the white space
/// around them.
pub proof fn law_code_words_are_told_apart(a: Seq<char>, b: Seq<char>)
    ensures
        code_password(a) == code_password(b) <==> text::trimmed(a) == text::trimmed(b),
        vstd::utf8::valid_utf8(code_password(a)) && decode_utf8(code_password(a)) == text::trimmed(a),
{
    encode_utf8_valid_utf8(text::trimmed(a));
    encode_utf8_decode_utf8(text::trimmed(a));
    encode_utf8_decode_utf8(text::trimmed(b));
}

/// The key of a handshake over a code word comes of what was agreed on, by HKDF-SHA256
/// under a label of its own; and the exchange runs under the label of this application.
pub proof fn law_exchanges_are_labelled(m: ExchangeModel, inbound: Seq<u8>, shared: Seq<u8>)
    ensures
        psk_of(shared) == crypto::hkdf_sha256(None, shared, "ciphext/pake-to-noise-psk/v1".spec_bytes(), 32),
        exchange_message(m) == spake2_message(m.password, "ciphext/pake/v1".spec_bytes(), m.seed),
        exchange_key(m, inbound) == spake2_key(m.password, "ciphext/pake/v1".spec_bytes(), m.seed, inbound),
{
}

/// No two records of a session have the same nonce, each is of twelve bytes, and the
/// number of a record can be read from it.
pub proof fn law_nonces_are_used_once(a: u64, b: u64)
    ensures
        record_nonce(a).len() == 12,
        a != b ==> record_nonce(a) != record_nonce(b),
        record_nonce(a).take(4) == bytes::zeros(4),
        bytes::from_be64(record_nonce(a).skip(4).reverse()) == a,
{
    bytes::lemma_be64(a as int, bytes::zeros(8));
    bytes::lemma_be64(b as int, bytes::zeros(8));
    assert(record_nonce(a).skip(4).reverse() =~= bytes::be64(a as int));
    assert(record_nonce(b).skip(4).reverse() =~= bytes::be64(b as int));
    assert(record_nonce(a).take(4) =~= bytes::zeros(4));
}

/// A private key is used as it is, with zeros behind it where it is short.
pub proof fn law_keys_are_filled_up(private: Seq<u8>, i: int)
    requires
        private.len() <= 32,
        0 <= i < 32,
    ensures
        padded(private).len() == 32,
        padded(private)[i] == if i < private.len() { private[i] } else { 0u8 },
{
}

/// A handshake takes two messages where a code word vouches and three where long-term keys
/// do. The initiator writes the first, the ends take turns, and it is over once all have
/// passed.
pub proof fn law_handshakes_take_turns(m: HandshakeModel, ephemeral: Seq<u8>, msg: Seq<u8>)
    ensures
        m.position == 0 ==> turn(m) == if m.initiator { Turn::Write } else { Turn::Read },
        turn(m) == Turn::Write ==> turn(after_write(m, ephemeral, msg)) != Turn::Write,
        turn(m) == Turn::Read ==> turn(advanced(m, msg)) != Turn::Read,
        m.with_code && m.position >= 2 ==> turn(m) == Turn::Done,
        m.with_code && m.position < 2 ==> turn(m) != Turn::Done,
        !m.with_code && m.position >= 3 ==> turn(m) == Turn::Done,
        !m.with_code && m.position < 3 ==> turn(m) != Turn::Done,
        advanced(m, msg).position == m.position + 1,
        m.passed is Some ==> advanced(m, msg).passed == Some((m.passed->0).push(msg)),
{
}

} // verus!
