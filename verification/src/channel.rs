//! The sealed channel: frames through the ratchet, into cells, into records.
//!
//! Outbound a frame is encrypted by the ratchet, strung into cells of one size
//! and each cell is sealed as one record. Inbound is the mirror image.
use vstd::prelude::*;

use crate::bytes;
use crate::cover;
use crate::cover::{CoverConfig, CoverError};
use crate::crypto;
use crate::crypto::Secret;
use crate::message;
use crate::message::Frame;
use crate::ratchet;
use crate::ratchet::{DoubleRatchet, ErrorKind, RatchetError, RatchetModel};
use crate::ratchet_laws;
use crate::wire;

verus! {

/// The largest cell payload that still fits one record, with the header of the
/// cell and the tag of the record.
pub const MAX_SEALABLE_CELL: usize = 65516;

/// How long the peer may take to send its ratchet key, in seconds.
pub const BOOTSTRAP_TIMEOUT_SECS: u64 = 30;

/// The pause between cells of a channel, in nanoseconds.
pub const CHANNEL_INTERVAL_NANOS: u64 = 250000000;

/// Why a channel operation failed.
#[derive(Debug)]
pub enum ChannelError {
    /// The peer's ratchet key does not have the length of a key.
    BadBootstrapKey,
    /// The ratchet could not encrypt.
    Encrypt(RatchetError),
    /// The cover layer could not take the message.
    Send(CoverError),
}

/// The cells of a channel: the default size, four a second.
pub fn default_config() -> (r: CoverConfig)
    ensures
        r.cell_size == cover::CELL_SIZE,
        r.interval_nanos == CHANNEL_INTERVAL_NANOS,
{
    CoverConfig { cell_size: cover::CELL_SIZE, interval_nanos: CHANNEL_INTERVAL_NANOS }
}

/// The cell size to use where `asked` is asked for.
pub open spec fn sealable_size(asked: usize) -> usize {
    if asked > MAX_SEALABLE_CELL {
        MAX_SEALABLE_CELL
    } else {
        asked
    }
}

/// The configuration with a cell size that can be sealed: every cell fits one
/// record.
pub fn sealable(cfg: CoverConfig) -> (r: CoverConfig)
    ensures
        r.cell_size == (if cfg.cell_size > MAX_SEALABLE_CELL {
            MAX_SEALABLE_CELL
        } else {
            cfg.cell_size
        }),
        r.cell_size == sealable_size(cfg.cell_size),
        r.interval_nanos == cfg.interval_nanos,
        cover::CELL_HEADER + r.cell_size + 16 <= wire::MAX_NOISE_MSG,
{
    let cell_size: usize = if cfg.cell_size > MAX_SEALABLE_CELL {
        MAX_SEALABLE_CELL
    } else {
        cfg.cell_size
    };
    CoverConfig { cell_size, interval_nanos: cfg.interval_nanos }
}

/// Starts the ratchet of the initiator, from the seed of the handshake and the
/// key that the peer sent, with a secret drawn beforehand.
pub fn bootstrap_initiator_with(secret: Secret, seed: [u8; 32], peer_key: &[u8]) -> (r: Result<DoubleRatchet, ChannelError>)
    ensures
        match r {
            Ok(ratchet) => {
                &&& peer_key@.len() == 32
                &&& ratchet.wf()
                &&& ratchet@ == ratchet::alice_model(secret@, seed@, peer_key@)
            },
            Err(e) => peer_key@.len() != 32 && e is BadBootstrapKey,
        },
{
    if peer_key.len() != 32 {
        return Err(ChannelError::BadBootstrapKey);
    }
    assert(peer_key@.subrange(0, 32) =~= peer_key@);
    Ok(DoubleRatchet::init_alice_with(secret, seed, bytes::take::<32>(peer_key, 0)))
}

/// Starts the ratchet of the initiator.
pub fn bootstrap_initiator(seed: [u8; 32], peer_key: &[u8]) -> (r: Result<DoubleRatchet, ChannelError>)
    ensures
        match r {
            Ok(ratchet) => {
                &&& peer_key@.len() == 32
                &&& ratchet.wf()
                &&& ratchet@ == ratchet::alice_model(ratchet@.dhs, seed@, peer_key@)
            },
            Err(e) => peer_key@.len() != 32 && e is BadBootstrapKey,
        },
{
    if peer_key.len() != 32 {
        return Err(ChannelError::BadBootstrapKey);
    }
    bootstrap_initiator_with(crypto::random_secret(), seed, peer_key)
}

/// Starts the ratchet of the responder. The key that comes with it goes to the
/// initiator as the first record.
pub fn bootstrap_responder(seed: [u8; 32]) -> (r: (DoubleRatchet, [u8; 32]))
    ensures
        r.0.wf(),
        r.0@ == ratchet::bob_model(r.0@.dhs, seed@),
        r.1@ == crypto::x25519_public(r.0@.dhs),
{
    DoubleRatchet::init_bob(seed)
}

/// What a frame is sent as: the message for the cover layer and the ratchet
/// afterwards, or why not. A message that is too long for the cover layer has
/// used up its index of the ratchet all the same.
pub open spec fn outbound(m: RatchetModel, plaintext: Seq<u8>) -> (Result<Seq<u8>, ErrorKind>, RatchetModel) {
    match ratchet::encrypt_step(m, plaintext) {
        Ok((wire, after)) => (Ok(wire), after),
        Err(kind) => (Err(kind), m),
    }
}

/// Encrypts a plaintext for the cover layer.
fn encrypt_for_cover(ratchet: &mut DoubleRatchet, plaintext: &[u8]) -> (r: Result<Vec<u8>, ChannelError>)
    requires
        old(ratchet).wf(),
        crypto::aead_fits(plaintext@.len()),
    ensures
        final(ratchet).wf(),
        final(ratchet)@ == outbound(old(ratchet)@, plaintext@).1,
        match r {
            Ok(msg) => {
                &&& outbound(old(ratchet)@, plaintext@).0 == Ok::<Seq<u8>, ErrorKind>(msg@)
                &&& msg@.len() <= cover::MAX_MESSAGE_LEN
                &&& ratchet::genuine(
                    crypto::x25519_public(old(ratchet)@.dhs),
                    old(ratchet)@.pn,
                    old(ratchet)@.ns,
                    ratchet::message_key(old(ratchet)@.cks->0),
                    plaintext@,
                    msg@,
                )
            },
            Err(ChannelError::Encrypt(e)) => outbound(old(ratchet)@, plaintext@).0 == Err::<Seq<u8>, ErrorKind>(
                e.kind,
            ),
            Err(ChannelError::Send(e)) => {
                &&& outbound(old(ratchet)@, plaintext@).0 matches Ok(msg)
                &&& msg.len() > cover::MAX_MESSAGE_LEN
                &&& e == (CoverError::MessageTooLarge { len: msg.len() as usize, max: cover::MAX_MESSAGE_LEN })
            },
            Err(ChannelError::BadBootstrapKey) => false,
        },
{
    let msg = match ratchet.encrypt(plaintext) {
        Ok(msg) => msg,
        Err(e) => {
            return Err(ChannelError::Encrypt(e));
        },
    };
    match cover::check_outbound(msg.len()) {
        Ok(_) => Ok(msg),
        Err(e) => Err(ChannelError::Send(e)),
    }
}

/// Makes of a frame the message that goes to the cover layer.
pub fn seal_frame(ratchet: &mut DoubleRatchet, frame: &Frame) -> (r: Result<Vec<u8>, ChannelError>)
    requires
        old(ratchet).wf(),
        crypto::aead_fits(message::frame_bytes(frame@).len()),
    ensures
        final(ratchet).wf(),
        final(ratchet)@ == outbound(old(ratchet)@, message::frame_bytes(frame@)).1,
        match r {
            Ok(msg) => {
                &&& outbound(old(ratchet)@, message::frame_bytes(frame@)).0 == Ok::<Seq<u8>, ErrorKind>(msg@)
                &&& msg@.len() <= cover::MAX_MESSAGE_LEN
                &&& ratchet::genuine(
                    crypto::x25519_public(old(ratchet)@.dhs),
                    old(ratchet)@.pn,
                    old(ratchet)@.ns,
                    ratchet::message_key(old(ratchet)@.cks->0),
                    message::frame_bytes(frame@),
                    msg@,
                )
            },
            Err(ChannelError::Encrypt(e)) => outbound(old(ratchet)@, message::frame_bytes(frame@)).0 == Err::<
                Seq<u8>,
                ErrorKind,
            >(e.kind),
            Err(ChannelError::Send(e)) => {
                &&& outbound(old(ratchet)@, message::frame_bytes(frame@)).0 matches Ok(msg)
                &&& msg.len() > cover::MAX_MESSAGE_LEN
                &&& e == (CoverError::MessageTooLarge { len: msg.len() as usize, max: cover::MAX_MESSAGE_LEN })
            },
            Err(ChannelError::BadBootstrapKey) => false,
        },
{
    let plaintext = frame.encode();
    encrypt_for_cover(ratchet, plaintext.as_slice())
}

/// The message with which the initiator opens the channel. It holds nothing;
/// once the responder has decrypted it, it can send as well.
pub fn sync_message(ratchet: &mut DoubleRatchet) -> (r: Result<Vec<u8>, RatchetError>)
    requires
        old(ratchet).wf(),
    ensures
        final(ratchet).wf(),
        match (r, ratchet::encrypt_step(old(ratchet)@, Seq::empty())) {
            (Ok(msg), Ok((out, after))) => {
                &&& msg@ == out
                &&& final(ratchet)@ == after
                &&& ratchet::genuine(
                    crypto::x25519_public(old(ratchet)@.dhs),
                    old(ratchet)@.pn,
                    old(ratchet)@.ns,
                    ratchet::message_key(old(ratchet)@.cks->0),
                    Seq::empty(),
                    msg@,
                )
            },
            (Err(e), Err(kind)) => e.kind == kind && final(ratchet)@ == old(ratchet)@,
            _ => false,
        },
{
    let empty: Vec<u8> = Vec::new();
    assert(empty@ =~= Seq::<u8>::empty());
    ratchet.encrypt(empty.as_slice())
}

/// The frame that a decrypted message holds. An empty one is for the ratchet
/// alone, and one that is no frame is dropped.
pub open spec fn frame_in(plaintext: Seq<u8>) -> Option<message::FrameModel> {
    if plaintext.len() == 0 {
        None
    } else {
        match message::parse_frame(plaintext) {
            Ok(frame) => Some(frame),
            Err(_) => None,
        }
    }
}

/// What comes of a message of the peer: the frame in it, if any, and the
/// ratchet afterwards. What does not decrypt is dropped, and changes nothing.
pub open spec fn inbound(m: RatchetModel, msg: Seq<u8>, fresh: Seq<u8>) -> (Option<message::FrameModel>, RatchetModel) {
    match ratchet::decrypt_step(m, msg, fresh) {
        Ok((plaintext, after)) => (frame_in(plaintext), after),
        Err(_) => (None, m),
    }
}

/// The frame that a decrypted message holds.
pub fn frame_of(plaintext: &[u8]) -> (r: Option<Frame>)
    ensures
        match (r, frame_in(plaintext@)) {
            (Some(f), Some(out)) => f@ == out,
            (None, None) => true,
            _ => false,
        },
{
    if plaintext.len() == 0 {
        return None;
    }
    match Frame::decode(plaintext) {
        Ok(frame) => Some(frame),
        Err(_) => None,
    }
}

/// Takes in a message of the peer, with `fresh` as the next ratchet secret.
pub fn open_frame_with(ratchet: &mut DoubleRatchet, msg: &[u8], fresh: Secret) -> (r: Option<Frame>)
    requires
        old(ratchet).wf(),
    ensures
        final(ratchet).wf(),
        final(ratchet)@ == inbound(old(ratchet)@, msg@, fresh@).1,
        match (r, inbound(old(ratchet)@, msg@, fresh@).0) {
            (Some(f), Some(out)) => f@ == out,
            (None, None) => true,
            _ => false,
        },
{
    match ratchet.decrypt_with(msg, fresh) {
        Ok(plaintext) => frame_of(plaintext.as_slice()),
        Err(_) => None,
    }
}

/// Takes in a message of the peer.
pub fn open_frame(ratchet: &mut DoubleRatchet, msg: &[u8]) -> (r: Option<Frame>)
    requires
        old(ratchet).wf(),
    ensures
        final(ratchet).wf(),
        exists|fresh: Seq<u8>|
            fresh.len() == 32 && final(ratchet)@ == (#[trigger] inbound(old(ratchet)@, msg@, fresh)).1 && match (
                r,
                inbound(old(ratchet)@, msg@, fresh).0,
            ) {
                (Some(f), Some(out)) => f@ == out,
                (None, None) => true,
                _ => false,
            },
{
    let result = ratchet.decrypt(msg);
    let ghost before = old(ratchet)@;
    let ghost fresh = choose|fresh: Seq<u8>|
        fresh.len() == 32 && match (result, #[trigger] ratchet::decrypt_step(before, msg@, fresh)) {
            (Ok(plaintext), Ok((out, after))) => plaintext@ == out && ratchet@ == after,
            (Err(e), Err(kind)) => e.kind == kind && ratchet@ == before,
            _ => false,
        };
    assert(ratchet@ == inbound(before, msg@, fresh).1);
    match result {
        Ok(plaintext) => frame_of(plaintext.as_slice()),
        Err(_) => None,
    }
}

/// What was sent is what arrives: a message that decrypts to the bytes of a
/// frame yields that frame.
pub proof fn law_frames_arrive(m: RatchetModel, msg: Seq<u8>, fresh: Seq<u8>, frame: message::FrameModel)
    requires
        message::frame_fits(frame),
        ratchet::decrypt_step(m, msg, fresh) matches Ok((plaintext, after)) && plaintext == message::frame_bytes(
            frame,
        ),
    ensures
        inbound(m, msg, fresh).0 == Some(frame),
{
    message::law_frame_round_trip(frame);
    assert(message::frame_bytes(frame).len() > 0);
}

/// What does not decrypt neither yields a frame nor changes the session.
pub proof fn law_forgeries_are_dropped(m: RatchetModel, msg: Seq<u8>, fresh: Seq<u8>)
    requires
        ratchet::decrypt_step(m, msg, fresh) is Err,
    ensures
        inbound(m, msg, fresh) == (None::<message::FrameModel>, m),
{
}

/// A frame that one end seals is the frame that the other end gets: `s` sends on
/// the chain that `r` receives on, and `r` has everything that came before.
pub proof fn law_sealed_frames_arrive(
    s: RatchetModel,
    r: RatchetModel,
    ck0: Seq<u8>,
    frame: message::FrameModel,
    msg: Seq<u8>,
    fresh: Seq<u8>,
)
    requires
        ratchet::valid(s),
        ratchet::valid(r),
        ratchet_laws::sends_on(s, ck0),
        ratchet_laws::on_chain(r, crypto::x25519_public(s.dhs), ck0),
        r.nr == s.ns < u32::MAX,
        ratchet::find_key(r.skipped, crypto::x25519_public(s.dhs), s.ns) is None,
        message::frame_fits(frame),
        outbound(s, message::frame_bytes(frame)).0 == Ok::<Seq<u8>, ErrorKind>(msg),
        ratchet::genuine(
            crypto::x25519_public(s.dhs),
            s.pn,
            s.ns,
            ratchet::message_key(s.cks->0),
            message::frame_bytes(frame),
            msg,
        ),
    ensures
        inbound(r, msg, fresh).0 == Some(frame),
        ({
            let sender = outbound(s, message::frame_bytes(frame)).1;
            let receiver = inbound(r, msg, fresh).1;
            &&& ratchet_laws::sends_on(sender, ck0)
            &&& ratchet_laws::on_chain(receiver, crypto::x25519_public(sender.dhs), ck0)
            &&& receiver.nr == sender.ns
        }),
{
    ratchet_laws::law_encrypt_stays_on_chain(s, ck0, message::frame_bytes(frame));
    ratchet_laws::law_chain_message_opens(
        r,
        crypto::x25519_public(s.dhs),
        ck0,
        s.pn,
        s.ns,
        message::frame_bytes(frame),
        msg,
        fresh,
    );
    law_frames_arrive(r, msg, fresh, frame);
}

/// Two ends of one handshake come into step: the first message of the initiator
/// opens at the responder, which holds no frame and lets it send from then on,
/// on a chain that the initiator has not seen.
pub proof fn law_channel_opens(a: Seq<u8>, b: Seq<u8>, seed: Seq<u8>, msg: Seq<u8>, fresh: Seq<u8>)
    requires
        b.len() == 32,
        ({
            let alice = ratchet::alice_model(a, seed, crypto::x25519_public(b));
            &&& ratchet::valid(alice)
            &&& ratchet::valid(ratchet::bob_model(b, seed))
            &&& ratchet::genuine(
                crypto::x25519_public(a),
                alice.pn,
                alice.ns,
                ratchet::message_key(alice.cks->0),
                Seq::empty(),
                msg,
            )
        }),
    ensures
        ({
            let alice = ratchet::alice_model(a, seed, crypto::x25519_public(b));
            let (frame, bob) = inbound(ratchet::bob_model(b, seed), msg, fresh);
            &&& frame is None
            &&& bob.cks is Some
            &&& ratchet_laws::on_chain(bob, crypto::x25519_public(a), alice.cks->0)
            &&& bob.nr == 1
            &&& ratchet::valid(bob) && crypto::x25519_public(fresh) != crypto::x25519_public(b)
                ==> ratchet_laws::leads(bob, alice, bob.cks->0)
        }),
{
    let alice = ratchet::alice_model(a, seed, crypto::x25519_public(b));
    let bob = ratchet::bob_model(b, seed);
    ratchet_laws::law_start_in_step(a, b, seed);
    ratchet::lemma_key_index(bob.skipped, crypto::x25519_public(a), 0);
    ratchet_laws::law_new_chain_message_opens(alice, bob, alice.cks->0, alice.pn, 0, Seq::empty(), msg, fresh);
}

/// A frame goes out whenever the ratchet can send, and using up one place of it; where it
/// cannot, nothing changes. What goes out differs from what goes out next only by what the
/// ratchet makes of it: the frames themselves are sent as they are.
pub proof fn law_frames_go_out(m: RatchetModel, plaintext: Seq<u8>)
    requires
        ratchet::valid(m),
    ensures
        outbound(m, plaintext).0 is Ok <==> m.cks is Some && m.ns < u32::MAX,
        outbound(m, plaintext).0 is Ok ==> {
            &&& outbound(m, plaintext).1.ns == m.ns + 1
            &&& outbound(m, plaintext).1.dhs == m.dhs
            &&& ratchet::encrypt_step(m, plaintext) matches Ok((wire, after)) && {
                &&& outbound(m, plaintext).0 == Ok::<Seq<u8>, ErrorKind>(wire)
                &&& outbound(m, plaintext).1 == after
            }
        },
        outbound(m, plaintext).0 is Err ==> outbound(m, plaintext).1 == m,
{
}

/// What holds nothing is for the ratchet alone, what is no frame is dropped, and every
/// frame is handed out as it was put in.
pub proof fn law_frames_are_handed_out(frame: message::FrameModel, b: Seq<u8>)
    requires
        message::frame_fits(frame),
    ensures
        frame_in(message::frame_bytes(frame)) == Some(frame),
        frame_in(Seq::empty()) is None,
        frame_in(b) is Some <==> message::parse_frame(b) is Ok,
{
    message::law_frame_round_trip(frame);
}

/// The cell size that is asked for is used where a cell of that size, with its header and
/// the tag of its record, fits one record; else the largest that does.
pub proof fn law_cells_fit_a_record(asked: usize, other: usize)
    requires
        3 + other + 16 <= 65535,
    ensures
        3 + sealable_size(asked) + 16 <= 65535,
        3 + asked + 16 <= 65535 ==> sealable_size(asked) == asked,
        3 + asked + 16 > 65535 ==> other <= sealable_size(asked),
{
}

} // verus!
