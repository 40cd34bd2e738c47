//! What travels inside the encrypted channel: chat lines and file transfers.
use vstd::prelude::*;
use vstd::string::*;
use vstd::utf8::*;

use crate::assoc::Assoc;
use crate::bytes;
use crate::text;

verus! {

/// How many incoming transfers may be under way at once.
pub const MAX_CONCURRENT_FILES: usize = 16;

/// How much of a file goes into one frame.
pub const CHUNK_SIZE: usize = 32768;

/// The largest file that is taken in, 8 GiB.
pub const MAX_FILE_SIZE: u64 = 8589934592;

pub const T_TEXT: u8 = 1;

pub const T_OFFER: u8 = 2;

pub const T_CHUNK: u8 = 3;

pub const T_END: u8 = 4;

pub const T_GROUP: u8 = 5;

pub const T_ACCEPT: u8 = 6;

pub const T_REJECT: u8 = 7;

// ---------------------------------------------------------------------------
// Frames
// ---------------------------------------------------------------------------

/// One message between the two ends of a channel.
#[derive(Debug, Clone, PartialEq)]
pub enum Frame {
    /// A chat line.
    Text(String),
    /// A file is offered, by the id of its transfer, its name and its size.
    FileOffer { id: [u8; 16], name: String, size: u64 },
    /// The next piece of a file.
    FileChunk { id: [u8; 16], data: Vec<u8> },
    /// The file is complete.
    FileEnd { id: [u8; 16] },
    /// The offer is taken up: only now may chunks be sent.
    FileAccept { id: [u8; 16] },
    /// The offer is declined.
    FileReject { id: [u8; 16] },
    /// A message of the group layer.
    Group(Vec<u8>),
}

/// A frame, as contracts see it.
pub enum FrameModel {
    Text(Seq<char>),
    FileOffer { id: Seq<u8>, name: Seq<char>, size: u64 },
    FileChunk { id: Seq<u8>, data: Seq<u8> },
    FileEnd { id: Seq<u8> },
    FileAccept { id: Seq<u8> },
    FileReject { id: Seq<u8> },
    Group(Seq<u8>),
}

impl View for Frame {
    type V = FrameModel;

    open spec fn view(&self) -> FrameModel {
        match self {
            Frame::Text(s) => FrameModel::Text(s@),
            Frame::FileOffer { id, name, size } => FrameModel::FileOffer { id: id@, name: name@, size: *size },
            Frame::FileChunk { id, data } => FrameModel::FileChunk { id: id@, data: data@ },
            Frame::FileEnd { id } => FrameModel::FileEnd { id: id@ },
            Frame::FileAccept { id } => FrameModel::FileAccept { id: id@ },
            Frame::FileReject { id } => FrameModel::FileReject { id: id@ },
            Frame::Group(data) => FrameModel::Group(data@),
        }
    }
}

/// Why bytes are not a frame.
#[derive(Debug, Clone, Copy, PartialEq, Eq, Structural)]
pub enum FrameError {
    Empty,
    OfferShort,
    ChunkShort,
    EndShort,
    ReplyShort,
    UnknownType(u8),
}

/// The text of an error.
pub open spec fn frame_error_text(e: FrameError) -> Seq<char> {
    match e {
        FrameError::Empty => "empty frame"@,
        FrameError::OfferShort => "short file offer"@,
        FrameError::ChunkShort => "short file chunk"@,
        FrameError::EndShort => "short file end"@,
        FrameError::ReplyShort => "short file accept/reject"@,
        FrameError::UnknownType(t) => "unknown frame type 0x"@ + text::hex_byte(t),
    }
}

impl FrameError {
    /// The error in words.
    pub fn to_string(&self) -> (r: String)
        ensures
            r@ == frame_error_text(*self),
    {
        match self {
            FrameError::Empty => "empty frame".to_owned(),
            FrameError::OfferShort => "short file offer".to_owned(),
            FrameError::ChunkShort => "short file chunk".to_owned(),
            FrameError::EndShort => "short file end".to_owned(),
            FrameError::ReplyShort => "short file accept/reject".to_owned(),
            FrameError::UnknownType(t) => {
                let mut out = "unknown frame type 0x".to_owned();
                text::push_hex_byte(&mut out, *t);
                out
            },
        }
    }
}

/// The bytes of a frame: its type, and its fields.
pub open spec fn frame_bytes(f: FrameModel) -> Seq<u8> {
    match f {
        FrameModel::Text(s) => seq![T_TEXT] + encode_utf8(s),
        FrameModel::FileOffer { id, name, size } => seq![T_OFFER] + id + bytes::be64(size as int) + encode_utf8(name),
        FrameModel::FileChunk { id, data } => seq![T_CHUNK] + id + data,
        FrameModel::FileEnd { id } => seq![T_END] + id,
        FrameModel::FileAccept { id } => seq![T_ACCEPT] + id,
        FrameModel::FileReject { id } => seq![T_REJECT] + id,
        FrameModel::Group(data) => seq![T_GROUP] + data,
    }
}

/// The frame that bytes encode, or why they encode none. What stands behind
/// the id of an end, an acceptance or a refusal is passed over.
pub open spec fn parse_frame(b: Seq<u8>) -> Result<FrameModel, FrameError> {
    let n = b.len() as int;
    if n == 0 {
        Err(FrameError::Empty)
    } else if b[0] == T_TEXT {
        Ok(FrameModel::Text(text::text_of(b.subrange(1, n))))
    } else if b[0] == T_OFFER {
        if n < 25 {
            Err(FrameError::OfferShort)
        } else {
            Ok(
                FrameModel::FileOffer {
                    id: b.subrange(1, 17),
                    size: bytes::from_be64(b.subrange(17, 25)) as u64,
                    name: text::text_of(b.subrange(25, n)),
                },
            )
        }
    } else if b[0] == T_CHUNK {
        if n < 17 {
            Err(FrameError::ChunkShort)
        } else {
            Ok(FrameModel::FileChunk { id: b.subrange(1, 17), data: b.subrange(17, n) })
        }
    } else if b[0] == T_END {
        if n < 17 {
            Err(FrameError::EndShort)
        } else {
            Ok(FrameModel::FileEnd { id: b.subrange(1, 17) })
        }
    } else if b[0] == T_ACCEPT || b[0] == T_REJECT {
        if n < 17 {
            Err(FrameError::ReplyShort)
        } else if b[0] == T_ACCEPT {
            Ok(FrameModel::FileAccept { id: b.subrange(1, 17) })
        } else {
            Ok(FrameModel::FileReject { id: b.subrange(1, 17) })
        }
    } else if b[0] == T_GROUP {
        Ok(FrameModel::Group(b.subrange(1, n)))
    } else {
        Err(FrameError::UnknownType(b[0]))
    }
}

/// A type and an id.
fn tagged(tag: u8, id: &[u8; 16]) -> (v: Vec<u8>)
    ensures
        v@ == seq![tag] + id@,
{
    let mut v: Vec<u8> = Vec::new();
    v.push(tag);
    v.extend_from_slice(id.as_slice());
    assert(v@ =~= seq![tag] + id@);
    v
}

impl Frame {
    /// The bytes of the frame.
    pub fn encode(&self) -> (r: Vec<u8>)
        ensures
            r@ == frame_bytes(self@),
    {
        match self {
            Frame::Text(s) => {
                let mut v: Vec<u8> = Vec::new();
                v.push(T_TEXT);
                v.extend_from_slice(s.as_str().as_bytes());
                assert(v@ =~= seq![T_TEXT] + encode_utf8(s@));
                v
            },
            Frame::FileOffer { id, name, size } => {
                let mut v = tagged(T_OFFER, id);
                bytes::put_be64(&mut v, *size);
                v.extend_from_slice(name.as_str().as_bytes());
                assert(v@ =~= seq![T_OFFER] + id@ + bytes::be64(*size as int) + encode_utf8(name@));
                v
            },
            Frame::FileChunk { id, data } => {
                let mut v = tagged(T_CHUNK, id);
                v.extend_from_slice(data.as_slice());
                assert(v@ =~= seq![T_CHUNK] + id@ + data@);
                v
            },
            Frame::FileEnd { id } => tagged(T_END, id),
            Frame::FileAccept { id } => tagged(T_ACCEPT, id),
            Frame::FileReject { id } => tagged(T_REJECT, id),
            Frame::Group(data) => {
                let mut v: Vec<u8> = Vec::new();
                v.push(T_GROUP);
                v.extend_from_slice(data.as_slice());
                assert(v@ =~= seq![T_GROUP] + data@);
                v
            },
        }
    }

    /// Reads a frame.
    pub fn decode(b: &[u8]) -> (r: Result<Frame, FrameError>)
        ensures
            match (r, parse_frame(b@)) {
                (Ok(f), Ok(out)) => f@ == out,
                (Err(e), Err(reason)) => e == reason,
                _ => false,
            },
    {
        if b.len() == 0 {
            return Err(FrameError::Empty);
        }
        let tag: u8 = b[0];
        if tag == T_TEXT {
            Ok(Frame::Text(text::text_from_bytes(vstd::slice::slice_subrange(b, 1, b.len()))))
        } else if tag == T_OFFER {
            if b.len() < 25 {
                return Err(FrameError::OfferShort);
            }
            proof {
                bytes::lemma_be64(0, b@.subrange(17, 25));
            }
            Ok(
                Frame::FileOffer {
                    id: bytes::take::<16>(b, 1),
                    size: bytes::get_be64(b, 17),
                    name: text::text_from_bytes(vstd::slice::slice_subrange(b, 25, b.len())),
                },
            )
        } else if tag == T_CHUNK {
            if b.len() < 17 {
                return Err(FrameError::ChunkShort);
            }
            Ok(Frame::FileChunk { id: bytes::take::<16>(b, 1), data: bytes::copy_range(b, 17, b.len()) })
        } else if tag == T_END {
            if b.len() < 17 {
                return Err(FrameError::EndShort);
            }
            Ok(Frame::FileEnd { id: bytes::take::<16>(b, 1) })
        } else if tag == T_ACCEPT || tag == T_REJECT {
            if b.len() < 17 {
                return Err(FrameError::ReplyShort);
            }
            let id = bytes::take::<16>(b, 1);
            if tag == T_ACCEPT {
                Ok(Frame::FileAccept { id })
            } else {
                Ok(Frame::FileReject { id })
            }
        } else if tag == T_GROUP {
            Ok(Frame::Group(bytes::copy_range(b, 1, b.len())))
        } else {
            Err(FrameError::UnknownType(tag))
        }
    }
}

/// The id of a frame, where it has one, is 16 bytes long.
pub open spec fn frame_fits(f: FrameModel) -> bool {
    match f {
        FrameModel::FileOffer { id, .. } => id.len() == 16,
        FrameModel::FileChunk { id, .. } => id.len() == 16,
        FrameModel::FileEnd { id } => id.len() == 16,
        FrameModel::FileAccept { id } => id.len() == 16,
        FrameModel::FileReject { id } => id.len() == 16,
        _ => true,
    }
}

/// Decoding gives back what was encoded, for every frame.
pub proof fn law_frame_round_trip(f: FrameModel)
    requires
        frame_fits(f),
    ensures
        parse_frame(frame_bytes(f)) == Ok::<FrameModel, FrameError>(f),
{
    let b = frame_bytes(f);
    let n = b.len() as int;
    match f {
        FrameModel::Text(s) => {
            text::lemma_text_of(s);
            assert(b.subrange(1, n) =~= encode_utf8(s));
        },
        FrameModel::FileOffer { id, name, size } => {
            text::lemma_text_of(name);
            bytes::lemma_be64(size as int, bytes::zeros(8));
            assert(b.subrange(1, 17) =~= id);
            assert(b.subrange(17, 25) =~= bytes::be64(size as int));
            assert(b.subrange(25, n) =~= encode_utf8(name));
        },
        FrameModel::FileChunk { id, data } => {
            assert(b.subrange(1, 17) =~= id);
            assert(b.subrange(17, n) =~= data);
        },
        FrameModel::FileEnd { id } => {
            assert(b.subrange(1, 17) =~= id);
        },
        FrameModel::FileAccept { id } => {
            assert(b.subrange(1, 17) =~= id);
        },
        FrameModel::FileReject { id } => {
            assert(b.subrange(1, 17) =~= id);
        },
        FrameModel::Group(data) => {
            assert(b.subrange(1, n) =~= data);
        },
    }
}

/// Frames that differ have different bytes.
pub proof fn law_frames_are_told_apart(f: FrameModel, g: FrameModel)
    requires
        frame_fits(f),
        frame_fits(g),
        frame_bytes(f) == frame_bytes(g),
    ensures
        f == g,
{
    law_frame_round_trip(f);
    law_frame_round_trip(g);
}

// ---------------------------------------------------------------------------
// Consent
// ---------------------------------------------------------------------------

/// The consent gate that every incoming file has to pass: nothing reaches the disk
/// without consent. An offer is pending until it is accepted, and only an
/// accepted transfer may write.
pub struct FileGate {
    pending: Assoc<[u8; 16], (String, u64)>,
    accepted: Assoc<[u8; 16], ()>,
}

/// The consent gate, as contracts see it.
pub struct GateModel {
    /// What was offered and not answered: name and size.
    pub pending: Map<Seq<u8>, (Seq<char>, u64)>,
    /// What may write.
    pub accepted: Set<Seq<u8>>,
}

impl View for FileGate {
    type V = GateModel;

    closed spec fn view(&self) -> GateModel {
        GateModel {
            pending: self.pending@.map_values(|o: (String, u64)| (o.0@, o.1)),
            accepted: self.accepted@.dom(),
        }
    }
}

/// The consent gate before anything was offered.
pub open spec fn gate_empty() -> GateModel {
    GateModel { pending: Map::empty(), accepted: Set::empty() }
}

/// How many transfers are under way.
pub open spec fn in_flight(g: GateModel) -> nat {
    g.pending.dom().len() + g.accepted.len()
}

/// The consent gate after an offer, and whether the offer was let in.
pub open spec fn gate_offer(g: GateModel, id: Seq<u8>, name: Seq<char>, size: u64, max: nat) -> (GateModel, bool) {
    if in_flight(g) >= max {
        (g, false)
    } else {
        (GateModel { pending: g.pending.insert(id, (name, size)), ..g }, true)
    }
}

/// The consent gate after an acceptance, and what was accepted.
pub open spec fn gate_accept(g: GateModel, id: Seq<u8>) -> (GateModel, Option<(Seq<char>, u64)>) {
    if g.pending.contains_key(id) {
        (
            GateModel { pending: g.pending.remove(id), accepted: g.accepted.insert(id) },
            Some(g.pending[id]),
        )
    } else {
        (g, None)
    }
}

/// The consent gate after a refusal.
pub open spec fn gate_reject(g: GateModel, id: Seq<u8>) -> GateModel {
    GateModel { pending: g.pending.remove(id), ..g }
}

/// The consent gate after the end of a transfer.
pub open spec fn gate_finish(g: GateModel, id: Seq<u8>) -> GateModel {
    GateModel { pending: g.pending.remove(id), accepted: g.accepted.remove(id) }
}

impl FileGate {
    /// The transfers under way can be counted.
    pub open spec fn wf(&self) -> bool {
        &&& self@.pending.dom().finite()
        &&& self@.accepted.finite()
        &&& in_flight(self@) <= usize::MAX
    }

    /// A gate before anything was offered.
    pub fn new() -> (r: Self)
        ensures
            r@ == gate_empty(),
            r.wf(),
    {
        let r = FileGate { pending: Assoc::new(), accepted: Assoc::new() };
        assert(r@.pending =~= Map::<Seq<u8>, (Seq<char>, u64)>::empty());
        assert(r@.accepted =~= Set::<Seq<u8>>::empty());
        r
    }

    /// How many transfers are under way, pending and accepted.
    pub fn in_flight(&self) -> (r: usize)
        requires
            self.wf(),
        ensures
            r == in_flight(self@),
    {
        let p: usize = self.pending.len();
        let a: usize = self.accepted.len();
        assert(self@.pending.dom() =~= self.pending@.dom());
        p + a
    }

    /// Takes an offer in as pending. With `max_concurrent` transfers under way
    /// it is refused, and nothing is kept of it.
    pub fn offer(&mut self, id: [u8; 16], name: String, size: u64, max_concurrent: usize) -> (r: bool)
        requires
            old(self).wf(),
        ensures
            (final(self)@, r) == gate_offer(old(self)@, id@, name@, size, max_concurrent as nat),
            final(self).wf(),
    {
        if self.in_flight() >= max_concurrent {
            return false;
        }
        let ghost before = self@;
        let ghost shown = name@;
        self.pending.insert(id, (name, size));
        proof {
            assert(self@.pending =~= before.pending.insert(id@, (shown, size)));
            assert(self@.pending.dom() =~= before.pending.dom().insert(id@));
        }
        true
    }

    /// The user accepts: the offer may write from now on, and its name and
    /// size are handed back. Without a pending offer there is nothing to
    /// accept.
    pub fn accept(&mut self, id: &[u8; 16]) -> (r: Option<(String, u64)>)
        requires
            old(self).wf(),
        ensures
            final(self)@ == gate_accept(old(self)@, id@).0,
            match (r, gate_accept(old(self)@, id@).1) {
                (Some((name, size)), Some(offer)) => (name@, size) == offer,
                (None, None) => true,
                _ => false,
            },
            final(self).wf(),
    {
        let ghost before = self@;
        match self.pending.remove(id) {
            Some(v) => {
                self.accepted.insert(*id, ());
                proof {
                    assert(self@.pending =~= before.pending.remove(id@));
                    assert(self@.pending.dom() =~= before.pending.dom().remove(id@));
                    assert(self@.accepted =~= before.accepted.insert(id@));
                }
                Some(v)
            },
            None => {
                assert(self@.pending =~= before.pending);
                None
            },
        }
    }

    /// The user declines: the offer is forgotten.
    pub fn reject(&mut self, id: &[u8; 16])
        requires
            old(self).wf(),
        ensures
            final(self)@ == gate_reject(old(self)@, id@),
            final(self).wf(),
    {
        let ghost before = self@;
        self.pending.remove(id);
        proof {
            assert(self@.pending =~= before.pending.remove(id@));
            assert(self@.pending.dom() =~= before.pending.dom().remove(id@));
        }
    }

    /// Whether a chunk of a transfer may be written: only once the user has
    /// accepted it.
    pub fn accepts_chunk(&self, id: &[u8; 16]) -> (r: bool)
        ensures
            r == self@.accepted.contains(id@),
    {
        self.accepted.contains(id)
    }

    /// Forgets a transfer that is complete or has failed.
    pub fn finish(&mut self, id: &[u8; 16])
        requires
            old(self).wf(),
        ensures
            final(self)@ == gate_finish(old(self)@, id@),
            final(self).wf(),
    {
        let ghost before = self@;
        self.pending.remove(id);
        self.accepted.remove(id);
        proof {
            assert(self@.pending =~= before.pending.remove(id@));
            assert(self@.pending.dom() =~= before.pending.dom().remove(id@));
            assert(self@.accepted =~= before.accepted.remove(id@));
        }
    }
}

impl Default for FileGate {
    fn default() -> (r: Self)
        ensures
            r@ == gate_empty(),
            r.wf(),
    {
        Self::new()
    }
}

/// What can happen to a gate.
pub enum GateEvent {
    Offer { id: Seq<u8>, name: Seq<char>, size: u64, max: nat },
    Accept { id: Seq<u8> },
    Reject { id: Seq<u8> },
    Finish { id: Seq<u8> },
}

/// The consent gate after an event.
pub open spec fn gate_step(g: GateModel, e: GateEvent) -> GateModel {
    match e {
        GateEvent::Offer { id, name, size, max } => gate_offer(g, id, name, size, max).0,
        GateEvent::Accept { id } => gate_accept(g, id).0,
        GateEvent::Reject { id } => gate_reject(g, id),
        GateEvent::Finish { id } => gate_finish(g, id),
    }
}

/// The consent gate after all of `events`, from the start.
pub open spec fn gate_run(events: Seq<GateEvent>) -> GateModel
    decreases events.len(),
{
    if events.len() == 0 {
        gate_empty()
    } else {
        gate_step(gate_run(events.drop_last()), events.last())
    }
}

/// Whether `e` answers or ends the transfer `id`.
pub open spec fn settles(e: GateEvent, id: Seq<u8>) -> bool {
    e == (GateEvent::Accept { id }) || e == (GateEvent::Reject { id }) || e == (GateEvent::Finish { id })
}

/// Whether `id` was offered at `i` and neither answered nor ended before `j`.
pub open spec fn open_offer(events: Seq<GateEvent>, id: Seq<u8>, i: int, j: int) -> bool {
    &&& 0 <= i < j <= events.len()
    &&& events[i] matches GateEvent::Offer { id: offered, .. } && offered == id
    &&& forall|k: int| i < k < j ==> !settles(#[trigger] events[k], id)
}

/// Whether the transfer `id` was accepted at `j`, on an offer at `i` that was
/// still open, and not ended since.
pub open spec fn consented(events: Seq<GateEvent>, id: Seq<u8>, i: int, j: int) -> bool {
    &&& j < events.len()
    &&& open_offer(events, id, i, j)
    &&& events[j] == (GateEvent::Accept { id })
    &&& forall|k: int| j < k < events.len() ==> #[trigger] events[k] != (GateEvent::Finish { id })
}

/// What is pending was offered, and has been neither answered nor ended since.
pub proof fn lemma_pending_was_offered(events: Seq<GateEvent>, id: Seq<u8>)
    requires
        gate_run(events).pending.contains_key(id),
    ensures
        exists|i: int| #[trigger] open_offer(events, id, i, events.len() as int),
    decreases events.len(),
{
    let n = events.len() as int;
    let rest = events.drop_last();
    let g = gate_run(rest);
    if g.pending.contains_key(id) && !settles(events.last(), id) {
        lemma_pending_was_offered(rest, id);
        let i = choose|i: int| #[trigger] open_offer(rest, id, i, n - 1);
        assert(rest[i] == events[i]);
        assert forall|k: int| i < k < n implies !settles(#[trigger] events[k], id) by {
            if k < n - 1 {
                assert(rest[k] == events[k]);
            }
        }
        assert(open_offer(events, id, i, n));
    } else {
        assert(events.last() matches GateEvent::Offer { id: offered, .. } && offered == id);
        assert(open_offer(events, id, n - 1, n));
    }
}

/// Nothing is written without consent: after whatever has happened, a transfer
/// may write only if the user accepted it, on an offer that was neither
/// declined nor ended before, and it has not been ended since.
pub proof fn law_nothing_is_written_without_consent(events: Seq<GateEvent>, id: Seq<u8>)
    requires
        gate_run(events).accepted.contains(id),
    ensures
        exists|i: int, j: int| #[trigger] consented(events, id, i, j),
    decreases events.len(),
{
    let n = events.len() as int;
    let rest = events.drop_last();
    let g = gate_run(rest);
    if events.last() == (GateEvent::Accept { id }) && g.pending.contains_key(id) {
        lemma_pending_was_offered(rest, id);
        let i = choose|i: int| #[trigger] open_offer(rest, id, i, n - 1);
        assert(rest[i] == events[i]);
        assert forall|k: int| i < k < n - 1 implies !settles(#[trigger] events[k], id) by {
            assert(rest[k] == events[k]);
        }
        assert(open_offer(events, id, i, n - 1));
        assert(consented(events, id, i, n - 1));
    } else {
        assert(g.accepted.contains(id));
        assert(events.last() != (GateEvent::Finish { id }));
        law_nothing_is_written_without_consent(rest, id);
        let (i, j) = choose|i: int, j: int| #[trigger] consented(rest, id, i, j);
        assert(rest[i] == events[i] && rest[j] == events[j]);
        assert forall|k: int| i < k < j implies !settles(#[trigger] events[k], id) by {
            assert(rest[k] == events[k]);
        }
        assert forall|k: int| j < k < n implies #[trigger] events[k] != (GateEvent::Finish { id }) by {
            if k < n - 1 {
                assert(rest[k] == events[k]);
            }
        }
        assert(open_offer(events, id, i, j));
        assert(consented(events, id, i, j));
    }
}

/// An offer that was declined can neither be accepted nor write, until it is
/// made again.
pub proof fn law_declined_offers_stay_closed(g: GateModel, id: Seq<u8>)
    requires
        !g.accepted.contains(id),
    ensures
        gate_accept(gate_reject(g, id), id) == (gate_reject(g, id), None::<(Seq<char>, u64)>),
        !gate_reject(g, id).accepted.contains(id),
{
}

/// Offers cannot pile up: the transfers under way stay within the limit.
pub proof fn law_offers_are_capped(g: GateModel, id: Seq<u8>, name: Seq<char>, size: u64, max: nat)
    requires
        g.pending.dom().finite(),
        in_flight(g) <= max,
    ensures
        in_flight(gate_offer(g, id, name, size, max).0) <= max,
        gate_offer(g, id, name, size, max).1 <==> in_flight(g) < max,
{
    if in_flight(g) < max {
        let after = g.pending.insert(id, (name, size));
        assert(after.dom() =~= g.pending.dom().insert(id));
    }
}

// ---------------------------------------------------------------------------
// Incoming files
// ---------------------------------------------------------------------------

/// Why a transfer is refused.
#[derive(Debug, Clone, Copy, PartialEq, Eq, Structural)]
pub enum TransferError {
    /// The file is offered with more than `MAX_FILE_SIZE`.
    TooLarge { size: u64 },
    /// The count of bytes does not fit its counter.
    Overflow,
    /// The peer sends more than it offered.
    MoreThanOffered { size: u64, total: u64 },
}

/// The text of an error.
pub open spec fn transfer_error_text(e: TransferError) -> Seq<char> {
    match e {
        TransferError::TooLarge { size } => "offered file of "@ + text::decimal(size as nat)
            + " bytes exceeds the 8589934592-byte limit"@,
        TransferError::Overflow => "file size counter overflow"@,
        TransferError::MoreThanOffered { size, total } => "peer sent more than the offered "@ + text::decimal(
            size as nat,
        ) + " bytes (would reach "@ + text::decimal(total as nat) + ")"@,
    }
}

impl TransferError {
    /// The error in words.
    pub fn to_string(&self) -> (r: String)
        ensures
            r@ == transfer_error_text(*self),
    {
        match self {
            TransferError::TooLarge { size } => {
                let mut out = "offered file of ".to_owned();
                text::push_decimal(&mut out, *size);
                out.append(" bytes exceeds the 8589934592-byte limit");
                out
            },
            TransferError::Overflow => "file size counter overflow".to_owned(),
            TransferError::MoreThanOffered { size, total } => {
                let mut out = "peer sent more than the offered ".to_owned();
                text::push_decimal(&mut out, *size);
                out.append(" bytes (would reach ");
                text::push_decimal(&mut out, *total);
                out.append(")");
                out
            },
        }
    }
}

/// What the count of received bytes becomes with `len` more, or why they are
/// refused.
pub open spec fn total_after(received: u64, len: nat, size: u64) -> Result<u64, TransferError> {
    if received + len > u64::MAX {
        Err(TransferError::Overflow)
    } else if received + len > size {
        Err(TransferError::MoreThanOffered { size, total: (received + len) as u64 })
    } else {
        Ok((received + len) as u64)
    }
}

/// The count of received bytes with `len` more, which may not pass the size
/// that was offered.
pub fn accept_total(received: u64, len: usize, size: u64) -> (r: Result<u64, TransferError>)
    ensures
        r == total_after(received, len as nat, size),
{
    match received.checked_add(len as u64) {
        None => Err(TransferError::Overflow),
        Some(new_total) => if new_total > size {
            Err(TransferError::MoreThanOffered { size, total: new_total })
        } else {
            Ok(new_total)
        },
    }
}

/// The account of a file that is being received.
#[derive(Debug)]
pub struct Incoming {
    /// The name that the file gets.
    pub name: String,
    /// The size that was offered.
    pub size: u64,
    /// How much has come in.
    pub received: u64,
}

impl Incoming {
    /// No more has come in than was offered, and no more was offered than is
    /// taken in at all.
    pub open spec fn wf(&self) -> bool {
        self.received <= self.size <= MAX_FILE_SIZE
    }

    /// Opens the account of an offer. One that is too large is refused.
    pub fn start(name: &str, size: u64) -> (r: Result<Incoming, TransferError>)
        ensures
            match r {
                Ok(incoming) => {
                    &&& size <= MAX_FILE_SIZE
                    &&& incoming.wf()
                    &&& incoming.size == size
                    &&& incoming.received == 0
                    &&& is_sanitized(name@, incoming.name@)
                },
                Err(e) => size > MAX_FILE_SIZE && e == (TransferError::TooLarge { size }),
            },
    {
        if size > MAX_FILE_SIZE {
            return Err(TransferError::TooLarge { size });
        }
        Ok(Incoming { name: sanitize(name), size, received: 0 })
    }

    /// What the count becomes once a chunk is on disk, or why it may not get
    /// there.
    pub fn total_with(&self, data: &[u8]) -> (r: Result<u64, TransferError>)
        ensures
            r == total_after(self.received, data@.len(), self.size),
    {
        accept_total(self.received, data.len(), self.size)
    }

    /// Books a chunk that is on disk, by the count that `total_with` gave for it.
    pub fn record(&mut self, new_total: u64)
        requires
            old(self).wf(),
            new_total <= old(self).size,
        ensures
            final(self).received == new_total,
            final(self).size == old(self).size,
            final(self).name == old(self).name,
            final(self).wf(),
    {
        self.received = new_total;
    }
}

/// A transfer never takes up more than was offered, nor more than the limit.
pub proof fn law_transfers_are_bounded(incoming: Incoming, len: nat)
    requires
        incoming.wf(),
    ensures
        total_after(incoming.received, len, incoming.size) matches Ok(total) ==> {
            &&& total == incoming.received + len
            &&& total <= incoming.size
            &&& total <= MAX_FILE_SIZE
        },
        total_after(incoming.received, len, incoming.size) is Err <==> incoming.received + len > incoming.size,
{
}

/// The count and the bytes of a file of an offered size after some chunks, where a
/// chunk that is allowed is put behind the others and its count booked, and one
/// that is not is left.
pub open spec fn file_after(size: u64, chunks: Seq<Seq<u8>>) -> (u64, Seq<u8>)
    decreases chunks.len(),
{
    if chunks.len() == 0 {
        (0, Seq::empty())
    } else {
        let (received, held) = file_after(size, chunks.drop_last());
        match total_after(received, chunks.last().len(), size) {
            Ok(total) => (total, held + chunks.last()),
            Err(_) => (received, held),
        }
    }
}

/// Whatever chunks come in, the count is always that of the bytes in the file, and
/// never more than was offered. The next chunk is allowed if and only if it keeps
/// within the offer: then its bytes are put behind the others, and otherwise the
/// file stays as it is.
pub proof fn law_files_hold_what_was_counted(size: u64, chunks: Seq<Seq<u8>>, data: Seq<u8>)
    requires
        size <= MAX_FILE_SIZE,
    ensures
        ({
            let (received, held) = file_after(size, chunks);
            &&& received == held.len()
            &&& received <= size
            &&& total_after(received, data.len(), size) is Ok <==> received + data.len() <= size
            &&& file_after(size, chunks.push(data)) == if received + data.len() <= size {
                ((received + data.len()) as u64, held + data)
            } else {
                (received, held)
            }
        }),
    decreases chunks.len(),
{
    assert(chunks.push(data).drop_last() =~= chunks);
    if chunks.len() > 0 {
        let prior = chunks.drop_last();
        law_files_hold_what_was_counted(size, prior, chunks.last());
        assert(prior.push(chunks.last()) =~= chunks);
    }
}

// ---------------------------------------------------------------------------
// File names
// ---------------------------------------------------------------------------

/// The part of a path behind its last slash.
pub open spec fn last_part(path: Seq<char>) -> Seq<char>
    decreases path.len(),
{
    if path.len() == 0 {
        path
    } else if path.last() == '/' {
        Seq::empty()
    } else {
        last_part(path.drop_last()).push(path.last())
    }
}

/// The name that a path ends in, where a slash and nothing else separates its
/// components. Slashes at the end do not count, nor does the name of the same
/// directory behind a slash. There is none where the path is empty, is a root or
/// the same directory, or ends in the name of the directory above.
pub open spec fn path_name(path: Seq<char>) -> Option<Seq<char>>
    decreases path.len(),
{
    if path.len() == 0 {
        None
    } else if path.last() == '/' {
        path_name(path.drop_last())
    } else if last_part(path) == ".."@ {
        None
    } else if last_part(path) == "."@ {
        if path.len() == 1 {
            None
        } else {
            path_name(path.drop_last())
        }
    } else {
        Some(last_part(path))
    }
}

/// Whether a path is read alike on all platforms: it has nothing in it that
/// separates components, or starts a prefix, on some of them only.
pub open spec fn portable(path: Seq<char>) -> bool {
    &&& forall|i: int| 0 <= i < path.len() ==> #[trigger] path[i] != '\\' && path[i] != ':'
    &&& !(path.len() >= 2 && path[0] == '/' && path[1] == '/')
}

/// Whether a name holds no separator and no control code, and is not one of the
/// two directory names. Where only a slash separates components, such a name
/// stays within the directory that it is put in. Elsewhere a colon can make its
/// start a prefix that leads out of it: a name with a prefix is not to be put
/// into a directory there.
pub open spec fn safe_name(name: Seq<char>) -> bool {
    &&& name.len() > 0
    &&& name != "."@
    &&& name != ".."@
    &&& forall|i: int| 0 <= i < name.len() ==> #[trigger] name[i] != '/' && name[i] != '\\' && !is_control(name[i])
}

/// Whether a character is a control code.
pub open spec fn is_control(c: char) -> bool {
    c as u32 <= 0x1f || 0x7f <= c as u32 <= 0x9f
}

/// A character of a file name: control codes and separators are replaced.
pub open spec fn clean_char(c: char) -> char {
    if is_control(c) || c == '/' || c == '\\' {
        '_'
    } else {
        c
    }
}

/// A name with its characters cleaned.
pub open spec fn cleaned(name: Seq<char>) -> Seq<char> {
    name.map_values(|c: char| clean_char(c))
}

/// The file name for an offered path whose last name is `base`.
pub open spec fn cleaned_or_default(base: Option<Seq<char>>) -> Seq<char> {
    match base {
        Some(b) => cleaned(b),
        None => "received-file"@,
    }
}

/// The file name for an offered path, where only a slash separates components.
pub open spec fn slash_sanitized(path: Seq<char>) -> Seq<char> {
    cleaned_or_default(path_name(path))
}

/// Whether a name is the file name for an offered path. Of a path that is not
/// read alike on all platforms, what is taken for its last name is left to the
/// platform.
pub open spec fn is_sanitized(path: Seq<char>, name: Seq<char>) -> bool {
    &&& safe_name(name)
    &&& portable(path) ==> name == slash_sanitized(path)
}

/// An optional text, as contracts see it.
pub open spec fn opt_text(s: Option<String>) -> Option<Seq<char>> {
    match s {
        Some(t) => Some(t@),
        None => None,
    }
}

/// `Path::file_name`, and beside it `std::path::MAIN_SEPARATOR`, which tells the
/// platform's rules for paths: a slash on Unix. There a slash alone separates
/// components, and the result is the name that the path ends in. Other platforms
/// agree on paths without backslashes and colons that do not start with two
/// slashes. What else they take for the last component is not stated, but that
/// it is never empty and never one of the two directory names.
#[verifier::external_body]
fn file_name(path: &str) -> (r: (char, Option<String>))
    ensures
        r.0 == '/' || portable(path@) ==> opt_text(r.1) == path_name(path@),
        r.1 matches Some(s) ==> s@.len() > 0 && s@ != "."@ && s@ != ".."@,
{
    let name = std::path::Path::new(path).file_name().and_then(|s| s.to_str()).map(|s| s.to_owned());
    (std::path::MAIN_SEPARATOR, name)
}

/// The name that a file gets whose offered name has the last component `base`.
pub fn clean_name(base: Option<String>) -> (r: String)
    ensures
        r@ == match base {
            Some(b) => if b@.len() == 0 {
                "received-file"@
            } else {
                cleaned(b@)
            },
            None => "received-file"@,
        },
        (base matches Some(b) ==> b@.len() > 0) ==> r@ == cleaned_or_default(opt_text(base)),
{
    let base = match base {
        Some(b) => b,
        None => {
            return "received-file".to_owned();
        },
    };
    if base.as_str().is_empty() {
        return "received-file".to_owned();
    }
    let mut out = String::new();
    let ghost whole = base@;
    for c in iter: base.as_str().chars()
        invariant
            whole == base@,
            iter.seq() == whole,
            out@ == cleaned(whole.take(iter.index())),
    {
        out.push(clean(c));
        assert(out@ =~= cleaned(whole.take(iter.index() + 1)));
    }
    assert(whole.take(whole.len() as int) =~= whole);
    out
}

/// A character of a file name, cleaned.
fn clean(c: char) -> (r: char)
    ensures
        r == clean_char(c),
{
    let code: u32 = c as u32;
    if code <= 0x1f || (0x7f <= code && code <= 0x9f) || c == '/' || c == '\\' {
        '_'
    } else {
        c
    }
}

/// A file name that is safe to use, made of an offered name: its directories
/// are dropped and its characters cleaned. What is left of a path is what its
/// platform takes for the file name.
pub fn sanitize(name: &str) -> (r: String)
    ensures
        is_sanitized(name@, r@),
{
    sanitize_here(name).1
}

/// The same, and beside it the platform's separator. Where that is a slash, every
/// offered name is read alike.
pub fn sanitize_here(name: &str) -> (r: (char, String))
    ensures
        is_sanitized(name@, r.1@),
        r.0 == '/' ==> r.1@ == slash_sanitized(name@),
{
    let (separator, base) = file_name(name);
    let ghost inner = opt_text(base);
    let r = clean_name(base);
    proof {
        lemma_cleaned_is_safe(inner);
    }
    (separator, r)
}

/// What is cleaned is safe, unless it was empty or one of the directory names.
proof fn lemma_cleaned_is_safe(base: Option<Seq<char>>)
    requires
        base matches Some(b) ==> b.len() > 0 && b != "."@ && b != ".."@,
    ensures
        safe_name(cleaned_or_default(base)),
{
    reveal_strlit("received-file");
    reveal_strlit(".");
    reveal_strlit("..");
    if let Some(s) = base {
        let t = cleaned(s);
        assert forall|i: int| 0 <= i < t.len() implies #[trigger] t[i] != '/' && t[i] != '\\' && !is_control(t[i]) by {
            assert(t[i] == clean_char(s[i]));
        }
        if t == "."@ {
            assert(t[0] == clean_char(s[0]));
            assert(s =~= "."@);
        }
        if t == ".."@ {
            assert(t[0] == clean_char(s[0]) && t[1] == clean_char(s[1]));
            assert(s =~= ".."@);
        }
    } else {
        let t = "received-file"@;
        assert(t =~= seq!['r', 'e', 'c', 'e', 'i', 'v', 'e', 'd', '-', 'f', 'i', 'l', 'e']);
        assert forall|i: int| 0 <= i < t.len() implies #[trigger] t[i] != '/' && t[i] != '\\' && !is_control(t[i]) by {
            assert(t[i] == '-' || 'a' <= t[i] <= 'z');
        }
        assert(t.len() > 2);
    }
}

/// A text without a slash is all behind its last slash.
proof fn lemma_no_slash(t: Seq<char>)
    requires
        forall|i: int| 0 <= i < t.len() ==> #[trigger] t[i] != '/',
    ensures
        last_part(t) == t,
    decreases t.len(),
{
    if t.len() > 0 {
        let rest = t.drop_last();
        assert forall|i: int| 0 <= i < rest.len() implies #[trigger] rest[i] != '/' by {
            assert(rest[i] == t[i]);
        }
        assert(t[t.len() - 1] != '/');
        lemma_no_slash(rest);
        assert(rest.push(t.last()) =~= t);
    }
}

/// The name that a path ends in is not empty and not one of the directory names.
proof fn lemma_path_name(path: Seq<char>)
    ensures
        path_name(path) matches Some(b) ==> b.len() > 0 && b != "."@ && b != ".."@,
    decreases path.len(),
{
    if path.len() > 0 {
        lemma_path_name(path.drop_last());
    }
}

/// Where only a slash separates components, whatever is offered the file name is
/// safe, a name that is safe already stays as it is, and so a second pass changes
/// nothing. A path that ends in no name is called `received-file`.
pub proof fn law_sanitized_names_stay(path: Seq<char>)
    ensures
        safe_name(slash_sanitized(path)),
        safe_name(path) ==> slash_sanitized(path) == path,
        slash_sanitized(slash_sanitized(path)) == slash_sanitized(path),
        path_name(path) is None ==> slash_sanitized(path) == "received-file"@,
{
    lemma_path_name(path);
    lemma_cleaned_is_safe(path_name(path));
    lemma_safe_stays(slash_sanitized(path));
    if safe_name(path) {
        lemma_safe_stays(path);
    }
}

/// A safe name stays as it is.
proof fn lemma_safe_stays(name: Seq<char>)
    requires
        safe_name(name),
    ensures
        slash_sanitized(name) == name,
{
    lemma_no_slash(name);
    assert(name[name.len() - 1] != '/');
    assert(cleaned(name) =~= name);
}

/// The name that a file gets when `n` files of that name are there already: the
/// number goes in front of the extension. A dot at the start makes none.
pub open spec fn numbered(name: Seq<char>, n: nat) -> Seq<char> {
    let dot = text::last_of(name, '.');
    if dot <= 0 {
        name + "-"@ + text::decimal(n)
    } else {
        name.take(dot) + "-"@ + text::decimal(n) + name.skip(dot)
    }
}

/// The `n`-th name to try for a file, until one is free. After ten thousand
/// there is no further one.
pub open spec fn candidate(name: Seq<char>, n: nat) -> Option<Seq<char>> {
    if n == 0 {
        Some(name)
    } else if n < 10000 {
        Some(numbered(name, n))
    } else {
        None
    }
}

/// The `n`-th name to try for a file whose name is `name`.
pub fn candidate_name(name: &str, n: u32) -> (r: Option<String>)
    ensures
        match (r, candidate(name@, n as nat)) {
            (Some(s), Some(t)) => s@ == t,
            (None, None) => true,
            _ => false,
        },
{
    if n == 0 {
        return Some(name.to_owned());
    }
    if n >= 10000 {
        return None;
    }
    let len: usize = name.unicode_len();
    let dot: usize = match text::find_last(name, '.') {
        Some(i) => if i > 0 {
            i
        } else {
            len
        },
        None => len,
    };
    proof {
        text::lemma_last_of(name@, '.');
    }
    let mut out = name.substring_char(0, dot).to_owned();
    out.append("-");
    text::push_decimal(&mut out, n as u64);
    out.append(name.substring_char(dot, len));
    proof {
        assert(out@ =~= name@.subrange(0, dot as int) + "-"@ + text::decimal(n as nat) + name@.subrange(
            dot as int,
            len as int,
        ));
        assert(out@ =~= numbered(name@, n as nat));
    }
    Some(out)
}

// ---------------------------------------------------------------------------
// Sizes for people
// ---------------------------------------------------------------------------

/// The quotient of `n` and `d`, rounded to the nearest integer; what lies half
/// way goes to the even one.
pub open spec fn round_half_even(n: nat, d: nat) -> nat {
    let q = n / d;
    let r = n % d;
    if 2 * r < d || (2 * r == d && q % 2 == 0) {
        q
    } else {
        q + 1
    }
}

/// The smallest doubling of `p` by which `n` counts less than 2^53 times.
pub open spec fn grain(n: nat, p: nat) -> nat
    decreases n - p,
{
    if p == 0 || n < p * 0x20_0000_0000_0000 {
        p
    } else {
        grain(n, 2 * p)
    }
}

/// A byte count to 53 significant bits.
pub open spec fn to_53_bits(n: nat) -> nat {
    round_half_even(n, grain(n, 1)) * grain(n, 1)
}

/// The unit of a byte count, the largest up to a terabyte that it reaches.
pub open spec fn unit_of(n: nat) -> (nat, Seq<char>) {
    if n >= 0x100_0000_0000 {
        (0x100_0000_0000, "TB"@)
    } else if n >= 0x4000_0000 {
        (0x4000_0000, "GB"@)
    } else if n >= 0x10_0000 {
        (0x10_0000, "MB"@)
    } else if n >= 0x400 {
        (0x400, "KB"@)
    } else {
        (1, "B"@)
    }
}

/// A byte count for people: in bytes where it is below a kilobyte, else in its
/// unit with one decimal, counted to 53 significant bits.
pub open spec fn size_text(n: u64) -> Seq<char> {
    let v = to_53_bits(n as nat);
    let (unit, name) = unit_of(v);
    if unit == 1 {
        text::decimal(n as nat) + " "@ + name
    } else {
        let tenths = round_half_even(10 * v, unit);
        text::decimal(tenths / 10) + "."@ + text::decimal(tenths % 10) + " "@ + name
    }
}

/// The rounded quotient, as code.
fn rounded(n: u128, d: u128) -> (r: u128)
    requires
        0 < d,
        n < 0x1_0000_0000_0000_0000_0000_0000,
    ensures
        r == round_half_even(n as nat, d as nat),
        r <= n + 1,
{
    let q: u128 = n / d;
    let r: u128 = n % d;
    proof {
        assert(q <= n) by (nonlinear_arith)
            requires
                q == n / d,
                d > 0,
        ;
    }
    if r < d - r || (r == d - r && q % 2 == 0) {
        q
    } else {
        q + 1
    }
}

/// A byte count to 53 significant bits, as code.
fn in_53_bits(n: u64) -> (r: u128)
    ensures
        r == to_53_bits(n as nat),
        r <= 0x1_0000_0000_0000_1000,
        n < 0x400 <==> r < 0x400,
        r < 0x400 ==> r == n,
{
    let mut p: u128 = 1;
    while n as u128 >= p * 0x20_0000_0000_0000
        invariant
            1 <= p <= 0x1000,
            grain(n as nat, p as nat) == grain(n as nat, 1),
        decreases 0x1000 - p,
    {
        p = p * 2;
    }
    let q: u128 = rounded(n as u128, p);
    proof {
        let quotient = n as nat / p as nat;
        assert(quotient * p <= n) by (nonlinear_arith)
            requires
                quotient == n as nat / p as nat,
                p > 0,
        ;
        assert((quotient + 1) * p == quotient * p + p) by (nonlinear_arith);
        assert(q * p <= n + p) by (nonlinear_arith)
            requires
                q == quotient || q == quotient + 1,
                quotient * p <= n,
        ;
        if p == 1 {
            assert(n as nat / 1nat == n as nat && n as nat % 1nat == 0);
            assert(round_half_even(n as nat, 1nat) == n as nat);
            assert(q * p == n) by (nonlinear_arith)
                requires
                    q == n,
                    p == 1,
            ;
        } else {
            assert(n >= 0x20_0000_0000_0000) by {
                if n < 0x20_0000_0000_0000 {
                    assert(grain(n as nat, 1) == 1);
                }
            }
            assert(q * p >= n - p) by (nonlinear_arith)
                requires
                    q >= quotient,
                    quotient == n as nat / p as nat,
                    p > 0,
            ;
        }
    }
    q * p
}

/// A byte count for people, as in "2.1 MB".
pub fn human_size(bytes: u64) -> (r: String)
    ensures
        r@ == size_text(bytes),
{
    let v: u128 = in_53_bits(bytes);
    let (unit, name): (u128, &str) = if v >= 0x100_0000_0000 {
        (0x100_0000_0000, "TB")
    } else if v >= 0x4000_0000 {
        (0x4000_0000, "GB")
    } else if v >= 0x10_0000 {
        (0x10_0000, "MB")
    } else if v >= 0x400 {
        (0x400, "KB")
    } else {
        (1, "B")
    };
    if unit == 1 {
        let mut out = text::decimal_text(bytes);
        out.append(" ");
        out.append(name);
        out
    } else {
        let tenths: u128 = rounded(10 * v, unit);
        let whole: u128 = tenths / 10;
        assert(whole <= u64::MAX) by {
            let q = (10 * v) as nat / unit as nat;
            assert(q <= (10 * v) as nat / 0x400) by (nonlinear_arith)
                requires
                    q == (10 * v) as nat / unit as nat,
                    unit >= 0x400,
            ;
        }
        let mut out = text::decimal_text(whole as u64);
        out.append(".");
        text::push_decimal(&mut out, (tenths % 10) as u64);
        out.append(" ");
        out.append(name);
        out
    }
}

// ---------------------------------------------------------------------------
// Laws of consent, names and sizes
// ---------------------------------------------------------------------------

/// What the consent gate has of one transfer: the offer that is pending, and whether it
/// may write.
pub open spec fn standing(g: GateModel, id: Seq<u8>) -> (Option<(Seq<char>, u64)>, bool) {
    (
        if g.pending.contains_key(id) {
            Some(g.pending[id])
        } else {
            None
        },
        g.accepted.contains(id),
    )
}

/// An offer that was let in can be accepted, and is then handed back as it was made and
/// may write; declined it may not, and cannot be accepted any more. A transfer that was
/// ended is neither pending nor may it write.
pub proof fn law_offers_are_answered(g: GateModel, id: Seq<u8>, name: Seq<char>, size: u64, max: nat)
    requires
        in_flight(g) < max,
    ensures
        ({
            let offered = gate_offer(g, id, name, size, max).0;
            let (accepted, handed) = gate_accept(offered, id);
            &&& gate_offer(g, id, name, size, max).1
            &&& standing(offered, id) == (Some((name, size)), standing(g, id).1)
            &&& handed == Some((name, size))
            &&& standing(accepted, id) == (None::<(Seq<char>, u64)>, true)
            &&& standing(gate_reject(offered, id), id) == (None::<(Seq<char>, u64)>, standing(g, id).1)
            &&& gate_accept(gate_reject(offered, id), id).1 is None
            &&& standing(gate_finish(offered, id), id) == (None::<(Seq<char>, u64)>, false)
            &&& standing(gate_finish(accepted, id), id) == (None::<(Seq<char>, u64)>, false)
        }),
{
}

/// What is done about one transfer leaves every other as it stands.
pub proof fn law_offers_are_independent(g: GateModel, id: Seq<u8>, name: Seq<char>, size: u64, max: nat, other: Seq<u8>)
    requires
        other != id,
    ensures
        standing(gate_offer(g, id, name, size, max).0, other) == standing(g, other),
        standing(gate_accept(g, id).0, other) == standing(g, other),
        standing(gate_reject(g, id), other) == standing(g, other),
        standing(gate_finish(g, id), other) == standing(g, other),
{
}

/// Ending a transfer makes room for another: one less is under way, or two less where it
/// was both pending and accepted.
pub proof fn law_ended_transfers_make_room(g: GateModel, id: Seq<u8>)
    requires
        g.pending.dom().finite(),
        g.accepted.finite(),
    ensures
        in_flight(gate_finish(g, id)) == in_flight(g) - (if g.pending.contains_key(id) {
            1int
        } else {
            0int
        }) - (if g.accepted.contains(id) {
            1int
        } else {
            0int
        }),
        g.pending.contains_key(id) && !g.accepted.contains(id) ==> in_flight(gate_accept(g, id).0) == in_flight(g),
{
    assert(gate_finish(g, id).pending.dom() =~= g.pending.dom().remove(id));
    if g.pending.contains_key(id) {
        assert(gate_accept(g, id).0.pending.dom() =~= g.pending.dom().remove(id));
    }
}

/// The part behind the last slash of a path that ends in a name is that name.
proof fn lemma_last_part(dir: Seq<char>, name: Seq<char>)
    requires
        forall|i: int| 0 <= i < name.len() ==> #[trigger] name[i] != '/',
    ensures
        last_part(dir + seq!['/'] + name) == name,
    decreases name.len(),
{
    let path = dir + seq!['/'] + name;
    if name.len() == 0 {
        assert(path.last() == '/');
        assert(last_part(path) =~= name);
    } else {
        let shorter = name.drop_last();
        assert(path.last() == name[name.len() - 1]);
        assert(path.drop_last() =~= dir + seq!['/'] + shorter);
        assert forall|i: int| 0 <= i < shorter.len() implies #[trigger] shorter[i] != '/' by {
            assert(shorter[i] == name[i]);
        }
        lemma_last_part(dir, shorter);
        assert(shorter.push(name.last()) =~= name);
    }
}

/// Directories are dropped from an offered name, whatever they are: of a path that ends
/// in a name the name is left, and slashes behind it make no difference. A safe name comes
/// through as it is.
pub proof fn law_directories_are_dropped(dir: Seq<char>, name: Seq<char>)
    requires
        safe_name(name),
    ensures
        slash_sanitized(dir + seq!['/'] + name) == name,
        slash_sanitized(dir + seq!['/'] + name + seq!['/']) == name,
{
    let path = dir + seq!['/'] + name;
    lemma_last_part(dir, name);
    assert(path.last() == name[name.len() - 1]);
    assert(path_name(path) == Some(name));
    assert((path + seq!['/']).drop_last() =~= path);
    assert(cleaned(name) =~= name);
}

/// Cleaning a name replaces separators and control codes, one for one, and leaves every
/// other character as it is.
pub proof fn law_only_unsafe_characters_are_replaced(name: Seq<char>, i: int)
    requires
        0 <= i < name.len(),
    ensures
        cleaned(name).len() == name.len(),
        name[i] == '/' || name[i] == '\\' || is_control(name[i]) <==> cleaned(name)[i] != name[i],
        cleaned(name)[i] != name[i] ==> cleaned(name)[i] == '_',
        name[i] >= ' ' && name[i] <= '~' && name[i] != '/' && name[i] != '\\' ==> cleaned(name)[i] == name[i],
{
}

/// Two texts with the same text around them are the same.
proof fn lemma_same_middle(front: Seq<char>, a: Seq<char>, b: Seq<char>, back: Seq<char>)
    requires
        front + a + back == front + b + back,
    ensures
        a == b,
{
    assert((front + a + back).len() == front.len() + a.len() + back.len());
    assert((front + b + back).len() == front.len() + b.len() + back.len());
    assert(a.len() == b.len());
    assert forall|i: int| 0 <= i < a.len() implies a[i] == b[i] by {
        assert((front + a + back)[front.len() + i] == a[i]);
        assert((front + b + back)[front.len() + i] == b[i]);
    }
    assert(a =~= b);
}

/// A file whose name is taken gets another one: the first try is the name itself, and no
/// two of the ten thousand tries are the same. Each keeps what stands in front of the
/// extension and the extension itself, with the number between them.
pub proof fn law_tries_for_a_name_differ(name: Seq<char>, a: nat, b: nat)
    requires
        a < b < 10000,
    ensures
        candidate(name, 0) == Some(name),
        candidate(name, a) is Some && candidate(name, b) is Some,
        candidate(name, a) != candidate(name, b),
        ({
            let dot = text::last_of(name, '.');
            let t = candidate(name, b)->0;
            &&& dot > 0 ==> t == name.take(dot) + ("-"@ + text::decimal(b)) + name.skip(dot)
            &&& dot <= 0 ==> t == name + ("-"@ + text::decimal(b)) + Seq::<char>::empty()
        }),
{
    text::lemma_last_of(name, '.');
    text::law_decimals_stand_for_the_number(a);
    text::law_decimals_stand_for_the_number(b);
    reveal_strlit("-");
    let dot = text::last_of(name, '.');
    let (front, back) = if dot <= 0 {
        (name, Seq::<char>::empty())
    } else {
        (name.take(dot), name.skip(dot))
    };
    let (x, y) = ("-"@ + text::decimal(a), "-"@ + text::decimal(b));
    assert(numbered(name, a) =~= front + x + back);
    assert(numbered(name, b) =~= front + y + back);
    assert(front + back =~= name);
    if a > 0 && numbered(name, a) == numbered(name, b) {
        lemma_same_middle(front, x, y, back);
        assert(text::decimal(a) =~= x.skip(1));
        assert(text::decimal(b) =~= y.skip(1));
    }
    if a == 0 {
        assert(numbered(name, b).len() > name.len());
    }
}

/// A byte count below 2^53 is counted exactly, and shown in the largest unit that it
/// reaches, up to terabytes, rounded to the nearest tenth of the unit.
pub proof fn law_sizes_are_shown_to_the_nearest_tenth(n: u64) -> (tenths: nat)
    requires
        1024 <= n < 0x20_0000_0000_0000,
    ensures
        ({
            let (unit, name) = unit_of(n as nat);
            &&& size_text(n) == text::decimal(tenths / 10) + "."@ + text::decimal(tenths % 10) + " "@ + name
            &&& 2 * (tenths * unit - 10 * n) <= unit
            &&& 2 * (10 * n - tenths * unit) <= unit
            &&& unit <= n
            &&& unit == 0x100_0000_0000 || n < 1024 * unit
        }),
{
    let v = n as nat;
    assert(grain(v, 1) == 1);
    assert(v / 1nat == v && v % 1nat == 0);
    assert(to_53_bits(v) == v) by (nonlinear_arith)
        requires
            to_53_bits(v) == round_half_even(v, 1) * 1,
            round_half_even(v, 1) == v,
    ;
    let (unit, name) = unit_of(v);
    let big = 10 * v;
    let tenths = round_half_even(big, unit);
    let q = big / unit;
    let r = big % unit;
    assert(big == q * unit + r && 0 <= r < unit) by (nonlinear_arith)
        requires
            q == big / unit,
            r == big % unit,
            unit > 0,
    ;
    assert((q + 1) * unit == q * unit + unit) by (nonlinear_arith);
    tenths
}

/// Fewer bytes than a kilobyte are shown as they are counted.
pub proof fn law_small_sizes_are_shown_in_bytes(n: u64)
    requires
        n < 1024,
    ensures
        size_text(n) == text::decimal(n as nat) + " "@ + "B"@,
{
    let v = n as nat;
    assert(grain(v, 1) == 1);
    assert(v / 1nat == v && v % 1nat == 0);
    assert(to_53_bits(v) == v) by (nonlinear_arith)
        requires
            to_53_bits(v) == round_half_even(v, 1) * 1,
            round_half_even(v, 1) == v,
    ;
}

/// A byte count is shown to within half a tenth of its unit, and within one kilobyte of
/// what 53 significant bits hold, whatever its size.
pub proof fn law_sizes_are_shown_closely(n: u64) -> (tenths: nat)
    requires
        n >= 1024,
    ensures
        ({
            let (unit, name) = unit_of(to_53_bits(n as nat));
            &&& size_text(n) == text::decimal(tenths / 10) + "."@ + text::decimal(tenths % 10) + " "@ + name
            &&& 2 * (tenths * unit - 10 * n) <= unit + 20480
            &&& 2 * (10 * n - tenths * unit) <= unit + 20480
            &&& unit == 0x400 || unit == 0x10_0000 || unit == 0x4000_0000 || unit == 0x100_0000_0000
            &&& unit <= n + 1024
            &&& unit == 0x100_0000_0000 || n < 1024 * unit + 1024
        }),
{
    let v = n as nat;
    reveal_with_fuel(grain, 13);
    let g = grain(v, 1);
    assert(1 <= g <= 2048);
    let w = to_53_bits(v);
    lemma_rounded_is_near(v, g);
    assert(2 * (w - v) <= g && 2 * (v - w) <= g);
    if v < 0x20_0000_0000_0000 {
        assert(g == 1);
        assert(w == v);
    }
    let (unit, name) = unit_of(w);
    lemma_rounded_is_near(10 * w, unit);
    round_half_even(10 * w, unit)
}

/// A rounded quotient is no further than half from the exact one.
proof fn lemma_rounded_is_near(n: nat, d: nat)
    requires
        d > 0,
    ensures
        2 * (round_half_even(n, d) * d - n) <= d,
        2 * (n - round_half_even(n, d) * d) <= d,
{
    let q = n / d;
    let r = n % d;
    assert(n == q * d + r && 0 <= r < d) by (nonlinear_arith)
        requires
            q == n / d,
            r == n % d,
            d > 0,
    ;
    assert((q + 1) * d == q * d + d) by (nonlinear_arith);
}

/// Each kind of frame has its own first byte, and behind it the id of its transfer where
/// it has one, then what it carries.
pub proof fn law_frames_are_laid_out(f: FrameModel)
    requires
        frame_fits(f),
    ensures
        ({
            let b = frame_bytes(f);
            match f {
                FrameModel::Text(s) => b[0] == 1 && b.skip(1) == encode_utf8(s),
                FrameModel::FileOffer { id, name, size } => {
                    &&& b[0] == 2 && b.subrange(1, 17) == id
                    &&& bytes::from_be64(b.subrange(17, 25)) == size
                    &&& b.skip(25) == encode_utf8(name)
                },
                FrameModel::FileChunk { id, data } => b[0] == 3 && b.subrange(1, 17) == id && b.skip(17) == data,
                FrameModel::FileEnd { id } => b[0] == 4 && b.skip(1) == id,
                FrameModel::Group(data) => b[0] == 5 && b.skip(1) == data,
                FrameModel::FileAccept { id } => b[0] == 6 && b.skip(1) == id,
                FrameModel::FileReject { id } => b[0] == 7 && b.skip(1) == id,
            }
        }),
{
    let b = frame_bytes(f);
    match f {
        FrameModel::Text(s) => {
            assert(b.skip(1) =~= encode_utf8(s));
        },
        FrameModel::FileOffer { id, name, size } => {
            bytes::lemma_be64(size as int, bytes::zeros(8));
            assert(b.subrange(1, 17) =~= id);
            assert(b.subrange(17, 25) =~= bytes::be64(size as int));
            assert(b.skip(25) =~= encode_utf8(name));
        },
        FrameModel::FileChunk { id, data } => {
            assert(b.subrange(1, 17) =~= id);
            assert(b.skip(17) =~= data);
        },
        FrameModel::FileEnd { id } => {
            assert(b.skip(1) =~= id);
        },
        FrameModel::FileAccept { id } => {
            assert(b.skip(1) =~= id);
        },
        FrameModel::FileReject { id } => {
            assert(b.skip(1) =~= id);
        },
        FrameModel::Group(data) => {
            assert(b.skip(1) =~= data);
        },
    }
}

/// Bytes are no frame where there are none, where their first is none of the seven kinds,
/// and where they end within the fields of theirs; otherwise they are one, and of their
/// kind.
pub proof fn law_other_bytes_are_no_frame(b: Seq<u8>)
    ensures
        parse_frame(b) is Err <==> {
            ||| b.len() == 0
            ||| b[0] == 0
            ||| b[0] > 7
            ||| b[0] == 2 && b.len() < 25
            ||| (b[0] == 3 || b[0] == 4 || b[0] == 6 || b[0] == 7) && b.len() < 17
        },
        parse_frame(b) matches Ok(f) ==> frame_bytes(f)[0] == b[0],
        b.len() == 0 <==> parse_frame(b) == Err::<FrameModel, FrameError>(FrameError::Empty),
        b.len() > 0 && (b[0] == 0 || b[0] > 7) ==> parse_frame(b) == Err::<FrameModel, FrameError>(
            FrameError::UnknownType(b[0]),
        ),
{
}

/// What is counted of a file adds up: two pieces count as much as both at once, none
/// counts nothing, and pieces are counted as long as they stay within what was offered,
/// to the last byte of it.
pub proof fn law_counts_add_up(received: u64, a: nat, b: nat, size: u64)
    requires
        received <= size,
    ensures
        total_after(received, 0, size) == Ok::<u64, TransferError>(received),
        total_after(received, (size - received) as nat, size) == Ok::<u64, TransferError>(size),
        total_after(received, (size - received + 1) as nat, size) is Err,
        total_after(received, a, size) matches Ok(mid) ==> {
            &&& mid >= received
            &&& mid - received == a
            &&& total_after(mid, b, size) is Ok <==> total_after(received, a + b, size) is Ok
            &&& total_after(mid, b, size) is Ok ==> total_after(mid, b, size) == total_after(received, a + b, size)
        },
        total_after(received, a, size) is Err ==> total_after(received, a + b, size) is Err,
{
}

/// A path that ends in no name, because there is nothing in it but slashes or because it
/// ends in the directory above, is received under a name of our own.
pub proof fn law_nameless_paths_get_a_name(path: Seq<char>, dir: Seq<char>)
    ensures
        (forall|i: int| 0 <= i < path.len() ==> #[trigger] path[i] == '/') ==> slash_sanitized(path)
            == "received-file"@,
        slash_sanitized(dir + seq!['/', '.', '.']) == "received-file"@,
    decreases path.len(),
{
    if path.len() > 0 && (forall|i: int| 0 <= i < path.len() ==> #[trigger] path[i] == '/') {
        let rest = path.drop_last();
        assert(path[path.len() - 1] == '/');
        assert forall|i: int| 0 <= i < rest.len() implies #[trigger] rest[i] == '/' by {
            assert(rest[i] == path[i]);
        }
        law_nameless_paths_get_a_name(rest, dir);
    }
    reveal_strlit("..");
    let up = dir + seq!['/', '.', '.'];
    lemma_last_part(dir, seq!['.', '.']);
    assert(dir + seq!['/'] + seq!['.', '.'] =~= up);
    assert(seq!['.', '.'] =~= ".."@);
}

/// The unit that a size is shown in is named for what it is.
pub proof fn law_units_are_named(n: nat)
    ensures
        ({
            let (unit, name) = unit_of(n);
            &&& unit == 1 ==> name == "B"@
            &&& unit == 1024 ==> name == "KB"@
            &&& unit == 1024 * 1024 ==> name == "MB"@
            &&& unit == 1024 * 1024 * 1024 ==> name == "GB"@
            &&& unit == 1024 * 1024 * 1024 * 1024 ==> name == "TB"@
            &&& unit == 1 || unit == 1024 || unit == 1024 * 1024 || unit == 1024 * 1024 * 1024 || unit == 1024 * 1024
                * 1024 * 1024
        }),
{
}

/// A piece that may not be counted is refused for what is wrong with it: it goes beyond
/// what was offered, which is told together with how much there would be, or beyond what
/// can be counted at all.
pub proof fn law_refused_pieces_tell_why(received: u64, len: nat, size: u64)
    ensures
        received + len > 0xffff_ffff_ffff_ffff <==> total_after(received, len, size) == Err::<u64, TransferError>(
            TransferError::Overflow,
        ),
        size < received + len <= 0xffff_ffff_ffff_ffff ==> total_after(received, len, size) == Err::<
            u64,
            TransferError,
        >(TransferError::MoreThanOffered { size, total: (received + len) as u64 }),
        received + len <= size ==> total_after(received, len, size) is Ok,
{
}

/// A frame that ends within its fields is refused for that, by its kind.
pub proof fn law_short_frames_tell_their_kind(b: Seq<u8>)
    requires
        b.len() > 0,
    ensures
        b[0] == 2 && b.len() < 25 <==> parse_frame(b) == Err::<FrameModel, FrameError>(FrameError::OfferShort),
        b[0] == 3 && b.len() < 17 <==> parse_frame(b) == Err::<FrameModel, FrameError>(FrameError::ChunkShort),
        b[0] == 4 && b.len() < 17 <==> parse_frame(b) == Err::<FrameModel, FrameError>(FrameError::EndShort),
        (b[0] == 6 || b[0] == 7) && b.len() < 17 <==> parse_frame(b) == Err::<FrameModel, FrameError>(
            FrameError::ReplyShort,
        ),
{
}

} // verus!
