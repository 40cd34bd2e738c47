//! What a two-party chat does with what comes in: lines to show, and files that
//! are written only once the user has said so.
//!
//! Opening, writing and closing files is left to the caller, which reports back
//! how it went. A caller that has opened, written or closed nothing has nothing
//! to report.
use vstd::prelude::*;
use vstd::string::*;

use crate::assoc::Assoc;
use crate::message;
use crate::message::{
    human_size, FileGate, Frame, FrameModel, GateModel, Incoming, TransferError, MAX_CONCURRENT_FILES,
};

verus! {

/// How much comes in between two reports of progress.
pub const MIB: u64 = 1048576;

/// A file that is being received, as contracts see it.
pub struct SinkModel {
    pub name: Seq<char>,
    pub size: u64,
    pub received: u64,
}

/// The state of a chat's incoming files, as contracts see it.
pub struct ReceivingModel {
    /// Which files were offered, and which may be written.
    pub gate: GateModel,
    /// The files that are open.
    pub sinks: Map<Seq<u8>, SinkModel>,
}

/// The account of a file, as contracts see it.
pub open spec fn sink_view(i: Incoming) -> SinkModel {
    SinkModel { name: i.name@, size: i.size, received: i.received }
}

/// The incoming files of a chat.
pub struct Receiving {
    gate: FileGate,
    sinks: Assoc<[u8; 16], Incoming>,
}

impl View for Receiving {
    type V = ReceivingModel;

    closed spec fn view(&self) -> ReceivingModel {
        ReceivingModel { gate: self.gate@, sinks: self.sinks@.map_values(|i: Incoming| sink_view(i)) }
    }
}

/// Whether a file holds no more than was offered, and was offered with no more
/// than is taken in at all.
pub open spec fn bounded(s: SinkModel) -> bool {
    s.received <= s.size <= message::MAX_FILE_SIZE
}

/// Every open file is within its bounds, and no more than
/// `MAX_CONCURRENT_FILES` transfers are under way.
pub open spec fn consistent(m: ReceivingModel) -> bool {
    &&& m.gate.pending.dom().finite()
    &&& m.gate.accepted.finite()
    &&& message::in_flight(m.gate) <= MAX_CONCURRENT_FILES
    &&& forall|id: Seq<u8>| #[trigger] m.sinks.contains_key(id) ==> bounded(m.sinks[id])
}

/// What to do about a frame.
pub enum Step {
    Nothing,
    /// Show and keep a chat line.
    Show { text: String },
    /// Ask the user about an offer.
    Offered { id: [u8; 16], name: String, size: u64, human: String },
    /// Too many transfers are under way: tell the user.
    Refused { id: [u8; 16] },
    /// Write to an open file, and report with `wrote` or `write_failed`.
    Write { id: [u8; 16], data: Vec<u8>, total: u64 },
    /// The transfer has failed and its file is given up: tell the user.
    Failed { id: [u8; 16], error: TransferError },
    /// Close the file.
    Close { id: [u8; 16], name: String },
    /// Our offer was taken up.
    PeerAccepted { id: [u8; 16] },
    /// Our offer was declined.
    PeerRejected { id: [u8; 16] },
}

/// What to do about a frame, as contracts see it.
pub enum StepModel {
    Nothing,
    Show { text: Seq<char> },
    Offered { id: Seq<u8>, name: Seq<char>, size: u64, human: Seq<char> },
    Refused { id: Seq<u8> },
    Write { id: Seq<u8>, data: Seq<u8>, total: u64 },
    Failed { id: Seq<u8>, error: TransferError },
    Close { id: Seq<u8>, name: Seq<char> },
    PeerAccepted { id: Seq<u8> },
    PeerRejected { id: Seq<u8> },
}

impl View for Step {
    type V = StepModel;

    open spec fn view(&self) -> StepModel {
        match self {
            Step::Nothing => StepModel::Nothing,
            Step::Show { text } => StepModel::Show { text: text@ },
            Step::Offered { id, name, size, human } => StepModel::Offered {
                id: id@,
                name: name@,
                size: *size,
                human: human@,
            },
            Step::Refused { id } => StepModel::Refused { id: id@ },
            Step::Write { id, data, total } => StepModel::Write { id: id@, data: data@, total: *total },
            Step::Failed { id, error } => StepModel::Failed { id: id@, error: *error },
            Step::Close { id, name } => StepModel::Close { id: id@, name: name@ },
            Step::PeerAccepted { id } => StepModel::PeerAccepted { id: id@ },
            Step::PeerRejected { id } => StepModel::PeerRejected { id: id@ },
        }
    }
}

/// A transfer is over: its file is given up, and nothing is kept of it.
pub open spec fn given_up(m: ReceivingModel, id: Seq<u8>) -> ReceivingModel {
    ReceivingModel { gate: message::gate_finish(m.gate, id), sinks: m.sinks.remove(id) }
}

/// What a frame leads to.
pub open spec fn frame_step(m: ReceivingModel, f: FrameModel) -> (ReceivingModel, StepModel) {
    match f {
        FrameModel::Text(text) => (m, StepModel::Show { text }),
        FrameModel::FileOffer { id, name, size } => {
            let (gate, taken) = message::gate_offer(m.gate, id, name, size, MAX_CONCURRENT_FILES as nat);
            if taken {
                (
                    ReceivingModel { gate, ..m },
                    StepModel::Offered { id, name, size, human: message::size_text(size) },
                )
            } else {
                (m, StepModel::Refused { id })
            }
        },
        FrameModel::FileChunk { id, data } => if m.gate.accepted.contains(id) && m.sinks.contains_key(id) {
            match message::total_after(m.sinks[id].received, data.len(), m.sinks[id].size) {
                Ok(total) => (m, StepModel::Write { id, data, total }),
                Err(error) => (given_up(m, id), StepModel::Failed { id, error }),
            }
        } else {
            (m, StepModel::Nothing)
        },
        FrameModel::FileEnd { id } => if m.sinks.contains_key(id) {
            (given_up(m, id), StepModel::Close { id, name: m.sinks[id].name })
        } else {
            (given_up(m, id), StepModel::Nothing)
        },
        FrameModel::FileAccept { id } => (m, StepModel::PeerAccepted { id }),
        FrameModel::FileReject { id } => (m, StepModel::PeerRejected { id }),
        FrameModel::Group(_) => (m, StepModel::Nothing),
    }
}

/// What a decision makes of the consent gate.
pub open spec fn decided(g: GateModel, id: Seq<u8>, accepted: bool) -> GateModel {
    if !accepted {
        message::gate_reject(g, id)
    } else if g.pending.contains_key(id) && g.pending[id].1 > message::MAX_FILE_SIZE {
        message::gate_finish(g, id)
    } else {
        message::gate_accept(g, id).0
    }
}

/// What to do once the user has decided.
pub enum Consent {
    /// There is no such offer.
    Nothing,
    /// Open a file of that name, and report with `opened` or `open_failed`.
    Open { file: Incoming },
    /// The offer is too large: tell the user.
    Failed { error: TransferError },
    /// The offer is declined: tell the user.
    Declined,
}

/// What a decision about an offer is answered with.
pub open spec fn answers(g: GateModel, id: Seq<u8>, accepted: bool, r: Consent) -> bool {
    match r {
        Consent::Declined => !accepted,
        Consent::Nothing => accepted && !g.pending.contains_key(id),
        Consent::Failed { error } => {
            &&& accepted && g.pending.contains_key(id)
            &&& error == (TransferError::TooLarge { size: g.pending[id].1 })
            &&& g.pending[id].1 > message::MAX_FILE_SIZE
        },
        Consent::Open { file } => {
            &&& accepted && g.pending.contains_key(id)
            &&& sink_view(file).size == g.pending[id].1 <= message::MAX_FILE_SIZE
            &&& sink_view(file).received == 0
            &&& message::is_sanitized(g.pending[id].0, sink_view(file).name)
        },
    }
}

/// How far a transfer has come.
pub struct Progress {
    pub received: u64,
    pub size: u64,
}

/// Whether progress is reported when the count goes from `before` to
/// `received`: at the end, and whenever another MiB has begun.
pub open spec fn reports(before: u64, received: u64, size: u64) -> bool {
    received == size || before / MIB != received / MIB
}

impl Receiving {
    /// What every operation keeps.
    pub open spec fn wf(&self) -> bool {
        consistent(self@)
    }

    /// A chat in which nothing was offered yet.
    pub fn new() -> (r: Self)
        ensures
            r@.gate == message::gate_empty(),
            r@.sinks == Map::<Seq<u8>, SinkModel>::empty(),
            r.wf(),
    {
        let r = Receiving { gate: FileGate::new(), sinks: Assoc::new() };
        assert(r@.sinks =~= Map::<Seq<u8>, SinkModel>::empty());
        r
    }

    /// Gives a transfer up.
    fn give_up(&mut self, id: &[u8; 16]) -> (r: Option<Incoming>)
        requires
            old(self).wf(),
        ensures
            final(self).wf(),
            final(self)@ == given_up(old(self)@, id@),
            match r {
                Some(file) => old(self)@.sinks.contains_key(id@) && sink_view(file) == old(self)@.sinks[id@],
                None => !old(self)@.sinks.contains_key(id@),
            },
    {
        let ghost before = self@;
        self.gate.finish(id);
        let file = self.sinks.remove(id);
        assert(self@.sinks =~= before.sinks.remove(id@));
        proof {
            lemma_finished(before, id@);
        }
        file
    }

    /// Takes in a frame of the peer.
    pub fn on_frame(&mut self, frame: Frame) -> (r: Step)
        requires
            old(self).wf(),
        ensures
            final(self).wf(),
            (final(self)@, r@) == frame_step(old(self)@, frame@),
            final(self)@ == chat_step(old(self)@, ChatEvent::Frame(frame@)),
    {
        let ghost before = self@;
        match frame {
            Frame::Text(text) => Step::Show { text },
            Frame::FileOffer { id, name, size } => {
                let shown = name.clone();
                if self.gate.offer(id, name, size, MAX_CONCURRENT_FILES) {
                    proof {
                        assert(self@.sinks =~= before.sinks);
                        lemma_offered(before, id@, shown@, size);
                    }
                    let human = human_size(size);
                    Step::Offered { id, name: shown, size, human }
                } else {
                    Step::Refused { id }
                }
            },
            Frame::FileChunk { id, data } => {
                if !self.gate.accepts_chunk(&id) {
                    return Step::Nothing;
                }
                let verdict = match self.sinks.get(&id) {
                    Some(file) => file.total_with(data.as_slice()),
                    None => {
                        return Step::Nothing;
                    },
                };
                match verdict {
                    Ok(total) => Step::Write { id, data, total },
                    Err(error) => {
                        self.give_up(&id);
                        Step::Failed { id, error }
                    },
                }
            },
            Frame::FileEnd { id } => match self.give_up(&id) {
                Some(file) => Step::Close { id, name: file.name },
                None => Step::Nothing,
            },
            Frame::FileAccept { id } => Step::PeerAccepted { id },
            Frame::FileReject { id } => Step::PeerRejected { id },
            Frame::Group(_) => Step::Nothing,
        }
    }

    /// Takes in what the user decided about an offer. Without such an offer
    /// there is nothing to accept.
    pub fn on_decision(&mut self, id: &[u8; 16], accepted: bool) -> (r: Consent)
        requires
            old(self).wf(),
        ensures
            final(self).wf(),
            final(self)@ == (ReceivingModel { gate: decided(old(self)@.gate, id@, accepted), ..old(self)@ }),
            final(self)@ == chat_step(old(self)@, ChatEvent::Decided { id: id@, accepted }),
            answers(old(self)@.gate, id@, accepted, r),
            ({
                let offers = old(self)@.gate.pending;
                match r {
                    Consent::Declined => !accepted,
                    Consent::Nothing => accepted && !offers.contains_key(id@),
                    Consent::Failed { error } => {
                        &&& accepted && offers.contains_key(id@)
                        &&& offers[id@].1 > message::MAX_FILE_SIZE
                        &&& error == (TransferError::TooLarge { size: offers[id@].1 })
                    },
                    Consent::Open { file } => {
                        &&& accepted && offers.contains_key(id@)
                        &&& file.size == offers[id@].1
                        &&& file.size <= message::MAX_FILE_SIZE
                        &&& file.received == 0
                        &&& message::is_sanitized(offers[id@].0, file.name@)
                    },
                }
            }),
    {
        let ghost before = self@;
        if !accepted {
            self.gate.reject(id);
            assert(self@.sinks =~= before.sinks);
            proof {
                lemma_rejected(before, id@);
            }
            return Consent::Declined;
        }
        match self.gate.accept(id) {
            None => {
                assert(self@ == before);
                Consent::Nothing
            },
            Some((name, size)) => {
                proof {
                    assert(self@.sinks =~= before.sinks);
                    lemma_accepted(before, id@);
                }
                match Incoming::start(name.as_str(), size) {
                    Ok(file) => Consent::Open { file },
                    Err(error) => {
                        let ghost accepted = self@;
                        self.gate.finish(id);
                        proof {
                            assert(self@.sinks =~= before.sinks);
                            lemma_finished(accepted, id@);
                            assert(self@.gate.pending =~= before.gate.pending.remove(id@));
                            assert(self@.gate.accepted =~= before.gate.accepted.remove(id@));
                        }
                        Consent::Failed { error }
                    },
                }
            },
        }
    }

    /// The file of an accepted offer is open.
    pub fn opened(&mut self, id: [u8; 16], file: Incoming)
        requires
            old(self).wf(),
            bounded(sink_view(file)),
        ensures
            final(self).wf(),
            final(self)@ == (ReceivingModel { sinks: old(self)@.sinks.insert(id@, sink_view(file)), ..old(self)@ }),
            final(self)@ == chat_step(old(self)@, ChatEvent::Opened { id: id@, file: sink_view(file) }),
    {
        let ghost before = self@;
        self.sinks.insert(id, file);
        assert(self@.sinks =~= before.sinks.insert(id@, sink_view(file)));
    }

    /// The file of an accepted offer could not be opened: the transfer is over.
    pub fn open_failed(&mut self, id: &[u8; 16])
        requires
            old(self).wf(),
        ensures
            final(self).wf(),
            final(self)@ == (ReceivingModel { gate: message::gate_finish(old(self)@.gate, id@), ..old(self)@ }),
            final(self)@ == chat_step(old(self)@, ChatEvent::OpenFailed { id: id@ }),
    {
        let ghost before = self@;
        self.gate.finish(id);
        proof {
            assert(self@.sinks =~= before.sinks);
            lemma_finished(before, id@);
        }
    }

    /// A chunk is on disk, and the count is `total` now. Says what progress to
    /// show, if any is due.
    pub fn wrote(&mut self, id: &[u8; 16], total: u64) -> (r: Option<Progress>)
        requires
            old(self).wf(),
            old(self)@.sinks.contains_key(id@),
            total <= old(self)@.sinks[id@].size,
        ensures
            final(self).wf(),
            final(self)@ == (ReceivingModel {
                sinks: old(self)@.sinks.insert(id@, SinkModel { received: total, ..old(self)@.sinks[id@] }),
                ..old(self)@
            }),
            final(self)@ == chat_step(old(self)@, ChatEvent::Wrote { id: id@, total }),
            match r {
                Some(p) => {
                    &&& reports(old(self)@.sinks[id@].received, total, old(self)@.sinks[id@].size)
                    &&& p.received == total
                    &&& p.size == old(self)@.sinks[id@].size
                },
                None => !reports(old(self)@.sinks[id@].received, total, old(self)@.sinks[id@].size),
            },
    {
        let ghost before = self@;
        match self.sinks.remove(id) {
            Some(file) => {
                let mut file = file;
                let earlier: u64 = file.received;
                let size: u64 = file.size;
                file.record(total);
                let ghost shown = sink_view(file);
                self.sinks.insert(*id, file);
                assert(self@.sinks =~= before.sinks.insert(id@, shown));
                if total == size || earlier / MIB != total / MIB {
                    Some(Progress { received: total, size })
                } else {
                    None
                }
            },
            None => None,
        }
    }

    /// A chunk could not be written: the transfer is over.
    pub fn write_failed(&mut self, id: &[u8; 16])
        requires
            old(self).wf(),
        ensures
            final(self).wf(),
            final(self)@ == given_up(old(self)@, id@),
            final(self)@ == chat_step(old(self)@, ChatEvent::WriteFailed { id: id@ }),
    {
        self.give_up(id);
    }
}

// ---------------------------------------------------------------------------
// What every operation keeps
// ---------------------------------------------------------------------------

/// Forgetting a transfer keeps the state consistent.
proof fn lemma_finished(m: ReceivingModel, id: Seq<u8>)
    requires
        consistent(m),
    ensures
        consistent(ReceivingModel { gate: message::gate_finish(m.gate, id), ..m }),
        consistent(given_up(m, id)),
{
    assert(message::gate_finish(m.gate, id).pending.dom() =~= m.gate.pending.dom().remove(id));
    assert forall|k: Seq<u8>| #[trigger] given_up(m, id).sinks.contains_key(k) implies bounded(
        given_up(m, id).sinks[k],
    ) by {
        assert(m.sinks.contains_key(k));
    }
}

/// Taking an offer in keeps the state consistent.
proof fn lemma_offered(m: ReceivingModel, id: Seq<u8>, name: Seq<char>, size: u64)
    requires
        consistent(m),
    ensures
        consistent(
            ReceivingModel {
                gate: message::gate_offer(m.gate, id, name, size, MAX_CONCURRENT_FILES as nat).0,
                ..m
            },
        ),
{
    let after = message::gate_offer(m.gate, id, name, size, MAX_CONCURRENT_FILES as nat).0;
    assert(after.pending.dom() =~= m.gate.pending.dom().insert(id) || after == m.gate);
}

/// Declining an offer keeps the state consistent.
proof fn lemma_rejected(m: ReceivingModel, id: Seq<u8>)
    requires
        consistent(m),
    ensures
        consistent(ReceivingModel { gate: message::gate_reject(m.gate, id), ..m }),
{
    assert(message::gate_reject(m.gate, id).pending.dom() =~= m.gate.pending.dom().remove(id));
}

/// Accepting an offer keeps the state consistent.
proof fn lemma_accepted(m: ReceivingModel, id: Seq<u8>)
    requires
        consistent(m),
    ensures
        consistent(ReceivingModel { gate: message::gate_accept(m.gate, id).0, ..m }),
{
    let after = message::gate_accept(m.gate, id).0;
    if m.gate.pending.contains_key(id) {
        assert(after.pending.dom() =~= m.gate.pending.dom().remove(id));
    }
}

// ---------------------------------------------------------------------------
// Laws
// ---------------------------------------------------------------------------

/// What can happen in a chat.
pub enum ChatEvent {
    /// A frame comes in.
    Frame(FrameModel),
    /// The user accepts or declines an offer.
    Decided { id: Seq<u8>, accepted: bool },
    /// The file of an offer is open.
    Opened { id: Seq<u8>, file: SinkModel },
    /// The file of an offer could not be opened.
    OpenFailed { id: Seq<u8> },
    /// A chunk is on disk.
    Wrote { id: Seq<u8>, total: u64 },
    /// A chunk could not be written.
    WriteFailed { id: Seq<u8> },
}

/// The state after an event.
pub open spec fn chat_step(m: ReceivingModel, e: ChatEvent) -> ReceivingModel {
    match e {
        ChatEvent::Frame(f) => frame_step(m, f).0,
        ChatEvent::Decided { id, accepted } => ReceivingModel { gate: decided(m.gate, id, accepted), ..m },
        ChatEvent::Opened { id, file } => ReceivingModel { sinks: m.sinks.insert(id, file), ..m },
        ChatEvent::OpenFailed { id } => ReceivingModel { gate: message::gate_finish(m.gate, id), ..m },
        ChatEvent::Wrote { id, total } => ReceivingModel {
            sinks: m.sinks.insert(id, SinkModel { received: total, ..m.sinks[id] }),
            ..m
        },
        ChatEvent::WriteFailed { id } => given_up(m, id),
    }
}

/// The state of a chat after some events.
pub open spec fn chat_run(events: Seq<ChatEvent>) -> ReceivingModel
    decreases events.len(),
{
    if events.len() == 0 {
        ReceivingModel { gate: message::gate_empty(), sinks: Map::empty() }
    } else {
        chat_step(chat_run(events.drop_last()), events.last())
    }
}

/// Whether an event ends the transfer of a file, whatever came before: the peer
/// says so, or the file could not be opened or written.
pub open spec fn over_with(e: ChatEvent, id: Seq<u8>) -> bool {
    ||| e == ChatEvent::Frame(FrameModel::FileEnd { id })
    ||| e == (ChatEvent::OpenFailed { id })
    ||| e == (ChatEvent::WriteFailed { id })
}

/// Whether the event at `i` offers a file of that name and size, and none from
/// there up to `j` declines it or ends it.
pub open spec fn offer_stands(events: Seq<ChatEvent>, id: Seq<u8>, name: Seq<char>, size: u64, i: int, j: int) -> bool {
    &&& 0 <= i < j <= events.len()
    &&& events[i] == ChatEvent::Frame(FrameModel::FileOffer { id, name, size })
    &&& forall|k: int|
        i < k < j ==> #[trigger] events[k] != (ChatEvent::Decided { id, accepted: false }) && !over_with(events[k], id)
}

/// Whether the user accepted a file at `j` that was offered at `i` and had not
/// been declined or ended in between: the offer had been taken in, and was still
/// pending.
pub open spec fn agreed(events: Seq<ChatEvent>, id: Seq<u8>, name: Seq<char>, size: u64, i: int, j: int) -> bool {
    &&& offer_stands(events, id, name, size, i, j)
    &&& j < events.len()
    &&& chat_run(events.take(j)).gate.pending.contains_key(id)
    &&& chat_run(events.take(j)).gate.pending[id] == (name, size)
    &&& events[j] == (ChatEvent::Decided { id, accepted: true })
}

/// Whether nothing from behind `j` on has ended the transfer of a file, which has
/// been an accepted one ever since.
pub open spec fn goes_on(events: Seq<ChatEvent>, id: Seq<u8>, j: int) -> bool {
    &&& forall|k: int| j < k < events.len() ==> !over_with(#[trigger] events[k], id)
    &&& forall|k: int| j < k <= events.len() ==> (#[trigger] chat_run(events.take(k))).gate.accepted.contains(id)
}

/// What was agreed on stays agreed on when more happens.
proof fn lemma_still_agreed(prior: Seq<ChatEvent>, e: ChatEvent, id: Seq<u8>, name: Seq<char>, size: u64, i: int, j: int)
    requires
        agreed(prior, id, name, size, i, j),
    ensures
        agreed(prior.push(e), id, name, size, i, j),
{
    let events = prior.push(e);
    assert(events.take(j) =~= prior.take(j));
    assert(events[i] == prior[i] && events[j] == prior[j]);
    assert forall|k: int| i < k < j implies #[trigger] events[k] != (ChatEvent::Decided { id, accepted: false })
        && !over_with(events[k], id) by {
        assert(events[k] == prior[k]);
    }
}

/// What goes on still does when something happens that does not end it.
proof fn lemma_still_goes_on(prior: Seq<ChatEvent>, e: ChatEvent, id: Seq<u8>, j: int)
    requires
        0 <= j,
        goes_on(prior, id, j),
        !over_with(e, id),
        chat_run(prior.push(e)).gate.accepted.contains(id),
    ensures
        goes_on(prior.push(e), id, j),
{
    let events = prior.push(e);
    assert forall|k: int| j < k < events.len() implies !over_with(#[trigger] events[k], id) by {
        if k < prior.len() {
            assert(events[k] == prior[k]);
        }
    }
    assert forall|k: int| j < k <= events.len() implies (#[trigger] chat_run(events.take(k))).gate.accepted.contains(
        id,
    ) by {
        if k < events.len() {
            assert(events.take(k) =~= prior.take(k));
            assert(chat_run(prior.take(k)).gate.accepted.contains(id));
        } else {
            assert(events.take(k) =~= events);
        }
    }
}

/// A pending offer was made, and was not declined or ended since.
proof fn lemma_pending(events: Seq<ChatEvent>, id: Seq<u8>) -> (i: int)
    requires
        chat_run(events).gate.pending.contains_key(id),
    ensures
        offer_stands(
            events,
            id,
            chat_run(events).gate.pending[id].0,
            chat_run(events).gate.pending[id].1,
            i,
            events.len() as int,
        ),
    decreases events.len(),
{
    let n = events.len() as int;
    let (name, size) = chat_run(events).gate.pending[id];
    let prior = events.drop_last();
    let before = chat_run(prior);
    if events.last() == ChatEvent::Frame(FrameModel::FileOffer { id, name, size }) {
        n - 1
    } else {
        assert(before.gate.pending.contains_key(id) && before.gate.pending[id] == (name, size));
        let i = lemma_pending(prior, id);
        assert(events[i] == prior[i]);
        assert forall|k: int| i < k < n implies #[trigger] events[k] != (ChatEvent::Decided { id, accepted: false })
            && !over_with(events[k], id) by {
            if k < n - 1 {
                assert(events[k] == prior[k]);
            }
        }
        i
    }
}

/// An acceptance of a pending offer is an agreement on it.
proof fn lemma_agreed(prior: Seq<ChatEvent>, id: Seq<u8>) -> (i: int)
    requires
        chat_run(prior).gate.pending.contains_key(id),
    ensures
        agreed(
            prior.push(ChatEvent::Decided { id, accepted: true }),
            id,
            chat_run(prior).gate.pending[id].0,
            chat_run(prior).gate.pending[id].1,
            i,
            prior.len() as int,
        ),
{
    let i = lemma_pending(prior, id);
    let events = prior.push(ChatEvent::Decided { id, accepted: true });
    assert(events.take(prior.len() as int) =~= prior);
    assert(events[i] == prior[i]);
    assert forall|k: int| i < k < prior.len() implies #[trigger] events[k] != (ChatEvent::Decided {
        id,
        accepted: false,
    }) && !over_with(events[k], id) by {
        assert(events[k] == prior[k]);
    }
    i
}

/// No file may be written unless it was offered, the user accepted it while the
/// offer was pending, and nothing has ended it since.
pub proof fn law_files_need_consent(events: Seq<ChatEvent>, id: Seq<u8>)
    requires
        chat_run(events).gate.accepted.contains(id),
    ensures
        exists|name: Seq<char>, size: u64, i: int, j: int|
            #[trigger] agreed(events, id, name, size, i, j) && goes_on(events, id, j),
    decreases events.len(),
{
    if events.len() > 0 {
        let prior = events.drop_last();
        let before = chat_run(prior);
        let last = events.last();
        assert(prior.push(last) =~= events);
        assert(!over_with(last, id));
        if before.gate.accepted.contains(id) {
            law_files_need_consent(prior, id);
            let (name, size, i, j) = choose|name: Seq<char>, size: u64, i: int, j: int|
                #[trigger] agreed(prior, id, name, size, i, j) && goes_on(prior, id, j);
            lemma_still_agreed(prior, last, id, name, size, i, j);
            lemma_still_goes_on(prior, last, id, j);
            assert(agreed(events, id, name, size, i, j) && goes_on(events, id, j));
        } else {
            assert(last == (ChatEvent::Decided { id, accepted: true }));
            let (name, size) = before.gate.pending[id];
            let i = lemma_agreed(prior, id);
            assert(events.take(events.len() as int) =~= events);
            assert(agreed(events, id, name, size, i, prior.len() as int) && goes_on(events, id, prior.len() as int));
        }
    }
}

/// Whatever has happened in a chat, a chunk is written only of a file that was
/// offered in it, that the user accepted while the offer was pending, and that
/// nothing has ended since.
pub proof fn law_writes_need_consent(events: Seq<ChatEvent>, f: FrameModel)
    requires
        frame_step(chat_run(events), f).1 is Write,
    ensures
        exists|name: Seq<char>, size: u64, i: int, j: int|
            #[trigger] agreed(events, frame_step(chat_run(events), f).1->Write_id, name, size, i, j) && goes_on(
                events,
                frame_step(chat_run(events), f).1->Write_id,
                j,
            ),
{
    law_files_need_consent(events, frame_step(chat_run(events), f).1->Write_id);
}

/// Whether files are opened in turn: each as soon as the user has accepted it,
/// with the size that was offered and a name made of the one that was, as the
/// decision hands it out. A chunk is booked as soon as it is on disk, with the
/// count that came with the order to write it.
pub open spec fn opened_in_turn(events: Seq<ChatEvent>) -> bool
    decreases events.len(),
{
    events.len() == 0 || {
        let prior = events.drop_last();
        &&& opened_in_turn(prior)
        &&& events.last() matches ChatEvent::Opened { id, file } ==> {
            let offers = chat_run(prior.drop_last()).gate.pending;
            &&& prior.len() > 0
            &&& prior.last() == (ChatEvent::Decided { id, accepted: true })
            &&& offers.contains_key(id)
            &&& file.size == offers[id].1
            &&& file.size <= message::MAX_FILE_SIZE
            &&& file.received == 0
            &&& message::is_sanitized(offers[id].0, file.name)
        }
        &&& events.last() matches ChatEvent::Wrote { id, total } ==> {
            &&& prior.len() > 0
            &&& prior.last() matches ChatEvent::Frame(f) && frame_step(chat_run(prior.drop_last()), f).1
                matches StepModel::Write { id: ordered, data: _, total: count } && ordered == id && count == total
        }
    }
}

/// The bytes of a chunk that came in.
pub open spec fn chunk_of(e: ChatEvent) -> Seq<u8> {
    match e {
        ChatEvent::Frame(FrameModel::FileChunk { id: _, data }) => data,
        _ => Seq::empty(),
    }
}

/// What is on disk of a file: all chunks that were written since it was opened, one
/// behind the other.
pub open spec fn on_disk(events: Seq<ChatEvent>, id: Seq<u8>) -> Seq<u8>
    decreases events.len(),
{
    if events.len() == 0 {
        Seq::empty()
    } else {
        let prior = events.drop_last();
        match events.last() {
            ChatEvent::Opened { id: opened, .. } if opened == id => Seq::empty(),
            ChatEvent::Wrote { id: wrote, .. } if wrote == id => on_disk(prior, id) + chunk_of(prior.last()),
            _ => on_disk(prior, id),
        }
    }
}

/// In every state the count of an open file is that of the bytes on disk, and never
/// more than the size that was offered, which is never more than is taken in at all.
pub proof fn law_counts_are_what_is_on_disk(events: Seq<ChatEvent>, id: Seq<u8>)
    requires
        opened_in_turn(events),
        chat_run(events).sinks.contains_key(id),
    ensures
        chat_run(events).sinks[id].received == on_disk(events, id).len(),
        bounded(chat_run(events).sinks[id]),
    decreases events.len(),
{
    if events.len() > 0 {
        let prior = events.drop_last();
        let last = events.last();
        if !(last is Opened && last->Opened_id == id) {
            if last is Wrote && last->Wrote_id == id {
                assert(chat_run(prior) == chat_run(prior.drop_last()));
            }
            law_counts_are_what_is_on_disk(prior, id);
        }
    }
}

/// An open file is one that was offered and that the user accepted, with the size
/// that was offered and a name made of the one that was. Neither the peer nor a
/// failure has closed it since.
pub proof fn law_open_files_are_as_offered(events: Seq<ChatEvent>, id: Seq<u8>)
    requires
        opened_in_turn(events),
        chat_run(events).sinks.contains_key(id),
    ensures
        exists|name: Seq<char>, size: u64, i: int, j: int|
            {
                &&& #[trigger] agreed(events, id, name, size, i, j)
                &&& chat_run(events).sinks[id].size == size
                &&& message::is_sanitized(name, chat_run(events).sinks[id].name)
                &&& forall|k: int|
                    j < k < events.len() ==> #[trigger] events[k] != ChatEvent::Frame(FrameModel::FileEnd { id })
                        && events[k] != (ChatEvent::WriteFailed { id })
            },
    decreases events.len(),
{
    let n = events.len() as int;
    if n > 0 {
        let prior = events.drop_last();
        let last = events.last();
        let file = chat_run(events).sinks[id];
        assert(prior.push(last) =~= events);
        if last is Opened && last->Opened_id == id {
            let early = prior.drop_last();
            let (name, size) = chat_run(early).gate.pending[id];
            let i = lemma_agreed(early, id);
            assert(early.push(prior.last()) =~= prior);
            lemma_still_agreed(prior, last, id, name, size, i, early.len() as int);
            assert(agreed(events, id, name, size, i, early.len() as int));
            assert forall|k: int| early.len() < k < events.len() implies #[trigger] events[k] != ChatEvent::Frame(
                FrameModel::FileEnd { id },
            ) && events[k] != (ChatEvent::WriteFailed { id }) by {
                assert(events[k] == last);
            }
        } else {
            assert(chat_run(prior).sinks.contains_key(id));
            let earlier = chat_run(prior).sinks[id];
            assert(earlier.size == file.size && earlier.name == file.name);
            law_open_files_are_as_offered(prior, id);
            let (name, size, i, j) = choose|name: Seq<char>, size: u64, i: int, j: int|
                {
                    &&& #[trigger] agreed(prior, id, name, size, i, j)
                    &&& chat_run(prior).sinks[id].size == size
                    &&& message::is_sanitized(name, chat_run(prior).sinks[id].name)
                    &&& forall|k: int|
                        j < k < prior.len() ==> #[trigger] prior[k] != ChatEvent::Frame(FrameModel::FileEnd { id })
                            && prior[k] != (ChatEvent::WriteFailed { id })
                };
            lemma_still_agreed(prior, last, id, name, size, i, j);
            assert(agreed(events, id, name, size, i, j));
            assert forall|k: int| j < k < events.len() implies #[trigger] events[k] != ChatEvent::Frame(
                FrameModel::FileEnd { id },
            ) && events[k] != (ChatEvent::WriteFailed { id }) by {
                if k < prior.len() {
                    assert(events[k] == prior[k]);
                }
            }
        }
    }
}

/// A chunk is written only as far as the offer goes that the user accepted: with it
/// there are no more bytes on disk than were offered.
pub proof fn law_writes_stay_within_the_offer(events: Seq<ChatEvent>, f: FrameModel)
    requires
        opened_in_turn(events),
        frame_step(chat_run(events), f).1 is Write,
    ensures
        frame_step(chat_run(events), f).1 matches StepModel::Write { id, data, total } && exists|
            name: Seq<char>,
            size: u64,
            i: int,
            j: int,
        | #[trigger] agreed(events, id, name, size, i, j) && total <= size && (on_disk(events, id) + data).len() == total,
{
    law_open_files_are_as_offered(events, frame_step(chat_run(events), f).1->Write_id);
    law_counts_are_what_is_on_disk(events, frame_step(chat_run(events), f).1->Write_id);
}

/// Only a chunk of a file that is accepted and open is written, and never
/// beyond what was offered.
pub proof fn law_writes_are_bounded(m: ReceivingModel, f: FrameModel)
    requires
        consistent(m),
        frame_step(m, f).1 is Write,
    ensures
        frame_step(m, f).0 == m,
        frame_step(m, f).1 matches StepModel::Write { id, data, total } && {
            &&& f == (FrameModel::FileChunk { id, data })
            &&& m.gate.accepted.contains(id)
            &&& m.sinks.contains_key(id)
            &&& total == m.sinks[id].received + data.len()
            &&& total <= m.sinks[id].size
            &&& total <= message::MAX_FILE_SIZE
        },
{
}

/// A chunk of a file that was not accepted changes nothing and is written
/// nowhere.
pub proof fn law_unaccepted_chunks_are_dropped(m: ReceivingModel, id: Seq<u8>, data: Seq<u8>)
    requires
        !m.gate.accepted.contains(id),
    ensures
        frame_step(m, FrameModel::FileChunk { id, data }) == (m, StepModel::Nothing),
{
}

/// Chat lines, replies and messages of the group layer leave the incoming files
/// alone.
pub proof fn law_talk_leaves_files_alone(m: ReceivingModel, f: FrameModel)
    requires
        f is Text || f is FileAccept || f is FileReject || f is Group,
    ensures
        frame_step(m, f).0 == m,
{
}

/// A chunk of a file that is accepted and open is written if and only if it keeps
/// within the size that was offered: then it is ordered to be written with just its own
/// bytes, whatever their number, and the count goes up by that. Otherwise the transfer
/// fails and its file is given up.
pub proof fn law_allowed_chunks_are_written(m: ReceivingModel, id: Seq<u8>, data: Seq<u8>)
    requires
        m.gate.accepted.contains(id),
        m.sinks.contains_key(id),
        bounded(m.sinks[id]),
    ensures
        ({
            let (after, step) = frame_step(m, FrameModel::FileChunk { id, data });
            let total = m.sinks[id].received + data.len();
            &&& total <= m.sinks[id].size ==> after == m && step == (StepModel::Write { id, data, total: total as u64 })
            &&& total > m.sinks[id].size ==> {
                &&& step is Failed && step->Failed_id == id
                &&& !after.gate.accepted.contains(id)
                &&& !after.sinks.contains_key(id)
            }
        }),
{
    message::law_files_hold_what_was_counted(m.sinks[id].size, Seq::empty(), data);
}

/// What became of one transfer: the offer that is pending, whether it is accepted, and
/// its open file.
pub open spec fn transfer_of(m: ReceivingModel, id: Seq<u8>) -> (Option<(Seq<char>, u64)>, bool, Option<SinkModel>) {
    (
        if m.gate.pending.contains_key(id) {
            Some(m.gate.pending[id])
        } else {
            None
        },
        m.gate.accepted.contains(id),
        if m.sinks.contains_key(id) {
            Some(m.sinks[id])
        } else {
            None
        },
    )
}

/// The transfer that an event is about, if it is about one.
pub open spec fn subject(e: ChatEvent) -> Option<Seq<u8>> {
    match e {
        ChatEvent::Frame(FrameModel::FileOffer { id, .. }) => Some(id),
        ChatEvent::Frame(FrameModel::FileChunk { id, .. }) => Some(id),
        ChatEvent::Frame(FrameModel::FileEnd { id }) => Some(id),
        ChatEvent::Frame(_) => None,
        ChatEvent::Decided { id, .. } => Some(id),
        ChatEvent::Opened { id, .. } => Some(id),
        ChatEvent::OpenFailed { id } => Some(id),
        ChatEvent::Wrote { id, .. } => Some(id),
        ChatEvent::WriteFailed { id } => Some(id),
    }
}

/// What happens to one transfer leaves every other as it is: its offer, whether it is
/// accepted, and its file.
pub proof fn law_transfers_are_independent(m: ReceivingModel, e: ChatEvent, other: Seq<u8>)
    requires
        subject(e) != Some(other),
    ensures
        transfer_of(chat_step(m, e), other) == transfer_of(m, other),
{
}

/// An offer is shown to the user as it was made, and waits for the answer, as long as
/// fewer than sixteen transfers are under way. With sixteen it is refused, and nothing
/// is kept of it.
pub proof fn law_offers_are_shown(m: ReceivingModel, id: Seq<u8>, name: Seq<char>, size: u64)
    ensures
        ({
            let (after, step) = frame_step(m, FrameModel::FileOffer { id, name, size });
            if m.gate.pending.dom().len() + m.gate.accepted.len() < 16 {
                &&& step matches StepModel::Offered { id: i, name: n, size: s, .. } && i == id && n == name && s == size
                &&& transfer_of(after, id).0 == Some((name, size))
                &&& transfer_of(after, id).1 == transfer_of(m, id).1
                &&& transfer_of(after, id).2 == transfer_of(m, id).2
            } else {
                &&& step == (StepModel::Refused { id })
                &&& after == m
            }
        }),
{
}

/// What the user says about a pending offer is what holds from then on: accepted it may
/// write, unless it is larger than is taken in at all, declined it may not, and either
/// way it does not wait any longer. Without a pending offer an acceptance does nothing.
pub proof fn law_decisions_are_followed(g: GateModel, id: Seq<u8>)
    ensures
        ({
            let yes = decided(g, id, true);
            let no = decided(g, id, false);
            &&& g.pending.contains_key(id) && g.pending[id].1 <= message::MAX_FILE_SIZE ==> yes.accepted.contains(id)
                && !yes.pending.contains_key(id)
            &&& g.pending.contains_key(id) && g.pending[id].1 > message::MAX_FILE_SIZE ==> !yes.accepted.contains(id)
                && !yes.pending.contains_key(id)
            &&& !g.pending.contains_key(id) ==> yes == g
            &&& !no.pending.contains_key(id)
            &&& no.accepted == g.accepted
        }),
{
}

/// The end of a file closes it under the name that it was opened with, and whether it
/// was open or not nothing of the transfer is left: no offer, no consent and no file. So
/// a chunk that comes behind it is dropped.
pub proof fn law_the_end_closes_the_file(m: ReceivingModel, id: Seq<u8>, data: Seq<u8>)
    ensures
        ({
            let (after, step) = frame_step(m, FrameModel::FileEnd { id });
            &&& transfer_of(after, id) == (None::<(Seq<char>, u64)>, false, None::<SinkModel>)
            &&& m.sinks.contains_key(id) ==> step == (StepModel::Close { id, name: m.sinks[id].name })
            &&& !m.sinks.contains_key(id) ==> step is Nothing
            &&& frame_step(after, FrameModel::FileChunk { id, data }) == (after, StepModel::Nothing)
        }),
{
}

/// A line of text is shown as it came, and what the peer answers to our own offers is
/// passed on, each with the id of its offer.
pub proof fn law_lines_and_answers_are_passed_on(m: ReceivingModel, text: Seq<char>, id: Seq<u8>, data: Seq<u8>)
    ensures
        frame_step(m, FrameModel::Text(text)).1 == (StepModel::Show { text }),
        frame_step(m, FrameModel::FileAccept { id }).1 == (StepModel::PeerAccepted { id }),
        frame_step(m, FrameModel::FileReject { id }).1 == (StepModel::PeerRejected { id }),
        frame_step(m, FrameModel::Group(data)).1 is Nothing,
{
}

/// What some chunks hold, one behind the other.
pub open spec fn joined(chunks: Seq<Seq<u8>>) -> Seq<u8>
    decreases chunks.len(),
{
    if chunks.len() == 0 {
        Seq::empty()
    } else {
        joined(chunks.drop_last()) + chunks.last()
    }
}

/// A file that is offered, accepted and opened, and then some chunks of it, each of
/// which is booked when it is on disk.
pub open spec fn receiving(
    start: Seq<ChatEvent>,
    id: Seq<u8>,
    name: Seq<char>,
    size: u64,
    file: SinkModel,
    chunks: Seq<Seq<u8>>,
) -> Seq<ChatEvent>
    decreases chunks.len(),
{
    if chunks.len() == 0 {
        start.push(ChatEvent::Frame(FrameModel::FileOffer { id, name, size })).push(
            ChatEvent::Decided { id, accepted: true },
        ).push(ChatEvent::Opened { id, file })
    } else {
        receiving(start, id, name, size, file, chunks.drop_last()).push(
            ChatEvent::Frame(FrameModel::FileChunk { id, data: chunks.last() }),
        ).push(ChatEvent::Wrote { id, total: joined(chunks).len() as u64 })
    }
}

/// A file arrives whole. Whatever has happened in a chat before, a file that is offered
/// with room for it, that the user accepts and that is opened is on disk byte for byte
/// as its chunks hold it, in their order and however they are cut, as long as they keep
/// within the size that was offered. Every further chunk that does is ordered to be
/// written behind them, and the end closes the file.
pub proof fn law_accepted_files_arrive_whole(
    start: Seq<ChatEvent>,
    id: Seq<u8>,
    name: Seq<char>,
    size: u64,
    file: SinkModel,
    chunks: Seq<Seq<u8>>,
    next: Seq<u8>,
)
    requires
        message::in_flight(chat_run(start).gate) < 16,
        size <= message::MAX_FILE_SIZE,
        file.size == size,
        file.received == 0,
        joined(chunks).len() <= size,
    ensures
        ({
            let events = receiving(start, id, name, size, file, chunks);
            let m = chat_run(events);
            &&& on_disk(events, id) == joined(chunks)
            &&& m.gate.accepted.contains(id)
            &&& m.sinks.contains_key(id)
            &&& m.sinks[id] == (SinkModel { received: joined(chunks).len() as u64, ..file })
            &&& joined(chunks).len() + next.len() <= size ==> frame_step(
                m,
                FrameModel::FileChunk { id, data: next },
            ).1 == (StepModel::Write { id, data: next, total: (joined(chunks).len() + next.len()) as u64 })
            &&& frame_step(m, FrameModel::FileEnd { id }).1 == (StepModel::Close { id, name: file.name })
        }),
    decreases chunks.len(),
{
    let events = receiving(start, id, name, size, file, chunks);
    if chunks.len() == 0 {
        let offered = start.push(ChatEvent::Frame(FrameModel::FileOffer { id, name, size }));
        let accepted = offered.push(ChatEvent::Decided { id, accepted: true });
        assert(offered.drop_last() =~= start);
        assert(accepted.drop_last() =~= offered);
        assert(events.drop_last() =~= accepted);
        assert(chat_run(offered).gate.pending.contains_key(id));
        assert(chat_run(accepted).gate.accepted.contains(id));
    } else {
        let shorter = chunks.drop_last();
        law_accepted_files_arrive_whole(start, id, name, size, file, shorter, chunks.last());
        let before = receiving(start, id, name, size, file, shorter);
        let came = before.push(ChatEvent::Frame(FrameModel::FileChunk { id, data: chunks.last() }));
        assert(came.drop_last() =~= before);
        assert(events.drop_last() =~= came);
        assert(came.last() == ChatEvent::Frame(FrameModel::FileChunk { id, data: chunks.last() }));
        assert(chat_run(came) == chat_run(before));
        assert(on_disk(came, id) == on_disk(before, id));
    }
    law_allowed_chunks_are_written(chat_run(events), id, next);
}

/// Progress is told when a file is complete, and whenever the count has reached or
/// passed another whole number of MiB, and at no other time.
pub proof fn law_progress_is_told_by_the_mebibyte(before: u64, received: u64, size: u64)
    requires
        before <= received,
    ensures
        reports(before, received, size) <==> received == size || exists|k: int|
            before < #[trigger] (k * 1048576) <= received,
{
    if before / MIB != received / MIB {
        let k = (received / MIB) as int;
        assert(before < k * 1048576 <= received);
    }
    if exists|k: int| before < #[trigger] (k * 1048576) <= received {
        let k = choose|k: int| before < #[trigger] (k * 1048576) <= received;
        assert(before / MIB < k <= received / MIB);
    }
}

/// An offer of up to 8 GiB that the user accepts is opened, and with its size: nothing
/// else is answered. A larger one fails, and only a larger one; what was not offered is
/// passed over; what the user does not want is declined.
pub proof fn law_every_decision_is_answered(m: ReceivingModel, id: Seq<u8>, name: Seq<char>, size: u64, r: Consent)
    requires
        message::in_flight(m.gate) < MAX_CONCURRENT_FILES,
    ensures
        ({
            let offered = chat_step(m, ChatEvent::Frame(FrameModel::FileOffer { id, name, size }));
            &&& answers(offered.gate, id, true, r) && size <= 0x2_0000_0000 ==> {
                &&& r is Open
                &&& sink_view(r->file).size == size
                &&& sink_view(r->file).received == 0
                &&& message::is_sanitized(name, sink_view(r->file).name)
            }
            &&& answers(offered.gate, id, true, r) && size > 0x2_0000_0000 ==> r is Failed
            &&& answers(offered.gate, id, false, r) ==> r is Declined
            &&& answers(chat_step(offered, ChatEvent::Decided { id, accepted: false }).gate, id, true, r)
                ==> r is Nothing
            &&& answers(chat_step(offered, ChatEvent::Frame(FrameModel::FileEnd { id })).gate, id, true, r)
                ==> r is Nothing
        }),
{
}

/// Once the file of an accepted offer is open, chunks are counted from its beginning,
/// each count is kept until the next, and a transfer that failed is over: nothing of it
/// is written any more.
pub proof fn law_counts_are_kept(m: ReceivingModel, id: Seq<u8>, file: SinkModel, total: u64, data: Seq<u8>)
    ensures
        ({
            let open = chat_step(m, ChatEvent::Opened { id, file });
            let written = chat_step(open, ChatEvent::Wrote { id, total });
            let chunk = FrameModel::FileChunk { id, data };
            &&& transfer_of(open, id).2 == Some(file)
            &&& transfer_of(written, id).2 matches Some(now) && {
                &&& now.received == total
                &&& now.size == file.size
                &&& now.name == file.name
            }
            &&& transfer_of(chat_step(written, ChatEvent::WriteFailed { id }), id) == (
                None::<(Seq<char>, u64)>,
                false,
                None::<SinkModel>,
            )
            &&& frame_step(chat_step(written, ChatEvent::WriteFailed { id }), chunk).1 == StepModel::Nothing
            &&& frame_step(chat_step(m, ChatEvent::OpenFailed { id }), chunk).1 == StepModel::Nothing
            &&& transfer_of(chat_step(m, ChatEvent::OpenFailed { id }), id).0 is None
        }),
{
}

} // verus!
