//! Cover traffic: cells of one size, at one pace, whether anyone talks or not.
//!
//! Messages are strung into one stream, each with its length in front, and the
//! stream is cut into the payloads of fixed-size cells. With nothing to send a
//! cell is padding. The transport seals every cell as one record, so a watcher
//! sees records of one size at one pace. The cells are built and taken apart
//! here; clock and transport belong to the caller.
use std::collections::VecDeque;

use vstd::prelude::*;
use vstd::string::*;

use crate::bytes;
use crate::text;

verus! {

/// The payload of a cell, unless configured otherwise.
pub const CELL_SIZE: usize = 512;

/// The type of a cell that carries nothing.
pub const CELL_PAD: u8 = 0;

/// The type of a cell that carries a piece of the stream.
pub const CELL_DATA: u8 = 1;

/// The header of a cell: its type, and how much of its payload is used.
pub const CELL_HEADER: usize = 3;

/// The length in front of each message of the stream.
pub const MSG_LEN_PREFIX: usize = 4;

/// The largest payload that the header can describe.
pub const MAX_CELL_SIZE: usize = 65535;

/// The longest message, on both ends: 64 MiB.
pub const MAX_MESSAGE_LEN: usize = 67108864;

/// The shortest pause between cells, a millisecond, in nanoseconds.
pub const MIN_INTERVAL_NANOS: u64 = 1000000;

/// How many outgoing messages may wait.
pub const OUTBOUND_CAPACITY: usize = 256;

/// How many incoming messages may wait before the oldest is dropped.
pub const INBOUND_CAPACITY: usize = 256;

/// How many cells may wait for the transport.
pub const WRITER_QUEUE_CAP: usize = 64;

/// What can go wrong on a cover channel.
#[derive(Debug, Clone, Copy, PartialEq, Eq, Structural)]
pub enum CoverError {
    /// A message of ours is too long.
    MessageTooLarge { len: usize, max: usize },
    /// Too many messages of ours are waiting.
    QueueFull,
    /// The channel is closed.
    Closed,
    /// The peer announces a message that is too long.
    OversizeMessage { len: usize, max: usize },
    /// The peer sent a cell that cannot be.
    MalformedCell,
}

/// The text of an error.
pub open spec fn error_text(e: CoverError) -> Seq<char> {
    match e {
        CoverError::MessageTooLarge { len, max } => "outbound message of "@ + text::decimal(len as nat)
            + " bytes exceeds the "@ + text::decimal(max as nat) + "-byte maximum"@,
        CoverError::QueueFull => "outbound queue is full"@,
        CoverError::Closed => "cover channel is closed"@,
        CoverError::OversizeMessage { len, max } => "peer declared a "@ + text::decimal(len as nat)
            + "-byte message exceeding the "@ + text::decimal(max as nat) + "-byte maximum"@,
        CoverError::MalformedCell => "peer sent a structurally malformed cell"@,
    }
}

impl CoverError {
    /// The error in words.
    pub fn to_string(&self) -> (r: String)
        ensures
            r@ == error_text(*self),
    {
        match self {
            CoverError::MessageTooLarge { len, max } => {
                let mut out = "outbound message of ".to_owned();
                text::push_decimal(&mut out, *len as u64);
                out.append(" bytes exceeds the ");
                text::push_decimal(&mut out, *max as u64);
                out.append("-byte maximum");
                out
            },
            CoverError::QueueFull => "outbound queue is full".to_owned(),
            CoverError::Closed => "cover channel is closed".to_owned(),
            CoverError::OversizeMessage { len, max } => {
                let mut out = "peer declared a ".to_owned();
                text::push_decimal(&mut out, *len as u64);
                out.append("-byte message exceeding the ");
                text::push_decimal(&mut out, *max as u64);
                out.append("-byte maximum");
                out
            },
            CoverError::MalformedCell => "peer sent a structurally malformed cell".to_owned(),
        }
    }
}

/// How a channel is set up.
#[derive(Debug, Clone, Copy)]
pub struct CoverConfig {
    /// The payload of a cell. Both ends have to use the same.
    pub cell_size: usize,
    /// The pause between cells, in nanoseconds.
    pub interval_nanos: u64,
}

impl Default for CoverConfig {
    fn default() -> (r: Self)
        ensures
            r.cell_size == CELL_SIZE,
            r.interval_nanos == 50000000,
    {
        CoverConfig { cell_size: CELL_SIZE, interval_nanos: 50000000 }
    }
}

/// `v`, brought into the range from `lo` to `hi`.
pub open spec fn clamped(v: int, lo: int, hi: int) -> int {
    if v < lo {
        lo
    } else if v > hi {
        hi
    } else {
        v
    }
}

impl CoverConfig {
    /// The payload to use: at least one byte, at most what a header describes.
    pub fn effective_cell_size(&self) -> (r: usize)
        ensures
            r == clamped(self.cell_size as int, 1, MAX_CELL_SIZE as int),
    {
        if self.cell_size < 1 {
            1
        } else if self.cell_size > MAX_CELL_SIZE {
            MAX_CELL_SIZE
        } else {
            self.cell_size
        }
    }

    /// The pause to use: never none.
    pub fn effective_interval_nanos(&self) -> (r: u64)
        ensures
            r == clamped(self.interval_nanos as int, MIN_INTERVAL_NANOS as int, u64::MAX as int),
    {
        if self.interval_nanos < MIN_INTERVAL_NANOS {
            MIN_INTERVAL_NANOS
        } else {
            self.interval_nanos
        }
    }
}

/// Whether a message of a length may be sent, or why not.
pub open spec fn checked(len: usize) -> Result<(), CoverError> {
    if len > MAX_MESSAGE_LEN {
        Err(CoverError::MessageTooLarge { len, max: MAX_MESSAGE_LEN })
    } else {
        Ok(())
    }
}

/// Whether a message may be sent, by its length.
pub fn check_outbound(len: usize) -> (r: Result<(), CoverError>)
    ensures
        r == (if len > MAX_MESSAGE_LEN {
            Err::<(), CoverError>(CoverError::MessageTooLarge { len, max: MAX_MESSAGE_LEN })
        } else {
            Ok(())
        }),
        r == checked(len),
{
    if len > MAX_MESSAGE_LEN {
        Err(CoverError::MessageTooLarge { len, max: MAX_MESSAGE_LEN })
    } else {
        Ok(())
    }
}

// ---------------------------------------------------------------------------
// The stream and its cells
// ---------------------------------------------------------------------------

/// A message in the stream: its length, and the message.
pub open spec fn framed(msg: Seq<u8>) -> Seq<u8> {
    bytes::be32(msg.len() as int) + msg
}

/// The stream of messages.
pub open spec fn stream(msgs: Seq<Seq<u8>>) -> Seq<u8>
    decreases msgs.len(),
{
    if msgs.len() == 0 {
        Seq::empty()
    } else {
        framed(msgs[0]) + stream(msgs.drop_first())
    }
}

/// How much of `pending` the next cell takes.
pub open spec fn fill(pending: Seq<u8>, cell_size: nat) -> nat {
    if pending.len() < cell_size {
        pending.len()
    } else {
        cell_size
    }
}

/// The next cell: a piece of `pending` if there is any, else padding. Either
/// way the rest is zeros.
pub open spec fn cell_bytes(pending: Seq<u8>, cell_size: nat) -> Seq<u8> {
    let n = fill(pending, cell_size);
    if n > 0 {
        seq![CELL_DATA] + bytes::be16(n as int) + pending.take(n as int) + bytes::zeros((cell_size - n) as nat)
    } else {
        bytes::zeros(CELL_HEADER as nat + cell_size)
    }
}

/// What a cell adds to the stream. There is nothing if the cell cannot be.
pub open spec fn cell_fragment(cell: Seq<u8>, cell_size: nat) -> Option<Seq<u8>> {
    let n = bytes::from_be16(cell.subrange(1, 3));
    if cell[0] == CELL_PAD {
        Some(Seq::empty())
    } else if cell[0] == CELL_DATA && n <= cell_size {
        Some(cell.subrange(3, 3 + n))
    } else {
        None
    }
}

/// What a piece of stream holds.
pub struct Parsed {
    /// The messages that are complete.
    pub msgs: Seq<Seq<u8>>,
    /// What is left behind them.
    pub rest: Seq<u8>,
    /// The length that the next message claims, if it is too long.
    pub oversize: Option<int>,
}

/// Reads the messages in front of a piece of stream.
pub open spec fn parse(buf: Seq<u8>) -> Parsed
    decreases buf.len(),
{
    let len = bytes::from_be32(buf.subrange(0, 4));
    if buf.len() < MSG_LEN_PREFIX {
        Parsed { msgs: Seq::empty(), rest: buf, oversize: None }
    } else if len > MAX_MESSAGE_LEN {
        Parsed { msgs: Seq::empty(), rest: buf, oversize: Some(len) }
    } else if len < 0 || buf.len() < MSG_LEN_PREFIX + len {
        Parsed { msgs: Seq::empty(), rest: buf, oversize: None }
    } else {
        let tail = parse(buf.skip(4 + len));
        Parsed { msgs: seq![buf.subrange(4, 4 + len)] + tail.msgs, ..tail }
    }
}

/// The last `cap` messages.
pub open spec fn newest(msgs: Seq<Seq<u8>>, cap: nat) -> Seq<Seq<u8>> {
    if msgs.len() <= cap {
        msgs
    } else {
        msgs.skip(msgs.len() - cap)
    }
}

/// The sending side: the stream that is waiting to go out.
pub struct Packer {
    cell_size: usize,
    pending: VecDeque<u8>,
    closed: bool,
}

/// The sending side, as contracts see it.
pub struct PackerModel {
    pub cell_size: nat,
    pub pending: Seq<u8>,
    /// Whether no further message will come.
    pub closed: bool,
}

impl View for Packer {
    type V = PackerModel;

    closed spec fn view(&self) -> PackerModel {
        PackerModel { cell_size: self.cell_size as nat, pending: self.pending@, closed: self.closed }
    }
}

/// The stream with one more message. One that is too long for the other end is
/// left out.
pub open spec fn pushed(pending: Seq<u8>, msg: Seq<u8>) -> Seq<u8> {
    if msg.len() <= MAX_MESSAGE_LEN {
        pending + framed(msg)
    } else {
        pending
    }
}

impl Packer {
    /// The cell size is one that a header can describe.
    pub open spec fn wf(&self) -> bool {
        1 <= self@.cell_size <= MAX_CELL_SIZE
    }

    /// A sending side with nothing to send.
    pub fn new(cell_size: usize) -> (r: Self)
        requires
            1 <= cell_size <= MAX_CELL_SIZE,
        ensures
            r.wf(),
            r@ == (PackerModel { cell_size: cell_size as nat, pending: Seq::empty(), closed: false }),
    {
        Packer { cell_size, pending: VecDeque::new(), closed: false }
    }

    /// Whether the next cell has room for a further message.
    pub fn wants_more(&self) -> (r: bool)
        ensures
            r == (self@.pending.len() < self@.cell_size),
    {
        self.pending.len() < self.cell_size
    }

    /// Appends a message to the stream.
    pub fn push(&mut self, msg: &[u8])
        ensures
            final(self)@ == (PackerModel { pending: pushed(old(self)@.pending, msg@), ..old(self)@ }),
            forall|run: PackRun|
                run.pending == old(self)@.pending ==> (#[trigger] pack_step(
                    run,
                    PackEvent::Push(msg@),
                    old(self)@.cell_size,
                )).pending == final(self)@.pending,
    {
        if msg.len() <= MAX_MESSAGE_LEN {
            let mut prefix: Vec<u8> = Vec::new();
            bytes::put_be32(&mut prefix, msg.len() as u32);
            assert(prefix@ =~= bytes::be32(msg@.len() as int));
            let ghost before = self.pending@;
            self.extend(prefix.as_slice());
            self.extend(msg);
            assert(self.pending@ =~= before + framed(msg@));
        }
    }

    /// Appends bytes to the stream.
    fn extend(&mut self, more: &[u8])
        ensures
            final(self)@ == (PackerModel { pending: old(self)@.pending + more@, ..old(self)@ }),
    {
        let ghost before = self.pending@;
        let mut i: usize = 0;
        assert(before + more@.take(0) =~= before);
        while i < more.len()
            invariant
                i <= more@.len(),
                before == old(self)@.pending,
                self@ == (PackerModel { pending: before + more@.take(i as int), ..old(self)@ }),
            decreases more.len() - i,
        {
            self.pending.push_back(more[i]);
            assert((before + more@.take(i as int)).push(more@[i as int]) =~= before + more@.take(i + 1));
            i += 1;
        }
        assert(more@.take(i as int) =~= more@);
    }

    /// Notes that no further message will come.
    pub fn close(&mut self)
        ensures
            final(self)@ == (PackerModel { closed: true, ..old(self)@ }),
    {
        self.closed = true;
    }

    /// Whether everything has gone out, and no more will come.
    pub fn finished(&self) -> (r: bool)
        ensures
            r == (self@.closed && self@.pending.len() == 0),
    {
        self.closed && self.pending.len() == 0
    }

    /// How much the next cell takes.
    fn fill(&self) -> (r: usize)
        ensures
            r == fill(self@.pending, self@.cell_size),
    {
        if self.pending.len() < self.cell_size {
            self.pending.len()
        } else {
            self.cell_size
        }
    }

    /// The cell for this tick. The stream stays as it is: only `commit` takes
    /// the cell's piece off it, so that a cell that finds no room is not lost.
    pub fn next_cell(&self) -> (r: Vec<u8>)
        requires
            self.wf(),
        ensures
            r@ == cell_bytes(self@.pending, self@.cell_size),
            forall|run: PackRun|
                run.pending == self@.pending ==> (#[trigger] pack_step(
                    run,
                    PackEvent::Cell,
                    self@.cell_size,
                )).cells.last() == r@,
            r@.len() == CELL_HEADER + self@.cell_size,
    {
        let n: usize = self.fill();
        let mut cell: Vec<u8> = Vec::new();
        let ghost size = self@.cell_size;
        let ghost pending = self@.pending;
        if n > 0 {
            cell.push(CELL_DATA);
            bytes::put_be16(&mut cell, n as u16);
            let ghost head = cell@;
            assert(head =~= seq![CELL_DATA] + bytes::be16(n as int));
            let mut i: usize = 0;
            assert(head + pending.take(0) =~= head);
            while i < n
                invariant
                    i <= n,
                    n <= pending.len(),
                    pending == self.pending@,
                    cell@ == head + pending.take(i as int),
                decreases n - i,
            {
                cell.push(self.pending[i]);
                assert((head + pending.take(i as int)).push(pending[i as int]) =~= head + pending.take(i + 1));
                i += 1;
            }
            let ghost used = cell@;
            let mut z: usize = n;
            assert(used + bytes::zeros(0) =~= used);
            while z < self.cell_size
                invariant
                    n <= z <= self.cell_size,
                    cell@ == used + bytes::zeros((z - n) as nat),
                decreases self.cell_size - z,
            {
                cell.push(0);
                assert((used + bytes::zeros((z - n) as nat)).push(0u8) =~= used + bytes::zeros((z + 1 - n) as nat));
                z += 1;
            }
        } else {
            let total: usize = CELL_HEADER + self.cell_size;
            let mut z: usize = 0;
            assert(cell@ =~= bytes::zeros(0));
            while z < total
                invariant
                    z <= total,
                    cell@ == bytes::zeros(z as nat),
                decreases total - z,
            {
                cell.push(0);
                assert(bytes::zeros(z as nat).push(0u8) =~= bytes::zeros((z + 1) as nat));
                z += 1;
            }
        }
        cell
    }

    /// Takes the piece of the cell of this tick off the stream, once the cell
    /// is on its way.
    pub fn commit(&mut self)
        ensures
            final(self)@ == (PackerModel {
                pending: old(self)@.pending.skip(fill(old(self)@.pending, old(self)@.cell_size) as int),
                ..old(self)@
            }),
            forall|run: PackRun|
                run.pending == old(self)@.pending ==> (#[trigger] pack_step(
                    run,
                    PackEvent::Cell,
                    old(self)@.cell_size,
                )).pending == final(self)@.pending,
    {
        let n: usize = self.fill();
        let ghost before = self.pending@;
        let mut i: usize = 0;
        assert(before.skip(0) =~= before);
        while i < n
            invariant
                i <= n <= before.len(),
                before == old(self)@.pending,
                self@ == (PackerModel { pending: before.skip(i as int), ..old(self)@ }),
            decreases n - i,
        {
            self.pending.pop_front();
            assert(before.skip(i as int).drop_first() =~= before.skip(i + 1));
            i += 1;
        }
    }
}

/// The receiving side: the stream so far, and the messages that are complete.
pub struct Reassembler {
    cell_size: usize,
    buffer: Vec<u8>,
    ready: VecDeque<Vec<u8>>,
}

/// The receiving side, as contracts see it.
pub struct ReassemblerModel {
    pub cell_size: nat,
    /// What is there of the message that is coming in.
    pub buffer: Seq<u8>,
    /// The messages that wait to be fetched, oldest first.
    pub ready: Seq<Seq<u8>>,
}

/// Messages, as contracts see them.
pub open spec fn messages(v: Seq<Vec<u8>>) -> Seq<Seq<u8>> {
    v.map_values(|m: Vec<u8>| m@)
}

impl View for Reassembler {
    type V = ReassemblerModel;

    closed spec fn view(&self) -> ReassemblerModel {
        ReassemblerModel {
            cell_size: self.cell_size as nat,
            buffer: self.buffer@,
            ready: messages(self.ready@),
        }
    }
}

/// What holds of every receiving side: the cell size is one that a header can
/// describe, no more messages wait than may, and what is there of the message
/// that is coming in is not yet all of it.
pub open spec fn valid_reassembler(m: ReassemblerModel) -> bool {
    &&& 1 <= m.cell_size <= MAX_CELL_SIZE
    &&& m.ready.len() <= INBOUND_CAPACITY
    &&& parse(m.buffer) == (Parsed { msgs: Seq::empty(), rest: m.buffer, oversize: None })
}

/// Taking a cell in: the state afterwards, or what is wrong with the peer.
pub open spec fn cell_step(m: ReassemblerModel, cell: Seq<u8>) -> Result<ReassemblerModel, CoverError> {
    match cell_fragment(cell, m.cell_size) {
        None => Err(CoverError::MalformedCell),
        Some(fragment) => {
            let p = parse(m.buffer + fragment);
            match p.oversize {
                Some(len) => Err(
                    CoverError::OversizeMessage { len: len as usize, max: MAX_MESSAGE_LEN },
                ),
                None => Ok(
                    ReassemblerModel {
                        buffer: p.rest,
                        ready: newest(m.ready + p.msgs, INBOUND_CAPACITY as nat),
                        ..m
                    },
                ),
            }
        },
    }
}

/// Fetching a message: the message and the state afterwards, where one waits.
pub open spec fn fetched(m: ReassemblerModel) -> Option<(Seq<u8>, ReassemblerModel)> {
    if m.ready.len() > 0 {
        Some((m.ready[0], ReassemblerModel { ready: m.ready.drop_first(), ..m }))
    } else {
        None
    }
}

/// The state after a message was put back.
pub open spec fn returned(m: ReassemblerModel, msg: Seq<u8>) -> ReassemblerModel {
    ReassemblerModel { ready: seq![msg] + m.ready, ..m }
}

/// What is left after reading holds no complete message.
proof fn lemma_parse_rest(a: Seq<u8>)
    requires
        parse(a).oversize is None,
    ensures
        parse(parse(a).rest) == (Parsed { msgs: Seq::empty(), rest: parse(a).rest, oversize: None }),
    decreases a.len(),
{
    let len = bytes::from_be32(a.subrange(0, 4));
    if !(a.len() < 4 || len < 0 || a.len() < 4 + len) {
        lemma_parse_rest(a.skip(4 + len));
    }
}

/// Leaving out the oldest as messages come is leaving them out at the end.
proof fn lemma_newest_push(msgs: Seq<Seq<u8>>, msg: Seq<u8>, cap: nat)
    requires
        cap > 0,
    ensures
        newest(newest(msgs, cap).push(msg), cap) == newest(msgs.push(msg), cap),
{
    assert(newest(newest(msgs, cap).push(msg), cap) =~= newest(msgs.push(msg), cap));
}

impl Reassembler {
    /// What holds of every receiving side.
    pub open spec fn wf(&self) -> bool {
        valid_reassembler(self@)
    }

    /// A receiving side that has seen nothing.
    pub fn new(cell_size: usize) -> (r: Self)
        requires
            1 <= cell_size <= MAX_CELL_SIZE,
        ensures
            r.wf(),
            r@ == (ReassemblerModel { cell_size: cell_size as nat, buffer: Seq::empty(), ready: Seq::empty() }),
    {
        let r = Reassembler { cell_size, buffer: Vec::new(), ready: VecDeque::new() };
        assert(r@.ready =~= Seq::<Seq<u8>>::empty());
        r
    }

    /// How long a cell is.
    pub fn cell_len(&self) -> (r: usize)
        requires
            self.wf(),
        ensures
            r == CELL_HEADER + self@.cell_size,
    {
        CELL_HEADER + self.cell_size
    }

    /// Takes in a cell. A cell that cannot be, and a message that is too long,
    /// are the peer's fault: the channel ends there, and nothing of the cell is
    /// kept.
    pub fn push_cell(&mut self, cell: &[u8]) -> (r: Result<(), CoverError>)
        requires
            old(self).wf(),
            cell@.len() == CELL_HEADER + old(self)@.cell_size,
        ensures
            final(self).wf(),
            match (r, cell_step(old(self)@, cell@)) {
                (Ok(_), Ok(after)) => final(self)@ == after,
                (Err(e), Err(reason)) => e == reason && final(self)@ == old(self)@,
                _ => false,
            },
    {
        let ghost start = self@;
        let before: usize = self.buffer.len();
        if cell[0] == CELL_DATA {
            let len: usize = bytes::get_be16(cell, 1) as usize;
            if len > self.cell_size {
                return Err(CoverError::MalformedCell);
            }
            self.buffer.extend_from_slice(vstd::slice::slice_subrange(cell, CELL_HEADER, CELL_HEADER + len));
        } else if cell[0] != CELL_PAD {
            return Err(CoverError::MalformedCell);
        }
        let ghost fragment = cell_fragment(cell@, start.cell_size)->0;
        let ghost whole = self.buffer@;
        assert(whole =~= start.buffer + fragment);

        let mut found: VecDeque<Vec<u8>> = VecDeque::new();
        let mut at: usize = 0;
        let mut more = true;
        let ghost all = parse(whole);
        assert(whole.skip(0) =~= whole);
        assert(messages(found@) + parse(whole).msgs =~= parse(whole).msgs);
        while more
            invariant
                self@ == (ReassemblerModel { buffer: whole, ..start }),
                self.buffer@ == whole,
                self.ready.len() <= INBOUND_CAPACITY,
                valid_reassembler(start),
                before <= whole.len(),
                whole == start.buffer + fragment,
                before == start.buffer.len(),
                cell_fragment(cell@, start.cell_size) == Some(fragment),
                start == old(self)@,
                all == parse(whole),
                at <= whole.len(),
                all == (Parsed {
                    msgs: messages(found@) + parse(whole.skip(at as int)).msgs,
                    ..parse(whole.skip(at as int))
                }),
                !more ==> parse(whole.skip(at as int)) == (Parsed {
                    msgs: Seq::empty(),
                    rest: whole.skip(at as int),
                    oversize: None,
                }),
            decreases whole.len() - at, (if more { 1int } else { 0int }),
        {
            let ghost here = whole.skip(at as int);
            let left: usize = self.buffer.len() - at;
            if left < MSG_LEN_PREFIX {
                more = false;
            } else {
                let len: usize = bytes::get_be32(self.buffer.as_slice(), at) as usize;
                assert(here.subrange(0, 4) =~= whole.subrange(at as int, at + 4));
                if len > MAX_MESSAGE_LEN {
                    self.buffer.truncate(before);
                    assert(self.buffer@ =~= start.buffer);
                    return Err(CoverError::OversizeMessage { len, max: MAX_MESSAGE_LEN });
                }
                if left < MSG_LEN_PREFIX + len {
                    more = false;
                } else {
                    let msg = bytes::copy_range(
                        self.buffer.as_slice(),
                        at + MSG_LEN_PREFIX,
                        at + MSG_LEN_PREFIX + len,
                    );
                    let ghost earlier = messages(found@);
                    proof {
                        assert(msg@ =~= here.subrange(4, 4 + len));
                        assert(here.skip(4 + len) =~= whole.skip(at + 4 + len));
                    }
                    let ghost text = msg@;
                    found.push_back(msg);
                    at = at + MSG_LEN_PREFIX + len;
                    proof {
                        let tail = parse(whole.skip(at as int));
                        assert(messages(found@) =~= earlier.push(text));
                        assert(parse(here).msgs =~= seq![text] + tail.msgs);
                        assert(messages(found@) + tail.msgs =~= earlier + parse(here).msgs);
                    }
                }
            }
        }
        proof {
            assert(all.msgs =~= messages(found@));
        }
        if at > 0 {
            self.buffer = bytes::copy_range(self.buffer.as_slice(), at, self.buffer.len());
        }
        assert(self.buffer@ =~= all.rest);
        proof {
            lemma_parse_rest(whole);
        }
        self.stage(found);
        Ok(())
    }

    /// Puts complete messages with those that wait, at the cost of the oldest.
    fn stage(&mut self, found: VecDeque<Vec<u8>>)
        requires
            old(self)@.ready.len() <= INBOUND_CAPACITY,
        ensures
            final(self)@ == (ReassemblerModel {
                ready: newest(old(self)@.ready + messages(found@), INBOUND_CAPACITY as nat),
                ..old(self)@
            }),
    {
        let ghost start = self@;
        let ghost all = messages(found@);
        let mut found = found;
        let ghost mut done: int = 0;
        assert(start.ready + all.take(0) =~= start.ready);
        assert(all.skip(0) =~= all);
        while found.len() > 0
            invariant
                0 <= done <= all.len(),
                messages(found@) == all.skip(done),
                start == old(self)@,
                self@ == (ReassemblerModel {
                    ready: newest(start.ready + all.take(done), INBOUND_CAPACITY as nat),
                    ..start
                }),
            decreases all.len() - done,
        {
            let ghost held = self@.ready;
            assert(messages(found@).len() == found@.len());
            assert(all.skip(done)[0] == all[done]);
            assert(messages(found@)[0] == all[done]);
            let ghost left = messages(found@);
            let msg = found.pop_front().unwrap();
            let ghost text = msg@;
            assert(messages(found@) =~= left.drop_first());
            assert(left.drop_first() =~= all.skip(done + 1));
            self.ready.push_back(msg);
            assert(self@.ready =~= held.push(text));
            if self.ready.len() > INBOUND_CAPACITY {
                self.ready.pop_front();
                assert(self@.ready =~= held.push(text).drop_first());
            }
            proof {
                let sofar = start.ready + all.take(done);
                lemma_newest_push(sofar, text, INBOUND_CAPACITY as nat);
                assert(sofar.push(text) =~= start.ready + all.take(done + 1));
                assert(self@.ready =~= newest(held.push(text), INBOUND_CAPACITY as nat));
                done = done + 1;
            }
        }
        assert(all.take(all.len() as int) =~= all);
    }

    /// Fetches the oldest message that waits.
    pub fn pop(&mut self) -> (r: Option<Vec<u8>>)
        requires
            old(self).wf(),
        ensures
            final(self).wf(),
            match r {
                Some(msg) => {
                    &&& old(self)@.ready.len() > 0
                    &&& msg@ == old(self)@.ready[0]
                    &&& final(self)@ == (ReassemblerModel { ready: old(self)@.ready.drop_first(), ..old(self)@ })
                },
                None => old(self)@.ready.len() == 0 && final(self)@ == old(self)@,
            },
            match (r, fetched(old(self)@)) {
                (Some(msg), Some((out, after))) => msg@ == out && final(self)@ == after,
                (None, None) => true,
                _ => false,
            },
    {
        let ghost start = self@;
        let r = self.ready.pop_front();
        proof {
            if r is Some {
                assert(self@.ready =~= start.ready.drop_first());
            } else {
                assert(self@.ready =~= start.ready);
            }
        }
        r
    }

    /// Puts a message back that found no taker: it is the oldest again.
    pub fn put_back(&mut self, msg: Vec<u8>)
        requires
            old(self).wf(),
            old(self)@.ready.len() < INBOUND_CAPACITY,
        ensures
            final(self).wf(),
            final(self)@ == (ReassemblerModel { ready: seq![msg@] + old(self)@.ready, ..old(self)@ }),
            final(self)@ == returned(old(self)@, msg@),
    {
        let ghost start = self@;
        let ghost text = msg@;
        self.ready.push_front(msg);
        assert(self@.ready =~= seq![text] + start.ready);
    }
}

// ---------------------------------------------------------------------------
// Laws
// ---------------------------------------------------------------------------

/// The stream with one more message is the stream with that message behind it.
proof fn lemma_stream_push(msgs: Seq<Seq<u8>>, msg: Seq<u8>)
    ensures
        stream(msgs.push(msg)) == stream(msgs) + framed(msg),
    decreases msgs.len(),
{
    let grown = msgs.push(msg);
    if msgs.len() == 0 {
        assert(grown.drop_first() =~= Seq::<Seq<u8>>::empty());
        assert(stream(grown.drop_first()) =~= Seq::<u8>::empty());
        assert(stream(grown) =~= stream(msgs) + framed(msg));
    } else {
        assert(grown.drop_first() =~= msgs.drop_first().push(msg));
        lemma_stream_push(msgs.drop_first(), msg);
        assert(stream(grown) =~= stream(msgs) + framed(msg));
    }
}

/// Reading a stream in two pieces is reading it in one, if the first piece has
/// no message that is too long.
proof fn lemma_parse_append(a: Seq<u8>, b: Seq<u8>)
    requires
        parse(a).oversize is None,
    ensures
        parse(a + b).msgs == parse(a).msgs + parse(parse(a).rest + b).msgs,
        parse(a + b).rest == parse(parse(a).rest + b).rest,
        parse(a + b).oversize == parse(parse(a).rest + b).oversize,
    decreases a.len(),
{
    let len = bytes::from_be32(a.subrange(0, 4));
    if a.len() < 4 || len < 0 || a.len() < 4 + len {
        assert(Seq::<Seq<u8>>::empty() + parse(a + b).msgs =~= parse(a + b).msgs);
    } else {
        assert((a + b).subrange(0, 4) =~= a.subrange(0, 4));
        assert((a + b).skip(4 + len) =~= a.skip(4 + len) + b);
        assert((a + b).subrange(4, 4 + len) =~= a.subrange(4, 4 + len));
        lemma_parse_append(a.skip(4 + len), b);
        assert(parse(a + b).msgs =~= parse(a).msgs + parse(parse(a).rest + b).msgs);
    }
}

/// A piece from the front of a stream of messages that are not too long holds
/// the first of those messages, as far as they are complete. A whole stream
/// holds them all.
pub proof fn law_stream_is_read_exactly(msgs: Seq<Seq<u8>>, a: Seq<u8>, b: Seq<u8>)
    requires
        a + b == stream(msgs),
        forall|i: int| 0 <= i < msgs.len() ==> (#[trigger] msgs[i]).len() <= MAX_MESSAGE_LEN,
    ensures
        parse(a).oversize is None,
        parse(a).msgs.is_prefix_of(msgs),
        b.len() == 0 ==> parse(a).msgs == msgs && parse(a).rest == Seq::<u8>::empty(),
    decreases msgs.len(),
{
    if msgs.len() == 0 {
        assert(a.len() == 0);
        assert(parse(a).msgs =~= msgs);
    } else {
        let m = msgs[0];
        let rest = msgs.drop_first();
        let n = m.len() as int;
        bytes::lemma_be32(n, bytes::zeros(4));
        assert(framed(m).len() == 4 + n);
        if a.len() >= 4 {
            assert(a.subrange(0, 4) =~= (a + b).subrange(0, 4));
            assert((a + b).subrange(0, 4) =~= bytes::be32(n));
            if a.len() >= 4 + n {
                let tail = a.skip(4 + n);
                assert(tail + b =~= stream(rest)) by {
                    assert((a + b).skip(4 + n) =~= tail + b);
                    assert((framed(m) + stream(rest)).skip(4 + n) =~= stream(rest));
                }
                assert forall|i: int| 0 <= i < rest.len() implies (#[trigger] rest[i]).len() <= MAX_MESSAGE_LEN by {
                    assert(rest[i] == msgs[i + 1]);
                }
                law_stream_is_read_exactly(rest, tail, b);
                assert(a.subrange(4, 4 + n) =~= m) by {
                    assert((a + b).subrange(4, 4 + n) =~= a.subrange(4, 4 + n));
                    assert((framed(m) + stream(rest)).subrange(4, 4 + n) =~= m);
                }
                let got = parse(a).msgs;
                let tail_got = parse(tail).msgs;
                assert(got =~= seq![m] + tail_got);
                assert forall|i: int| 0 <= i < got.len() implies got[i] == msgs[i] by {
                    if i > 0 {
                        assert(got[i] == tail_got[i - 1]);
                        assert(rest[i - 1] == msgs[i]);
                    }
                }
                assert(got =~= msgs.take(got.len() as int));
                if b.len() == 0 {
                    assert(seq![m] + rest =~= msgs);
                }
            } else {
                assert(parse(a).msgs =~= msgs.take(0));
                assert(b.len() > 0);
            }
        } else {
            assert(parse(a).msgs =~= msgs.take(0));
            assert(b.len() > 0);
        }
    }
}

/// Every cell has the same length, with data and without, and adds to the
/// stream what was taken for it.
pub proof fn law_cells_are_alike(pending: Seq<u8>, cell_size: nat)
    requires
        1 <= cell_size <= MAX_CELL_SIZE,
    ensures
        cell_bytes(pending, cell_size).len() == CELL_HEADER + cell_size,
        cell_fragment(cell_bytes(pending, cell_size), cell_size) == Some(
            pending.take(fill(pending, cell_size) as int),
        ),
        pending.len() == 0 <==> cell_bytes(pending, cell_size)[0] == CELL_PAD,
{
    let n = fill(pending, cell_size);
    let cell = cell_bytes(pending, cell_size);
    bytes::lemma_be16(n as int, bytes::zeros(2));
    if n > 0 {
        assert(cell.subrange(1, 3) =~= bytes::be16(n as int));
        assert(cell.subrange(3, 3 + n as int) =~= pending.take(n as int));
    } else {
        assert(pending.take(0) =~= Seq::<u8>::empty());
    }
}

/// A cell of padding changes nothing on the receiving side.
pub proof fn law_padding_changes_nothing(m: ReassemblerModel)
    requires
        valid_reassembler(m),
    ensures
        cell_step(m, bytes::zeros(CELL_HEADER as nat + m.cell_size)) == Ok::<ReassemblerModel, CoverError>(m),
{
    assert(m.buffer + Seq::<u8>::empty() =~= m.buffer);
    assert(m.ready + Seq::<Seq<u8>>::empty() =~= m.ready);
}

/// What happens on the sending side: a message comes in, or a cell goes out.
pub enum PackEvent {
    Push(Seq<u8>),
    Cell,
}

/// What the sending side has done.
pub struct PackRun {
    /// The stream that has not gone out.
    pub pending: Seq<u8>,
    /// The cells that have gone out.
    pub cells: Seq<Seq<u8>>,
    /// The messages that were taken in.
    pub sent: Seq<Seq<u8>>,
}

/// What the sending side has done after one more event.
pub open spec fn pack_step(before: PackRun, e: PackEvent, cell_size: nat) -> PackRun {
    match e {
        PackEvent::Push(msg) => if msg.len() <= MAX_MESSAGE_LEN {
            PackRun { pending: pushed(before.pending, msg), sent: before.sent.push(msg), ..before }
        } else {
            before
        },
        PackEvent::Cell => PackRun {
            pending: before.pending.skip(fill(before.pending, cell_size) as int),
            cells: before.cells.push(cell_bytes(before.pending, cell_size)),
            ..before
        },
    }
}

/// What the sending side has done after all of `events`.
pub open spec fn pack_run(events: Seq<PackEvent>, cell_size: nat) -> PackRun
    decreases events.len(),
{
    if events.len() == 0 {
        PackRun { pending: Seq::empty(), cells: Seq::empty(), sent: Seq::empty() }
    } else {
        pack_step(pack_run(events.drop_last(), cell_size), events.last(), cell_size)
    }
}

/// What cells add to the stream, together.
pub open spec fn received(cells: Seq<Seq<u8>>, cell_size: nat) -> Seq<u8>
    decreases cells.len(),
{
    if cells.len() == 0 {
        Seq::empty()
    } else {
        received(cells.drop_last(), cell_size) + cell_fragment(cells.last(), cell_size)->0
    }
}

/// The receiving side after all of `cells`, with nothing fetched meanwhile.
pub open spec fn receive_run(cells: Seq<Seq<u8>>, cell_size: nat) -> Result<ReassemblerModel, CoverError>
    decreases cells.len(),
{
    if cells.len() == 0 {
        Ok(ReassemblerModel { cell_size, buffer: Seq::empty(), ready: Seq::empty() })
    } else {
        match receive_run(cells.drop_last(), cell_size) {
            Ok(m) => cell_step(m, cells.last()),
            Err(e) => Err(e),
        }
    }
}

/// The cells that have gone out and the stream that has not are the stream of
/// the messages taken in: no byte is lost, added or moved.
pub proof fn law_sender_keeps_the_stream(events: Seq<PackEvent>, cell_size: nat)
    requires
        1 <= cell_size <= MAX_CELL_SIZE,
    ensures
        ({
            let run = pack_run(events, cell_size);
            &&& received(run.cells, cell_size) + run.pending == stream(run.sent)
            &&& forall|i: int| 0 <= i < run.sent.len() ==> (#[trigger] run.sent[i]).len() <= MAX_MESSAGE_LEN
            &&& forall|i: int|
                0 <= i < run.cells.len() ==> {
                    &&& (#[trigger] run.cells[i]).len() == CELL_HEADER + cell_size
                    &&& cell_fragment(run.cells[i], cell_size) is Some
                }
        }),
    decreases events.len(),
{
    let run = pack_run(events, cell_size);
    if events.len() == 0 {
        assert(received(run.cells, cell_size) + run.pending =~= stream(run.sent));
    } else {
        law_sender_keeps_the_stream(events.drop_last(), cell_size);
        let before = pack_run(events.drop_last(), cell_size);
        match events.last() {
            PackEvent::Push(msg) => {
                if msg.len() <= MAX_MESSAGE_LEN {
                    lemma_stream_push(before.sent, msg);
                    assert(received(run.cells, cell_size) + run.pending =~= (received(before.cells, cell_size)
                        + before.pending) + framed(msg));
                }
            },
            PackEvent::Cell => {
                law_cells_are_alike(before.pending, cell_size);
                let n = fill(before.pending, cell_size) as int;
                assert(run.cells.drop_last() =~= before.cells);
                assert(before.pending =~= before.pending.take(n) + before.pending.skip(n));
                assert(received(run.cells, cell_size) + run.pending =~= received(before.cells, cell_size)
                    + before.pending);
            },
        }
    }
}

/// The receiving side reads from cells what their stream holds.
proof fn lemma_receive_run(cells: Seq<Seq<u8>>, cell_size: nat)
    requires
        1 <= cell_size <= MAX_CELL_SIZE,
        forall|i: int| 0 <= i < cells.len() ==> cell_fragment(#[trigger] cells[i], cell_size) is Some,
        parse(received(cells, cell_size)).oversize is None,
        forall|k: int| 0 <= k <= cells.len() ==> parse(received(#[trigger] cells.take(k), cell_size)).oversize is None,
    ensures
        receive_run(cells, cell_size) == Ok::<ReassemblerModel, CoverError>(
            ReassemblerModel {
                cell_size,
                buffer: parse(received(cells, cell_size)).rest,
                ready: newest(parse(received(cells, cell_size)).msgs, INBOUND_CAPACITY as nat),
            },
        ),
    decreases cells.len(),
{
    if cells.len() > 0 {
        let shorter = cells.drop_last();
        assert(cells.take(cells.len() - 1) =~= shorter);
        assert forall|i: int| 0 <= i < shorter.len() implies cell_fragment(#[trigger] shorter[i], cell_size) is Some by {
            assert(shorter[i] == cells[i]);
        }
        assert forall|k: int| 0 <= k <= shorter.len() implies parse(
            received(#[trigger] shorter.take(k), cell_size),
        ).oversize is None by {
            assert(shorter.take(k) =~= cells.take(k));
        }
        assert(cells[cells.len() - 1] == cells.last());
        lemma_receive_run(shorter, cell_size);
        let sofar = received(shorter, cell_size);
        let fragment = cell_fragment(cells.last(), cell_size)->0;
        lemma_parse_append(sofar, fragment);
        let cap = INBOUND_CAPACITY as nat;
        let old_msgs = parse(sofar).msgs;
        let new_msgs = parse(parse(sofar).rest + fragment).msgs;
        assert(newest(newest(old_msgs, cap) + new_msgs, cap) =~= newest(old_msgs + new_msgs, cap));
    }
}

/// The channel delivers: whatever is sent and whenever cells go out, the other
/// end reads from the cells so far the first of the messages, in order and
/// exactly as they were, and once nothing is pending it has read them all. It
/// keeps the newest of them until they are fetched.
pub proof fn law_channel_delivers(events: Seq<PackEvent>, cell_size: nat)
    requires
        1 <= cell_size <= MAX_CELL_SIZE,
    ensures
        ({
            let run = pack_run(events, cell_size);
            let read = parse(received(run.cells, cell_size)).msgs;
            &&& read.is_prefix_of(run.sent)
            &&& run.pending.len() == 0 ==> read == run.sent
            &&& receive_run(run.cells, cell_size) matches Ok(after) && {
                &&& after.ready == newest(read, INBOUND_CAPACITY as nat)
                &&& run.pending.len() == 0 ==> after.buffer == Seq::<u8>::empty()
            }
        }),
{
    let run = pack_run(events, cell_size);
    law_sender_keeps_the_stream(events, cell_size);
    let all = received(run.cells, cell_size);
    law_stream_is_read_exactly(run.sent, all, run.pending);
    assert forall|k: int| 0 <= k <= run.cells.len() implies parse(
        received(#[trigger] run.cells.take(k), cell_size),
    ).oversize is None by {
        lemma_received_split(run.cells, cell_size, k);
        let front = received(run.cells.take(k), cell_size);
        let rest = all.skip(front.len() as int) + run.pending;
        assert(front + rest =~= all + run.pending);
        law_stream_is_read_exactly(run.sent, front, rest);
    }
    lemma_receive_run(run.cells, cell_size);
}

/// What the first cells add stands in front of what all add.
proof fn lemma_received_split(cells: Seq<Seq<u8>>, cell_size: nat, k: int)
    requires
        0 <= k <= cells.len(),
    ensures
        received(cells.take(k), cell_size).is_prefix_of(received(cells, cell_size)),
    decreases cells.len() - k,
{
    if k < cells.len() {
        lemma_received_split(cells, cell_size, k + 1);
        let next = cells.take(k + 1);
        assert(next.drop_last() =~= cells.take(k));
        let a = received(cells.take(k), cell_size);
        let b = received(next, cell_size);
        let c = received(cells, cell_size);
        assert(a =~= c.take(a.len() as int)) by {
            assert(b =~= c.take(b.len() as int));
            assert(a =~= b.take(a.len() as int));
        }
    } else {
        assert(cells.take(k) =~= cells);
    }
}

/// The receiving side after all of `cells`, with everything that is ready fetched
/// after each, and what was fetched. There is nothing where a cell is refused.
pub open spec fn drained(cells: Seq<Seq<u8>>, cell_size: nat) -> Option<(ReassemblerModel, Seq<Seq<u8>>)>
    decreases cells.len(),
{
    if cells.len() == 0 {
        Some((ReassemblerModel { cell_size, buffer: Seq::empty(), ready: Seq::empty() }, Seq::empty()))
    } else {
        match drained(cells.drop_last(), cell_size) {
            Some((m, fetched)) => match cell_step(m, cells.last()) {
                Ok(after) => Some((ReassemblerModel { ready: Seq::empty(), ..after }, fetched + after.ready)),
                Err(_) => None,
            },
            None => None,
        }
    }
}

/// Whether no cell completes more messages than may wait.
pub open spec fn none_crowded(cells: Seq<Seq<u8>>, cell_size: nat) -> bool
    decreases cells.len(),
{
    cells.len() == 0 || {
        &&& none_crowded(cells.drop_last(), cell_size)
        &&& parse(received(cells, cell_size)).msgs.len() <= parse(received(cells.drop_last(), cell_size)).msgs.len()
            + INBOUND_CAPACITY
    }
}

/// A receiving side from which messages are fetched as they come hands out what
/// the stream of the cells holds.
proof fn lemma_drained(cells: Seq<Seq<u8>>, cell_size: nat)
    requires
        1 <= cell_size <= MAX_CELL_SIZE,
        forall|i: int| 0 <= i < cells.len() ==> cell_fragment(#[trigger] cells[i], cell_size) is Some,
        forall|k: int| 0 <= k <= cells.len() ==> parse(received(#[trigger] cells.take(k), cell_size)).oversize is None,
        none_crowded(cells, cell_size),
    ensures
        drained(cells, cell_size) == Some(
            (
                ReassemblerModel {
                    cell_size,
                    buffer: parse(received(cells, cell_size)).rest,
                    ready: Seq::empty(),
                },
                parse(received(cells, cell_size)).msgs,
            ),
        ),
    decreases cells.len(),
{
    assert(cells.take(cells.len() as int) =~= cells);
    if cells.len() > 0 {
        let shorter = cells.drop_last();
        assert(cells.take(cells.len() - 1) =~= shorter);
        assert forall|i: int| 0 <= i < shorter.len() implies cell_fragment(#[trigger] shorter[i], cell_size) is Some by {
            assert(shorter[i] == cells[i]);
        }
        assert forall|k: int| 0 <= k <= shorter.len() implies parse(
            received(#[trigger] shorter.take(k), cell_size),
        ).oversize is None by {
            assert(shorter.take(k) =~= cells.take(k));
        }
        assert(cells[cells.len() - 1] == cells.last());
        lemma_drained(shorter, cell_size);
        let sofar = received(shorter, cell_size);
        let fragment = cell_fragment(cells.last(), cell_size)->0;
        lemma_parse_append(sofar, fragment);
        let new = parse(parse(sofar).rest + fragment).msgs;
        assert(parse(sofar + fragment).msgs.len() == parse(sofar).msgs.len() + new.len());
        assert(Seq::<Seq<u8>>::empty() + new =~= new);
    }
}

/// What arrives is what was sent: of the cells that go out, the other end gets
/// from the first `arrived` the first of the messages, in order and exactly as
/// they were, if it fetches them as they come and no cell completes more messages
/// than may wait. Once nothing is pending and all cells have arrived, it has them
/// all.
pub proof fn law_drained_channel_delivers(events: Seq<PackEvent>, cell_size: nat, arrived: int)
    requires
        1 <= cell_size <= MAX_CELL_SIZE,
        0 <= arrived <= pack_run(events, cell_size).cells.len(),
        none_crowded(pack_run(events, cell_size).cells.take(arrived), cell_size),
    ensures
        ({
            let run = pack_run(events, cell_size);
            &&& drained(run.cells.take(arrived), cell_size) matches Some((_, fetched)) && {
                &&& fetched.is_prefix_of(run.sent)
                &&& arrived == run.cells.len() && run.pending.len() == 0 ==> fetched == run.sent
            }
        }),
{
    let run = pack_run(events, cell_size);
    let cells = run.cells.take(arrived);
    law_sender_keeps_the_stream(events, cell_size);
    let all = received(run.cells, cell_size);
    assert forall|k: int| 0 <= k <= run.cells.len() implies parse(
        received(#[trigger] run.cells.take(k), cell_size),
    ).oversize is None && parse(received(run.cells.take(k), cell_size)).msgs.is_prefix_of(run.sent) by {
        lemma_received_split(run.cells, cell_size, k);
        let front = received(run.cells.take(k), cell_size);
        let rest = all.skip(front.len() as int) + run.pending;
        assert(front + rest =~= all + run.pending);
        law_stream_is_read_exactly(run.sent, front, rest);
    }
    assert forall|i: int| 0 <= i < cells.len() implies cell_fragment(#[trigger] cells[i], cell_size) is Some by {
        assert(cells[i] == run.cells[i]);
    }
    assert forall|k: int| 0 <= k <= cells.len() implies parse(
        received(#[trigger] cells.take(k), cell_size),
    ).oversize is None by {
        assert(cells.take(k) =~= run.cells.take(k));
    }
    lemma_drained(cells, cell_size);
    if arrived == run.cells.len() && run.pending.len() == 0 {
        assert(cells =~= run.cells);
        law_stream_is_read_exactly(run.sent, all, run.pending);
    }
}

/// A message of up to 64 MiB is taken in, behind all that was taken in before it, and a
/// longer one is not; either way no cell goes out for it.
pub proof fn law_messages_are_taken_in(events: Seq<PackEvent>, cell_size: nat, msg: Seq<u8>)
    ensures
        ({
            let before = pack_run(events, cell_size);
            let after = pack_run(events.push(PackEvent::Push(msg)), cell_size);
            &&& msg.len() <= 0x400_0000 ==> after.sent == before.sent.push(msg)
            &&& msg.len() <= 0x400_0000 ==> after.pending.len() == before.pending.len() + 4 + msg.len()
            &&& msg.len() > 0x400_0000 ==> after == before
            &&& after.cells == before.cells
        }),
{
    assert(events.push(PackEvent::Push(msg)).drop_last() =~= events);
    if msg.len() <= MAX_MESSAGE_LEN {
        bytes::lemma_be32(msg.len() as int, bytes::zeros(4));
    }
}

/// Each cell takes as much of the stream that waits as it has room for, so that what
/// waits is gone after so many cells; and one goes out even when nothing waits.
pub proof fn law_waiting_streams_go_out(events: Seq<PackEvent>, cell_size: nat)
    requires
        1 <= cell_size <= MAX_CELL_SIZE,
    ensures
        ({
            let before = pack_run(events, cell_size);
            let after = pack_run(events.push(PackEvent::Cell), cell_size);
            &&& after.cells.len() == before.cells.len() + 1
            &&& after.cells.drop_last() == before.cells
            &&& after.sent == before.sent
            &&& before.pending.len() <= cell_size ==> after.pending.len() == 0
            &&& before.pending.len() > cell_size ==> after.pending.len() == before.pending.len() - cell_size
            &&& after.cells.last().len() == 3 + cell_size
        }),
{
    assert(events.push(PackEvent::Cell).drop_last() =~= events);
    let before = pack_run(events, cell_size);
    law_cells_are_alike(before.pending, cell_size);
    assert(pack_run(events.push(PackEvent::Cell), cell_size).cells.drop_last() =~= before.cells);
}

/// So many cells, and no message.
pub open spec fn only_cells(ticks: nat) -> Seq<PackEvent> {
    Seq::new(ticks, |i: int| PackEvent::Cell)
}

/// After some more cells everything that was taken in has gone out, and with it the other
/// end has read everything: so many cells as it takes to carry what waits are enough.
pub proof fn law_all_is_delivered_in_time(events: Seq<PackEvent>, cell_size: nat, ticks: nat)
    requires
        1 <= cell_size <= MAX_CELL_SIZE,
        pack_run(events, cell_size).pending.len() <= ticks * cell_size,
    ensures
        ({
            let run = pack_run(events + only_cells(ticks), cell_size);
            &&& run.pending.len() == 0
            &&& run.sent == pack_run(events, cell_size).sent
            &&& parse(received(run.cells, cell_size)).msgs == run.sent
        }),
    decreases ticks,
{
    let more = only_cells(ticks);
    law_channel_delivers(events + more, cell_size);
    if ticks == 0 {
        assert(events + more =~= events);
        assert(ticks * cell_size == 0) by (nonlinear_arith)
            requires
                ticks == 0,
        ;
    } else {
        let fewer = (ticks - 1) as nat;
        let next = events.push(PackEvent::Cell);
        law_waiting_streams_go_out(events, cell_size);
        assert(ticks * cell_size == fewer * cell_size + cell_size) by (nonlinear_arith)
            requires
                ticks == fewer + 1,
        ;
        assert(pack_run(next, cell_size).pending.len() <= fewer * cell_size);
        law_all_is_delivered_in_time(next, cell_size, fewer);
        assert(next + only_cells(fewer) =~= events + more);
    }
}

/// A cell that is neither padding nor data is refused, and so is one that claims more
/// data than it has room for. A cell that a sender can have made is not refused for its
/// form.
pub proof fn law_bad_cells_are_refused(m: ReassemblerModel, cell: Seq<u8>)
    requires
        valid_reassembler(m),
        cell.len() == 3 + m.cell_size,
    ensures
        cell[0] != 0 && cell[0] != 1 ==> cell_step(m, cell) == Err::<ReassemblerModel, CoverError>(
            CoverError::MalformedCell,
        ),
        cell[0] == 1 && 256 * cell[1] + cell[2] > m.cell_size ==> cell_step(m, cell) == Err::<
            ReassemblerModel,
            CoverError,
        >(CoverError::MalformedCell),
        cell[0] == 0 ==> cell_step(m, cell) == Ok::<ReassemblerModel, CoverError>(m),
        cell[0] == 1 && 256 * cell[1] + cell[2] <= m.cell_size ==> cell_step(m, cell) != Err::<
            ReassemblerModel,
            CoverError,
        >(CoverError::MalformedCell),
{
    let two = cell.subrange(1, 3);
    assert(two[0] == cell[1] && two[1] == cell[2]);
    assert(m.buffer + Seq::<u8>::empty() =~= m.buffer);
    assert(m.ready + Seq::<Seq<u8>>::empty() =~= m.ready);
}

/// Of messages that nobody fetches the newest 256 stay, in their order, and the oldest go.
pub proof fn law_the_newest_messages_stay(msgs: Seq<Seq<u8>>, i: int)
    ensures
        ({
            let kept = newest(msgs, INBOUND_CAPACITY as nat);
            &&& kept.len() == if msgs.len() < 256 { msgs.len() as int } else { 256 }
            &&& 0 <= i < kept.len() ==> kept[kept.len() - 1 - i] == msgs[msgs.len() - 1 - i]
        }),
{
}

/// A setting is kept where it is in its range, and else the nearest in the range is used.
pub proof fn law_settings_are_kept_in_range(v: int, w: int, lo: int, hi: int)
    requires
        lo <= w <= hi,
    ensures
        lo <= clamped(v, lo, hi) <= hi,
        lo <= v <= hi ==> clamped(v, lo, hi) == v,
        v <= w ==> v <= clamped(v, lo, hi) <= w || clamped(v, lo, hi) == lo,
        v >= w ==> w <= clamped(v, lo, hi) <= v,
        v < lo ==> clamped(v, lo, hi) <= w,
        v > hi ==> clamped(v, lo, hi) >= w,
{
}

/// A message may be sent exactly where the sending side takes it in; one that may not is
/// told its length and the longest that there may be, 64 MiB.
pub proof fn law_what_may_be_sent_is_taken_in(run: PackRun, msg: Seq<u8>, cell_size: nat)
    requires
        msg.len() <= usize::MAX,
    ensures
        checked(msg.len() as usize) is Ok <==> pack_step(run, PackEvent::Push(msg), cell_size).sent == run.sent.push(
            msg,
        ),
        msg.len() > 0x400_0000 ==> checked(msg.len() as usize) == Err::<(), CoverError>(
            CoverError::MessageTooLarge { len: msg.len() as usize, max: 0x400_0000 },
        ),
        msg.len() <= 0x400_0000 ==> checked(msg.len() as usize) is Ok,
{
    assert(run.sent.push(msg).len() != run.sent.len());
}

/// Messages that wait are fetched one by one, in the order in which they came, and each
/// once; where none waits there is none to fetch. One that is put back is the next to be
/// fetched, and then all is as before. None of it touches what is still coming in.
pub proof fn law_messages_are_fetched_in_order(m: ReassemblerModel, msg: Seq<u8>, i: int)
    ensures
        fetched(m) is Some <==> m.ready.len() > 0,
        fetched(m) matches Some((out, after)) ==> {
            &&& out == m.ready[0]
            &&& after.ready.len() == m.ready.len() - 1
            &&& 0 <= i < after.ready.len() ==> after.ready[i] == m.ready[i + 1]
            &&& after.buffer == m.buffer && after.cell_size == m.cell_size
            &&& returned(after, out) == m
        },
        fetched(returned(m, msg)) == Some((msg, m)),
{
    if m.ready.len() > 0 {
        assert(seq![m.ready[0]] + m.ready.drop_first() =~= m.ready);
    }
    assert((seq![msg] + m.ready).drop_first() =~= m.ready);
}

/// A stream is refused for a message that is too long only where the next message claims
/// more than 64 MiB, and the refusal tells how much it claims.
pub proof fn law_oversize_is_told(m: ReassemblerModel, cell: Seq<u8>)
    requires
        cell_step(m, cell) matches Err(e) && e !is MalformedCell,
    ensures
        ({
            let p = parse(m.buffer + cell_fragment(cell, m.cell_size)->0);
            &&& p.oversize is Some
            &&& p.oversize->0 > 0x400_0000
            &&& p.rest.len() >= 4
            &&& p.oversize->0 == bytes::from_be32(p.rest.subrange(0, 4))
            &&& cell_step(m, cell)->Err_0 == (CoverError::OversizeMessage {
                len: p.oversize->0 as usize,
                max: 0x400_0000,
            })
        }),
{
    lemma_oversize(m.buffer + cell_fragment(cell, m.cell_size)->0);
}

/// Where reading stops at a message that is too long, that message stands next.
proof fn lemma_oversize(a: Seq<u8>)
    requires
        parse(a).oversize is Some,
    ensures
        parse(a).oversize->0 > MAX_MESSAGE_LEN,
        parse(a).rest.len() >= 4,
        parse(a).oversize->0 == bytes::from_be32(parse(a).rest.subrange(0, 4)),
    decreases a.len(),
{
    let len = bytes::from_be32(a.subrange(0, 4));
    if a.len() >= 4 && 0 <= len <= MAX_MESSAGE_LEN && a.len() >= 4 + len {
        lemma_oversize(a.skip(4 + len));
    }
}

} // verus!
