//! What a sealed channel does as a whole: frames go in at one end, and come out
//! at the other.
use vstd::prelude::*;

use crate::channel;
use crate::channel::MAX_SEALABLE_CELL;
use crate::cover;
use crate::crypto;
use crate::message;
use crate::message::FrameModel;
use crate::ratchet;
use crate::ratchet_run;
use crate::ratchet_run::{Exchange, Ordered, Sent, Side};
use crate::wire;
use crate::wire::HandshakeModel;

verus! {

/// One frame, or none.
pub open spec fn frame_list(frame: Option<FrameModel>) -> Seq<FrameModel> {
    match frame {
        Some(f) => seq![f],
        None => Seq::empty(),
    }
}

/// The frames that messages hold, in order.
pub open spec fn frames_in(sent: Seq<Sent>) -> Seq<FrameModel>
    decreases sent.len(),
{
    if sent.len() == 0 {
        Seq::empty()
    } else {
        frames_in(sent.drop_last()) + frame_list(channel::frame_in(sent.last().plaintext))
    }
}

/// The end that sends, in one of the two directions.
pub open spec fn sender(x: Exchange, to_first: bool) -> Side {
    if to_first {
        x.p.second
    } else {
        x.p.first
    }
}

/// The end that receives.
pub open spec fn receiver(x: Exchange, to_first: bool) -> Side {
    if to_first {
        x.p.first
    } else {
        x.p.second
    }
}

/// How many messages have arrived.
pub open spec fn arrived(x: Exchange, to_first: bool) -> int {
    if to_first {
        x.first_got
    } else {
        x.second_got
    }
}

/// The frames that an end has handed out, taking in one message after the other.
pub open spec fn handed_out(start: Exchange, happened: Seq<Ordered>, to_first: bool) -> Seq<FrameModel>
    decreases happened.len(),
{
    if happened.len() == 0 {
        Seq::empty()
    } else {
        let x = ratchet_run::ordered_all(start, happened.drop_last());
        let before = handed_out(start, happened.drop_last(), to_first);
        let msg = sender(x, to_first).sent[arrived(x, to_first)].wire;
        match happened.last() {
            Ordered::FirstGets { fresh } if to_first => before + frame_list(
                channel::inbound(receiver(x, to_first).m, msg, fresh).0,
            ),
            Ordered::SecondGets { fresh } if !to_first => before + frame_list(
                channel::inbound(receiver(x, to_first).m, msg, fresh).0,
            ),
            _ => before,
        }
    }
}

/// Whether the next message of one direction arrives.
pub open spec fn arrives(o: Ordered, to_first: bool) -> bool {
    if to_first {
        o is FirstGets
    } else {
        o is SecondGets
    }
}

/// One more happening takes nothing back of what was sent, and what arrives was
/// sent.
proof fn lemma_sent_stays(x: Exchange, o: Ordered, to_first: bool)
    requires
        0 <= arrived(x, to_first) <= sender(x, to_first).sent.len(),
        ratchet_run::may_come(x, o),
    ensures
        ({
            let next = ratchet_run::ordered_one(x, o);
            &&& sender(x, to_first).sent.is_prefix_of(sender(next, to_first).sent)
            &&& arrived(next, to_first) == arrived(x, to_first) + if arrives(o, to_first) {
                1int
            } else {
                0int
            }
            &&& arrived(next, to_first) <= sender(x, to_first).sent.len()
        }),
{
    let next = ratchet_run::ordered_one(x, o);
    let before = sender(x, to_first).sent;
    let after = sender(next, to_first).sent;
    assert(after == before || after.len() == before.len() + 1 && after.drop_last() =~= before);
}

/// What an end hands out are the frames in the messages that have arrived.
proof fn lemma_handed_out(a: Seq<u8>, b: Seq<u8>, seed: Seq<u8>, happened: Seq<Ordered>, to_first: bool)
    requires
        ratchet::valid(ratchet_run::started(a, b, seed).first.m),
        ratchet::valid(ratchet_run::started(a, b, seed).second.m),
        ratchet_run::may_all_come(ratchet_run::opened(a, b, seed), happened),
    ensures
        ({
            let x = ratchet_run::ordered_all(ratchet_run::opened(a, b, seed), happened);
            &&& 0 <= arrived(x, to_first) <= sender(x, to_first).sent.len()
            &&& handed_out(ratchet_run::opened(a, b, seed), happened, to_first) == frames_in(
                sender(x, to_first).sent.take(arrived(x, to_first)),
            )
        }),
    decreases happened.len(),
{
    let start = ratchet_run::opened(a, b, seed);
    if happened.len() == 0 {
        assert(sender(start, to_first).sent.take(0) =~= Seq::<Sent>::empty());
    } else {
        let prior = happened.drop_last();
        let o = happened.last();
        let x = ratchet_run::ordered_all(start, prior);
        let next = ratchet_run::ordered_all(start, happened);
        let count = arrived(x, to_first);
        let sent = sender(x, to_first).sent;
        let all = sender(next, to_first).sent;
        lemma_handed_out(a, b, seed, prior, to_first);
        assert(ratchet_run::may_come(x, o));
        lemma_sent_stays(x, o, to_first);
        assert(all.take(count) =~= sent.take(count));
        if arrives(o, to_first) {
            ratchet_run::law_ordered_session_delivers(a, b, seed, prior, o);
            let taken = all.take(count + 1);
            assert(taken.drop_last() =~= all.take(count));
            assert(taken.last() == sent[count]);
        }
    }
}

/// Whether an end has sent these frames, behind the empty message with which the
/// initiator opens the channel, where it is the initiator.
pub open spec fn has_sent(sent: Seq<Sent>, sync: bool, frames: Seq<FrameModel>) -> bool {
    let front: int = if sync {
        1
    } else {
        0
    };
    &&& sent.len() == front + frames.len()
    &&& sync ==> sent[0].plaintext.len() == 0
    &&& forall|i: int|
        #![trigger frames[i]]
        0 <= i < frames.len() ==> message::frame_fits(frames[i]) && sent[front + i].plaintext == message::frame_bytes(
            frames[i],
        )
}

/// The messages that have arrived hold the first of the frames.
proof fn lemma_frames_in(sent: Seq<Sent>, sync: bool, frames: Seq<FrameModel>, count: int)
    requires
        has_sent(sent, sync, frames),
        0 <= count <= sent.len(),
    ensures
        ({
            let front: int = if sync {
                1
            } else {
                0
            };
            frames_in(sent.take(count)) == frames.take(if count < front {
                0
            } else {
                count - front
            })
        }),
    decreases count,
{
    let front: int = if sync {
        1
    } else {
        0
    };
    if count == 0 {
        assert(frames_in(sent.take(0)) =~= frames.take(0));
    } else {
        lemma_frames_in(sent, sync, frames, count - 1);
        let taken = sent.take(count);
        assert(taken.drop_last() =~= sent.take(count - 1));
        assert(taken.last() == sent[count - 1]);
        let i = count - 1 - front;
        if i >= 0 {
            let frame = frames[i];
            assert(sent[front + i].plaintext == message::frame_bytes(frame));
            message::law_frame_round_trip(frame);
            assert(message::frame_bytes(frame).len() > 0);
            assert(frames.take(i) + seq![frame] =~= frames.take(i + 1));
        } else {
            assert(frames_in(taken) =~= frames.take(0));
        }
    }
}

/// The messages as they go to the cover layer.
pub open spec fn wires(sent: Seq<Sent>) -> Seq<Seq<u8>> {
    sent.map_values(|e: Sent| e.wire)
}

/// Whether cells are sealed as records, one after the other, by a session that
/// goes through the states of `sealing`: what sealing promises of each.
pub open spec fn sealed_as(cells: Seq<Seq<u8>>, records: Seq<Seq<u8>>, sealing: Seq<snow::TransportState>) -> bool {
    &&& records.len() == cells.len()
    &&& sealing.len() == cells.len() + 1
    &&& forall|i: int|
        #![trigger records[i]]
        0 <= i < records.len() ==> {
            &&& records[i].len() == cells[i].len() + 16
            &&& wire::can_seal(sealing[i])
            &&& wire::seals(sealing[i], sealing[i + 1], cells[i], records[i])
        }
}

/// Whether a session that goes through the states of `opening` has counted one
/// record after the other: what opening promises of each that it opens.
pub open spec fn opened_by(opening: Seq<snow::TransportState>) -> bool {
    &&& opening.len() > 0
    &&& forall|i: int| #![trigger opening[i]] 0 <= i < opening.len() - 1 ==> wire::counted(opening[i], opening[i + 1], 1)
}

/// Records open to the cells that were sealed, one after the other.
proof fn lemma_records_open(
    cells: Seq<Seq<u8>>,
    records: Seq<Seq<u8>>,
    sealing: Seq<snow::TransportState>,
    opening: Seq<snow::TransportState>,
    i: int,
)
    requires
        sealed_as(cells, records, sealing),
        opened_by(opening),
        opening.len() <= records.len() + 1,
        wire::in_step(sealing[0], opening[0]),
        forall|j: int| 0 <= j < cells.len() ==> (#[trigger] cells[j]).len() + 16 <= wire::MAX_NOISE_MSG,
        0 <= i < opening.len(),
    ensures
        wire::in_step(sealing[i], opening[i]),
        i < opening.len() - 1 ==> wire::opens_to(opening[i], records[i]) == Some(cells[i]),
    decreases i,
{
    if i > 0 {
        lemma_records_open(cells, records, sealing, opening, i - 1);
        assert(records[i - 1].len() == cells[i - 1].len() + 16);
        assert(wire::counted(opening[i - 1], opening[i], 1));
        wire::law_sealed_records_open(sealing[i - 1], sealing[i], opening[i - 1], cells[i - 1], records[i - 1]);
    }
    if i < opening.len() - 1 {
        assert(records[i].len() == cells[i].len() + 16);
        wire::law_sealed_records_open(sealing[i], sealing[i + 1], opening[i], cells[i], records[i]);
    }
}

/// What is sent in one direction of a channel, and how far it has come.
pub struct Traffic {
    /// Whether the responder sends.
    pub to_first: bool,
    /// The frames that the sender was given.
    pub frames: Seq<FrameModel>,
    pub cell_size: nat,
    /// How the messages went into cells.
    pub events: Seq<cover::PackEvent>,
    /// The cells as they were sealed.
    pub records: Seq<Seq<u8>>,
    /// The states of the session that sealed them.
    pub sealing: Seq<snow::TransportState>,
    /// The states of the receiving session, one more than records have arrived.
    pub opening: Seq<snow::TransportState>,
}

/// Whether the traffic of one direction is that of a channel on which `happened`
/// has happened: the messages of the ratchet went into the cells, the cells into
/// the records, and the receiver has taken in what it has read, where no cell
/// completes more messages than may wait.
pub open spec fn is_traffic(start: Exchange, happened: Seq<Ordered>, t: Traffic) -> bool {
    let x = ratchet_run::ordered_all(start, happened);
    let run = cover::pack_run(t.events, t.cell_size);
    let got = run.cells.take(t.opening.len() - 1);
    &&& 1 <= t.cell_size <= MAX_SEALABLE_CELL
    &&& has_sent(sender(x, t.to_first).sent, !t.to_first, t.frames)
    &&& run.sent == wires(sender(x, t.to_first).sent)
    &&& sealed_as(run.cells, t.records, t.sealing)
    &&& opened_by(t.opening)
    &&& t.opening.len() <= t.records.len() + 1
    &&& cover::none_crowded(got, t.cell_size)
    &&& arrived(x, t.to_first) == (cover::drained(got, t.cell_size)->0).1.len()
}

/// Whether traffic comes out as it went in: every record is as long as every other
/// and opens to its cell, the receiver reads from the cells the first of the
/// messages and hands out the first of the frames, and all of them once all records
/// have arrived and nothing is pending.
pub open spec fn crosses(start: Exchange, happened: Seq<Ordered>, t: Traffic) -> bool {
    let x = ratchet_run::ordered_all(start, happened);
    let run = cover::pack_run(t.events, t.cell_size);
    let count = t.opening.len() - 1;
    let out = handed_out(start, happened, t.to_first);
    &&& forall|i: int|
        #![trigger t.records[i]]
        0 <= i < t.records.len() ==> t.records[i].len() == cover::CELL_HEADER + t.cell_size + 16
    &&& forall|i: int|
        #![trigger t.opening[i]]
        0 <= i < count ==> wire::opens_to(t.opening[i], t.records[i]) == Some(run.cells[i])
    &&& cover::drained(run.cells.take(count), t.cell_size) matches Some((_, read)) && read == wires(
        sender(x, t.to_first).sent,
    ).take(arrived(x, t.to_first))
    &&& out.is_prefix_of(t.frames)
    &&& count == t.records.len() && run.pending.len() == 0 ==> out == t.frames
}

/// Frames that go in at one end of a channel come out at the other, exactly as
/// they were and in their order, through ratchet, cells and records. The empty
/// message of the initiator is not among them.
///
/// The two ends share a seed, and their sessions are in step. Whatever both send
/// and whenever, this holds of either direction.
pub proof fn law_frames_cross_the_channel(
    a: Seq<u8>,
    b: Seq<u8>,
    seed: Seq<u8>,
    happened: Seq<Ordered>,
    t: Traffic,
)
    requires
        ratchet::valid(ratchet_run::started(a, b, seed).first.m),
        ratchet::valid(ratchet_run::started(a, b, seed).second.m),
        ratchet_run::may_all_come(ratchet_run::opened(a, b, seed), happened),
        is_traffic(ratchet_run::opened(a, b, seed), happened, t),
        wire::in_step(t.sealing[0], t.opening[0]),
    ensures
        crosses(ratchet_run::opened(a, b, seed), happened, t),
{
    let start = ratchet_run::opened(a, b, seed);
    let x = ratchet_run::ordered_all(start, happened);
    let run = cover::pack_run(t.events, t.cell_size);
    let count = t.opening.len() - 1;
    let sent = sender(x, t.to_first).sent;
    let taken = arrived(x, t.to_first);
    cover::law_sender_keeps_the_stream(t.events, t.cell_size);
    assert forall|i: int| #![trigger t.records[i]] 0 <= i < t.records.len() implies t.records[i].len()
        == cover::CELL_HEADER + t.cell_size + 16 by {
        assert(run.cells[i].len() == cover::CELL_HEADER + t.cell_size);
    }
    assert forall|i: int| #![trigger t.opening[i]] 0 <= i < count implies wire::opens_to(t.opening[i], t.records[i])
        == Some(run.cells[i]) by {
        lemma_records_open(run.cells, t.records, t.sealing, t.opening, i);
    }
    cover::law_drained_channel_delivers(t.events, t.cell_size, count);
    let read = (cover::drained(run.cells.take(count), t.cell_size)->0).1;
    assert(read =~= wires(sent).take(taken));
    lemma_handed_out(a, b, seed, happened, t.to_first);
    lemma_frames_in(sent, !t.to_first, t.frames, taken);
    let out = handed_out(start, happened, t.to_first);
    let front: int = if t.to_first {
        0
    } else {
        1
    };
    let n: int = if taken < front {
        0
    } else {
        taken - front
    };
    assert(out == t.frames.take(n));
    assert(out =~= t.frames.take(out.len() as int));
    if count == t.records.len() && run.pending.len() == 0 {
        assert(read == run.sent);
        assert(taken == sent.len());
        assert(t.frames.take(n) =~= t.frames);
    }
}

/// The sessions of the two ends of a handshake, and the record with which the
/// responder hands its ratchet key over.
pub struct Connection {
    pub initiator: snow::TransportState,
    pub responder: snow::TransportState,
    pub record: Seq<u8>,
    /// The session of the responder once it has sealed the record.
    pub responder_after: snow::TransportState,
    /// The session of the initiator once it has opened the record.
    pub initiator_after: snow::TransportState,
}

/// Whether sessions come of the two ends of a handshake, and the responder has
/// sealed the key of its ratchet secret `b` with the first record, which has been
/// opened: what ending the handshake, sealing and opening promise.
pub open spec fn hands_over(first: HandshakeModel, second: HandshakeModel, b: Seq<u8>, c: Connection) -> bool {
    let key = crypto::x25519_public(b);
    &&& wire::comes_of(c.initiator, first)
    &&& wire::comes_of(c.responder, second)
    &&& c.record.len() == key.len() + 16
    &&& wire::seals(c.responder, c.responder_after, key, c.record)
    &&& wire::counted(c.initiator, c.initiator_after, 1)
}

/// From the handshake to the frames: the two ends of a handshake get one seed out of
/// it, the initiator gets the responder's ratchet key out of the first record, and
/// what is sent from then on comes out at the other end, in either direction.
pub proof fn law_connections_carry_frames(
    first: HandshakeModel,
    second: HandshakeModel,
    a: Seq<u8>,
    b: Seq<u8>,
    c: Connection,
    happened: Seq<Ordered>,
    t: Traffic,
)
    requires
        wire::meet(first, second),
        first.initiator,
        ratchet::valid(ratchet_run::started(a, b, wire::hash_of(first)).first.m),
        ratchet::valid(ratchet_run::started(a, b, wire::hash_of(first)).second.m),
        hands_over(first, second, b, c),
        ratchet_run::may_all_come(ratchet_run::opened(a, b, wire::hash_of(first)), happened),
        is_traffic(ratchet_run::opened(a, b, wire::hash_of(first)), happened, t),
        t.sealing[0] == (if t.to_first {
            c.responder_after
        } else {
            c.initiator_after
        }),
        t.opening[0] == (if t.to_first {
            c.initiator_after
        } else {
            c.responder_after
        }),
    ensures
        wire::hash_of(second) == wire::hash_of(first),
        wire::opens_to(c.initiator, c.record) == Some(crypto::x25519_public(b)),
        crosses(ratchet_run::opened(a, b, wire::hash_of(first)), happened, t),
{
    wire::law_sessions_fit(first, second, c.initiator, c.responder);
    wire::law_sealed_records_open(c.responder, c.responder_after, c.initiator, crypto::x25519_public(b), c.record);
    assert(wire::in_step(c.initiator_after, c.responder_after));
    law_frames_cross_the_channel(a, b, wire::hash_of(first), happened, t);
}

} // verus!
