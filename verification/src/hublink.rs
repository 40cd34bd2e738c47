//! A member's side of the connection to a hub: when to dial again, and which of
//! the hub's messages are new.
use vstd::prelude::*;

use crate::assoc::Assoc;
use crate::hub::{ServerMsg, ServerMsgModel};
use crate::message::{Frame, FrameModel};

verus! {

/// What becomes of the connection to a hub.
#[derive(Debug, Clone, Copy, PartialEq, Eq, Structural)]
pub enum HubEvent {
    /// It could not be reached, or did not accept the word.
    Unreachable,
    /// It was reached, but no sealed channel came about.
    Unsealed,
    /// The sealed channel is open.
    Open,
    /// The channel is gone.
    Lost,
}

/// What to show about the connection.
#[derive(Debug, Clone, Copy, PartialEq, Eq, Structural)]
pub enum HubNotice {
    Nothing,
    Error,
    Connected,
    Reconnecting,
}

/// What to do about an event.
pub struct HubPlan {
    pub notice: HubNotice,
    /// Whether to say who we are.
    pub hello: bool,
    /// After how many seconds to dial again, if at all.
    pub dial_again: Option<u64>,
}

/// What to do about an event.
pub open spec fn plan_for(event: HubEvent) -> HubPlan {
    match event {
        HubEvent::Unreachable => HubPlan { notice: HubNotice::Error, hello: false, dial_again: Some(3) },
        HubEvent::Unsealed => HubPlan { notice: HubNotice::Nothing, hello: false, dial_again: Some(3) },
        HubEvent::Open => HubPlan { notice: HubNotice::Connected, hello: true, dial_again: None },
        HubEvent::Lost => HubPlan { notice: HubNotice::Reconnecting, hello: false, dial_again: Some(2) },
    }
}

/// What to do about an event: a hub that is not there is dialled again after
/// three seconds, one that went away after two.
pub fn after_event(event: HubEvent) -> (r: HubPlan)
    ensures
        r == (match event {
            HubEvent::Unreachable => HubPlan { notice: HubNotice::Error, hello: false, dial_again: Some(3) },
            HubEvent::Unsealed => HubPlan { notice: HubNotice::Nothing, hello: false, dial_again: Some(3) },
            HubEvent::Open => HubPlan { notice: HubNotice::Connected, hello: true, dial_again: None },
            HubEvent::Lost => HubPlan { notice: HubNotice::Reconnecting, hello: false, dial_again: Some(2) },
        }),
        r == plan_for(event),
{
    match event {
        HubEvent::Unreachable => HubPlan { notice: HubNotice::Error, hello: false, dial_again: Some(3) },
        HubEvent::Unsealed => HubPlan { notice: HubNotice::Nothing, hello: false, dial_again: Some(3) },
        HubEvent::Open => HubPlan { notice: HubNotice::Connected, hello: true, dial_again: None },
        HubEvent::Lost => HubPlan { notice: HubNotice::Reconnecting, hello: false, dial_again: Some(2) },
    }
}

/// What came in from the hub.
pub enum HubInput {
    /// The bytes of a message.
    Message(Vec<u8>),
    /// Something that a hub does not send.
    Other,
    /// The channel is gone.
    Lost,
}

/// Whether `r` is what a frame from a hub comes to.
pub open spec fn comes_in(frame: Option<Frame>, r: HubInput) -> bool {
    &&& r is Lost <==> frame is None
    &&& r is Other <==> frame is Some && frame->0@ !is Group
    &&& r matches HubInput::Message(b) ==> frame is Some && frame->0@ == FrameModel::Group(b@)
}

/// What came in on the channel to a hub; `None` is its end.
pub fn on_frame(frame: Option<Frame>) -> (r: HubInput)
    ensures
        match (frame, r) {
            (Some(f), HubInput::Message(b)) => f@ == FrameModel::Group(b@),
            (Some(f), HubInput::Other) => !(f@ is Group),
            (None, HubInput::Lost) => true,
            _ => false,
        },
        comes_in(frame, r),
{
    match frame {
        Some(Frame::Group(b)) => HubInput::Message(b),
        Some(_) => HubInput::Other,
        None => HubInput::Lost,
    }
}

/// The last message of each conversation that was shown.
pub struct HubFeed {
    last_seq: Assoc<String, u64>,
}

impl View for HubFeed {
    type V = Map<Seq<char>, u64>;

    closed spec fn view(&self) -> Map<Seq<char>, u64> {
        self.last_seq@
    }
}

/// The number of the last message of a conversation that was shown; 0 where none
/// was.
pub open spec fn mark(m: Map<Seq<char>, u64>, conv: Seq<char>) -> u64 {
    if m.contains_key(conv) {
        m[conv]
    } else {
        0
    }
}

/// What a message of a conversation makes of the marks, and whether it is shown:
/// messages only where their number is beyond the mark, anything else always.
pub open spec fn feed_step(
    m: Map<Seq<char>, u64>,
    conv: Seq<char>,
    msg: ServerMsgModel,
) -> (Map<Seq<char>, u64>, bool) {
    match msg {
        ServerMsgModel::Welcome => (m, true),
        ServerMsgModel::Msg(e) => if e.seq > mark(m, conv) {
            (m.insert(conv, e.seq), true)
        } else {
            (m.insert(conv, mark(m, conv)), false)
        },
    }
}

impl HubFeed {
    /// A feed that has shown nothing.
    pub fn new() -> (r: Self)
        ensures
            r@ == Map::<Seq<char>, u64>::empty(),
    {
        HubFeed { last_seq: Assoc::new() }
    }

    /// Takes a message of a conversation in, and says whether to show it. What
    /// the hub sends again after a reconnect is not shown again.
    pub fn take_in(&mut self, conv: &String, msg: &ServerMsg) -> (r: bool)
        ensures
            (final(self)@, r) == feed_step(old(self)@, conv@, msg@),
    {
        match msg {
            ServerMsg::Welcome => true,
            ServerMsg::Msg { seq, .. } => {
                let last: u64 = match self.last_seq.get(conv) {
                    Some(n) => *n,
                    None => 0,
                };
                if *seq > last {
                    self.last_seq.insert(conv.clone(), *seq);
                    true
                } else {
                    self.last_seq.insert(conv.clone(), last);
                    false
                }
            },
        }
    }
}

// ---------------------------------------------------------------------------
// Laws
// ---------------------------------------------------------------------------

/// The marks after some messages, each with its conversation.
pub open spec fn feed_run(items: Seq<(Seq<char>, ServerMsgModel)>) -> Map<Seq<char>, u64>
    decreases items.len(),
{
    if items.len() == 0 {
        Map::empty()
    } else {
        feed_step(feed_run(items.drop_last()), items.last().0, items.last().1).0
    }
}

/// Whether the message at `i` is shown.
pub open spec fn shown(items: Seq<(Seq<char>, ServerMsgModel)>, i: int) -> bool {
    feed_step(feed_run(items.take(i)), items[i].0, items[i].1).1
}

/// A mark is at least the number of every message of its conversation that came
/// before.
proof fn lemma_mark_covers(items: Seq<(Seq<char>, ServerMsgModel)>, n: int, i: int)
    requires
        0 <= i < n <= items.len(),
        items[i].1 is Msg,
    ensures
        mark(feed_run(items.take(n)), items[i].0) >= items[i].1->Msg_0.seq,
    decreases n,
{
    let now = items.take(n);
    assert(now.drop_last() =~= items.take(n - 1));
    assert(now.last() == items[n - 1]);
    if i < n - 1 {
        lemma_mark_covers(items, n - 1, i);
    }
}

/// No message is shown twice: of two messages of a conversation that are both
/// shown, the later one has the greater number.
pub proof fn law_messages_are_shown_once(items: Seq<(Seq<char>, ServerMsgModel)>, i: int, j: int)
    requires
        0 <= i < j < items.len(),
        items[i].1 is Msg,
        items[j].1 is Msg,
        items[i].0 == items[j].0,
        shown(items, i),
        shown(items, j),
    ensures
        items[i].1->Msg_0.seq < items[j].1->Msg_0.seq,
{
    lemma_mark_covers(items, j, i);
}

/// A message that comes again is not shown again.
pub proof fn law_resends_are_hidden(m: Map<Seq<char>, u64>, conv: Seq<char>, msg: ServerMsgModel)
    requires
        msg is Msg,
    ensures
        !feed_step(feed_step(m, conv, msg).0, conv, msg).1,
{
}

/// A message of one conversation hides none of another.
pub proof fn law_conversations_are_separate(
    m: Map<Seq<char>, u64>,
    conv: Seq<char>,
    msg: ServerMsgModel,
    other: Seq<char>,
    later: ServerMsgModel,
)
    requires
        conv != other,
    ensures
        feed_step(feed_step(m, conv, msg).0, other, later).1 == feed_step(m, other, later).1,
{
}

/// A mark is the number of a message of its conversation that came before, unless it
/// is 0.
proof fn lemma_mark_came(items: Seq<(Seq<char>, ServerMsgModel)>, n: int, conv: Seq<char>)
    requires
        0 <= n <= items.len(),
        mark(feed_run(items.take(n)), conv) > 0,
    ensures
        exists|i: int|
            0 <= i < n && (#[trigger] items[i]).0 == conv && items[i].1 is Msg && items[i].1->Msg_0.seq == mark(
                feed_run(items.take(n)),
                conv,
            ),
    decreases n,
{
    if n > 0 {
        let now = items.take(n);
        assert(now.drop_last() =~= items.take(n - 1));
        assert(now.last() == items[n - 1]);
        let before = mark(feed_run(items.take(n - 1)), conv);
        let after = mark(feed_run(now), conv);
        if items[n - 1].0 == conv && items[n - 1].1 is Msg && items[n - 1].1->Msg_0.seq == after {
        } else {
            assert(before == after);
            lemma_mark_came(items, n - 1, conv);
        }
    }
}

/// A message of a conversation is shown if and only if its number is greater than that
/// of every message of the conversation that came before it, however far beyond, and is
/// not 0. What is no message is always shown.
pub proof fn law_new_messages_are_shown(items: Seq<(Seq<char>, ServerMsgModel)>, i: int)
    requires
        0 <= i < items.len(),
    ensures
        items[i].1 is Welcome ==> shown(items, i),
        items[i].1 is Msg ==> (shown(items, i) <==> {
            &&& items[i].1->Msg_0.seq > 0
            &&& forall|k: int|
                0 <= k < i && (#[trigger] items[k]).0 == items[i].0 && items[k].1 is Msg ==> items[k].1->Msg_0.seq
                    < items[i].1->Msg_0.seq
        }),
{
    if items[i].1 is Msg {
        let (conv, seq) = (items[i].0, items[i].1->Msg_0.seq);
        let now = mark(feed_run(items.take(i)), conv);
        if seq > now {
            assert forall|k: int| 0 <= k < i && (#[trigger] items[k]).0 == conv && items[k].1 is Msg implies items[k].1->Msg_0.seq
                < seq by {
                lemma_mark_covers(items, i, k);
            }
        } else if seq > 0 {
            lemma_mark_came(items, i, conv);
        }
    }
}

/// The connection to a hub is kept up: whatever ends it, or keeps it from coming about,
/// leads to another try within a few seconds, and an open one to none. We say who we
/// are as soon as it is open, and then only. The user is told of every change but a
/// channel that did not come about.
pub proof fn law_a_lost_hub_is_dialled_again(event: HubEvent)
    ensures
        event == HubEvent::Open <==> plan_for(event).dial_again is None,
        event == HubEvent::Open <==> plan_for(event).hello,
        event == HubEvent::Open <==> plan_for(event).notice == HubNotice::Connected,
        event != HubEvent::Open ==> 2 <= plan_for(event).dial_again->0 <= 3,
        event == HubEvent::Lost ==> plan_for(event).dial_again->0 < plan_for(HubEvent::Unreachable).dial_again->0,
        plan_for(HubEvent::Unsealed).dial_again == plan_for(HubEvent::Unreachable).dial_again,
        event == HubEvent::Lost <==> plan_for(event).notice == HubNotice::Reconnecting,
        event == HubEvent::Unreachable <==> plan_for(event).notice == HubNotice::Error,
        event == HubEvent::Unsealed <==> plan_for(event).notice == HubNotice::Nothing,
{
}

/// The bytes of a message of the hub are handed on as they came; a frame of another kind
/// is told apart from the end of the channel.
pub proof fn law_hub_messages_are_handed_on(f: Frame, b: Seq<u8>, r: HubInput, end: HubInput)
    requires
        comes_in(Some(f), r),
        comes_in(None, end),
    ensures
        end is Lost,
        r !is Lost,
        f@ == FrameModel::Group(b) ==> r is Message && r->0@ == b,
        f@ !is Group ==> r is Other,
{
}

} // verus!
