//! The hub: a relay and mailbox for one family room.
//!
//! The hub keeps one log, in which every message has a number, and for every
//! member the number up to which it has everything. A member who comes back
//! gets what it missed. What members and hub say to each other travels as JSON;
//! here it is as it is meant.
use vstd::prelude::*;
use vstd::string::*;

use crate::assoc;
use crate::assoc::Assoc;
use crate::text;

verus! {

/// How many messages the log keeps.
pub const MAX_LOG: usize = 20000;

/// Where the hub listens, unless told otherwise.
pub const DEFAULT_BIND: &'static str = "0.0.0.0:9000";

/// What a member says to the hub.
#[derive(Debug, Clone, PartialEq)]
pub enum ClientMsg {
    /// Who it is: the id of the device, and the name to show.
    Hello { id: String, name: String },
    /// A message for the family.
    Send { text: String },
    /// It has everything up to this number.
    Ack { seq: u64 },
}

/// What the hub says to a member.
#[derive(Debug, PartialEq)]
pub enum ServerMsg {
    /// The answer to a `Hello`.
    Welcome,
    /// A message, as it comes or from the log.
    Msg { seq: u64, from: String, name: String, text: String, ts: i64 },
}

/// What the hub says to a member, as contracts see it.
pub enum ServerMsgModel {
    Welcome,
    Msg(EntryModel),
}

impl View for ServerMsg {
    type V = ServerMsgModel;

    open spec fn view(&self) -> ServerMsgModel {
        match self {
            ServerMsg::Welcome => ServerMsgModel::Welcome,
            ServerMsg::Msg { seq, from, name, text, ts } => ServerMsgModel::Msg(
                EntryModel { seq: *seq, from: from@, name: name@, text: text@, ts: *ts },
            ),
        }
    }
}

impl Clone for ServerMsg {
    fn clone(&self) -> (r: Self)
        ensures
            r@ == self@,
    {
        match self {
            ServerMsg::Welcome => ServerMsg::Welcome,
            ServerMsg::Msg { seq, from, name, text, ts } => ServerMsg::Msg {
                seq: *seq,
                from: from.clone(),
                name: name.clone(),
                text: text.clone(),
                ts: *ts,
            },
        }
    }
}

/// A message in the log.
#[derive(Debug, PartialEq)]
pub struct LogEntry {
    pub seq: u64,
    pub from: String,
    pub name: String,
    pub text: String,
    pub ts: i64,
}

/// A message in the log, as contracts see it.
pub struct EntryModel {
    pub seq: u64,
    pub from: Seq<char>,
    pub name: Seq<char>,
    pub text: Seq<char>,
    pub ts: i64,
}

impl View for LogEntry {
    type V = EntryModel;

    open spec fn view(&self) -> EntryModel {
        EntryModel { seq: self.seq, from: self.from@, name: self.name@, text: self.text@, ts: self.ts }
    }
}

/// The log, as contracts see it.
pub open spec fn log_view(v: Seq<LogEntry>) -> Seq<EntryModel> {
    v.map_values(|e: LogEntry| e@)
}

/// What goes out, as contracts see it.
pub open spec fn out_view(v: Seq<ServerMsg>) -> Seq<ServerMsgModel> {
    v.map_values(|m: ServerMsg| m@)
}

/// A message of the log as it goes out.
pub fn entry_to_msg(e: &LogEntry) -> (r: ServerMsg)
    ensures
        r@ == ServerMsgModel::Msg(e@),
{
    ServerMsg::Msg {
        seq: e.seq,
        from: e.from.clone(),
        name: e.name.clone(),
        text: e.text.clone(),
        ts: e.ts,
    }
}

/// The hub.
pub struct Hub {
    next_seq: u64,
    log: Vec<LogEntry>,
    cursors: Assoc<String, u64>,
    names: Assoc<String, String>,
    online: Assoc<String, ()>,
}

/// The hub, as contracts see it.
pub struct HubModel {
    /// The number of the last message.
    pub last_seq: u64,
    /// The messages that are kept, in order.
    pub log: Seq<EntryModel>,
    /// For each member, the highest number that it has acknowledged.
    pub cursors: Map<Seq<char>, u64>,
    /// The name that each member is shown under.
    pub names: Map<Seq<char>, Seq<char>>,
    /// Who is connected.
    pub online: Set<Seq<char>>,
}

impl View for Hub {
    type V = HubModel;

    closed spec fn view(&self) -> HubModel {
        HubModel {
            last_seq: self.next_seq,
            log: log_view(self.log@),
            cursors: self.cursors@,
            names: self.names@.map_values(|n: String| n@),
            online: self.online@.dom(),
        }
    }
}

/// The highest number that a member has acknowledged, or 0 where it has
/// acknowledged none.
pub open spec fn cursor_of(m: HubModel, id: Seq<char>) -> u64 {
    if m.cursors.contains_key(id) {
        m.cursors[id]
    } else {
        0
    }
}

/// The messages of others beyond a number, in order: what a member that has
/// acknowledged `cursor` is sent when it comes. It has its own messages anyway.
pub open spec fn missed(log: Seq<EntryModel>, id: Seq<char>, cursor: u64) -> Seq<EntryModel> {
    log.filter(|e: EntryModel| e.seq > cursor && e.from != id)
}

/// What a member is greeted with that has acknowledged `cursor`.
pub open spec fn greets(log: Seq<EntryModel>, id: Seq<char>, cursor: u64) -> Seq<ServerMsgModel> {
    seq![ServerMsgModel::Welcome] + missed(log, id, cursor).map_values(|e: EntryModel| ServerMsgModel::Msg(e))
}

/// The last messages, as many as are kept.
pub open spec fn capped(log: Seq<EntryModel>) -> Seq<EntryModel> {
    if log.len() > MAX_LOG {
        log.skip(log.len() - MAX_LOG)
    } else {
        log
    }
}

/// The message that a member sends next.
pub open spec fn next_entry(m: HubModel, from: Seq<char>, name: Seq<char>, text: Seq<char>, ts: i64) -> EntryModel {
    EntryModel { seq: (m.last_seq + 1) as u64, from, name, text, ts }
}

/// The hub after a message of `from`: it has its number, and it is in the log.
/// Nobody has acknowledged anything by that.
pub open spec fn after_send(m: HubModel, from: Seq<char>, name: Seq<char>, text: Seq<char>, ts: i64) -> HubModel {
    let e = next_entry(m, from, name, text, ts);
    HubModel { last_seq: e.seq, log: capped(m.log.push(e)), ..m }
}

/// The hub after a member said that it has everything up to `seq`. What it said
/// earlier is not taken back.
pub open spec fn after_ack(m: HubModel, id: Seq<char>, seq: u64) -> HubModel {
    let cursor = if seq > cursor_of(m, id) {
        seq
    } else {
        cursor_of(m, id)
    };
    HubModel { cursors: m.cursors.insert(id, cursor), ..m }
}

/// The hub after a member came.
pub open spec fn after_hello(m: HubModel, id: Seq<char>, name: Seq<char>) -> HubModel {
    HubModel { names: m.names.insert(id, name), online: m.online.insert(id), ..m }
}

/// The hub after a member went.
pub open spec fn after_going(m: HubModel, id: Seq<char>) -> HubModel {
    HubModel { online: m.online.remove(id), ..m }
}

/// The members that a message goes to as it comes: those who are connected,
/// without its sender, each once.
pub open spec fn are_targets(online: Set<Seq<char>>, from: Seq<char>, targets: Seq<String>) -> bool {
    &&& forall|i: int|
        0 <= i < targets.len() ==> online.contains((#[trigger] targets[i])@) && targets[i]@ != from
    &&& forall|i: int, j: int| #![trigger targets[i], targets[j]] 0 <= i < j < targets.len() ==> targets[i]@ != targets[j]@
    &&& forall|id: Seq<char>| #[trigger] online.contains(id) && id != from ==> exists|i: int|
        0 <= i < targets.len() && (#[trigger] targets[i])@ == id
}

impl Hub {
    /// A hub with nothing in it.
    pub fn new() -> (r: Self)
        ensures
            r@ == (HubModel {
                last_seq: 0,
                log: Seq::empty(),
                cursors: Map::empty(),
                names: Map::empty(),
                online: Set::empty(),
            }),
    {
        let r = Hub {
            next_seq: 0,
            log: Vec::new(),
            cursors: Assoc::new(),
            names: Assoc::new(),
            online: Assoc::new(),
        };
        proof {
            assert(r@.log =~= Seq::<EntryModel>::empty());
            assert(r@.names =~= Map::<Seq<char>, Seq<char>>::empty());
            assert(r@.online =~= Set::<Seq<char>>::empty());
        }
        r
    }

    /// Puts the number and the log back as they were kept.
    pub fn restore_log(&mut self, next_seq: u64, log: Vec<LogEntry>)
        ensures
            final(self)@ == (HubModel { last_seq: next_seq, log: log_view(log@), ..old(self)@ }),
    {
        self.next_seq = next_seq;
        self.log = log;
    }

    /// Puts what is known of a member back as it was kept.
    pub fn restore_cursor(&mut self, id: String, seq: u64)
        ensures
            final(self)@ == (HubModel { cursors: old(self)@.cursors.insert(id@, seq), ..old(self)@ }),
    {
        self.cursors.insert(id, seq);
    }

    /// Puts the name of a member back as it was kept.
    pub fn restore_name(&mut self, id: String, name: String)
        ensures
            final(self)@ == (HubModel { names: old(self)@.names.insert(id@, name@), ..old(self)@ }),
    {
        let ghost before = self@;
        let ghost n = name@;
        self.names.insert(id, name);
        assert(self@.names =~= before.names.insert(id@, n));
    }

    /// The number of the last message.
    pub fn next_seq(&self) -> (r: u64)
        ensures
            r == self@.last_seq,
    {
        self.next_seq
    }

    /// The log.
    pub fn log(&self) -> (r: &Vec<LogEntry>)
        ensures
            log_view(r@) == self@.log,
    {
        &self.log
    }

    /// What the members have, to be kept.
    pub fn cursors(&self) -> (r: Vec<(String, u64)>)
        ensures
            r@.len() == self@.cursors.dom().len(),
            forall|i: int|
                #![trigger r@[i]]
                0 <= i < r@.len() ==> self@.cursors.contains_key(r@[i].0@) && self@.cursors[r@[i].0@] == r@[i].1,
            forall|i: int, j: int| #![trigger r@[i], r@[j]] 0 <= i < j < r@.len() ==> r@[i].0@ != r@[j].0@,
    {
        let n: usize = self.cursors.len();
        let ghost pairs = self.cursors.order();
        let mut out: Vec<(String, u64)> = Vec::new();
        let mut i: usize = 0;
        while i < n
            invariant
                i <= n,
                n == pairs.len(),
                pairs == self.cursors.order(),
                self@.cursors == self.cursors@,
                assoc::distinct(pairs),
                out@.len() == i,
                forall|k: int|
                    #![trigger out@[k]]
                    0 <= k < i ==> self@.cursors.contains_key(out@[k].0@) && self@.cursors[out@[k].0@] == out@[k].1
                        && out@[k].0@ == pairs[k].0@,
            decreases n - i,
        {
            let key = self.cursors.key_at(i).clone();
            let value: u64 = *self.cursors.value_at(i);
            out.push((key, value));
            i += 1;
        }
        proof {
            assert forall|a: int, b: int| #![trigger out@[a], out@[b]] 0 <= a < b < out@.len() implies out@[a].0@
                != out@[b].0@ by {
                assert(pairs[a].0@ != pairs[b].0@);
            }
        }
        out
    }

    /// The names of the members, to be kept.
    pub fn names(&self) -> (r: Vec<(String, String)>)
        ensures
            r@.len() == self@.names.dom().len(),
            forall|i: int|
                #![trigger r@[i]]
                0 <= i < r@.len() ==> self@.names.contains_key(r@[i].0@) && self@.names[r@[i].0@] == r@[i].1@,
            forall|i: int, j: int| #![trigger r@[i], r@[j]] 0 <= i < j < r@.len() ==> r@[i].0@ != r@[j].0@,
    {
        let n: usize = self.names.len();
        let ghost pairs = self.names.order();
        let mut out: Vec<(String, String)> = Vec::new();
        let mut i: usize = 0;
        assert(self@.names.dom() =~= self.names@.dom());
        while i < n
            invariant
                i <= n,
                n == pairs.len(),
                pairs == self.names.order(),
                self@.names == self.names@.map_values(|n: String| n@),
                assoc::distinct(pairs),
                out@.len() == i,
                forall|k: int|
                    #![trigger out@[k]]
                    0 <= k < i ==> self@.names.contains_key(out@[k].0@) && self@.names[out@[k].0@] == out@[k].1@
                        && out@[k].0@ == pairs[k].0@,
            decreases n - i,
        {
            let key = self.names.key_at(i).clone();
            let value = self.names.value_at(i).clone();
            out.push((key, value));
            i += 1;
        }
        proof {
            assert forall|a: int, b: int| #![trigger out@[a], out@[b]] 0 <= a < b < out@.len() implies out@[a].0@
                != out@[b].0@ by {
                assert(pairs[a].0@ != pairs[b].0@);
            }
        }
        out
    }

    /// A member came. The result is the highest number that it has acknowledged.
    pub fn hello(&mut self, id: &String, name: &String) -> (r: u64)
        ensures
            final(self)@ == after_hello(old(self)@, id@, name@),
            r == cursor_of(old(self)@, id@),
    {
        let ghost before = self@;
        self.names.insert(id.clone(), name.clone());
        self.online.insert(id.clone(), ());
        proof {
            assert(self@.names =~= before.names.insert(id@, name@));
            assert(self@.online =~= before.online.insert(id@));
        }
        match self.cursors.get(id) {
            Some(c) => *c,
            None => 0,
        }
    }

    /// What the member `id` missed, that has acknowledged `cursor`.
    pub fn backlog(&self, id: &String, cursor: u64) -> (r: Vec<ServerMsg>)
        ensures
            out_view(r@) == missed(self@.log, id@, cursor).map_values(|e: EntryModel| ServerMsgModel::Msg(e)),
            seq![ServerMsgModel::Welcome] + out_view(r@) == greets(self@.log, id@, cursor),
    {
        let ghost all = self@.log;
        let ghost wanted = |e: EntryModel| e.seq > cursor && e.from != id@;
        let ghost shown = |e: EntryModel| ServerMsgModel::Msg(e);
        let mut out: Vec<ServerMsg> = Vec::new();
        let mut i: usize = 0;
        assert(all.take(0).filter(wanted) =~= Seq::<EntryModel>::empty()) by {
            reveal(Seq::filter);
        }
        assert(out_view(out@) =~= all.take(0).filter(wanted).map_values(shown));
        while i < self.log.len()
            invariant
                i <= self.log@.len(),
                all == log_view(self.log@),
                wanted == (|e: EntryModel| e.seq > cursor && e.from != id@),
                shown == (|e: EntryModel| ServerMsgModel::Msg(e)),
                out_view(out@) == all.take(i as int).filter(wanted).map_values(shown),
            decreases self.log.len() - i,
        {
            let ghost before = out_view(out@);
            let ghost next = all.take(i + 1);
            proof {
                assert(next.drop_last() =~= all.take(i as int));
                assert(next.last() == all[i as int]);
                reveal(Seq::filter);
            }
            if self.log[i].seq > cursor && self.log[i].from != *id {
                let m = entry_to_msg(&self.log[i]);
                out.push(m);
                assert(out_view(out@) =~= before.push(ServerMsgModel::Msg(all[i as int])));
            }
            assert(out_view(out@) =~= next.filter(wanted).map_values(shown));
            i += 1;
        }
        assert(all.take(i as int) =~= all);
        out
    }

    /// What the member `id` is sent when it comes, that has acknowledged `cursor`:
    /// a welcome, and behind it what it missed.
    pub fn greeting(&self, id: &String, cursor: u64) -> (r: Vec<ServerMsg>)
        ensures
            out_view(r@) == seq![ServerMsgModel::Welcome] + missed(self@.log, id@, cursor).map_values(
                |e: EntryModel| ServerMsgModel::Msg(e),
            ),
            out_view(r@) == greets(self@.log, id@, cursor),
    {
        let mut out: Vec<ServerMsg> = Vec::new();
        out.push(ServerMsg::Welcome);
        let mut rest = self.backlog(id, cursor);
        let ghost behind = rest@;
        out.append(&mut rest);
        assert(out_view(out@) =~= seq![ServerMsgModel::Welcome] + out_view(behind));
        out
    }

    /// A member sends a message. The result is the message as it goes out, and
    /// the members that it goes to at once.
    pub fn post(&mut self, from_id: &String, from_name: &String, text: String, ts: i64) -> (r: (
        ServerMsg,
        Vec<String>,
    ))
        requires
            old(self)@.last_seq < u64::MAX,
        ensures
            final(self)@ == after_send(old(self)@, from_id@, from_name@, text@, ts),
            r.0@ == ServerMsgModel::Msg(next_entry(old(self)@, from_id@, from_name@, text@, ts)),
            are_targets(old(self)@.online, from_id@, r.1@),
    {
        let ghost before = self@;
        let seq: u64 = self.next_seq + 1;
        self.next_seq = seq;
        let entry = LogEntry {
            seq,
            from: from_id.clone(),
            name: from_name.clone(),
            text: text.clone(),
            ts,
        };
        let ghost e = entry@;
        self.log.push(entry);
        assert(self@.log =~= before.log.push(e));
        self.cap_log();
        let targets = self.others_online(from_id);
        let msg = ServerMsg::Msg { seq, from: from_id.clone(), name: from_name.clone(), text, ts };
        (msg, targets)
    }

    /// Drops the oldest messages beyond the limit.
    fn cap_log(&mut self)
        ensures
            final(self)@ == (HubModel { log: capped(old(self)@.log), ..old(self)@ }),
            final(self).online == old(self).online,
    {
        if self.log.len() > MAX_LOG {
            let ghost before = self@.log;
            let excess: usize = self.log.len() - MAX_LOG;
            let rest = self.log.split_off(excess);
            self.log = rest;
            assert(self@.log =~= capped(before));
        }
    }

    /// The members who are connected, without `from`.
    fn others_online(&self, from: &String) -> (r: Vec<String>)
        ensures
            are_targets(self@.online, from@, r@),
    {
        let n: usize = self.online.len();
        let ghost pairs = self.online.order();
        let mut out: Vec<String> = Vec::new();
        let mut i: usize = 0;
        while i < n
            invariant
                i <= n,
                n == pairs.len(),
                pairs == self.online.order(),
                self@.online == self.online@.dom(),
                assoc::distinct(pairs),
                forall|k: int|
                    0 <= k < out@.len() ==> self@.online.contains((#[trigger] out@[k])@) && out@[k]@ != from@
                        && exists|j: int| 0 <= j < i && (#[trigger] pairs[j]).0@ == out@[k]@,
                forall|a: int, b: int| #![trigger out@[a], out@[b]] 0 <= a < b < out@.len() ==> out@[a]@ != out@[b]@,
                forall|j: int|
                    0 <= j < i && (#[trigger] pairs[j]).0@ != from@ ==> exists|k: int|
                        0 <= k < out@.len() && (#[trigger] out@[k])@ == pairs[j].0@,
            decreases n - i,
        {
            let id = self.online.key_at(i);
            let ghost before = out@;
            if *id != *from {
                out.push(id.clone());
                proof {
                    let now = out@;
                    assert(now[before.len() as int]@ == pairs[i as int].0@);
                    assert forall|k: int| 0 <= k < now.len() implies self@.online.contains((#[trigger] now[k])@)
                        && now[k]@ != from@ && exists|j: int| 0 <= j < i + 1 && (#[trigger] pairs[j]).0@ == now[k]@ by {
                        if k < before.len() {
                            assert(now[k] == before[k]);
                        } else {
                            assert(pairs[i as int].0@ == now[k]@);
                        }
                    }
                    assert forall|a: int, b: int| #![trigger now[a], now[b]] 0 <= a < b < now.len() implies now[a]@
                        != now[b]@ by {
                        assert(now[a] == before[a]);
                        if b < before.len() {
                            assert(now[b] == before[b]);
                        } else {
                            let j = choose|j: int| 0 <= j < i && (#[trigger] pairs[j]).0@ == before[a]@;
                            assert(pairs[j].0@ != pairs[i as int].0@);
                        }
                    }
                    assert forall|j: int| 0 <= j < i + 1 && (#[trigger] pairs[j]).0@ != from@ implies exists|k: int|
                        0 <= k < now.len() && (#[trigger] now[k])@ == pairs[j].0@ by {
                        if j < i {
                            let k = choose|k: int| 0 <= k < before.len() && (#[trigger] before[k])@ == pairs[j].0@;
                            assert(now[k] == before[k]);
                        }
                    }
                }
            }
            i += 1;
        }
        proof {
            assert forall|id: Seq<char>| #[trigger] self@.online.contains(id) && id != from@ implies exists|k: int|
                0 <= k < out@.len() && (#[trigger] out@[k])@ == id by {
                assert(self.online@.contains_key(id));
                let j = choose|j: int| assoc::at_key(pairs, id, j);
                assert(assoc::at_key(pairs, id, j));
                assert(pairs[j].0@ == id);
            }
        }
        out
    }

    /// A member says that it has everything up to `seq`.
    pub fn ack(&mut self, id: &String, seq: u64)
        ensures
            final(self)@ == after_ack(old(self)@, id@, seq),
    {
        let current: u64 = match self.cursors.get(id) {
            Some(c) => *c,
            None => 0,
        };
        let cursor: u64 = if seq > current {
            seq
        } else {
            current
        };
        self.cursors.insert(id.clone(), cursor);
    }

    /// A member's connection has ended.
    pub fn go_offline(&mut self, id: &String)
        ensures
            final(self)@ == (HubModel { online: old(self)@.online.remove(id@), ..old(self)@ }),
            final(self)@ == after_going(old(self)@, id@),
    {
        let ghost before = self@;
        self.online.remove(id);
        assert(self@.online =~= before.online.remove(id@));
    }
}

impl Default for Hub {
    fn default() -> (r: Self)
        ensures
            r@.last_seq == 0,
            r@.log == Seq::<EntryModel>::empty(),
            r@.cursors == Map::<Seq<char>, u64>::empty(),
            r@.names == Map::<Seq<char>, Seq<char>>::empty(),
            r@.online == Set::<Seq<char>>::empty(),
    {
        Self::new()
    }
}

// ---------------------------------------------------------------------------
// One connection
// ---------------------------------------------------------------------------

/// How far a connection has come.
pub enum Client {
    /// It has not said who it is.
    New,
    /// It belongs to a member.
    Member { id: String, name: String },
}

/// A connection, as contracts see it.
pub open spec fn client_id(c: Client) -> Option<Seq<char>> {
    match c {
        Client::New => None,
        Client::Member { id, .. } => Some(id@),
    }
}

/// What follows from what a connection said.
pub enum Reaction {
    /// Nothing.
    Ignore,
    /// A member is there: it gets the greeting of one that has acknowledged
    /// `cursor`. The hub is to be written out.
    Greet { cursor: u64 },
    /// A message goes to the members of `targets`. The hub is to be written out.
    Deliver { msg: ServerMsg, targets: Vec<String> },
    /// The hub is to be written out.
    Keep,
}

/// What it comes to that a connection says something: a member comes, sends or
/// acknowledges, or nothing happens.
pub open spec fn happening(c: Client, msg: Option<ClientMsg>, ts: i64) -> Seq<HubHappening> {
    match (c, msg) {
        (Client::New, Some(ClientMsg::Hello { id, name })) => seq![HubHappening::Comes { id: id@, name: name@ }],
        (Client::Member { id, name }, Some(ClientMsg::Send { text })) => seq![
            HubHappening::Sends(Sending { from: id@, name: name@, text: text@, ts }),
        ],
        (Client::Member { id, .. }, Some(ClientMsg::Ack { seq })) => seq![
            HubHappening::Acknowledges { id: id@, seq },
        ],
        _ => Seq::empty(),
    }
}

/// Whether `after`, `now` and `r` are what follows from a connection `c` saying
/// something to the hub.
pub open spec fn reacts(
    m: HubModel,
    c: Client,
    msg: Option<ClientMsg>,
    ts: i64,
    after: HubModel,
    now: Client,
    r: Reaction,
) -> bool {
    let h = happening(c, msg, ts);
    &&& after == after_happenings(m, h)
    &&& h.len() == 0 <==> r is Ignore
    &&& r is Greet <==> h.len() > 0 && h[0] is Comes
    &&& r is Keep <==> h.len() > 0 && h[0] is Acknowledges
    &&& c is Member || r !is Greet ==> now == c
    &&& r matches Reaction::Greet { cursor } ==> {
        &&& client_id(now) == Some(h[0]->Comes_id)
        &&& now->name@ == h[0]->Comes_name
        &&& cursor == cursor_of(m, h[0]->Comes_id)
    }
    &&& r matches Reaction::Deliver { msg: out, targets } ==> {
        &&& out@ == ServerMsgModel::Msg(after.log.last())
        &&& are_targets(m.online, client_id(c)->0, targets@)
    }
}

/// What one happening or none makes of the hub.
proof fn lemma_single(m: HubModel, happened: Seq<HubHappening>)
    requires
        happened.len() <= 1,
    ensures
        happened.len() == 0 ==> after_happenings(m, happened) == m,
        happened.len() == 1 ==> after_happenings(m, happened) == (match happened[0] {
            HubHappening::Comes { id, name } => after_hello(m, id, name),
            HubHappening::Goes { id } => after_going(m, id),
            HubHappening::Sends(s) => after_send(m, s.from, s.name, s.text, s.ts),
            HubHappening::Acknowledges { id, seq } => after_ack(m, id, seq),
        }),
{
    if happened.len() == 1 {
        assert(after_happenings(m, happened.drop_last()) == m);
    }
}

/// Takes in what a connection said: nothing that can be understood, or a
/// message. Until it has said who it is everything else is passed over, and
/// afterwards it cannot become someone else.
pub fn on_message(hub: &mut Hub, client: &mut Client, msg: Option<ClientMsg>, ts: i64) -> (r: Reaction)
    requires
        *old(client) is Member && msg is Some && msg->0 is Send ==> old(hub)@.last_seq < u64::MAX,
    ensures
        match (*old(client), msg) {
            (Client::New, Some(ClientMsg::Hello { id, name })) => {
                &&& final(hub)@ == after_hello(old(hub)@, id@, name@)
                &&& *final(client) matches Client::Member { id: i, name: n } && i@ == id@ && n@ == name@
                &&& r == (Reaction::Greet { cursor: cursor_of(old(hub)@, id@) })
            },
            (Client::Member { id, name }, Some(ClientMsg::Send { text })) => {
                &&& final(hub)@ == after_send(old(hub)@, id@, name@, text@, ts)
                &&& *final(client) == *old(client)
                &&& r matches Reaction::Deliver { msg: out, targets } && {
                    &&& out@ == ServerMsgModel::Msg(next_entry(old(hub)@, id@, name@, text@, ts))
                    &&& are_targets(old(hub)@.online, id@, targets@)
                }
            },
            (Client::Member { id, name }, Some(ClientMsg::Ack { seq })) => {
                &&& final(hub)@ == after_ack(old(hub)@, id@, seq)
                &&& *final(client) == *old(client)
                &&& r is Keep
            },
            _ => {
                &&& final(hub)@ == old(hub)@
                &&& *final(client) == *old(client)
                &&& r is Ignore
            },
        },
        reacts(old(hub)@, *old(client), msg, ts, final(hub)@, *final(client), r),
{
    let (reaction, joined): (Reaction, Option<(String, String)>) = match (&*client, msg) {
        (Client::New, Some(ClientMsg::Hello { id, name })) => {
            let cursor: u64 = hub.hello(&id, &name);
            (Reaction::Greet { cursor }, Some((id, name)))
        },
        (Client::Member { id, name }, Some(ClientMsg::Send { text })) => {
            let (out, targets) = hub.post(id, name, text, ts);
            (Reaction::Deliver { msg: out, targets }, None)
        },
        (Client::Member { id, name: _ }, Some(ClientMsg::Ack { seq })) => {
            hub.ack(id, seq);
            (Reaction::Keep, None)
        },
        _ => (Reaction::Ignore, None),
    };
    if let Some((id, name)) = joined {
        *client = Client::Member { id, name };
    }
    proof {
        lemma_single(old(hub)@, happening(*old(client), msg, ts));
    }
    reaction
}

/// A connection has ended. A member that it belonged to is no longer there.
pub fn on_close(hub: &mut Hub, client: &Client)
    ensures
        final(hub)@ == (match client_id(*client) {
            Some(id) => HubModel { online: old(hub)@.online.remove(id), ..old(hub)@ },
            None => old(hub)@,
        }),
        client_id(*client) matches Some(id) ==> final(hub)@ == after_going(old(hub)@, id),
{
    match client {
        Client::New => {},
        Client::Member { id, name: _ } => {
            hub.go_offline(id);
        },
    }
}

// ---------------------------------------------------------------------------
// How the hub is started
// ---------------------------------------------------------------------------

/// How the hub is to run.
#[derive(Debug, PartialEq)]
pub struct Config {
    /// The word that members show.
    pub word: Option<String>,
    /// Where to listen.
    pub bind: String,
    /// Where to keep what has to be kept, if it was said.
    pub data: Option<String>,
}

/// How the hub is to run, as contracts see it.
pub struct ConfigModel {
    pub word: Option<Seq<char>>,
    pub bind: Seq<char>,
    pub data: Option<Seq<char>>,
}

/// An optional text, as contracts see it.
pub open spec fn opt_text(s: Option<String>) -> Option<Seq<char>> {
    match s {
        Some(t) => Some(t@),
        None => None,
    }
}

impl View for Config {
    type V = ConfigModel;

    open spec fn view(&self) -> ConfigModel {
        ConfigModel { word: opt_text(self.word), bind: self.bind@, data: opt_text(self.data) }
    }
}

/// The arguments, as contracts see them.
pub open spec fn args_view(v: Seq<String>) -> Seq<Seq<char>> {
    v.map_values(|s: String| s@)
}

/// What the arguments from `at` on make of a configuration. An option takes the
/// argument behind it; without one, `--word` and `--data` take back what was
/// said before, and `--bind` changes nothing. Other arguments are passed over.
pub open spec fn with_args(c: ConfigModel, args: Seq<Seq<char>>, at: int) -> ConfigModel
    decreases (if at < args.len() { args.len() - at } else { 0 }),
{
    if at < 0 || at >= args.len() {
        c
    } else {
        let value = if at + 1 < args.len() {
            Some(args[at + 1])
        } else {
            None
        };
        if args[at] == "--word"@ {
            with_args(ConfigModel { word: value, ..c }, args, at + 2)
        } else if args[at] == "--bind"@ {
            match value {
                Some(v) => with_args(ConfigModel { bind: v, ..c }, args, at + 2),
                None => c,
            }
        } else if args[at] == "--data"@ {
            with_args(ConfigModel { data: value, ..c }, args, at + 2)
        } else {
            with_args(c, args, at + 1)
        }
    }
}

/// The configuration that the environment gives.
pub open spec fn from_env(word: Option<Seq<char>>, bind: Option<Seq<char>>, data: Option<Seq<char>>) -> ConfigModel {
    ConfigModel {
        word,
        bind: match bind {
            Some(b) => b,
            None => DEFAULT_BIND@,
        },
        data,
    }
}

impl Config {
    /// The configuration of the environment and the arguments. Arguments have
    /// the last word.
    pub fn from_env_and_args(
        word: Option<String>,
        bind: Option<String>,
        data: Option<String>,
        args: &Vec<String>,
    ) -> (r: Config)
        ensures
            r@ == with_args(
                from_env(opt_text(word), opt_text(bind), opt_text(data)),
                args_view(args@),
                0,
            ),
    {
        let bind = match bind {
            Some(b) => b,
            None => DEFAULT_BIND.to_owned(),
        };
        let mut cfg = Config { word, bind, data };
        let ghost all = args_view(args@);
        let ghost target = with_args(cfg@, all, 0);
        let mut at: usize = 0;
        while at < args.len()
            invariant
                all == args_view(args@),
                with_args(cfg@, all, at as int) == target,
                at <= args@.len(),
            decreases args.len() - at,
        {
            proof {
                reveal_with_fuel(with_args, 2);
            }
            assert(all[at as int] == args@[at as int]@);
            let value: Option<String> = if at + 1 < args.len() {
                assert(all[at + 1] == args@[at + 1]@);
                Some(args[at + 1].clone())
            } else {
                None
            };
            let word_option = "--word".to_owned();
            let bind_option = "--bind".to_owned();
            let data_option = "--data".to_owned();
            if args[at] == word_option {
                cfg.word = value;
                at = if args.len() - at >= 2 {
                    at + 2
                } else {
                    args.len()
                };
            } else if args[at] == bind_option {
                match value {
                    Some(v) => {
                        cfg.bind = v;
                        at = at + 2;
                    },
                    None => {
                        at = args.len();
                    },
                }
            } else if args[at] == data_option {
                cfg.data = value;
                at = if args.len() - at >= 2 {
                    at + 2
                } else {
                    args.len()
                };
            } else {
                at = at + 1;
            }
        }
        cfg
    }
}

/// The word that members have to show, where a word was given.
pub open spec fn usable(word: Option<Seq<char>>) -> Option<Seq<char>> {
    match word {
        Some(w) => if text::trimmed(w).len() > 0 {
            Some(w)
        } else {
            None
        },
        None => None,
    }
}

/// The word that members have to show, if there is one: one of nothing but
/// white space is none.
pub fn usable_word(word: Option<String>) -> (r: Option<String>)
    ensures
        opt_text(r) == (match opt_text(word) {
            Some(w) => if text::trimmed(w).len() > 0 {
                Some(w)
            } else {
                None
            },
            None => None,
        }),
        opt_text(r) == usable(opt_text(word)),
{
    match word {
        Some(w) => if text::trim(w.as_str()).as_str().is_empty() {
            None
        } else {
            Some(w)
        },
        None => None,
    }
}

// ---------------------------------------------------------------------------
// Laws
// ---------------------------------------------------------------------------

/// What holds of the log of a hub that has always been kept: the numbers rise,
/// up to the last, and there are no more messages than are kept.
pub open spec fn orderly(m: HubModel) -> bool {
    &&& m.log.len() <= MAX_LOG
    &&& forall|i: int, j: int| #![trigger m.log[i], m.log[j]] 0 <= i < j < m.log.len() ==> m.log[i].seq < m.log[j].seq
    &&& forall|i: int| 0 <= i < m.log.len() ==> (#[trigger] m.log[i]).seq <= m.last_seq
}

/// Whatever happens, the log stays orderly.
pub proof fn law_log_stays_orderly(
    m: HubModel,
    id: Seq<char>,
    name: Seq<char>,
    text: Seq<char>,
    ts: i64,
    seq: u64,
)
    requires
        orderly(m),
        m.last_seq < u64::MAX,
    ensures
        orderly(after_send(m, id, name, text, ts)),
        orderly(after_ack(m, id, seq)),
        orderly(after_hello(m, id, name)),
{
    let e = next_entry(m, id, name, text, ts);
    let grown = m.log.push(e);
    let after = after_send(m, id, name, text, ts);
    let drop = if grown.len() > MAX_LOG {
        grown.len() - MAX_LOG
    } else {
        0
    };
    assert forall|i: int, j: int| #![trigger after.log[i], after.log[j]] 0 <= i < j < after.log.len() implies after.log[i].seq
        < after.log[j].seq by {
        assert(after.log[i] == grown[i + drop] && after.log[j] == grown[j + drop]);
        assert(grown[i + drop] == m.log[i + drop]);
        if j + drop < m.log.len() {
            assert(grown[j + drop] == m.log[j + drop]);
        }
    }
    assert forall|i: int| 0 <= i < after.log.len() implies (#[trigger] after.log[i]).seq <= after.last_seq by {
        assert(after.log[i] == grown[i + drop]);
        if i + drop < m.log.len() {
            assert(grown[i + drop] == m.log[i + drop]);
        }
    }
}

/// A message waits for whoever is not there: every other member who has not
/// acknowledged more finds it at the end of what it missed. What it missed
/// before is still in front of it, as long as the log has room, and that holds
/// of the sender too.
pub proof fn law_messages_wait(
    m: HubModel,
    from: Seq<char>,
    name: Seq<char>,
    text: Seq<char>,
    ts: i64,
    id: Seq<char>,
)
    requires
        m.last_seq < u64::MAX,
        m.log.len() <= MAX_LOG,
        cursor_of(m, id) <= m.last_seq,
    ensures
        ({
            let e = next_entry(m, from, name, text, ts);
            let after = after_send(m, from, name, text, ts);
            let before = missed(m.log, id, cursor_of(m, id));
            let now = missed(after.log, id, cursor_of(after, id));
            &&& id != from ==> now.len() > 0 && now.last() == e
            &&& m.log.len() < MAX_LOG ==> now == if id != from {
                before.push(e)
            } else {
                before
            }
        }),
{
    let e = next_entry(m, from, name, text, ts);
    let after = after_send(m, from, name, text, ts).log;
    reveal(Seq::filter);
    assert(after.last() == e);
    if m.log.len() < MAX_LOG {
        assert(after.drop_last() =~= m.log);
    }
}

/// A message that a member sends: who sends it, under which name, what it says
/// and when.
pub struct Sending {
    pub from: Seq<char>,
    pub name: Seq<char>,
    pub text: Seq<char>,
    pub ts: i64,
}

/// The hub after some messages.
pub open spec fn after_all(m: HubModel, sent: Seq<Sending>) -> HubModel
    decreases sent.len(),
{
    if sent.len() == 0 {
        m
    } else {
        let s = sent.last();
        after_send(after_all(m, sent.drop_last()), s.from, s.name, s.text, s.ts)
    }
}

/// The messages as they are kept, numbered from the last number on.
pub open spec fn entries_of(last_seq: u64, sent: Seq<Sending>) -> Seq<EntryModel> {
    Seq::new(
        sent.len(),
        |i: int|
            EntryModel {
                seq: (last_seq + i + 1) as u64,
                from: sent[i].from,
                name: sent[i].name,
                text: sent[i].text,
                ts: sent[i].ts,
            },
    )
}

/// Whoever was away gets everything: all messages that others sent meanwhile
/// wait in their order behind those missed before, each with its own number, as
/// long as the log has room. What the member itself sends meanwhile takes
/// nothing of that away.
pub proof fn law_everything_sent_waits(m: HubModel, sent: Seq<Sending>, id: Seq<char>)
    requires
        m.log.len() + sent.len() <= MAX_LOG,
        m.last_seq + sent.len() <= u64::MAX,
        cursor_of(m, id) <= m.last_seq,
    ensures
        after_all(m, sent).last_seq == m.last_seq + sent.len(),
        after_all(m, sent).log.len() == m.log.len() + sent.len(),
        cursor_of(after_all(m, sent), id) == cursor_of(m, id),
        missed(after_all(m, sent).log, id, cursor_of(m, id)) == missed(m.log, id, cursor_of(m, id)) + entries_of(
            m.last_seq,
            sent,
        ).filter(|e: EntryModel| e.from != id),
    decreases sent.len(),
{
    let others = |e: EntryModel| e.from != id;
    let cursor = cursor_of(m, id);
    reveal(Seq::filter);
    if sent.len() == 0 {
        assert(entries_of(m.last_seq, sent) =~= Seq::<EntryModel>::empty());
        assert(missed(m.log, id, cursor) + entries_of(m.last_seq, sent).filter(others) =~= missed(m.log, id, cursor));
    } else {
        let prior = sent.drop_last();
        let s = sent.last();
        law_everything_sent_waits(m, prior, id);
        let before = after_all(m, prior);
        law_messages_wait(before, s.from, s.name, s.text, s.ts, id);
        let e = next_entry(before, s.from, s.name, s.text, s.ts);
        let earlier = entries_of(m.last_seq, prior);
        let all = entries_of(m.last_seq, sent);
        assert(all =~= earlier.push(e));
        assert(all.drop_last() =~= earlier);
        assert((missed(m.log, id, cursor) + earlier.filter(others)).push(e) =~= missed(m.log, id, cursor)
            + earlier.filter(others).push(e));
    }
}

/// What can happen on a hub.
pub enum HubHappening {
    Comes { id: Seq<char>, name: Seq<char> },
    Goes { id: Seq<char> },
    Sends(Sending),
    Acknowledges { id: Seq<char>, seq: u64 },
}

/// The hub after some happenings.
pub open spec fn after_happenings(m: HubModel, happened: Seq<HubHappening>) -> HubModel
    decreases happened.len(),
{
    if happened.len() == 0 {
        m
    } else {
        let before = after_happenings(m, happened.drop_last());
        match happened.last() {
            HubHappening::Comes { id, name } => after_hello(before, id, name),
            HubHappening::Goes { id } => after_going(before, id),
            HubHappening::Sends(s) => after_send(before, s.from, s.name, s.text, s.ts),
            HubHappening::Acknowledges { id, seq } => after_ack(before, id, seq),
        }
    }
}

/// The highest number that `id` acknowledged among some happenings, from
/// `start` on.
pub open spec fn highest_ack(start: u64, happened: Seq<HubHappening>, id: Seq<char>) -> u64
    decreases happened.len(),
{
    if happened.len() == 0 {
        start
    } else {
        let before = highest_ack(start, happened.drop_last(), id);
        match happened.last() {
            HubHappening::Acknowledges { id: who, seq } if who == id && seq > before => seq,
            _ => before,
        }
    }
}

/// Whatever happens, the cursor of a member is the highest number that it has
/// acknowledged, and nothing else moves it.
pub proof fn law_cursor_is_the_highest_ack(m: HubModel, happened: Seq<HubHappening>, id: Seq<char>)
    ensures
        cursor_of(after_happenings(m, happened), id) == highest_ack(cursor_of(m, id), happened, id),
    decreases happened.len(),
{
    if happened.len() > 0 {
        law_cursor_is_the_highest_ack(m, happened.drop_last(), id);
    }
}

/// A message that is kept, and that a member has not acknowledged, is among what
/// it missed, unless it is its own.
pub proof fn law_unacknowledged_messages_are_sent_again(m: HubModel, id: Seq<char>, i: int)
    requires
        0 <= i < m.log.len(),
    ensures
        missed(m.log, id, cursor_of(m, id)).contains(m.log[i]) <==> m.log[i].seq > cursor_of(m, id) && m.log[i].from
            != id,
{
    let cursor = cursor_of(m, id);
    let wanted = |e: EntryModel| e.seq > cursor && e.from != id;
    if wanted(m.log[i]) {
        m.log.lemma_filter_contains(wanted, i);
    }
    let out = m.log.filter(wanted);
    if out.contains(m.log[i]) {
        let k = choose|k: int| 0 <= k < out.len() && out[k] == m.log[i];
        m.log.lemma_filter_pred(wanted, k);
    }
}

/// A full log loses its oldest message, and nothing else.
pub proof fn law_full_log_loses_the_oldest(
    m: HubModel,
    from: Seq<char>,
    name: Seq<char>,
    text: Seq<char>,
    ts: i64,
)
    requires
        m.last_seq < u64::MAX,
        m.log.len() == MAX_LOG,
    ensures
        after_send(m, from, name, text, ts).log == m.log.drop_first().push(next_entry(m, from, name, text, ts)),
{
    let e = next_entry(m, from, name, text, ts);
    assert(after_send(m, from, name, text, ts).log =~= m.log.drop_first().push(e));
}

/// Nobody hears its own messages again: a message does not go to its sender as
/// it comes, and no message of a member is among what that member missed.
pub proof fn law_senders_get_no_echo(m: HubModel, from: Seq<char>, targets: Seq<String>)
    requires
        are_targets(m.online, from, targets),
    ensures
        forall|i: int| 0 <= i < targets.len() ==> (#[trigger] targets[i])@ != from,
        forall|cursor: u64, i: int|
            0 <= i < missed(m.log, from, cursor).len() ==> (#[trigger] missed(m.log, from, cursor)[i]).from != from,
{
    assert forall|cursor: u64, i: int| 0 <= i < missed(m.log, from, cursor).len() implies (#[trigger] missed(
        m.log,
        from,
        cursor,
    )[i]).from != from by {
        m.log.lemma_filter_pred(|e: EntryModel| e.seq > cursor && e.from != from, i);
    }
}

/// Saying what one has only ever adds to it, and what was said to be had is not
/// sent again.
pub proof fn law_acks_only_add(m: HubModel, id: Seq<char>, seq: u64)
    ensures
        cursor_of(after_ack(m, id, seq), id) >= cursor_of(m, id),
        cursor_of(after_ack(m, id, seq), id) >= seq,
        forall|other: Seq<char>| other != id ==> #[trigger] cursor_of(after_ack(m, id, seq), other) == cursor_of(m, other),
        forall|i: int|
            0 <= i < missed(m.log, id, cursor_of(after_ack(m, id, seq), id)).len() ==> (#[trigger] missed(
                m.log,
                id,
                cursor_of(after_ack(m, id, seq), id),
            )[i]).seq > seq,
{
    let cursor = cursor_of(after_ack(m, id, seq), id);
    assert forall|i: int| 0 <= i < missed(m.log, id, cursor).len() implies (#[trigger] missed(m.log, id, cursor)[i]).seq
        > seq by {
        m.log.lemma_filter_pred(|e: EntryModel| e.seq > cursor && e.from != id, i);
    }
}

/// Whether a member comes, under some name.
pub open spec fn is_coming(h: HubHappening, id: Seq<char>) -> bool {
    h matches HubHappening::Comes { id: who, .. } && who == id
}

/// Whether a member has come at `i` and has not gone since.
pub open spec fn came_and_stayed(happened: Seq<HubHappening>, id: Seq<char>, i: int) -> bool {
    &&& 0 <= i < happened.len()
    &&& is_coming(happened[i], id)
    &&& forall|k: int| i < k < happened.len() ==> #[trigger] happened[k] != (HubHappening::Goes { id })
}

/// Whatever happens, those are connected who have come and not gone since, and those
/// who were there from the start and have not gone. Neither sending nor acknowledging
/// connects or disconnects anyone, and nobody comes or goes with another.
pub proof fn law_connected_are_those_who_came_and_stayed(m: HubModel, happened: Seq<HubHappening>, id: Seq<char>)
    ensures
        after_happenings(m, happened).online.contains(id) <==> {
            ||| exists|i: int| came_and_stayed(happened, id, i)
            ||| m.online.contains(id) && forall|k: int|
                0 <= k < happened.len() ==> #[trigger] happened[k] != (HubHappening::Goes { id })
        },
    decreases happened.len(),
{
    let n = happened.len() as int;
    if n > 0 {
        let prior = happened.drop_last();
        let last = happened.last();
        law_connected_are_those_who_came_and_stayed(m, prior, id);
        assert forall|k: int| 0 <= k < n - 1 implies happened[k] == #[trigger] prior[k] by {}
        if is_coming(last, id) {
            assert(came_and_stayed(happened, id, n - 1));
        } else if last == (HubHappening::Goes { id }) {
            assert(happened[n - 1] == last);
            assert forall|i: int| !came_and_stayed(happened, id, i) by {
                if 0 <= i < n - 1 {
                    assert(happened[n - 1] == (HubHappening::Goes { id }));
                }
            }
        } else {
            if exists|i: int| came_and_stayed(prior, id, i) {
                let i = choose|i: int| came_and_stayed(prior, id, i);
                assert forall|k: int| i < k < n implies #[trigger] happened[k] != (HubHappening::Goes { id }) by {
                    if k < n - 1 {
                        assert(prior[k] != (HubHappening::Goes { id }));
                    }
                }
                assert(came_and_stayed(happened, id, i));
            }
            if exists|i: int| came_and_stayed(happened, id, i) {
                let i = choose|i: int| came_and_stayed(happened, id, i);
                assert(i < n - 1);
                assert forall|k: int| i < k < n - 1 implies #[trigger] prior[k] != (HubHappening::Goes { id }) by {
                    assert(happened[k] == prior[k]);
                }
                assert(came_and_stayed(prior, id, i));
            }
            if forall|k: int| 0 <= k < n - 1 ==> #[trigger] prior[k] != (HubHappening::Goes { id }) {
                assert forall|k: int| 0 <= k < n implies #[trigger] happened[k] != (HubHappening::Goes { id }) by {
                    if k < n - 1 {
                        assert(prior[k] != (HubHappening::Goes { id }));
                    }
                }
            }
            if forall|k: int| 0 <= k < n ==> #[trigger] happened[k] != (HubHappening::Goes { id }) {
                assert forall|k: int| 0 <= k < n - 1 implies #[trigger] prior[k] != (HubHappening::Goes { id }) by {
                    assert(happened[k] == prior[k]);
                }
            }
        }
    }
}

/// A message goes out live to every other member who has come and not gone, once to
/// each, whatever else has happened in between.
pub proof fn law_messages_go_live_to_who_is_there(
    m: HubModel,
    happened: Seq<HubHappening>,
    from: Seq<char>,
    targets: Seq<String>,
    id: Seq<char>,
    i: int,
)
    requires
        are_targets(after_happenings(m, happened).online, from, targets),
        came_and_stayed(happened, id, i),
        id != from,
    ensures
        exists|k: int| 0 <= k < targets.len() && (#[trigger] targets[k])@ == id,
        forall|a: int, b: int|
            #![trigger targets[a], targets[b]]
            0 <= a < b < targets.len() ==> targets[a]@ != targets[b]@,
{
    law_connected_are_those_who_came_and_stayed(m, happened, id);
    assert(after_happenings(m, happened).online.contains(id));
}

/// A message has what was said in it, by whom, under which name and when, with the
/// number behind the last one. It is the newest of the log, and the hub goes on
/// counting from it. Who is connected, what they are called and what they have
/// acknowledged stays as it is.
pub proof fn law_messages_are_kept_as_said(
    m: HubModel,
    from: Seq<char>,
    name: Seq<char>,
    text: Seq<char>,
    ts: i64,
)
    requires
        m.last_seq < u64::MAX,
    ensures
        ({
            let after = after_send(m, from, name, text, ts);
            let e = after.log.last();
            &&& after.log.len() > 0
            &&& e == next_entry(m, from, name, text, ts)
            &&& e.seq == m.last_seq + 1 && e.from == from && e.name == name && e.text == text && e.ts == ts
            &&& after.last_seq == m.last_seq + 1
            &&& after.online == m.online
            &&& after.names == m.names
            &&& after.cursors == m.cursors
        }),
{
}

/// Of whatever was said the hub keeps the newest 20000 messages, in their order, and
/// all of them while there are no more.
pub proof fn law_log_keeps_the_newest(m: HubModel, from: Seq<char>, name: Seq<char>, text: Seq<char>, ts: i64, k: int)
    requires
        m.last_seq < u64::MAX,
        1 <= k <= m.log.len() + 1,
        k <= 20000,
    ensures
        ({
            let said = m.log.push(next_entry(m, from, name, text, ts));
            let kept = after_send(m, from, name, text, ts).log;
            &&& kept.len() == if said.len() <= 20000 {
                said.len()
            } else {
                20000nat
            }
            &&& kept[kept.len() - k] == said[said.len() - k]
        }),
{
}

/// Coming, going and acknowledging say nothing: the messages that are kept and their
/// numbers stay as they are. Coming and going acknowledge nothing, acknowledging and
/// going change no name, and coming changes the name of nobody else.
pub proof fn law_only_messages_change_the_log(m: HubModel, id: Seq<char>, name: Seq<char>, seq: u64, other: Seq<char>)
    ensures
        after_hello(m, id, name).log == m.log && after_hello(m, id, name).last_seq == m.last_seq,
        after_going(m, id).log == m.log && after_going(m, id).last_seq == m.last_seq,
        after_ack(m, id, seq).log == m.log && after_ack(m, id, seq).last_seq == m.last_seq,
        cursor_of(after_hello(m, id, name), other) == cursor_of(m, other),
        cursor_of(after_going(m, id), other) == cursor_of(m, other),
        after_going(m, id).names == m.names,
        after_ack(m, id, seq).names == m.names,
        after_hello(m, id, name).names.contains_key(id) && after_hello(m, id, name).names[id] == name,
        other != id ==> (after_hello(m, id, name).names.contains_key(other) <==> m.names.contains_key(other)),
        other != id && m.names.contains_key(other) ==> after_hello(m, id, name).names[other] == m.names[other],
{
}

/// What a member is sent when it comes are messages that are kept, in their order.
pub proof fn law_missed_messages_keep_their_order(m: HubModel, id: Seq<char>, i: int, j: int)
    requires
        orderly(m),
        0 <= i < j < missed(m.log, id, cursor_of(m, id)).len(),
    ensures
        ({
            let out = missed(m.log, id, cursor_of(m, id));
            &&& out[i].seq < out[j].seq
            &&& m.log.contains(out[i]) && m.log.contains(out[j])
        }),
{
    let cursor = cursor_of(m, id);
    lemma_missed_rises(m.log, id, cursor, i, j);
}

/// What is picked out of a rising log rises, and is of the log.
proof fn lemma_missed_rises(log: Seq<EntryModel>, id: Seq<char>, cursor: u64, i: int, j: int)
    requires
        forall|a: int, b: int| #![trigger log[a], log[b]] 0 <= a < b < log.len() ==> log[a].seq < log[b].seq,
        0 <= i < j < missed(log, id, cursor).len(),
    ensures
        missed(log, id, cursor)[i].seq < missed(log, id, cursor)[j].seq,
        log.contains(missed(log, id, cursor)[i]),
        log.contains(missed(log, id, cursor)[j]),
    decreases log.len(),
{
    reveal(Seq::filter);
    let wanted = |e: EntryModel| e.seq > cursor && e.from != id;
    let out = missed(log, id, cursor);
    let rest = log.drop_last();
    let before = rest.filter(wanted);
    assert forall|a: int, b: int| #![trigger rest[a], rest[b]] 0 <= a < b < rest.len() implies rest[a].seq < rest[b].seq by {
        assert(rest[a] == log[a] && rest[b] == log[b]);
    }
    assert(out[i] == before[i]);
    if j < before.len() {
        lemma_missed_rises(rest, id, cursor, i, j);
        assert(out[j] == before[j]);
        let a = choose|a: int| 0 <= a < rest.len() && rest[a] == before[i];
        let b = choose|b: int| 0 <= b < rest.len() && rest[b] == before[j];
        assert(log[a] == out[i] && log[b] == out[j]);
    } else {
        assert(before.contains(before[i]));
        rest.lemma_filter_contains_rev(wanted, before[i]);
        let a = choose|a: int| 0 <= a < rest.len() && rest[a] == before[i];
        assert(log[a] == out[i]);
        assert(log[log.len() - 1] == out[j]);
        assert(log[a].seq < log[log.len() - 1].seq);
    }
}

/// An option with its value in front of other arguments sets that one setting, which
/// later ones can set again. An argument that is no option changes nothing, and
/// neither does having no arguments. Without a value, `--word` and `--data` take back
/// what was set and `--bind` changes nothing.
pub proof fn law_options_set_what_they_name(c: ConfigModel, value: Seq<char>, rest: Seq<Seq<char>>)
    ensures
        with_args(c, Seq::empty(), 0) == c,
        with_args(c, seq!["--word"@, value] + rest, 0) == with_args(ConfigModel { word: Some(value), ..c }, rest, 0),
        with_args(c, seq!["--bind"@, value] + rest, 0) == with_args(ConfigModel { bind: value, ..c }, rest, 0),
        with_args(c, seq!["--data"@, value] + rest, 0) == with_args(ConfigModel { data: Some(value), ..c }, rest, 0),
        with_args(c, seq!["--word"@], 0) == (ConfigModel { word: None, ..c }),
        with_args(c, seq!["--bind"@], 0) == c,
        with_args(c, seq!["--data"@], 0) == (ConfigModel { data: None, ..c }),
        value != "--word"@ && value != "--bind"@ && value != "--data"@ ==> with_args(c, seq![value] + rest, 0)
            == with_args(c, rest, 0),
{
    reveal_strlit("--word");
    reveal_strlit("--bind");
    reveal_strlit("--data");
    assert("--word"@[2] != "--bind"@[2] && "--word"@[2] != "--data"@[2] && "--bind"@[2] != "--data"@[2]);
    lemma_args_behind(ConfigModel { word: Some(value), ..c }, seq!["--word"@, value], rest, 0);
    lemma_args_behind(ConfigModel { bind: value, ..c }, seq!["--bind"@, value], rest, 0);
    lemma_args_behind(ConfigModel { data: Some(value), ..c }, seq!["--data"@, value], rest, 0);
    lemma_args_behind(c, seq![value], rest, 0);
    assert((seq!["--word"@, value] + rest)[0] == "--word"@ && (seq!["--word"@, value] + rest)[1] == value);
    assert((seq!["--bind"@, value] + rest)[0] == "--bind"@ && (seq!["--bind"@, value] + rest)[1] == value);
    assert((seq!["--data"@, value] + rest)[0] == "--data"@ && (seq!["--data"@, value] + rest)[1] == value);
    assert((seq![value] + rest)[0] == value);
    reveal_with_fuel(with_args, 3);
}

/// What arguments make of a configuration does not depend on those in front.
proof fn lemma_args_behind(c: ConfigModel, front: Seq<Seq<char>>, rest: Seq<Seq<char>>, at: int)
    requires
        0 <= at,
    ensures
        with_args(c, front + rest, front.len() + at) == with_args(c, rest, at),
    decreases (if at < rest.len() { rest.len() - at } else { 0 }),
{
    let all = front + rest;
    let here = front.len() + at;
    if at < rest.len() {
        assert(all[here] == rest[at]);
        let value = if at + 1 < rest.len() {
            Some(rest[at + 1])
        } else {
            None
        };
        if at + 1 < rest.len() {
            assert(all[here + 1] == rest[at + 1]);
        }
        lemma_args_behind(ConfigModel { word: value, ..c }, front, rest, at + 2);
        lemma_args_behind(ConfigModel { data: value, ..c }, front, rest, at + 2);
        if value is Some {
            lemma_args_behind(ConfigModel { bind: value->0, ..c }, front, rest, at + 2);
        }
        lemma_args_behind(c, front, rest, at + 1);
    }
}

/// A word has to have something in it to be shown: one with any character that is not
/// white space is used as it was given, any other is none.
pub proof fn law_words_are_used_as_given(word: Seq<char>)
    ensures
        usable(Some(word)) is None <==> forall|i: int| 0 <= i < word.len() ==> text::is_white_space(#[trigger] word[i]),
        usable(Some(word)) is Some ==> usable(Some(word)) == Some(word),
        usable(None) is None,
{
    text::law_trimming_takes_the_white_space_around(word);
}

/// What the environment says is what the hub starts from: the word and the place of
/// its data as they are given, and every interface where no address is.
pub proof fn law_the_environment_is_used(word: Option<Seq<char>>, bind: Seq<char>, data: Option<Seq<char>>)
    ensures
        from_env(word, Some(bind), data) == (ConfigModel { word, bind, data }),
        from_env(word, None, data) == (ConfigModel { word, bind: "0.0.0.0:9000"@, data }),
{
}

/// Who says hello is connected from then on, under the name that they give, and is told
/// what they have acknowledged. The log and what anyone has acknowledged stay as they
/// are, and nobody else comes, goes or is renamed.
pub proof fn law_hello_connects(
    m: HubModel,
    id: String,
    name: String,
    ts: i64,
    after: HubModel,
    now: Client,
    r: Reaction,
    other: Seq<char>,
)
    requires
        reacts(m, Client::New, Some(ClientMsg::Hello { id, name }), ts, after, now, r),
    ensures
        client_id(now) == Some(id@),
        r == (Reaction::Greet { cursor: cursor_of(m, id@) }),
        after.online.contains(id@),
        after.names.contains_key(id@) && after.names[id@] == name@,
        after.log == m.log && after.last_seq == m.last_seq && after.cursors == m.cursors,
        other != id@ ==> {
            &&& after.online.contains(other) == m.online.contains(other)
            &&& after.names.contains_key(other) == m.names.contains_key(other)
            &&& after.names[other] == m.names[other]
        },
{
    lemma_single(m, happening(Client::New, Some(ClientMsg::Hello { id, name }), ts));
}

/// What a member sends is delivered, as it was said and as the newest of the log, to
/// exactly the others who are connected, once to each.
pub proof fn law_what_members_send_is_delivered(
    m: HubModel,
    c: Client,
    text: String,
    ts: i64,
    after: HubModel,
    now: Client,
    r: Reaction,
    id: Seq<char>,
)
    requires
        c is Member,
        m.last_seq < u64::MAX,
        reacts(m, c, Some(ClientMsg::Send { text }), ts, after, now, r),
    ensures
        now == c,
        r is Deliver,
        (exists|k: int| 0 <= k < r->targets@.len() && (#[trigger] r->targets@[k])@ == id) <==> {
            &&& m.online.contains(id)
            &&& id != client_id(c)->0
        },
        forall|a: int, b: int|
            #![trigger r->targets@[a], r->targets@[b]]
            0 <= a < b < r->targets@.len() ==> r->targets@[a]@ != r->targets@[b]@,
        r->msg@ == ServerMsgModel::Msg(
            EntryModel {
                seq: (m.last_seq + 1) as u64,
                from: client_id(c)->0,
                name: c->name@,
                text: text@,
                ts,
            },
        ),
        after.log.len() > 0 && r->msg@ == ServerMsgModel::Msg(after.log.last()),
{
    lemma_single(m, happening(c, Some(ClientMsg::Send { text }), ts));
    if m.online.contains(id) && id != client_id(c)->0 {
        assert(exists|k: int| 0 <= k < r->targets@.len() && (#[trigger] r->targets@[k])@ == id);
    }
}

/// What a member acknowledges is kept, unless it has acknowledged more, and nothing else
/// changes: neither what others have acknowledged nor who is there nor the log.
pub proof fn law_acknowledging_is_kept(
    m: HubModel,
    c: Client,
    seq: u64,
    ts: i64,
    after: HubModel,
    now: Client,
    r: Reaction,
    other: Seq<char>,
)
    requires
        c is Member,
        reacts(m, c, Some(ClientMsg::Ack { seq }), ts, after, now, r),
    ensures
        now == c,
        r is Keep,
        cursor_of(after, client_id(c)->0) >= seq,
        cursor_of(after, client_id(c)->0) >= cursor_of(m, client_id(c)->0),
        cursor_of(after, client_id(c)->0) == seq || cursor_of(after, client_id(c)->0) == cursor_of(
            m,
            client_id(c)->0,
        ),
        other != client_id(c)->0 ==> cursor_of(after, other) == cursor_of(m, other),
        after.online == m.online && after.names == m.names && after.log == m.log && after.last_seq == m.last_seq,
{
    lemma_single(m, happening(c, Some(ClientMsg::Ack { seq }), ts));
}

/// Nothing comes of what cannot be understood, of what is said before hello, and of a
/// second hello.
pub proof fn law_the_rest_is_passed_over(
    m: HubModel,
    c: Client,
    msg: Option<ClientMsg>,
    ts: i64,
    after: HubModel,
    now: Client,
    r: Reaction,
)
    requires
        reacts(m, c, msg, ts, after, now, r),
        msg is None || (c is New && msg->0 !is Hello) || (c is Member && msg->0 is Hello),
    ensures
        after == m,
        now == c,
        r is Ignore,
{
    lemma_single(m, happening(c, msg, ts));
}

/// A greeting is a welcome and, behind it, exactly the messages of others that were not
/// acknowledged yet: each of those that the log has, and nothing else.
pub proof fn law_greetings_bring_what_was_missed(log: Seq<EntryModel>, id: Seq<char>, cursor: u64, e: EntryModel)
    ensures
        greets(log, id, cursor).len() > 0,
        greets(log, id, cursor)[0] == ServerMsgModel::Welcome,
        (exists|i: int| 1 <= i < greets(log, id, cursor).len() && #[trigger] greets(log, id, cursor)[i] == ServerMsgModel::Msg(e))
            <==> log.contains(e) && e.seq > cursor && e.from != id,
        forall|i: int| 1 <= i < greets(log, id, cursor).len() ==> (#[trigger] greets(log, id, cursor)[i]) is Msg,
{
    let wanted = |x: EntryModel| x.seq > cursor && x.from != id;
    let found = log.filter(wanted);
    let out = greets(log, id, cursor);
    assert(missed(log, id, cursor) == found);
    assert forall|i: int| 1 <= i < out.len() implies #[trigger] out[i] == ServerMsgModel::Msg(found[i - 1]) by {}
    if exists|i: int| 1 <= i < out.len() && #[trigger] out[i] == ServerMsgModel::Msg(e) {
        let i = choose|i: int| 1 <= i < out.len() && #[trigger] out[i] == ServerMsgModel::Msg(e);
        assert(found[i - 1] == e);
        log.lemma_filter_contains_rev(wanted, e);
        log.lemma_filter_pred(wanted, i - 1);
    }
    if log.contains(e) && e.seq > cursor && e.from != id {
        let k = choose|k: int| 0 <= k < log.len() && log[k] == e;
        log.lemma_filter_contains(wanted, k);
        let j = choose|j: int| 0 <= j < found.len() && found[j] == e;
        assert(out[j + 1] == ServerMsgModel::Msg(e));
    }
}

} // verus!
