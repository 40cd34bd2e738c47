//! What was said, kept by conversation, and whom we know.
//!
//! A conversation is found by its id, never by its title: two chats that share
//! a name stay two. This is the store in memory; whoever owns it writes it out
//! after every change.
use vstd::prelude::*;
use vstd::string::*;

use crate::assoc;
use crate::assoc::Assoc;
use crate::contacts::{Contact, ContactModel};
use crate::text;

verus! {

/// A message that was kept.
#[derive(Debug, PartialEq)]
pub struct StoredMessage {
    /// Who said it, as it is shown.
    pub from: String,
    pub text: String,
    /// When, in Unix seconds.
    pub ts: i64,
    pub incoming: bool,
}

/// A message that was kept, as contracts see it.
pub struct MessageModel {
    pub from: Seq<char>,
    pub text: Seq<char>,
    pub ts: i64,
    pub incoming: bool,
}

impl View for StoredMessage {
    type V = MessageModel;

    open spec fn view(&self) -> MessageModel {
        MessageModel { from: self.from@, text: self.text@, ts: self.ts, incoming: self.incoming }
    }
}

impl Clone for StoredMessage {
    fn clone(&self) -> (r: Self)
        ensures
            r@ == self@,
    {
        StoredMessage {
            from: self.from.clone(),
            text: self.text.clone(),
            ts: self.ts,
            incoming: self.incoming,
        }
    }
}

/// A conversation: its title, and its messages in order.
#[derive(Debug, PartialEq)]
pub struct Conversation {
    pub title: String,
    pub messages: Vec<StoredMessage>,
}

/// A conversation, as contracts see it.
pub struct ConversationModel {
    pub title: Seq<char>,
    pub messages: Seq<MessageModel>,
}

/// Messages, as contracts see them.
pub open spec fn messages_view(v: Seq<StoredMessage>) -> Seq<MessageModel> {
    v.map_values(|m: StoredMessage| m@)
}

impl View for Conversation {
    type V = ConversationModel;

    open spec fn view(&self) -> ConversationModel {
        ConversationModel { title: self.title@, messages: messages_view(self.messages@) }
    }
}

/// Copies of messages.
fn clone_messages(v: &Vec<StoredMessage>) -> (r: Vec<StoredMessage>)
    ensures
        messages_view(r@) == messages_view(v@),
{
    let mut out: Vec<StoredMessage> = Vec::new();
    let mut i: usize = 0;
    while i < v.len()
        invariant
            i <= v@.len(),
            messages_view(out@) == messages_view(v@).take(i as int),
        decreases v.len() - i,
    {
        let ghost before = messages_view(out@);
        let m = v[i].clone();
        out.push(m);
        assert(messages_view(out@) =~= before.push(v@[i as int]@));
        i += 1;
        assert(messages_view(out@) =~= messages_view(v@).take(i as int));
    }
    assert(messages_view(out@) =~= messages_view(v@));
    out
}

impl Clone for Conversation {
    fn clone(&self) -> (r: Self)
        ensures
            r@ == self@,
    {
        Conversation { title: self.title.clone(), messages: clone_messages(&self.messages) }
    }
}

impl Default for Conversation {
    fn default() -> (r: Self)
        ensures
            r@.title == Seq::<char>::empty(),
            r@.messages == Seq::<MessageModel>::empty(),
    {
        let r = Conversation { title: String::new(), messages: Vec::new() };
        assert(r@.messages =~= Seq::<MessageModel>::empty());
        r
    }
}

/// A conversation in a line, for a list.
#[derive(Debug, Clone, PartialEq)]
pub struct ConversationSummary {
    pub id: String,
    pub title: String,
    /// The last message.
    pub last: String,
    /// How many messages there are.
    pub count: usize,
    /// When the last message came.
    pub last_ts: i64,
}

/// A conversation in a line, as contracts see it.
pub struct SummaryModel {
    pub id: Seq<char>,
    pub title: Seq<char>,
    pub last: Seq<char>,
    pub count: nat,
    pub last_ts: i64,
}

impl View for ConversationSummary {
    type V = SummaryModel;

    open spec fn view(&self) -> SummaryModel {
        SummaryModel {
            id: self.id@,
            title: self.title@,
            last: self.last@,
            count: self.count as nat,
            last_ts: self.last_ts,
        }
    }
}

/// The line of a conversation.
pub open spec fn summary_of(id: Seq<char>, c: ConversationModel) -> SummaryModel {
    SummaryModel {
        id,
        title: c.title,
        last: if c.messages.len() > 0 {
            c.messages.last().text
        } else {
            Seq::empty()
        },
        count: c.messages.len(),
        last_ts: if c.messages.len() > 0 {
            c.messages.last().ts
        } else {
            0
        },
    }
}

/// Whether a line stands above another: the later one does, and of two that
/// are equally late the one whose id comes first.
pub open spec fn above(a: SummaryModel, b: SummaryModel) -> bool {
    a.last_ts > b.last_ts || (a.last_ts == b.last_ts && text::before(a.id, b.id))
}

/// Whether lines stand in their order.
pub open spec fn in_order(v: Seq<ConversationSummary>) -> bool {
    forall|i: int, j: int| #![trigger v[i], v[j]] 0 <= i < j < v.len() ==> above(v[i]@, v[j]@)
}

/// Whether saved peers stand in the order of their names.
pub open spec fn by_name(v: Seq<(String, Contact)>) -> bool {
    forall|i: int, j: int| #![trigger v[i], v[j]] 0 <= i < j < v.len() ==> text::before(v[i].0@, v[j].0@)
}

/// Why a change is refused.
#[derive(Debug, Clone, Copy, PartialEq, Eq, Structural)]
pub enum HistoryError {
    /// A contact has to have a name.
    EmptyName,
}

impl HistoryError {
    /// The error in words.
    pub fn to_string(&self) -> (r: String)
        ensures
            r@ == "contact name must not be empty"@,
    {
        "contact name must not be empty".to_owned()
    }
}

/// The store.
pub struct History {
    conversations: Assoc<String, Conversation>,
    contacts: Assoc<String, Contact>,
}

/// The store, as contracts see it.
pub struct HistoryModel {
    pub conversations: Map<Seq<char>, ConversationModel>,
    pub contacts: Map<Seq<char>, ContactModel>,
}

impl View for History {
    type V = HistoryModel;

    closed spec fn view(&self) -> HistoryModel {
        HistoryModel {
            conversations: self.conversations@.map_values(|c: Conversation| c@),
            contacts: self.contacts@.map_values(|c: Contact| c@),
        }
    }
}

/// The conversation as it is, or an empty one where there is none yet.
pub open spec fn conversation_or_new(m: HistoryModel, id: Seq<char>) -> ConversationModel {
    if m.conversations.contains_key(id) {
        m.conversations[id]
    } else {
        ConversationModel { title: Seq::empty(), messages: Seq::empty() }
    }
}

/// The store after a message: its conversation has the title given with it,
/// and one message more.
pub open spec fn appended(m: HistoryModel, id: Seq<char>, title: Seq<char>, msg: MessageModel) -> HistoryModel {
    HistoryModel {
        conversations: m.conversations.insert(
            id,
            ConversationModel { title, messages: conversation_or_new(m, id).messages.push(msg) },
        ),
        ..m
    }
}

/// The store after a conversation was deleted.
pub open spec fn forgotten(m: HistoryModel, id: Seq<char>) -> HistoryModel {
    HistoryModel { conversations: m.conversations.remove(id), ..m }
}

/// The store after a peer was saved. There is none where the name is nothing but white
/// space: such a peer is not saved.
pub open spec fn with_contact(m: HistoryModel, name: Seq<char>, address: Seq<char>) -> Option<HistoryModel> {
    if text::trimmed(name).len() > 0 {
        Some(
            HistoryModel {
                contacts: m.contacts.insert(name, ContactModel { address, fingerprint: None }),
                ..m
            },
        )
    } else {
        None
    }
}

/// The store after a saved peer was removed.
pub open spec fn without_contact(m: HistoryModel, name: Seq<char>) -> HistoryModel {
    HistoryModel { contacts: m.contacts.remove(name), ..m }
}

/// The conversations of a list, by their ids.
pub open spec fn conversations_of(v: Seq<(String, Conversation)>) -> Map<Seq<char>, ConversationModel>
    decreases v.len(),
{
    if v.len() == 0 {
        Map::empty()
    } else {
        conversations_of(v.drop_last()).insert(v.last().0@, v.last().1@)
    }
}

/// The saved peers of a list, by their names.
pub open spec fn contacts_of(v: Seq<(String, Contact)>) -> Map<Seq<char>, ContactModel>
    decreases v.len(),
{
    if v.len() == 0 {
        Map::empty()
    } else {
        contacts_of(v.drop_last()).insert(v.last().0@, v.last().1@)
    }
}

/// The store that is kept as a list of conversations and a list of saved peers.
pub open spec fn store_of(conversations: Seq<(String, Conversation)>, contacts: Seq<(String, Contact)>) -> HistoryModel {
    HistoryModel { conversations: conversations_of(conversations), contacts: contacts_of(contacts) }
}

/// A list in which no name stands twice has every saved peer of it.
proof fn lemma_contacts_of(v: Seq<(String, Contact)>, name: Seq<char>)
    requires
        forall|i: int, j: int| #![trigger v[i], v[j]] 0 <= i < j < v.len() ==> v[i].0@ != v[j].0@,
    ensures
        contacts_of(v).contains_key(name) <==> names(v, name),
        forall|k: int| #![trigger v[k]] 0 <= k < v.len() && v[k].0@ == name ==> contacts_of(v)[name] == v[k].1@,
    decreases v.len(),
{
    if v.len() > 0 {
        let rest = v.drop_last();
        assert forall|i: int, j: int| #![trigger rest[i], rest[j]] 0 <= i < j < rest.len() implies rest[i].0@
            != rest[j].0@ by {
            assert(rest[i] == v[i] && rest[j] == v[j]);
        }
        lemma_contacts_of(rest, name);
        if names(rest, name) {
            let k = choose|k: int| 0 <= k < rest.len() && (#[trigger] rest[k]).0@ == name;
            assert(v[k].0@ == name);
        }
        if names(v, name) && v.last().0@ != name {
            let k = choose|k: int| 0 <= k < v.len() && (#[trigger] v[k]).0@ == name;
            assert(rest[k].0@ == name);
        }
        if v.last().0@ == name {
            assert(v[v.len() - 1].0@ == name);
        }
        assert forall|k: int| #![trigger v[k]] 0 <= k < v.len() && v[k].0@ == name implies contacts_of(v)[name]
            == v[k].1@ by {
            if k < rest.len() {
                assert(rest[k] == v[k]);
                assert(v[k].0@ != v[v.len() - 1].0@);
            }
        }
    }
}

/// Whether there is a line of the conversation `id`.
pub open spec fn lists(v: Seq<ConversationSummary>, id: Seq<char>) -> bool {
    exists|k: int| 0 <= k < v.len() && (#[trigger] v[k])@.id == id
}

/// Whether there is a saved peer of the name `name`.
pub open spec fn names(v: Seq<(String, Contact)>, name: Seq<char>) -> bool {
    exists|k: int| 0 <= k < v.len() && (#[trigger] v[k]).0@ == name
}

/// Whether `key` is one of the first `n` keys.
spec fn among<V>(pairs: Seq<(String, V)>, n: int, key: Seq<char>) -> bool {
    exists|j: int| 0 <= j < n && (#[trigger] pairs[j]).0@ == key
}

/// The first `n + 1` keys are the first `n`, and one more.
proof fn lemma_among<V>(pairs: Seq<(String, V)>, n: int)
    requires
        0 <= n < pairs.len(),
        assoc::distinct(pairs),
    ensures
        forall|key: Seq<char>|
            #[trigger] among(pairs, n + 1, key) <==> among(pairs, n, key) || key == pairs[n].0@,
        !among(pairs, n, pairs[n].0@),
{
    assert forall|key: Seq<char>| #[trigger] among(pairs, n + 1, key) <==> among(pairs, n, key) || key
        == pairs[n].0@ by {
        if among(pairs, n + 1, key) {
            let j = choose|j: int| 0 <= j < n + 1 && (#[trigger] pairs[j]).0@ == key;
            if j < n {
                assert(pairs[j].0@ == key);
            }
        }
        if among(pairs, n, key) {
            let j = choose|j: int| 0 <= j < n && (#[trigger] pairs[j]).0@ == key;
            assert(pairs[j].0@ == key);
        }
        assert(pairs[n].0@ == pairs[n].0@);
    }
    if among(pairs, n, pairs[n].0@) {
        let j = choose|j: int| 0 <= j < n && (#[trigger] pairs[j]).0@ == pairs[n].0@;
        assert(pairs[j].0@ != pairs[n].0@);
    }
}

/// All keys are the keys of the map.
proof fn lemma_among_all<V>(pairs: Seq<(String, V)>, key: Seq<char>)
    requires
        assoc::pairs_map(pairs).contains_key(key),
    ensures
        among(pairs, pairs.len() as int, key),
{
    let j = choose|j: int| assoc::at_key(pairs, key, j);
    assert(assoc::at_key(pairs, key, j));
    assert(pairs[j].0@ == key);
}

/// Puts a line where it belongs.
fn insert_summary(out: &mut Vec<ConversationSummary>, s: ConversationSummary)
    requires
        in_order(old(out)@),
        !lists(old(out)@, s@.id),
    ensures
        in_order(final(out)@),
        final(out)@.len() == old(out)@.len() + 1,
        forall|k: int|
            0 <= k < final(out)@.len() ==> #[trigger] final(out)@[k] == s || old(out)@.contains(final(out)@[k]),
        forall|id: Seq<char>| #[trigger] lists(final(out)@, id) <==> lists(old(out)@, id) || id == s@.id,
{
    let ghost before = out@;
    let mut p: usize = 0;
    while p < out.len() && (out[p].last_ts > s.last_ts || (out[p].last_ts == s.last_ts && text::comes_before(
        out[p].id.as_str(),
        s.id.as_str(),
    )))
        invariant
            p <= out@.len(),
            out@ == before,
            forall|k: int| 0 <= k < p ==> above((#[trigger] before[k])@, s@),
        decreases out.len() - p,
    {
        p += 1;
    }
    proof {
        assert forall|k: int| p <= k < before.len() implies above(s@, (#[trigger] before[k])@) by {
            text::lemma_before_total(before[p as int]@.id, s@.id);
            assert(above(s@, before[p as int]@));
            if k > p {
                assert(above(before[p as int]@, before[k]@));
                if s@.last_ts == before[k]@.last_ts {
                    text::lemma_before_transitive(s@.id, before[p as int]@.id, before[k]@.id);
                }
            }
        }
    }
    out.insert(p, s);
    proof {
        let now = out@;
        assert(now =~= before.insert(p as int, s));
        assert(now[p as int] == s);
        assert forall|k: int| 0 <= k < now.len() implies #[trigger] now[k] == s || before.contains(now[k]) by {
            if k < p {
                assert(now[k] == before[k]);
            } else if k > p {
                assert(now[k] == before[k - 1]);
            }
        }
        assert forall|id: Seq<char>| #[trigger] lists(now, id) <==> lists(before, id) || id == s@.id by {
            if lists(before, id) {
                let k = choose|k: int| 0 <= k < before.len() && (#[trigger] before[k])@.id == id;
                if k < p {
                    assert(now[k] == before[k]);
                } else {
                    assert(now[k + 1] == before[k]);
                }
            }
            if lists(now, id) {
                let k = choose|k: int| 0 <= k < now.len() && (#[trigger] now[k])@.id == id;
                if k < p {
                    assert(now[k] == before[k]);
                } else if k > p {
                    assert(now[k] == before[k - 1]);
                }
            }
        }
        assert forall|i: int, j: int| #![trigger now[i], now[j]] 0 <= i < j < now.len() implies above(
            now[i]@,
            now[j]@,
        ) by {
            if j < p {
                assert(now[i] == before[i] && now[j] == before[j]);
            } else if j == p {
                assert(now[i] == before[i]);
            } else if i == p {
                assert(now[j] == before[j - 1]);
            } else {
                let ki = if i < p {
                    i
                } else {
                    i - 1
                };
                assert(now[i] == before[ki] && now[j] == before[j - 1]);
            }
        }
    }
}

/// Puts a saved peer where its name belongs.
fn insert_contact(out: &mut Vec<(String, Contact)>, c: (String, Contact))
    requires
        by_name(old(out)@),
        !names(old(out)@, c.0@),
    ensures
        by_name(final(out)@),
        final(out)@.len() == old(out)@.len() + 1,
        forall|k: int|
            0 <= k < final(out)@.len() ==> #[trigger] final(out)@[k] == c || old(out)@.contains(final(out)@[k]),
        forall|name: Seq<char>| #[trigger] names(final(out)@, name) <==> names(old(out)@, name) || name == c.0@,
{
    let ghost before = out@;
    let mut p: usize = 0;
    while p < out.len() && text::comes_before(out[p].0.as_str(), c.0.as_str())
        invariant
            p <= out@.len(),
            out@ == before,
            forall|k: int| 0 <= k < p ==> text::before((#[trigger] before[k]).0@, c.0@),
        decreases out.len() - p,
    {
        p += 1;
    }
    proof {
        assert forall|k: int| p <= k < before.len() implies text::before(c.0@, (#[trigger] before[k]).0@) by {
            text::lemma_before_total(before[p as int].0@, c.0@);
            if k > p {
                assert(text::before(before[p as int].0@, before[k].0@));
                text::lemma_before_transitive(c.0@, before[p as int].0@, before[k].0@);
            }
        }
    }
    out.insert(p, c);
    proof {
        let now = out@;
        assert(now =~= before.insert(p as int, c));
        assert(now[p as int] == c);
        assert forall|k: int| 0 <= k < now.len() implies #[trigger] now[k] == c || before.contains(now[k]) by {
            if k < p {
                assert(now[k] == before[k]);
            } else if k > p {
                assert(now[k] == before[k - 1]);
            }
        }
        assert forall|name: Seq<char>| #[trigger] names(now, name) <==> names(before, name) || name == c.0@ by {
            if names(before, name) {
                let k = choose|k: int| 0 <= k < before.len() && (#[trigger] before[k]).0@ == name;
                if k < p {
                    assert(now[k] == before[k]);
                } else {
                    assert(now[k + 1] == before[k]);
                }
            }
            if names(now, name) {
                let k = choose|k: int| 0 <= k < now.len() && (#[trigger] now[k]).0@ == name;
                if k < p {
                    assert(now[k] == before[k]);
                } else if k > p {
                    assert(now[k] == before[k - 1]);
                }
            }
        }
        assert forall|i: int, j: int| #![trigger now[i], now[j]] 0 <= i < j < now.len() implies text::before(
            now[i].0@,
            now[j].0@,
        ) by {
            if j < p {
                assert(now[i] == before[i] && now[j] == before[j]);
            } else if j == p {
                assert(now[i] == before[i]);
            } else if i == p {
                assert(now[j] == before[j - 1]);
            } else {
                let ki = if i < p {
                    i
                } else {
                    i - 1
                };
                assert(now[i] == before[ki] && now[j] == before[j - 1]);
            }
        }
    }
}

impl History {
    /// An empty store.
    pub fn new() -> (r: Self)
        ensures
            r@.conversations == Map::<Seq<char>, ConversationModel>::empty(),
            r@.contacts == Map::<Seq<char>, ContactModel>::empty(),
    {
        let r = History { conversations: Assoc::new(), contacts: Assoc::new() };
        proof {
            assert(r@.conversations =~= Map::<Seq<char>, ConversationModel>::empty());
            assert(r@.contacts =~= Map::<Seq<char>, ContactModel>::empty());
        }
        r
    }

    /// Puts a conversation back as it was kept.
    pub fn restore_conversation(&mut self, id: String, conversation: Conversation)
        ensures
            final(self)@ == (HistoryModel {
                conversations: old(self)@.conversations.insert(id@, conversation@),
                ..old(self)@
            }),
    {
        let ghost before = self@;
        let ghost c = conversation@;
        self.conversations.insert(id, conversation);
        assert(self@.conversations =~= before.conversations.insert(id@, c));
    }

    /// Puts a saved peer back as it was kept.
    pub fn restore_contact(&mut self, name: String, contact: Contact)
        ensures
            final(self)@ == (HistoryModel {
                contacts: old(self)@.contacts.insert(name@, contact@),
                ..old(self)@
            }),
    {
        let ghost before = self@;
        let ghost c = contact@;
        self.contacts.insert(name, contact);
        assert(self@.contacts =~= before.contacts.insert(name@, c));
    }

    /// The store that was kept as a list of conversations and a list of saved
    /// peers.
    pub fn from_parts(conversations: Vec<(String, Conversation)>, contacts: Vec<(String, Contact)>) -> (r: Self)
        ensures
            r@ == store_of(conversations@, contacts@),
    {
        let mut r = History::new();
        let mut i: usize = 0;
        assert(conversations@.take(0) =~= Seq::<(String, Conversation)>::empty());
        assert(contacts@.take(0) =~= Seq::<(String, Contact)>::empty());
        while i < conversations.len()
            invariant
                i <= conversations@.len(),
                r@ == store_of(conversations@.take(i as int), contacts@.take(0)),
            decreases conversations.len() - i,
        {
            r.restore_conversation(conversations[i].0.clone(), conversations[i].1.clone());
            i += 1;
            assert(conversations@.take(i as int).drop_last() =~= conversations@.take(i - 1));
        }
        assert(conversations@.take(i as int) =~= conversations@);
        let mut j: usize = 0;
        while j < contacts.len()
            invariant
                j <= contacts@.len(),
                r@ == store_of(conversations@, contacts@.take(j as int)),
            decreases contacts.len() - j,
        {
            r.restore_contact(contacts[j].0.clone(), contacts[j].1.clone());
            j += 1;
            assert(contacts@.take(j as int).drop_last() =~= contacts@.take(j - 1));
        }
        assert(contacts@.take(j as int) =~= contacts@);
        r
    }

    /// The store as a list of conversations and a list of saved peers, as it is to
    /// be kept.
    pub fn parts(&self) -> (r: (Vec<(String, Conversation)>, Vec<(String, Contact)>))
        ensures
            store_of(r.0@, r.1@) == self@,
    {
        let n: usize = self.conversations.len();
        let ghost pairs = self.conversations.order();
        let ghost all = self@.conversations;
        let mut out: Vec<(String, Conversation)> = Vec::new();
        let mut i: usize = 0;
        while i < n
            invariant
                i <= n,
                n == pairs.len(),
                pairs == self.conversations.order(),
                all == self@.conversations,
                assoc::distinct(pairs),
                forall|id: Seq<char>| #[trigger]
                    conversations_of(out@).contains_key(id) <==> among(pairs, i as int, id),
                forall|id: Seq<char>| #[trigger]
                    conversations_of(out@).contains_key(id) ==> all.contains_key(id) && conversations_of(out@)[id]
                        == all[id],
            decreases n - i,
        {
            let id = self.conversations.key_at(i);
            let c = self.conversations.value_at(i);
            let ghost before = out@;
            proof {
                lemma_among(pairs, i as int);
                assert(all.contains_key(id@) && all[id@] == c@);
            }
            out.push((id.clone(), c.clone()));
            proof {
                assert(out@.drop_last() =~= before);
                assert forall|x: Seq<char>| #[trigger] conversations_of(out@).contains_key(x) <==> among(
                    pairs,
                    i + 1,
                    x,
                ) by {
                    assert(conversations_of(before).contains_key(x) <==> among(pairs, i as int, x));
                }
                assert forall|x: Seq<char>| #[trigger] conversations_of(out@).contains_key(x) implies all.contains_key(x)
                    && conversations_of(out@)[x] == all[x] by {
                    assert(x == id@ || conversations_of(before).contains_key(x));
                }
            }
            i += 1;
        }
        let contacts = self.contacts();
        proof {
            assert forall|id: Seq<char>| #[trigger] all.contains_key(id) implies conversations_of(out@).contains_key(
                id,
            ) by {
                assert(self.conversations@.contains_key(id));
                lemma_among_all(pairs, id);
            }
            assert(conversations_of(out@) =~= all);
            assert forall|i: int, j: int| #![trigger contacts@[i], contacts@[j]] 0 <= i < j < contacts@.len() implies contacts@[i].0@
                != contacts@[j].0@ by {
                text::lemma_before_total(contacts@[i].0@, contacts@[i].0@);
            }
            assert forall|name: Seq<char>| #[trigger]
                contacts_of(contacts@).contains_key(name) <==> self@.contacts.contains_key(name) by {
                lemma_contacts_of(contacts@, name);
                if names(contacts@, name) {
                    let k = choose|k: int| 0 <= k < contacts@.len() && (#[trigger] contacts@[k]).0@ == name;
                    assert(self@.contacts.contains_key(contacts@[k].0@));
                }
            }
            assert forall|name: Seq<char>| #[trigger] contacts_of(contacts@).contains_key(name) implies contacts_of(
                contacts@,
            )[name] == self@.contacts[name] by {
                lemma_contacts_of(contacts@, name);
                let k = choose|k: int| 0 <= k < contacts@.len() && (#[trigger] contacts@[k]).0@ == name;
                assert(contacts@[k].1@ == self@.contacts[name]);
            }
            assert(contacts_of(contacts@) =~= self@.contacts);
        }
        (out, contacts)
    }

    /// Appends a message to a conversation, which is started if there is none.
    pub fn append(&mut self, conv_id: &str, title: &str, msg: StoredMessage)
        ensures
            final(self)@ == appended(old(self)@, conv_id@, title@, msg@),
    {
        let ghost before = self@;
        let ghost m = msg@;
        let key = conv_id.to_owned();
        let mut conv = match self.conversations.remove(&key) {
            Some(c) => c,
            None => Conversation::default(),
        };
        assert(conv@.messages =~= conversation_or_new(before, conv_id@).messages);
        let ghost earlier = conv@.messages;
        conv.title = title.to_owned();
        conv.messages.push(msg);
        assert(conv@.messages =~= earlier.push(m));
        let ghost c = conv@;
        self.conversations.insert(key, conv);
        assert(self@.conversations =~= before.conversations.insert(conv_id@, c));
    }

    /// All conversations in a line each, the one that was active last on top.
    pub fn summaries(&self) -> (r: Vec<ConversationSummary>)
        ensures
            in_order(r@),
            r@.len() == self@.conversations.dom().len(),
            forall|k: int|
                #![trigger r@[k]]
                0 <= k < r@.len() ==> {
                    &&& self@.conversations.contains_key(r@[k]@.id)
                    &&& r@[k]@ == summary_of(r@[k]@.id, self@.conversations[r@[k]@.id])
                },
            forall|id: Seq<char>|
                #![trigger self@.conversations.contains_key(id)]
                self@.conversations.contains_key(id) ==> lists(r@, id),
    {
        let n: usize = self.conversations.len();
        let ghost pairs = self.conversations.order();
        let ghost convs = self@.conversations;
        let mut out: Vec<ConversationSummary> = Vec::new();
        let mut i: usize = 0;
        proof {
            assert(convs.dom() =~= self.conversations@.dom());
        }
        while i < n
            invariant
                i <= n,
                n == pairs.len(),
                pairs == self.conversations.order(),
                convs == self@.conversations,
                assoc::distinct(pairs),
                out@.len() == i,
                in_order(out@),
                forall|k: int|
                    #![trigger out@[k]]
                    0 <= k < out@.len() ==> {
                        &&& convs.contains_key(out@[k]@.id)
                        &&& out@[k]@ == summary_of(out@[k]@.id, convs[out@[k]@.id])
                    },
                forall|id: Seq<char>| #[trigger] lists(out@, id) <==> among(pairs, i as int, id),
            decreases n - i,
        {
            let id = self.conversations.key_at(i);
            let c = self.conversations.value_at(i);
            let (last, last_ts): (String, i64) = if c.messages.len() > 0 {
                let m = &c.messages[c.messages.len() - 1];
                (m.text.clone(), m.ts)
            } else {
                (String::new(), 0)
            };
            let s = ConversationSummary {
                id: id.clone(),
                title: c.title.clone(),
                last,
                count: c.messages.len(),
                last_ts,
            };
            let ghost before = out@;
            proof {
                lemma_among(pairs, i as int);
                assert(convs.contains_key(id@) && convs[id@] == c@);
                assert(s@ == summary_of(id@, convs[id@])) by {
                    if c.messages.len() > 0 {
                        assert(c@.messages.last() == c.messages@.last()@);
                    }
                }
            }
            insert_summary(&mut out, s);
            proof {
                let now = out@;
                assert forall|k: int| #![trigger now[k]] 0 <= k < now.len() implies convs.contains_key(now[k]@.id)
                    && now[k]@ == summary_of(now[k]@.id, convs[now[k]@.id]) by {
                    if before.contains(now[k]) {
                        let j = choose|j: int| 0 <= j < before.len() && before[j] == now[k];
                        assert(before[j] == now[k]);
                    }
                }
                assert forall|x: Seq<char>| #[trigger] lists(now, x) <==> among(pairs, i + 1, x) by {
                    assert(lists(before, x) <==> among(pairs, i as int, x));
                }
            }
            i += 1;
        }
        proof {
            assert forall|id: Seq<char>| #![trigger convs.contains_key(id)] convs.contains_key(id) implies lists(
                out@,
                id,
            ) by {
                assert(self.conversations@.contains_key(id));
                lemma_among_all(pairs, id);
            }
        }
        out
    }

    /// The messages of a conversation.
    pub fn messages(&self, conv_id: &str) -> (r: Vec<StoredMessage>)
        ensures
            messages_view(r@) == conversation_or_new(self@, conv_id@).messages,
    {
        let key = conv_id.to_owned();
        match self.conversations.get(&key) {
            Some(c) => clone_messages(&c.messages),
            None => {
                let r: Vec<StoredMessage> = Vec::new();
                assert(messages_view(r@) =~= Seq::<MessageModel>::empty());
                r
            },
        }
    }

    /// A conversation as it is kept.
    pub fn conversation(&self, conv_id: &str) -> (r: Option<Conversation>)
        ensures
            match r {
                Some(c) => self@.conversations.contains_key(conv_id@) && c@ == self@.conversations[conv_id@],
                None => !self@.conversations.contains_key(conv_id@),
            },
            r matches Some(c) ==> c@ == conversation_or_new(self@, conv_id@),
    {
        let key = conv_id.to_owned();
        match self.conversations.get(&key) {
            Some(c) => Some(c.clone()),
            None => None,
        }
    }

    /// Deletes a conversation.
    pub fn forget(&mut self, conv_id: &str)
        ensures
            final(self)@ == forgotten(old(self)@, conv_id@),
    {
        let ghost before = self@;
        let key = conv_id.to_owned();
        self.conversations.remove(&key);
        assert(self@.conversations =~= before.conversations.remove(conv_id@));
    }

    /// Saves a peer under a name, in the place of one that had the name before.
    /// A name of nothing but white space is refused.
    pub fn add_contact(&mut self, name: &str, address: &str) -> (r: Result<(), HistoryError>)
        ensures
            match r {
                Ok(_) => {
                    &&& text::trimmed(name@).len() > 0
                    &&& final(self)@ == (HistoryModel {
                        contacts: old(self)@.contacts.insert(
                            name@,
                            ContactModel { address: address@, fingerprint: None },
                        ),
                        ..old(self)@
                    })
                },
                Err(e) => {
                    &&& text::trimmed(name@).len() == 0
                    &&& e == HistoryError::EmptyName
                    &&& final(self)@ == old(self)@
                },
            },
            match with_contact(old(self)@, name@, address@) {
                Some(after) => r is Ok && final(self)@ == after,
                None => r is Err && final(self)@ == old(self)@,
            },
    {
        if text::trim(name).as_str().is_empty() {
            return Err(HistoryError::EmptyName);
        }
        let ghost before = self@;
        let contact = Contact { address: address.to_owned(), fingerprint: None };
        let ghost c = contact@;
        self.contacts.insert(name.to_owned(), contact);
        assert(self@.contacts =~= before.contacts.insert(name@, c));
        Ok(())
    }

    /// Removes a saved peer. The result is whether there was one.
    pub fn remove_contact(&mut self, name: &str) -> (r: bool)
        ensures
            r == old(self)@.contacts.contains_key(name@),
            final(self)@ == (HistoryModel { contacts: old(self)@.contacts.remove(name@), ..old(self)@ }),
            final(self)@ == without_contact(old(self)@, name@),
    {
        let ghost before = self@;
        let key = name.to_owned();
        let existed = self.contacts.remove(&key).is_some();
        assert(self@.contacts =~= before.contacts.remove(name@));
        existed
    }

    /// Finds a saved peer by its name.
    pub fn get_contact(&self, name: &str) -> (r: Option<Contact>)
        ensures
            match r {
                Some(c) => self@.contacts.contains_key(name@) && c@ == self@.contacts[name@],
                None => !self@.contacts.contains_key(name@),
            },
    {
        let key = name.to_owned();
        match self.contacts.get(&key) {
            Some(c) => Some(c.clone()),
            None => None,
        }
    }

    /// All saved peers, in the order of their names.
    pub fn contacts(&self) -> (r: Vec<(String, Contact)>)
        ensures
            by_name(r@),
            r@.len() == self@.contacts.dom().len(),
            forall|k: int|
                #![trigger r@[k]]
                0 <= k < r@.len() ==> {
                    &&& self@.contacts.contains_key(r@[k].0@)
                    &&& r@[k].1@ == self@.contacts[r@[k].0@]
                },
            forall|name: Seq<char>|
                #![trigger self@.contacts.contains_key(name)]
                self@.contacts.contains_key(name) ==> names(r@, name),
    {
        let n: usize = self.contacts.len();
        let ghost pairs = self.contacts.order();
        let ghost all = self@.contacts;
        let mut out: Vec<(String, Contact)> = Vec::new();
        let mut i: usize = 0;
        proof {
            assert(all.dom() =~= self.contacts@.dom());
        }
        while i < n
            invariant
                i <= n,
                n == pairs.len(),
                pairs == self.contacts.order(),
                all == self@.contacts,
                assoc::distinct(pairs),
                out@.len() == i,
                by_name(out@),
                forall|k: int|
                    #![trigger out@[k]]
                    0 <= k < out@.len() ==> {
                        &&& all.contains_key(out@[k].0@)
                        &&& out@[k].1@ == all[out@[k].0@]
                    },
                forall|name: Seq<char>| #[trigger] names(out@, name) <==> among(pairs, i as int, name),
            decreases n - i,
        {
            let name = self.contacts.key_at(i);
            let c = self.contacts.value_at(i);
            let entry = (name.clone(), c.clone());
            let ghost before = out@;
            proof {
                lemma_among(pairs, i as int);
                assert(all.contains_key(name@) && all[name@] == c@);
            }
            insert_contact(&mut out, entry);
            proof {
                let now = out@;
                assert forall|k: int| #![trigger now[k]] 0 <= k < now.len() implies all.contains_key(now[k].0@)
                    && now[k].1@ == all[now[k].0@] by {
                    if before.contains(now[k]) {
                        let j = choose|j: int| 0 <= j < before.len() && before[j] == now[k];
                        assert(before[j] == now[k]);
                    }
                }
                assert forall|x: Seq<char>| #[trigger] names(now, x) <==> among(pairs, i + 1, x) by {
                    assert(names(before, x) <==> among(pairs, i as int, x));
                }
            }
            i += 1;
        }
        proof {
            assert forall|name: Seq<char>| #![trigger all.contains_key(name)] all.contains_key(name) implies names(
                out@,
                name,
            ) by {
                assert(self.contacts@.contains_key(name));
                lemma_among_all(pairs, name);
            }
        }
        out
    }
}

impl Default for History {
    fn default() -> (r: Self)
        ensures
            r@.conversations == Map::<Seq<char>, ConversationModel>::empty(),
            r@.contacts == Map::<Seq<char>, ContactModel>::empty(),
    {
        Self::new()
    }
}

/// A message to one conversation leaves every other as it is, whatever their
/// titles: two that share a name never merge.
pub proof fn law_conversations_never_merge(
    m: HistoryModel,
    id: Seq<char>,
    title: Seq<char>,
    msg: MessageModel,
    other: Seq<char>,
)
    requires
        other != id,
    ensures
        conversation_or_new(appended(m, id, title, msg), other) == conversation_or_new(m, other),
        conversation_or_new(appended(m, id, title, msg), id).messages == conversation_or_new(m, id).messages.push(msg),
        conversation_or_new(appended(m, id, title, msg), id).title == title,
        appended(m, id, title, msg).conversations.dom() == m.conversations.dom().insert(id),
        summary_of(other, conversation_or_new(appended(m, id, title, msg), other)) == summary_of(
            other,
            conversation_or_new(m, other),
        ),
        appended(m, id, title, msg).contacts == m.contacts,
{
}

/// A conversation that was deleted is gone, and nothing else is: every other one
/// keeps its messages and its title, and the saved peers stay. Deleting it again, or
/// deleting one that is not there, changes nothing.
pub proof fn law_only_the_forgotten_is_gone(m: HistoryModel, id: Seq<char>, other: Seq<char>)
    ensures
        !forgotten(m, id).conversations.contains_key(id),
        conversation_or_new(forgotten(m, id), id).messages == Seq::<MessageModel>::empty(),
        other != id ==> conversation_or_new(forgotten(m, id), other) == conversation_or_new(m, other),
        forgotten(m, id).conversations.dom() == m.conversations.dom().remove(id),
        forgotten(m, id).contacts == m.contacts,
        forgotten(forgotten(m, id), id) == forgotten(m, id),
        !m.conversations.contains_key(id) ==> forgotten(m, id) == m,
{
    assert(forgotten(forgotten(m, id), id).conversations =~= forgotten(m, id).conversations);
    if !m.conversations.contains_key(id) {
        assert(forgotten(m, id).conversations =~= m.conversations);
    }
}

/// An appended message comes back when the store is made again of the lists that it
/// was kept as, and so does everything else as it was.
pub proof fn law_appended_messages_come_back(
    m: HistoryModel,
    id: Seq<char>,
    title: Seq<char>,
    msg: MessageModel,
    other: Seq<char>,
    conversations: Seq<(String, Conversation)>,
    contacts: Seq<(String, Contact)>,
)
    requires
        store_of(conversations, contacts) == appended(m, id, title, msg),
        other != id,
    ensures
        ({
            let again = store_of(conversations, contacts);
            &&& conversation_or_new(again, id).messages == conversation_or_new(m, id).messages.push(msg)
            &&& conversation_or_new(again, id).title == title
            &&& conversation_or_new(again, other) == conversation_or_new(m, other)
            &&& again.conversations.contains_key(other) <==> m.conversations.contains_key(other)
            &&& again.contacts == m.contacts
        }),
{
}

/// A deleted conversation does not come back when the store is made again of the
/// lists that it was kept as, and everything else does.
pub proof fn law_forgotten_conversations_stay_gone(
    m: HistoryModel,
    id: Seq<char>,
    other: Seq<char>,
    conversations: Seq<(String, Conversation)>,
    contacts: Seq<(String, Contact)>,
)
    requires
        store_of(conversations, contacts) == forgotten(m, id),
        other != id,
    ensures
        ({
            let again = store_of(conversations, contacts);
            &&& !again.conversations.contains_key(id)
            &&& conversation_or_new(again, id).messages == Seq::<MessageModel>::empty()
            &&& conversation_or_new(again, other) == conversation_or_new(m, other)
            &&& again.conversations.contains_key(other) <==> m.conversations.contains_key(other)
            &&& again.contacts == m.contacts
        }),
{
}

/// A list of all conversations in their order can be only one: the contract of
/// `summaries` leaves no choice.
pub proof fn law_summaries_are_determined(
    m: HistoryModel,
    a: Seq<ConversationSummary>,
    b: Seq<ConversationSummary>,
    k: int,
)
    requires
        in_order(a),
        in_order(b),
        a.len() == b.len(),
        0 <= k < a.len(),
        forall|i: int|
            #![trigger a[i]]
            0 <= i < a.len() ==> m.conversations.contains_key(a[i]@.id) && a[i]@ == summary_of(
                a[i]@.id,
                m.conversations[a[i]@.id],
            ),
        forall|i: int|
            #![trigger b[i]]
            0 <= i < b.len() ==> m.conversations.contains_key(b[i]@.id) && b[i]@ == summary_of(
                b[i]@.id,
                m.conversations[b[i]@.id],
            ),
        forall|id: Seq<char>|
            #![trigger m.conversations.contains_key(id)]
            m.conversations.contains_key(id) ==> lists(a, id) && lists(b, id),
    ensures
        a[k]@ == b[k]@,
    decreases k,
{
    assert forall|i: int| 0 <= i < k implies a[i]@ == b[i]@ by {
        law_summaries_are_determined(m, a, b, i);
    }
    let ia = choose|i: int| 0 <= i < b.len() && (#[trigger] b[i])@.id == a[k]@.id;
    let ib = choose|i: int| 0 <= i < a.len() && (#[trigger] a[i])@.id == b[k]@.id;
    assert(m.conversations.contains_key(a[k]@.id));
    assert(m.conversations.contains_key(b[k]@.id));
    assert(b[ia]@ == a[k]@);
    assert(a[ib]@ == b[k]@);
    text::lemma_before_total(a[k]@.id, b[k]@.id);
    text::lemma_before_total(a[k]@.id, a[k]@.id);
    if ia < k {
        assert(a[ia]@ == b[ia]@);
        assert(above(a[ia]@, a[k]@));
    } else if ib < k {
        assert(b[ib]@ == a[ib]@);
        assert(above(b[ib]@, b[k]@));
        text::lemma_before_total(b[k]@.id, b[k]@.id);
    } else if ia > k && ib > k {
        assert(above(b[k]@, b[ia]@));
        assert(above(a[k]@, a[ib]@));
    }
}

/// The line of a conversation tells of its newest message: after a message was appended
/// it shows that message's text and time and the title given with it, and counts one
/// more. Before there is any it shows nothing.
pub proof fn law_lines_show_the_newest_message(m: HistoryModel, id: Seq<char>, title: Seq<char>, msg: MessageModel)
    ensures
        ({
            let line = summary_of(id, conversation_or_new(appended(m, id, title, msg), id));
            &&& line.id == id
            &&& line.title == title
            &&& line.last == msg.text
            &&& line.last_ts == msg.ts
            &&& line.count == summary_of(id, conversation_or_new(m, id)).count + 1
        }),
        !m.conversations.contains_key(id) ==> summary_of(id, conversation_or_new(m, id)) == (SummaryModel {
            id,
            title: Seq::empty(),
            last: Seq::empty(),
            count: 0,
            last_ts: 0,
        }),
{
}

/// The store after some messages of a conversation.
pub open spec fn appended_all(m: HistoryModel, id: Seq<char>, title: Seq<char>, msgs: Seq<MessageModel>) -> HistoryModel
    decreases msgs.len(),
{
    if msgs.len() == 0 {
        m
    } else {
        appended(appended_all(m, id, title, msgs.drop_last()), id, title, msgs.last())
    }
}

/// Messages are kept as they were said, all of them and in their order, behind those
/// that were there.
pub proof fn law_messages_are_kept_in_order(m: HistoryModel, id: Seq<char>, title: Seq<char>, msgs: Seq<MessageModel>)
    ensures
        conversation_or_new(appended_all(m, id, title, msgs), id).messages == conversation_or_new(m, id).messages + msgs,
        appended_all(m, id, title, msgs).contacts == m.contacts,
    decreases msgs.len(),
{
    let before = conversation_or_new(m, id).messages;
    if msgs.len() == 0 {
        assert(before + msgs =~= before);
    } else {
        law_messages_are_kept_in_order(m, id, title, msgs.drop_last());
        assert((before + msgs.drop_last()).push(msgs.last()) =~= before + msgs);
    }
}

/// Conversations are listed by their newest message, the latest on top: no line stands
/// below one whose newest message is older. Of two that are equally late, the ids tell.
pub proof fn law_the_latest_stands_on_top(v: Seq<ConversationSummary>, i: int, j: int)
    requires
        in_order(v),
        0 <= i < j < v.len(),
    ensures
        v[i]@.last_ts >= v[j]@.last_ts,
        v[i]@.last_ts == v[j]@.last_ts ==> text::before(v[i]@.id, v[j]@.id),
        v[i]@.id != v[j]@.id || v[i]@.last_ts != v[j]@.last_ts,
{
    text::lemma_before_total(v[i]@.id, v[j]@.id);
    text::lemma_before_total(v[i]@.id, v[i]@.id);
}

/// A conversation to which something is said comes to stand above every other that was
/// silent since: its line is the later one.
pub proof fn law_new_messages_lift_their_conversation(
    m: HistoryModel,
    id: Seq<char>,
    title: Seq<char>,
    msg: MessageModel,
    other: Seq<char>,
)
    requires
        other != id,
        summary_of(other, conversation_or_new(m, other)).last_ts < msg.ts,
    ensures
        ({
            let after = appended(m, id, title, msg);
            above(
                summary_of(id, conversation_or_new(after, id)),
                summary_of(other, conversation_or_new(after, other)),
            )
        }),
{
}

/// Saved peers are listed in the order of their names, by the first character in which
/// two of them differ, and none twice.
pub proof fn law_peers_are_listed_by_name(v: Seq<(String, Contact)>, i: int, j: int, k: int)
    requires
        by_name(v),
        0 <= i < j < v.len(),
        0 <= k < v[i].0@.len(),
        k < v[j].0@.len(),
        v[i].0@.take(k) == v[j].0@.take(k),
        v[i].0@[k] != v[j].0@[k],
    ensures
        v[i].0@[k] < v[j].0@[k],
{
    text::law_order_is_by_the_first_difference(v[i].0@, v[j].0@, k);
}

/// A peer is saved under its name, with its address and without a fingerprint, exactly
/// where the name has something in it that is not white space; it is then found until it
/// is removed, or saved anew with another address. No other peer and no conversation
/// changes with it.
pub proof fn law_saved_peers_are_found(
    m: HistoryModel,
    name: Seq<char>,
    address: Seq<char>,
    other: Seq<char>,
    elsewhere: Seq<char>,
)
    ensures
        with_contact(m, name, address) is Some <==> exists|i: int|
            0 <= i < name.len() && !text::is_white_space(#[trigger] name[i]),
        with_contact(m, name, address) matches Some(after) ==> {
            &&& after.contacts.contains_key(name)
            &&& after.contacts[name] == (ContactModel { address, fingerprint: None })
            &&& after.conversations == m.conversations
            &&& !without_contact(after, name).contacts.contains_key(name)
            &&& with_contact(after, name, elsewhere) matches Some(moved) && moved.contacts[name].address == elsewhere
            &&& other != name ==> {
                &&& after.contacts.contains_key(other) == m.contacts.contains_key(other)
                &&& after.contacts[other] == m.contacts[other]
            }
        },
        without_contact(m, name).conversations == m.conversations,
        other != name ==> {
            &&& without_contact(m, name).contacts.contains_key(other) == m.contacts.contains_key(other)
            &&& m.contacts.contains_key(other) ==> without_contact(m, name).contacts[other] == m.contacts[other]
        },
{
    let (a, b) = text::law_trimming_takes_the_white_space_around(name);
}

/// What is read from lists is what stands in them: under each id the conversation that
/// stands last for it, under each name the peer that stands last for it, and nothing else.
pub proof fn law_lists_are_read_as_they_stand(
    conversations: Seq<(String, Conversation)>,
    contacts: Seq<(String, Contact)>,
    key: Seq<char>,
    i: int,
)
    ensures
        ({
            let m = store_of(conversations, contacts);
            &&& 0 <= i < conversations.len() && conversations[i].0@ == key && (forall|k: int|
                i < k < conversations.len() ==> (#[trigger] conversations[k]).0@ != key) ==> {
                &&& m.conversations.contains_key(key)
                &&& m.conversations[key] == conversations[i].1@
            }
            &&& 0 <= i < contacts.len() && contacts[i].0@ == key && (forall|k: int|
                i < k < contacts.len() ==> (#[trigger] contacts[k]).0@ != key) ==> {
                &&& m.contacts.contains_key(key)
                &&& m.contacts[key] == contacts[i].1@
            }
            &&& (forall|k: int| 0 <= k < conversations.len() ==> (#[trigger] conversations[k]).0@ != key)
                ==> !m.conversations.contains_key(key)
            &&& (forall|k: int| 0 <= k < contacts.len() ==> (#[trigger] contacts[k]).0@ != key)
                ==> !m.contacts.contains_key(key)
        }),
    decreases conversations.len() + contacts.len(),
{
    if conversations.len() > 0 {
        let rest = conversations.drop_last();
        law_lists_are_read_as_they_stand(rest, contacts, key, i);
        assert forall|k: int| 0 <= k < rest.len() implies #[trigger] rest[k] == conversations[k] by {}
        assert(conversations[conversations.len() - 1] == conversations.last());
    }
    if contacts.len() > 0 {
        let rest = contacts.drop_last();
        law_lists_are_read_as_they_stand(conversations, rest, key, i);
        assert forall|k: int| 0 <= k < rest.len() implies #[trigger] rest[k] == contacts[k] by {}
        assert(contacts[contacts.len() - 1] == contacts.last());
    }
}

} // verus!
