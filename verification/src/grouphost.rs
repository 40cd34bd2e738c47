//! The relay of a group, and what a member does with what it relays.
//!
//! The host knows who is there and moves messages between connections: a
//! `Hello` puts a member on the roster, a sealed key goes to its addressee, a
//! text to everyone else. It reads neither.
use vstd::prelude::*;

use crate::bytes;
use crate::crypto;
use crate::group;
use crate::groupsession;
use crate::groupsession::{GroupMember, GroupMsg, GroupMsgModel, MemberId};

verus! {

/// A member, as the host knows it: its public key, and its connection.
pub struct MemberConn {
    id: MemberId,
    public: [u8; 32],
    conn: u64,
}

/// A member, as contracts see it.
pub struct ConnModel {
    pub id: Seq<u8>,
    pub public: Seq<u8>,
    pub conn: u64,
}

impl View for MemberConn {
    type V = ConnModel;

    closed spec fn view(&self) -> ConnModel {
        ConnModel { id: self.id@, public: self.public@, conn: self.conn }
    }
}

/// The members, as contracts see them.
pub open spec fn conns_view(v: Seq<MemberConn>) -> Seq<ConnModel> {
    v.map_values(|m: MemberConn| m@)
}

/// Bytes for a connection.
pub struct Outgoing {
    pub conn: u64,
    pub bytes: Vec<u8>,
}

/// What goes out, as contracts see it.
pub open spec fn outgoing_view(v: Seq<Outgoing>) -> Seq<(u64, Seq<u8>)> {
    v.map_values(|o: Outgoing| (o.conn, o.bytes@))
}

/// The host of a group.
pub struct Relay {
    members: Vec<MemberConn>,
}

impl View for Relay {
    type V = Seq<ConnModel>;

    closed spec fn view(&self) -> Seq<ConnModel> {
        conns_view(self.members@)
    }
}

/// Where a member stands on the roster, or -1.
pub open spec fn seat(roster: Seq<ConnModel>, id: Seq<u8>) -> int
    decreases roster.len(),
{
    if roster.len() == 0 {
        -1
    } else if roster.last().id == id {
        roster.len() - 1
    } else {
        seat(roster.drop_last(), id)
    }
}

/// The seat of a member holds it, and where there is none it is not there.
pub proof fn lemma_seat(roster: Seq<ConnModel>, id: Seq<u8>)
    ensures
        -1 <= seat(roster, id) < roster.len(),
        seat(roster, id) >= 0 ==> roster[seat(roster, id)].id == id,
        forall|i: int| #![trigger roster[i]] seat(roster, id) < i < roster.len() ==> roster[i].id != id,
    decreases roster.len(),
{
    if roster.len() > 0 && roster.last().id != id {
        lemma_seat(roster.drop_last(), id);
        assert forall|i: int| #![trigger roster[i]] seat(roster, id) < i < roster.len() implies roster[i].id != id by {
            if i < roster.len() - 1 {
                assert(roster.drop_last()[i] == roster[i]);
            }
        }
    }
}

/// No member stands on the roster twice.
pub open spec fn seats_distinct(roster: Seq<ConnModel>) -> bool {
    forall|i: int, j: int| #![trigger roster[i], roster[j]] 0 <= i < j < roster.len() ==> roster[i].id != roster[j].id
}

/// The roster with a member: in the place that its id has, or at the end.
pub open spec fn joined(roster: Seq<ConnModel>, m: ConnModel) -> Seq<ConnModel> {
    if seat(roster, m.id) >= 0 {
        roster.update(seat(roster, m.id), m)
    } else {
        roster.push(m)
    }
}

/// The roster without a member.
pub open spec fn left(roster: Seq<ConnModel>, id: Seq<u8>) -> Seq<ConnModel> {
    if seat(roster, id) >= 0 {
        roster.remove(seat(roster, id))
    } else {
        roster
    }
}

/// The roster as members get it.
pub open spec fn roster_msg(roster: Seq<ConnModel>) -> GroupMsgModel {
    GroupMsgModel::Roster { members: roster.map_values(|m: ConnModel| (m.id, m.public)) }
}

/// The same bytes for everyone on the roster.
pub open spec fn to_all(roster: Seq<ConnModel>, msg: Seq<u8>) -> Seq<(u64, Seq<u8>)> {
    roster.map_values(|m: ConnModel| (m.conn, msg))
}

/// The same bytes for everyone on the roster but `from`.
pub open spec fn to_others(roster: Seq<ConnModel>, from: Seq<u8>, msg: Seq<u8>) -> Seq<(u64, Seq<u8>)>
    decreases roster.len(),
{
    if roster.len() == 0 {
        Seq::empty()
    } else {
        let before = to_others(roster.drop_last(), from, msg);
        if roster.last().id == from {
            before
        } else {
            before.push((roster.last().conn, msg))
        }
    }
}

/// What the host does with a message on the connection `conn`: the roster
/// afterwards, the member that the connection belongs to, and what goes out.
pub open spec fn relay_step(
    roster: Seq<ConnModel>,
    conn: u64,
    who: Option<Seq<u8>>,
    b: Seq<u8>,
) -> (Seq<ConnModel>, Option<Seq<u8>>, Seq<(u64, Seq<u8>)>) {
    match groupsession::parse_msg(b) {
        Ok(GroupMsgModel::Hello { id, public }) => {
            let after = joined(roster, ConnModel { id, public, conn });
            (after, Some(id), to_all(after, groupsession::msg_bytes(roster_msg(after))))
        },
        Ok(GroupMsgModel::KeyFor { to, from, sealed }) => if seat(roster, to) >= 0 {
            (
                roster,
                who,
                seq![
                    (
                        roster[seat(roster, to)].conn,
                        groupsession::msg_bytes(GroupMsgModel::KeyFor { to, from, sealed }),
                    ),
                ],
            )
        } else {
            (roster, who, Seq::empty())
        },
        Ok(GroupMsgModel::Text { from, ct }) => (
            roster,
            who,
            to_others(roster, from, groupsession::msg_bytes(GroupMsgModel::Text { from, ct })),
        ),
        _ => (roster, who, Seq::empty()),
    }
}

/// What the host does when the connection of a member ends.
pub open spec fn leave_step(roster: Seq<ConnModel>, who: Option<Seq<u8>>) -> (Seq<ConnModel>, Seq<(u64, Seq<u8>)>) {
    match who {
        Some(id) => {
            let after = left(roster, id);
            (after, to_all(after, groupsession::msg_bytes(roster_msg(after))))
        },
        None => (roster, Seq::empty()),
    }
}

/// The bytes of an optional id.
pub open spec fn opt_id(id: Option<MemberId>) -> Option<Seq<u8>> {
    match id {
        Some(i) => Some(i@),
        None => None,
    }
}

/// A copy of bytes.
fn copy(b: &Vec<u8>) -> (r: Vec<u8>)
    ensures
        r@ == b@,
{
    assert(b@.subrange(0, b@.len() as int) =~= b@);
    bytes::copy_range(b.as_slice(), 0, b.len())
}

impl Relay {
    /// No member stands on the roster twice.
    pub open spec fn wf(&self) -> bool {
        seats_distinct(self@)
    }

    /// A host without members.
    pub fn new() -> (r: Self)
        ensures
            r@ == Seq::<ConnModel>::empty(),
            r.wf(),
    {
        let r = Relay { members: Vec::new() };
        assert(r@ =~= Seq::<ConnModel>::empty());
        r
    }

    /// Where a member stands.
    fn position(&self, id: &MemberId) -> (r: Option<usize>)
        ensures
            match r {
                Some(i) => i == seat(self@, id@) && i < self@.len(),
                None => seat(self@, id@) < 0,
            },
    {
        let ghost all = self@;
        let mut i: usize = self.members.len();
        assert(all.take(i as int) =~= all);
        while i > 0
            invariant
                i <= all.len(),
                all == self@,
                all.len() == self.members@.len(),
                seat(all.take(i as int), id@) == seat(all, id@),
            decreases i,
        {
            i -= 1;
            let ghost before = all.take(i + 1);
            assert(before.last() == self.members@[i as int]@);
            assert(before.drop_last() =~= all.take(i as int));
            if bytes::same_bytes(self.members[i].id.as_slice(), id.as_slice()) {
                return Some(i);
            }
        }
        None
    }

    /// The roster, as bytes for everyone on it.
    fn broadcast_roster(&self) -> (r: Vec<Outgoing>)
        ensures
            outgoing_view(r@) == to_all(self@, groupsession::msg_bytes(roster_msg(self@))),
    {
        let ghost all = self@;
        let ghost wanted = all.map_values(|m: ConnModel| (m.id, m.public));
        let mut members: Vec<(MemberId, [u8; 32])> = Vec::new();
        let mut i: usize = 0;
        while i < self.members.len()
            invariant
                i <= self.members@.len(),
                all == conns_view(self.members@),
                wanted == all.map_values(|m: ConnModel| (m.id, m.public)),
                groupsession::members_view(members@) == wanted.take(i as int),
            decreases self.members.len() - i,
        {
            let ghost before = groupsession::members_view(members@);
            let ghost m = self.members@[i as int]@;
            assert(all[i as int] == m);
            members.push((self.members[i].id, self.members[i].public));
            assert(groupsession::members_view(members@) =~= before.push((m.id, m.public)));
            i += 1;
            assert(groupsession::members_view(members@) =~= wanted.take(i as int));
        }
        assert(wanted.take(i as int) =~= wanted);
        let encoded = GroupMsg::Roster { members }.encode();
        let ghost target = to_all(all, encoded@);
        let mut out: Vec<Outgoing> = Vec::new();
        let mut k: usize = 0;
        assert(outgoing_view(out@) =~= target.take(0));
        while k < self.members.len()
            invariant
                k <= self.members@.len(),
                all == conns_view(self.members@),
                target == to_all(all, encoded@),
                outgoing_view(out@) == target.take(k as int),
            decreases self.members.len() - k,
        {
            let ghost before = outgoing_view(out@);
            assert(all[k as int] == self.members@[k as int]@);
            let piece = copy(&encoded);
            out.push(Outgoing { conn: self.members[k].conn, bytes: piece });
            assert(outgoing_view(out@) =~= before.push((all[k as int].conn, encoded@)));
            k += 1;
            assert(outgoing_view(out@) =~= target.take(k as int));
        }
        assert(target.take(k as int) =~= target);
        out
    }

    /// Puts a member on the roster.
    fn join(&mut self, id: MemberId, public: [u8; 32], conn: u64)
        requires
            old(self).wf(),
        ensures
            final(self).wf(),
            final(self)@ == joined(old(self)@, ConnModel { id: id@, public: public@, conn }),
    {
        let ghost before = self@;
        let ghost m = ConnModel { id: id@, public: public@, conn };
        proof {
            lemma_seat(before, id@);
        }
        match self.position(&id) {
            Some(i) => {
                self.members.set(i, MemberConn { id, public, conn });
                assert(self@ =~= before.update(i as int, m));
                assert forall|a: int, b: int| #![trigger self@[a], self@[b]] 0 <= a < b < self@.len() implies self@[a].id
                    != self@[b].id by {
                    assert(before[a].id != before[b].id);
                }
            },
            None => {
                self.members.push(MemberConn { id, public, conn });
                assert(self@ =~= before.push(m));
                assert forall|a: int, b: int| #![trigger self@[a], self@[b]] 0 <= a < b < self@.len() implies self@[a].id
                    != self@[b].id by {
                    assert(self@[a] == before[a]);
                    if b < before.len() {
                        assert(self@[b] == before[b]);
                    }
                }
            },
        }
    }

    /// Takes in bytes on the connection `conn`, which belongs to `who` once it
    /// has said so. What goes out is said by connection.
    pub fn on_bytes(&mut self, conn: u64, who: &mut Option<MemberId>, b: &[u8]) -> (r: Vec<Outgoing>)
        requires
            old(self).wf(),
        ensures
            final(self).wf(),
            (final(self)@, opt_id(*final(who)), outgoing_view(r@)) == relay_step(
                old(self)@,
                conn,
                opt_id(*old(who)),
                b@,
            ),
    {
        let msg = match GroupMsg::decode(b) {
            Ok(m) => m,
            Err(_) => {
                let r: Vec<Outgoing> = Vec::new();
                assert(outgoing_view(r@) =~= Seq::<(u64, Seq<u8>)>::empty());
                return r;
            },
        };
        match msg {
            GroupMsg::Hello { id, public } => {
                *who = Some(id);
                self.join(id, public, conn);
                self.broadcast_roster()
            },
            GroupMsg::KeyFor { to, from, sealed } => {
                let mut out: Vec<Outgoing> = Vec::new();
                match self.position(&to) {
                    Some(i) => {
                        let target: u64 = self.members[i].conn;
                        let ghost content = sealed@;
                        let encoded = GroupMsg::KeyFor { to, from, sealed }.encode();
                        out.push(Outgoing { conn: target, bytes: encoded });
                        assert(outgoing_view(out@) =~= seq![(target, encoded@)]);
                    },
                    None => {
                        assert(outgoing_view(out@) =~= Seq::<(u64, Seq<u8>)>::empty());
                    },
                }
                out
            },
            GroupMsg::Text { from, ct } => {
                let encoded = GroupMsg::Text { from, ct }.encode();
                self.send_to_others(&from, &encoded)
            },
            GroupMsg::Roster { members: _ } => {
                let r: Vec<Outgoing> = Vec::new();
                assert(outgoing_view(r@) =~= Seq::<(u64, Seq<u8>)>::empty());
                r
            },
        }
    }

    /// The same bytes for everyone but `from`.
    fn send_to_others(&self, from: &MemberId, msg: &Vec<u8>) -> (r: Vec<Outgoing>)
        ensures
            outgoing_view(r@) == to_others(self@, from@, msg@),
    {
        let ghost all = self@;
        let mut out: Vec<Outgoing> = Vec::new();
        let mut i: usize = 0;
        assert(all.take(0) =~= Seq::<ConnModel>::empty());
        assert(outgoing_view(out@) =~= Seq::<(u64, Seq<u8>)>::empty());
        while i < self.members.len()
            invariant
                i <= self.members@.len(),
                all == conns_view(self.members@),
                outgoing_view(out@) == to_others(all.take(i as int), from@, msg@),
            decreases self.members.len() - i,
        {
            let ghost before = outgoing_view(out@);
            proof {
                let next = all.take(i + 1);
                assert(next.drop_last() =~= all.take(i as int));
                assert(next.last() == self.members@[i as int]@);
            }
            if !bytes::same_bytes(self.members[i].id.as_slice(), from.as_slice()) {
                let piece = copy(msg);
                out.push(Outgoing { conn: self.members[i].conn, bytes: piece });
                assert(outgoing_view(out@) =~= before.push((self.members@[i as int]@.conn, msg@)));
            }
            i += 1;
        }
        assert(all.take(i as int) =~= all);
        out
    }

    /// The connection of `who` has ended: everyone else gets the new roster.
    pub fn on_close(&mut self, who: &Option<MemberId>) -> (r: Vec<Outgoing>)
        requires
            old(self).wf(),
        ensures
            final(self).wf(),
            (final(self)@, outgoing_view(r@)) == leave_step(old(self)@, opt_id(*who)),
    {
        match who {
            Some(id) => {
                let ghost before = self@;
                match self.position(id) {
                    Some(i) => {
                        self.members.remove(i);
                        assert(self@ =~= before.remove(i as int));
                        assert forall|a: int, b: int| #![trigger self@[a], self@[b]] 0 <= a < b < self@.len() implies self@[a].id
                            != self@[b].id by {
                            let ka = if a < i {
                                a
                            } else {
                                a + 1
                            };
                            let kb = if b < i {
                                b
                            } else {
                                b + 1
                            };
                            assert(self@[a] == before[ka] && self@[b] == before[kb]);
                        }
                    },
                    None => {},
                }
                self.broadcast_roster()
            },
            None => {
                let r: Vec<Outgoing> = Vec::new();
                assert(outgoing_view(r@) =~= Seq::<(u64, Seq<u8>)>::empty());
                r
            },
        }
    }
}

// ---------------------------------------------------------------------------
// Members
// ---------------------------------------------------------------------------

/// What a member does with bytes of the host.
pub struct MemberStep {
    /// What goes to the host.
    pub outgoing: Vec<Vec<u8>>,
    /// A text that was received, and its sender.
    pub text: Option<(MemberId, Vec<u8>)>,
}

/// Whether `b` are the bytes of a message that hands our sender key to a
/// recipient, an id and a public key.
pub open spec fn hands_key(own: Seq<u8>, dist: Seq<u8>, recipient: (Seq<u8>, Seq<u8>), b: Seq<u8>) -> bool {
    exists|sealed: Seq<u8>|
        groupsession::is_box_for(recipient.1, dist, sealed) && b == #[trigger] groupsession::msg_bytes(
            GroupMsgModel::KeyFor { to: recipient.0, from: own, sealed },
        )
}

/// Whether the bytes of `out` are those of messages that hand our sender key to
/// each of `recipients`.
pub open spec fn keys_encoded(
    own: Seq<u8>,
    dist: Seq<u8>,
    recipients: Seq<(Seq<u8>, Seq<u8>)>,
    out: Seq<Vec<u8>>,
) -> bool {
    &&& out.len() == recipients.len()
    &&& forall|i: int| #![trigger out[i]] 0 <= i < out.len() ==> hands_key(own, dist, recipients[i], out[i]@)
}

/// Whether `after` and `r` are what a member makes of bytes of the host.
pub open spec fn member_step(m: groupsession::MemberModel, b: Seq<u8>, after: groupsession::MemberModel, r: MemberStep) -> bool {
    let msg = groupsession::parse_msg(b);
    &&& r.outgoing@.len() > 0 ==> msg is Ok && msg->Ok_0 is Roster
    &&& r.text is Some <==> {
        &&& msg matches Ok(GroupMsgModel::Text { from, ct }) && groupsession::text_step(m, from, ct) is Ok
    }
    &&& match msg {
        Ok(GroupMsgModel::Roster { members }) => {
            &&& after.roster == groupsession::roster_after(m.roster, members)
            &&& after.keyed_to == groupsession::keyed_after(m.keyed_to, m.id, members)
            &&& after.receivers == m.receivers
            &&& after.sender == m.sender && after.id == m.id && after.secret == m.secret
            &&& keys_encoded(
                m.id,
                group::distribution_bytes(group::distribution_of(m.sender)),
                groupsession::due(m.keyed_to, m.id, members),
                r.outgoing@,
            )
        },
        Ok(GroupMsgModel::KeyFor { to, from, sealed }) => match groupsession::key_for_step(m, from, sealed) {
            Ok(keyed) => after == keyed,
            Err(_) => after == m,
        },
        Ok(GroupMsgModel::Text { from, ct }) => match groupsession::text_step(m, from, ct) {
            Ok((plaintext, read)) => {
                &&& after == read
                &&& r.text matches Some((sender, text)) && sender@ == from && text@ == plaintext
            },
            Err(_) => after == m,
        },
        _ => after == m,
    }
}

/// Takes in bytes of the host: a roster asks for our sender key, a sealed key
/// is taken in, a text is opened. What cannot be understood, or does not open,
/// is passed over and changes nothing.
pub fn on_host_bytes(member: &mut GroupMember, b: &[u8]) -> (r: MemberStep)
    requires
        old(member).wf(),
    ensures
        final(member).wf(),
        match groupsession::parse_msg(b@) {
            Ok(GroupMsgModel::Roster { members }) => {
                &&& r.text is None
                &&& final(member)@ == (groupsession::MemberModel {
                    roster: groupsession::roster_after(old(member)@.roster, members),
                    keyed_to: groupsession::keyed_after(old(member)@.keyed_to, old(member)@.id, members),
                    ..old(member)@
                })
                &&& keys_encoded(
                    old(member)@.id,
                    group::distribution_bytes(group::distribution_of(old(member)@.sender)),
                    groupsession::due(old(member)@.keyed_to, old(member)@.id, members),
                    r.outgoing@,
                )
            },
            Ok(GroupMsgModel::KeyFor { to, from, sealed }) => {
                &&& r.outgoing@.len() == 0
                &&& r.text is None
                &&& final(member)@ == (match groupsession::key_for_step(old(member)@, from, sealed) {
                    Ok(after) => after,
                    Err(_) => old(member)@,
                })
            },
            Ok(GroupMsgModel::Text { from, ct }) => {
                &&& r.outgoing@.len() == 0
                &&& match (groupsession::text_step(old(member)@, from, ct), r.text) {
                    (Ok((plaintext, after)), Some((sender, text))) => {
                        &&& sender@ == from
                        &&& text@ == plaintext
                        &&& final(member)@ == after
                    },
                    (Err(_), None) => final(member)@ == old(member)@,
                    _ => false,
                }
            },
            _ => r.outgoing@.len() == 0 && r.text is None && final(member)@ == old(member)@,
        },
        member_step(old(member)@, b@, final(member)@, r),
{
    let msg = match GroupMsg::decode(b) {
        Ok(m) => m,
        Err(_) => {
            return MemberStep { outgoing: Vec::new(), text: None };
        },
    };
    match msg {
        GroupMsg::Roster { members } => {
            let keys = member.on_roster(members.as_slice());
            let ghost own = old(member)@.id;
            let ghost dist = group::distribution_bytes(group::distribution_of(old(member)@.sender));
            let ghost recipients = groupsession::due(
                old(member)@.keyed_to,
                own,
                groupsession::members_view(members@),
            );
            let mut outgoing: Vec<Vec<u8>> = Vec::new();
            let mut i: usize = 0;
            while i < keys.len()
                invariant
                    i <= keys@.len(),
                    outgoing@.len() == i,
                    groupsession::keys_for(own, dist, recipients, keys@),
                    forall|k: int|
                        #![trigger outgoing@[k]]
                        0 <= k < i ==> hands_key(own, dist, recipients[k], outgoing@[k]@),
                decreases keys.len() - i,
            {
                let ghost before = outgoing@;
                let encoded = keys[i].encode();
                assert(hands_key(own, dist, recipients[i as int], encoded@)) by {
                    let key = keys@[i as int]@;
                    assert(key is KeyFor);
                    assert(encoded@ == groupsession::msg_bytes(
                        GroupMsgModel::KeyFor { to: recipients[i as int].0, from: own, sealed: key->KeyFor_sealed },
                    ));
                }
                outgoing.push(encoded);
                assert forall|k: int| #![trigger outgoing@[k]] 0 <= k < i + 1 implies hands_key(
                    own,
                    dist,
                    recipients[k],
                    outgoing@[k]@,
                ) by {
                    if k < i {
                        assert(outgoing@[k] == before[k]);
                    }
                }
                i += 1;
            }
            MemberStep { outgoing, text: None }
        },
        GroupMsg::KeyFor { to: _, from, sealed } => {
            let _ = member.on_key_for(from, sealed.as_slice());
            MemberStep { outgoing: Vec::new(), text: None }
        },
        GroupMsg::Text { from, ct } => {
            match member.on_text(from, ct.as_slice()) {
                Ok(plaintext) => MemberStep { outgoing: Vec::new(), text: Some((from, plaintext)) },
                Err(_) => MemberStep { outgoing: Vec::new(), text: None },
            }
        },
        GroupMsg::Hello { id: _, public: _ } => MemberStep { outgoing: Vec::new(), text: None },
    }
}

/// The bytes with which a member joins.
pub fn hello_bytes(member: &GroupMember) -> (r: Vec<u8>)
    requires
        member.wf(),
    ensures
        r@ == groupsession::msg_bytes(
            GroupMsgModel::Hello { id: member@.id, public: crypto::x25519_public(member@.secret) },
        ),
{
    member.hello().encode()
}

/// The bytes of a text for the group.
pub fn text_bytes(member: &mut GroupMember, plaintext: &[u8]) -> (r: Vec<u8>)
    requires
        old(member).wf(),
        crypto::aead_fits(plaintext@.len()),
    ensures
        final(member).wf(),
        final(member)@ == (groupsession::MemberModel {
            sender: group::sender_after(old(member)@.sender),
            ..old(member)@
        }),
        r@ == groupsession::msg_bytes(
            GroupMsgModel::Text {
                from: old(member)@.id,
                ct: group::wire_of(old(member)@.sender, plaintext@),
            },
        ),
        ({
            let ct = group::wire_of(old(member)@.sender, plaintext@);
            &&& group::genuine(old(member)@.sender.chain_key, old(member)@.sender.iteration, plaintext@, ct)
            &&& ct.subrange(ct.len() - 64, ct.len() - 32) != crypto::neutral_point() ==> group::signed_by(
                crypto::ed25519_public(old(member)@.sender.seed),
                ct,
            )
        }),
{
    member.encrypt(plaintext).encode()
}

// ---------------------------------------------------------------------------
// Laws
// ---------------------------------------------------------------------------

/// The host hands on exactly what it got: a sealed key and a text leave it byte
/// for byte as they came.
pub proof fn law_relay_is_verbatim(roster: Seq<ConnModel>, conn: u64, who: Option<Seq<u8>>, b: Seq<u8>, i: int)
    requires
        groupsession::parse_msg(b) matches Ok(m) && (m is KeyFor || m is Text),
        0 <= i < relay_step(roster, conn, who, b).2.len(),
    ensures
        relay_step(roster, conn, who, b).2[i].1 == b,
{
    groupsession::law_msg_canonical(b);
    match groupsession::parse_msg(b) {
        Ok(GroupMsgModel::Text { from, ct }) => {
            lemma_to_others(roster, from, groupsession::msg_bytes(GroupMsgModel::Text { from, ct }));
        },
        _ => {},
    }
}

/// A sealed key goes to its addressee and to nobody else, and to nobody at all
/// where the addressee is not there.
pub proof fn law_keys_reach_only_their_addressee(
    roster: Seq<ConnModel>,
    conn: u64,
    who: Option<Seq<u8>>,
    b: Seq<u8>,
)
    requires
        groupsession::parse_msg(b) is Ok,
        groupsession::parse_msg(b)->Ok_0 is KeyFor,
    ensures
        ({
            let to = groupsession::parse_msg(b)->Ok_0->KeyFor_to;
            let out = relay_step(roster, conn, who, b).2;
            &&& out.len() <= 1
            &&& out.len() == 1 <==> seat(roster, to) >= 0
            &&& out.len() == 1 ==> out[0].0 == roster[seat(roster, to)].conn
        }),
{
}

/// What goes to the others is the same bytes each time, to members that are not
/// the sender, and to each of those.
pub proof fn lemma_to_others(roster: Seq<ConnModel>, from: Seq<u8>, msg: Seq<u8>)
    ensures
        forall|i: int|
            #![trigger to_others(roster, from, msg)[i]]
            0 <= i < to_others(roster, from, msg).len() ==> to_others(roster, from, msg)[i].1 == msg && exists|k: int|
                0 <= k < roster.len() && (#[trigger] roster[k]).id != from && roster[k].conn == to_others(
                    roster,
                    from,
                    msg,
                )[i].0,
        forall|k: int|
            0 <= k < roster.len() && (#[trigger] roster[k]).id != from ==> to_others(roster, from, msg).contains(
                (roster[k].conn, msg),
            ),
    decreases roster.len(),
{
    if roster.len() > 0 {
        let rest = roster.drop_last();
        lemma_to_others(rest, from, msg);
        let out = to_others(roster, from, msg);
        let before = to_others(rest, from, msg);
        assert forall|i: int| #![trigger out[i]] 0 <= i < out.len() implies out[i].1 == msg && exists|k: int|
            0 <= k < roster.len() && (#[trigger] roster[k]).id != from && roster[k].conn == out[i].0 by {
            if i < before.len() {
                assert(out[i] == before[i]);
                let k = choose|k: int|
                    0 <= k < rest.len() && (#[trigger] rest[k]).id != from && rest[k].conn == before[i].0;
                assert(roster[k] == rest[k]);
            } else {
                assert(roster[roster.len() - 1] == roster.last());
            }
        }
        assert forall|k: int| 0 <= k < roster.len() && (#[trigger] roster[k]).id != from implies out.contains(
            (roster[k].conn, msg),
        ) by {
            if k < rest.len() {
                assert(rest[k] == roster[k]);
                assert(before.contains((rest[k].conn, msg)));
                let i = choose|i: int| 0 <= i < before.len() && before[i] == (rest[k].conn, msg);
                assert(out[i] == before[i]);
            } else {
                assert(out[out.len() - 1] == (roster[k].conn, msg));
            }
        }
    }
}

/// A text goes to everyone on the roster but its sender.
pub proof fn law_texts_reach_everyone_else(
    roster: Seq<ConnModel>,
    conn: u64,
    who: Option<Seq<u8>>,
    b: Seq<u8>,
    k: int,
)
    requires
        groupsession::parse_msg(b) is Ok,
        groupsession::parse_msg(b)->Ok_0 is Text,
        0 <= k < roster.len(),
    ensures
        ({
            let from = groupsession::parse_msg(b)->Ok_0->Text_from;
            roster[k].id != from ==> relay_step(roster, conn, who, b).2.contains((roster[k].conn, b))
        }),
{
    groupsession::law_msg_canonical(b);
    let m = groupsession::parse_msg(b)->Ok_0;
    lemma_to_others(roster, m->Text_from, groupsession::msg_bytes(m));
}

/// What one member says, another one reads, through a host that knows neither
/// of their keys: the host hands the text to everyone else on the roster, and
/// whoever follows the sender opens it.
pub proof fn law_relayed_texts_open(
    roster: Seq<ConnModel>,
    conn: u64,
    who: Option<Seq<u8>>,
    k: int,
    a: groupsession::MemberModel,
    b: groupsession::MemberModel,
    ck0: Seq<u8>,
    base: int,
    plaintext: Seq<u8>,
)
    requires
        0 <= k < roster.len(),
        roster[k].id == b.id,
        a.id.len() == 16,
        a.id != b.id,
        b.receivers.contains_key(a.id),
        group::valid_receiver(b.receivers[a.id]),
        group::follows(b.receivers[a.id], crypto::ed25519_public(a.sender.seed), ck0, base),
        group::sends_on(a.sender, ck0, base),
        b.receivers[a.id].iteration <= a.sender.iteration < u32::MAX,
        a.sender.iteration - b.receivers[a.id].iteration <= group::MAX_SKIP,
        ({
            let ct = group::wire_of(a.sender, plaintext);
            &&& group::genuine(a.sender.chain_key, a.sender.iteration, plaintext, ct)
            &&& group::signed_by(crypto::ed25519_public(a.sender.seed), ct)
        }),
    ensures
        ({
            let ct = group::wire_of(a.sender, plaintext);
            let sent = groupsession::msg_bytes(GroupMsgModel::Text { from: a.id, ct });
            &&& relay_step(roster, conn, who, sent).2.contains((roster[k].conn, sent))
            &&& groupsession::parse_msg(sent) == Ok::<GroupMsgModel, groupsession::SessionError>(
                GroupMsgModel::Text { from: a.id, ct },
            )
            &&& groupsession::text_step(b, a.id, ct) matches Ok((read, after)) && read == plaintext && group::follows(
                after.receivers[a.id],
                crypto::ed25519_public(a.sender.seed),
                ck0,
                base,
            )
        }),
{
    let ct = group::wire_of(a.sender, plaintext);
    let msg = GroupMsgModel::Text { from: a.id, ct };
    groupsession::law_msg_round_trip(msg);
    law_texts_reach_everyone_else(roster, conn, who, groupsession::msg_bytes(msg), k);
    group::law_message_opens(
        b.receivers[a.id],
        crypto::ed25519_public(a.sender.seed),
        ck0,
        base,
        a.sender.iteration,
        plaintext,
        ct,
    );
}

/// The host reads neither keys nor texts: what it does with them depends on
/// their addressee or sender alone, not on what is sealed.
pub proof fn law_host_is_blind(
    roster: Seq<ConnModel>,
    conn: u64,
    who: Option<Seq<u8>>,
    a: Seq<u8>,
    b: Seq<u8>,
)
    requires
        groupsession::parse_msg(a) is Ok,
        groupsession::parse_msg(b) is Ok,
        match (groupsession::parse_msg(a)->Ok_0, groupsession::parse_msg(b)->Ok_0) {
            (
                GroupMsgModel::KeyFor { to: t1, .. },
                GroupMsgModel::KeyFor { to: t2, .. },
            ) => t1 == t2,
            (GroupMsgModel::Text { from: f1, .. }, GroupMsgModel::Text { from: f2, .. }) => f1 == f2,
            _ => false,
        },
    ensures
        relay_step(roster, conn, who, a).0 == relay_step(roster, conn, who, b).0,
        relay_step(roster, conn, who, a).2.len() == relay_step(roster, conn, who, b).2.len(),
        forall|i: int|
            0 <= i < relay_step(roster, conn, who, a).2.len() ==> (#[trigger] relay_step(roster, conn, who, a).2[i]).0
                == relay_step(roster, conn, who, b).2[i].0,
{
    match (groupsession::parse_msg(a)->Ok_0, groupsession::parse_msg(b)->Ok_0) {
        (GroupMsgModel::Text { from, ct: c1 }, GroupMsgModel::Text { from: f2, ct: c2 }) => {
            lemma_same_targets(
                roster,
                from,
                groupsession::msg_bytes(GroupMsgModel::Text { from, ct: c1 }),
                groupsession::msg_bytes(GroupMsgModel::Text { from, ct: c2 }),
            );
        },
        _ => {},
    }
}

/// Whom something goes to does not depend on what it is.
proof fn lemma_same_targets(roster: Seq<ConnModel>, from: Seq<u8>, a: Seq<u8>, b: Seq<u8>)
    ensures
        to_others(roster, from, a).len() == to_others(roster, from, b).len(),
        forall|i: int|
            0 <= i < to_others(roster, from, a).len() ==> (#[trigger] to_others(roster, from, a)[i]).0 == to_others(
                roster,
                from,
                b,
            )[i].0,
    decreases roster.len(),
{
    if roster.len() > 0 {
        lemma_same_targets(roster.drop_last(), from, a, b);
    }
}

/// Whether everyone on a roster is told just who is on it: each is sent one message,
/// in turn, and what is sent names the members and their keys, all of them and in
/// their order.
pub open spec fn tells_everyone(roster: Seq<ConnModel>, out: Seq<(u64, Seq<u8>)>) -> bool {
    &&& out.len() == roster.len()
    &&& forall|i: int|
        #![trigger out[i]]
        0 <= i < out.len() ==> {
            &&& out[i].0 == roster[i].conn
            &&& groupsession::parse_msg(out[i].1) matches Ok(GroupMsgModel::Roster { members }) && {
                &&& members.len() == roster.len()
                &&& forall|k: int|
                    #![trigger members[k]]
                    0 <= k < members.len() ==> members[k] == (roster[k].id, roster[k].public)
            }
        }
}

/// Whether a roster can be told: its ids and keys have their lengths, and there are
/// not too many members to be counted.
pub open spec fn can_be_told(roster: Seq<ConnModel>) -> bool {
    &&& roster.len() < 0x1_0000
    &&& forall|i: int| #![trigger roster[i]] 0 <= i < roster.len() ==> roster[i].id.len() == 16 && roster[i].public.len() == 32
}

/// The roster as it is sent to all names everyone on it.
proof fn lemma_everyone_is_told(roster: Seq<ConnModel>)
    requires
        can_be_told(roster),
    ensures
        tells_everyone(roster, to_all(roster, groupsession::msg_bytes(roster_msg(roster)))),
{
    let msg = roster_msg(roster);
    let members = msg->members;
    assert forall|i: int| #![trigger members[i]] 0 <= i < members.len() implies members[i].0.len() == 16
        && members[i].1.len() == 32 by {
        assert(members[i] == (roster[i].id, roster[i].public));
    }
    groupsession::law_msg_round_trip(msg);
    let out = to_all(roster, groupsession::msg_bytes(msg));
    assert forall|i: int| #![trigger out[i]] 0 <= i < out.len() implies out[i] == (
        roster[i].conn,
        groupsession::msg_bytes(msg),
    ) by {}
}

/// When the connection of a member ends, that member alone goes. Everyone else who
/// stood on the roster still stands on it, with the same key and connection, nobody
/// is on it who was not before, and each of those who remain is told just that
/// roster. A connection that belongs to nobody changes nothing and tells nobody.
pub proof fn law_only_the_leaver_goes(roster: Seq<ConnModel>, id: Seq<u8>)
    requires
        seats_distinct(roster),
        can_be_told(roster),
    ensures
        ({
            let (after, out) = leave_step(roster, Some(id));
            &&& forall|m: ConnModel| #[trigger] after.contains(m) <==> roster.contains(m) && m.id != id
            &&& seats_distinct(after)
            &&& after.len() == roster.len() - if exists|k: int| 0 <= k < roster.len() && (#[trigger] roster[k]).id == id {
                1int
            } else {
                0int
            }
            &&& tells_everyone(after, out)
        }),
        leave_step(roster, None) == (roster, Seq::<(u64, Seq<u8>)>::empty()),
{
    lemma_seat(roster, id);
    let at = seat(roster, id);
    let after = left(roster, id);
    if at >= 0 {
        assert(roster[at].id == id);
        assert forall|a: int| #![trigger after[a]] 0 <= a < after.len() implies after[a] == roster[if a < at {
            a
        } else {
            a + 1
        }] by {}
        assert forall|m: ConnModel| #[trigger] after.contains(m) <==> roster.contains(m) && m.id != id by {
            if after.contains(m) {
                let a = choose|a: int| 0 <= a < after.len() && after[a] == m;
                let k = if a < at {
                    a
                } else {
                    a + 1
                };
                assert(roster[k] == m);
                assert(roster[k].id != roster[at].id);
            }
            if roster.contains(m) && m.id != id {
                let k = choose|k: int| 0 <= k < roster.len() && roster[k] == m;
                let a = if k < at {
                    k
                } else {
                    k - 1
                };
                assert(after[a] == m);
            }
        }
        assert forall|a: int, b: int| #![trigger after[a], after[b]] 0 <= a < b < after.len() implies after[a].id
            != after[b].id by {
            let ka = if a < at {
                a
            } else {
                a + 1
            };
            let kb = if b < at {
                b
            } else {
                b + 1
            };
            assert(after[a] == roster[ka] && after[b] == roster[kb]);
        }
        assert(can_be_told(after));
    } else {
        assert forall|m: ConnModel| #[trigger] after.contains(m) implies m.id != id by {
            let k = choose|k: int| 0 <= k < roster.len() && roster[k] == m;
            assert(roster[k].id != id);
        }
    }
    lemma_everyone_is_told(after);
}

/// When a member joins, all who were there stay, with the same keys and connections,
/// and it stands on the roster with its own, in the place of what was known under its
/// id. Nobody else is added, its connection belongs to it from then on, and everyone
/// on the new roster is told just that roster, the newcomer among them.
pub proof fn law_joining_adds_the_newcomer(
    roster: Seq<ConnModel>,
    conn: u64,
    who: Option<Seq<u8>>,
    id: Seq<u8>,
    public: Seq<u8>,
)
    requires
        seats_distinct(roster),
        can_be_told(roster),
        roster.len() + 1 < 0x1_0000,
        id.len() == 16,
        public.len() == 32,
    ensures
        ({
            let hello = groupsession::msg_bytes(GroupMsgModel::Hello { id, public });
            let (after, belongs_to, out) = relay_step(roster, conn, who, hello);
            let newcomer = ConnModel { id, public, conn };
            &&& forall|m: ConnModel| #[trigger] after.contains(m) <==> m == newcomer || roster.contains(m) && m.id != id
            &&& seats_distinct(after)
            &&& belongs_to == Some(id)
            &&& tells_everyone(after, out)
        }),
{
    groupsession::law_msg_round_trip(GroupMsgModel::Hello { id, public });
    lemma_seat(roster, id);
    let at = seat(roster, id);
    let newcomer = ConnModel { id, public, conn };
    let after = joined(roster, newcomer);
    assert forall|m: ConnModel| #[trigger] after.contains(m) <==> m == newcomer || roster.contains(m) && m.id != id by {
        if after.contains(m) {
            let a = choose|a: int| 0 <= a < after.len() && after[a] == m;
            if at >= 0 {
                if a != at {
                    assert(roster[a] == m);
                    assert(roster[a].id != roster[at].id);
                }
            } else if a < roster.len() {
                assert(roster[a] == m);
            }
        }
        if m == newcomer {
            assert(after[if at >= 0 { at } else { roster.len() as int }] == m);
        } else if roster.contains(m) && m.id != id {
            let k = choose|k: int| 0 <= k < roster.len() && roster[k] == m;
            assert(after[k] == m);
        }
    }
    assert forall|a: int, b: int| #![trigger after[a], after[b]] 0 <= a < b < after.len() implies after[a].id
        != after[b].id by {
        if at >= 0 {
            assert(roster[a].id != roster[b].id);
        } else if b < roster.len() {
            assert(roster[a].id != roster[b].id);
        } else {
            assert(after[a] == roster[a]);
        }
    }
    assert(can_be_told(after)) by {
        assert forall|i: int| #![trigger after[i]] 0 <= i < after.len() implies after[i].id.len() == 16
            && after[i].public.len() == 32 by {
            if i < roster.len() {
                assert(roster[i].id.len() == 16);
            }
        }
    }
    lemma_everyone_is_told(after);
}

/// Only joining and leaving change who is there. Whatever else comes in leaves the
/// roster and the owner of the connection as they are, and what is neither a key nor
/// a text goes to nobody.
pub proof fn law_talk_leaves_the_roster_alone(roster: Seq<ConnModel>, conn: u64, who: Option<Seq<u8>>, b: Seq<u8>)
    requires
        !(groupsession::parse_msg(b) is Ok && groupsession::parse_msg(b)->Ok_0 is Hello),
    ensures
        relay_step(roster, conn, who, b).0 == roster,
        relay_step(roster, conn, who, b).1 == who,
        !(groupsession::parse_msg(b) is Ok && (groupsession::parse_msg(b)->Ok_0 is KeyFor || groupsession::parse_msg(
            b,
        )->Ok_0 is Text)) ==> relay_step(roster, conn, who, b).2.len() == 0,
{
}

/// Those who are not the sender, counted.
proof fn lemma_others_are_counted(roster: Seq<ConnModel>, from: Seq<u8>, msg: Seq<u8>)
    requires
        seats_distinct(roster),
    ensures
        to_others(roster, from, msg).len() == roster.len() - if exists|k: int|
            0 <= k < roster.len() && (#[trigger] roster[k]).id == from {
            1int
        } else {
            0int
        },
    decreases roster.len(),
{
    if roster.len() > 0 {
        let rest = roster.drop_last();
        assert forall|i: int, j: int| #![trigger rest[i], rest[j]] 0 <= i < j < rest.len() implies rest[i].id
            != rest[j].id by {
            assert(rest[i] == roster[i] && rest[j] == roster[j]);
        }
        lemma_others_are_counted(rest, from, msg);
        let last = roster[roster.len() - 1];
        if last.id == from {
            assert forall|k: int| 0 <= k < rest.len() implies (#[trigger] rest[k]).id != from by {
                assert(rest[k] == roster[k]);
                assert(roster[k].id != last.id);
            }
        } else if exists|k: int| 0 <= k < roster.len() && (#[trigger] roster[k]).id == from {
            let k = choose|k: int| 0 <= k < roster.len() && (#[trigger] roster[k]).id == from;
            assert(rest[k].id == from);
        } else {
            assert forall|k: int| 0 <= k < rest.len() implies (#[trigger] rest[k]).id != from by {
                assert(rest[k] == roster[k]);
            }
        }
    }
}

/// A text is sent to every member but its sender, once to each, byte for byte, and to
/// nobody else.
pub proof fn law_texts_go_once_to_each_other_member(
    roster: Seq<ConnModel>,
    conn: u64,
    who: Option<Seq<u8>>,
    from: Seq<u8>,
    ct: Seq<u8>,
)
    requires
        seats_distinct(roster),
        from.len() == 16,
    ensures
        ({
            let b = groupsession::msg_bytes(GroupMsgModel::Text { from, ct });
            let out = relay_step(roster, conn, who, b).2;
            &&& forall|k: int|
                0 <= k < roster.len() && (#[trigger] roster[k]).id != from ==> out.contains((roster[k].conn, b))
            &&& forall|i: int|
                #![trigger out[i]]
                0 <= i < out.len() ==> out[i].1 == b && exists|k: int|
                    0 <= k < roster.len() && (#[trigger] roster[k]).id != from && roster[k].conn == out[i].0
            &&& out.len() == roster.len() - if exists|k: int| 0 <= k < roster.len() && (#[trigger] roster[k]).id == from {
                1int
            } else {
                0int
            }
        }),
{
    let m = GroupMsgModel::Text { from, ct };
    groupsession::law_msg_round_trip(m);
    lemma_to_others(roster, from, groupsession::msg_bytes(m));
    lemma_others_are_counted(roster, from, groupsession::msg_bytes(m));
}

/// A sealed key is sent to the member that it is for, once and byte for byte, and to
/// nobody else; where that member is not there it goes to nobody.
pub proof fn law_keys_go_to_their_addressee(
    roster: Seq<ConnModel>,
    conn: u64,
    who: Option<Seq<u8>>,
    to: Seq<u8>,
    from: Seq<u8>,
    sealed: Seq<u8>,
)
    requires
        seats_distinct(roster),
        to.len() == 16,
        from.len() == 16,
        sealed.len() < 0x1_0000_0000,
    ensures
        ({
            let b = groupsession::msg_bytes(GroupMsgModel::KeyFor { to, from, sealed });
            let out = relay_step(roster, conn, who, b).2;
            &&& forall|k: int|
                0 <= k < roster.len() && (#[trigger] roster[k]).id == to ==> out == seq![(roster[k].conn, b)]
            &&& (forall|k: int| 0 <= k < roster.len() ==> (#[trigger] roster[k]).id != to) ==> out.len() == 0
        }),
{
    groupsession::law_msg_round_trip(GroupMsgModel::KeyFor { to, from, sealed });
    lemma_seat(roster, to);
    let b = groupsession::msg_bytes(GroupMsgModel::KeyFor { to, from, sealed });
    let out = relay_step(roster, conn, who, b).2;
    assert forall|k: int| 0 <= k < roster.len() && (#[trigger] roster[k]).id == to implies out == seq![(roster[k].conn, b)] by {
        let at = seat(roster, to);
        assert(k <= at);
        if k < at {
            assert(roster[k].id != roster[at].id);
        }
    }
}

/// A member who has left gets nothing of what is said afterwards, and everyone who has
/// stayed does.
pub proof fn law_texts_reach_those_who_stayed(
    roster: Seq<ConnModel>,
    gone: Seq<u8>,
    conn: u64,
    who: Option<Seq<u8>>,
    from: Seq<u8>,
    ct: Seq<u8>,
    k: int,
)
    requires
        seats_distinct(roster),
        can_be_told(roster),
        from.len() == 16,
        0 <= k < roster.len(),
        roster[k].id != gone,
        roster[k].id != from,
    ensures
        ({
            let b = groupsession::msg_bytes(GroupMsgModel::Text { from, ct });
            let after = leave_step(roster, Some(gone)).0;
            let out = relay_step(after, conn, who, b).2;
            &&& out.contains((roster[k].conn, b))
            &&& forall|i: int|
                #![trigger out[i]]
                0 <= i < out.len() ==> exists|m: ConnModel| #[trigger]
                    roster.contains(m) && m.id != gone && m.id != from && m.conn == out[i].0
        }),
{
    law_only_the_leaver_goes(roster, gone);
    let after = leave_step(roster, Some(gone)).0;
    let b = groupsession::msg_bytes(GroupMsgModel::Text { from, ct });
    law_texts_go_once_to_each_other_member(after, conn, who, from, ct);
    let out = relay_step(after, conn, who, b).2;
    assert(roster.contains(roster[k]));
    assert(after.contains(roster[k]));
    let a = choose|a: int| 0 <= a < after.len() && after[a] == roster[k];
    assert(after[a].id != from);
    assert forall|i: int| #![trigger out[i]] 0 <= i < out.len() implies exists|m: ConnModel| #[trigger]
        roster.contains(m) && m.id != gone && m.id != from && m.conn == out[i].0 by {
        let j = choose|j: int| 0 <= j < after.len() && (#[trigger] after[j]).id != from && after[j].conn == out[i].0;
        assert(after.contains(after[j]));
        assert(roster.contains(after[j]));
    }
}

/// Whoever a roster names for the first time, and we are not, gets our sender key in a box
/// that only they can open; the bytes say so to whoever reads them.
pub proof fn law_newcomers_get_our_key(
    m: groupsession::MemberModel,
    members: Seq<(Seq<u8>, Seq<u8>)>,
    b: Seq<u8>,
    after: groupsession::MemberModel,
    r: MemberStep,
    i: int,
)
    requires
        groupsession::parse_msg(b) == Ok::<GroupMsgModel, groupsession::SessionError>(
            GroupMsgModel::Roster { members },
        ),
        member_step(m, b, after, r),
        forall|j: int, k: int|
            #![trigger members[j], members[k]]
            0 <= j < k < members.len() ==> members[j].0 != members[k].0,
        0 <= i < members.len(),
        members[i].0 != m.id,
        !m.keyed_to.contains(members[i].0),
    ensures
        exists|k: int|
            0 <= k < r.outgoing@.len() && hands_key(
                m.id,
                group::distribution_bytes(group::distribution_of(m.sender)),
                members[i],
                #[trigger] r.outgoing@[k]@,
            ),
        after.keyed_to.contains(members[i].0),
        after.roster.contains_key(members[i].0) && after.roster[members[i].0] == members[i].1,
        r.text is None,
{
    let due = groupsession::due(m.keyed_to, m.id, members);
    groupsession::law_roster_keys_everyone(m.keyed_to, m.id, members, i);
    groupsession::law_everyone_is_keyed(m.keyed_to, m.id, members, i);
    groupsession::law_rosters_are_remembered(m.roster, members, members[i].0, i);
    let k = choose|k: int| 0 <= k < due.len() && due[k] == members[i];
    assert(hands_key(
        m.id,
        group::distribution_bytes(group::distribution_of(m.sender)),
        members[i],
        r.outgoing@[k]@,
    ));
}

/// A text that opens is shown, with its sender and as it was said; one that does not open,
/// and whatever is neither text nor key nor roster, changes nothing and shows nothing.
pub proof fn law_texts_are_shown(
    m: groupsession::MemberModel,
    b: Seq<u8>,
    after: groupsession::MemberModel,
    r: MemberStep,
)
    requires
        member_step(m, b, after, r),
    ensures
        match groupsession::parse_msg(b) {
            Ok(GroupMsgModel::Text { from, ct }) => {
                &&& r.outgoing@.len() == 0
                &&& groupsession::text_step(m, from, ct) matches Ok((plaintext, read)) ==> {
                    &&& r.text is Some
                    &&& (r.text->0).0@ == from
                    &&& (r.text->0).1@ == plaintext
                    &&& after == read
                }
                &&& groupsession::text_step(m, from, ct) is Err ==> r.text is None && after == m
            },
            Ok(GroupMsgModel::KeyFor { from, sealed, .. }) => {
                &&& r.outgoing@.len() == 0 && r.text is None
                &&& groupsession::key_for_step(m, from, sealed) is Ok ==> after.receivers.contains_key(from)
                &&& groupsession::key_for_step(m, from, sealed) is Err ==> after == m
            },
            Ok(GroupMsgModel::Roster { .. }) => r.text is None,
            _ => r.outgoing@.len() == 0 && r.text is None && after == m,
        },
{
}

/// The bytes that hand our sender key to a recipient name that recipient and us, and hold
/// a box that opens with the recipient's secret to the key.
pub proof fn law_keys_name_their_recipient(
    own: Seq<u8>,
    dist: Seq<u8>,
    recipient: (Seq<u8>, Seq<u8>),
    b: Seq<u8>,
    secret: Seq<u8>,
)
    requires
        own.len() == 16,
        recipient.0.len() == 16,
        hands_key(own, dist, recipient, b),
        secret.len() == 32,
        crypto::x25519_public(secret) == recipient.1,
    ensures
        b.len() >= 37,
        b[0] == 3,
        b.subrange(1, 17) == recipient.0,
        b.subrange(17, 33) == own,
        groupsession::opened_box(secret, b.skip(37)) == Ok::<Seq<u8>, groupsession::SessionError>(dist),
{
    let sealed = choose|sealed: Seq<u8>|
        groupsession::is_box_for(recipient.1, dist, sealed) && b == #[trigger] groupsession::msg_bytes(
            GroupMsgModel::KeyFor { to: recipient.0, from: own, sealed },
        );
    bytes::lemma_be32((sealed.len() % 0x1_0000_0000) as int, bytes::zeros(4));
    assert(b.subrange(1, 17) =~= recipient.0);
    assert(b.subrange(17, 33) =~= own);
    assert(b.skip(37) =~= sealed);
}

} // verus!
