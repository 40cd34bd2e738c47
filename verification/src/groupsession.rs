//! Groups whose host cannot read them.
//!
//! A group is a hub: every member has a channel to the host, and the host
//! relays. Group text is encrypted once, under the sender's sender key, which
//! only members hold. The sender key itself travels in a sealed box for each
//! recipient. So the host learns who is in the room, and nothing else.
use vstd::prelude::*;
use vstd::string::*;

use crate::assoc::Assoc;
use crate::bytes;
use crate::crypto;
use crate::crypto::Secret;
use crate::group;
use crate::group::{GroupError, ReceiverState, SenderKeyDistribution, SenderKeyState};
use crate::text;

verus! {

/// A member of a group, for the length of a session.
pub type MemberId = [u8; 16];

/// The label of sealed boxes.
pub const SEALEDBOX_INFO: &'static str = "ciphext-group-sealedbox-v1";

pub const G_HELLO: u8 = 1;

pub const G_ROSTER: u8 = 2;

pub const G_KEYFOR: u8 = 3;

pub const G_TEXT: u8 = 4;

/// Why the group layer refused something.
#[derive(Debug, Clone, Copy, PartialEq, Eq, Structural)]
pub enum SessionError {
    /// A message without a type.
    Empty,
    /// A `Hello` of the wrong length.
    HelloLength,
    /// A `Roster` without a count.
    RosterShort,
    /// A `Roster` whose count does not match its length.
    RosterLength,
    /// A `KeyFor` that is too short for its fields.
    KeyForShort,
    /// A `KeyFor` whose sealed box is not as long as it says.
    KeyForLength,
    /// A `Text` that is too short for its sender.
    TextShort,
    /// A message of a type that is not known.
    UnknownType(u8),
    /// A sealed box that is too short to be one.
    BoxShort,
    /// A sealed box that is not for us, or was altered.
    BoxRefused,
    /// A sealed box that holds something else than a distribution.
    BadDistribution(GroupError),
    /// A text of a member whose sender key we do not have.
    NoSenderKey,
    /// A text that does not open.
    Text(GroupError),
}

/// The text of an error.
pub open spec fn error_text(e: SessionError) -> Seq<char> {
    match e {
        SessionError::Empty => "group: empty message"@,
        SessionError::HelloLength => "group: bad Hello length"@,
        SessionError::RosterShort => "group: short Roster"@,
        SessionError::RosterLength => "group: Roster length mismatch"@,
        SessionError::KeyForShort => "group: short KeyFor"@,
        SessionError::KeyForLength => "group: KeyFor sealed length mismatch"@,
        SessionError::TextShort => "group: short Text"@,
        SessionError::UnknownType(t) => "group: unknown message type 0x"@ + text::hex_byte(t),
        SessionError::BoxShort => "group: sealed box too short"@,
        SessionError::BoxRefused => "group: sealed box authentication failed"@,
        SessionError::BadDistribution(g) => "group: bad key distribution: "@ + group::error_text(g),
        SessionError::NoSenderKey => "group: no sender key for that member"@,
        SessionError::Text(g) => "group: "@ + group::error_text(g),
    }
}

impl SessionError {
    /// The error in words.
    pub fn to_string(&self) -> (r: String)
        ensures
            r@ == error_text(*self),
    {
        match self {
            SessionError::Empty => "group: empty message".to_owned(),
            SessionError::HelloLength => "group: bad Hello length".to_owned(),
            SessionError::RosterShort => "group: short Roster".to_owned(),
            SessionError::RosterLength => "group: Roster length mismatch".to_owned(),
            SessionError::KeyForShort => "group: short KeyFor".to_owned(),
            SessionError::KeyForLength => "group: KeyFor sealed length mismatch".to_owned(),
            SessionError::TextShort => "group: short Text".to_owned(),
            SessionError::UnknownType(t) => {
                let mut out = "group: unknown message type 0x".to_owned();
                text::push_hex_byte(&mut out, *t);
                out
            },
            SessionError::BoxShort => "group: sealed box too short".to_owned(),
            SessionError::BoxRefused => "group: sealed box authentication failed".to_owned(),
            SessionError::BadDistribution(g) => {
                let mut out = "group: bad key distribution: ".to_owned();
                out.append(g.to_string().as_str());
                out
            },
            SessionError::NoSenderKey => "group: no sender key for that member".to_owned(),
            SessionError::Text(g) => {
                let mut out = "group: ".to_owned();
                out.append(g.to_string().as_str());
                out
            },
        }
    }
}

// ---------------------------------------------------------------------------
// Sealed boxes
// ---------------------------------------------------------------------------

/// The key of a box, from the secret that its two ends agree on.
pub open spec fn box_key(shared: Seq<u8>) -> Seq<u8> {
    crypto::hkdf_sha256(None, shared, SEALEDBOX_INFO.spec_bytes(), 32)
}

/// The box for the holder of `recipient`, made with the ephemeral secret `eph`:
/// the ephemeral public key, and the ciphertext. Every box has its own key, so
/// the nonce is fixed.
pub open spec fn sealed_box(eph: Seq<u8>, recipient: Seq<u8>, plaintext: Seq<u8>) -> Seq<u8> {
    crypto::x25519_public(eph) + crypto::chacha20poly1305_seal(
        box_key(crypto::x25519_shared(eph, recipient)),
        bytes::zeros(12),
        Seq::empty(),
        plaintext,
    )
}

/// What a box holds for the holder of `secret`, or why it does not open.
pub open spec fn opened_box(secret: Seq<u8>, wire: Seq<u8>) -> Result<Seq<u8>, SessionError> {
    if wire.len() < 48 {
        Err(SessionError::BoxShort)
    } else {
        match crypto::chacha20poly1305_open(
            box_key(crypto::x25519_shared(secret, wire.subrange(0, 32))),
            bytes::zeros(12),
            Seq::empty(),
            wire.subrange(32, wire.len() as int),
        ) {
            Some(plaintext) => Ok(plaintext),
            None => Err(SessionError::BoxRefused),
        }
    }
}

/// Whether `wire` is a box with `plaintext` for the holder of `recipient`: it
/// was made with some ephemeral secret, and the recipient's secret opens it.
pub open spec fn is_box_for(recipient: Seq<u8>, plaintext: Seq<u8>, wire: Seq<u8>) -> bool {
    &&& exists|eph: Seq<u8>| eph.len() == 32 && wire == #[trigger] sealed_box(eph, recipient, plaintext)
    &&& forall|secret: Seq<u8>|
        secret.len() == 32 && #[trigger] crypto::x25519_public(secret) == recipient ==> opened_box(secret, wire)
            == Ok::<Seq<u8>, SessionError>(plaintext)
}

/// Seals a box with the ephemeral secret `eph`.
pub fn seal_to_with(eph: Secret, recipient_pub: &[u8; 32], plaintext: &[u8]) -> (r: Vec<u8>)
    requires
        crypto::aead_fits(plaintext@.len()),
    ensures
        r@ == sealed_box(eph@, recipient_pub@, plaintext@),
        r@.len() == 48 + plaintext@.len(),
        is_box_for(recipient_pub@, plaintext@, r@),
{
    let eph_pub = crypto::public_key(&eph.bytes);
    let shared = crypto::agree(&eph.bytes, recipient_pub);
    let key = sealedbox_kdf(&shared);
    let nonce = [0u8; 12];
    assert(nonce@ =~= bytes::zeros(12));
    let aad: Vec<u8> = Vec::new();
    let ct = crypto::seal(&key.bytes, &nonce, aad.as_slice(), plaintext).unwrap();
    let mut out: Vec<u8> = Vec::new();
    out.extend_from_slice(eph_pub.as_slice());
    out.extend_from_slice(ct.as_slice());
    proof {
        assert(aad@ =~= Seq::<u8>::empty());
        assert(out@ =~= sealed_box(eph@, recipient_pub@, plaintext@));
        assert(out@.subrange(0, 32) =~= eph_pub@);
        assert(out@.subrange(32, out@.len() as int) =~= ct@);
        assert(eph@.len() == 32);
    }
    out
}

/// Seals a box that only the holder of the secret behind `recipient_pub` opens.
pub fn seal_to(recipient_pub: &[u8; 32], plaintext: &[u8]) -> (r: Vec<u8>)
    requires
        crypto::aead_fits(plaintext@.len()),
    ensures
        r@.len() == 48 + plaintext@.len(),
        is_box_for(recipient_pub@, plaintext@, r@),
{
    seal_to_with(Secret::new(crypto::random_bytes::<32>()), recipient_pub, plaintext)
}

/// Opens a box for us.
pub fn open_sealed(my_secret: &Secret, wire: &[u8]) -> (r: Result<Vec<u8>, SessionError>)
    ensures
        match (r, opened_box(my_secret@, wire@)) {
            (Ok(p), Ok(out)) => p@ == out,
            (Err(e), Err(reason)) => e == reason,
            _ => false,
        },
{
    if wire.len() < 48 {
        return Err(SessionError::BoxShort);
    }
    let eph_pub = bytes::take::<32>(wire, 0);
    let shared = crypto::agree(&my_secret.bytes, &eph_pub);
    let key = sealedbox_kdf(&shared);
    let nonce = [0u8; 12];
    assert(nonce@ =~= bytes::zeros(12));
    let aad: Vec<u8> = Vec::new();
    assert(aad@ =~= Seq::<u8>::empty());
    match crypto::open(
        &key.bytes,
        &nonce,
        aad.as_slice(),
        vstd::slice::slice_subrange(wire, 32, wire.len()),
    ) {
        Some(p) => Ok(p),
        None => Err(SessionError::BoxRefused),
    }
}

/// The key of a box.
fn sealedbox_kdf(shared: &Secret) -> (r: Secret)
    ensures
        r@ == box_key(shared@),
{
    Secret::new(crypto::hkdf::<32>(None, shared.bytes.as_slice(), SEALEDBOX_INFO.as_bytes()))
}

// ---------------------------------------------------------------------------
// Messages
// ---------------------------------------------------------------------------

/// What members and host exchange. Only `sealed` and `ct` carry secrets, and
/// the host reads neither.
#[derive(Debug, Clone, PartialEq, Eq)]
pub enum GroupMsg {
    /// A member who joins tells the host its id and public key.
    Hello { id: MemberId, public: [u8; 32] },
    /// The host tells the members who is there.
    Roster { members: Vec<(MemberId, [u8; 32])> },
    /// The sender key of `from`, sealed for `to`.
    KeyFor { to: MemberId, from: MemberId, sealed: Vec<u8> },
    /// A text of `from`, under its sender key.
    Text { from: MemberId, ct: Vec<u8> },
}

/// A message, as contracts see it.
pub enum GroupMsgModel {
    Hello { id: Seq<u8>, public: Seq<u8> },
    Roster { members: Seq<(Seq<u8>, Seq<u8>)> },
    KeyFor { to: Seq<u8>, from: Seq<u8>, sealed: Seq<u8> },
    Text { from: Seq<u8>, ct: Seq<u8> },
}

/// A roster, as contracts see it.
pub open spec fn members_view(members: Seq<(MemberId, [u8; 32])>) -> Seq<(Seq<u8>, Seq<u8>)> {
    members.map_values(|m: (MemberId, [u8; 32])| (m.0@, m.1@))
}

impl View for GroupMsg {
    type V = GroupMsgModel;

    open spec fn view(&self) -> GroupMsgModel {
        match self {
            GroupMsg::Hello { id, public } => GroupMsgModel::Hello { id: id@, public: public@ },
            GroupMsg::Roster { members } => GroupMsgModel::Roster { members: members_view(members@) },
            GroupMsg::KeyFor { to, from, sealed } => GroupMsgModel::KeyFor { to: to@, from: from@, sealed: sealed@ },
            GroupMsg::Text { from, ct } => GroupMsgModel::Text { from: from@, ct: ct@ },
        }
    }
}

/// The bytes of a roster: id and key of each member.
pub open spec fn roster_bytes(members: Seq<(Seq<u8>, Seq<u8>)>) -> Seq<u8>
    decreases members.len(),
{
    if members.len() == 0 {
        Seq::empty()
    } else {
        roster_bytes(members.drop_last()) + members.last().0 + members.last().1
    }
}

/// The bytes of a message. A count or a length that does not fit its field is
/// cut down to the field's width.
pub open spec fn msg_bytes(m: GroupMsgModel) -> Seq<u8> {
    match m {
        GroupMsgModel::Hello { id, public } => seq![G_HELLO] + id + public,
        GroupMsgModel::Roster { members } => seq![G_ROSTER] + bytes::be16((members.len() % 0x1_0000) as int)
            + roster_bytes(members),
        GroupMsgModel::KeyFor { to, from, sealed } => seq![G_KEYFOR] + to + from + bytes::be32(
            (sealed.len() % 0x1_0000_0000) as int,
        ) + sealed,
        GroupMsgModel::Text { from, ct } => seq![G_TEXT] + from + ct,
    }
}

/// The members that the bytes of a roster name.
pub open spec fn parse_members(body: Seq<u8>, count: nat) -> Seq<(Seq<u8>, Seq<u8>)> {
    Seq::new(count, |i: int| (body.subrange(48 * i, 48 * i + 16), body.subrange(48 * i + 16, 48 * i + 48)))
}

/// The message that bytes encode, or why they encode none.
pub open spec fn parse_msg(b: Seq<u8>) -> Result<GroupMsgModel, SessionError> {
    if b.len() == 0 {
        Err(SessionError::Empty)
    } else if b[0] == G_HELLO {
        if b.len() != 49 {
            Err(SessionError::HelloLength)
        } else {
            Ok(GroupMsgModel::Hello { id: b.subrange(1, 17), public: b.subrange(17, 49) })
        }
    } else if b[0] == G_ROSTER {
        let count = bytes::from_be16(b.subrange(1, 3));
        if b.len() < 3 {
            Err(SessionError::RosterShort)
        } else if b.len() - 3 != 48 * count {
            Err(SessionError::RosterLength)
        } else {
            Ok(GroupMsgModel::Roster { members: parse_members(b.subrange(3, b.len() as int), count as nat) })
        }
    } else if b[0] == G_KEYFOR {
        if b.len() < 37 {
            Err(SessionError::KeyForShort)
        } else if b.len() - 37 != bytes::from_be32(b.subrange(33, 37)) {
            Err(SessionError::KeyForLength)
        } else {
            Ok(
                GroupMsgModel::KeyFor {
                    to: b.subrange(1, 17),
                    from: b.subrange(17, 33),
                    sealed: b.subrange(37, b.len() as int),
                },
            )
        }
    } else if b[0] == G_TEXT {
        if b.len() < 17 {
            Err(SessionError::TextShort)
        } else {
            Ok(GroupMsgModel::Text { from: b.subrange(1, 17), ct: b.subrange(17, b.len() as int) })
        }
    } else {
        Err(SessionError::UnknownType(b[0]))
    }
}

/// Whether a message's counts and lengths fit their fields, and its ids and
/// keys have the length that they have on the wire.
pub open spec fn msg_fits(m: GroupMsgModel) -> bool {
    match m {
        GroupMsgModel::Hello { id, public } => id.len() == 16 && public.len() == 32,
        GroupMsgModel::Roster { members } => {
            &&& members.len() < 0x1_0000
            &&& forall|i: int|
                #![trigger members[i]]
                0 <= i < members.len() ==> members[i].0.len() == 16 && members[i].1.len() == 32
        },
        GroupMsgModel::KeyFor { to, from, sealed } => to.len() == 16 && from.len() == 16 && sealed.len() < 0x1_0000_0000,
        GroupMsgModel::Text { from, ct } => from.len() == 16,
    }
}

impl GroupMsg {
    /// The bytes of the message.
    pub fn encode(&self) -> (r: Vec<u8>)
        ensures
            r@ == msg_bytes(self@),
    {
        let mut v: Vec<u8> = Vec::new();
        match self {
            GroupMsg::Hello { id, public } => {
                v.push(G_HELLO);
                v.extend_from_slice(id.as_slice());
                v.extend_from_slice(public.as_slice());
                assert(v@ =~= seq![G_HELLO] + id@ + public@);
            },
            GroupMsg::Roster { members } => {
                v.push(G_ROSTER);
                let count: u16 = (members.len() % 0x1_0000) as u16;
                bytes::put_be16(&mut v, count);
                let ghost head = v@;
                let ghost all = members_view(members@);
                assert(head =~= seq![G_ROSTER] + bytes::be16((all.len() % 0x1_0000) as int));
                let mut i: usize = 0;
                assert(all.take(0) =~= Seq::<(Seq<u8>, Seq<u8>)>::empty());
                assert(v@ =~= head + roster_bytes(all.take(0)));
                while i < members.len()
                    invariant
                        i <= members@.len(),
                        all == members_view(members@),
                        v@ == head + roster_bytes(all.take(i as int)),
                    decreases members.len() - i,
                {
                    let ghost before = v@;
                    v.extend_from_slice(members[i].0.as_slice());
                    v.extend_from_slice(members[i].1.as_slice());
                    proof {
                        let next = all.take(i + 1);
                        assert(next.drop_last() =~= all.take(i as int));
                        assert(next.last() == all[i as int]);
                        assert(v@ =~= before + all[i as int].0 + all[i as int].1);
                        assert(v@ =~= head + roster_bytes(next));
                    }
                    i += 1;
                }
                assert(all.take(i as int) =~= all);
                assert(v@ =~= msg_bytes(self@));
            },
            GroupMsg::KeyFor { to, from, sealed } => {
                v.push(G_KEYFOR);
                v.extend_from_slice(to.as_slice());
                v.extend_from_slice(from.as_slice());
                let len: u32 = (sealed.len() as u64 % 0x1_0000_0000) as u32;
                bytes::put_be32(&mut v, len);
                v.extend_from_slice(sealed.as_slice());
                assert(v@ =~= seq![G_KEYFOR] + to@ + from@ + bytes::be32(len as int) + sealed@);
            },
            GroupMsg::Text { from, ct } => {
                v.push(G_TEXT);
                v.extend_from_slice(from.as_slice());
                v.extend_from_slice(ct.as_slice());
                assert(v@ =~= seq![G_TEXT] + from@ + ct@);
            },
        }
        v
    }

    /// Reads a message.
    pub fn decode(b: &[u8]) -> (r: Result<GroupMsg, SessionError>)
        ensures
            match (r, parse_msg(b@)) {
                (Ok(m), Ok(out)) => m@ == out,
                (Err(e), Err(reason)) => e == reason,
                _ => false,
            },
    {
        if b.len() == 0 {
            return Err(SessionError::Empty);
        }
        let tag: u8 = b[0];
        if tag == G_HELLO {
            if b.len() != 49 {
                return Err(SessionError::HelloLength);
            }
            Ok(GroupMsg::Hello { id: bytes::take::<16>(b, 1), public: bytes::take::<32>(b, 17) })
        } else if tag == G_ROSTER {
            if b.len() < 3 {
                return Err(SessionError::RosterShort);
            }
            let count: usize = bytes::get_be16(b, 1) as usize;
            if b.len() - 3 != count * 48 {
                return Err(SessionError::RosterLength);
            }
            let mut members: Vec<(MemberId, [u8; 32])> = Vec::new();
            let ghost body = b@.subrange(3, b@.len() as int);
            let mut i: usize = 0;
            while i < count
                invariant
                    i <= count,
                    b.len() - 3 == count * 48,
                    body == b@.subrange(3, b@.len() as int),
                    members_view(members@) =~= parse_members(body, i as nat),
                decreases count - i,
            {
                let at: usize = 3 + 48 * i;
                let id = bytes::take::<16>(b, at);
                let pk = bytes::take::<32>(b, at + 16);
                let ghost before = members_view(members@);
                members.push((id, pk));
                proof {
                    assert(id@ =~= body.subrange(48 * i, 48 * i + 16));
                    assert(pk@ =~= body.subrange(48 * i + 16, 48 * i + 48));
                    assert(members_view(members@) =~= before.push((id@, pk@)));
                }
                i += 1;
            }
            Ok(GroupMsg::Roster { members })
        } else if tag == G_KEYFOR {
            if b.len() < 37 {
                return Err(SessionError::KeyForShort);
            }
            let slen: u32 = bytes::get_be32(b, 33);
            if (b.len() - 37) as u64 != slen as u64 {
                return Err(SessionError::KeyForLength);
            }
            Ok(
                GroupMsg::KeyFor {
                    to: bytes::take::<16>(b, 1),
                    from: bytes::take::<16>(b, 17),
                    sealed: bytes::copy_range(b, 37, b.len()),
                },
            )
        } else if tag == G_TEXT {
            if b.len() < 17 {
                return Err(SessionError::TextShort);
            }
            Ok(GroupMsg::Text { from: bytes::take::<16>(b, 1), ct: bytes::copy_range(b, 17, b.len()) })
        } else {
            Err(SessionError::UnknownType(tag))
        }
    }
}

/// The bytes of a roster are 48 for each member, and name the members in order.
proof fn lemma_roster_bytes(members: Seq<(Seq<u8>, Seq<u8>)>)
    requires
        forall|i: int|
            #![trigger members[i]]
            0 <= i < members.len() ==> members[i].0.len() == 16 && members[i].1.len() == 32,
    ensures
        roster_bytes(members).len() == 48 * members.len(),
        parse_members(roster_bytes(members), members.len()) == members,
    decreases members.len(),
{
    if members.len() == 0 {
        assert(parse_members(roster_bytes(members), 0) =~= members);
    } else {
        let rest = members.drop_last();
        assert forall|i: int| #![trigger rest[i]] 0 <= i < rest.len() implies rest[i].0.len() == 16
            && rest[i].1.len() == 32 by {
            assert(rest[i] == members[i]);
        }
        lemma_roster_bytes(rest);
        let last = members.last();
        let n = members.len() as int;
        assert(members[n - 1] == last);
        let all = roster_bytes(members);
        let head = roster_bytes(rest);
        let parsed = parse_members(all, members.len());
        let parsed_rest = parse_members(head, rest.len());
        assert(all.len() == head.len() + 48);
        assert forall|i: int| 0 <= i < n implies #[trigger] parsed[i] == members[i] by {
            if i < n - 1 {
                assert(all.subrange(48 * i, 48 * i + 16) =~= head.subrange(48 * i, 48 * i + 16));
                assert(all.subrange(48 * i + 16, 48 * i + 48) =~= head.subrange(48 * i + 16, 48 * i + 48));
                assert(parsed_rest[i] == rest[i]);
                assert(rest[i] == members[i]);
            } else {
                assert(all.subrange(48 * i, 48 * i + 16) =~= last.0);
                assert(all.subrange(48 * i + 16, 48 * i + 48) =~= last.1);
            }
        }
        assert(parsed =~= members);
    }
}

/// The members that bytes name have those bytes.
proof fn lemma_parse_members(body: Seq<u8>, count: nat)
    requires
        body.len() == 48 * count,
    ensures
        roster_bytes(parse_members(body, count)) == body,
    decreases count,
{
    let parsed = parse_members(body, count);
    if count == 0 {
        assert(roster_bytes(parsed) =~= body);
    } else {
        let shorter = body.subrange(0, 48 * (count - 1));
        lemma_parse_members(shorter, (count - 1) as nat);
        let parsed_rest = parse_members(shorter, (count - 1) as nat);
        assert forall|i: int| 0 <= i < count - 1 implies #[trigger] parsed[i] == parsed_rest[i] by {
            assert(shorter.subrange(48 * i, 48 * i + 16) =~= body.subrange(48 * i, 48 * i + 16));
            assert(shorter.subrange(48 * i + 16, 48 * i + 48) =~= body.subrange(48 * i + 16, 48 * i + 48));
        }
        assert(parsed.drop_last() =~= parsed_rest);
        assert(roster_bytes(parsed) =~= body);
    }
}

/// Decoding gives back what was encoded, for every message whose counts and
/// lengths fit their fields.
pub proof fn law_msg_round_trip(m: GroupMsgModel)
    requires
        msg_fits(m),
    ensures
        parse_msg(msg_bytes(m)) == Ok::<GroupMsgModel, SessionError>(m),
{
    let b = msg_bytes(m);
    match m {
        GroupMsgModel::Hello { id, public } => {
            assert(b.subrange(1, 17) =~= id);
            assert(b.subrange(17, 49) =~= public);
        },
        GroupMsgModel::Roster { members } => {
            lemma_roster_bytes(members);
            let n = members.len() as int;
            bytes::lemma_be16(n, bytes::zeros(2));
            assert(b.subrange(1, 3) =~= bytes::be16(n));
            assert(b.subrange(3, b.len() as int) =~= roster_bytes(members));
        },
        GroupMsgModel::KeyFor { to, from, sealed } => {
            let n = sealed.len() as int;
            bytes::lemma_be32(n, bytes::zeros(4));
            assert(b.subrange(1, 17) =~= to);
            assert(b.subrange(17, 33) =~= from);
            assert(b.subrange(33, 37) =~= bytes::be32(n));
            assert(b.subrange(37, b.len() as int) =~= sealed);
        },
        GroupMsgModel::Text { from, ct } => {
            assert(b.subrange(1, 17) =~= from);
            assert(b.subrange(17, b.len() as int) =~= ct);
        },
    }
}

/// Only one string of bytes decodes to a message.
pub proof fn law_msg_canonical(b: Seq<u8>)
    requires
        parse_msg(b) is Ok,
    ensures
        msg_bytes(parse_msg(b)->Ok_0) == b,
        msg_fits(parse_msg(b)->Ok_0),
{
    if b[0] == G_ROSTER {
        let field = b.subrange(1, 3);
        let count = bytes::from_be16(field);
        bytes::lemma_be16(count, field);
        lemma_parse_members(b.subrange(3, b.len() as int), count as nat);
    } else if b[0] == G_KEYFOR {
        bytes::lemma_be32(0, b.subrange(33, 37));
    }
    assert(msg_bytes(parse_msg(b)->Ok_0) =~= b);
}

// ---------------------------------------------------------------------------
// Members
// ---------------------------------------------------------------------------

/// A member's end of a group.
pub struct GroupMember {
    id: MemberId,
    secret: Secret,
    public: [u8; 32],
    /// The member's own sender key.
    pub sender: SenderKeyState,
    roster: Assoc<MemberId, [u8; 32]>,
    receivers: Assoc<MemberId, ReceiverState>,
    keyed_to: Assoc<MemberId, ()>,
}

/// A member's end of a group, as contracts see it.
pub struct MemberModel {
    pub id: Seq<u8>,
    pub secret: Seq<u8>,
    /// Our sender key.
    pub sender: group::SenderModel,
    /// The members that the host told us of, and their public keys.
    pub roster: Map<Seq<u8>, Seq<u8>>,
    /// The members that we can read.
    pub receivers: Map<Seq<u8>, group::ReceiverModel>,
    /// The members that our sender key was sealed for.
    pub keyed_to: Set<Seq<u8>>,
}

impl View for GroupMember {
    type V = MemberModel;

    closed spec fn view(&self) -> MemberModel {
        MemberModel {
            id: self.id@,
            secret: self.secret@,
            sender: self.sender@,
            roster: self.roster@.map_values(|k: [u8; 32]| k@),
            receivers: self.receivers@.map_values(|r: ReceiverState| r@),
            keyed_to: self.keyed_to@.dom(),
        }
    }
}

/// What holds of every member.
pub open spec fn valid_member(m: MemberModel) -> bool {
    &&& m.id.len() == 16
    &&& m.secret.len() == 32
    &&& group::valid_sender(m.sender)
    &&& forall|k: Seq<u8>| #[trigger] m.receivers.contains_key(k) ==> group::valid_receiver(m.receivers[k])
}

/// The members that our sender key was sealed for, once a roster came in.
pub open spec fn keyed_after(keyed: Set<Seq<u8>>, own: Seq<u8>, members: Seq<(Seq<u8>, Seq<u8>)>) -> Set<Seq<u8>>
    decreases members.len(),
{
    if members.len() == 0 {
        keyed
    } else {
        let before = keyed_after(keyed, own, members.drop_last());
        if members.last().0 == own {
            before
        } else {
            before.insert(members.last().0)
        }
    }
}

/// The members of a roster that are to get our sender key, in order: those who
/// have not got it yet, without ourselves.
pub open spec fn due(keyed: Set<Seq<u8>>, own: Seq<u8>, members: Seq<(Seq<u8>, Seq<u8>)>) -> Seq<(Seq<u8>, Seq<u8>)>
    decreases members.len(),
{
    if members.len() == 0 {
        Seq::empty()
    } else {
        let before = due(keyed, own, members.drop_last());
        let last = members.last();
        if last.0 == own || keyed_after(keyed, own, members.drop_last()).contains(last.0) {
            before
        } else {
            before.push(last)
        }
    }
}

/// The roster that we know, once a roster came in.
pub open spec fn roster_after(known: Map<Seq<u8>, Seq<u8>>, members: Seq<(Seq<u8>, Seq<u8>)>) -> Map<Seq<u8>, Seq<u8>>
    decreases members.len(),
{
    if members.len() == 0 {
        known
    } else {
        roster_after(known, members.drop_last()).insert(members.last().0, members.last().1)
    }
}

/// Whether `out` hands `dist` to each of `recipients`, in order, in a sealed
/// box from `own`.
pub open spec fn keys_for(
    own: Seq<u8>,
    dist: Seq<u8>,
    recipients: Seq<(Seq<u8>, Seq<u8>)>,
    out: Seq<GroupMsg>,
) -> bool {
    &&& out.len() == recipients.len()
    &&& forall|i: int|
        #![trigger out[i]]
        0 <= i < out.len() ==> {
            &&& out[i]@ matches GroupMsgModel::KeyFor { to, from, sealed }
            &&& to == recipients[i].0
            &&& from == own
            &&& is_box_for(recipients[i].1, dist, sealed)
        }
}

/// Taking in the sender key of `from`: the state afterwards, or why not.
pub open spec fn key_for_step(m: MemberModel, from: Seq<u8>, sealed: Seq<u8>) -> Result<MemberModel, SessionError> {
    match opened_box(m.secret, sealed) {
        Err(e) => Err(e),
        Ok(dist) => match group::parse_distribution(dist) {
            None => Err(SessionError::BadDistribution(GroupError::Malformed)),
            Some(d) => Ok(MemberModel { receivers: m.receivers.insert(from, group::receiver_of(d)), ..m }),
        },
    }
}

/// Opening a text of `from`: the plaintext and the state afterwards, or why not.
pub open spec fn text_step(m: MemberModel, from: Seq<u8>, ct: Seq<u8>) -> Result<(Seq<u8>, MemberModel), SessionError> {
    if !m.receivers.contains_key(from) {
        Err(SessionError::NoSenderKey)
    } else {
        match group::decrypt_step(m.receivers[from], ct) {
            Err(e) => Err(SessionError::Text(e)),
            Ok((plaintext, after)) => Ok(
                (plaintext, MemberModel { receivers: m.receivers.insert(from, after), ..m }),
            ),
        }
    }
}

impl GroupMember {
    /// What holds of every member: the public key belongs to the secret, and
    /// the states that follow the others are well-formed.
    pub closed spec fn wf(&self) -> bool {
        &&& self.public@ == crypto::x25519_public(self.secret@)
        &&& forall|k: Seq<u8>| #[trigger] self.receivers@.contains_key(k) ==> self.receivers@[k].wf()
    }

    /// The model of a well-formed member is valid.
    pub proof fn lemma_wf(&self)
        requires
            self.wf(),
        ensures
            valid_member(self@),
    {
        self.sender.lemma_valid();
        assert forall|k: Seq<u8>| #[trigger] self@.receivers.contains_key(k) implies group::valid_receiver(
            self@.receivers[k],
        ) by {
            assert(self.receivers@.contains_key(k));
        }
    }

    /// A member from an id and secrets drawn beforehand.
    pub fn from_parts(id: MemberId, secret: Secret, sender: SenderKeyState) -> (r: Self)
        ensures
            r.wf(),
            valid_member(r@),
            r@ == (MemberModel {
                id: id@,
                secret: secret@,
                sender: sender@,
                roster: Map::empty(),
                receivers: Map::empty(),
                keyed_to: Set::empty(),
            }),
    {
        let public = crypto::public_key(&secret.bytes);
        let r = GroupMember {
            id,
            secret,
            public,
            sender,
            roster: Assoc::new(),
            receivers: Assoc::new(),
            keyed_to: Assoc::new(),
        };
        proof {
            assert(r@.roster =~= Map::<Seq<u8>, Seq<u8>>::empty());
            assert(r@.receivers =~= Map::<Seq<u8>, group::ReceiverModel>::empty());
            assert(r@.keyed_to =~= Set::<Seq<u8>>::empty());
            r.lemma_wf();
        }
        r
    }

    /// A fresh member, with a random id, a random key pair and a fresh sender
    /// key.
    pub fn new() -> (r: Self)
        ensures
            r.wf(),
            valid_member(r@),
            r@.roster == Map::<Seq<u8>, Seq<u8>>::empty(),
            r@.receivers == Map::<Seq<u8>, group::ReceiverModel>::empty(),
            r@.keyed_to == Set::<Seq<u8>>::empty(),
            r@.sender.iteration == 0,
    {
        let id = crypto::random_bytes::<16>();
        let secret = Secret::new(crypto::random_bytes::<32>());
        Self::from_parts(id, secret, SenderKeyState::new())
    }

    /// Our id.
    pub fn id(&self) -> (r: MemberId)
        ensures
            r@ == self@.id,
    {
        self.id
    }

    /// Our public key.
    pub fn public(&self) -> (r: [u8; 32])
        requires
            self.wf(),
        ensures
            r@ == crypto::x25519_public(self@.secret),
    {
        self.public
    }

    /// What we tell the host to be put on the roster.
    pub fn hello(&self) -> (r: GroupMsg)
        requires
            self.wf(),
        ensures
            r@ == (GroupMsgModel::Hello { id: self@.id, public: crypto::x25519_public(self@.secret) }),
    {
        GroupMsg::Hello { id: self.id, public: self.public }
    }

    /// Takes in a roster of the host. The result is our sender key, sealed for
    /// every member who has not got it yet.
    pub fn on_roster(&mut self, members: &[(MemberId, [u8; 32])]) -> (out: Vec<GroupMsg>)
        requires
            old(self).wf(),
        ensures
            final(self).wf(),
            final(self)@ == (MemberModel {
                roster: roster_after(old(self)@.roster, members_view(members@)),
                keyed_to: keyed_after(old(self)@.keyed_to, old(self)@.id, members_view(members@)),
                ..old(self)@
            }),
            keys_for(
                old(self)@.id,
                group::distribution_bytes(group::distribution_of(old(self)@.sender)),
                due(old(self)@.keyed_to, old(self)@.id, members_view(members@)),
                out@,
            ),
            out@.len() > 0 ==> {
                &&& group::valid_distribution(group::distribution_of(old(self)@.sender))
                &&& crypto::ed25519_is_key(crypto::ed25519_public(old(self)@.sender.seed))
            },
    {
        let mut out: Vec<GroupMsg> = Vec::new();
        let ghost all = members_view(members@);
        let ghost start = self@;
        let ghost dist = group::distribution_bytes(group::distribution_of(start.sender));
        let mut i: usize = 0;
        assert(all.take(0) =~= Seq::<(Seq<u8>, Seq<u8>)>::empty());
        while i < members.len()
            invariant
                i <= members@.len(),
                all == members_view(members@),
                dist == group::distribution_bytes(group::distribution_of(start.sender)),
                self.wf(),
                self@ == (MemberModel {
                    roster: roster_after(start.roster, all.take(i as int)),
                    keyed_to: keyed_after(start.keyed_to, start.id, all.take(i as int)),
                    ..start
                }),
                keys_for(start.id, dist, due(start.keyed_to, start.id, all.take(i as int)), out@),
                out@.len() > 0 ==> {
                    &&& group::valid_distribution(group::distribution_of(start.sender))
                    &&& crypto::ed25519_is_key(crypto::ed25519_public(start.sender.seed))
                },
            decreases members.len() - i,
        {
            let mid = members[i].0;
            let pk = members[i].1;
            let ghost now = self@;
            let ghost done = all.take(i as int);
            let ghost next = all.take(i + 1);
            proof {
                assert(next.drop_last() =~= done);
                assert(next.last() == (mid@, pk@));
            }
            self.roster.insert(mid, pk);
            assert(self@.roster =~= now.roster.insert(mid@, pk@));
            let own = bytes::same_bytes(mid.as_slice(), self.id.as_slice());
            if !own && !self.keyed_to.contains(&mid) {
                let distribution = self.sender.distribution();
                proof {
                    distribution.lemma_valid();
                }
                let encoded = distribution.encode();
                let sealed = seal_to(&pk, encoded.as_slice());
                let ghost before = out@;
                let msg = GroupMsg::KeyFor { to: mid, from: self.id, sealed };
                out.push(msg);
                self.keyed_to.insert(mid, ());
                proof {
                    assert(self@.keyed_to =~= now.keyed_to.insert(mid@));
                    let recipients = due(start.keyed_to, start.id, done);
                    assert(due(start.keyed_to, start.id, next) == recipients.push((mid@, pk@)));
                    assert forall|j: int| #![trigger out@[j]] 0 <= j < out@.len() implies ({
                        &&& out@[j]@ matches GroupMsgModel::KeyFor { to, from, sealed }
                        &&& to == recipients.push((mid@, pk@))[j].0
                        &&& from == start.id
                        &&& is_box_for(recipients.push((mid@, pk@))[j].1, dist, sealed)
                    }) by {
                        if j < before.len() {
                            assert(out@[j] == before[j]);
                        }
                    }
                }
            } else {
                proof {
                    if !own {
                        assert(now.keyed_to.insert(mid@) =~= now.keyed_to);
                    }
                }
            }
            i += 1;
        }
        assert(all.take(i as int) =~= all);
        out
    }

    /// Takes in the sender key of `from`, sealed for us.
    pub fn on_key_for(&mut self, from: MemberId, sealed: &[u8]) -> (r: Result<(), SessionError>)
        requires
            old(self).wf(),
        ensures
            final(self).wf(),
            match (r, key_for_step(old(self)@, from@, sealed@)) {
                (Ok(_), Ok(after)) => final(self)@ == after,
                (Err(e), Err(reason)) => e == reason && final(self)@ == old(self)@,
                _ => false,
            },
    {
        let opened = match open_sealed(&self.secret, sealed) {
            Ok(p) => p,
            Err(e) => {
                return Err(e);
            },
        };
        let dist = match SenderKeyDistribution::decode(opened.as_slice()) {
            Ok(d) => d,
            Err(e) => {
                return Err(SessionError::BadDistribution(e));
            },
        };
        let ghost now = self@;
        let receiver = ReceiverState::from_distribution(&dist);
        let ghost rm = receiver@;
        self.receivers.insert(from, receiver);
        assert(self@.receivers =~= now.receivers.insert(from@, rm));
        Ok(())
    }

    /// Encrypts a text for the group, under our sender key.
    pub fn encrypt(&mut self, plaintext: &[u8]) -> (r: GroupMsg)
        requires
            old(self).wf(),
            crypto::aead_fits(plaintext@.len()),
        ensures
            final(self).wf(),
            final(self)@ == (MemberModel { sender: group::sender_after(old(self)@.sender), ..old(self)@ }),
            r@ matches GroupMsgModel::Text { from, ct } && {
                &&& from == old(self)@.id
                &&& ct == group::wire_of(old(self)@.sender, plaintext@)
                &&& group::genuine(
                    old(self)@.sender.chain_key,
                    old(self)@.sender.iteration,
                    plaintext@,
                    ct,
                )
                &&& ct.subrange(ct.len() - 64, ct.len() - 32) != crypto::neutral_point() ==> group::signed_by(
                    crypto::ed25519_public(old(self)@.sender.seed),
                    ct,
                )
            },
    {
        let ct = self.sender.encrypt(plaintext);
        GroupMsg::Text { from: self.id, ct }
    }

    /// Opens a text of `from`.
    pub fn on_text(&mut self, from: MemberId, ct: &[u8]) -> (r: Result<Vec<u8>, SessionError>)
        requires
            old(self).wf(),
        ensures
            final(self).wf(),
            match (r, text_step(old(self)@, from@, ct@)) {
                (Ok(p), Ok((out, after))) => p@ == out && final(self)@ == after,
                (Err(e), Err(reason)) => e == reason && final(self)@ == old(self)@,
                _ => false,
            },
    {
        let ghost now = self@;
        let ghost map = self.receivers@;
        let mut receiver = match self.receivers.remove(&from) {
            Some(rs) => rs,
            None => {
                assert(self@ == now) by {
                    assert(map.remove(from@) =~= map);
                }
                return Err(SessionError::NoSenderKey);
            },
        };
        let result = receiver.decrypt(ct);
        let ghost rm = receiver@;
        self.receivers.insert(from, receiver);
        assert(self@.receivers =~= now.receivers.insert(from@, rm));
        match result {
            Ok(p) => Ok(p),
            Err(e) => {
                assert(now.receivers.insert(from@, rm) =~= now.receivers);
                Err(SessionError::Text(e))
            },
        }
    }
}

impl Default for GroupMember {
    fn default() -> (r: Self)
        ensures
            r.wf(),
            valid_member(r@),
            r@.roster == Map::<Seq<u8>, Seq<u8>>::empty(),
            r@.receivers == Map::<Seq<u8>, group::ReceiverModel>::empty(),
            r@.keyed_to == Set::<Seq<u8>>::empty(),
            r@.sender.iteration == 0,
    {
        Self::new()
    }
}

// ---------------------------------------------------------------------------
// Laws of members
// ---------------------------------------------------------------------------

/// Nobody is keyed twice, and we do not key ourselves: the recipients are
/// distinct, and each is new.
pub proof fn law_each_member_is_keyed_once(keyed: Set<Seq<u8>>, own: Seq<u8>, members: Seq<(Seq<u8>, Seq<u8>)>)
    ensures
        ({
            let d = due(keyed, own, members);
            &&& forall|i: int|
                #![trigger d[i]]
                0 <= i < d.len() ==> d[i].0 != own && !keyed.contains(d[i].0) && keyed_after(
                    keyed,
                    own,
                    members,
                ).contains(d[i].0) && members.contains(d[i])
            &&& forall|i: int, j: int| #![trigger d[i], d[j]] 0 <= i < j < d.len() ==> d[i].0 != d[j].0
            &&& keyed.subset_of(keyed_after(keyed, own, members))
        }),
    decreases members.len(),
{
    if members.len() > 0 {
        let rest = members.drop_last();
        law_each_member_is_keyed_once(keyed, own, rest);
        let d = due(keyed, own, members);
        let before = due(keyed, own, rest);
        assert forall|i: int| #![trigger d[i]] 0 <= i < d.len() implies d[i].0 != own && !keyed.contains(d[i].0)
            && keyed_after(keyed, own, members).contains(d[i].0) && members.contains(d[i]) by {
            if i < before.len() {
                assert(d[i] == before[i]);
                assert(rest.contains(before[i]));
                let k = choose|k: int| 0 <= k < rest.len() && rest[k] == before[i];
                assert(members[k] == before[i]);
            } else {
                assert(members[members.len() - 1] == d[i]);
            }
        }
        assert forall|i: int, j: int| #![trigger d[i], d[j]] 0 <= i < j < d.len() implies d[i].0 != d[j].0 by {
            assert(d[i] == before[i]);
            if j < before.len() {
                assert(d[j] == before[j]);
            }
        }
    }
}

/// Everyone on a roster but ourselves has our key afterwards.
pub proof fn law_everyone_is_keyed(keyed: Set<Seq<u8>>, own: Seq<u8>, members: Seq<(Seq<u8>, Seq<u8>)>, i: int)
    requires
        0 <= i < members.len(),
        members[i].0 != own,
    ensures
        keyed_after(keyed, own, members).contains(members[i].0),
    decreases members.len(),
{
    if i < members.len() - 1 {
        let rest = members.drop_last();
        assert(rest[i] == members[i]);
        law_everyone_is_keyed(keyed, own, rest, i);
    }
}

/// A roster that names only members who have our key, and ourselves, asks for
/// nothing: the same roster twice keys nobody again.
pub proof fn law_known_roster_keys_nobody(keyed: Set<Seq<u8>>, own: Seq<u8>, members: Seq<(Seq<u8>, Seq<u8>)>)
    requires
        forall|i: int|
            #![trigger members[i]]
            0 <= i < members.len() ==> members[i].0 == own || keyed.contains(members[i].0),
    ensures
        due(keyed, own, members) == Seq::<(Seq<u8>, Seq<u8>)>::empty(),
        keyed_after(keyed, own, members) == keyed,
    decreases members.len(),
{
    if members.len() > 0 {
        let rest = members.drop_last();
        assert forall|i: int| #![trigger rest[i]] 0 <= i < rest.len() implies rest[i].0 == own || keyed.contains(
            rest[i].0,
        ) by {
            assert(rest[i] == members[i]);
        }
        law_known_roster_keys_nobody(keyed, own, rest);
        assert(members[members.len() - 1] == members.last());
        assert(keyed_after(keyed, own, members) =~= keyed);
    }
}

/// The box that a member makes of its sender key lets the recipient follow it
/// from that moment on.
pub proof fn law_sealed_key_is_taken_in(a: MemberModel, b: MemberModel, sealed: Seq<u8>)
    requires
        b.secret.len() == 32,
        group::valid_distribution(group::distribution_of(a.sender)),
        crypto::ed25519_is_key(crypto::ed25519_public(a.sender.seed)),
        is_box_for(
            crypto::x25519_public(b.secret),
            group::distribution_bytes(group::distribution_of(a.sender)),
            sealed,
        ),
    ensures
        key_for_step(b, a.id, sealed) matches Ok(after) && {
            &&& after.receivers.contains_key(a.id)
            &&& group::follows(
                after.receivers[a.id],
                crypto::ed25519_public(a.sender.seed),
                a.sender.chain_key,
                a.sender.iteration,
            )
        },
{
    group::law_distribution_round_trip(group::distribution_of(a.sender));
    group::law_distribution_follows(a.sender);
}

/// Who has been keyed is on the roster, or was keyed before.
proof fn lemma_keyed_are_members(keyed: Set<Seq<u8>>, own: Seq<u8>, members: Seq<(Seq<u8>, Seq<u8>)>, id: Seq<u8>)
    requires
        keyed_after(keyed, own, members).contains(id),
    ensures
        keyed.contains(id) || exists|j: int| 0 <= j < members.len() && (#[trigger] members[j]).0 == id,
    decreases members.len(),
{
    if members.len() > 0 {
        let rest = members.drop_last();
        if members.last().0 == id {
            assert(members[members.len() - 1].0 == id);
        } else {
            lemma_keyed_are_members(keyed, own, rest, id);
            if !keyed.contains(id) {
                let j = choose|j: int| 0 <= j < rest.len() && (#[trigger] rest[j]).0 == id;
                assert(members[j].0 == id);
            }
        }
    }
}

/// A roster on which everyone stands once has our sender key sealed for everyone
/// on it who has not got it, but for ourselves.
pub proof fn law_roster_keys_everyone(keyed: Set<Seq<u8>>, own: Seq<u8>, members: Seq<(Seq<u8>, Seq<u8>)>, i: int)
    requires
        forall|j: int, k: int|
            #![trigger members[j], members[k]]
            0 <= j < k < members.len() ==> members[j].0 != members[k].0,
        0 <= i < members.len(),
        members[i].0 != own,
        !keyed.contains(members[i].0),
    ensures
        due(keyed, own, members).contains(members[i]),
    decreases members.len(),
{
    let rest = members.drop_last();
    let before = due(keyed, own, rest);
    if i == members.len() - 1 {
        if keyed_after(keyed, own, rest).contains(members[i].0) {
            lemma_keyed_are_members(keyed, own, rest, members[i].0);
            let j = choose|j: int| 0 <= j < rest.len() && (#[trigger] rest[j]).0 == members[i].0;
            assert(members[j].0 != members[i].0);
        }
        let out = due(keyed, own, members);
        assert(out[out.len() - 1] == members[i]);
    } else {
        assert(rest[i] == members[i]);
        law_roster_keys_everyone(keyed, own, rest, i);
        let at = choose|at: int| 0 <= at < before.len() && before[at] == members[i];
        assert(due(keyed, own, members)[at] == members[i]);
    }
}

/// Members of a group read each other: once a member has taken in the sender key
/// that another has sealed for it, what that one says next opens to what was said.
/// Who has got no key from it reads nothing.
pub proof fn law_keyed_members_read_texts(a: MemberModel, b: MemberModel, sealed: Seq<u8>, plaintext: Seq<u8>)
    requires
        valid_member(b),
        group::valid_distribution(group::distribution_of(a.sender)),
        crypto::ed25519_is_key(crypto::ed25519_public(a.sender.seed)),
        a.sender.iteration < u32::MAX,
        is_box_for(
            crypto::x25519_public(b.secret),
            group::distribution_bytes(group::distribution_of(a.sender)),
            sealed,
        ),
        ({
            let ct = group::wire_of(a.sender, plaintext);
            &&& group::genuine(a.sender.chain_key, a.sender.iteration, plaintext, ct)
            &&& group::signed_by(crypto::ed25519_public(a.sender.seed), ct)
        }),
    ensures
        ({
            let ct = group::wire_of(a.sender, plaintext);
            &&& key_for_step(b, a.id, sealed) matches Ok(keyed) && {
                &&& text_step(keyed, a.id, ct) matches Ok((read, _)) && read == plaintext
            }
            &&& !b.receivers.contains_key(a.id) ==> text_step(b, a.id, ct) == Err::<(Seq<u8>, MemberModel), SessionError>(
                SessionError::NoSenderKey,
            )
        }),
{
    law_sealed_key_is_taken_in(a, b, sealed);
    group::law_distribution_round_trip(group::distribution_of(a.sender));
    let keyed = key_for_step(b, a.id, sealed)->Ok_0;
    group::law_message_opens(
        keyed.receivers[a.id],
        crypto::ed25519_public(a.sender.seed),
        a.sender.chain_key,
        a.sender.iteration,
        a.sender.iteration,
        plaintext,
        group::wire_of(a.sender, plaintext),
    );
}

/// After a roster everyone on it is known, with the key that it gives last for them, and
/// whoever was known before and is not on it stays known as they were. Nobody else is
/// known.
pub proof fn law_rosters_are_remembered(
    known: Map<Seq<u8>, Seq<u8>>,
    members: Seq<(Seq<u8>, Seq<u8>)>,
    id: Seq<u8>,
    i: int,
)
    ensures
        ({
            let after = roster_after(known, members);
            &&& 0 <= i < members.len() && members[i].0 == id && (forall|k: int|
                i < k < members.len() ==> (#[trigger] members[k]).0 != id) ==> {
                &&& after.contains_key(id)
                &&& after[id] == members[i].1
            }
            &&& (forall|k: int| 0 <= k < members.len() ==> (#[trigger] members[k]).0 != id) ==> {
                &&& after.contains_key(id) == known.contains_key(id)
                &&& known.contains_key(id) ==> after[id] == known[id]
            }
        }),
    decreases members.len(),
{
    if members.len() > 0 {
        let rest = members.drop_last();
        law_rosters_are_remembered(known, rest, id, i);
        assert forall|k: int| 0 <= k < rest.len() implies #[trigger] rest[k] == members[k] by {}
        assert(members[members.len() - 1] == members.last());
        if forall|k: int| 0 <= k < members.len() ==> (#[trigger] members[k]).0 != id {
            assert forall|k: int| 0 <= k < rest.len() implies (#[trigger] rest[k]).0 != id by {
                assert(members[k].0 != id);
            }
        }
        if 0 <= i < members.len() && members[i].0 == id && (forall|k: int|
            i < k < members.len() ==> (#[trigger] members[k]).0 != id) {
            if i < members.len() - 1 {
                assert forall|k: int| i < k < rest.len() implies (#[trigger] rest[k]).0 != id by {
                    assert(members[k].0 != id);
                }
                assert(members[members.len() - 1].0 != id);
            }
        }
    }
}

/// Taking in a sender key changes whom we read in that one place: the sender is followed
/// from where the distribution in the box says, under the key that it names, with nothing
/// passed over yet. Everyone else is followed as before, and the roster, our own keys and
/// whom we have keyed stay as they are.
pub proof fn law_taking_a_key_is_local(m: MemberModel, from: Seq<u8>, sealed: Seq<u8>, other: Seq<u8>)
    requires
        key_for_step(m, from, sealed) is Ok,
    ensures
        ({
            let after = key_for_step(m, from, sealed)->Ok_0;
            let dist = opened_box(m.secret, sealed)->Ok_0;
            &&& opened_box(m.secret, sealed) is Ok
            &&& dist.len() == 68
            &&& after.receivers.contains_key(from)
            &&& after.receivers[from].chain_key == dist.subrange(0, 32)
            &&& after.receivers[from].verify_key == Some(dist.subrange(36, 68))
            &&& after.receivers[from].iteration == bytes::from_be32(dist.subrange(32, 36))
            &&& after.receivers[from].skipped.len() == 0
            &&& other != from ==> {
                &&& after.receivers.contains_key(other) == m.receivers.contains_key(other)
                &&& after.receivers[other] == m.receivers[other]
            }
            &&& after.id == m.id && after.secret == m.secret && after.sender == m.sender
            &&& after.roster == m.roster && after.keyed_to == m.keyed_to
        }),
{
}

/// A text is opened with what we follow its sender by, and with nothing else: whoever else
/// we follow stays where they are.
pub proof fn law_texts_are_opened_by_their_sender(m: MemberModel, from: Seq<u8>, ct: Seq<u8>, other: Seq<u8>)
    requires
        text_step(m, from, ct) is Ok,
    ensures
        ({
            let (plaintext, after) = text_step(m, from, ct)->Ok_0;
            &&& m.receivers.contains_key(from)
            &&& group::decrypt_step(m.receivers[from], ct) matches Ok((out, now)) && {
                &&& out == plaintext
                &&& after.receivers.contains_key(from) && after.receivers[from] == now
            }
            &&& m.receivers[from].verify_key matches Some(public) && group::signed_by(public, ct)
            &&& other != from ==> {
                &&& after.receivers.contains_key(other) == m.receivers.contains_key(other)
                &&& after.receivers[other] == m.receivers[other]
            }
            &&& after.id == m.id && after.secret == m.secret && after.sender == m.sender
            &&& after.roster == m.roster && after.keyed_to == m.keyed_to
        }),
{
}

/// A box opens by the secret that its two ends agree on and by that alone: who agrees with
/// the key in front of it on the same secret reads the same of it. Its front is the key
/// that it was made with, and anything shorter than a key and a tag is no box.
pub proof fn law_boxes_open_by_agreement(eph: Seq<u8>, recipient: Seq<u8>, secret: Seq<u8>, plaintext: Seq<u8>)
    requires
        crypto::x25519_public(eph).len() == 32,
        crypto::x25519_shared(secret, crypto::x25519_public(eph)) == crypto::x25519_shared(eph, recipient),
        crypto::chacha20poly1305_seal(
            box_key(crypto::x25519_shared(eph, recipient)),
            bytes::zeros(12),
            Seq::empty(),
            plaintext,
        ).len() == 16 + plaintext.len(),
        crypto::chacha20poly1305_open(
            box_key(crypto::x25519_shared(eph, recipient)),
            bytes::zeros(12),
            Seq::empty(),
            crypto::chacha20poly1305_seal(
                box_key(crypto::x25519_shared(eph, recipient)),
                bytes::zeros(12),
                Seq::empty(),
                plaintext,
            ),
        ) == Some(plaintext),
    ensures
        opened_box(secret, sealed_box(eph, recipient, plaintext)) == Ok::<Seq<u8>, SessionError>(plaintext),
        sealed_box(eph, recipient, plaintext).subrange(0, 32) == crypto::x25519_public(eph),
        sealed_box(eph, recipient, plaintext).len() == 48 + plaintext.len(),
{
    let wire = sealed_box(eph, recipient, plaintext);
    assert(wire.subrange(0, 32) =~= crypto::x25519_public(eph));
    assert(wire.subrange(32, wire.len() as int) =~= crypto::chacha20poly1305_seal(
        box_key(crypto::x25519_shared(eph, recipient)),
        bytes::zeros(12),
        Seq::empty(),
        plaintext,
    ));
}

/// Two who agree with the key in front of a box on the same secret read the same of it,
/// and what is shorter than a key and a tag is refused for that.
pub proof fn law_boxes_are_read_alike(a: Seq<u8>, b: Seq<u8>, wire: Seq<u8>)
    ensures
        wire.len() < 48 <==> opened_box(a, wire) == Err::<Seq<u8>, SessionError>(SessionError::BoxShort),
        crypto::x25519_shared(a, wire.subrange(0, 32)) == crypto::x25519_shared(b, wire.subrange(0, 32))
            ==> opened_box(a, wire) == opened_box(b, wire),
{
}

/// Bytes that are no message of the group are refused for what is wrong with them: their
/// first byte names no kind, or they are not as long as their kind has to be.
pub proof fn law_other_bytes_are_no_message(b: Seq<u8>)
    ensures
        parse_msg(b) == Err::<GroupMsgModel, SessionError>(SessionError::Empty) <==> b.len() == 0,
        b.len() > 0 && (b[0] < 1 || b[0] > 4) <==> parse_msg(b) is Err && parse_msg(b)->Err_0 is UnknownType,
        b.len() > 0 && b[0] == 1 ==> (parse_msg(b) is Ok <==> b.len() == 49) && (parse_msg(b) is Err
            ==> parse_msg(b)->Err_0 == SessionError::HelloLength),
        b.len() > 0 && b[0] == 2 ==> {
            &&& b.len() < 3 <==> parse_msg(b) == Err::<GroupMsgModel, SessionError>(SessionError::RosterShort)
            &&& b.len() >= 3 ==> (parse_msg(b) is Ok <==> b.len() == 3 + 48 * (256 * b[1] + b[2]))
            &&& b.len() >= 3 && parse_msg(b) is Err ==> parse_msg(b)->Err_0 == SessionError::RosterLength
        },
        b.len() > 0 && b[0] == 3 ==> {
            &&& b.len() < 37 <==> parse_msg(b) == Err::<GroupMsgModel, SessionError>(SessionError::KeyForShort)
            &&& b.len() >= 37 && parse_msg(b) is Err ==> parse_msg(b)->Err_0 == SessionError::KeyForLength
        },
        b.len() > 0 && b[0] == 4 ==> (parse_msg(b) is Ok <==> b.len() >= 17) && (parse_msg(b) is Err
            ==> parse_msg(b)->Err_0 == SessionError::TextShort),
        parse_msg(b) is Err && parse_msg(b)->Err_0 is UnknownType ==> parse_msg(b)->Err_0 == SessionError::UnknownType(
            b[0],
        ),
{
    if b.len() >= 3 {
        let two = b.subrange(1, 3);
        assert(two[0] == b[1] && two[1] == b[2]);
    }
}

/// Each recipient gets one message of ours, in their order, that names them and us and
/// holds a box that opens with their secret to what is handed over.
pub proof fn law_each_recipient_can_open_theirs(
    own: Seq<u8>,
    dist: Seq<u8>,
    recipients: Seq<(Seq<u8>, Seq<u8>)>,
    out: Seq<GroupMsg>,
    i: int,
    secret: Seq<u8>,
)
    requires
        keys_for(own, dist, recipients, out),
        0 <= i < recipients.len(),
        secret.len() == 32,
        crypto::x25519_public(secret) == recipients[i].1,
    ensures
        out.len() == recipients.len(),
        out[i]@ is KeyFor,
        out[i]@->KeyFor_to == recipients[i].0,
        out[i]@->KeyFor_from == own,
        opened_box(secret, out[i]@->KeyFor_sealed) == Ok::<Seq<u8>, SessionError>(dist),
{
    let msg = out[i]@;
}

} // verus!
