use famchat_core::group::SenderKeyState;
use famchat_core::crypto::Secret;
use famchat_core::grouphost::{hello_bytes, on_host_bytes, text_bytes, Outgoing, Relay};
use famchat_core::groupsession::{GroupMember, GroupMsg, MemberId};

/// Members at a host, each on a connection of its own.
struct Room {
    relay: Relay,
    members: Vec<GroupMember>,
    who: Vec<Option<MemberId>>,
    read: Vec<(usize, MemberId, Vec<u8>)>,
}

impl Room {
    fn new() -> Room {
        Room { relay: Relay::new(), members: Vec::new(), who: Vec::new(), read: Vec::new() }
    }

    fn join(&mut self) -> usize {
        let conn = self.members.len();
        self.members.push(GroupMember::new());
        self.who.push(None);
        let hello = hello_bytes(&self.members[conn]);
        self.say(conn, hello);
        conn
    }

    /// Hands bytes of a member to the host, and lets everyone answer until
    /// nothing is left to say.
    fn say(&mut self, conn: usize, b: Vec<u8>) {
        let mut queue = vec![(conn, b)];
        while let Some((from, b)) = queue.pop() {
            let out = self.relay.on_bytes(from as u64, &mut self.who[from], &b);
            for Outgoing { conn, bytes } in out {
                let to = conn as usize;
                let step = on_host_bytes(&mut self.members[to], &bytes);
                queue.extend(step.outgoing.into_iter().map(|b| (to, b)));
                if let Some((sender, text)) = step.text {
                    self.read.push((to, sender, text));
                }
            }
        }
    }
}

/// A host relays between members: A's group text reaches B, decrypted, through
/// a relay that reads none of it.
#[test]
fn group_relay_end_to_end() {
    let mut room = Room::new();
    let a = room.join();
    let b = room.join();
    let c = room.join();
    let text = text_bytes(&mut room.members[a], b"meet at the vault, 9pm");
    assert!(!text.windows(7).any(|w| w == b"meet at"));
    room.say(a, text);
    let id = room.members[a].id();
    let mut read = std::mem::take(&mut room.read);
    read.sort_by_key(|r| r.0);
    assert_eq!(
        read,
        vec![
            (b, id, b"meet at the vault, 9pm".to_vec()),
            (c, id, b"meet at the vault, 9pm".to_vec()),
        ]
    );
    // And back, from the one that joined last.
    let text = text_bytes(&mut room.members[c], b"on my way");
    room.say(c, text);
    assert_eq!(room.read.len(), 2);
}

#[test]
fn keys_go_to_their_addressee_verbatim() {
    let mut relay = Relay::new();
    for i in 1..=3u8 {
        let hello = GroupMsg::Hello { id: [i; 16], public: [i; 32] }.encode();
        let out = relay.on_bytes(i as u64, &mut None, &hello);
        assert_eq!(out.len(), i as usize);
    }
    let key = GroupMsg::KeyFor { to: [2u8; 16], from: [1u8; 16], sealed: vec![1, 2, 3] }.encode();
    let out = relay.on_bytes(1, &mut Some([1u8; 16]), &key);
    assert_eq!(out.len(), 1);
    assert_eq!((out[0].conn, &out[0].bytes), (2, &key));
    let nobody = GroupMsg::KeyFor { to: [9u8; 16], from: [1u8; 16], sealed: vec![] }.encode();
    assert!(relay.on_bytes(1, &mut Some([1u8; 16]), &nobody).is_empty());
}

#[test]
fn hosts_ignore_rosters_and_noise() {
    let mut relay = Relay::new();
    let mut who = None;
    relay.on_bytes(1, &mut who, &GroupMsg::Hello { id: [1u8; 16], public: [1u8; 32] }.encode());
    assert_eq!(who, Some([1u8; 16]));
    assert!(relay.on_bytes(1, &mut who, &GroupMsg::Roster { members: vec![] }.encode()).is_empty());
    assert!(relay.on_bytes(1, &mut who, b"\xff noise").is_empty());
    assert_eq!(who, Some([1u8; 16]));
}

#[test]
fn leaving_is_announced() {
    let mut relay = Relay::new();
    for i in 1..=2u8 {
        relay.on_bytes(i as u64, &mut None, &GroupMsg::Hello { id: [i; 16], public: [i; 32] }.encode());
    }
    // Whoever comes again takes its place anew.
    let out = relay.on_bytes(7, &mut None, &GroupMsg::Hello { id: [1u8; 16], public: [8u8; 32] }.encode());
    assert_eq!(out.iter().map(|o| o.conn).collect::<Vec<_>>(), vec![7, 2]);
    let out = relay.on_close(&Some([1u8; 16]));
    assert_eq!(out.len(), 1);
    assert_eq!(out[0].conn, 2);
    assert_eq!(
        GroupMsg::decode(&out[0].bytes),
        Ok(GroupMsg::Roster { members: vec![([2u8; 16], [2u8; 32])] })
    );
    assert!(relay.on_close(&None).is_empty());
}

#[test]
fn members_pass_over_what_does_not_open() {
    let mut m = GroupMember::from_parts([1u8; 16], Secret::new([2u8; 32]), SenderKeyState::new());
    for b in [
        b"\xff".to_vec(),
        GroupMsg::Hello { id: [3u8; 16], public: [3u8; 32] }.encode(),
        GroupMsg::KeyFor { to: [1u8; 16], from: [3u8; 16], sealed: vec![0u8; 80] }.encode(),
        GroupMsg::Text { from: [3u8; 16], ct: vec![0u8; 100] }.encode(),
    ] {
        let step = on_host_bytes(&mut m, &b);
        assert!(step.outgoing.is_empty() && step.text.is_none());
    }
}

/// Where something goes does not depend on what it says.
#[test]
fn hosts_route_by_address_alone() {
    let mut relay = Relay::new();
    for i in 1..=3u8 {
        relay.on_bytes(i as u64, &mut None, &GroupMsg::Hello { id: [i; 16], public: [i; 32] }.encode());
    }
    let mut targets = |ct: Vec<u8>| -> Vec<u64> {
        let b = GroupMsg::Text { from: [2u8; 16], ct }.encode();
        let out = relay.on_bytes(2, &mut Some([2u8; 16]), &b);
        assert!(out.iter().all(|o| o.bytes == b));
        out.iter().map(|o| o.conn).collect()
    };
    let quiet = targets(vec![]);
    assert_eq!(quiet, vec![1, 3]);
    assert_eq!(targets(vec![0xFF; 300]), quiet);
}
