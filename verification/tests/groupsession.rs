use famchat_core::crypto::Secret;
use famchat_core::group::GroupError;
use famchat_core::groupsession::{open_sealed, seal_to, seal_to_with, GroupMember, GroupMsg, MemberId, SessionError, G_HELLO, G_KEYFOR, G_ROSTER, G_TEXT};

/// Three members exchange keys through a simulated host relay and then send
/// group text that every other member decrypts — while the host, holding
/// only the relayed bytes, can read none of it.
#[test]
fn three_member_group_is_host_blind() {
    let mut a = GroupMember::new();
    let mut b = GroupMember::new();
    let mut c = GroupMember::new();

    // The host learns the roster from each Hello (public info only).
    let roster: Vec<(MemberId, [u8; 32])> = vec![
        (a.id(), a.public()),
        (b.id(), b.public()),
        (c.id(), c.public()),
    ];

    // Each member seals its Sender Key to every other member.
    let mut keyfors: Vec<GroupMsg> = Vec::new();
    keyfors.extend(a.on_roster(&roster));
    keyfors.extend(b.on_roster(&roster));
    keyfors.extend(c.on_roster(&roster));

    // The host routes each KeyFor to its target WITHOUT being able to read it.
    // Prove host-blindness: the sealed bytes are not the plaintext distribution.
    let a_dist_plain = a.sender.distribution().encode();
    for m in &keyfors {
        if let GroupMsg::KeyFor { from, sealed, .. } = m {
            if *from == a.id() {
                assert_ne!(
                    sealed.as_slice(),
                    a_dist_plain.as_slice(),
                    "host must not see a plaintext key"
                );
            }
        }
    }
    for m in &keyfors {
        if let GroupMsg::KeyFor { to, from, sealed } = m {
            // encode/decode round-trip through the wire, like the real relay.
            let wire = m.encode();
            let GroupMsg::KeyFor {
                to: to2,
                from: from2,
                sealed: sealed2,
            } = GroupMsg::decode(&wire).unwrap()
            else {
                panic!("expected KeyFor")
            };
            assert_eq!((*to, *from, sealed.clone()), (to2, from2, sealed2));
            let target = if *to == a.id() {
                &mut a
            } else if *to == b.id() {
                &mut b
            } else {
                &mut c
            };
            target.on_key_for(*from, sealed).unwrap();
        }
    }

    // Now group text flows. a -> everyone.
    let msg = a.encrypt(b"meet at the vault, 9pm");
    let (from, ct) = match &msg {
        GroupMsg::Text { from, ct } => (*from, ct.clone()),
        _ => panic!(),
    };
    // Host relays ct to b and c; it can't read it.
    assert_ne!(
        ct,
        b"meet at the vault, 9pm".to_vec(),
        "text must be ciphertext"
    );
    assert_eq!(b.on_text(from, &ct).unwrap(), b"meet at the vault, 9pm");
    assert_eq!(c.on_text(from, &ct).unwrap(), b"meet at the vault, 9pm");

    // And b -> everyone, proving every direction works.
    let msg2 = b.encrypt(b"on my way");
    let (from2, ct2) = match &msg2 {
        GroupMsg::Text { from, ct } => (*from, ct.clone()),
        _ => panic!(),
    };
    assert_eq!(a.on_text(from2, &ct2).unwrap(), b"on my way");
    assert_eq!(c.on_text(from2, &ct2).unwrap(), b"on my way");
}

#[test]
fn wrong_recipient_cannot_open_sealed_key() {
    let mut a = GroupMember::new();
    let b = GroupMember::new();
    let mut eve = GroupMember::new();
    let roster = vec![(a.id(), a.public()), (b.id(), b.public())];
    let keyfors = a.on_roster(&roster);
    // A sealed A's key to B. Eve (wrong private key) must not open it.
    for m in keyfors {
        if let GroupMsg::KeyFor { from, sealed, .. } = m {
            assert!(eve.on_key_for(from, &sealed).is_err());
        }
    }
}

#[test]
fn malformed_group_messages_are_rejected() {
    assert!(GroupMsg::decode(&[]).is_err());
    assert!(GroupMsg::decode(&[0xFF, 1, 2, 3]).is_err());
    assert!(GroupMsg::decode(&[G_HELLO, 1, 2]).is_err()); // too short
    assert!(GroupMsg::decode(&[G_TEXT, 0, 0]).is_err()); // no member id
                                                         // A truncated sealed box fails to open, not panics.
    let mut m = GroupMember::new();
    assert!(m.on_key_for([0u8; 16], &[0u8; 10]).is_err());
}

#[test]
fn group_messages_round_trip() {
    for m in [
        GroupMsg::Hello { id: [1u8; 16], public: [2u8; 32] },
        GroupMsg::Roster { members: vec![([3u8; 16], [4u8; 32]), ([5u8; 16], [6u8; 32])] },
        GroupMsg::Roster { members: vec![] },
        GroupMsg::KeyFor { to: [7u8; 16], from: [8u8; 16], sealed: vec![1, 2, 3] },
        GroupMsg::Text { from: [9u8; 16], ct: vec![] },
    ] {
        let wire = m.encode();
        assert_eq!(GroupMsg::decode(&wire), Ok(m));
    }
    assert_eq!(GroupMsg::Text { from: [1u8; 16], ct: vec![7] }.encode()[0], G_TEXT);
    // A roster that announces more members than it has, and a key with a length that does not fit.
    assert!(GroupMsg::decode(&[G_ROSTER, 0, 2, 1]).is_err());
    let mut short = vec![G_KEYFOR];
    short.extend([0u8; 32]);
    short.extend([0, 0, 0, 9, 1]);
    assert!(GroupMsg::decode(&short).is_err());
}

#[test]
fn a_roster_is_keyed_once() {
    let mut a = GroupMember::new();
    let b = GroupMember::new();
    let roster = vec![(a.id(), a.public()), (b.id(), b.public())];
    assert_eq!(a.on_roster(&roster).len(), 1);
    assert_eq!(a.on_roster(&roster).len(), 0);
    let c = GroupMember::new();
    let grown = vec![(a.id(), a.public()), (b.id(), b.public()), (c.id(), c.public())];
    let out = a.on_roster(&grown);
    assert_eq!(out.len(), 1);
    assert!(matches!(&out[0], GroupMsg::KeyFor { to, .. } if *to == c.id()));
}

#[test]
fn sealed_boxes_open_for_their_recipient_alone() {
    let secret = Secret::new([11u8; 32]);
    let member = GroupMember::from_parts([1u8; 16], Secret::new([11u8; 32]), famchat_core::group::SenderKeyState::new());
    let fixed = seal_to_with(Secret::new([12u8; 32]), &member.public(), b"for you");
    assert_eq!(fixed, seal_to_with(Secret::new([12u8; 32]), &member.public(), b"for you"));
    assert_eq!(open_sealed(&secret, &fixed).unwrap(), b"for you");
    assert_eq!(open_sealed(&secret, &seal_to(&member.public(), b"again")).unwrap(), b"again");
    assert!(open_sealed(&Secret::new([13u8; 32]), &fixed).is_err());
    let mut altered = fixed.clone();
    altered[40] ^= 1;
    assert!(open_sealed(&secret, &altered).is_err());
}

#[test]
fn texts_of_strangers_are_refused() {
    let mut a = GroupMember::new();
    assert_eq!(a.on_text([1u8; 16], &[0u8; 100]), Err(SessionError::NoSenderKey));
    assert!(!SessionError::NoSenderKey.to_string().is_empty());
    assert!(!SessionError::Text(GroupError::Decrypt).to_string().is_empty());
}

/// What decodes as a message encodes to the same bytes again.
#[test]
fn group_messages_have_one_encoding() {
    let mut hello = vec![G_HELLO];
    hello.extend([3u8; 48]);
    let mut text = vec![G_TEXT];
    text.extend([4u8; 20]);
    let mut roster = vec![G_ROSTER, 0, 1];
    roster.extend([5u8; 48]);
    let mut key = vec![G_KEYFOR];
    key.extend([6u8; 32]);
    key.extend([0, 0, 0, 2, 9, 9]);
    for b in [hello, text, roster, key] {
        assert_eq!(GroupMsg::decode(&b).unwrap().encode(), b);
    }
}
