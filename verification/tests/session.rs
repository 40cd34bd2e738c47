use famchat_core::identity::{fingerprint, Identity};
use famchat_core::session::{
    after_attempt, normalize_fp, session_info, Attempt, Auth, Dialer, Link, Outcome, PinError, DIAL_ATTEMPTS,
};

fn auth(expect: Option<String>) -> Auth {
    Auth::Identity { id: Identity::from_parts(vec![1u8; 32], vec![2u8; 32]), expect }
}

#[test]
fn pins_are_compared_without_spacing_and_case() {
    let remote = [9u8; 32];
    let fp = fingerprint(&remote);
    let odd = format!("  {} ", fp.to_lowercase().replace(' ', "\t "));
    let info = session_info(&auth(Some(odd)), "tcp", &remote).unwrap();
    assert!(info.pinned);
    assert_eq!(info.peer_fingerprint, Some(fp.clone()));
    assert_eq!(info.my_fingerprint, Some(fingerprint(&[1u8; 32])));
    assert!(!info.code_word);
    let info = session_info(&auth(None), "tcp", &remote).unwrap();
    assert!(!info.pinned);
    match session_info(&auth(Some("AAAA".into())), "tcp", &remote) {
        Err(PinError::Mismatch { expected, got }) => {
            assert_eq!(expected, "AAAA");
            assert_eq!(got, fp);
        }
        other => panic!("a wrong pin is refused, got {other:?}"),
    }
    let e = PinError::Mismatch { expected: "A".into(), got: "B".into() };
    assert_eq!(e.to_string(), "peer fingerprint mismatch (expected A, got B) — possible MITM");
    assert_eq!(normalize_fp(" ab\tCd 9é "), "ABCD9É");
}

#[test]
fn a_pin_lets_in_its_own_key_and_no_other() {
    let key = [5u8; 32];
    let pin = fingerprint(&key);
    assert!(session_info(&auth(Some(pin.clone())), "tcp", &key).is_ok());
    assert!(session_info(&auth(Some(pin.to_lowercase())), "tcp", &key).is_ok());
    for bit in 0..8 {
        let mut other = key;
        other[31] ^= 1 << bit;
        assert!(session_info(&auth(Some(pin.clone())), "tcp", &other).is_err());
    }
}

#[test]
fn code_words_need_no_fingerprints() {
    let info = session_info(&Auth::Code("word".into()), "tcp", &[]).unwrap();
    assert_eq!(info.transport, "tcp");
    assert!(info.code_word && !info.pinned);
    assert_eq!((info.my_fingerprint, info.peer_fingerprint), (None, None));
}

fn done(key: &[u8]) -> Attempt {
    Attempt::HandshakeDone { remote_static: key.to_vec() }
}

/// A listener stays there whatever becomes of one peer.
#[test]
fn listener_serves_sequential_peers() {
    let word = Auth::Code("w".into());
    let mut served = 0;
    for attempt in [Attempt::NoConnection, Attempt::Refused, Attempt::TimedOut, done(&[]), Attempt::Refused, done(&[])] {
        let last = matches!(attempt, Attempt::HandshakeDone { .. });
        match after_attempt(true, &word, "tcp", &attempt) {
            Outcome::Established { is_initiator, info } => {
                assert!(last && !is_initiator && info.code_word);
                assert_eq!(info.transport, "tcp");
                served += 1;
            }
            other => assert!(!last && other == Outcome::WaitForNext),
        }
    }
    assert_eq!(served, 2);
    let pinned = auth(Some(fingerprint(&[9u8; 32])));
    assert_eq!(after_attempt(true, &pinned, "tcp", &done(&[8u8; 32])), Outcome::WaitForNext);
    assert!(matches!(after_attempt(true, &pinned, "tcp", &done(&[9u8; 32])), Outcome::Established { .. }));
}

#[test]
fn who_reaches_out_is_the_initiator_or_gives_up() {
    let word = Auth::Code("w".into());
    assert_eq!(after_attempt(false, &word, "tcp", &Attempt::Refused), Outcome::Fail);
    assert_eq!(after_attempt(false, &word, "tcp", &Attempt::NoConnection), Outcome::Fail);
    assert_eq!(after_attempt(false, &word, "tcp", &Attempt::TimedOut), Outcome::FailTimedOut);
    assert!(matches!(
        after_attempt(false, &word, "tcp", &done(&[])),
        Outcome::Established { is_initiator: true, .. }
    ));
    assert!(matches!(
        after_attempt(false, &auth(Some("AAAA".into())), "tcp", &done(&[9u8; 32])),
        Outcome::FailPinned(PinError::Mismatch { .. })
    ));
}

#[test]
fn dialling_backs_off_and_gives_up() {
    let mut d = Dialer::new();
    let mut waits = Vec::new();
    while d.may_try() {
        waits.push(d.failed());
    }
    assert_eq!(waits.len(), DIAL_ATTEMPTS as usize);
    assert_eq!(&waits[..7], &[500, 1000, 1500, 2000, 2500, 3000, 3000]);
}

#[test]
fn links_say_what_they_wait_for() {
    let listen = Link::Listen { local_addr: "0.0.0.0:9000".into(), auth: Auth::Code("w".into()) };
    assert!(listen.is_listener());
    assert_eq!(listen.status_line(), "waiting for a peer at 0.0.0.0:9000…");
    let connect = Link::Connect { target: "host:1".into(), auth: Auth::Code("w".into()) };
    assert!(!connect.is_listener());
    assert_eq!(connect.status_line(), "connecting to host:1…");
}
