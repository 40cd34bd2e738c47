use ed25519_dalek::{Signer, SigningKey};
use rand::rngs::OsRng;

use famchat_core::crypto::Secret;
use famchat_core::group::{
    GroupError, ReceiverState, SenderKeyDistribution, SenderKeyState, DIST_LEN, ITER_LEN, MAX_SKIP, MIN_WIRE_LEN, SIG_LEN,
};

/// Re-sign `wire`'s `iteration || ciphertext` prefix with `key` so the
/// signature is valid again after tampering. Lets a test isolate the AEAD
/// (`Decrypt`) path from the signature (`BadSignature`) path — the signature
/// covers the ciphertext, so an untampered attacker flipping a ciphertext
/// byte would be caught as `BadSignature` first.
fn resign(wire: &mut [u8], key: &SigningKey) {
    let sig_start = wire.len() - SIG_LEN;
    let sig = key.sign(&wire[..sig_start]);
    wire[sig_start..].copy_from_slice(&sig.to_bytes());
}

#[test]
fn in_order_round_trip() {
    let mut sender = SenderKeyState::new();
    let dist = sender.distribution();
    let mut receiver = ReceiverState::from_distribution(&dist);

    for i in 0..50u32 {
        let msg = format!("group message number {i}").into_bytes();
        let wire = sender.encrypt(&msg);
        let got = receiver.decrypt(&wire).expect("in-order decrypt");
        assert_eq!(got, msg);
    }
}

#[test]
fn out_of_order_within_max_skip() {
    let mut sender = SenderKeyState::new();
    let dist = sender.distribution();
    let mut receiver = ReceiverState::from_distribution(&dist);

    let msgs: Vec<Vec<u8>> = (0..10u32)
        .map(|i| format!("msg {i}").into_bytes())
        .collect();
    let wires: Vec<Vec<u8>> = msgs.iter().map(|m| sender.encrypt(m)).collect();

    // Interleaved / out-of-order delivery, all within MAX_SKIP.
    let order = [2usize, 0, 1, 5, 3, 4, 9, 6, 8, 7];
    for &i in &order {
        let got = receiver.decrypt(&wires[i]).expect("out-of-order decrypt");
        assert_eq!(got, msgs[i], "message {i}");
    }
}

#[test]
fn empty_plaintext_round_trip() {
    let mut sender = SenderKeyState::new();
    let dist = sender.distribution();
    let mut receiver = ReceiverState::from_distribution(&dist);
    let wire = sender.encrypt(b"");
    assert_eq!(receiver.decrypt(&wire).unwrap(), b"");
}

#[test]
fn flipped_ciphertext_is_rejected_as_decrypt() {
    let mut sender = SenderKeyState::new();
    let dist = sender.distribution();
    let mut receiver = ReceiverState::from_distribution(&dist);

    let mut wire = sender.encrypt(b"the quick brown fox");
    // Flip a byte inside the ciphertext region (after the 4-byte iteration,
    // before the 64-byte signature).
    let ct_index = ITER_LEN + 3;
    wire[ct_index] ^= 0x01;
    // Re-sign so the signature is valid over the tampered bytes; this
    // isolates the AEAD failure path from the signature path.
    resign(&mut wire, &SigningKey::from_bytes(&sender.signing_key.bytes));

    assert_eq!(receiver.decrypt(&wire), Err(GroupError::Decrypt));

    // State was not corrupted: a fresh valid message still decrypts.
    let good = sender.encrypt(b"still working");
    assert_eq!(receiver.decrypt(&good).unwrap(), b"still working");
}

#[test]
fn flipped_signature_is_rejected() {
    let mut sender = SenderKeyState::new();
    let dist = sender.distribution();
    let mut receiver = ReceiverState::from_distribution(&dist);

    let mut wire = sender.encrypt(b"hello");
    let last = wire.len() - 1;
    wire[last] ^= 0x01; // flip a signature byte
    assert_eq!(receiver.decrypt(&wire), Err(GroupError::BadSignature));
}

#[test]
fn flipped_iteration_is_rejected() {
    let mut sender = SenderKeyState::new();
    let dist = sender.distribution();
    let mut receiver = ReceiverState::from_distribution(&dist);

    let mut wire = sender.encrypt(b"hello");
    wire[0] ^= 0x01; // flip the iteration; signed data no longer matches
    assert_eq!(receiver.decrypt(&wire), Err(GroupError::BadSignature));
}

#[test]
fn message_signed_by_different_key_is_rejected() {
    let mut sender = SenderKeyState::new();
    let dist = sender.distribution();
    let mut receiver = ReceiverState::from_distribution(&dist);

    // Valid ciphertext from the real sender's chain, but signed by an
    // attacker who lacks the sender's signing key.
    let mut wire = sender.encrypt(b"impersonation attempt");
    let attacker = SigningKey::generate(&mut OsRng);
    resign(&mut wire, &attacker);

    assert_eq!(receiver.decrypt(&wire), Err(GroupError::BadSignature));
}

#[test]
fn jump_beyond_max_skip_errors_cleanly() {
    let mut sender = SenderKeyState::new();
    let dist = sender.distribution();
    let mut receiver = ReceiverState::from_distribution(&dist);

    // Advance the sender far past the receiver: iterations 0..=MAX_SKIP+1.
    let mut last = Vec::new();
    for _ in 0..=(MAX_SKIP + 1) {
        last = sender.encrypt(b"x");
    }
    // The last message's iteration is MAX_SKIP+1, gap MAX_SKIP+1 > MAX_SKIP.
    assert_eq!(receiver.decrypt(&last), Err(GroupError::TooManySkipped));
    // Receiver state untouched: it can still decrypt from iteration 0.
    assert_eq!(receiver.iteration, 0);
}

#[test]
fn exactly_max_skip_is_accepted() {
    let mut sender = SenderKeyState::new();
    let dist = sender.distribution();
    let mut receiver = ReceiverState::from_distribution(&dist);

    // Produce messages at iterations 0..=MAX_SKIP; delivering the last one
    // first is a gap of exactly MAX_SKIP, which must be allowed.
    let mut wires = Vec::new();
    for _ in 0..=MAX_SKIP {
        wires.push(sender.encrypt(b"payload"));
    }
    let last = wires.last().unwrap();
    assert_eq!(receiver.decrypt(last).unwrap(), b"payload");
}

#[test]
fn two_independent_senders() {
    let mut alice = SenderKeyState::new();
    let mut bob = SenderKeyState::new();

    // A receiver in the group holds a distribution from each sender.
    let mut from_alice = ReceiverState::from_distribution(&alice.distribution());
    let mut from_bob = ReceiverState::from_distribution(&bob.distribution());

    let a1 = alice.encrypt(b"alice one");
    let b1 = bob.encrypt(b"bob one");
    let a2 = alice.encrypt(b"alice two");
    let b2 = bob.encrypt(b"bob two");

    assert_eq!(from_alice.decrypt(&a1).unwrap(), b"alice one");
    assert_eq!(from_bob.decrypt(&b1).unwrap(), b"bob one");
    assert_eq!(from_bob.decrypt(&b2).unwrap(), b"bob two");
    assert_eq!(from_alice.decrypt(&a2).unwrap(), b"alice two");

    // Cross-wires: Alice's receiver must reject Bob's message (wrong signer).
    assert_eq!(from_alice.decrypt(&b1), Err(GroupError::BadSignature));
}

#[test]
fn distribution_encode_decode_round_trip() {
    let sender = SenderKeyState::new();
    let dist = sender.distribution();
    let bytes = dist.encode();
    assert_eq!(bytes.len(), DIST_LEN);
    let decoded = SenderKeyDistribution::decode(bytes.as_slice()).expect("valid distribution");

    // A receiver built from the decoded distribution behaves identically to
    // one built from the original: same chain key, iteration, and signer.
    let mut rx = ReceiverState::from_distribution(&decoded);
    let mut sender = sender; // reuse the same signing key & chain state
    let wire = sender.encrypt(b"after decode");
    assert_eq!(rx.decrypt(&wire).unwrap(), b"after decode");
}

#[test]
fn malformed_short_wire_is_rejected() {
    let mut sender = SenderKeyState::new();
    let dist = sender.distribution();
    let mut receiver = ReceiverState::from_distribution(&dist);
    let _ = sender.encrypt(b"x");
    for len in 0..MIN_WIRE_LEN {
        let junk = vec![0u8; len];
        assert_eq!(receiver.decrypt(&junk), Err(GroupError::Malformed));
    }
}

#[test]
fn replayed_message_after_advance_is_rejected() {
    let mut sender = SenderKeyState::new();
    let dist = sender.distribution();
    let mut receiver = ReceiverState::from_distribution(&dist);

    let w0 = sender.encrypt(b"first");
    let w1 = sender.encrypt(b"second");
    assert_eq!(receiver.decrypt(&w0).unwrap(), b"first");
    assert_eq!(receiver.decrypt(&w1).unwrap(), b"second");
    // Replaying an already-consumed, ratcheted-past message: valid signature
    // but the key is gone. Rejected as Decrypt, no panic.
    assert_eq!(receiver.decrypt(&w0), Err(GroupError::Decrypt));
}

#[test]
fn distributions_of_the_wrong_length_are_malformed() {
    let bytes = SenderKeyState::new().distribution().encode();
    assert!(matches!(
        SenderKeyDistribution::decode(&bytes.as_slice()[..DIST_LEN - 1]),
        Err(GroupError::Malformed)
    ));
    let mut longer = bytes.as_slice().to_vec();
    longer.push(0);
    assert!(matches!(SenderKeyDistribution::decode(&longer), Err(GroupError::Malformed)));
}

#[test]
fn a_late_joiner_reads_from_the_distribution_on() {
    let mut sender = SenderKeyState::from_secrets(Secret::new([1u8; 32]), Secret::new([2u8; 32]));
    let early = sender.encrypt(b"before");
    let mut receiver = ReceiverState::from_distribution(&sender.distribution());
    let later = sender.encrypt(b"after");
    assert_eq!(receiver.decrypt(&early), Err(GroupError::Decrypt));
    assert_eq!(receiver.decrypt(&later).unwrap(), b"after");
    assert_eq!(receiver.iteration, 2);
}

#[test]
fn the_same_sender_secrets_make_the_same_messages() {
    let make = || SenderKeyState::from_secrets(Secret::new([3u8; 32]), Secret::new([4u8; 32])).encrypt(b"hello");
    let wire = make();
    assert_eq!(wire, make());
    assert_eq!(wire.len(), ITER_LEN + 5 + 16 + SIG_LEN);
    assert_eq!(&wire[..ITER_LEN], &[0, 0, 0, 0]);
    let signing = SigningKey::from_bytes(&[4u8; 32]);
    let sig = signing.sign(&wire[..wire.len() - SIG_LEN]);
    assert_eq!(&wire[wire.len() - SIG_LEN..], &sig.to_bytes());
}

#[test]
fn group_errors_read_well() {
    for e in [GroupError::Malformed, GroupError::BadSignature, GroupError::Decrypt, GroupError::TooManySkipped] {
        assert!(!e.to_string().is_empty());
    }
}

/// What decodes as a distribution encodes to the same bytes again.
#[test]
fn distributions_have_one_encoding() {
    let bytes = SenderKeyState::new().distribution().encode();
    let again = SenderKeyDistribution::decode(bytes.as_slice()).unwrap().encode();
    assert_eq!(bytes.as_slice(), again.as_slice());
    let mut any = [7u8; DIST_LEN];
    any[32..36].copy_from_slice(&[0, 0, 1, 2]);
    if let Ok(d) = SenderKeyDistribution::decode(&any) {
        assert_eq!(d.encode().as_slice(), &any);
    }
}

/// In whatever order they arrive, and whatever else arrives in between, messages
/// open once and never again.
#[test]
fn each_message_opens_once_in_any_order() {
    let mut sender = SenderKeyState::new();
    let mut receiver = ReceiverState::from_distribution(&sender.distribution());
    let mut stranger = SenderKeyState::new();
    let texts: Vec<Vec<u8>> = (0..40u8).map(|i| vec![i; i as usize]).collect();
    let wires: Vec<Vec<u8>> = texts.iter().map(|t| sender.encrypt(t)).collect();
    let mut seen = [false; 40];
    for step in 0..60usize {
        let k = step * 17 % 40;
        assert_eq!(receiver.decrypt(&stranger.encrypt(b"not from you")), Err(GroupError::BadSignature));
        let mut altered = wires[k].clone();
        altered[ITER_LEN] ^= 1;
        assert_eq!(receiver.decrypt(&altered), Err(GroupError::BadSignature));
        if seen[k] {
            assert_eq!(receiver.decrypt(&wires[k]), Err(GroupError::Decrypt));
        } else {
            assert_eq!(receiver.decrypt(&wires[k]).unwrap(), texts[k]);
            seen[k] = true;
        }
    }
    assert!(seen.iter().all(|s| *s));
}
