use famchat_core::crypto::Secret;
use famchat_core::ratchet::{DoubleRatchet, ErrorKind, Header, RatchetError, HEADER_LEN, MAX_SKIP, MAX_SKIP_STORE};

/// Build a paired Alice/Bob session sharing a fixed root secret.
fn pair() -> (DoubleRatchet, DoubleRatchet) {
    let root = [0x42u8; 32];
    let (bob, bob_pub) = DoubleRatchet::init_bob(root);
    let alice = DoubleRatchet::init_alice(root, bob_pub);
    (alice, bob)
}

/// A sending chain at its last representable index must fail closed, never
/// panic and never wrap `ns` into a reused message-key index. We fast-forward
/// the private counter to the boundary (a real chain would need 2³² sends).
#[test]
fn sending_chain_exhaustion_fails_closed_not_wrap() {
    // Fast-forward the private counter to the boundary; a real chain would
    // need 2³² sends to get here. (We can't also assert peer-decrypt: the
    // artificial jump makes the message n=u32::MAX-1 look 4-billion keys ahead
    // of Bob's chain, which he rightly refuses — unrelated to this guard.)
    let (mut alice, _bob) = pair();

    // The last valid index still encrypts and advances the counter to the max.
    alice.ns = u32::MAX - 1;
    let header_n = {
        let wire = alice.encrypt(b"final message on this chain").unwrap();
        u32::from_be_bytes([wire[36], wire[37], wire[38], wire[39]])
    };
    assert_eq!(
        header_n,
        u32::MAX - 1,
        "last message carries the boundary index"
    );
    assert_eq!(alice.ns, u32::MAX, "counter must advance to the boundary");

    // One past the boundary: refuse rather than wrap (which would reuse the
    // index) or panic. The chain-key/counter are left untouched by the guard.
    let ns_before = alice.ns;
    match alice.encrypt(b"one too many") {
        Err(e) if e.is_chain_exhausted() => {}
        other => panic!("expected ChainExhausted, got {other:?}"),
    }
    assert_eq!(
        alice.ns, ns_before,
        "failed encrypt must not mutate the counter"
    );
    // Idempotent: still fails closed, still no panic, still no wrap.
    assert!(alice
        .encrypt(b"and again")
        .unwrap_err()
        .is_chain_exhausted());
    assert_eq!(alice.ns, u32::MAX);
}

#[test]
fn round_trip_many_messages_both_directions() {
    let (mut alice, mut bob) = pair();

    // Alice -> Bob, in order.
    for i in 0..50u32 {
        let pt = format!("alice #{i}");
        let wire = alice.encrypt(pt.as_bytes()).unwrap();
        let got = bob.decrypt(&wire).expect("bob decrypts alice");
        assert_eq!(got, pt.as_bytes());
    }

    // Bob -> Alice, in order (Bob now has a sending chain).
    for i in 0..50u32 {
        let pt = format!("bob #{i}");
        let wire = bob.encrypt(pt.as_bytes()).unwrap();
        let got = alice.decrypt(&wire).expect("alice decrypts bob");
        assert_eq!(got, pt.as_bytes());
    }

    // Ping-pong to exercise repeated DH ratchet steps in both directions.
    for i in 0..30u32 {
        let a = format!("ping {i}");
        let wire = alice.encrypt(a.as_bytes()).unwrap();
        assert_eq!(bob.decrypt(&wire).unwrap(), a.as_bytes());

        let b = format!("pong {i}");
        let wire = bob.encrypt(b.as_bytes()).unwrap();
        assert_eq!(alice.decrypt(&wire).unwrap(), b.as_bytes());
    }
}

#[test]
fn interleaved_out_of_order_within_tolerance() {
    let (mut alice, mut bob) = pair();

    // Alice produces a batch inside a single sending chain.
    let mut wires = Vec::new();
    for i in 0..8u32 {
        wires.push(alice.encrypt(format!("m{i}").as_bytes()).unwrap());
    }

    // Deliver out of order: 0, 3, 2, 5, 7, 1, 4, 6.
    for &i in &[0usize, 3, 2, 5, 7, 1, 4, 6] {
        let got = bob.decrypt(&wires[i]).expect("out-of-order decrypt");
        assert_eq!(got, format!("m{i}").as_bytes());
    }
}

#[test]
fn out_of_order_across_a_dh_ratchet() {
    // Skipped keys from an earlier receiving chain must still decrypt after
    // the peer has moved to a new DH ratchet key.
    let (mut alice, mut bob) = pair();

    let a0 = alice.encrypt(b"a0").unwrap();
    let a1 = alice.encrypt(b"a1").unwrap();
    let a2 = alice.encrypt(b"a2").unwrap();

    // Bob receives a0 only (establishes the chain), holds a1/a2 back.
    assert_eq!(bob.decrypt(&a0).unwrap(), b"a0");

    // Bob replies -> Alice ratchets; Alice replies -> Bob ratchets to a new
    // receiving chain.
    let b0 = bob.encrypt(b"b0").unwrap();
    assert_eq!(alice.decrypt(&b0).unwrap(), b"b0");
    let a3 = alice.encrypt(b"a3").unwrap(); // in Alice's new sending chain
    assert_eq!(bob.decrypt(&a3).unwrap(), b"a3");

    // The delayed a1/a2 (old receiving chain) must still open.
    assert_eq!(bob.decrypt(&a2).unwrap(), b"a2");
    assert_eq!(bob.decrypt(&a1).unwrap(), b"a1");
}

#[test]
fn tampered_ciphertext_is_rejected() {
    let (mut alice, mut bob) = pair();

    // Establish a chain first so the tampered message hits the normal path.
    let first = alice.encrypt(b"hello").unwrap();
    assert_eq!(bob.decrypt(&first).unwrap(), b"hello");

    let wire = alice.encrypt(b"secret payload").unwrap();
    let mut bad = wire.clone();
    let last = bad.len() - 1;
    bad[last] ^= 0x01; // flip a bit in the AEAD tag / ciphertext

    let err = bob.decrypt(&bad).unwrap_err();
    assert!(err.is_authentication_failure());

    // State was not corrupted: the untampered message still decrypts.
    assert_eq!(bob.decrypt(&wire).unwrap(), b"secret payload");
}

#[test]
fn tampered_header_is_rejected() {
    let (mut alice, mut bob) = pair();

    let first = alice.encrypt(b"hello").unwrap();
    assert_eq!(bob.decrypt(&first).unwrap(), b"hello");

    let wire = alice.encrypt(b"authenticated header").unwrap();

    // Flip a byte inside the `pn` header field. Routing is unchanged (same
    // dh, valid n) so the message key is derived correctly, but the header
    // is AEAD associated data, so the tag check must fail.
    let mut bad = wire.clone();
    bad[33] ^= 0x80;
    let err = bob.decrypt(&bad).unwrap_err();
    assert!(err.is_authentication_failure());

    // Flip a byte inside the DH public key field: routing changes, a bogus
    // DH ratchet is attempted on scratch state, and the tag fails. The live
    // state must remain intact (transactional decrypt).
    let mut bad2 = wire.clone();
    bad2[5] ^= 0x01;
    assert!(bob.decrypt(&bad2).is_err());

    // The genuine message still opens against the uncorrupted live state.
    assert_eq!(bob.decrypt(&wire).unwrap(), b"authenticated header");
}

#[test]
fn truncated_message_is_rejected_not_panicked() {
    let (mut alice, mut bob) = pair();
    let wire = alice.encrypt(b"data").unwrap();

    // Shorter than a header.
    assert!(bob.decrypt(&wire[..HEADER_LEN - 1]).is_err());
    assert!(bob.decrypt(&[]).is_err());
    // Exactly a header, no ciphertext (empty AEAD body fails the tag check).
    assert!(bob.decrypt(&wire[..HEADER_LEN]).is_err());
}

#[test]
fn skipping_beyond_max_skip_errors_cleanly() {
    let (mut alice, mut bob) = pair();

    // Alice sends many messages in one chain; only the first reaches Bob.
    let mut wires = Vec::new();
    for i in 0..(MAX_SKIP as usize + 5) {
        wires.push(alice.encrypt(format!("m{i}").as_bytes()).unwrap());
    }

    // Establish the receiving chain with message 0.
    assert_eq!(bob.decrypt(&wires[0]).unwrap(), b"m0");

    // Now jump to a message far beyond MAX_SKIP: nr(1) + MAX_SKIP < n.
    let far = MAX_SKIP as usize + 2; // n = MAX_SKIP + 2
    let err = bob.decrypt(&wires[far]).unwrap_err();
    assert!(err.is_too_many_skipped());

    // The session is unharmed: the next in-order message still decrypts.
    assert_eq!(bob.decrypt(&wires[1]).unwrap(), b"m1");
}

#[test]
fn skipped_key_cache_stays_bounded() {
    // Drive far more skipped keys than the store bound over many DH ratchet
    // steps and confirm memory stays capped (no unbounded growth, no panic).
    let (mut alice, mut bob) = pair();

    for _round in 0..5 {
        // Alice sends a burst; Bob receives only the last, skipping the rest.
        let mut wires = Vec::new();
        for i in 0..300u32 {
            wires.push(alice.encrypt(format!("r{_round}-{i}").as_bytes()).unwrap());
        }
        let last = wires.len() - 1;
        assert_eq!(
            bob.decrypt(&wires[last]).unwrap(),
            format!("r{_round}-{last}").as_bytes()
        );

        // Bob replies so both sides perform a DH ratchet, starting a new chain.
        let reply = bob.encrypt(b"ack").unwrap();
        assert_eq!(alice.decrypt(&reply).unwrap(), b"ack");
    }

    assert!(bob.skipped_len() <= MAX_SKIP_STORE);
}

#[test]
fn wrong_root_secret_cannot_decrypt() {
    // A ratchet initialized with a different root must not open the message.
    let (mut alice, _bob) = pair();
    let wire = alice.encrypt(b"top secret").unwrap();

    let (_bob2, bob2_pub) = DoubleRatchet::init_bob([0x99u8; 32]);
    let mut mallory = DoubleRatchet::init_alice([0x99u8; 32], bob2_pub);
    // Mallory is an unrelated session; decrypting Alice's wire fails.
    assert!(mallory.decrypt(&wire).is_err());
}


/// `encrypt` on a fresh `init_bob` ratchet (no sending chain yet)
/// must return a distinct error, not panic.
#[test]
fn finding5_encrypt_before_sending_chain_errors_not_panics() {
    let (mut bob, _bob_pub) = DoubleRatchet::init_bob([0x7u8; 32]);
    let err = bob.encrypt(b"too early").unwrap_err();
    assert!(err.is_no_sending_chain());
    assert!(!err.is_authentication_failure());
    assert!(!err.is_too_many_skipped());

    // After Bob decrypts Alice's first message he gains a sending chain and
    // may encrypt normally.
    let (bob2, bob2_pub) = DoubleRatchet::init_bob([0x7u8; 32]);
    let mut bob2 = bob2;
    let mut alice = DoubleRatchet::init_alice([0x7u8; 32], bob2_pub);
    let hello = alice.encrypt(b"hi bob").unwrap();
    assert_eq!(bob2.decrypt(&hello).unwrap(), b"hi bob");
    let reply = bob2.encrypt(b"hi alice").unwrap(); // no longer errors
    assert_eq!(alice.decrypt(&reply).unwrap(), b"hi alice");
}

/// `Clone` must reconstruct the DH secret (wiping its temp) and
/// yield a fully independent, functional ratchet. We can't observe the
/// stack-temp wipe directly, but we prove the clone is faithful and usable.
#[test]
fn finding4_clone_is_faithful_and_independent() {
    let (mut alice, mut bob) = pair();

    let w0 = alice.encrypt(b"establish").unwrap();
    assert_eq!(bob.decrypt(&w0).unwrap(), b"establish");

    // Clone Bob at this point; the reconstructed StaticSecret must match.
    let mut bob_clone = bob.clone();
    assert_eq!(bob_clone.ratchet_public(), bob.ratchet_public());

    // Both copies decrypt the next Alice message identically (independent
    // state, same result).
    let w1 = alice.encrypt(b"same-to-both").unwrap();
    assert_eq!(bob.decrypt(&w1).unwrap(), b"same-to-both");
    assert_eq!(bob_clone.decrypt(&w1).unwrap(), b"same-to-both");

    // The clone also carries a working sending chain.
    let from_clone = bob_clone.encrypt(b"from the clone").unwrap();
    assert_eq!(alice.decrypt(&from_clone).unwrap(), b"from the clone");
}

/// The store of skipped keys is larger than what a single packet may skip, so
/// one large in-chain skip does not evict keys banked from an earlier DH chain:
/// 4 keys from chain A and MAX_SKIP keys from chain B fit side by side.
#[test]
fn finding6_large_in_chain_skip_does_not_evict_other_chains() {
    assert!(MAX_SKIP_STORE > MAX_SKIP as usize);
    let (mut alice, mut bob) = pair();

    // --- Chain A: bank 4 skipped keys (a0..a3), deliver a4 to establish. ---
    let mut chain_a = Vec::new();
    for i in 0..5u32 {
        chain_a.push(alice.encrypt(format!("a{i}").as_bytes()).unwrap());
    }
    // Deliver a4; a0..a3 get banked (chain A, indices 0..3).
    assert_eq!(bob.decrypt(&chain_a[4]).unwrap(), b"a4");
    assert_eq!(bob.skipped_len(), 4);

    // Bob replies so both ratchet; Alice's next chain (B) has a new dh.
    let ack = bob.encrypt(b"ack").unwrap();
    assert_eq!(alice.decrypt(&ack).unwrap(), b"ack");

    // --- Chain B: force exactly MAX_SKIP banked keys in a single decrypt. --
    let mut chain_b = Vec::new();
    for i in 0..=(MAX_SKIP) {
        chain_b.push(alice.encrypt(format!("b{i}").as_bytes()).unwrap());
    }
    // Deliver b[MAX_SKIP]; banks b0..b[MAX_SKIP-1] = MAX_SKIP keys at once
    // (needed == budget == MAX_SKIP, the exact ceiling).
    let idx = MAX_SKIP as usize;
    assert_eq!(
        bob.decrypt(&chain_b[idx]).unwrap(),
        format!("b{idx}").as_bytes()
    );

    // Store now holds 4 (chain A) + MAX_SKIP (chain B) entries, under the
    // 4000 bound; nothing evicted.
    assert_eq!(bob.skipped_len(), 4 + MAX_SKIP as usize);
    assert!(bob.skipped_len() <= MAX_SKIP_STORE);

    // The chain-A keys survived the large chain-B skip and still decrypt.
    assert_eq!(bob.decrypt(&chain_a[0]).unwrap(), b"a0");
    assert_eq!(bob.decrypt(&chain_a[1]).unwrap(), b"a1");
    assert_eq!(bob.decrypt(&chain_a[2]).unwrap(), b"a2");
    assert_eq!(bob.decrypt(&chain_a[3]).unwrap(), b"a3");
}

/// A single forged packet cannot force ~2*MAX_SKIP derivations.
/// The skip budget is shared across the previous-chain flush and the
/// current-chain catch-up, so a header whose `pn` + `n` together exceed
/// MAX_SKIP is rejected with `TooManySkipped` — and the live state is left
/// completely intact (transactional, no full-state clone).
#[test]
fn finding1_combined_skip_budget_is_bounded_and_transactional() {
    let (mut alice, mut bob) = pair();

    // Establish chain A at Bob with a low nr.
    let a0 = alice.encrypt(b"a0").unwrap();
    let a1 = alice.encrypt(b"a1").unwrap(); // a genuine follow-up, same chain
    assert_eq!(bob.decrypt(&a0).unwrap(), b"a0"); // bob.nr == 1

    // Craft a forged packet with a brand-new (unknown) DH key -> forces a DH
    // ratchet, then large pn AND large n. pn alone (600) and n alone (600) are
    // each under MAX_SKIP, but 600 + 600 > MAX_SKIP, so the shared budget must
    // trip. Without the combined budget this would derive ~1199 keys before
    // the (inevitable) AEAD failure.
    let mut forged = Vec::with_capacity(HEADER_LEN + 48);
    forged.extend_from_slice(&[0x11u8; 32]); // unknown dh
    forged.extend_from_slice(&600u32.to_be_bytes()); // pn
    forged.extend_from_slice(&600u32.to_be_bytes()); // n
    forged.extend_from_slice(&[0u8; 48]); // bogus ciphertext+tag

    let err = bob.decrypt(&forged).unwrap_err();
    assert!(
        err.is_too_many_skipped(),
        "combined pn+n over budget must be rejected, got {err:?}"
    );

    // Live state is intact: the genuine next in-order message still decrypts,
    // proving the forged packet neither advanced nor corrupted the chain.
    assert_eq!(bob.decrypt(&a1).unwrap(), b"a1");
}

/// A forged ciphertext that reuses a *cached* skipped
/// key's (dh, n) must not consume/destroy that genuine key — the real message
/// must still open afterwards.
#[test]
fn finding1_forged_reuse_of_skipped_key_does_not_consume_it() {
    let (mut alice, mut bob) = pair();

    let a0 = alice.encrypt(b"a0").unwrap();
    let a1 = alice.encrypt(b"a1").unwrap();
    let a2 = alice.encrypt(b"a2").unwrap();

    // Deliver a2 -> a0, a1 get banked as skipped keys.
    assert_eq!(bob.decrypt(&a2).unwrap(), b"a2");
    assert_eq!(bob.skipped_len(), 2);

    // Forge a packet with a1's header but a corrupted body.
    let mut forged = a1.clone();
    let last = forged.len() - 1;
    forged[last] ^= 0xFF;
    assert!(bob
        .decrypt(&forged)
        .unwrap_err()
        .is_authentication_failure());

    // The genuine a1 must still be present and openable.
    assert_eq!(bob.skipped_len(), 2);
    assert_eq!(bob.decrypt(&a1).unwrap(), b"a1");
    assert_eq!(bob.decrypt(&a0).unwrap(), b"a0");
}

/// What two ends with fixed secrets send is fixed as well, and opens.
#[test]
fn fixed_secrets_give_fixed_messages() {
    let run = || {
        let (mut bob, bob_pub) = DoubleRatchet::init_bob_with(Secret::new([7u8; 32]), [1u8; 32]);
        let mut alice = DoubleRatchet::init_alice_with(Secret::new([9u8; 32]), [1u8; 32], bob_pub);
        let wire = alice.encrypt(b"same").unwrap();
        assert_eq!(bob.decrypt_with(&wire, Secret::new([3u8; 32])).unwrap(), b"same");
        wire
    };
    let wire = run();
    assert_eq!(wire, run());
    assert_eq!(wire.len(), HEADER_LEN + 4 + 16);
    assert_ne!(&wire[HEADER_LEN..HEADER_LEN + 4], b"same");
}

/// The plaintext that comes out does not depend on the next ratchet secret.
#[test]
fn the_fresh_secret_does_not_show_in_the_plaintext() {
    let (bob, bob_pub) = DoubleRatchet::init_bob([5u8; 32]);
    let mut alice = DoubleRatchet::init_alice([5u8; 32], bob_pub);
    let wire = alice.encrypt(b"either way").unwrap();
    for seed in [[1u8; 32], [2u8; 32]] {
        let mut end = bob.clone();
        assert_eq!(end.decrypt_with(&wire, Secret::new(seed)).unwrap(), b"either way");
    }
}

#[test]
fn headers_round_trip() {
    let header = Header { dh: [0xAB; 32], pn: 258, n: u32::MAX };
    let b = header.encode();
    assert_eq!(&b[..32], &[0xAB; 32]);
    assert_eq!(&b[32..], &[0, 0, 1, 2, 255, 255, 255, 255]);
    assert_eq!(Header::decode(&b), Ok(header));
    assert!(Header::decode(&b[..HEADER_LEN - 1]).is_err());
}

#[test]
fn ratchet_errors_say_what_they_are() {
    let too_many = RatchetError::new(ErrorKind::TooManySkipped);
    assert!(too_many.is_too_many_skipped());
    assert!(!too_many.is_chain_exhausted());
    assert!(!too_many.to_string().is_empty());
    let (mut alice, mut bob) = pair();
    let wire = alice.encrypt(b"x").unwrap();
    assert_eq!(bob.decrypt(&wire[..10]).unwrap_err().kind, bob.decrypt(&[]).unwrap_err().kind);
    assert_eq!(bob.decrypt(&wire).unwrap(), b"x");
    // A replay finds neither a chain position nor a kept key.
    assert!(bob.decrypt(&wire).is_err());
}

/// Both ends of a session start in step, whoever drew which secret.
#[test]
fn ends_start_in_step() {
    for i in 0..8u8 {
        let (mut bob, bob_pub) = DoubleRatchet::init_bob_with(Secret::new([i; 32]), [i ^ 7; 32]);
        let mut alice = DoubleRatchet::init_alice_with(Secret::new([i + 100; 32]), [i ^ 7; 32], bob_pub);
        assert_eq!(bob.ratchet_public(), bob_pub);
        let wire = alice.encrypt(&[i]).unwrap();
        assert_eq!(bob.decrypt(&wire).unwrap(), [i]);
        let back = bob.encrypt(&[i, i]).unwrap();
        assert_eq!(alice.decrypt(&back).unwrap(), [i, i]);
    }
}

/// Both ends send and new chains come and go, while messages arrive late, out of
/// order, altered and twice: each opens once.
#[test]
fn a_whole_session_delivers_each_message_once() {
    let (mut alice, mut bob) = pair();
    let mut to_bob: Vec<(Vec<u8>, Vec<u8>, bool)> = Vec::new();
    let mut to_alice: Vec<(Vec<u8>, Vec<u8>, bool)> = Vec::new();
    fn arrive(end: &mut DoubleRatchet, log: &mut [(Vec<u8>, Vec<u8>, bool)], k: usize) {
        let (text, wire, opened) = &mut log[k];
        let mut altered = wire.clone();
        *altered.last_mut().unwrap() ^= 1;
        assert!(end.decrypt(&altered).is_err());
        if *opened {
            assert!(end.decrypt(wire).is_err());
        } else {
            assert_eq!(&end.decrypt(wire).unwrap(), text);
            *opened = true;
        }
    }
    for round in 0..60usize {
        for i in 0..(round % 4 + 1) {
            let text = format!("to bob {round}.{i}").into_bytes();
            let wire = alice.encrypt(&text).unwrap();
            to_bob.push((text, wire, false));
        }
        let last = to_bob.len() - 1;
        arrive(&mut bob, &mut to_bob, if round % 3 == 0 { last } else { round * 7 % (last + 1) });
        for i in 0..(round % 3 + 1) {
            let text = format!("to alice {round}.{i}").into_bytes();
            let wire = bob.encrypt(&text).unwrap();
            to_alice.push((text, wire, false));
        }
        let last = to_alice.len() - 1;
        arrive(&mut alice, &mut to_alice, if round % 2 == 0 { last } else { round * 5 % (last + 1) });
    }
    for k in (0..to_bob.len()).rev() {
        arrive(&mut bob, &mut to_bob, k);
    }
    for k in 0..to_alice.len() {
        arrive(&mut alice, &mut to_alice, k);
    }
    assert!(to_bob.iter().chain(to_alice.iter()).all(|m| m.2));
}
