use famchat_core::crypto::Secret;
use famchat_core::identity::{Identity, NOISE_PARAMS};
use famchat_core::message::{Frame, CHUNK_SIZE};
use famchat_core::wire::{
    encode_frame, frame_len, open, seal, CodeExchange, ExchangeError, Handshake, Session, Turn, WireError, MAX_NOISE_MSG,
};

fn make_identity() -> Identity {
    let kp = snow::Builder::new(NOISE_PARAMS.parse().unwrap())
        .generate_keypair()
        .unwrap();
    Identity::from_parts(kp.public, kp.private)
}

/// Lets two ends of a handshake talk until both are done.
fn run(mut a: Handshake, mut b: Handshake) -> Result<(Session, Session), WireError> {
    loop {
        match (a.turn(), b.turn()) {
            (Turn::Write, Turn::Read) => {
                let m = a.write()?;
                b.read(&m)?;
            }
            (Turn::Read, Turn::Write) => {
                let m = b.write()?;
                a.read(&m)?;
            }
            (Turn::Done, Turn::Done) => return Ok((a.finish()?, b.finish()?)),
            other => panic!("the ends are out of step: {other:?}"),
        }
    }
}

/// The handshake of two holders of a word.
fn with_words(word_a: &str, word_b: &str) -> Result<(Session, Session), WireError> {
    let a = CodeExchange::start(word_a);
    let b = CodeExchange::start(word_b);
    let (to_b, to_a) = (a.message(), b.message());
    run(
        Handshake::with_code(&a, &to_a, true)?,
        Handshake::with_code(&b, &to_b, false)?,
    )
}

/// Full handshake: both sides must agree on each other's static key, and
/// messages must round-trip in both directions.
#[test]
fn handshake_and_exchange() {
    let server_id = make_identity();
    let client_id = make_identity();
    let (mut client, mut server) = run(
        Handshake::with_identity(client_id.secret(), true).unwrap(),
        Handshake::with_identity(server_id.secret(), false).unwrap(),
    )
    .unwrap();
    assert_eq!(server.remote_static, client_id.public, "server sees client's key");
    assert_eq!(client.remote_static, server_id.public, "client sees server's key");
    assert_eq!(client.handshake_hash, server.handshake_hash);

    let rec = seal(&mut client.transport, b"hello from client").unwrap();
    assert_ne!(&rec[..17], b"hello from client");
    assert_eq!(open(&mut server.transport, &rec).unwrap(), b"hello from client");
    let rec = seal(&mut server.transport, b"hello from server").unwrap();
    assert_eq!(open(&mut client.transport, &rec).unwrap(), b"hello from server");
}

/// A flipped byte in a sealed record must be rejected by the AEAD.
#[test]
fn tampered_record_is_rejected() {
    let server_id = make_identity();
    let client_id = make_identity();
    let (client, server) = run(
        Handshake::with_identity(client_id.secret(), true).unwrap(),
        Handshake::with_identity(server_id.secret(), false).unwrap(),
    )
    .unwrap();
    let mut client_ts = client.transport;
    let mut server_ts = server.transport;

    let genuine = seal(&mut client_ts, b"trust me").unwrap();
    let mut record = genuine.clone();
    let last = record.len() - 1;
    record[last] ^= 0xFF; // tamper
    assert!(
        open(&mut server_ts, &record).is_err(),
        "tampered record must be rejected"
    );
    // The refusal changed nothing: the genuine record still opens, and only once.
    assert_eq!(open(&mut server_ts, &genuine).unwrap(), b"trust me");
    assert!(matches!(open(&mut server_ts, &genuine), Err(WireError::Open(_))));
}

/// Matching code words: the PAKE handshake succeeds and messages flow.
#[test]
fn code_word_match() {
    let (ca, cb) = with_words("purple-tractor-9", "purple-tractor-9").expect("handshake");
    let mut client_ts = ca.transport;
    let mut server_ts = cb.transport;
    assert!(ca.remote_static.is_empty() && cb.remote_static.is_empty());
    assert_eq!(ca.handshake_hash, cb.handshake_hash);

    let rec = seal(&mut client_ts, b"it works").unwrap();
    assert_eq!(open(&mut server_ts, &rec).unwrap(), b"it works");
}

/// Mismatched code words: the handshake must fail authentication.
#[test]
fn code_word_mismatch_rejected() {
    assert!(matches!(
        with_words("correct-horse", "wrong-horse"),
        Err(WireError::WrongCode(_))
    ));
}

/// White space around a word does not matter.
#[test]
fn words_are_trimmed() {
    assert!(with_words("  family word", "family word\n").is_ok());
    assert!(with_words("family word", "familyword").is_err());
}

/// A multi-chunk file, pushed through the exact production path
/// (encode -> seal -> open -> decode), must reassemble byte-for-byte.
#[test]
fn file_frames_survive_transport() {
    let (ca, cb) = with_words("same-word", "same-word").unwrap();
    let mut sender = ca.transport;
    let mut receiver = cb.transport;

    let original: Vec<u8> = (0..(CHUNK_SIZE * 3 + 100))
        .map(|i| (i % 251) as u8)
        .collect();
    let id = [9u8; 16];

    let mut frames = vec![Frame::FileOffer {
        id,
        name: "blob.bin".into(),
        size: original.len() as u64,
    }];
    for c in original.chunks(CHUNK_SIZE) {
        frames.push(Frame::FileChunk {
            id,
            data: c.to_vec(),
        });
    }
    frames.push(Frame::FileEnd { id });

    let mut reassembled = Vec::new();
    let (mut got_offer, mut got_end) = (false, false);
    for f in &frames {
        let record = seal(&mut sender, &f.encode()).unwrap();
        let plaintext = open(&mut receiver, &record).unwrap();
        match Frame::decode(&plaintext).unwrap() {
            Frame::FileOffer { .. } => got_offer = true,
            Frame::FileChunk { data, .. } => reassembled.extend_from_slice(&data),
            Frame::FileEnd { .. } => got_end = true,
            Frame::Text(_)
            | Frame::Group(_)
            | Frame::FileAccept { .. }
            | Frame::FileReject { .. } => {}
        }
    }

    assert!(got_offer && got_end, "offer and end must arrive");
    assert_eq!(reassembled, original, "file must reassemble byte-for-byte");
}

#[test]
fn the_exchange_over_a_word_agrees() {
    let a = CodeExchange::start_with("acorn", Secret::new([1u8; 32]));
    let b = CodeExchange::start_with(" acorn ", Secret::new([2u8; 32]));
    let c = CodeExchange::start_with("oak", Secret::new([3u8; 32]));
    assert_eq!(a.message().len(), 33);
    assert_eq!(a.message(), CodeExchange::start_with("acorn", Secret::new([1u8; 32])).message());
    assert_ne!(a.message(), b.message());
    let ab = a.agree(&b.message()).unwrap();
    let ba = b.agree(&a.message()).unwrap();
    assert_eq!(ab.bytes, ba.bytes);
    assert_ne!(a.agree(&c.message()).unwrap().bytes, c.agree(&a.message()).unwrap().bytes);
}

#[test]
fn broken_exchanges_are_refused() {
    let a = CodeExchange::start("word");
    let good = CodeExchange::start("word").message();
    assert_eq!(a.agree(&good[..32]).err(), Some(ExchangeError::WrongLength));
    let mut other = good.clone();
    other[0] = 0x41;
    assert_eq!(a.agree(&other).err(), Some(ExchangeError::BadSide));
    // Some 32 bytes in a row that are no point of the curve.
    let mut corrupt = vec![0x53u8; 33];
    let refused = (0..=255u8).any(|b| {
        corrupt[1] = b;
        a.agree(&corrupt).err() == Some(ExchangeError::Corrupt)
    });
    assert!(refused);
    assert!(matches!(
        Handshake::with_code(&a, &[], true),
        Err(WireError::Exchange(ExchangeError::WrongLength))
    ));
}

#[test]
fn frames_carry_their_length() {
    assert_eq!(encode_frame(b"abc").unwrap(), vec![0, 3, b'a', b'b', b'c']);
    assert_eq!(frame_len(&[1, 2]), 258);
    assert_eq!(encode_frame(&vec![0u8; MAX_NOISE_MSG]).unwrap().len(), MAX_NOISE_MSG + 2);
    assert!(matches!(
        encode_frame(&vec![0u8; MAX_NOISE_MSG + 1]),
        Err(WireError::FrameTooLarge)
    ));
}

#[test]
fn records_are_as_long_as_their_plaintext_and_a_tag() {
    let (ca, cb) = with_words("w", "w").unwrap();
    let mut a = ca.transport;
    let mut b = cb.transport;
    for len in [0usize, 1, 515, MAX_NOISE_MSG - 16] {
        let record = seal(&mut a, &vec![7u8; len]).unwrap();
        assert_eq!(record.len(), len + 16);
        assert_eq!(open(&mut b, &record).unwrap(), vec![7u8; len]);
    }
    assert!(matches!(
        seal(&mut a, &vec![7u8; MAX_NOISE_MSG - 15]),
        Err(WireError::TooLong)
    ));
    assert!(matches!(open(&mut b, &[0u8; 15]), Err(WireError::Open(_))));
}

/// The messages of a handshake have the lengths of their keys and tags.
#[test]
fn handshake_messages_have_their_lengths() {
    let (a, b) = (make_identity(), make_identity());
    let mut x = Handshake::with_identity(a.secret(), true).unwrap();
    let mut y = Handshake::with_identity(b.secret(), false).unwrap();
    let first = x.write().unwrap();
    assert_eq!(first.len(), 32);
    assert!(matches!(y.read(&first[..31]), Err(WireError::Handshake(_))));
    assert_eq!(y.turn(), Turn::Read);
    y.read(&first).unwrap();
    let second = y.write().unwrap();
    assert_eq!(second.len(), 96);
    x.read(&second).unwrap();
    let third = x.write().unwrap();
    assert_eq!(third.len(), 64);
    y.read(&third).unwrap();
    assert_eq!(x.finish().unwrap().remote_static, b.public);
    assert_eq!(y.finish().unwrap().remote_static, a.public);

    let (c, d) = (CodeExchange::start("word"), CodeExchange::start("word"));
    let mut x = Handshake::with_code(&c, &d.message(), true).unwrap();
    let mut y = Handshake::with_code(&d, &c.message(), false).unwrap();
    let first = x.write().unwrap();
    y.read(&first).unwrap();
    let second = y.write().unwrap();
    assert_eq!((first.len(), second.len()), (48, 48));
    x.read(&second).unwrap();
    assert!(x.finish().unwrap().remote_static.is_empty());
}

/// A private key that is too short is filled up with zeros.
#[test]
fn short_private_keys_are_filled_up() {
    let mut whole = [0u8; 32];
    whole[..3].copy_from_slice(&[1, 2, 3]);
    let other = make_identity();
    let shown = |key: &[u8]| {
        let (_, server) = run(
            Handshake::with_identity(key, true).unwrap(),
            Handshake::with_identity(other.secret(), false).unwrap(),
        )
        .unwrap();
        server.remote_static
    };
    assert_eq!(shown(&[1, 2, 3]), shown(&whole));
    assert_ne!(shown(&[1, 2]), shown(&whole));
}

/// The hash of a handshake is of what has passed: it is the same at both ends, and
/// another one in every handshake.
#[test]
fn hashes_are_of_what_has_passed() {
    let (a, b) = with_words("word", "word").unwrap();
    let (c, d) = with_words("word", "word").unwrap();
    assert_eq!(a.handshake_hash, b.handshake_hash);
    assert_eq!(c.handshake_hash, d.handshake_hash);
    assert_ne!(a.handshake_hash, c.handshake_hash);
    assert_ne!(a.handshake_hash, [0u8; 32]);
}

/// A message of a handshake that was altered on the way is not what the other end
/// wrote.
#[test]
fn altered_handshake_messages_do_not_lead_to_a_session() {
    let (a, b) = (make_identity(), make_identity());
    let mut x = Handshake::with_identity(a.secret(), true).unwrap();
    let mut y = Handshake::with_identity(b.secret(), false).unwrap();
    let mut first = x.write().unwrap();
    first[0] ^= 1;
    y.read(&first).unwrap();
    let second = y.write().unwrap();
    assert!(matches!(x.read(&second), Err(WireError::Handshake(_))));
    assert_eq!(x.turn(), Turn::Read);

    let mut x = Handshake::with_identity(a.secret(), true).unwrap();
    let mut y = Handshake::with_identity(b.secret(), false).unwrap();
    let first = x.write().unwrap();
    y.read(&first).unwrap();
    let second = y.write().unwrap();
    x.read(&second).unwrap();
    let mut third = x.write().unwrap();
    third[0] ^= 1;
    assert!(matches!(y.read(&third), Err(WireError::Handshake(_))));
}
