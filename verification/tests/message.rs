use famchat_core::message::{
    accept_total, candidate_name, clean_name, human_size, sanitize, sanitize_here, FileGate, Frame, FrameError, Incoming, TransferError,
    CHUNK_SIZE, MAX_CONCURRENT_FILES, MAX_FILE_SIZE, T_CHUNK, T_END, T_OFFER, T_REJECT,
};

#[test]
fn text_roundtrip() {
    let f = Frame::Text("hello, world 🌍".into());
    assert_eq!(Frame::decode(&f.encode()).unwrap(), f);
}

#[test]
fn group_roundtrip() {
    let f = Frame::Group(vec![9, 8, 7, 0, 255, 42]);
    assert_eq!(Frame::decode(&f.encode()).unwrap(), f);
}

#[test]
fn file_frames_roundtrip() {
    let id = [7u8; 16];
    let offer = Frame::FileOffer {
        id,
        name: "plan.pdf".into(),
        size: 123456,
    };
    assert_eq!(Frame::decode(&offer.encode()).unwrap(), offer);

    let chunk = Frame::FileChunk {
        id,
        data: vec![1, 2, 3, 4, 5],
    };
    assert_eq!(Frame::decode(&chunk.encode()).unwrap(), chunk);

    let end = Frame::FileEnd { id };
    assert_eq!(Frame::decode(&end.encode()).unwrap(), end);

    let accept = Frame::FileAccept { id };
    assert_eq!(Frame::decode(&accept.encode()).unwrap(), accept);
    let reject = Frame::FileReject { id };
    assert_eq!(Frame::decode(&reject.encode()).unwrap(), reject);
    // accept and reject must not decode to the same frame.
    assert_ne!(accept, reject);
}

#[test]
fn decode_rejects_garbage() {
    assert!(Frame::decode(&[]).is_err());
    assert!(Frame::decode(&[0xFF, 1, 2]).is_err());
    assert!(Frame::decode(&[T_OFFER, 0, 0]).is_err()); // too short
}

#[test]
fn every_frame_error_has_its_input() {
    assert_eq!(Frame::decode(&[]), Err(FrameError::Empty));
    assert_eq!(Frame::decode(&[T_OFFER; 24]), Err(FrameError::OfferShort));
    assert!(Frame::decode(&[T_OFFER; 25]).is_ok());
    assert_eq!(Frame::decode(&[T_CHUNK; 16]), Err(FrameError::ChunkShort));
    assert_eq!(Frame::decode(&[T_END; 16]), Err(FrameError::EndShort));
    assert_eq!(Frame::decode(&[T_REJECT; 16]), Err(FrameError::ReplyShort));
    assert_eq!(Frame::decode(&[0xAB]), Err(FrameError::UnknownType(0xAB)));
    assert_eq!(FrameError::UnknownType(0xAB).to_string(), "unknown frame type 0xab");
    assert_eq!(FrameError::Empty.to_string(), "empty frame");
}

#[test]
fn offer_bytes_are_laid_out_in_order() {
    let offer = Frame::FileOffer { id: [3u8; 16], name: "a".into(), size: 258 };
    let mut expected = vec![T_OFFER];
    expected.extend([3u8; 16]);
    expected.extend([0, 0, 0, 0, 0, 0, 1, 2]);
    expected.push(b'a');
    assert_eq!(offer.encode(), expected);
}

#[test]
fn broken_text_is_repaired() {
    assert_eq!(
        Frame::decode(&[1, b'a', 0xFF, b'b']),
        Ok(Frame::Text("a\u{fffd}b".to_string()))
    );
}

#[test]
fn sanitize_blocks_traversal() {
    assert_eq!(sanitize("../../etc/passwd"), "passwd");
    assert_eq!(sanitize("/abs/path/file.txt"), "file.txt");
    assert_eq!(sanitize("plain.txt"), "plain.txt");
}

#[test]
fn sanitize_always_leaves_a_name() {
    assert_eq!(sanitize(""), "received-file");
    assert_eq!(sanitize(".."), "received-file");
    assert_eq!(sanitize("a/.."), "received-file");
    assert_eq!(sanitize("two\nlines"), "two_lines");
    for (path, name) in [
        ("/", "received-file"),
        (".", "received-file"),
        ("./.", "received-file"),
        ("/.", "received-file"),
        ("//", "received-file"),
        ("a/../", "received-file"),
        ("a/.", "a"),
        ("a/b/.//", "b"),
        ("//a", "a"),
        ("...", "..."),
        ("a:b", "a:b"),
        ("dir/a:b\\c", "a:b_c"),
    ] {
        let (separator, got) = sanitize_here(path);
        if separator == '/' {
            assert_eq!(got, name, "of {path}");
            assert_eq!(sanitize(&got), got);
        }
        assert_eq!(sanitize(path), got);
    }
    assert_eq!(clean_name(None), "received-file");
    assert_eq!(clean_name(Some(String::new())), "received-file");
    assert_eq!(clean_name(Some("a\\b\u{7f}".to_string())), "a_b_");
}

#[test]
fn taken_names_are_numbered_before_the_extension() {
    assert_eq!(candidate_name("plan.pdf", 0), Some("plan.pdf".to_string()));
    assert_eq!(candidate_name("plan.pdf", 1), Some("plan-1.pdf".to_string()));
    assert_eq!(candidate_name("a.tar.gz", 12), Some("a.tar-12.gz".to_string()));
    assert_eq!(candidate_name("notes", 3), Some("notes-3".to_string()));
    assert_eq!(candidate_name(".hidden", 2), Some(".hidden-2".to_string()));
    assert_eq!(candidate_name("x.y", 9999), Some("x-9999.y".to_string()));
    assert_eq!(candidate_name("x.y", 10000), None);
}

#[test]
fn human_size_reads_well() {
    assert_eq!(human_size(512), "512 B");
    assert_eq!(human_size(2 * 1024 * 1024), "2.0 MB");
}

#[test]
fn sizes_read_as_floating_point_prints_them() {
    fn by_float(bytes: u64) -> String {
        let units = ["B", "KB", "MB", "GB", "TB"];
        let mut v = bytes as f64;
        let mut i = 0;
        while v >= 1024.0 && i < units.len() - 1 {
            v /= 1024.0;
            i += 1;
        }
        if i == 0 {
            format!("{bytes} B")
        } else {
            format!("{v:.1} {}", units[i])
        }
    }
    let mut cases = vec![0, 1, 1023, 1024, 1280, 1408, 1536, 1075, 1076, 999_999, 1_048_575, 1_048_576, 1_310_720];
    cases.extend([u64::MAX, u64::MAX - 1, MAX_FILE_SIZE, 1 << 40, (1 << 40) - 1, (1 << 53) + 1, (1 << 60) - 7]);
    let mut x: u64 = 1;
    for i in 0..2000u64 {
        x = x.wrapping_mul(6364136223846793005).wrapping_add(i);
        cases.push(x >> (i % 64));
    }
    for n in cases {
        assert_eq!(human_size(n), by_float(n), "{n} bytes");
    }
}

/// An offer larger than the hard cap is refused before any file is opened.
#[test]
fn start_rejects_oversize_offer() {
    match Incoming::start("huge.bin", MAX_FILE_SIZE + 1) {
        Err(e) => assert!(e.to_string().contains("exceeds"), "got: {}", e.to_string()),
        Ok(_) => panic!("an over-cap offer must be refused (and must not open a file)"),
    }
}

#[test]
fn transfers_book_what_is_written() {
    let mut incoming = Incoming::start("dir/notes.txt", 10).unwrap();
    assert_eq!(incoming.name, "notes.txt");
    assert_eq!((incoming.received, incoming.size), (0, 10));
    assert_eq!(incoming.total_with(&[0u8; 7]), Ok(7));
    incoming.record(7);
    assert_eq!(incoming.total_with(&[0u8; 3]), Ok(10));
    assert_eq!(
        incoming.total_with(&[0u8; 4]),
        Err(TransferError::MoreThanOffered { size: 10, total: 11 })
    );
    assert_eq!(
        TransferError::TooLarge { size: 8589934593 }.to_string(),
        "offered file of 8589934593 bytes exceeds the 8589934592-byte limit"
    );
    assert_eq!(TransferError::Overflow.to_string(), "file size counter overflow");
}

// ---- File-consent gate (the "nothing to disk without consent" property) ----

/// A pending offer is NOT writable; only accepting it opens the consent gate. This is
/// the core consent guarantee: no chunk is accepted before the user says yes.
#[test]
fn file_gate_writes_only_after_consent() {
    let mut g = FileGate::new();
    let id = [1u8; 16];
    assert!(g.offer(id, "secret.pdf".into(), 100, MAX_CONCURRENT_FILES));
    assert!(
        !g.accepts_chunk(&id),
        "a pending (un-accepted) offer must not accept chunks"
    );
    // Accepting returns name+size so the caller can now open the disk sink.
    assert_eq!(g.accept(&id), Some(("secret.pdf".into(), 100)));
    assert!(g.accepts_chunk(&id), "an accepted transfer accepts chunks");
    g.finish(&id);
    assert!(
        !g.accepts_chunk(&id),
        "a finished transfer no longer accepts chunks"
    );
}

/// A rejected offer never becomes writable and can't be accepted afterwards.
#[test]
fn file_gate_reject_never_writes() {
    let mut g = FileGate::new();
    let id = [2u8; 16];
    g.offer(id, "x".into(), 1, MAX_CONCURRENT_FILES);
    g.reject(&id);
    assert!(
        !g.accepts_chunk(&id),
        "a rejected offer must never accept chunks"
    );
    assert_eq!(
        g.accept(&id),
        None,
        "a rejected offer cannot be accepted later"
    );
    assert!(!g.accepts_chunk(&id));
}

/// Chunks for a transfer that was never offered are refused (no accept, no id).
#[test]
fn file_gate_unknown_id_refused() {
    let mut g = FileGate::new();
    assert!(
        !g.accepts_chunk(&[9u8; 16]),
        "chunks for an unknown transfer are refused"
    );
    // Accepting an id that was never offered yields nothing to open.
    assert_eq!(g.accept(&[9u8; 16]), None);
}

/// The concurrency cap refuses further offers (no unbounded pending files).
#[test]
fn file_gate_caps_concurrent_offers() {
    let mut g = FileGate::new();
    for i in 0..3u8 {
        assert!(g.offer([i; 16], "f".into(), 1, 3));
    }
    assert!(
        !g.offer([99u8; 16], "f".into(), 1, 3),
        "beyond the cap, offers are refused"
    );
    assert_eq!(g.in_flight(), 3);
}

/// The disk-fill guard: a peer can't push past the size it offered, and the
/// running total can't overflow. Pure — no filesystem touched.
#[test]
fn accept_total_caps_at_offered_size() {
    // Within the offer: fine, returns the new running total.
    assert_eq!(accept_total(0, 100, 512).unwrap(), 100);
    assert_eq!(accept_total(500, 12, 512).unwrap(), 512); // exactly fills
                                                          // One byte past the offer: refused.
    let err = accept_total(512, 1, 512).expect_err("must reject exceeding the offer");
    assert!(
        err.to_string().contains("more than the offered"),
        "got: {}",
        err.to_string()
    );
    // A chunk that alone overshoots: refused.
    assert!(accept_total(0, 1000, 512).is_err());
    // Overflow of the running counter: refused, not wrapped.
    assert!(accept_total(u64::MAX, 1, u64::MAX).is_err());
}

#[test]
fn chunks_fit_a_record() {
    let chunk = Frame::FileChunk { id: [0u8; 16], data: vec![0u8; CHUNK_SIZE] };
    assert_eq!(chunk.encode().len(), 1 + 16 + CHUNK_SIZE);
    assert!(chunk.encode().len() <= 65535 - 16);
}
