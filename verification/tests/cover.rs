use famchat_core::channel::{default_config, sealable, MAX_SEALABLE_CELL};
use famchat_core::cover::{
    check_outbound, CoverConfig, CoverError, Packer, Reassembler, CELL_DATA, CELL_HEADER, CELL_PAD, CELL_SIZE,
    INBOUND_CAPACITY, MAX_MESSAGE_LEN, MIN_INTERVAL_NANOS,
};

// Deterministic pseudo-random payload of a given length.
fn pattern(seed: usize, len: usize) -> Vec<u8> {
    (0..len)
        .map(|j| ((seed.wrapping_mul(131).wrapping_add(j.wrapping_mul(7))) & 0xff) as u8)
        .collect()
}

/// Sends messages through cells of `cell_size`, one after another, and gives
/// back what comes out at the other end.
fn through(cell_size: usize, msgs: &[Vec<u8>]) -> Vec<Vec<u8>> {
    let mut packer = Packer::new(cell_size);
    let mut end = Reassembler::new(cell_size);
    let mut waiting = msgs.iter();
    let mut out = Vec::new();
    loop {
        while packer.wants_more() {
            match waiting.next() {
                Some(m) => packer.push(m),
                None => {
                    packer.close();
                    break;
                }
            }
        }
        if packer.finished() {
            return out;
        }
        let cell = packer.next_cell();
        assert_eq!(cell.len(), CELL_HEADER + cell_size);
        packer.commit();
        end.push_cell(&cell).unwrap();
        while let Some(m) = end.pop() {
            out.push(m);
        }
    }
}

/// Messages of varying sizes — including empty, exactly one cell, and several
/// cells — round-trip intact and in order, byte-for-byte.
#[test]
fn roundtrip_various_sizes_exact() {
    // 0, 1, sub-cell, exactly cell, just-over-cell, and multi-cell messages.
    let sizes = [0usize, 1, 7, 100, 511, 512, 513, 1000, 4096, 5000];
    let msgs: Vec<Vec<u8>> = sizes.iter().map(|&n| pattern(n, n)).collect();
    let got = through(512, &msgs);
    assert_eq!(got.len(), msgs.len());
    for (got, expected) in got.iter().zip(&msgs) {
        assert_eq!(
            got,
            expected,
            "message of len {} corrupted",
            expected.len()
        );
    }
}

/// A single message far larger than one cell reassembles byte-for-byte.
#[test]
fn large_message_reassembly_exact() {
    // ~40 cells' worth of non-trivial bytes.
    let big: Vec<u8> = (0..20_000u32)
        .map(|k| (k.wrapping_mul(2_654_435_761) >> 13) as u8)
        .collect();
    let got = through(512, &[big.clone()]);
    assert_eq!(got[0].len(), big.len());
    assert_eq!(got[0], big);
}

/// Many small messages preserve order and content (exercises packing several
/// messages into a single cell).
#[test]
fn many_small_messages_in_order() {
    let n = 50usize;
    let msgs: Vec<Vec<u8>> = (0..n).map(|i| vec![i as u8; (i % 9) + 1]).collect();
    let got = through(512, &msgs);
    for i in 0..n {
        assert_eq!(
            got[i],
            vec![i as u8; (i % 9) + 1],
            "message {i} out of order/corrupt"
        );
    }
}

/// With no real data queued, the sender still emits cells, and every one of
/// them is an all-zero PAD cell — indistinguishable filler.
#[test]
fn pad_cells_emitted_while_idle() {
    let mut packer = Packer::new(512);
    let observed = 16;
    for _ in 0..observed {
        let buf = packer.next_cell();
        packer.commit();
        assert_eq!(buf[0], CELL_PAD, "expected a PAD cell during idle");
        assert_eq!(
            u16::from_be_bytes([buf[1], buf[2]]),
            0,
            "PAD cell must declare zero fragment length"
        );
        assert!(
            buf[CELL_HEADER..].iter().all(|&b| b == 0),
            "PAD payload must be zeroed"
        );
    }
    assert!(observed > 8);
}

/// Real data still flows correctly even when interleaved with idle padding.
#[test]
fn data_survives_interleaved_idle() {
    let mut packer = Packer::new(512);
    let mut end = Reassembler::new(512);
    for (seed, len) in [(1, 300), (2, 1500)] {
        packer.push(&pattern(seed, len));
        let mut got = None;
        for _ in 0..15 {
            let cell = packer.next_cell();
            packer.commit();
            end.push_cell(&cell).unwrap();
            if let Some(m) = end.pop() {
                assert!(got.is_none());
                got = Some(m);
            }
        }
        assert_eq!(got, Some(pattern(seed, len)));
    }
}

/// A zero interval is clamped, and so is a degenerate cell size.
#[test]
fn zero_interval_is_clamped_not_panicked() {
    let cfg = CoverConfig { cell_size: 64, interval_nanos: 0 };
    assert_eq!(cfg.effective_interval_nanos(), MIN_INTERVAL_NANOS);
    assert_eq!(cfg.effective_cell_size(), 64);
    let odd = CoverConfig { cell_size: 0, interval_nanos: 5_000_000 };
    assert_eq!(odd.effective_cell_size(), 1);
    assert_eq!(odd.effective_interval_nanos(), 5_000_000);
    let huge = CoverConfig { cell_size: 1 << 20, interval_nanos: 1 };
    assert_eq!(huge.effective_cell_size(), 65535);
    assert_eq!(sealable(huge).cell_size, MAX_SEALABLE_CELL);
    assert_eq!(sealable(odd).interval_nanos, 5_000_000);
    assert_eq!(default_config().cell_size, CELL_SIZE);
    assert_eq!(default_config().interval_nanos, 250_000_000);
    assert_eq!(CoverConfig::default().cell_size, CELL_SIZE);
}

/// An oversize outbound message is rejected with an explicit error. Conforming
/// messages are still accepted.
#[test]
fn oversize_outbound_rejected_with_explicit_error() {
    match check_outbound(MAX_MESSAGE_LEN + 1) {
        Err(CoverError::MessageTooLarge { len, max }) => {
            assert_eq!(len, MAX_MESSAGE_LEN + 1);
            assert_eq!(max, MAX_MESSAGE_LEN);
        }
        other => panic!("expected MessageTooLarge, got {other:?}"),
    }
    assert!(check_outbound(MAX_MESSAGE_LEN).is_ok());
    assert!(check_outbound(8).is_ok());
}

/// The receiver surfaces an oversize per-message length as an explicit
/// `Err(OversizeMessage)`.
#[test]
fn receiver_surfaces_oversize_message_error() {
    let cell_size = 64usize;
    // One DATA cell carrying a 4-byte length prefix claiming an oversize message.
    let mut cell = vec![0u8; CELL_HEADER + cell_size];
    cell[0] = CELL_DATA;
    cell[1..CELL_HEADER].copy_from_slice(&4u16.to_be_bytes());
    let bogus_len = (MAX_MESSAGE_LEN as u32) + 1;
    cell[CELL_HEADER..CELL_HEADER + 4].copy_from_slice(&bogus_len.to_be_bytes());

    let mut end = Reassembler::new(cell_size);
    match end.push_cell(&cell) {
        Err(CoverError::OversizeMessage { len, max }) => {
            assert_eq!(len, MAX_MESSAGE_LEN + 1);
            assert_eq!(max, MAX_MESSAGE_LEN);
        }
        other => panic!("expected explicit OversizeMessage error, got {other:?}"),
    }
}

/// The receiver surfaces a structurally malformed cell (fragment length larger
/// than the cell) as an explicit `Err(MalformedCell)`.
#[test]
fn receiver_surfaces_malformed_cell_error() {
    let cell_size = 32usize;
    let mut cell = vec![0u8; CELL_HEADER + cell_size];
    cell[0] = CELL_DATA;
    // A fragment length larger than the cell payload is structurally impossible.
    cell[1..CELL_HEADER].copy_from_slice(&((cell_size as u16) + 1).to_be_bytes());
    let mut end = Reassembler::new(cell_size);
    assert_eq!(end.push_cell(&cell), Err(CoverError::MalformedCell));
    // An unknown kind of cell is malformed as well.
    cell[0] = 7;
    assert_eq!(end.push_cell(&cell), Err(CoverError::MalformedCell));
}

/// A consumer that does not fetch never holds up the cells: the oldest messages
/// are left out.
#[test]
fn stalled_consumer_never_blocks_receiver_read_loop() {
    let cell_size = 16usize;
    let mut end = Reassembler::new(cell_size);
    let to_write = INBOUND_CAPACITY * 3;
    for i in 0..to_write {
        // One DATA cell = one complete tiny message ([len:4][2 bytes]).
        let mut cell = vec![0u8; CELL_HEADER + cell_size];
        cell[0] = CELL_DATA;
        let mut stream = Vec::new();
        stream.extend(2u32.to_be_bytes());
        stream.extend((i as u16).to_be_bytes());
        cell[1..CELL_HEADER].copy_from_slice(&(stream.len() as u16).to_be_bytes());
        cell[CELL_HEADER..CELL_HEADER + stream.len()].copy_from_slice(&stream);
        end.push_cell(&cell).unwrap();
    }
    let first = end.pop().unwrap();
    assert_eq!(first, ((to_write - INBOUND_CAPACITY) as u16).to_be_bytes());
    end.put_back(first.clone());
    assert_eq!(end.pop(), Some(first));
    let mut rest = 1;
    while end.pop().is_some() {
        rest += 1;
    }
    assert_eq!(rest, INBOUND_CAPACITY);
}

/// A cell that finds no room is offered again: nothing of it is lost.
#[test]
fn cells_without_room_are_offered_again() {
    let mut packer = Packer::new(8);
    packer.push(b"twelve bytes");
    let first = packer.next_cell();
    assert_eq!(first, packer.next_cell());
    packer.commit();
    assert_ne!(first, packer.next_cell());
}

/// Cells of a busy and of an idle sender have the same length.
#[test]
fn busy_and_idle_cells_look_alike() {
    let idle = Packer::new(100);
    let mut busy = Packer::new(100);
    busy.push(&[9u8; 5000]);
    for _ in 0..60 {
        assert_eq!(busy.next_cell().len(), idle.next_cell().len());
        busy.commit();
    }
    assert_eq!(busy.next_cell(), idle.next_cell());
}

#[test]
fn cover_errors_read_well() {
    for e in [
        CoverError::MessageTooLarge { len: 2, max: 1 },
        CoverError::QueueFull,
        CoverError::Closed,
        CoverError::OversizeMessage { len: 2, max: 1 },
        CoverError::MalformedCell,
    ] {
        assert!(!e.to_string().is_empty());
    }
}
