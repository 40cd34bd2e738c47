use famchat_core::message::{Frame, TransferError, MAX_CONCURRENT_FILES, MAX_FILE_SIZE};
use famchat_core::transfers::{Consent, Receiving, Step, MIB};

const ID: [u8; 16] = [1u8; 16];

fn offer(id: [u8; 16], name: &str, size: u64) -> Frame {
    Frame::FileOffer { id, name: name.into(), size }
}

fn chunk(id: [u8; 16], len: usize) -> Frame {
    Frame::FileChunk { id, data: vec![7u8; len] }
}

fn accepted(r: &mut Receiving, id: [u8; 16], name: &str, size: u64) {
    assert!(matches!(r.on_frame(offer(id, name, size)), Step::Offered { .. }));
    match r.on_decision(&id, true) {
        Consent::Open { file } => r.opened(id, file),
        _ => panic!("an offer can be accepted"),
    }
}

#[test]
fn a_file_is_received() {
    let mut r = Receiving::new();
    match r.on_frame(offer(ID, "../plan.pdf", 2048)) {
        Step::Offered { id, name, size, human } => {
            assert_eq!((id, name.as_str(), size, human.as_str()), (ID, "../plan.pdf", 2048, "2.0 KB"));
        }
        _ => panic!("an offer is shown"),
    }
    match r.on_decision(&ID, true) {
        Consent::Open { file } => {
            assert_eq!((file.name.as_str(), file.size), ("plan.pdf", 2048));
            r.opened(ID, file);
        }
        _ => panic!("an offer can be accepted"),
    }
    match r.on_frame(chunk(ID, 2000)) {
        Step::Write { data, total, .. } => assert_eq!((data.len(), total), (2000, 2000)),
        _ => panic!("an accepted chunk is written"),
    }
    assert!(r.wrote(&ID, 2000).is_none());
    assert!(matches!(r.on_frame(chunk(ID, 48)), Step::Write { total: 2048, .. }));
    let p = r.wrote(&ID, 2048).unwrap();
    assert_eq!((p.received, p.size), (2048, 2048));
    match r.on_frame(Frame::FileEnd { id: ID }) {
        Step::Close { id, name } => assert_eq!((id, name.as_str()), (ID, "plan.pdf")),
        _ => panic!("a finished file is closed"),
    }
    assert!(matches!(r.on_frame(Frame::FileEnd { id: ID }), Step::Nothing));
    assert!(matches!(r.on_frame(chunk(ID, 1)), Step::Nothing));
}

#[test]
fn nothing_is_written_without_consent() {
    let mut r = Receiving::new();
    assert!(matches!(r.on_frame(chunk(ID, 1)), Step::Nothing));
    r.on_frame(offer(ID, "a", 10));
    assert!(matches!(r.on_frame(chunk(ID, 1)), Step::Nothing));
    assert!(matches!(r.on_decision(&ID, false), Consent::Declined));
    assert!(matches!(r.on_frame(chunk(ID, 1)), Step::Nothing));
    assert!(matches!(r.on_decision(&ID, true), Consent::Nothing));
    assert!(matches!(r.on_frame(chunk(ID, 1)), Step::Nothing));
}

#[test]
fn a_peer_that_sends_too_much_is_cut_off() {
    let mut r = Receiving::new();
    accepted(&mut r, ID, "a", 10);
    match r.on_frame(chunk(ID, 11)) {
        Step::Failed { id, error } => {
            assert_eq!((id, error), (ID, TransferError::MoreThanOffered { size: 10, total: 11 }));
        }
        _ => panic!("more than was offered is refused"),
    }
    assert!(matches!(r.on_frame(chunk(ID, 1)), Step::Nothing));
}

#[test]
fn oversize_offers_fail_when_accepted() {
    let mut r = Receiving::new();
    r.on_frame(offer(ID, "a", MAX_FILE_SIZE + 1));
    assert!(matches!(
        r.on_decision(&ID, true),
        Consent::Failed { error: TransferError::TooLarge { .. } }
    ));
    assert!(matches!(r.on_decision(&ID, true), Consent::Nothing));
}

#[test]
fn offers_beyond_the_limit_are_refused() {
    let mut r = Receiving::new();
    for i in 0..MAX_CONCURRENT_FILES {
        assert!(matches!(r.on_frame(offer([i as u8; 16], "f", 1)), Step::Offered { .. }));
    }
    assert!(matches!(r.on_frame(offer([99u8; 16], "f", 1)), Step::Refused { id } if id == [99u8; 16]));
    assert!(matches!(r.on_decision(&[0u8; 16], false), Consent::Declined));
    assert!(matches!(r.on_frame(offer([99u8; 16], "f", 1)), Step::Offered { .. }));
}

#[test]
fn progress_is_reported_by_the_mebibyte() {
    let mut r = Receiving::new();
    accepted(&mut r, ID, "a", 3 * MIB);
    assert!(r.wrote(&ID, MIB - 1).is_none());
    assert!(r.wrote(&ID, MIB).is_some());
    assert!(r.wrote(&ID, MIB + 5).is_none());
    assert!(r.wrote(&ID, 3 * MIB).is_some());
}

#[test]
fn failing_disks_end_a_transfer() {
    let mut r = Receiving::new();
    accepted(&mut r, ID, "a", 10);
    r.write_failed(&ID);
    assert!(matches!(r.on_frame(chunk(ID, 1)), Step::Nothing));
    r.on_frame(offer(ID, "a", 10));
    assert!(matches!(r.on_decision(&ID, true), Consent::Open { .. }));
    r.open_failed(&ID);
    assert!(matches!(r.on_frame(chunk(ID, 1)), Step::Nothing));
}

#[test]
fn talk_is_passed_on() {
    let mut r = Receiving::new();
    assert!(matches!(r.on_frame(Frame::Text("hi".into())), Step::Show { text } if text == "hi"));
    assert!(matches!(r.on_frame(Frame::FileAccept { id: ID }), Step::PeerAccepted { id: ID }));
    assert!(matches!(r.on_frame(Frame::FileReject { id: ID }), Step::PeerRejected { id: ID }));
    assert!(matches!(r.on_frame(Frame::Group(vec![1])), Step::Nothing));
}

/// Chat lines in between leave a transfer where it is.
#[test]
fn talk_leaves_transfers_alone() {
    let mut r = Receiving::new();
    accepted(&mut r, ID, "a", 10);
    r.on_frame(Frame::Text("hi".into()));
    r.on_frame(Frame::FileAccept { id: ID });
    r.on_frame(Frame::FileReject { id: ID });
    r.on_frame(Frame::Group(vec![1]));
    assert!(matches!(r.on_frame(chunk(ID, 4)), Step::Write { total: 4, .. }));
}

/// The count of a file is that of the bytes that were to be written, whatever else
/// comes in between.
#[test]
fn counts_are_of_what_was_written() {
    let mut r = Receiving::new();
    accepted(&mut r, ID, "a", 100);
    let mut disk: Vec<u8> = Vec::new();
    for len in [10usize, 0, 25, 1] {
        assert!(matches!(r.on_frame(chunk([9u8; 16], len)), Step::Nothing));
        match r.on_frame(chunk(ID, len)) {
            Step::Write { id, data, total } => {
                disk.extend_from_slice(&data);
                assert_eq!(total, disk.len() as u64);
                r.wrote(&id, total);
            }
            _ => panic!("an accepted chunk is written"),
        }
    }
    assert_eq!(disk.len(), 36);
    assert!(matches!(r.on_frame(chunk(ID, 65)), Step::Failed { .. }));
}
