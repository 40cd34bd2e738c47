use famchat_core::channel::{
    bootstrap_initiator, bootstrap_responder, frame_of, open_frame, seal_frame, sync_message, ChannelError,
};
use famchat_core::cover::{Packer, Reassembler, CELL_SIZE};
use famchat_core::message::Frame;
use famchat_core::ratchet::DoubleRatchet;
use famchat_core::wire::{open, seal, CodeExchange, Handshake, Session, Turn};

fn sessions() -> (Session, Session) {
    let a = CodeExchange::start("same-secret-word");
    let b = CodeExchange::start("same-secret-word");
    let (to_b, to_a) = (a.message(), b.message());
    let mut x = Handshake::with_code(&a, &to_a, true).unwrap();
    let mut y = Handshake::with_code(&b, &to_b, false).unwrap();
    while x.turn() != Turn::Done {
        if x.turn() == Turn::Write {
            let m = x.write().unwrap();
            y.read(&m).unwrap();
        } else {
            let m = y.write().unwrap();
            x.read(&m).unwrap();
        }
    }
    (x.finish().unwrap(), y.finish().unwrap())
}

struct End {
    session: Session,
    ratchet: DoubleRatchet,
    packer: Packer,
    inbound: Reassembler,
}

fn ends() -> (End, End) {
    let (mut client, mut server) = sessions();
    let (bob, bob_pub) = bootstrap_responder(server.handshake_hash);
    let record = seal(&mut server.transport, &bob_pub).unwrap();
    let key = open(&mut client.transport, &record).unwrap();
    let alice = bootstrap_initiator(client.handshake_hash, &key).unwrap();
    let end = |session, ratchet| End {
        session,
        ratchet,
        packer: Packer::new(CELL_SIZE),
        inbound: Reassembler::new(CELL_SIZE),
    };
    (end(client, alice), end(server, bob))
}

/// Moves what `from` has to send over to `to`, and gives back the frames that
/// arrive.
fn deliver(from: &mut End, to: &mut End, ticks: usize) -> Vec<Frame> {
    let mut frames = Vec::new();
    for _ in 0..ticks {
        let cell = from.packer.next_cell();
        from.packer.commit();
        let record = seal(&mut from.session.transport, &cell).unwrap();
        assert_eq!(record.len(), 3 + CELL_SIZE + 16);
        let cell = open(&mut to.session.transport, &record).unwrap();
        to.inbound.push_cell(&cell).unwrap();
        while let Some(msg) = to.inbound.pop() {
            if let Some(frame) = open_frame(&mut to.ratchet, &msg) {
                frames.push(frame);
            }
        }
    }
    frames
}

/// A message pushed through the ENTIRE production stack — ratchet, cover
/// cells, and per-cell Noise seal — must arrive intact, both directions.
#[test]
fn full_stack_round_trip() {
    let (mut client, mut server) = ends();
    let sync = sync_message(&mut client.ratchet).unwrap();
    client.packer.push(&sync);
    // The sync message holds no frame.
    assert_eq!(deliver(&mut client, &mut server, 3), vec![]);

    let msg = seal_frame(&mut client.ratchet, &Frame::Text("hello from client".into())).unwrap();
    client.packer.push(&msg);
    let got = deliver(&mut client, &mut server, 3);
    assert_eq!(got, vec![Frame::Text("hello from client".into())]);

    let msg = seal_frame(&mut server.ratchet, &Frame::Text("hi back from server".into())).unwrap();
    server.packer.push(&msg);
    let got = deliver(&mut server, &mut client, 3);
    assert_eq!(got, vec![Frame::Text("hi back from server".into())]);
}

#[test]
fn a_responder_sends_only_after_the_sync() {
    let (mut client, mut server) = ends();
    assert!(matches!(
        seal_frame(&mut server.ratchet, &Frame::Text("too early".into())),
        Err(ChannelError::Encrypt(e)) if e.is_no_sending_chain()
    ));
    let sync = sync_message(&mut client.ratchet).unwrap();
    assert_eq!(open_frame(&mut server.ratchet, &sync), None);
    assert!(seal_frame(&mut server.ratchet, &Frame::Text("now".into())).is_ok());
}

#[test]
fn forged_messages_are_dropped_and_change_nothing() {
    let (mut client, mut server) = ends();
    let genuine = seal_frame(&mut client.ratchet, &Frame::FileEnd { id: [4u8; 16] }).unwrap();
    let mut forged = genuine.clone();
    *forged.last_mut().unwrap() ^= 1;
    assert_eq!(open_frame(&mut server.ratchet, &forged), None);
    assert_eq!(open_frame(&mut server.ratchet, b"noise"), None);
    assert_eq!(
        open_frame(&mut server.ratchet, &genuine),
        Some(Frame::FileEnd { id: [4u8; 16] })
    );
}

#[test]
fn bootstrap_keys_have_their_length() {
    assert!(matches!(
        bootstrap_initiator([0u8; 32], &[1u8; 31]),
        Err(ChannelError::BadBootstrapKey)
    ));
    assert!(matches!(
        bootstrap_initiator([0u8; 32], &[1u8; 33]),
        Err(ChannelError::BadBootstrapKey)
    ));
}

#[test]
fn messages_over_the_limit_are_not_sent() {
    let (mut client, _server) = ends();
    let too_long = Frame::Group(vec![0u8; famchat_core::cover::MAX_MESSAGE_LEN]);
    assert!(matches!(
        seal_frame(&mut client.ratchet, &too_long),
        Err(ChannelError::Send(_))
    ));
}

#[test]
fn plaintexts_that_are_no_frames_are_dropped() {
    assert_eq!(frame_of(&[]), None);
    assert_eq!(frame_of(&[0xEE, 1]), None);
    assert_eq!(frame_of(&[1, b'x']), Some(Frame::Text("x".into())));
}

/// Many frames both ways come out in their order, and every record is as long as
/// the next.
#[test]
fn frames_come_out_in_the_order_in_which_they_went_in() {
    let (mut client, mut server) = ends();
    let sync = sync_message(&mut client.ratchet).unwrap();
    client.packer.push(&sync);
    assert_eq!(deliver(&mut client, &mut server, 1), vec![]);
    let (mut sent, mut got) = ((Vec::new(), Vec::new()), (Vec::new(), Vec::new()));
    for i in 0..30usize {
        let to_server = Frame::Text("a".repeat(i * 31));
        let msg = seal_frame(&mut client.ratchet, &to_server).unwrap();
        client.packer.push(&msg);
        sent.0.push(to_server);
        let to_client = Frame::FileChunk { id: [i as u8; 16], data: vec![i as u8; i * 17] };
        let msg = seal_frame(&mut server.ratchet, &to_client).unwrap();
        server.packer.push(&msg);
        sent.1.push(to_client);
        got.0.extend(deliver(&mut client, &mut server, 1));
        got.1.extend(deliver(&mut server, &mut client, 2));
    }
    got.0.extend(deliver(&mut client, &mut server, 60));
    got.1.extend(deliver(&mut server, &mut client, 60));
    assert_eq!(got, sent);
}
