use famchat_core::desktop::{
    active_for, file_begin, file_chunk, group_line, listen_address, may_open, new_transfer_id, normalize_target,
    parse_transfer_id, peer_label, room_label, route_file, route_line, saved_note, self_loopback, shareable_tcp_addr,
    transfer_id_from, Route, SendError,
};
use famchat_core::hexa::HexError;
use famchat_core::hub::ServerMsg;
use famchat_core::hublink::{after_event, on_frame, HubEvent, HubFeed, HubInput, HubNotice};
use famchat_core::message::{Frame, CHUNK_SIZE, MAX_FILE_SIZE};

#[test]
fn addresses_get_a_port() {
    assert_eq!(normalize_target("192.168.1.2"), "192.168.1.2:9000");
    assert_eq!(normalize_target("host:1"), "host:1");
    assert_eq!(listen_address("  "), "0.0.0.0:9000");
    assert_eq!(listen_address(" 1.2.3.4:5"), " 1.2.3.4:5");
    assert_eq!(self_loopback("0.0.0.0:4242"), "127.0.0.1:4242");
    assert_eq!(self_loopback("[::]:7"), "127.0.0.1:7");
    assert_eq!(self_loopback("nowhere"), "nowhere");
    assert_eq!(shareable_tcp_addr("0.0.0.0:4242", Some("10.0.0.5")), "10.0.0.5:4242");
    assert_eq!(shareable_tcp_addr("4242", Some("10.0.0.5")), "10.0.0.5:4242");
    assert_eq!(shareable_tcp_addr("0.0.0.0:4242", None), "0.0.0.0:4242");
}

#[test]
fn only_web_addresses_are_opened() {
    assert!(may_open("https://example.org"));
    assert!(may_open("http://"));
    assert!(!may_open("file:///etc/passwd"));
    assert!(!may_open("http:/"));
    assert!(!may_open(" https://example.org"));
}

#[test]
fn rooms_of_one_name_are_one_conversation() {
    let a = active_for("  Family Room ", "10.0.0.1:9000");
    assert_eq!((a.id.as_str(), a.title.as_str()), ("family room", "Family Room"));
    assert_eq!(active_for("FAMILY ROOM", "elsewhere").id, a.id);
    let unnamed = active_for(" ", "Host:9000");
    assert_eq!((unnamed.id.as_str(), unnamed.title.as_str()), ("host:9000", "Host:9000"));
    assert_eq!(active_for("ÄÖ", "x").id, "äö");
    assert_eq!(peer_label(&Some(active_for("Mom", ""))), "Mom");
    assert_eq!(peer_label(&None), "Someone");
    assert_eq!(room_label(&None), "Family");
    assert_eq!(group_line(b"ok \xff"), "ok \u{fffd}");
}

#[test]
fn groups_come_before_peers() {
    assert_eq!(route_line(true, true), Some(Route::Group));
    assert_eq!(route_line(false, true), Some(Route::Pair));
    assert_eq!(route_line(false, false), None);
    assert_eq!(route_file(true, true), Err(SendError::InGroup));
    assert_eq!(route_file(false, false), Err(SendError::NotConnected));
    assert_eq!(route_file(false, true), Ok(()));
}

#[test]
fn transfer_ids_round_trip_through_text() {
    let id = new_transfer_id();
    assert_ne!(id, new_transfer_id());
    assert_eq!(parse_transfer_id(&hex::encode(id)), Ok(id));
    assert_eq!(parse_transfer_id(&"AB".repeat(16)), Ok([0xAB; 16]));
    assert_eq!(parse_transfer_id("ab"), Err(SendError::BadTransferId));
    assert_eq!(parse_transfer_id("abc"), Err(SendError::Hex(HexError::OddLength)));
    assert_eq!(
        parse_transfer_id("abxy"),
        Err(SendError::Hex(HexError::InvalidHexCharacter { c: 'x', index: 2 }))
    );
    assert_eq!(transfer_id_from(&"07".repeat(16)), [7u8; 16]);
    assert_eq!(transfer_id_from("07"), [0u8; 16]);
}

#[test]
fn files_are_offered_up_to_the_limit() {
    let offer = file_begin([2u8; 16], "plan.pdf", 2048).unwrap();
    assert_eq!(
        offer.frame,
        Frame::FileOffer { id: [2u8; 16], name: "plan.pdf".into(), size: 2048 }
    );
    assert_eq!(offer.id, "02".repeat(16));
    assert_eq!(offer.note, "📎 plan.pdf (2.0 KB)");
    assert!(file_begin([2u8; 16], "big", MAX_FILE_SIZE).is_ok());
    assert_eq!(file_begin([2u8; 16], "big", MAX_FILE_SIZE + 1).err(), Some(SendError::TooLarge));
    assert_eq!(saved_note("plan.pdf"), "📎 plan.pdf (saved to Downloads)");
}

#[test]
fn chunks_are_decoded_and_limited() {
    let id = "01".repeat(16);
    assert_eq!(
        file_chunk(&id, "00ff").unwrap(),
        Frame::FileChunk { id: [1u8; 16], data: vec![0, 255] }
    );
    assert_eq!(file_chunk("01", "00").err(), Some(SendError::BadTransferId));
    assert_eq!(file_chunk(&id, "0").err(), Some(SendError::Hex(HexError::OddLength)));
    assert!(file_chunk(&id, &"00".repeat(CHUNK_SIZE)).is_ok());
    assert_eq!(
        file_chunk(&id, &"00".repeat(CHUNK_SIZE + 1)).err(),
        Some(SendError::ChunkTooLarge)
    );
}

#[test]
fn hubs_are_dialled_again() {
    let p = after_event(HubEvent::Unreachable);
    assert_eq!((p.notice, p.hello, p.dial_again), (HubNotice::Error, false, Some(3)));
    let p = after_event(HubEvent::Unsealed);
    assert_eq!((p.notice, p.hello, p.dial_again), (HubNotice::Nothing, false, Some(3)));
    let p = after_event(HubEvent::Open);
    assert_eq!((p.notice, p.hello, p.dial_again), (HubNotice::Connected, true, None));
    let p = after_event(HubEvent::Lost);
    assert_eq!((p.notice, p.hello, p.dial_again), (HubNotice::Reconnecting, false, Some(2)));
    assert!(matches!(on_frame(None), HubInput::Lost));
    assert!(matches!(on_frame(Some(Frame::Text("x".into()))), HubInput::Other));
    assert!(matches!(on_frame(Some(Frame::Group(vec![5]))), HubInput::Message(b) if b == vec![5]));
}

#[test]
fn messages_of_a_hub_are_shown_once() {
    let msg = |seq| ServerMsg::Msg { seq, from: "d".into(), name: "D".into(), text: "t".into(), ts: 0 };
    let (room, other) = ("family".to_string(), "dm".to_string());
    let mut feed = HubFeed::new();
    assert!(feed.take_in(&room, &ServerMsg::Welcome));
    assert!(feed.take_in(&room, &msg(2)));
    assert!(!feed.take_in(&room, &msg(2)));
    assert!(!feed.take_in(&room, &msg(1)));
    assert!(feed.take_in(&other, &msg(1)));
    assert!(feed.take_in(&room, &msg(3)));
    assert!(feed.take_in(&room, &ServerMsg::Welcome));
    assert!(!feed.take_in(&other, &msg(0)));
}
