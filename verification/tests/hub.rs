use famchat_core::hub::{
    entry_to_msg, on_close, on_message, usable_word, Client, ClientMsg, Config, Hub, LogEntry, Reaction, ServerMsg,
    DEFAULT_BIND, MAX_LOG,
};

fn hello(id: &str, name: &str) -> Option<ClientMsg> {
    Some(ClientMsg::Hello { id: id.into(), name: name.into() })
}

fn send(text: &str) -> Option<ClientMsg> {
    Some(ClientMsg::Send { text: text.into() })
}

fn texts(msgs: Vec<ServerMsg>) -> Vec<String> {
    msgs.into_iter()
        .map(|m| match m {
            ServerMsg::Msg { text, .. } => text,
            ServerMsg::Welcome => panic!("a backlog holds messages only"),
        })
        .collect()
}

/// The core mailbox guarantee: a member who was OFFLINE when a message was sent
/// receives it (from the backlog) the moment they connect.
#[test]
fn offline_member_gets_backlog_on_reconnect() {
    let mut hub = Hub::new();
    let mut alice = Client::New;
    assert!(matches!(on_message(&mut hub, &mut alice, hello("devA", "Alice"), 1), Reaction::Greet { cursor: 0 }));
    match on_message(&mut hub, &mut alice, send("dinner at 6"), 2) {
        Reaction::Deliver { targets, .. } => assert!(targets.is_empty()),
        _ => panic!("a message is delivered"),
    }
    let mut bob = Client::New;
    match on_message(&mut hub, &mut bob, hello("devB", "Bob"), 3) {
        Reaction::Greet { cursor } => assert_eq!(texts(hub.backlog(&"devB".to_string(), cursor)), vec!["dinner at 6"]),
        _ => panic!("a member is greeted"),
    }
    // Once acknowledged it does not come again.
    assert!(matches!(on_message(&mut hub, &mut bob, Some(ClientMsg::Ack { seq: 1 }), 4), Reaction::Keep));
    on_close(&mut hub, &bob);
    match on_message(&mut hub, &mut Client::New, hello("devB", "Bob"), 5) {
        Reaction::Greet { cursor } => assert!(hub.backlog(&"devB".to_string(), cursor).is_empty()),
        _ => panic!("a member is greeted"),
    }
}

/// A message sent while BOTH are online is delivered live to the other member
/// (and not echoed back to its sender).
#[test]
fn live_delivery_to_other_member() {
    let mut hub = Hub::new();
    let (mut alice, mut bob) = (Client::New, Client::New);
    on_message(&mut hub, &mut alice, hello("devA", "Alice"), 1);
    on_message(&mut hub, &mut bob, hello("devB", "Bob"), 1);
    match on_message(&mut hub, &mut bob, send("on my way"), 7) {
        Reaction::Deliver { msg, targets } => {
            assert_eq!(targets, vec!["devA".to_string()]);
            assert_eq!(
                msg,
                ServerMsg::Msg {
                    seq: 1,
                    from: "devB".into(),
                    name: "Bob".into(),
                    text: "on my way".into(),
                    ts: 7,
                }
            );
        }
        _ => panic!("a message is delivered"),
    }
    on_close(&mut hub, &alice);
    match on_message(&mut hub, &mut bob, send("still there?"), 8) {
        Reaction::Deliver { targets, .. } => assert!(targets.is_empty()),
        _ => panic!("a message is delivered"),
    }
}

#[test]
fn strangers_and_noise_are_ignored() {
    let mut hub = Hub::new();
    let mut client = Client::New;
    assert!(matches!(on_message(&mut hub, &mut client, send("hi"), 1), Reaction::Ignore));
    assert!(matches!(on_message(&mut hub, &mut client, None, 1), Reaction::Ignore));
    assert!(matches!(on_message(&mut hub, &mut client, Some(ClientMsg::Ack { seq: 3 }), 1), Reaction::Ignore));
    assert!(hub.log().is_empty());
}

#[test]
fn acks_never_go_back() {
    let mut hub = Hub::new();
    let id = "dev".to_string();
    hub.hello(&id, &"Dev".to_string());
    hub.ack(&id, 5);
    hub.ack(&id, 3);
    assert_eq!(hub.cursors(), vec![("dev".to_string(), 5)]);
}

#[test]
fn a_full_log_loses_its_oldest_entry() {
    let mut hub = Hub::new();
    let (id, name) = ("a".to_string(), "A".to_string());
    for i in 0..MAX_LOG + 2 {
        hub.post(&id, &name, format!("{i}"), 0);
    }
    assert_eq!(hub.log().len(), MAX_LOG);
    assert_eq!(hub.log()[0].text, "2");
    assert_eq!(hub.log()[0].seq, 3);
    assert_eq!(hub.next_seq() as usize, MAX_LOG + 2);
}

#[test]
fn a_hub_is_restored() {
    let mut hub = Hub::new();
    let entry = LogEntry { seq: 4, from: "a".into(), name: "A".into(), text: "t".into(), ts: 9 };
    hub.restore_log(4, vec![entry]);
    hub.restore_cursor("b".into(), 3);
    hub.restore_name("b".into(), "B".into());
    assert_eq!(hub.next_seq(), 4);
    assert_eq!(hub.names(), vec![("b".to_string(), "B".to_string())]);
    assert_eq!(hub.hello(&"b".to_string(), &"Bee".to_string()), 3);
    assert_eq!(texts(hub.backlog(&"b".to_string(), 3)), vec!["t"]);
    assert_eq!(hub.names(), vec![("b".to_string(), "Bee".to_string())]);
    let (msg, _) = hub.post(&"b".to_string(), &"Bee".to_string(), "next".into(), 1);
    assert!(matches!(msg, ServerMsg::Msg { seq: 5, .. }));
    assert_eq!(
        entry_to_msg(&hub.log()[0]),
        ServerMsg::Msg { seq: 4, from: "a".into(), name: "A".into(), text: "t".into(), ts: 9 }
    );
}

#[test]
fn arguments_override_the_environment() {
    let args: Vec<String> = ["--word", "acorn", "--bind", "1.2.3.4:5", "--data"].iter().map(|s| s.to_string()).collect();
    let c = Config::from_env_and_args(Some("oak".into()), None, Some("d.json".into()), &args);
    assert_eq!(c.word, Some("acorn".to_string()));
    assert_eq!(c.bind, "1.2.3.4:5");
    assert_eq!(c.data, None);
    let bare = Config::from_env_and_args(Some("oak".into()), None, None, &vec![]);
    assert_eq!(bare.word, Some("oak".to_string()));
    assert_eq!(bare.bind, DEFAULT_BIND);
    assert_eq!(usable_word(None), None);
    assert_eq!(usable_word(Some("  ".into())), None);
    assert_eq!(usable_word(Some("acorn".into())), Some("acorn".to_string()));
}

/// Everything that was sent while a member was away waits in its order, and the
/// numbers rise.
#[test]
fn everything_sent_meanwhile_waits_in_order() {
    let mut hub = Hub::new();
    let (id, name) = ("a".to_string(), "A".to_string());
    hub.post(&id, &name, "before".into(), 0);
    hub.ack(&"b".to_string(), 1);
    for text in ["one", "two", "three"] {
        hub.post(&id, &name, text.into(), 0);
    }
    let b = "b".to_string();
    let cursor = hub.hello(&b, &"B".to_string());
    assert_eq!(texts(hub.backlog(&b, cursor)), vec!["one", "two", "three"]);
    assert_eq!(texts(hub.backlog(&b, 0)), vec!["before", "one", "two", "three"]);
    let seqs: Vec<u64> = hub.log().iter().map(|e| e.seq).collect();
    assert_eq!(seqs, vec![1, 2, 3, 4]);
    // The sender has its own.
    let cursor = hub.hello(&id, &name);
    assert!(hub.backlog(&id, cursor).is_empty());
}

/// Sending acknowledges nothing: what a member has not acknowledged comes again,
/// whatever it sent meanwhile.
#[test]
fn sending_acknowledges_nothing() {
    let mut hub = Hub::new();
    let (a, b) = ("devA".to_string(), "devB".to_string());
    hub.post(&a, &"A".to_string(), "first".into(), 0);
    hub.post(&b, &"B".to_string(), "second".into(), 0);
    let cursor = hub.hello(&b, &"B".to_string());
    assert_eq!(cursor, 0);
    assert_eq!(texts(hub.backlog(&b, cursor)), vec!["first"]);
    hub.ack(&b, 1);
    let cursor = hub.hello(&b, &"B".to_string());
    assert!(hub.backlog(&b, cursor).is_empty());
    let cursor = hub.hello(&a, &"A".to_string());
    assert_eq!(texts(hub.backlog(&a, cursor)), vec!["second"]);
}

/// Who has not said who it is can send what it likes, also to a hub whose
/// numbers are used up.
#[test]
fn strangers_take_no_number() {
    let mut hub = Hub::new();
    hub.restore_log(u64::MAX, vec![]);
    assert!(matches!(on_message(&mut hub, &mut Client::New, send("hi"), 1), Reaction::Ignore));
    assert_eq!(hub.next_seq(), u64::MAX);
}

/// A member that comes is welcomed first, and then gets what it missed.
#[test]
fn a_greeting_is_a_welcome_and_what_was_missed() {
    let mut hub = Hub::new();
    let mut alice = Client::New;
    on_message(&mut hub, &mut alice, hello("a", "Alice"), 1);
    on_message(&mut hub, &mut alice, send("one"), 2);
    on_message(&mut hub, &mut alice, send("two"), 3);
    let greeting = hub.greeting(&"b".to_string(), 1);
    assert_eq!(greeting.len(), 2);
    assert_eq!(greeting[0], ServerMsg::Welcome);
    assert_eq!(texts(greeting[1..].to_vec()), vec!["two"]);
    assert_eq!(hub.greeting(&"a".to_string(), 0), vec![ServerMsg::Welcome]);
}
