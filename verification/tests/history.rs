use famchat_core::contacts::Contact;
use famchat_core::history::{Conversation, History, HistoryError, StoredMessage};
use famchat_core::{conversation_id, new_conversation_id};

fn line(from: &str, text: &str, ts: i64, incoming: bool) -> StoredMessage {
    StoredMessage { from: from.into(), text: text.into(), ts, incoming }
}

/// What is written out is what is there after reading it back in.
fn reopened(h: &History) -> History {
    let (conversations, contacts) = h.parts();
    History::from_parts(conversations, contacts)
}

/// Messages persist across reopen, and summaries reflect the latest message.
#[test]
fn persists_and_reopens() {
    let mut h = History::new();
    h.append("mom", "Mom", line("You", "hey", 100, false));
    h.append("mom", "Mom", line("Mom", "hi back", 101, true));
    let h2 = reopened(&h);
    let msgs = h2.messages("mom");
    assert_eq!(msgs.len(), 2);
    assert_eq!(msgs[0].text, "hey");
    assert_eq!(msgs[1].text, "hi back");
    assert!(msgs[1].incoming);
    let sums = h2.summaries();
    assert_eq!(sums.len(), 1);
    assert_eq!(sums[0].title, "Mom");
    assert_eq!(sums[0].last, "hi back");
}

/// Two different conversations that share a display name never merge.
#[test]
fn same_title_different_id_never_merge() {
    let mut h = History::new();
    h.append("id-a", "Kids", line("You", "first", 1, false));
    h.append("id-b", "Kids", line("You", "second", 2, false));
    assert_eq!(h.messages("id-a").len(), 1);
    assert_eq!(h.messages("id-b").len(), 1);
    assert_eq!(
        h.summaries().len(),
        2,
        "same title must not collapse to one"
    );
}

#[test]
fn conversation_ids_are_unique_and_opaque() {
    let a = new_conversation_id();
    let b = new_conversation_id();
    assert_ne!(a, b, "ids must not collide");
    assert_eq!(a.len(), 32, "128-bit id as 32 hex chars");
    assert!(a.chars().all(|c| c.is_ascii_hexdigit()));
    assert_eq!(conversation_id(&[0xAB; 16]), "ab".repeat(16));
}

#[test]
fn summaries_come_by_last_activity() {
    let mut h = History::new();
    h.append("old", "Old", line("You", "a", 5, false));
    h.append("new", "New", line("You", "b", 9, false));
    h.append("mid", "Mid", line("You", "c", 7, false));
    h.append("old", "Renamed", line("You", "d", 6, false));
    let ids: Vec<String> = h.summaries().into_iter().map(|s| s.id).collect();
    assert_eq!(ids, vec!["new", "mid", "old"]);
    let old = h.summaries().pop().unwrap();
    assert_eq!((old.count, old.last_ts, old.last.as_str()), (2, 6, "d"));
}

#[test]
fn conversations_can_be_forgotten() {
    let mut h = History::new();
    h.append("a", "A", line("You", "x", 1, false));
    h.forget("a");
    h.forget("never there");
    assert!(h.messages("a").is_empty());
    assert!(h.summaries().is_empty());
    assert!(h.conversation("a").is_none());
    h.restore_conversation("e".into(), Conversation::default());
    assert_eq!(h.summaries()[0].last, "");
}

#[test]
fn contacts_are_kept_by_name() {
    let mut h = History::new();
    assert_eq!(h.add_contact("laptop", "laptop.local"), Ok(()));
    assert_eq!(h.add_contact("attic", "10.0.0.7:9000"), Ok(()));
    assert_eq!(h.add_contact("  ", "x"), Err(HistoryError::EmptyName));
    assert!(!HistoryError::EmptyName.to_string().is_empty());
    let names: Vec<String> = h.contacts().into_iter().map(|c| c.0).collect();
    assert_eq!(names, vec!["attic", "laptop"]);
    assert_eq!(
        h.get_contact("laptop"),
        Some(Contact { address: "laptop.local".into(), fingerprint: None })
    );
    assert!(h.remove_contact("laptop"));
    assert!(!h.remove_contact("laptop"));
    assert_eq!(h.get_contact("laptop"), None);
    assert_eq!(reopened(&h).contacts(), h.contacts());
}

/// The list does not depend on the order in which conversations came in.
#[test]
fn lists_are_determined_by_their_conversations() {
    let lines = [("b", 3), ("a", 3), ("c", 9)];
    let mut forth = History::new();
    let mut back = History::new();
    for (id, ts) in lines {
        forth.append(id, id, line("You", "x", ts, false));
    }
    for (id, ts) in lines.iter().rev() {
        back.append(id, id, line("You", "x", *ts, false));
    }
    assert_eq!(forth.summaries(), back.summaries());
    let ids: Vec<String> = forth.summaries().into_iter().map(|s| s.id).collect();
    assert_eq!(ids, vec!["c", "a", "b"]);
}

/// A deleted conversation stays gone, and the others come back as they were.
#[test]
fn what_is_kept_comes_back() {
    let mut h = History::new();
    h.append("a", "Same", line("You", "one", 1, false));
    h.append("b", "Same", line("You", "two", 2, false));
    h.append("b", "Same", line("Bo", "three", 3, true));
    assert_eq!(h.add_contact("attic", "10.0.0.7:9000"), Ok(()));
    h.forget("a");
    let (conversations, contacts) = h.parts();
    assert_eq!(conversations.len(), 1);
    assert_eq!(contacts.len(), 1);
    let again = reopened(&h);
    assert!(again.messages("a").is_empty());
    assert_eq!(again.messages("b"), h.messages("b"));
    assert_eq!(again.conversation("b").unwrap().title, "Same");
    assert_eq!(again.get_contact("attic").unwrap().address, "10.0.0.7:9000");
}
