//! Private messaging for a family on its home network: what two people, a group
//! or a hub and its members say to each other, and how it is sealed.
//!
//! A message goes through the double ratchet (`ratchet`), is cut into cells of
//! one size (`cover`), and each cell becomes one record (`wire`); `channel` puts
//! the three together. Groups have sender keys (`group`, `groupsession`) and a
//! host that relays without reading (`grouphost`); a hub keeps messages for
//! members who are away (`hub`, `hublink`). What is decided about files is in
//! `message` and `transfers`, and the rest of the desktop program's decisions in
//! `desktop`. Sockets, clocks and files belong to whoever uses the library.
use vstd::prelude::*;

pub mod assoc;
pub mod bytes;
pub mod channel;
pub mod channel_laws;
pub mod contacts;
pub mod cover;
pub mod crypto;
pub mod desktop;
pub mod group;
pub mod grouphost;
pub mod groupsession;
pub mod hexa;
pub mod history;
pub mod hub;
pub mod hublink;
pub mod identity;
pub mod message;
pub mod prefs;
pub mod ratchet;
pub mod ratchet_laws;
pub mod ratchet_run;
pub mod session;
pub mod text;
pub mod transfers;
pub mod wire;

pub use cover::{CoverConfig, CELL_SIZE};
pub use group::{GroupError, ReceiverState, SenderKeyDistribution, SenderKeyState};
pub use groupsession::{GroupMember, GroupMsg, MemberId};
pub use history::{Conversation, ConversationSummary, History, StoredMessage};
pub use hub::{ClientMsg, ServerMsg};
pub use identity::{fingerprint, Identity};
pub use message::{
    human_size, FileGate, Frame, Incoming, CHUNK_SIZE, MAX_CONCURRENT_FILES, MAX_FILE_SIZE,
};
pub use prefs::Prefs;
pub use ratchet::{DoubleRatchet, RatchetError, HEADER_LEN, MAX_SKIP};
pub use session::{Auth, Link, SessionInfo};

verus! {

/// A fresh id, of 128 random bits in hexadecimal. Conversations are found by
/// such an id, never by the name they are shown under.
pub fn new_conversation_id() -> (r: String)
    ensures
        exists|b: Seq<u8>| b.len() == 16 && r@ == #[trigger] hexa::hex_text(b),
        r@.len() == 32,
{
    let b = crypto::random_bytes::<16>();
    conversation_id(&b)
}

/// The id of 128 bits.
pub fn conversation_id(bits: &[u8; 16]) -> (r: String)
    ensures
        r@ == hexa::hex_text(bits@),
        r@.len() == 32,
{
    proof {
        hexa::lemma_hex_len(bits@);
    }
    hexa::encode(bits.as_slice())
}

} // verus!
