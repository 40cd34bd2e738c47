# famchat_core

A private chat for the people on a home network: two people, a group, or a
family with a hub that keeps messages for those who are away. This crate holds
the decisions of such a chat as executable Rust with contracts, proved by Verus.

## What is proved

Every function in `src/` states what it returns and changes, for every input it
accepts, and is proved to do so without overflow or panic. What relates several
functions is stated as a proof function whose name starts with `law_`: that a
frame sealed at one end is the frame that arrives at the other, that a forged
message changes nothing, that no file is written without consent, that a host
hands texts on byte for byte to everyone but their sender, that a message waits
on the hub for every other member who has not acknowledged it. Some of these
speak of a whole run: the two ends of a handshake that read what the other writes
get one hash and fitting sessions out of it, every message of a session, or of a
member of a group, opens in whatever order it arrives, and frames that go in at one
end of a channel come out at the other in their order. A message of a group opens
once and not again. That one of a two-party session does not open again rests on
the cipher: on its second arrival another key is tried on it, and the law takes it
that this key does not open it.

## What is taken on trust

The cryptographic primitives and a few functions of the standard library are
called as they are. Each call stands in a function marked
`#[verifier::external_body]`, whose comment says what is claimed of it. Results
that take a standard to describe (a ciphertext, a signature, a hash) have a name,
and contracts speak of that name.

## Layout

| | |
|---|---|
| `src/crypto.rs`, `src/hexa.rs`, `src/text.rs`, `src/bytes.rs`, `src/assoc.rs` | primitives, text, byte strings, maps |
| `src/ratchet.rs`, `src/ratchet_laws.rs`, `src/ratchet_run.rs` | the double ratchet of a two-party session |
| `src/cover.rs` | messages as a steady stream of cells |
| `src/wire.rs`, `src/session.rs`, `src/identity.rs` | handshakes, records, links, long-term keys |
| `src/channel.rs`, `src/channel_laws.rs` | the sealed channel made of all these |
| `src/group.rs`, `src/groupsession.rs`, `src/grouphost.rs` | sender keys, membership, the relay |
| `src/message.rs`, `src/transfers.rs` | frames, file names, incoming files |
| `src/hub.rs`, `src/hublink.rs` | the hub, and a member's side of it |
| `src/history.rs`, `src/contacts.rs`, `src/prefs.rs`, `src/desktop.rs` | the transcript, preferences, the desktop program's decisions |
| `tests/` | the library on concrete values, with the real crates behind it |
| `app/` | sockets, clocks, files and JSON: the hub program and the desktop program |
