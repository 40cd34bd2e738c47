//! The decisions of the desktop program: where to dial and to listen, which
//! conversation is written to, which way a message goes out, and how a file is
//! sent.
use vstd::prelude::*;
use vstd::string::*;
use vstd::utf8::*;

use crate::bytes;
use crate::hexa;
use crate::hexa::HexError;
use crate::message;
use crate::message::{human_size, Frame, FrameModel, CHUNK_SIZE, MAX_FILE_SIZE};
use crate::new_conversation_id;
use crate::text;

verus! {

/// Where a room is served unless something else is asked for.
pub const DEFAULT_LISTEN: &'static str = "0.0.0.0:9000";

// ---------------------------------------------------------------------------
// Addresses
// ---------------------------------------------------------------------------

/// An address with its port, which is 9000 unless it names one.
pub open spec fn target_of(address: Seq<char>) -> Seq<char> {
    if address.contains(':') {
        address
    } else {
        address + ":9000"@
    }
}

/// Where to listen when `bind` is asked for.
pub open spec fn listens_at(bind: Seq<char>) -> Seq<char> {
    if text::trimmed(bind).len() == 0 {
        DEFAULT_LISTEN@
    } else {
        bind
    }
}

/// Where what is served at an address is reached on the same machine.
pub open spec fn loopback_of(address: Seq<char>) -> Seq<char> {
    if address.contains(':') {
        "127.0.0.1:"@ + port_of(address)
    } else {
        address
    }
}

/// What is handed out for an address on a machine that is known as `ip`.
pub open spec fn shared_as(address: Seq<char>, ip: Seq<char>) -> Seq<char> {
    ip + ":"@ + port_of(address)
}

/// An address with its port, which is 9000 unless it names one.
pub fn normalize_target(address: &str) -> (r: String)
    ensures
        r@ == (if address@.contains(':') {
            address@
        } else {
            address@ + ":9000"@
        }),
        r@ == target_of(address@),
{
    proof {
        text::lemma_last_of(address@, ':');
    }
    let mut out = address.to_owned();
    match text::find_last(address, ':') {
        Some(_) => {},
        None => {
            out.append(":9000");
        },
    }
    out
}

/// Where to listen: on every interface unless something else is asked for.
pub fn listen_address(bind: &str) -> (r: String)
    ensures
        r@ == (if text::trimmed(bind@).len() == 0 {
            DEFAULT_LISTEN@
        } else {
            bind@
        }),
        r@ == listens_at(bind@),
{
    if text::trim(bind).as_str().is_empty() {
        DEFAULT_LISTEN.to_owned()
    } else {
        bind.to_owned()
    }
}

/// What stands behind the last colon of an address; all of it, where there is
/// none.
pub open spec fn port_of(address: Seq<char>) -> Seq<char> {
    address.skip(text::last_of(address, ':') + 1)
}

/// What stands behind the last colon of an address.
fn port(address: &str) -> (r: String)
    ensures
        r@ == port_of(address@),
{
    proof {
        text::lemma_last_of(address@, ':');
    }
    let n: usize = address.unicode_len();
    let from: usize = match text::find_last(address, ':') {
        Some(i) => i + 1,
        None => 0,
    };
    let r = address.substring_char(from, n).to_owned();
    assert(r@ =~= port_of(address@));
    r
}

/// The address under which this machine reaches what it serves at `bind_addr`.
pub fn self_loopback(bind_addr: &str) -> (r: String)
    ensures
        r@ == (if bind_addr@.contains(':') {
            "127.0.0.1:"@ + port_of(bind_addr@)
        } else {
            bind_addr@
        }),
        r@ == loopback_of(bind_addr@),
{
    proof {
        text::lemma_last_of(bind_addr@, ':');
    }
    match text::find_last(bind_addr, ':') {
        Some(_) => {
            let mut out = "127.0.0.1:".to_owned();
            out.append(port(bind_addr).as_str());
            out
        },
        None => bind_addr.to_owned(),
    }
}

/// The address to hand out for what is served at `raw`: that of this machine on
/// the network, where it has one, with the port of `raw`.
pub fn shareable_tcp_addr(raw: &str, lan_ip: Option<&str>) -> (r: String)
    ensures
        r@ == match lan_ip {
            Some(ip) => ip@ + ":"@ + port_of(raw@),
            None => raw@,
        },
        lan_ip matches Some(ip) ==> r@ == shared_as(raw@, ip@),
{
    match lan_ip {
        Some(ip) => {
            let mut out = ip.to_owned();
            out.append(":");
            out.append(port(raw).as_str());
            out
        },
        None => raw.to_owned(),
    }
}

/// Whether an address may be handed to the browser.
pub fn may_open(url: &str) -> (r: bool)
    ensures
        r == ("https://"@.is_prefix_of(url@) || "http://"@.is_prefix_of(url@)),
{
    text::starts_with(url, "https://") || text::starts_with(url, "http://")
}

// ---------------------------------------------------------------------------
// The active conversation
// ---------------------------------------------------------------------------

/// The conversation that is written to.
#[derive(Debug, PartialEq)]
pub struct Active {
    pub id: String,
    pub title: String,
}

/// The title of a conversation: its name, or the address where it has none.
pub open spec fn title_of(name: Seq<char>, fallback: Seq<char>) -> Seq<char> {
    if text::trimmed(name).len() == 0 {
        fallback
    } else {
        text::trimmed(name)
    }
}

/// The conversation of a name, or of an address where there is no name. Its id
/// is its title in lower case, so that a room that is joined again goes on with
/// its transcript.
pub fn active_for(name: &str, fallback: &str) -> (r: Active)
    ensures
        r.title@ == title_of(name@, fallback@),
        r.id@ == text::lowercase(title_of(name@, fallback@)),
{
    let trimmed = text::trim(name);
    let title = if trimmed.as_str().is_empty() {
        fallback.to_owned()
    } else {
        trimmed
    };
    let id = text::to_lowercase(title.as_str());
    Active { id, title }
}

/// Whom the lines of a two-party chat come from.
pub fn peer_label(active: &Option<Active>) -> (r: String)
    ensures
        r@ == match active {
            Some(a) => a.title@,
            None => "Someone"@,
        },
{
    match active {
        Some(a) => a.title.clone(),
        None => "Someone".to_owned(),
    }
}

/// Whom the lines of a group come from.
pub fn room_label(active: &Option<Active>) -> (r: String)
    ensures
        r@ == match active {
            Some(a) => a.title@,
            None => "Family"@,
        },
{
    match active {
        Some(a) => a.title.clone(),
        None => "Family".to_owned(),
    }
}

/// The bytes of a group message as a line of text.
pub fn group_line(b: &[u8]) -> (r: String)
    ensures
        r@ == text::text_of(b@),
{
    text::text_from_bytes(b)
}

// ---------------------------------------------------------------------------
// Which way a message goes out
// ---------------------------------------------------------------------------

/// What a line is sent over.
#[derive(Debug, Clone, Copy, PartialEq, Eq, Structural)]
pub enum Route {
    Group,
    Pair,
}

/// What a line is sent over.
pub open spec fn line_route(in_group: bool, connected: bool) -> Option<Route> {
    if in_group {
        Some(Route::Group)
    } else if connected {
        Some(Route::Pair)
    } else {
        None
    }
}

/// Whether a file can be sent, or why not.
pub open spec fn file_route(in_group: bool, connected: bool) -> Result<(), SendError> {
    match line_route(in_group, connected) {
        Some(Route::Pair) => Ok(()),
        Some(Route::Group) => Err(SendError::InGroup),
        None => Err(SendError::NotConnected),
    }
}

/// What a line is sent over: the group where there is one, or the channel to the
/// peer. Without either it is not sent.
pub fn route_line(in_group: bool, connected: bool) -> (r: Option<Route>)
    ensures
        r == (if in_group {
            Some(Route::Group)
        } else if connected {
            Some(Route::Pair)
        } else {
            None::<Route>
        }),
        r == line_route(in_group, connected),
{
    if in_group {
        Some(Route::Group)
    } else if connected {
        Some(Route::Pair)
    } else {
        None
    }
}

/// Why a file is not sent.
#[derive(Debug, Clone, Copy, PartialEq, Eq, Structural)]
pub enum SendError {
    /// There are no files in groups.
    InGroup,
    NotConnected,
    /// The file has more than `MAX_FILE_SIZE`.
    TooLarge,
    /// A piece has more than `CHUNK_SIZE`.
    ChunkTooLarge,
    /// The id of the transfer is of the wrong length.
    BadTransferId,
    /// What should be hexadecimal is not.
    Hex(HexError),
}

/// Whether the frames of a file can be sent: only to a peer, not to a group.
pub fn route_file(in_group: bool, connected: bool) -> (r: Result<(), SendError>)
    ensures
        r == (if in_group {
            Err(SendError::InGroup)
        } else if !connected {
            Err(SendError::NotConnected)
        } else {
            Ok::<(), SendError>(())
        }),
        r == file_route(in_group, connected),
{
    if in_group {
        Err(SendError::InGroup)
    } else if !connected {
        Err(SendError::NotConnected)
    } else {
        Ok(())
    }
}

// ---------------------------------------------------------------------------
// Sending files
// ---------------------------------------------------------------------------

/// The id of a transfer, from its text.
pub open spec fn transfer_id(t: Seq<char>) -> Result<Seq<u8>, SendError> {
    match hexa::unhex(encode_utf8(t)) {
        Err(e) => Err(SendError::Hex(e)),
        Ok(b) => if b.len() == 16 {
            Ok(b)
        } else {
            Err(SendError::BadTransferId)
        },
    }
}

/// The id of a transfer, read from hexadecimal digits.
pub fn parse_transfer_id(s: &str) -> (r: Result<[u8; 16], SendError>)
    ensures
        match (r, transfer_id(s@)) {
            (Ok(id), Ok(b)) => id@ == b,
            (Err(e), Err(why)) => e == why,
            _ => false,
        },
{
    match hexa::decode(s) {
        Err(e) => Err(SendError::Hex(e)),
        Ok(b) => {
            if b.len() != 16 {
                return Err(SendError::BadTransferId);
            }
            let id = bytes::take::<16>(b.as_slice(), 0);
            assert(id@ =~= b@);
            Ok(id)
        },
    }
}

/// The id of a transfer, from the text of a conversation's id; all zeros where
/// that has no such id in it.
pub fn transfer_id_from(text: &str) -> (r: [u8; 16])
    ensures
        r@ == match transfer_id(text@) {
            Ok(b) => b,
            Err(_) => bytes::zeros(16),
        },
{
    match parse_transfer_id(text) {
        Ok(id) => id,
        Err(_) => {
            let none = [0u8; 16];
            assert(none@ =~= bytes::zeros(16));
            none
        },
    }
}

/// The id of a new transfer: the 128 random bits of a conversation's id.
pub fn new_transfer_id() -> (r: [u8; 16])
    ensures
        exists|t: Seq<char>| #[trigger] transfer_id(t) == Ok::<Seq<u8>, SendError>(r@),
{
    let text = new_conversation_id();
    proof {
        let b = choose|b: Seq<u8>| b.len() == 16 && text@ == #[trigger] hexa::hex_text(b);
        hexa::law_hex_round_trip(b);
        assert(transfer_id(text@) == Ok::<Seq<u8>, SendError>(b));
    }
    transfer_id_from(text.as_str())
}

/// An offer that goes out.
pub struct Offer {
    /// What the peer gets.
    pub frame: Frame,
    /// The id of the transfer in hexadecimal.
    pub id: String,
    /// The line for the transcript.
    pub note: String,
}

/// The line about a file that was offered.
pub open spec fn offer_note(name: Seq<char>, size: u64) -> Seq<char> {
    "📎 "@ + name + " ("@ + message::size_text(size) + ")"@
}

/// What the peer is offered, and the id of the transfer as it is shown. There is nothing
/// where the file is too large.
pub open spec fn offer_of(id: Seq<u8>, name: Seq<char>, size: u64) -> Option<(FrameModel, Seq<char>)> {
    if size <= MAX_FILE_SIZE {
        Some((FrameModel::FileOffer { id, name, size }, hexa::hex_text(id)))
    } else {
        None
    }
}

/// Offers a file under the id of its transfer. One that is too large is not
/// offered.
pub fn file_begin(id: [u8; 16], name: &str, size: u64) -> (r: Result<Offer, SendError>)
    ensures
        match r {
            Ok(offer) => {
                &&& size <= MAX_FILE_SIZE
                &&& offer.frame@ == (FrameModel::FileOffer { id: id@, name: name@, size })
                &&& offer.id@ == hexa::hex_text(id@)
                &&& offer.note@ == offer_note(name@, size)
            },
            Err(e) => size > MAX_FILE_SIZE && e == SendError::TooLarge,
        },
        match (r, offer_of(id@, name@, size)) {
            (Ok(offer), Some((frame, shown))) => offer.frame@ == frame && offer.id@ == shown,
            (Err(_), None) => true,
            _ => false,
        },
{
    if size > MAX_FILE_SIZE {
        return Err(SendError::TooLarge);
    }
    let mut note = "📎 ".to_owned();
    note.append(name);
    note.append(" (");
    note.append(human_size(size).as_str());
    note.append(")");
    Ok(Offer { frame: Frame::FileOffer { id, name: name.to_owned(), size }, id: hexa::encode(id.as_slice()), note })
}

/// The line about a file that was received.
pub fn saved_note(name: &str) -> (r: String)
    ensures
        r@ == "📎 "@ + name@ + " (saved to Downloads)"@,
{
    let mut note = "📎 ".to_owned();
    note.append(name);
    note.append(" (saved to Downloads)");
    note
}

/// A piece of a file as a frame, from the id of its transfer and its bytes, both
/// in hexadecimal.
pub open spec fn chunk_frame(id: Seq<char>, data_hex: Seq<char>) -> Result<FrameModel, SendError> {
    match transfer_id(id) {
        Err(e) => Err(e),
        Ok(id) => match hexa::unhex(encode_utf8(data_hex)) {
            Err(e) => Err(SendError::Hex(e)),
            Ok(data) => if data.len() > CHUNK_SIZE {
                Err(SendError::ChunkTooLarge)
            } else {
                Ok(FrameModel::FileChunk { id, data })
            },
        },
    }
}

/// A piece of a file as a frame.
pub fn file_chunk(id: &str, data_hex: &str) -> (r: Result<Frame, SendError>)
    ensures
        match (r, chunk_frame(id@, data_hex@)) {
            (Ok(f), Ok(m)) => f@ == m,
            (Err(e), Err(why)) => e == why,
            _ => false,
        },
{
    let id = match parse_transfer_id(id) {
        Ok(id) => id,
        Err(e) => {
            return Err(e);
        },
    };
    match hexa::decode(data_hex) {
        Err(e) => Err(SendError::Hex(e)),
        Ok(data) => if data.len() > CHUNK_SIZE {
            Err(SendError::ChunkTooLarge)
        } else {
            Ok(Frame::FileChunk { id, data })
        },
    }
}

// ---------------------------------------------------------------------------
// Laws
// ---------------------------------------------------------------------------

/// The id of a transfer is read back from the text that it is shown as.
pub proof fn law_transfer_ids_round_trip(id: Seq<u8>)
    requires
        id.len() == 16,
    ensures
        transfer_id(hexa::hex_text(id)) == Ok::<Seq<u8>, SendError>(id),
{
    hexa::law_hex_round_trip(id);
}

/// Whoever joins a room of the same name goes on with the same transcript,
/// wherever the room is served. Neither white space around the name nor, in
/// ASCII, the case of its letters makes a difference.
pub proof fn law_same_name_same_transcript(a: Seq<char>, b: Seq<char>, here: Seq<char>, there: Seq<char>)
    requires
        text::trimmed(a).len() > 0,
        text::trimmed(a).len() == text::trimmed(b).len(),
        text::trimmed(a) == text::trimmed(b) || is_ascii_chars(text::trimmed(a)) && is_ascii_chars(text::trimmed(b))
            && forall|i: int|
            0 <= i < text::trimmed(a).len() ==> #[trigger] text::ascii_lower(text::trimmed(a)[i])
                == text::ascii_lower(text::trimmed(b)[i]),
    ensures
        text::lowercase(title_of(a, here)) == text::lowercase(title_of(b, there)),
{
    let x = text::trimmed(a);
    let y = text::trimmed(b);
    if x != y {
        let f = |c: char| text::ascii_lower(c);
        assert forall|i: int| 0 <= i < x.len() implies x.map_values(f)[i] == y.map_values(f)[i] by {
            assert(text::ascii_lower(x[i]) == text::ascii_lower(y[i]));
        }
        assert(x.map_values(f) =~= y.map_values(f));
    }
}

/// The port of an address is what stands behind its last colon: the address is what
/// stands in front, that colon and the port, which holds no colon itself. An address
/// without a colon is all port.
pub proof fn law_ports_stand_behind_the_last_colon(host: Seq<char>, port: Seq<char>)
    requires
        !port.contains(':'),
    ensures
        port_of(host + seq![':'] + port) == port,
        port_of(port) == port,
{
    let address = host + seq![':'] + port;
    text::lemma_last_of(address, ':');
    text::lemma_last_of(port, ':');
    let at = text::last_of(address, ':');
    assert(address[host.len() as int] == ':');
    assert forall|i: int| host.len() < i < address.len() implies address[i] != ':' by {
        assert(address[i] == port[i - host.len() - 1]);
        assert(port.contains(port[i - host.len() - 1]));
    }
    assert(at == host.len());
    assert(port_of(address) =~= port);
    if text::last_of(port, ':') >= 0 {
        assert(port.contains(port[text::last_of(port, ':')]));
    }
    assert(port_of(port) =~= port);
}

/// A conversation is called by its name, without the white space around it, wherever it
/// is served, and by its address where it has no name.
pub proof fn law_titles_are_names(name: Seq<char>, address: Seq<char>, other: Seq<char>)
    ensures
        (forall|i: int| 0 <= i < name.len() ==> text::is_white_space(#[trigger] name[i])) ==> title_of(name, address)
            == address,
        (exists|i: int| 0 <= i < name.len() && !text::is_white_space(#[trigger] name[i])) ==> {
            &&& title_of(name, address) == title_of(name, other)
            &&& exists|a: int, b: int|
                0 <= a < b <= name.len() && title_of(name, address) == #[trigger] name.subrange(a, b)
                    && !text::is_white_space(name[a]) && !text::is_white_space(name[b - 1])
        },
{
    let (a, b) = text::law_trimming_takes_the_white_space_around(name);
    if text::trimmed(name).len() > 0 {
        assert(title_of(name, address) == name.subrange(a, b));
    }
}

/// A piece of a file is sent as it is: from the digits of its transfer's id and of its
/// bytes comes the frame with that id and those bytes, up to 32 KiB of them. A longer
/// piece is refused, and so is an id that is not of sixteen bytes.
pub proof fn law_pieces_are_sent_as_they_are(id: Seq<u8>, data: Seq<u8>)
    ensures
        id.len() == 16 && data.len() <= 32768 ==> chunk_frame(hexa::hex_text(id), hexa::hex_text(data)) == Ok::<
            FrameModel,
            SendError,
        >(FrameModel::FileChunk { id, data }),
        id.len() == 16 && data.len() > 32768 ==> chunk_frame(hexa::hex_text(id), hexa::hex_text(data)) == Err::<
            FrameModel,
            SendError,
        >(SendError::ChunkTooLarge),
        id.len() != 16 ==> transfer_id(hexa::hex_text(id)) == Err::<Seq<u8>, SendError>(SendError::BadTransferId),
        id.len() != 16 ==> chunk_frame(hexa::hex_text(id), hexa::hex_text(data)) == Err::<FrameModel, SendError>(
            SendError::BadTransferId,
        ),
{
    hexa::law_hex_round_trip(id);
    hexa::law_hex_round_trip(data);
}

/// The line about an offered file names it and tells its size.
pub proof fn law_notes_tell_name_and_size(name: Seq<char>, size: u64)
    ensures
        ({
            let note = offer_note(name, size);
            let n = name.len() as int;
            let s = message::size_text(size);
            &&& note.subrange(2, 2 + n) == name
            &&& note.subrange(4 + n, 4 + n + s.len()) == s
            &&& note.len() == 5 + n + s.len()
        }),
{
    reveal_strlit("📎 ");
    reveal_strlit(" (");
    reveal_strlit(")");
    let note = offer_note(name, size);
    let n = name.len() as int;
    let s = message::size_text(size);
    assert(note.subrange(2, 2 + n) =~= name);
    assert(note.subrange(4 + n, 4 + n + s.len()) =~= s);
}

/// The port of a text that ends in a colon and a port without one is that port, and such
/// a text has a colon.
proof fn lemma_port_behind(front: Seq<char>, port: Seq<char>)
    requires
        front.len() > 0,
        front.last() == ':',
        !port.contains(':'),
    ensures
        port_of(front + port) == port,
        (front + port).contains(':'),
{
    law_ports_stand_behind_the_last_colon(front.drop_last(), port);
    assert(front.drop_last() + seq![':'] + port =~= front + port);
    assert((front + port)[front.len() - 1] == ':');
}

/// A port holds no colon.
proof fn lemma_port_is_plain(address: Seq<char>)
    ensures
        !port_of(address).contains(':'),
{
    text::lemma_last_of(address, ':');
    let port = port_of(address);
    let from = text::last_of(address, ':') + 1;
    if port.contains(':') {
        let i = choose|i: int| 0 <= i < port.len() && port[i] == ':';
        assert(address[from + i] == ':');
    }
}

/// What is dialled has a port: the one that it names, or 9000. What names one is dialled
/// as it is.
pub proof fn law_dialled_addresses_have_a_port(address: Seq<char>)
    ensures
        target_of(address).contains(':'),
        address.contains(':') ==> target_of(address) == address,
        !address.contains(':') ==> {
            &&& port_of(target_of(address)) == "9000"@
            &&& target_of(address).take(address.len() as int) == address
            &&& target_of(address).len() == address.len() + 5
        },
        target_of(target_of(address)) == target_of(address),
{
    reveal_strlit(":9000");
    reveal_strlit("9000");
    if !address.contains(':') {
        let front = address.push(':');
        lemma_port_behind(front, "9000"@);
        assert(front + "9000"@ =~= target_of(address));
        assert(target_of(address).take(address.len() as int) =~= address);
    }
}

/// What is handed out or dialled for a room keeps the port that it is served at, behind
/// the address that is known to whoever dials: that of the machine, or the machine's own.
pub proof fn law_rooms_keep_their_port(address: Seq<char>, ip: Seq<char>)
    ensures
        port_of(shared_as(address, ip)) == port_of(address),
        shared_as(address, ip).take(ip.len() as int) == ip,
        shared_as(address, ip).contains(':'),
        address.contains(':') ==> {
            &&& port_of(loopback_of(address)) == port_of(address)
            &&& loopback_of(address) == shared_as(address, "127.0.0.1"@)
        },
        !address.contains(':') ==> loopback_of(address) == address,
{
    reveal_strlit(":");
    reveal_strlit("127.0.0.1:");
    reveal_strlit("127.0.0.1");
    lemma_port_is_plain(address);
    lemma_port_behind(ip.push(':'), port_of(address));
    assert(ip.push(':') + port_of(address) =~= shared_as(address, ip));
    assert(shared_as(address, ip).take(ip.len() as int) =~= ip);
    lemma_port_behind("127.0.0.1:"@, port_of(address));
    assert("127.0.0.1:"@ + port_of(address) =~= shared_as(address, "127.0.0.1"@));
}

/// A line goes out wherever there is someone to hear it, in a group always to the group;
/// a file goes out only where a line goes to a single peer.
pub proof fn law_files_go_where_lines_go_to_one(in_group: bool, connected: bool)
    ensures
        line_route(in_group, connected) is None <==> !in_group && !connected,
        in_group ==> line_route(in_group, connected) == Some(Route::Group),
        file_route(in_group, connected) is Ok <==> line_route(in_group, connected) == Some(Route::Pair),
        in_group ==> file_route(in_group, connected) == Err::<(), SendError>(SendError::InGroup),
        file_route(in_group, connected) == Err::<(), SendError>(SendError::NotConnected) <==> !in_group && !connected,
{
}

/// Where something is asked for, that is where we listen; asked for nothing but white
/// space we listen on every interface, at the port that is dialled where none is named.
pub proof fn law_we_listen_where_asked(bind: Seq<char>)
    ensures
        (exists|i: int| 0 <= i < bind.len() && !text::is_white_space(#[trigger] bind[i])) ==> listens_at(bind) == bind,
        (forall|i: int| 0 <= i < bind.len() ==> text::is_white_space(#[trigger] bind[i])) ==> {
            &&& listens_at(bind) == target_of("0.0.0.0"@)
        },
{
    let (a, b) = text::law_trimming_takes_the_white_space_around(bind);
    reveal_strlit("0.0.0.0:9000");
    reveal_strlit("0.0.0.0");
    reveal_strlit(":9000");
    assert(!"0.0.0.0"@.contains(':'));
    assert("0.0.0.0"@ + ":9000"@ =~= "0.0.0.0:9000"@);
}

/// A file of up to 8 GiB is offered, with its name and size as they are, under an id that
/// is read back from what is shown of it; a larger one is not.
pub proof fn law_files_are_offered_as_they_are(id: Seq<u8>, name: Seq<char>, size: u64)
    requires
        id.len() == 16,
    ensures
        offer_of(id, name, size) is Some <==> size <= 0x2_0000_0000,
        offer_of(id, name, size) matches Some((frame, shown)) ==> {
            &&& frame == (FrameModel::FileOffer { id, name, size })
            &&& transfer_id(shown) == Ok::<Seq<u8>, SendError>(id)
        },
{
    hexa::law_hex_round_trip(id);
}

} // verus!
