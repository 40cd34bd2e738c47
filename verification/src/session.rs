//! How a link comes about: who vouches for the peer, what is learned of it, and
//! what happens when it does not answer.
use vstd::prelude::*;
use vstd::string::*;
use vstd::utf8::*;

use crate::crypto;
use crate::hexa;
use crate::identity;
use crate::identity::Identity;
use crate::text;

verus! {

/// How long a handshake may take, in seconds. A peer that connects and does not
/// speak must not hold up a listener.
pub const HANDSHAKE_TIMEOUT_SECS: u64 = 30;

/// How often a peer is tried.
pub const DIAL_ATTEMPTS: u32 = 60;

/// What vouches for the peer.
pub enum Auth {
    /// A code word that both ends know.
    Code(String),
    /// Long-term keys, and the fingerprint that the peer has to have, if it is
    /// known.
    Identity { id: Identity, expect: Option<String> },
}

/// Where a link goes.
pub enum Link {
    /// We wait for peers at an address.
    Listen { local_addr: String, auth: Auth },
    /// We reach out to a peer.
    Connect { target: String, auth: Auth },
}

/// What is known of a session, for people to see.
#[derive(Debug, Clone, PartialEq)]
pub struct SessionInfo {
    /// What carries it.
    pub transport: String,
    /// Whether a code word vouched for the peer.
    pub code_word: bool,
    /// Our fingerprint, where long-term keys vouched.
    pub my_fingerprint: Option<String>,
    /// The peer's fingerprint, where long-term keys vouched.
    pub peer_fingerprint: Option<String>,
    /// Whether the peer's fingerprint was known, and was right.
    pub pinned: bool,
}

/// Why a session is refused.
#[derive(Debug, Clone, PartialEq)]
pub enum PinError {
    /// The peer has another fingerprint than it has to have.
    Mismatch { expected: String, got: String },
}

/// The text of a refusal.
pub open spec fn pin_error_text(e: PinError) -> Seq<char> {
    match e {
        PinError::Mismatch { expected, got } => "peer fingerprint mismatch (expected "@ + expected@ + ", got "@ + got@
            + ") — possible MITM"@,
    }
}

impl PinError {
    /// The refusal in words.
    pub fn to_string(&self) -> (r: String)
        ensures
            r@ == pin_error_text(*self),
    {
        match self {
            PinError::Mismatch { expected, got } => {
                let mut out = "peer fingerprint mismatch (expected ".to_owned();
                out.append(expected.as_str());
                out.append(", got ");
                out.append(got.as_str());
                out.append(") — possible MITM");
                out
            },
        }
    }
}

impl Link {
    /// Whether we wait for peers.
    pub fn is_listener(&self) -> (r: bool)
        ensures
            r == (self is Listen),
    {
        match self {
            Link::Listen { .. } => true,
            Link::Connect { .. } => false,
        }
    }

    /// What we are waiting for, in a line.
    pub fn status_line(&self) -> (r: String)
        ensures
            r@ == match *self {
                Link::Listen { local_addr, .. } => "waiting for a peer at "@ + local_addr@ + "…"@,
                Link::Connect { target, .. } => "connecting to "@ + target@ + "…"@,
            },
    {
        match self {
            Link::Listen { local_addr, .. } => {
                let mut out = "waiting for a peer at ".to_owned();
                out.append(local_addr.as_str());
                out.append("…");
                out
            },
            Link::Connect { target, .. } => {
                let mut out = "connecting to ".to_owned();
                out.append(target.as_str());
                out.append("…");
                out
            },
        }
    }
}

/// A text without its white space.
pub open spec fn without_space(t: Seq<char>) -> Seq<char>
    decreases t.len(),
{
    if t.len() == 0 {
        t
    } else if text::is_white_space(t.last()) {
        without_space(t.drop_last())
    } else {
        without_space(t.drop_last()).push(t.last())
    }
}

/// A fingerprint as it is compared: spacing and case do not matter.
pub open spec fn normal_fp(fp: Seq<char>) -> Seq<char> {
    text::uppercase(without_space(fp))
}

/// A fingerprint as it is compared.
pub fn normalize_fp(fp: &str) -> (r: String)
    ensures
        r@ == normal_fp(fp@),
{
    let mut out = String::new();
    assert(fp@.take(0) =~= Seq::<char>::empty());
    for c in iter: fp.chars()
        invariant
            iter.seq() == fp@,
            out@ == without_space(fp@.take(iter.index())),
    {
        proof {
            let next = fp@.take(iter.index() + 1);
            assert(next.drop_last() =~= fp@.take(iter.index()));
            assert(next.last() == c);
        }
        if !text::white_space(c) {
            out.push(c);
        }
    }
    assert(fp@.take(fp@.len() as int) =~= fp@);
    text::to_uppercase(out.as_str())
}

/// An optional text, as contracts see it.
pub open spec fn opt_text(s: Option<String>) -> Option<Seq<char>> {
    match s {
        Some(t) => Some(t@),
        None => None,
    }
}

/// Whether a peer with the long-term key `remote` may be let in: its
/// fingerprint is the expected one, if one is expected.
pub open spec fn pin_holds(expect: Option<Seq<char>>, remote: Seq<u8>) -> bool {
    match expect {
        Some(exp) => normal_fp(identity::fingerprint_text(remote)) == normal_fp(exp),
        None => true,
    }
}

/// Whether a peer with the long-term key `remote` is let in.
pub open spec fn lets_in(auth: Auth, remote: Seq<u8>) -> bool {
    match auth {
        Auth::Code(_) => true,
        Auth::Identity { expect, .. } => pin_holds(opt_text(expect), remote),
    }
}

/// Whether `info` says what is known of a session with a peer that was let in.
pub open spec fn info_says(auth: Auth, kind: Seq<char>, remote: Seq<u8>, info: SessionInfo) -> bool {
    &&& info.transport@ == kind
    &&& match auth {
        Auth::Code(_) => {
            &&& info.code_word
            &&& info.my_fingerprint is None
            &&& info.peer_fingerprint is None
            &&& !info.pinned
        },
        Auth::Identity { id, expect } => {
            &&& !info.code_word
            &&& opt_text(info.my_fingerprint) == Some(identity::fingerprint_text(id@.public))
            &&& opt_text(info.peer_fingerprint) == Some(identity::fingerprint_text(remote))
            &&& info.pinned == (expect is Some)
        },
    }
}

/// Whether `e` says why a peer was not let in.
pub open spec fn error_says(auth: Auth, remote: Seq<u8>, e: PinError) -> bool {
    &&& auth matches Auth::Identity { expect, .. }
    &&& e matches PinError::Mismatch { expected, got }
    &&& opt_text(expect) == Some(expected@)
    &&& got@ == identity::fingerprint_text(remote)
}

/// What is known of a session once the handshake is complete. With a pinned
/// fingerprint, a peer that has another is refused, on every connection anew.
pub fn session_info(auth: &Auth, kind: &str, remote_static: &[u8]) -> (r: Result<SessionInfo, PinError>)
    ensures
        match r {
            Ok(info) => lets_in(*auth, remote_static@) && info_says(*auth, kind@, remote_static@, info),
            Err(e) => !lets_in(*auth, remote_static@) && error_says(*auth, remote_static@, e),
        },
{
    match auth {
        Auth::Code(_) => Ok(
            SessionInfo {
                transport: kind.to_owned(),
                code_word: true,
                my_fingerprint: None,
                peer_fingerprint: None,
                pinned: false,
            },
        ),
        Auth::Identity { id, expect } => {
            let peer_fp = identity::fingerprint(remote_static);
            if let Some(exp) = expect {
                if normalize_fp(peer_fp.as_str()) != normalize_fp(exp.as_str()) {
                    return Err(PinError::Mismatch { expected: exp.clone(), got: peer_fp });
                }
            }
            Ok(
                SessionInfo {
                    transport: kind.to_owned(),
                    code_word: false,
                    my_fingerprint: Some(id.fingerprint()),
                    peer_fingerprint: Some(peer_fp),
                    pinned: expect.is_some(),
                },
            )
        },
    }
}

/// The tries to reach a peer, which may not be listening yet.
pub struct Dialer {
    failures: u32,
}

/// How long to wait after the `failures`-th try has failed, in milliseconds:
/// half a second more each time, up to three seconds.
pub open spec fn retry_delay(failures: nat) -> nat {
    if failures < 6 {
        500 * failures
    } else {
        3000
    }
}

/// Whether a peer is tried again after so many tries have failed.
pub open spec fn tries_again(failures: nat) -> bool {
    failures < DIAL_ATTEMPTS
}

impl View for Dialer {
    type V = nat;

    closed spec fn view(&self) -> nat {
        self.failures as nat
    }
}

impl Dialer {
    /// No try has failed yet.
    pub fn new() -> (r: Self)
        ensures
            r@ == 0,
    {
        Dialer { failures: 0 }
    }

    /// Whether the peer is to be tried again.
    pub fn may_try(&self) -> (r: bool)
        ensures
            r == (self@ < DIAL_ATTEMPTS),
            r == tries_again(self@),
    {
        self.failures < DIAL_ATTEMPTS
    }

    /// Notes that a try failed. The result is how long to wait, in milliseconds.
    pub fn failed(&mut self) -> (r: u64)
        requires
            old(self)@ < DIAL_ATTEMPTS,
        ensures
            final(self)@ == old(self)@ + 1,
            r == retry_delay(final(self)@),
    {
        self.failures = self.failures + 1;
        if self.failures < 6 {
            500 * self.failures as u64
        } else {
            3000
        }
    }
}

/// What became of a connection attempt.
pub enum Attempt {
    /// No connection came about.
    NoConnection,
    /// The handshake was refused.
    Refused,
    /// The handshake took too long.
    TimedOut,
    /// The handshake is complete, and the peer has shown this long-term key, or
    /// none where a code word vouched.
    HandshakeDone { remote_static: Vec<u8> },
}

/// What follows from it.
#[derive(Debug, Clone, PartialEq)]
pub enum Outcome {
    /// The link stands. Whoever reached out is the initiator.
    Established { is_initiator: bool, info: SessionInfo },
    /// A listener drops the peer and waits for the next.
    WaitForNext,
    /// We give up: the peer could not be reached, or refused us.
    Fail,
    /// We give up: the handshake took too long.
    FailTimedOut,
    /// We give up: the peer is not the one that it has to be.
    FailPinned(PinError),
}

/// Whether a peer is authenticated by an attempt: the handshake is complete, and
/// the peer is let in.
pub open spec fn authenticates(auth: Auth, attempt: Attempt) -> bool {
    attempt matches Attempt::HandshakeDone { remote_static } && lets_in(auth, remote_static@)
}

/// Whether an outcome follows from an attempt.
pub open spec fn follows(listening: bool, auth: Auth, kind: Seq<char>, attempt: Attempt, outcome: Outcome) -> bool {
    if authenticates(auth, attempt) {
        &&& outcome matches Outcome::Established { is_initiator, info }
        &&& is_initiator == !listening
        &&& info_says(auth, kind, attempt->remote_static@, info)
    } else if listening {
        outcome is WaitForNext
    } else {
        match attempt {
            Attempt::NoConnection => outcome is Fail,
            Attempt::Refused => outcome is Fail,
            Attempt::TimedOut => outcome is FailTimedOut,
            Attempt::HandshakeDone { remote_static } => {
                &&& outcome matches Outcome::FailPinned(e)
                &&& error_says(auth, remote_static@, e)
            },
        }
    }
}

/// What follows from an attempt over a transport of that kind. A peer that is not
/// let in does not take a listener down.
pub fn after_attempt(listening: bool, auth: &Auth, kind: &str, attempt: &Attempt) -> (r: Outcome)
    ensures
        follows(listening, *auth, kind@, *attempt, r),
{
    match attempt {
        Attempt::HandshakeDone { remote_static } => match session_info(auth, kind, remote_static.as_slice()) {
            Ok(info) => Outcome::Established { is_initiator: !listening, info },
            Err(e) => if listening {
                Outcome::WaitForNext
            } else {
                Outcome::FailPinned(e)
            },
        },
        Attempt::TimedOut => if listening {
            Outcome::WaitForNext
        } else {
            Outcome::FailTimedOut
        },
        _ => if listening {
            Outcome::WaitForNext
        } else {
            Outcome::Fail
        },
    }
}

/// A listener serves one peer after the other. Whatever attempts come at it from
/// `from` on, those before the first that authenticates, `next`, make it wait on
/// and end nothing, and that peer is the one that it serves, as the one who was
/// reached. From there on the same holds again, for the next.
pub proof fn law_listener_serves_the_next_peer(
    auth: Auth,
    kind: Seq<char>,
    attempts: Seq<Attempt>,
    outcomes: Seq<Outcome>,
    from: int,
    next: int,
)
    requires
        outcomes.len() == attempts.len(),
        forall|i: int|
            #![trigger attempts[i]]
            0 <= i < attempts.len() ==> follows(true, auth, kind, attempts[i], outcomes[i]),
        0 <= from <= next < attempts.len(),
        forall|i: int| from <= i < next ==> !authenticates(auth, #[trigger] attempts[i]),
        authenticates(auth, attempts[next]),
    ensures
        forall|i: int| #![trigger outcomes[i]] from <= i < next ==> outcomes[i] is WaitForNext,
        outcomes[next] matches Outcome::Established { is_initiator, info } && !is_initiator && info.transport@ == kind
            && info_says(auth, kind, attempts[next]->remote_static@, info),
        forall|i: int|
            #![trigger outcomes[i]]
            0 <= i < outcomes.len() ==> outcomes[i] is Established || outcomes[i] is WaitForNext,
{
    assert(follows(true, auth, kind, attempts[next], outcomes[next]));
    assert forall|i: int| #![trigger outcomes[i]] from <= i < next implies outcomes[i] is WaitForNext by {
        assert(!authenticates(auth, attempts[i]));
    }
    assert forall|i: int| #![trigger outcomes[i]] 0 <= i < outcomes.len() implies outcomes[i] is Established
        || outcomes[i] is WaitForNext by {
        assert(follows(true, auth, kind, attempts[i], outcomes[i]));
    }
}

/// Spacing does not matter to a pinned fingerprint: with a space anywhere in
/// it, it is still the same.
pub proof fn law_pins_ignore_space(a: Seq<char>, b: Seq<char>, space: char)
    requires
        text::is_white_space(space),
    ensures
        normal_fp(a + seq![space] + b) == normal_fp(a + b),
{
    lemma_space_join(a + seq![space], b);
    lemma_space_behind(a, space);
    lemma_space_join(a, b);
}

/// Case does not matter to a pinned fingerprint: texts that differ in nothing
/// else are compared as the same.
pub proof fn law_pins_ignore_case(a: Seq<char>, b: Seq<char>)
    requires
        is_ascii_chars(a),
        is_ascii_chars(b),
        text::uppercase(a) == text::uppercase(b),
    ensures
        normal_fp(a) == normal_fp(b),
{
    lemma_space_upper(a);
    lemma_space_upper(b);
}

/// The fingerprint of a key is a pin that lets in every key whose SHA-256
/// begins with the same 16 bytes, that key itself first of all, and no other. A
/// SHA-256 has 32 bytes.
pub proof fn law_pin_lets_in_its_key(own: Seq<u8>, remote: Seq<u8>)
    requires
        crypto::sha256(own).len() == 32,
        crypto::sha256(remote).len() == 32,
    ensures
        pin_holds(Some(identity::fingerprint_text(own)), remote) <==> crypto::sha256(own).take(16) == crypto::sha256(
            remote,
        ).take(16),
{
    let (a, b) = (crypto::sha256(own), crypto::sha256(remote));
    lemma_fingerprint_digits(a);
    lemma_fingerprint_digits(b);
    hexa::lemma_hex_upper(a.take(16), b.take(16));
}

/// A fingerprint is compared by the digits of its 16 bytes.
proof fn lemma_fingerprint_digits(d: Seq<u8>)
    requires
        d.len() == 32,
    ensures
        normal_fp(text::uppercase(identity::groups(d, 8))) == text::uppercase(hexa::hex_text(d.take(16))),
{
    let t = identity::groups(d, 8);
    let bare = hexa::hex_text(d.take(16));
    lemma_groups(d, 8);
    lemma_space_upper(t);
    hexa::lemma_hex_upper(d.take(16), d.take(16));
    let up = text::uppercase(bare);
    assert forall|i: int| 0 <= i < up.len() implies '\0' <= #[trigger] up[i] <= '\u{7f}' && text::ascii_upper(up[i])
        == up[i] by {
        assert(up[i] == text::ascii_upper(bare[i]));
    }
    assert(text::uppercase(up) =~= up);
}

/// Groups of digits are ASCII, and without their spaces they are the digits.
proof fn lemma_groups(d: Seq<u8>, count: nat)
    requires
        2 * count <= d.len(),
    ensures
        is_ascii_chars(identity::groups(d, count)),
        without_space(identity::groups(d, count)) == hexa::hex_text(d.take(2 * count as int)),
    decreases count,
{
    let whole = d.take(2 * count as int);
    if count == 0 {
        assert(whole =~= Seq::<u8>::empty());
    } else {
        let shorter = (count - 1) as nat;
        let front = identity::groups(d, shorter);
        let pair = d.subrange(2 * count - 2, 2 * count as int);
        let last = hexa::hex_text(pair);
        lemma_groups(d, shorter);
        hexa::lemma_hex_upper(pair, pair);
        lemma_no_space(last);
        hexa::lemma_hex_join(d.take(2 * shorter as int), pair);
        assert(d.take(2 * shorter as int) + pair =~= whole);
        if count == 1 {
            assert(hexa::hex_text(d.take(2 * shorter as int)) + last =~= last);
        } else {
            reveal_strlit(" ");
            assert(" "@ =~= seq![' ']);
            lemma_space_join(front + " "@, last);
            lemma_space_behind(front, ' ');
        }
    }
}

/// Text without white space stays as it is.
proof fn lemma_no_space(t: Seq<char>)
    requires
        forall|i: int| 0 <= i < t.len() ==> !text::is_white_space(#[trigger] t[i]),
    ensures
        without_space(t) == t,
    decreases t.len(),
{
    if t.len() > 0 {
        let rest = t.drop_last();
        assert forall|i: int| 0 <= i < rest.len() implies !text::is_white_space(#[trigger] rest[i]) by {
            assert(rest[i] == t[i]);
        }
        lemma_no_space(rest);
        assert(!text::is_white_space(t[t.len() - 1]));
        assert(rest.push(t.last()) =~= t);
    }
}

/// White space at the end of a text is dropped.
proof fn lemma_space_behind(t: Seq<char>, space: char)
    requires
        text::is_white_space(space),
    ensures
        without_space(t + seq![space]) == without_space(t),
{
    assert((t + seq![space]).drop_last() =~= t);
}

/// White space can be dropped from each half of a text.
proof fn lemma_space_join(a: Seq<char>, b: Seq<char>)
    ensures
        without_space(a + b) == without_space(a) + without_space(b),
    decreases b.len(),
{
    if b.len() == 0 {
        assert(a + b =~= a);
        assert(without_space(a) + without_space(b) =~= without_space(a));
    } else {
        assert((a + b).drop_last() =~= a + b.drop_last());
        lemma_space_join(a, b.drop_last());
        assert(without_space(a + b) =~= without_space(a) + without_space(b));
    }
}

/// Of ASCII text, white space can be dropped before or after the letters are
/// put in upper case.
proof fn lemma_space_upper(t: Seq<char>)
    requires
        is_ascii_chars(t),
    ensures
        is_ascii_chars(without_space(t)),
        without_space(text::uppercase(t)) == text::uppercase(without_space(t)),
    decreases t.len(),
{
    let up = text::uppercase(t);
    if t.len() == 0 {
        assert(up =~= t);
        assert(text::uppercase(without_space(t)) =~= t);
    } else {
        let rest = t.drop_last();
        assert(is_ascii_chars(rest)) by {
            assert forall|i: int| 0 <= i < rest.len() implies '\0' <= #[trigger] rest[i] <= '\u{7f}' by {
                assert(rest[i] == t[i]);
            }
        }
        lemma_space_upper(rest);
        assert(up.drop_last() =~= text::uppercase(rest));
        assert(up.last() == text::ascii_upper(t[t.len() - 1]));
        let bare = without_space(t);
        assert forall|i: int| 0 <= i < bare.len() implies '\0' <= #[trigger] bare[i] <= '\u{7f}' by {
            if i < without_space(rest).len() {
                assert(bare[i] == without_space(rest)[i]);
            } else {
                assert(bare[i] == t[t.len() - 1]);
            }
        }
        assert(without_space(up) =~= text::uppercase(bare));
    }
}

/// Of a fingerprint all white space goes before it is compared, and nothing else does,
/// nor does the order change.
pub proof fn law_only_white_space_goes(t: Seq<char>)
    ensures
        without_space(t) == t.filter(|c: char| !text::is_white_space(c)),
    decreases t.len(),
{
    reveal(Seq::filter);
    if t.len() > 0 {
        law_only_white_space_goes(t.drop_last());
    }
}

/// Whoever reaches out gets a link if and only if the handshake is complete and the peer
/// is let in, and then as the initiator. Otherwise it is told why not, and never made to
/// wait.
pub proof fn law_dialers_are_told(auth: Auth, kind: Seq<char>, attempt: Attempt, outcome: Outcome)
    requires
        follows(false, auth, kind, attempt, outcome),
    ensures
        outcome is Established <==> attempt is HandshakeDone && lets_in(auth, attempt->remote_static@),
        outcome is Established ==> outcome->is_initiator && outcome->info.transport@ == kind,
        !(outcome is WaitForNext),
        attempt is TimedOut <==> outcome is FailTimedOut,
        attempt is NoConnection || attempt is Refused <==> outcome is Fail,
        attempt is HandshakeDone && !lets_in(auth, attempt->remote_static@) <==> outcome is FailPinned,
{
}

/// Where a code word vouches every peer is let in that came through the handshake, and
/// so is every peer where no fingerprint is expected. Where one is, just those are whose
/// fingerprint reads the same, but for spacing and case. The session says who vouched,
/// and shows both fingerprints where long-term keys did.
pub proof fn law_pins_decide_who_is_let_in(auth: Auth, kind: Seq<char>, remote: Seq<u8>, info: SessionInfo)
    requires
        info_says(auth, kind, remote, info),
    ensures
        auth is Code ==> lets_in(auth, remote) && info.code_word && info.my_fingerprint is None
            && info.peer_fingerprint is None && !info.pinned,
        auth is Identity && auth->expect is None ==> lets_in(auth, remote) && !info.pinned,
        auth is Identity && auth->expect is Some ==> (lets_in(auth, remote) <==> text::uppercase(
            identity::fingerprint_text(remote).filter(|c: char| !text::is_white_space(c)),
        ) == text::uppercase(auth->expect->0@.filter(|c: char| !text::is_white_space(c)))) && info.pinned,
        auth is Identity ==> {
            &&& !info.code_word
            &&& opt_text(info.my_fingerprint) == Some(identity::fingerprint_text(auth->id@.public))
            &&& opt_text(info.peer_fingerprint) == Some(identity::fingerprint_text(remote))
        },
        info.transport@ == kind,
{
    law_only_white_space_goes(identity::fingerprint_text(remote));
    if auth is Identity && auth->expect is Some {
        law_only_white_space_goes(auth->expect->0@);
    }
}

/// A fingerprint shows the first sixteen bytes of the SHA-256 of the key: without its
/// spaces it is their hexadecimal digits in upper case. A SHA-256 has 32 bytes.
pub proof fn law_fingerprints_show_sixteen_bytes(key: Seq<u8>)
    requires
        crypto::sha256(key).len() == 32,
    ensures
        normal_fp(identity::fingerprint_text(key)) == text::uppercase(hexa::hex_text(crypto::sha256(key).take(16))),
        identity::fingerprint_text(key).len() == 39,
{
    lemma_fingerprint_digits(crypto::sha256(key));
    lemma_groups(crypto::sha256(key), 8);
    lemma_groups_len(crypto::sha256(key), 8);
}

/// Groups of four digits, with one space between two.
proof fn lemma_groups_len(d: Seq<u8>, count: nat)
    requires
        2 * count <= d.len(),
    ensures
        count > 0 ==> identity::groups(d, count).len() == 5 * count - 1,
    decreases count,
{
    if count > 0 {
        let pair = d.subrange(2 * count - 2, 2 * count as int);
        hexa::lemma_hex_len(pair);
        reveal_strlit(" ");
        lemma_groups_len(d, (count - 1) as nat);
    }
}

/// The pauses between tries start at half a second, get longer by half a second each
/// time until they are three seconds long, and stay so.
pub proof fn law_pauses_grow_to_three_seconds(failures: nat)
    ensures
        retry_delay(1) == 500,
        failures > 0 ==> retry_delay(failures + 1) == if retry_delay(failures) < 3000 {
            retry_delay(failures) + 500
        } else {
            3000nat
        },
        failures > 0 ==> 500 <= retry_delay(failures) <= 3000,
{
}

/// Who is refused for a fingerprint is told of both: the one that was expected, as it was
/// given, and the one that the peer has, and the two are not the same.
pub proof fn law_refusals_tell_both_fingerprints(auth: Auth, remote: Seq<u8>, e: PinError)
    requires
        !lets_in(auth, remote),
        error_says(auth, remote, e),
    ensures
        auth is Identity,
        opt_text(auth->expect) is Some,
        e->expected@ == opt_text(auth->expect)->0,
        e->got@ == identity::fingerprint_text(remote),
        normal_fp(e->got@) != normal_fp(e->expected@),
{
}

/// A peer that does not answer is tried sixty times, and no more; the pauses between the
/// tries never grow shorter.
pub proof fn law_peers_are_tried_sixty_times(failures: nat)
    ensures
        tries_again(failures) <==> failures < 60,
        retry_delay(failures) <= retry_delay(failures + 1),
{
}

} // verus!
