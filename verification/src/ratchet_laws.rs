//! What two ends of a double-ratchet session can rely on.
use vstd::prelude::*;
use vstd::string::*;

use crate::bytes;
use crate::crypto;
use crate::ratchet;
use crate::ratchet::{ErrorKind, RatchetModel, SkippedModel, MAX_SKIP, MAX_SKIP_STORE};

verus! {

/// `s` sends on the chain that starts with `ck0`.
pub open spec fn sends_on(s: RatchetModel, ck0: Seq<u8>) -> bool {
    s.cks == Some(ratchet::chain_key(ck0, s.ns as nat))
}

/// `s` has started the sending chain `ck0` from the root that it shares with
/// `r`, and `r` has not seen that chain yet.
pub open spec fn leads(s: RatchetModel, r: RatchetModel, ck0: Seq<u8>) -> bool {
    let public = crypto::x25519_public(s.dhs);
    &&& s.dhr == Some(crypto::x25519_public(r.dhs))
    &&& r.dhr != Some(public)
    &&& ratchet::root_step(r.rk, crypto::x25519_shared(r.dhs, public)) == (s.rk, ck0)
}

/// `r` receives on the chain `dh` that starts with `ck0`.
pub open spec fn on_chain(r: RatchetModel, dh: Seq<u8>, ck0: Seq<u8>) -> bool {
    &&& r.dhr == Some(dh)
    &&& r.ckr == Some(ratchet::chain_key(ck0, r.nr as nat))
}

/// Message `n` of the chain `dh` that starts with `ck0`.
pub open spec fn chain_message(
    dh: Seq<u8>,
    ck0: Seq<u8>,
    pn: int,
    n: int,
    plaintext: Seq<u8>,
    wire: Seq<u8>,
) -> bool {
    ratchet::genuine(dh, pn, n, ratchet::message_key(ratchet::chain_key(ck0, n as nat)), plaintext, wire)
}

/// Walking a chain in two stretches is walking it in one.
pub proof fn lemma_chain_key_sum(ck: Seq<u8>, a: nat, b: nat)
    ensures
        ratchet::chain_key(ratchet::chain_key(ck, a), b) == ratchet::chain_key(ck, a + b),
    decreases b,
{
    if b > 0 {
        lemma_chain_key_sum(ck, a, (b - 1) as nat);
    }
}

/// A key that the store holds is found.
pub proof fn lemma_find(keys: Seq<SkippedModel>, i: int)
    requires
        ratchet::keys_distinct(keys),
        0 <= i < keys.len(),
    ensures
        ratchet::find_key(keys, keys[i].dh, keys[i].n) == Some(keys[i].mk),
{
    ratchet::lemma_key_index(keys, keys[i].dh, keys[i].n);
    let at = ratchet::key_index(keys, keys[i].dh, keys[i].n);
    if at < i {
        assert(keys[i].dh == keys[i].dh);
    } else if at > i {
        assert(keys[at].dh == keys[i].dh);
    }
}

/// Keys that come in stand at the end of the store, in their order.
pub proof fn lemma_add_keys(keys: Seq<SkippedModel>, new: Seq<SkippedModel>)
    requires
        ratchet::keys_distinct(keys),
        keys.len() <= MAX_SKIP_STORE,
        ratchet::keys_distinct(new),
        new.len() <= MAX_SKIP_STORE,
    ensures
        ({
            let out = ratchet::add_keys(keys, new);
            &&& ratchet::keys_distinct(out)
            &&& new.len() <= out.len() <= MAX_SKIP_STORE
            &&& out.subrange(out.len() - new.len(), out.len() as int) == new
        }),
    decreases new.len(),
{
    let out = ratchet::add_keys(keys, new);
    if new.len() == 0 {
        assert(out.subrange(out.len() - new.len(), out.len() as int) =~= new);
    } else {
        let shorter = new.drop_last();
        let key = new.last();
        assert(ratchet::keys_distinct(shorter)) by {
            assert forall|i: int, j: int| #![trigger shorter[i], shorter[j]] 0 <= i < j < shorter.len() implies !(
            shorter[i].dh == shorter[j].dh && shorter[i].n == shorter[j].n) by {
                assert(shorter[i] == new[i] && shorter[j] == new[j]);
            }
        }
        lemma_add_keys(keys, shorter);
        let mid = ratchet::add_keys(keys, shorter);
        ratchet::lemma_add_key(mid, key);
        let kept = if mid.len() >= MAX_SKIP_STORE {
            mid.drop_first()
        } else {
            mid
        };
        ratchet::lemma_key_index(kept, key.dh, key.n);
        let at = ratchet::key_index(kept, key.dh, key.n);
        let tail = kept.len() - shorter.len();
        assert forall|i: int| 0 <= i < shorter.len() implies kept[tail + i] == #[trigger] shorter[i] by {
            let whole = mid.subrange(mid.len() - shorter.len(), mid.len() as int);
            assert(whole[i] == mid[mid.len() - shorter.len() + i]);
        }
        if at >= tail {
            assert(kept[tail + (at - tail)] == shorter[at - tail]);
            assert(new[at - tail] == shorter[at - tail]);
            assert(new[new.len() - 1] == key);
            assert(false);
        }
        assert forall|i: int| 0 <= i < new.len() implies out[out.len() - new.len() + i] == #[trigger] new[i] by {
            if i < shorter.len() {
                assert(shorter[i] == new[i]);
            }
        }
        assert(out.subrange(out.len() - new.len(), out.len() as int) =~= new);
    }
}

/// A key that is kept stays kept while there is room.
pub proof fn lemma_add_keys_keeps(keys: Seq<SkippedModel>, new: Seq<SkippedModel>, dh: Seq<u8>, n: int)
    requires
        ratchet::keys_distinct(keys),
        keys.len() + new.len() <= MAX_SKIP_STORE,
        ratchet::find_key(keys, dh, n) is Some,
    ensures
        ratchet::keys_distinct(ratchet::add_keys(keys, new)),
        ratchet::add_keys(keys, new).len() <= keys.len() + new.len(),
        ratchet::find_key(ratchet::add_keys(keys, new), dh, n) is Some,
        (forall|i: int| 0 <= i < new.len() ==> !((#[trigger] new[i]).dh == dh && new[i].n == n)) ==> ratchet::find_key(
            ratchet::add_keys(keys, new),
            dh,
            n,
        ) == ratchet::find_key(keys, dh, n),
    decreases new.len(),
{
    if new.len() > 0 {
        let shorter = new.drop_last();
        let key = new.last();
        lemma_add_keys_keeps(keys, shorter, dh, n);
        let mid = ratchet::add_keys(keys, shorter);
        ratchet::lemma_add_key(mid, key);
        ratchet::lemma_key_index(mid, key.dh, key.n);
        ratchet::lemma_key_index(mid, dh, n);
        let at = ratchet::key_index(mid, key.dh, key.n);
        let wanted = ratchet::key_index(mid, dh, n);
        let out = ratchet::add_key(mid, key);
        if wanted == at {
            assert(out[out.len() - 1] == key);
            lemma_find(out, out.len() - 1);
        } else {
            let moved = if at >= 0 && wanted > at {
                wanted - 1
            } else {
                wanted
            };
            assert(out[moved] == mid[wanted]);
            lemma_find(out, moved);
        }
        if forall|i: int| 0 <= i < new.len() ==> !((#[trigger] new[i]).dh == dh && new[i].n == n) {
            assert(!(new[new.len() - 1].dh == dh && new[new.len() - 1].n == n));
            assert forall|i: int| 0 <= i < shorter.len() implies !((#[trigger] shorter[i]).dh == dh && shorter[i].n
                == n) by {
                assert(shorter[i] == new[i]);
            }
        }
    }
}

/// Two ends that start from the same root secret, with the initiator holding
/// the responder's key, are in step: the initiator leads.
pub proof fn law_start_in_step(a: Seq<u8>, b: Seq<u8>, shared_root: Seq<u8>)
    requires
        b.len() == 32,
        ratchet::valid(ratchet::alice_model(a, shared_root, crypto::x25519_public(b))),
    ensures
        ({
            let alice = ratchet::alice_model(a, shared_root, crypto::x25519_public(b));
            let bob = ratchet::bob_model(b, shared_root);
            leads(alice, bob, alice.cks->0) && sends_on(alice, alice.cks->0)
        }),
{
}

/// Encrypting stays on the chain, uses the next index and its key, and leaves
/// the lead where it was.
pub proof fn law_encrypt_stays_on_chain(s: RatchetModel, ck0: Seq<u8>, plaintext: Seq<u8>)
    requires
        ratchet::valid(s),
        sends_on(s, ck0),
        s.ns < u32::MAX,
    ensures
        ratchet::encrypt_step(s, plaintext) matches Ok((wire, after)) && {
            &&& sends_on(after, ck0)
            &&& after.ns == s.ns + 1
            &&& ratchet::message_key(s.cks->0) == ratchet::message_key(ratchet::chain_key(ck0, s.ns as nat))
            &&& forall|r: RatchetModel| #[trigger] leads(after, r, ck0) == leads(s, r, ck0)
        },
{
}

/// A message of the chain that we receive on opens to its plaintext, however
/// many up to `MAX_SKIP` before it are still missing. The keys of those are
/// kept, and we stay on the chain.
pub proof fn law_chain_message_opens(
    r: RatchetModel,
    dh: Seq<u8>,
    ck0: Seq<u8>,
    pn: int,
    n: int,
    plaintext: Seq<u8>,
    wire: Seq<u8>,
    fresh: Seq<u8>,
)
    requires
        ratchet::valid(r),
        on_chain(r, dh, ck0),
        chain_message(dh, ck0, pn, n, plaintext, wire),
        ratchet::find_key(r.skipped, dh, n) is None,
        r.nr <= n < u32::MAX,
        n - r.nr <= MAX_SKIP,
    ensures
        ratchet::decrypt_step(r, wire, fresh) matches Ok((out, after)) && {
            &&& out == plaintext
            &&& on_chain(after, dh, ck0)
            &&& after.nr == n + 1
            &&& after == (RatchetModel { ckr: after.ckr, nr: after.nr, skipped: after.skipped, ..r })
            &&& forall|i: int|
                r.nr <= i < n ==> #[trigger] ratchet::find_key(after.skipped, dh, i) == Some(
                    ratchet::message_key(ratchet::chain_key(ck0, i as nat)),
                )
        },
{
    let needed = ratchet::gap(r.nr, n);
    lemma_chain_key_sum(ck0, r.nr as nat, needed);
    let run = ratchet::skipped_run(dh, r.nr, r.ckr->0, needed);
    assert(Seq::<SkippedModel>::empty() + run =~= run);
    assert(ratchet::keys_distinct(run));
    lemma_add_keys(r.skipped, run);
    let out = ratchet::add_keys(r.skipped, run);
    assert forall|i: int| r.nr <= i < n implies #[trigger] ratchet::find_key(out, dh, i) == Some(
        ratchet::message_key(ratchet::chain_key(ck0, i as nat)),
    ) by {
        let tail = out.subrange(out.len() - run.len(), out.len() as int);
        assert(tail[i - r.nr] == run[i - r.nr]);
        assert(out[out.len() - run.len() + (i - r.nr)] == run[i - r.nr]);
        lemma_find(out, out.len() - run.len() + (i - r.nr));
        lemma_chain_key_sum(ck0, r.nr as nat, (i - r.nr) as nat);
    }
}

/// A message that comes late opens with the key that was kept for it, which is
/// then gone. Nothing else changes.
pub proof fn law_late_message_opens(
    r: RatchetModel,
    dh: Seq<u8>,
    ck0: Seq<u8>,
    pn: int,
    n: int,
    plaintext: Seq<u8>,
    wire: Seq<u8>,
    fresh: Seq<u8>,
)
    requires
        ratchet::valid(r),
        chain_message(dh, ck0, pn, n, plaintext, wire),
        ratchet::find_key(r.skipped, dh, n) == Some(
            ratchet::message_key(ratchet::chain_key(ck0, n as nat)),
        ),
    ensures
        ratchet::decrypt_step(r, wire, fresh) == Ok::<(Seq<u8>, RatchetModel), ErrorKind>(
            (plaintext, RatchetModel { skipped: ratchet::drop_key(r.skipped, dh, n), ..r }),
        ),
        ratchet::find_key(ratchet::drop_key(r.skipped, dh, n), dh, n) is None,
{
    ratchet::lemma_key_index(r.skipped, dh, n);
    let at = ratchet::key_index(r.skipped, dh, n);
    let rest = ratchet::drop_key(r.skipped, dh, n);
    ratchet::lemma_key_index(rest, dh, n);
    let again = ratchet::key_index(rest, dh, n);
    if again >= 0 {
        let old_index = if again < at {
            again
        } else {
            again + 1
        };
        assert(rest[again] == r.skipped[old_index]);
        assert(r.skipped[at].dh == dh && r.skipped[at].n == n);
    }
}

/// A message of a chain that we have not seen opens to its plaintext, if the
/// rest of the chain before and the gap before the message are within
/// `MAX_SKIP` together. We are then on that chain, the keys of all messages
/// passed over are kept, and the lead has changed sides: the session goes on
/// from fresh keys.
pub proof fn law_new_chain_message_opens(
    s: RatchetModel,
    r: RatchetModel,
    ck0: Seq<u8>,
    pn: int,
    n: int,
    plaintext: Seq<u8>,
    wire: Seq<u8>,
    fresh: Seq<u8>,
)
    requires
        ratchet::valid(s),
        ratchet::valid(r),
        leads(s, r, ck0),
        chain_message(crypto::x25519_public(s.dhs), ck0, pn, n, plaintext, wire),
        ratchet::find_key(r.skipped, crypto::x25519_public(s.dhs), n) is None,
        0 <= n < u32::MAX,
        ratchet::gap(r.nr, pn) <= MAX_SKIP,
        ratchet::flushed(r, wire).len() + n <= MAX_SKIP,
    ensures
        ratchet::decrypt_step(r, wire, fresh) matches Ok((out, after)) && {
            &&& out == plaintext
            &&& on_chain(after, crypto::x25519_public(s.dhs), ck0)
            &&& after.nr == n + 1
            &&& after.dhs == fresh
            &&& after.pn == r.ns
            &&& sends_on(after, after.cks->0)
            &&& forall|i: int|
                0 <= i < n ==> #[trigger] ratchet::find_key(after.skipped, crypto::x25519_public(s.dhs), i) == Some(
                    ratchet::message_key(ratchet::chain_key(ck0, i as nat)),
                )
            &&& r.ckr is Some ==> forall|i: int|
                r.nr <= i < pn ==> #[trigger] ratchet::find_key(after.skipped, r.dhr->0, i) == Some(
                    ratchet::message_key(ratchet::chain_key(r.ckr->0, (i - r.nr) as nat)),
                )
            &&& ratchet::valid(after) && crypto::x25519_public(fresh) != crypto::x25519_public(r.dhs) ==> leads(
                after,
                s,
                after.cks->0,
            )
        },
{
    let dh = crypto::x25519_public(s.dhs);
    let stepped = ratchet::ratchet_step(r, wire, fresh);
    let first = ratchet::flushed(r, wire);
    let run = ratchet::skipped_run(dh, 0, stepped.ckr->0, n as nat);
    let new = first + run;
    assert(stepped.ckr->0 == ck0);
    assert(ratchet::gap(0, n) == n);
    assert(ratchet::keys_distinct(new)) by {
        assert forall|i: int, j: int| #![trigger new[i], new[j]] 0 <= i < j < new.len() implies !(new[i].dh
            == new[j].dh && new[i].n == new[j].n) by {
            if i < first.len() && j < first.len() {
                assert(new[i] == first[i] && new[j] == first[j]);
            } else if i < first.len() {
                assert(new[i] == first[i] && new[j] == run[j - first.len()]);
            } else {
                assert(new[i] == run[i - first.len()] && new[j] == run[j - first.len()]);
            }
        }
    }
    lemma_add_keys(r.skipped, new);
    let out = ratchet::add_keys(r.skipped, new);
    let tail = out.subrange(out.len() - new.len(), out.len() as int);
    let at = out.len() - new.len();
    assert forall|i: int| 0 <= i < n implies #[trigger] ratchet::find_key(out, dh, i) == Some(
        ratchet::message_key(ratchet::chain_key(ck0, i as nat)),
    ) by {
        assert(tail[first.len() + i] == run[i]);
        assert(out[at + first.len() + i] == run[i]);
        lemma_find(out, at + first.len() + i);
    }
    if r.ckr is Some {
        assert forall|i: int| r.nr <= i < pn implies #[trigger] ratchet::find_key(out, r.dhr->0, i) == Some(
            ratchet::message_key(ratchet::chain_key(r.ckr->0, (i - r.nr) as nat)),
        ) by {
            assert(tail[i - r.nr] == first[i - r.nr]);
            assert(out[at + (i - r.nr)] == first[i - r.nr]);
            lemma_find(out, at + (i - r.nr));
        }
    }
}

/// A message key kept for another message outlives opening a message, while
/// the store has room for all that one packet can add.
pub proof fn law_skipped_keys_survive(r: RatchetModel, wire: Seq<u8>, fresh: Seq<u8>, dh: Seq<u8>, n: int)
    requires
        ratchet::valid(r),
        ratchet::decrypt_step(r, wire, fresh) is Ok,
        ratchet::find_key(r.skipped, dh, n) is Some,
        !(dh == ratchet::wire_dh(wire) && n == ratchet::wire_n(wire)),
        r.skipped.len() + MAX_SKIP <= MAX_SKIP_STORE,
    ensures
        ratchet::decrypt_step(r, wire, fresh) matches Ok((out, after)) && {
            &&& ratchet::find_key(after.skipped, dh, n) is Some
            &&& dh != ratchet::wire_dh(wire) && r.dhr != Some(dh) ==> ratchet::find_key(after.skipped, dh, n)
                == ratchet::find_key(r.skipped, dh, n)
        },
{
    let wdh = ratchet::wire_dh(wire);
    let wn = ratchet::wire_n(wire);
    if ratchet::find_key(r.skipped, wdh, wn) is Some {
        ratchet::lemma_key_index(r.skipped, wdh, wn);
        ratchet::lemma_key_index(r.skipped, dh, n);
        let at = ratchet::key_index(r.skipped, wdh, wn);
        let wanted = ratchet::key_index(r.skipped, dh, n);
        let rest = ratchet::drop_key(r.skipped, wdh, wn);
        let moved = if wanted > at {
            wanted - 1
        } else {
            wanted
        };
        assert(rest[moved] == r.skipped[wanted]);
        assert(ratchet::keys_distinct(rest)) by {
            assert forall|i: int, j: int| #![trigger rest[i], rest[j]] 0 <= i < j < rest.len() implies !(rest[i].dh
                == rest[j].dh && rest[i].n == rest[j].n) by {
                let ki = if i < at {
                    i
                } else {
                    i + 1
                };
                let kj = if j < at {
                    j
                } else {
                    j + 1
                };
                assert(rest[i] == r.skipped[ki] && rest[j] == r.skipped[kj]);
            }
        }
        lemma_find(rest, moved);
    } else if ratchet::is_new_chain(r, wire) {
        let stepped = ratchet::ratchet_step(r, wire, fresh);
        let first = ratchet::flushed(r, wire);
        let run = ratchet::skipped_run(wdh, 0, stepped.ckr->0, ratchet::gap(0, wn));
        let new = first + run;
        lemma_add_keys_keeps(r.skipped, new, dh, n);
        if dh != wdh && r.dhr != Some(dh) {
            assert forall|i: int| 0 <= i < new.len() implies !((#[trigger] new[i]).dh == dh && new[i].n == n) by {
                if i < first.len() {
                    assert(new[i] == first[i]);
                } else {
                    assert(new[i] == run[i - first.len()]);
                }
            }
        }
    } else {
        let run = ratchet::skipped_run(wdh, r.nr, r.ckr->0, ratchet::gap(r.nr, wn));
        let new = Seq::<SkippedModel>::empty() + run;
        assert(new =~= run);
        lemma_add_keys_keeps(r.skipped, new, dh, n);
    }
}

/// One packet makes us derive at most `MAX_SKIP` skipped keys, over the flush
/// of the previous chain and the gap in the current one together. A packet
/// that asks for more is refused, and `decrypt` leaves the session as it was.
pub proof fn law_skip_budget(m: RatchetModel, wire: Seq<u8>, fresh: Seq<u8>)
    requires
        ratchet::valid(m),
        wire.len() >= ratchet::HEADER_LEN,
        ratchet::find_key(m.skipped, ratchet::wire_dh(wire), ratchet::wire_n(wire)) is None,
    ensures
        ratchet::is_new_chain(m, wire) && ratchet::flushed(m, wire).len() + ratchet::gap(0, ratchet::wire_n(wire))
            > MAX_SKIP ==> ratchet::decrypt_step(m, wire, fresh) == Err::<(Seq<u8>, RatchetModel), ErrorKind>(
            ErrorKind::TooManySkipped,
        ),
        !ratchet::is_new_chain(m, wire) && m.ckr is Some && ratchet::gap(m.nr, ratchet::wire_n(wire)) > MAX_SKIP
            ==> ratchet::decrypt_step(m, wire, fresh) == Err::<(Seq<u8>, RatchetModel), ErrorKind>(
            ErrorKind::TooManySkipped,
        ),
{
}

/// Which plaintext a message opens to, and whether and why it is refused, does
/// not depend on the ratchet secret that is drawn.
pub proof fn law_plaintext_is_independent_of_fresh(m: RatchetModel, wire: Seq<u8>, f1: Seq<u8>, f2: Seq<u8>)
    ensures
        match (ratchet::decrypt_step(m, wire, f1), ratchet::decrypt_step(m, wire, f2)) {
            (Ok((p1, _)), Ok((p2, _))) => p1 == p2,
            (Err(e1), Err(e2)) => e1 == e2,
            _ => false,
        },
{
}

/// The keys of a session come from HKDF-SHA256. A root key is the salt and the agreed
/// secret the input from which the next root key and a chain key come; a message key and
/// the next chain key are expanded from a chain key under inputs of their own, so that
/// neither is the other; and the cipher's key and nonce come of the message key.
pub proof fn law_session_keys_are_derived(rk: Seq<u8>, agreed: Seq<u8>, ck: Seq<u8>, mk: Seq<u8>)
    requires
        crypto::hkdf_sha256(Some(rk), agreed, "ciphext-double-ratchet-root-v1".spec_bytes(), 64).len() == 64,
        crypto::hkdf_sha256(
            Some(bytes::zeros(32)),
            mk,
            "ciphext-double-ratchet-message-v1".spec_bytes(),
            44,
        ).len() == 44,
    ensures
        ratchet::root_step(rk, agreed).0.len() == 32,
        ratchet::root_step(rk, agreed).0 + ratchet::root_step(rk, agreed).1 == crypto::hkdf_sha256(
            Some(rk),
            agreed,
            "ciphext-double-ratchet-root-v1".spec_bytes(),
            64,
        ),
        ratchet::cipher_keys(mk).0.len() == 32,
        ratchet::cipher_keys(mk).0 + ratchet::cipher_keys(mk).1 == crypto::hkdf_sha256(
            Some(bytes::zeros(32)),
            mk,
            "ciphext-double-ratchet-message-v1".spec_bytes(),
            44,
        ),
        ratchet::message_key(ck) == crypto::hkdf_expand_sha256(ck, seq![1u8], 32),
        ratchet::next_chain_key(ck) == crypto::hkdf_expand_sha256(ck, seq![2u8], 32),
{
    let root = crypto::hkdf_sha256(Some(rk), agreed, ratchet::KDF_RK_INFO.spec_bytes(), 64);
    assert(root.subrange(0, 32) + root.subrange(32, 64) =~= root);
    let okm = crypto::hkdf_sha256(Some(bytes::zeros(32)), mk, ratchet::KDF_MK_INFO.spec_bytes(), 44);
    assert(okm.subrange(0, 32) + okm.subrange(32, 44) =~= okm);
}

/// An end encrypts whenever it has a sending chain that is not used up, and says which of
/// the two is missing where it does not. The initiator can send at once; the responder
/// cannot before it has heard something.
pub proof fn law_encrypting_needs_a_chain(m: RatchetModel, plaintext: Seq<u8>, secret: Seq<u8>, root: Seq<u8>, public: Seq<u8>)
    requires
        ratchet::valid(m),
    ensures
        ratchet::encrypt_step(m, plaintext) is Ok <==> m.cks is Some && m.ns < 0xffff_ffff,
        m.ns < 0xffff_ffff && m.cks is None ==> ratchet::encrypt_step(m, plaintext) == Err::<
            (Seq<u8>, RatchetModel),
            ErrorKind,
        >(ErrorKind::NoSendingChain),
        m.ns == 0xffff_ffff ==> ratchet::encrypt_step(m, plaintext) == Err::<(Seq<u8>, RatchetModel), ErrorKind>(
            ErrorKind::ChainExhausted,
        ),
        ratchet::encrypt_step(ratchet::alice_model(secret, root, public), plaintext) is Ok,
        ratchet::encrypt_step(ratchet::bob_model(secret, root), plaintext) == Err::<
            (Seq<u8>, RatchetModel),
            ErrorKind,
        >(ErrorKind::NoSendingChain),
{
}

/// A message is its header and, behind it, the plaintext sealed with that header bound in,
/// under the key of the sending chain. The header names our ratchet key, how long our
/// previous chain was and which message this is. Sending moves the sending chain on by one
/// message and nothing else.
pub proof fn law_headers_are_bound_in(m: RatchetModel, plaintext: Seq<u8>)
    requires
        ratchet::valid(m),
        m.cks is Some,
        m.ns < u32::MAX,
    ensures
        ratchet::encrypt_step(m, plaintext) matches Ok((wire, after)) && {
            let (key, nonce) = ratchet::cipher_keys(ratchet::message_key(m.cks->0));
            &&& wire.len() >= 40
            &&& wire.subrange(0, 32) == crypto::x25519_public(m.dhs)
            &&& bytes::from_be32(wire.subrange(32, 36)) == m.pn
            &&& bytes::from_be32(wire.subrange(36, 40)) == m.ns
            &&& wire.subrange(40, wire.len() as int) == crypto::chacha20poly1305_seal(
                key,
                nonce,
                wire.subrange(0, 40),
                plaintext,
            )
            &&& after.ns == m.ns + 1
            &&& after.cks == Some(ratchet::next_chain_key(m.cks->0))
            &&& after.dhs == m.dhs && after.dhr == m.dhr && after.rk == m.rk && after.pn == m.pn
            &&& after.ckr == m.ckr && after.nr == m.nr && after.skipped == m.skipped
        },
{
    let key = ratchet::message_key(m.cks->0);
    ratchet::lemma_header(
        crypto::x25519_public(m.dhs),
        m.pn,
        m.ns,
        ratchet::seal_message(key, ratchet::next_header(m), plaintext),
    );
}

/// A full store of 4000 keys loses the one that came first when another comes, and a
/// store with room loses none; the newest stands last, and the others keep their order.
pub proof fn law_the_oldest_key_goes_first(keys: Seq<SkippedModel>, key: SkippedModel)
    requires
        ratchet::find_key(keys, key.dh, key.n) is None,
    ensures
        keys.len() < 4000 ==> ratchet::add_key(keys, key) == keys.push(key),
        keys.len() == 4000 ==> ratchet::add_key(keys, key) == keys.subrange(1, 4000).push(key),
        ratchet::find_key(ratchet::add_key(keys, key), key.dh, key.n) == Some(key.mk),
{
    ratchet::lemma_key_index(keys, key.dh, key.n);
    let kept = if keys.len() >= MAX_SKIP_STORE {
        keys.drop_first()
    } else {
        keys
    };
    ratchet::lemma_key_index(kept, key.dh, key.n);
    let at = ratchet::key_index(kept, key.dh, key.n);
    if at >= 0 && keys.len() >= MAX_SKIP_STORE {
        assert(kept[at] == keys[at + 1]);
    }
    assert(keys.len() == 4000 ==> kept =~= keys.subrange(1, 4000));
}

/// A packet may make us derive a thousand keys and no more: one that leaves no more than
/// that many messages out is not refused for being too far ahead, and one on our chain
/// that leaves out more is.
pub proof fn law_a_thousand_may_be_skipped(m: RatchetModel, wire: Seq<u8>, fresh: Seq<u8>)
    requires
        ratchet::valid(m),
        wire.len() >= 40,
        m.ckr is Some,
        ratchet::find_key(m.skipped, ratchet::wire_dh(wire), ratchet::wire_n(wire)) is None,
        m.dhr == Some(wire.subrange(0, 32)),
    ensures
        ratchet::wire_n(wire) - m.nr > 1000 <==> ratchet::decrypt_step(m, wire, fresh) == Err::<
            (Seq<u8>, RatchetModel),
            ErrorKind,
        >(ErrorKind::TooManySkipped),
{
}

} // verus!
