//! What holds of a whole double-ratchet session, whatever its two ends send and
//! in whatever order it arrives.
use vstd::prelude::*;

use crate::bytes;
use crate::crypto;
use crate::ratchet;
use crate::ratchet::{RatchetModel, SkippedModel, MAX_SKIP, MAX_SKIP_STORE};
use crate::ratchet_laws;

verus! {

/// A message that an end has sent.
pub struct Sent {
    /// The ratchet key of its chain.
    pub dh: Seq<u8>,
    /// How many messages the chain before had.
    pub pn: int,
    /// Its index in the chain.
    pub n: int,
    /// The chain key that the chain starts with.
    pub ck0: Seq<u8>,
    pub plaintext: Seq<u8>,
    pub wire: Seq<u8>,
}

/// One end of a session, with all that it has sent and what it has opened.
pub struct Side {
    pub m: RatchetModel,
    /// The chain key that its sending chain started with.
    pub ck0: Seq<u8>,
    /// The messages that it has sent.
    pub sent: Seq<Sent>,
    /// The numbers of the messages of the other end that it has opened.
    pub got: Set<int>,
}

/// The message key of a message.
pub open spec fn own_key(e: Sent) -> Seq<u8> {
    ratchet::message_key(ratchet::chain_key(e.ck0, e.n as nat))
}

/// The public half of an end's ratchet secret.
pub open spec fn public_of(m: RatchetModel) -> Seq<u8> {
    crypto::x25519_public(m.dhs)
}

/// Whether `e` is a message that `y` sent, on its sending chain or on an earlier
/// one.
pub open spec fn logged(y: Side, e: Sent) -> bool {
    &&& ratchet_laws::chain_message(e.dh, e.ck0, e.pn, e.n, e.plaintext, e.wire)
    &&& 0 <= e.n < u32::MAX
    &&& e.dh == public_of(y.m) ==> e.ck0 == y.ck0 && e.n < y.m.ns && e.pn == y.m.pn
}

/// If `e` is of the chain that `x` receives on, that is the chain that `x` walks,
/// and if `y` has left that chain it is one of those that `y` counted there.
pub open spec fn chain_known(x: RatchetModel, y: RatchetModel, e: Sent) -> bool {
    x.dhr == Some(e.dh) ==> {
        &&& ratchet_laws::on_chain(x, e.dh, e.ck0)
        &&& x.dhr != Some(public_of(y)) ==> e.n < y.pn
    }
}

/// Whether `x` can still open the message `e` of `y`: its key is kept, or it is
/// ahead on the chain that `x` receives on, or on the next chain.
pub open spec fn waiting(x: RatchetModel, y: RatchetModel, e: Sent) -> bool {
    let kept = ratchet::find_key(x.skipped, e.dh, e.n);
    ||| kept == Some(own_key(e))
    ||| kept is None && ratchet_laws::on_chain(x, e.dh, e.ck0) && e.n >= x.nr
    ||| kept is None && x.dhr != Some(e.dh) && e.dh == public_of(y) && ratchet_laws::leads(y, x, e.ck0)
}

/// Whether `x` has left the message `e` of `y` behind.
pub open spec fn left_behind(x: RatchetModel, y: RatchetModel, e: Sent) -> bool {
    &&& ratchet::find_key(x.skipped, e.dh, e.n) is None
    &&& x.dhr == Some(e.dh) ==> e.n < x.nr
    &&& e.dh == public_of(y) ==> x.dhr == Some(e.dh)
}

/// Message `k` of `y` is as it should be for `x`.
pub open spec fn in_order(x: Side, y: Side, k: int) -> bool {
    let e = y.sent[k];
    &&& logged(y, e)
    &&& chain_known(x.m, y.m, e)
    &&& if x.got.contains(k) {
        left_behind(x.m, y.m, e)
    } else {
        waiting(x.m, y.m, e)
    }
}

/// Messages of one ratchet key are of one chain, and have different indices.
pub open spec fn apart(e: Sent, f: Sent) -> bool {
    e.dh == f.dh ==> e.ck0 == f.ck0 && e.n != f.n
}

/// The keys that `x` keeps are of chains that it has reached, and on the chain
/// that it receives on of messages that it has passed.
pub open spec fn store_sound(x: RatchetModel, y: RatchetModel) -> bool {
    forall|i: int|
        #![trigger x.skipped[i]]
        0 <= i < x.skipped.len() ==> {
            &&& x.dhr == Some(x.skipped[i].dh) ==> x.skipped[i].n < x.nr
            &&& x.skipped[i].dh == public_of(y) ==> x.dhr == Some(x.skipped[i].dh)
        }
}

/// All messages of `y` are as they should be for `x`.
pub open spec fn direction(x: Side, y: Side) -> bool {
    &&& forall|k: int| 0 <= k < y.sent.len() ==> #[trigger] in_order(x, y, k)
    &&& forall|j: int, k: int|
        #![trigger y.sent[j], y.sent[k]]
        0 <= j < y.sent.len() && 0 <= k < y.sent.len() && j != k ==> apart(y.sent[j], y.sent[k])
    &&& forall|k: int| #[trigger] x.got.contains(k) ==> 0 <= k < y.sent.len()
    &&& store_sound(x.m, y.m)
}

/// `x` has a sending chain that `y` has not seen, and is on that of `y`, if `y`
/// has one.
pub open spec fn leading(x: Side, y: Side) -> bool {
    &&& ratchet_laws::leads(x.m, y.m, x.ck0)
    &&& ratchet_laws::sends_on(x.m, x.ck0)
    &&& if y.m.cks is Some {
        &&& ratchet_laws::sends_on(y.m, y.ck0)
        &&& ratchet_laws::on_chain(x.m, public_of(y.m), y.ck0)
        &&& x.m.nr <= y.m.ns
    } else {
        &&& x.m.ckr is None
        &&& y.sent.len() == 0
    }
}

/// What holds of the two ends of a session at any time.
pub open spec fn in_session(x: Side, y: Side) -> bool {
    &&& ratchet::valid(x.m)
    &&& ratchet::valid(y.m)
    &&& direction(x, y)
    &&& direction(y, x)
    &&& leading(x, y) || leading(y, x)
}

// ---------------------------------------------------------------------------
// What happens
// ---------------------------------------------------------------------------

/// An end after it has sent a message.
pub open spec fn after_send(x: Side, plaintext: Seq<u8>) -> Side {
    match ratchet::encrypt_step(x.m, plaintext) {
        Ok((wire, after)) => Side {
            m: after,
            sent: x.sent.push(
                Sent { dh: public_of(x.m), pn: x.m.pn, n: x.m.ns, ck0: x.ck0, plaintext, wire },
            ),
            ..x
        },
        Err(_) => x,
    }
}

/// An end after message `k` of the other end has arrived. What is refused changes
/// nothing.
pub open spec fn after_get(x: Side, y: Side, k: int, fresh: Seq<u8>) -> Side {
    match ratchet::decrypt_step(x.m, y.sent[k].wire, fresh) {
        Ok((_, after)) => Side {
            m: after,
            ck0: if ratchet::wants_fresh(x.m, y.sent[k].wire) {
                after.cks->0
            } else {
                x.ck0
            },
            got: x.got.insert(k),
            ..x
        },
        Err(_) => x,
    }
}

/// Whether an end can take a message in: it does not make it derive more keys
/// than it may, nor keep more than it can.
pub open spec fn has_room(x: RatchetModel, wire: Seq<u8>) -> bool {
    ratchet::find_key(x.skipped, ratchet::wire_dh(wire), ratchet::wire_n(wire)) is None ==> {
        let flush = if ratchet::is_new_chain(x, wire) {
            ratchet::flushed(x, wire).len()
        } else {
            0
        };
        let ahead = if ratchet::is_new_chain(x, wire) {
            ratchet::gap(0, ratchet::wire_n(wire))
        } else {
            ratchet::gap(x.nr, ratchet::wire_n(wire))
        };
        &&& ratchet::is_new_chain(x, wire) ==> ratchet::gap(x.nr, ratchet::wire_pn(wire)) <= MAX_SKIP
        &&& flush + ahead <= MAX_SKIP
        &&& x.skipped.len() + flush + ahead <= MAX_SKIP_STORE
    }
}

/// Whether `fresh` is a ratchet secret: it and its public key have the length of a
/// key, and agreement with the holder of `dh` works from either side. That is so
/// of whatever is drawn.
pub open spec fn is_secret(fresh: Seq<u8>, dh: Seq<u8>) -> bool {
    &&& fresh.len() == 32
    &&& crypto::x25519_public(fresh).len() == 32
    &&& crypto::agreement_commutes(fresh, dh)
}

/// Whether a ratchet key has not come in a session before.
pub open spec fn is_new_key(public: Seq<u8>, x: Side, y: Side) -> bool {
    &&& public != public_of(x.m)
    &&& forall|k: int| 0 <= k < x.sent.len() ==> (#[trigger] x.sent[k]).dh != public
    &&& forall|i: int| 0 <= i < y.m.skipped.len() ==> (#[trigger] y.m.skipped[i]).dh != public
}

// ---------------------------------------------------------------------------
// The store of skipped keys
// ---------------------------------------------------------------------------

/// Where no kept key is of a message, none is found.
proof fn lemma_find_none(keys: Seq<SkippedModel>, dh: Seq<u8>, n: int)
    requires
        forall|i: int| #![trigger keys[i]] 0 <= i < keys.len() ==> !(keys[i].dh == dh && keys[i].n == n),
    ensures
        ratchet::find_key(keys, dh, n) is None,
{
    ratchet::lemma_key_index(keys, dh, n);
}

/// Where a key is found, it is one of those kept.
proof fn lemma_find_some(keys: Seq<SkippedModel>, dh: Seq<u8>, n: int) -> (i: int)
    requires
        ratchet::find_key(keys, dh, n) is Some,
    ensures
        0 <= i < keys.len(),
        keys[i].dh == dh,
        keys[i].n == n,
        ratchet::find_key(keys, dh, n) == Some(keys[i].mk),
{
    ratchet::lemma_key_index(keys, dh, n);
    ratchet::key_index(keys, dh, n)
}

/// All kept keys have a property if all did before and all new ones do.
proof fn lemma_add_keys_all(keys: Seq<SkippedModel>, new: Seq<SkippedModel>, p: spec_fn(SkippedModel) -> bool)
    requires
        forall|i: int| #![trigger keys[i]] 0 <= i < keys.len() ==> p(keys[i]),
        forall|i: int| #![trigger new[i]] 0 <= i < new.len() ==> p(new[i]),
    ensures
        forall|i: int|
            #![trigger ratchet::add_keys(keys, new)[i]]
            0 <= i < ratchet::add_keys(keys, new).len() ==> p(ratchet::add_keys(keys, new)[i]),
    decreases new.len(),
{
    if new.len() > 0 {
        let shorter = new.drop_last();
        let key = new.last();
        assert forall|i: int| #![trigger shorter[i]] 0 <= i < shorter.len() implies p(shorter[i]) by {
            assert(shorter[i] == new[i]);
        }
        lemma_add_keys_all(keys, shorter, p);
        let mid = ratchet::add_keys(keys, shorter);
        let kept = if mid.len() >= MAX_SKIP_STORE {
            mid.drop_first()
        } else {
            mid
        };
        ratchet::lemma_key_index(kept, key.dh, key.n);
        let at = ratchet::key_index(kept, key.dh, key.n);
        let rest = ratchet::drop_key(kept, key.dh, key.n);
        let out = ratchet::add_keys(keys, new);
        assert(p(new[new.len() - 1]));
        assert forall|i: int| #![trigger kept[i]] 0 <= i < kept.len() implies p(kept[i]) by {
            if mid.len() >= MAX_SKIP_STORE {
                assert(kept[i] == mid[i + 1]);
            } else {
                assert(kept[i] == mid[i]);
            }
        }
        assert forall|i: int| #![trigger out[i]] 0 <= i < out.len() implies p(out[i]) by {
            if i < rest.len() {
                assert(out[i] == rest[i]);
                if at >= 0 && i >= at {
                    assert(rest[i] == kept[i + 1]);
                } else {
                    assert(rest[i] == kept[i]);
                }
            }
        }
    }
}

/// Without the key of one message, the keys of all others are found as before,
/// and that one is not.
proof fn lemma_drop_key(keys: Seq<SkippedModel>, dh: Seq<u8>, n: int)
    requires
        ratchet::keys_distinct(keys),
        ratchet::find_key(keys, dh, n) is Some,
    ensures
        ({
            let out = ratchet::drop_key(keys, dh, n);
            &&& ratchet::keys_distinct(out)
            &&& out.len() < keys.len()
            &&& ratchet::find_key(out, dh, n) is None
            &&& forall|i: int| #![trigger out[i]] 0 <= i < out.len() ==> keys.contains(out[i])
            &&& forall|d: Seq<u8>, m: int|
                !(d == dh && m == n) ==> #[trigger] ratchet::find_key(out, d, m) == ratchet::find_key(keys, d, m)
        }),
{
    ratchet::lemma_key_index(keys, dh, n);
    let at = ratchet::key_index(keys, dh, n);
    let out = ratchet::drop_key(keys, dh, n);
    assert forall|i: int| 0 <= i < out.len() implies #[trigger] out[i] == keys[if i < at {
        i
    } else {
        i + 1
    }] by {}
    assert forall|i: int| #![trigger out[i]] 0 <= i < out.len() implies keys.contains(out[i]) by {
        let k = if i < at {
            i
        } else {
            i + 1
        };
        assert(out[i] == keys[k]);
    }
    assert forall|i: int, j: int| #![trigger out[i], out[j]] 0 <= i < j < out.len() implies !(out[i].dh == out[j].dh
        && out[i].n == out[j].n) by {
        let ki = if i < at {
            i
        } else {
            i + 1
        };
        let kj = if j < at {
            j
        } else {
            j + 1
        };
        assert(out[i] == keys[ki] && out[j] == keys[kj]);
    }
    assert forall|i: int| #![trigger out[i]] 0 <= i < out.len() implies !(out[i].dh == dh && out[i].n == n) by {
        let k = if i < at {
            i
        } else {
            i + 1
        };
        assert(out[i] == keys[k]);
        assert(keys[at].dh == dh && keys[at].n == n);
    }
    lemma_find_none(out, dh, n);
    assert forall|d: Seq<u8>, m: int| !(d == dh && m == n) implies #[trigger] ratchet::find_key(out, d, m)
        == ratchet::find_key(keys, d, m) by {
        if ratchet::find_key(keys, d, m) is Some {
            let i = lemma_find_some(keys, d, m);
            let o = if i < at {
                i
            } else {
                i - 1
            };
            assert(out[o] == keys[i]);
            ratchet_laws::lemma_find(out, o);
        } else {
            assert forall|i: int| #![trigger out[i]] 0 <= i < out.len() implies !(out[i].dh == d && out[i].n == m) by {
                if out[i].dh == d && out[i].n == m {
                    let k = if i < at {
                        i
                    } else {
                        i + 1
                    };
                    assert(out[i] == keys[k]);
                    ratchet_laws::lemma_find(keys, k);
                }
            }
            lemma_find_none(out, d, m);
        }
    }
}

/// Where a store has room and no new key is of a message, the key of that message
/// is found as before, or still not.
proof fn lemma_add_keys_other(keys: Seq<SkippedModel>, new: Seq<SkippedModel>, dh: Seq<u8>, n: int)
    requires
        ratchet::keys_distinct(keys),
        keys.len() + new.len() <= MAX_SKIP_STORE,
        forall|i: int| 0 <= i < new.len() ==> !((#[trigger] new[i]).dh == dh && new[i].n == n),
    ensures
        ratchet::find_key(ratchet::add_keys(keys, new), dh, n) == ratchet::find_key(keys, dh, n),
{
    if ratchet::find_key(keys, dh, n) is Some {
        ratchet_laws::lemma_add_keys_keeps(keys, new, dh, n);
    } else {
        let p = |k: SkippedModel| !(k.dh == dh && k.n == n);
        assert forall|i: int| #![trigger keys[i]] 0 <= i < keys.len() implies p(keys[i]) by {
            if keys[i].dh == dh && keys[i].n == n {
                ratchet_laws::lemma_find(keys, i);
            }
        }
        lemma_add_keys_all(keys, new, p);
        let out = ratchet::add_keys(keys, new);
        assert forall|i: int| #![trigger out[i]] 0 <= i < out.len() implies !(out[i].dh == dh && out[i].n == n) by {
            assert(p(out[i]));
        }
        lemma_find_none(out, dh, n);
    }
}

// ---------------------------------------------------------------------------
// One step of a session
// ---------------------------------------------------------------------------

/// A session goes on when an end sends.
proof fn lemma_send(x: Side, y: Side, plaintext: Seq<u8>)
    requires
        in_session(x, y),
        sends_well(x, plaintext),
    ensures
        in_session(after_send(x, plaintext), y),
{
    let out = after_send(x, plaintext);
    let e = out.sent.last();
    let k = x.sent.len() as int;
    assert(ratchet_laws::sends_on(x.m, x.ck0));
    assert(out.sent[k] == e);
    assert(logged(out, e));
    assert(ratchet_laws::leads(x.m, y.m, x.ck0) == ratchet_laws::leads(out.m, y.m, x.ck0));
    assert forall|i: int| 0 <= i < out.sent.len() implies #[trigger] in_order(y, out, i) by {
        if i < k {
            assert(out.sent[i] == x.sent[i]);
            assert(in_order(y, x, i));
        } else {
            assert(!y.got.contains(k));
            lemma_find_none(y.m.skipped, e.dh, e.n);
        }
    }
    assert forall|i: int, j: int|
        #![trigger out.sent[i], out.sent[j]]
        0 <= i < out.sent.len() && 0 <= j < out.sent.len() && i != j implies apart(out.sent[i], out.sent[j]) by {
        if i < k {
            assert(out.sent[i] == x.sent[i]);
            assert(in_order(y, x, i));
        }
        if j < k {
            assert(out.sent[j] == x.sent[j]);
            assert(in_order(y, x, j));
        }
    }
    assert forall|i: int| 0 <= i < y.sent.len() implies #[trigger] in_order(out, y, i) by {
        assert(in_order(x, y, i));
    }
}

/// Whether an end can send a plaintext, and gets a message from which its key
/// gets the plaintext back: what encrypting promises.
pub open spec fn sends_well(x: Side, plaintext: Seq<u8>) -> bool {
    ratchet::encrypt_step(x.m, plaintext) matches Ok((wire, _)) && ratchet::genuine(
        public_of(x.m),
        x.m.pn,
        x.m.ns,
        ratchet::message_key(x.m.cks->0),
        plaintext,
        wire,
    )
}

/// Whether the messages of `x` are as they should be for `y` rests on what `x`
/// sends with, not on what it receives with.
proof fn lemma_other_direction(x: Side, out: Side, y: Side)
    requires
        direction(y, x),
        out.sent == x.sent,
        out.ck0 == x.ck0,
        out.m.dhs == x.m.dhs,
        out.m.dhr == x.m.dhr,
        out.m.rk == x.m.rk,
        out.m.ns == x.m.ns,
        out.m.pn == x.m.pn,
    ensures
        direction(y, out),
{
    assert forall|k: int| 0 <= k < out.sent.len() implies #[trigger] in_order(y, out, k) by {
        assert(in_order(y, x, k));
    }
}

/// A session goes on when a message arrives whose key was kept.
proof fn lemma_get_late(x: Side, y: Side, k: int, fresh: Seq<u8>)
    requires
        in_session(x, y),
        0 <= k < y.sent.len(),
        !x.got.contains(k),
        ratchet::find_key(x.m.skipped, y.sent[k].dh, y.sent[k].n) is Some,
    ensures
        opens_well(x, y, k, fresh),
        in_session(after_get(x, y, k, fresh), y),
{
    let e = y.sent[k];
    assert(in_order(x, y, k));
    ratchet_laws::law_late_message_opens(x.m, e.dh, e.ck0, e.pn, e.n, e.plaintext, e.wire, fresh);
    let out = after_get(x, y, k, fresh);
    lemma_drop_key(x.m.skipped, e.dh, e.n);
    lemma_other_direction(x, out, y);
    assert(store_sound(out.m, y.m)) by {
        assert forall|i: int| #![trigger out.m.skipped[i]] 0 <= i < out.m.skipped.len() implies ({
            &&& out.m.dhr == Some(out.m.skipped[i].dh) ==> out.m.skipped[i].n < out.m.nr
            &&& out.m.skipped[i].dh == public_of(y.m) ==> out.m.dhr == Some(out.m.skipped[i].dh)
        }) by {
            assert(x.m.skipped.contains(out.m.skipped[i]));
            let j = choose|j: int| 0 <= j < x.m.skipped.len() && x.m.skipped[j] == out.m.skipped[i];
            assert(x.m.skipped[j] == out.m.skipped[i]);
        }
    }
    let at = lemma_find_some(x.m.skipped, e.dh, e.n);
    assert forall|i: int| 0 <= i < y.sent.len() implies #[trigger] in_order(out, y, i) by {
        assert(in_order(x, y, i));
        let f = y.sent[i];
        if i != k {
            assert(apart(y.sent[i], y.sent[k]));
            assert(ratchet::find_key(out.m.skipped, f.dh, f.n) == ratchet::find_key(x.m.skipped, f.dh, f.n));
        } else {
            assert(x.m.skipped[at].dh == e.dh);
        }
    }
}

/// Whether message `k` of `y` opens to its plaintext for `x`.
pub open spec fn opens_well(x: Side, y: Side, k: int, fresh: Seq<u8>) -> bool {
    ratchet::decrypt_step(x.m, y.sent[k].wire, fresh) matches Ok((out, _)) && out == y.sent[k].plaintext
}

/// A session goes on when a message of the chain arrives that an end receives on.
proof fn lemma_get_on_chain(x: Side, y: Side, k: int, fresh: Seq<u8>)
    requires
        in_session(x, y),
        0 <= k < y.sent.len(),
        !x.got.contains(k),
        ratchet::find_key(x.m.skipped, y.sent[k].dh, y.sent[k].n) is None,
        x.m.dhr == Some(y.sent[k].dh),
        has_room(x.m, y.sent[k].wire),
    ensures
        opens_well(x, y, k, fresh),
        in_session(after_get(x, y, k, fresh), y),
{
    let e = y.sent[k];
    assert(in_order(x, y, k));
    ratchet_laws::law_chain_message_opens(x.m, e.dh, e.ck0, e.pn, e.n, e.plaintext, e.wire, fresh);
    let out = after_get(x, y, k, fresh);
    let run = ratchet::skipped_run(e.dh, x.m.nr, x.m.ckr->0, ratchet::gap(x.m.nr, e.n));
    assert(Seq::<SkippedModel>::empty() + run =~= run);
    assert(out.m.skipped == ratchet::add_keys(x.m.skipped, run));
    assert(ratchet::keys_distinct(run));
    ratchet_laws::lemma_add_keys(x.m.skipped, run);
    lemma_other_direction(x, out, y);
    let p = |key: SkippedModel|
        {
            &&& out.m.dhr == Some(key.dh) ==> key.n < out.m.nr
            &&& key.dh == public_of(y.m) ==> out.m.dhr == Some(key.dh)
        };
    lemma_add_keys_all(x.m.skipped, run, p);
    assert(store_sound(out.m, y.m)) by {
        assert forall|i: int| #![trigger out.m.skipped[i]] 0 <= i < out.m.skipped.len() implies p(out.m.skipped[i]) by {}
    }
    assert forall|i: int| 0 <= i < y.sent.len() implies #[trigger] in_order(out, y, i) by {
        assert(in_order(x, y, i));
        let f = y.sent[i];
        if i != k {
            assert(apart(y.sent[i], y.sent[k]));
        }
        if f.dh == e.dh && x.m.nr <= f.n < e.n {
            assert(ratchet::find_key(out.m.skipped, e.dh, f.n) == Some(
                ratchet::message_key(ratchet::chain_key(e.ck0, f.n as nat)),
            ));
            assert(!x.got.contains(i));
        } else {
            assert forall|j: int| 0 <= j < run.len() implies !((#[trigger] run[j]).dh == f.dh && run[j].n == f.n) by {}
            lemma_add_keys_other(x.m.skipped, run, f.dh, f.n);
        }
    }
}

/// A session goes on when the first message of a new chain arrives. The lead
/// changes.
proof fn lemma_get_new_chain(x: Side, y: Side, k: int, fresh: Seq<u8>)
    requires
        in_session(x, y),
        0 <= k < y.sent.len(),
        !x.got.contains(k),
        ratchet::find_key(x.m.skipped, y.sent[k].dh, y.sent[k].n) is None,
        x.m.dhr != Some(y.sent[k].dh),
        has_room(x.m, y.sent[k].wire),
        is_new_key(crypto::x25519_public(fresh), x, y),
        is_secret(fresh, y.sent[k].dh),
    ensures
        opens_well(x, y, k, fresh),
        in_session(after_get(x, y, k, fresh), y),
{
    let e = y.sent[k];
    assert(in_order(x, y, k));
    assert(e.dh == public_of(y.m) && ratchet_laws::leads(y.m, x.m, e.ck0));
    assert(!leading(x, y));
    assert(leading(y, x));
    assert(e.ck0 == y.ck0);
    ratchet_laws::law_new_chain_message_opens(y.m, x.m, e.ck0, e.pn, e.n, e.plaintext, e.wire, fresh);
    let out = after_get(x, y, k, fresh);
    let stepped = ratchet::ratchet_step(x.m, e.wire, fresh);
    let first = ratchet::flushed(x.m, e.wire);
    let run = ratchet::skipped_run(e.dh, 0, stepped.ckr->0, ratchet::gap(0, e.n));
    let new = first + run;
    assert(out.m.skipped == ratchet::add_keys(x.m.skipped, new));
    assert(ratchet::keys_distinct(new)) by {
        assert forall|i: int, j: int| #![trigger new[i], new[j]] 0 <= i < j < new.len() implies !(new[i].dh
            == new[j].dh && new[i].n == new[j].n) by {
            if j < first.len() {
                assert(new[i] == first[i] && new[j] == first[j]);
            } else if i < first.len() {
                assert(new[i] == first[i] && new[j] == run[j - first.len()]);
            } else {
                assert(new[i] == run[i - first.len()] && new[j] == run[j - first.len()]);
            }
        }
    }
    ratchet_laws::lemma_add_keys(x.m.skipped, new);
    assert(ratchet::valid(out.m));
    assert(out.ck0 == out.m.cks->0);
    assert(out.m.ns == 0 && out.m.pn == x.m.ns && out.m.dhs == fresh);
    assert(ratchet_laws::leads(out.m, y.m, out.ck0));
    assert(leading(out, y));
    assert forall|j: int| 0 <= j < new.len() implies ({
        ||| (#[trigger] new[j]).dh == e.dh && 0 <= new[j].n < e.n
        ||| x.m.dhr == Some(new[j].dh) && x.m.ckr is Some && x.m.nr <= new[j].n < e.pn
    }) by {
        if j < first.len() {
            assert(new[j] == first[j]);
        } else {
            assert(new[j] == run[j - first.len()]);
        }
    }
    let p = |key: SkippedModel|
        {
            &&& out.m.dhr == Some(key.dh) ==> key.n < out.m.nr
            &&& key.dh == public_of(y.m) ==> out.m.dhr == Some(key.dh)
        };
    lemma_add_keys_all(x.m.skipped, new, p);
    assert(store_sound(out.m, y.m)) by {
        assert forall|i: int| #![trigger out.m.skipped[i]] 0 <= i < out.m.skipped.len() implies p(out.m.skipped[i]) by {}
    }
    assert forall|i: int| 0 <= i < y.sent.len() implies #[trigger] in_order(out, y, i) by {
        assert(in_order(x, y, i));
        let f = y.sent[i];
        if i != k {
            assert(apart(y.sent[i], y.sent[k]));
        }
        if f.dh == e.dh && f.n < e.n {
            assert(ratchet::find_key(out.m.skipped, e.dh, f.n) == Some(
                ratchet::message_key(ratchet::chain_key(e.ck0, f.n as nat)),
            ));
            assert(!x.got.contains(i));
        } else if x.m.dhr == Some(f.dh) && x.m.ckr is Some && x.m.nr <= f.n < e.pn {
            assert(ratchet::find_key(out.m.skipped, x.m.dhr->0, f.n) == Some(
                ratchet::message_key(ratchet::chain_key(x.m.ckr->0, (f.n - x.m.nr) as nat)),
            ));
            ratchet_laws::lemma_chain_key_sum(f.ck0, x.m.nr as nat, (f.n - x.m.nr) as nat);
            assert(!x.got.contains(i));
        } else {
            assert forall|j: int| 0 <= j < new.len() implies !((#[trigger] new[j]).dh == f.dh && new[j].n == f.n) by {}
            lemma_add_keys_other(x.m.skipped, new, f.dh, f.n);
        }
    }
    assert forall|i: int| 0 <= i < out.sent.len() implies #[trigger] in_order(y, out, i) by {
        assert(in_order(y, x, i));
        assert(x.sent[i].dh != public_of(out.m));
    }
    assert(store_sound(y.m, out.m)) by {
        assert forall|i: int| #![trigger y.m.skipped[i]] 0 <= i < y.m.skipped.len() implies y.m.skipped[i].dh
            != public_of(out.m) by {}
    }
}

// ---------------------------------------------------------------------------
// A whole session
// ---------------------------------------------------------------------------

/// The two ends of a session.
pub struct Pair {
    pub first: Side,
    pub second: Side,
}

/// What can happen in a session.
pub enum Happening {
    /// An end sends a plaintext.
    FirstSends(Seq<u8>),
    SecondSends(Seq<u8>),
    /// Message `k` of the other end arrives, for the first time or again, with
    /// `fresh` as the ratchet secret to go on with.
    FirstGets { k: int, fresh: Seq<u8> },
    SecondGets { k: int, fresh: Seq<u8> },
    /// Something arrives that the other end has not sent.
    FirstGetsOther { wire: Seq<u8>, fresh: Seq<u8> },
    SecondGetsOther { wire: Seq<u8>, fresh: Seq<u8> },
}

/// An end after something has arrived that the other end has not sent.
pub open spec fn after_other(x: Side, wire: Seq<u8>, fresh: Seq<u8>) -> Side {
    match ratchet::decrypt_step(x.m, wire, fresh) {
        Ok((_, after)) => Side { m: after, ..x },
        Err(_) => x,
    }
}

/// The session after one happening.
pub open spec fn after_one(p: Pair, h: Happening) -> Pair {
    match h {
        Happening::FirstSends(plaintext) => Pair { first: after_send(p.first, plaintext), ..p },
        Happening::SecondSends(plaintext) => Pair { second: after_send(p.second, plaintext), ..p },
        Happening::FirstGets { k, fresh } => Pair { first: after_get(p.first, p.second, k, fresh), ..p },
        Happening::SecondGets { k, fresh } => Pair { second: after_get(p.second, p.first, k, fresh), ..p },
        Happening::FirstGetsOther { wire, fresh } => Pair { first: after_other(p.first, wire, fresh), ..p },
        Happening::SecondGetsOther { wire, fresh } => Pair { second: after_other(p.second, wire, fresh), ..p },
    }
}

/// The session after some happenings.
pub open spec fn after_all(p: Pair, happened: Seq<Happening>) -> Pair
    decreases happened.len(),
{
    if happened.len() == 0 {
        p
    } else {
        after_one(after_all(p, happened.drop_last()), happened.last())
    }
}

/// The message key that an end tries on a message: the one that it keeps for it, or
/// else the one that it derives.
pub open spec fn tried_key(m: RatchetModel, wire: Seq<u8>) -> Seq<u8> {
    if ratchet::find_key(m.skipped, ratchet::wire_dh(wire), ratchet::wire_n(wire)) is Some {
        ratchet::find_key(m.skipped, ratchet::wire_dh(wire), ratchet::wire_n(wire))->0
    } else if ratchet::is_new_chain(m, wire) {
        let start = ratchet::root_step(m.rk, crypto::x25519_shared(m.dhs, ratchet::wire_dh(wire))).1;
        ratchet::message_key(ratchet::chain_key(start, ratchet::gap(0, ratchet::wire_n(wire))))
    } else {
        ratchet::message_key(ratchet::chain_key(m.ckr->0, ratchet::gap(m.nr, ratchet::wire_n(wire))))
    }
}

/// Whether an end has a key to try on a message at all.
pub open spec fn has_key_for(m: RatchetModel, wire: Seq<u8>) -> bool {
    &&& wire.len() >= ratchet::HEADER_LEN
    &&& {
        ||| ratchet::find_key(m.skipped, ratchet::wire_dh(wire), ratchet::wire_n(wire)) is Some
        ||| ratchet::is_new_chain(m, wire)
        ||| m.ckr is Some
    }
}

/// Whether the one key that an end tries on a message, if any, does not open it.
pub open spec fn stays_shut(m: RatchetModel, wire: Seq<u8>) -> bool {
    has_key_for(m, wire) ==> ratchet::open_message(
        tried_key(m, wire),
        wire.subrange(0, 40),
        wire.subrange(40, wire.len() as int),
    ) is None
}

/// What the tried key does not open is refused.
proof fn lemma_shut_is_refused(m: RatchetModel, wire: Seq<u8>, fresh: Seq<u8>)
    requires
        stays_shut(m, wire),
    ensures
        ratchet::decrypt_step(m, wire, fresh) is Err,
{
}

/// Whether message `k` of `y` may arrive at `x`. For the first time: there is room
/// for what it makes `x` derive, and where a ratchet secret is drawn it is new.
/// Again: the key that `x` then tries on it is not one that opens it.
pub open spec fn may_get(x: Side, y: Side, k: int, fresh: Seq<u8>) -> bool {
    let wire = y.sent[k].wire;
    &&& 0 <= k < y.sent.len()
    &&& if x.got.contains(k) {
        stays_shut(x.m, y.sent[k].wire)
    } else {
        &&& has_room(x.m, wire)
        &&& ratchet::wants_fresh(x.m, wire) ==> is_secret(fresh, y.sent[k].dh) && is_new_key(
            crypto::x25519_public(fresh),
            x,
            y,
        )
    }
}

/// Whether something may happen. What an end has not sent does not open under the
/// key that is tried on it.
pub open spec fn may_happen(p: Pair, h: Happening) -> bool {
    match h {
        Happening::FirstSends(plaintext) => sends_well(p.first, plaintext),
        Happening::SecondSends(plaintext) => sends_well(p.second, plaintext),
        Happening::FirstGets { k, fresh } => may_get(p.first, p.second, k, fresh),
        Happening::SecondGets { k, fresh } => may_get(p.second, p.first, k, fresh),
        Happening::FirstGetsOther { wire, fresh } => stays_shut(p.first.m, wire),
        Happening::SecondGetsOther { wire, fresh } => stays_shut(p.second.m, wire),
    }
}

/// Whether all of this may happen, one after the other.
pub open spec fn may_all_happen(p: Pair, happened: Seq<Happening>) -> bool
    decreases happened.len(),
{
    happened.len() == 0 || {
        &&& may_all_happen(p, happened.drop_last())
        &&& may_happen(after_all(p, happened.drop_last()), happened.last())
    }
}

/// The two ends at the start: the first is the initiator, with the responder's
/// ratchet key.
pub open spec fn started(a: Seq<u8>, b: Seq<u8>, shared_root: Seq<u8>) -> Pair {
    let first = ratchet::alice_model(a, shared_root, crypto::x25519_public(b));
    Pair {
        first: Side { m: first, ck0: first.cks->0, sent: Seq::empty(), got: Set::empty() },
        second: Side {
            m: ratchet::bob_model(b, shared_root),
            ck0: Seq::empty(),
            sent: Seq::empty(),
            got: Set::empty(),
        },
    }
}

/// What comes of message `k` of `y` at `x`: the first time its plaintext, and
/// after that a refusal.
pub open spec fn opens_once(x: Side, y: Side, k: int, fresh: Seq<u8>) -> bool {
    if x.got.contains(k) {
        ratchet::decrypt_step(x.m, y.sent[k].wire, fresh) is Err
    } else {
        opens_well(x, y, k, fresh)
    }
}

/// A session goes on when a message arrives, and the message opens once.
proof fn lemma_get(x: Side, y: Side, k: int, fresh: Seq<u8>)
    requires
        in_session(x, y),
        may_get(x, y, k, fresh),
    ensures
        opens_once(x, y, k, fresh),
        in_session(after_get(x, y, k, fresh), y),
{
    let e = y.sent[k];
    assert(in_order(x, y, k));
    if x.got.contains(k) {
        lemma_shut_is_refused(x.m, e.wire, fresh);
    } else if ratchet::find_key(x.m.skipped, e.dh, e.n) is Some {
        lemma_get_late(x, y, k, fresh);
    } else if x.m.dhr == Some(e.dh) {
        lemma_get_on_chain(x, y, k, fresh);
    } else {
        lemma_get_new_chain(x, y, k, fresh);
    }
}

/// The two ends stay in session, whatever happens.
proof fn lemma_stays_in_session(a: Seq<u8>, b: Seq<u8>, shared_root: Seq<u8>, happened: Seq<Happening>)
    requires
        ratchet::valid(started(a, b, shared_root).first.m),
        ratchet::valid(started(a, b, shared_root).second.m),
        may_all_happen(started(a, b, shared_root), happened),
    ensures
        in_session(
            after_all(started(a, b, shared_root), happened).first,
            after_all(started(a, b, shared_root), happened).second,
        ),
    decreases happened.len(),
{
    let start = started(a, b, shared_root);
    if happened.len() == 0 {
        ratchet_laws::law_start_in_step(a, b, shared_root);
    } else {
        lemma_stays_in_session(a, b, shared_root, happened.drop_last());
        let p = after_all(start, happened.drop_last());
        match happened.last() {
            Happening::FirstSends(plaintext) => {
                lemma_send(p.first, p.second, plaintext);
            },
            Happening::SecondSends(plaintext) => {
                lemma_send(p.second, p.first, plaintext);
            },
            Happening::FirstGets { k, fresh } => {
                lemma_get(p.first, p.second, k, fresh);
            },
            Happening::SecondGets { k, fresh } => {
                lemma_get(p.second, p.first, k, fresh);
            },
            Happening::FirstGetsOther { wire, fresh } => {
                lemma_shut_is_refused(p.first.m, wire, fresh);
            },
            Happening::SecondGetsOther { wire, fresh } => {
                lemma_shut_is_refused(p.second.m, wire, fresh);
            },
        }
    }
}

/// Every message of a session opens exactly once, at either end. Whatever the two
/// ends have sent and in whatever order it has arrived, late, out of order and
/// across any number of new chains: a message that arrives for the first time
/// opens to its plaintext, and one that arrives again is refused. What the other
/// end has not sent, and what was altered on the way, is refused and takes
/// nothing away: the message itself still opens. This holds as long as no packet
/// asks for more skipped keys than there is room for, ratchet keys do not repeat,
/// and neither what arrives again nor what the other end has not sent opens under
/// the one key that is tried on it.
pub proof fn law_session_delivers(
    a: Seq<u8>,
    b: Seq<u8>,
    shared_root: Seq<u8>,
    happened: Seq<Happening>,
    next: Happening,
)
    requires
        ratchet::valid(started(a, b, shared_root).first.m),
        ratchet::valid(started(a, b, shared_root).second.m),
        may_all_happen(started(a, b, shared_root), happened),
        may_happen(after_all(started(a, b, shared_root), happened), next),
    ensures
        ({
            let p = after_all(started(a, b, shared_root), happened);
            match next {
                Happening::FirstGets { k, fresh } => opens_once(p.first, p.second, k, fresh),
                Happening::SecondGets { k, fresh } => opens_once(p.second, p.first, k, fresh),
                Happening::FirstGetsOther { wire, fresh } => {
                    &&& ratchet::decrypt_step(p.first.m, wire, fresh) is Err
                    &&& after_one(p, next) == p
                },
                Happening::SecondGetsOther { wire, fresh } => {
                    &&& ratchet::decrypt_step(p.second.m, wire, fresh) is Err
                    &&& after_one(p, next) == p
                },
                _ => true,
            }
        }),
{
    lemma_stays_in_session(a, b, shared_root, happened);
    let p = after_all(started(a, b, shared_root), happened);
    match next {
        Happening::FirstGets { k, fresh } => {
            lemma_get(p.first, p.second, k, fresh);
        },
        Happening::SecondGets { k, fresh } => {
            lemma_get(p.second, p.first, k, fresh);
        },
        Happening::FirstGetsOther { wire, fresh } => {
            lemma_shut_is_refused(p.first.m, wire, fresh);
        },
        Happening::SecondGetsOther { wire, fresh } => {
            lemma_shut_is_refused(p.second.m, wire, fresh);
        },
        _ => {},
    }
}

// ---------------------------------------------------------------------------
// A session whose messages arrive in order
// ---------------------------------------------------------------------------

/// What can happen in a session on a connection that keeps the order.
pub enum Ordered {
    FirstSends(Seq<u8>),
    SecondSends(Seq<u8>),
    /// The next message of the other end arrives.
    FirstGets { fresh: Seq<u8> },
    SecondGets { fresh: Seq<u8> },
}

/// The two ends of a session, and how many messages have arrived at each.
pub struct Exchange {
    pub p: Pair,
    pub first_got: int,
    pub second_got: int,
}

/// What happens, with the number of the message that arrives.
pub open spec fn numbered(x: Exchange, o: Ordered) -> Happening {
    match o {
        Ordered::FirstSends(plaintext) => Happening::FirstSends(plaintext),
        Ordered::SecondSends(plaintext) => Happening::SecondSends(plaintext),
        Ordered::FirstGets { fresh } => Happening::FirstGets { k: x.first_got, fresh },
        Ordered::SecondGets { fresh } => Happening::SecondGets { k: x.second_got, fresh },
    }
}

/// The session after one more happening.
pub open spec fn ordered_one(x: Exchange, o: Ordered) -> Exchange {
    Exchange {
        p: after_one(x.p, numbered(x, o)),
        first_got: x.first_got + if o is FirstGets {
            1int
        } else {
            0int
        },
        second_got: x.second_got + if o is SecondGets {
            1int
        } else {
            0int
        },
    }
}

/// The session after some happenings.
pub open spec fn ordered_all(x: Exchange, happened: Seq<Ordered>) -> Exchange
    decreases happened.len(),
{
    if happened.len() == 0 {
        x
    } else {
        ordered_one(ordered_all(x, happened.drop_last()), happened.last())
    }
}

/// Whether message `k` of `y` may arrive at `x` next: it was sent, and where a
/// ratchet secret is drawn it is new.
pub open spec fn may_get_next(x: Side, y: Side, k: int, fresh: Seq<u8>) -> bool {
    &&& 0 <= k < y.sent.len()
    &&& ratchet::wants_fresh(x.m, y.sent[k].wire) ==> is_secret(fresh, y.sent[k].dh) && is_new_key(
        crypto::x25519_public(fresh),
        x,
        y,
    )
}

/// Whether something may happen next.
pub open spec fn may_come(x: Exchange, o: Ordered) -> bool {
    match o {
        Ordered::FirstSends(plaintext) => sends_well(x.p.first, plaintext),
        Ordered::SecondSends(plaintext) => sends_well(x.p.second, plaintext),
        Ordered::FirstGets { fresh } => may_get_next(x.p.first, x.p.second, x.first_got, fresh),
        Ordered::SecondGets { fresh } => may_get_next(x.p.second, x.p.first, x.second_got, fresh),
    }
}

/// Whether all of this may happen, one after the other.
pub open spec fn may_all_come(x: Exchange, happened: Seq<Ordered>) -> bool
    decreases happened.len(),
{
    happened.len() == 0 || {
        &&& may_all_come(x, happened.drop_last())
        &&& may_come(ordered_all(x, happened.drop_last()), happened.last())
    }
}

/// The two ends at the start of an exchange.
pub open spec fn opened(a: Seq<u8>, b: Seq<u8>, shared_root: Seq<u8>) -> Exchange {
    Exchange { p: started(a, b, shared_root), first_got: 0, second_got: 0 }
}

/// Message `k` of `y` is the next of its chain, or the first of a chain that
/// follows one with as many messages as it says.
pub open spec fn in_sequence(y: Side, k: int) -> bool {
    let e = y.sent[k];
    if k > 0 && y.sent[k - 1].dh == e.dh {
        e.n == y.sent[k - 1].n + 1
    } else {
        e.n == 0 && e.pn == (if k > 0 {
            y.sent[k - 1].n + 1
        } else {
            0
        })
    }
}

/// The messages of `y` are numbered without a gap, and `y` counts on from the last.
pub open spec fn numbered_well(y: Side) -> bool {
    &&& forall|k: int| 0 <= k < y.sent.len() ==> #[trigger] in_sequence(y, k)
    &&& if y.sent.len() == 0 {
        y.m.ns == 0 && y.m.pn == 0
    } else if y.sent.last().dh == public_of(y.m) {
        y.m.ns == y.sent.last().n + 1
    } else {
        y.m.ns == 0 && y.m.pn == y.sent.last().n + 1
    }
}

/// The first `count` messages of `y` have arrived at `x`, and nothing is left out.
pub open spec fn caught_up(x: Side, y: Side, count: int) -> bool {
    &&& 0 <= count <= y.sent.len()
    &&& forall|k: int| #[trigger] x.got.contains(k) <==> 0 <= k < count
    &&& x.m.skipped.len() == 0
    &&& if count == 0 {
        x.m.ckr is None && x.m.nr == 0
    } else {
        x.m.dhr == Some(y.sent[count - 1].dh) && x.m.nr == y.sent[count - 1].n + 1
    }
}

/// If `x` is on the chain that `y` sends on, `y` has sent on it.
pub open spec fn has_spoken(x: Side, y: Side) -> bool {
    x.m.ckr is Some && x.m.dhr == Some(public_of(y.m)) ==> y.m.ns > 0
}

/// What holds of a session whose messages arrive in order.
pub open spec fn in_exchange(x: Exchange) -> bool {
    &&& in_session(x.p.first, x.p.second)
    &&& numbered_well(x.p.first)
    &&& numbered_well(x.p.second)
    &&& caught_up(x.p.first, x.p.second, x.first_got)
    &&& caught_up(x.p.second, x.p.first, x.second_got)
    &&& has_spoken(x.p.first, x.p.second)
    &&& has_spoken(x.p.second, x.p.first)
}

/// The numbering goes on when an end sends.
proof fn lemma_send_numbered(x: Side, y: Side, plaintext: Seq<u8>, count: int)
    requires
        in_session(x, y),
        sends_well(x, plaintext),
        numbered_well(x),
        caught_up(y, x, count),
    ensures
        numbered_well(after_send(x, plaintext)),
        caught_up(y, after_send(x, plaintext), count),
{
    let out = after_send(x, plaintext);
    let last = x.sent.len() as int;
    assert forall|k: int| 0 <= k < out.sent.len() implies #[trigger] in_sequence(out, k) by {
        if k < last {
            assert(in_sequence(x, k));
            assert(out.sent[k] == x.sent[k]);
            if k > 0 {
                assert(out.sent[k - 1] == x.sent[k - 1]);
            }
        } else {
            if last > 0 {
                assert(out.sent[k - 1] == x.sent.last());
            }
        }
    }
}

/// The next message in order opens, whatever was sent meanwhile, and the session
/// goes on.
proof fn lemma_get_next(x: Side, y: Side, fresh: Seq<u8>, count: int, other: int)
    requires
        in_session(x, y),
        numbered_well(x),
        numbered_well(y),
        caught_up(x, y, count),
        caught_up(y, x, other),
        has_spoken(x, y),
        has_spoken(y, x),
        may_get_next(x, y, count, fresh),
    ensures
        opens_well(x, y, count, fresh),
        ({
            let out = after_get(x, y, count, fresh);
            &&& in_session(out, y)
            &&& numbered_well(out)
            &&& caught_up(out, y, count + 1)
            &&& caught_up(y, out, other)
            &&& has_spoken(out, y)
            &&& has_spoken(y, out)
        }),
{
    let e = y.sent[count];
    let out = after_get(x, y, count, fresh);
    assert(in_order(x, y, count));
    assert(in_sequence(y, count));
    assert(!x.got.contains(count));
    ratchet::lemma_key_index(x.m.skipped, e.dh, e.n);
    assert(ratchet::find_key(x.m.skipped, e.dh, e.n) is None);
    if x.m.dhr == Some(e.dh) {
        assert(ratchet_laws::on_chain(x.m, e.dh, e.ck0));
        assert(count > 0);
        assert(e.n == x.m.nr);
        assert(has_room(x.m, e.wire));
        lemma_get_on_chain(x, y, count, fresh);
        let run = ratchet::skipped_run(e.dh, x.m.nr, x.m.ckr->0, 0);
        assert(Seq::<SkippedModel>::empty() + run =~= Seq::<SkippedModel>::empty());
    } else {
        assert(e.n == 0);
        assert(e.pn == x.m.nr);
        let first = ratchet::flushed(x.m, e.wire);
        assert(first =~= Seq::<SkippedModel>::empty());
        assert(has_room(x.m, e.wire));
        lemma_get_new_chain(x, y, count, fresh);
        let stepped = ratchet::ratchet_step(x.m, e.wire, fresh);
        let run = ratchet::skipped_run(e.dh, 0, stepped.ckr->0, 0);
        assert(first + run =~= Seq::<SkippedModel>::empty());
        assert(out.m.ns == 0 && out.m.pn == x.m.ns);
        assert(e.dh == public_of(y.m) && ratchet_laws::leads(y.m, x.m, e.ck0));
        assert(leading(y, x));
        if x.sent.len() > 0 {
            assert(x.m.cks is Some);
            assert(ratchet_laws::on_chain(y.m, public_of(x.m), x.ck0));
            assert(x.m.ns > 0);
            assert(x.sent.last() == x.sent[x.sent.len() - 1]);
            assert(x.sent.last().dh == public_of(x.m));
            assert(x.sent[x.sent.len() - 1].dh != public_of(out.m));
        }
        if y.m.ckr is Some && y.m.dhr == Some(public_of(out.m)) {
            assert(y.m.dhr == Some(public_of(x.m)));
        }
    }
    assert forall|k: int| #[trigger] out.got.contains(k) <==> 0 <= k < count + 1 by {
        assert(x.got.contains(k) <==> 0 <= k < count);
    }
    assert forall|k: int| 0 <= k < out.sent.len() implies #[trigger] in_sequence(out, k) by {
        assert(in_sequence(x, k));
    }
}

/// An exchange goes on, whatever happens next.
proof fn lemma_stays_in_exchange(a: Seq<u8>, b: Seq<u8>, shared_root: Seq<u8>, happened: Seq<Ordered>)
    requires
        ratchet::valid(started(a, b, shared_root).first.m),
        ratchet::valid(started(a, b, shared_root).second.m),
        may_all_come(opened(a, b, shared_root), happened),
    ensures
        in_exchange(ordered_all(opened(a, b, shared_root), happened)),
    decreases happened.len(),
{
    let start = opened(a, b, shared_root);
    if happened.len() == 0 {
        ratchet_laws::law_start_in_step(a, b, shared_root);
        assert(in_session(start.p.first, start.p.second));
    } else {
        lemma_stays_in_exchange(a, b, shared_root, happened.drop_last());
        let x = ordered_all(start, happened.drop_last());
        match happened.last() {
            Ordered::FirstSends(plaintext) => {
                lemma_send(x.p.first, x.p.second, plaintext);
                lemma_send_numbered(x.p.first, x.p.second, plaintext, x.second_got);
            },
            Ordered::SecondSends(plaintext) => {
                lemma_send(x.p.second, x.p.first, plaintext);
                lemma_send_numbered(x.p.second, x.p.first, plaintext, x.first_got);
            },
            Ordered::FirstGets { fresh } => {
                lemma_get_next(x.p.first, x.p.second, fresh, x.first_got, x.second_got);
            },
            Ordered::SecondGets { fresh } => {
                lemma_get_next(x.p.second, x.p.first, fresh, x.second_got, x.first_got);
            },
        }
    }
}

/// On a connection that keeps the order every message opens to its plaintext,
/// whatever the two ends send and whenever, and no key of a skipped message is
/// ever kept.
pub proof fn law_ordered_session_delivers(
    a: Seq<u8>,
    b: Seq<u8>,
    shared_root: Seq<u8>,
    happened: Seq<Ordered>,
    next: Ordered,
)
    requires
        ratchet::valid(started(a, b, shared_root).first.m),
        ratchet::valid(started(a, b, shared_root).second.m),
        may_all_come(opened(a, b, shared_root), happened),
        may_come(ordered_all(opened(a, b, shared_root), happened), next),
    ensures
        ({
            let x = ordered_all(opened(a, b, shared_root), happened);
            &&& 0 <= x.first_got <= x.p.second.sent.len()
            &&& 0 <= x.second_got <= x.p.first.sent.len()
            &&& x.p.first.m.skipped.len() == 0 && x.p.second.m.skipped.len() == 0
            &&& match next {
                Ordered::FirstGets { fresh } => opens_well(x.p.first, x.p.second, x.first_got, fresh),
                Ordered::SecondGets { fresh } => opens_well(x.p.second, x.p.first, x.second_got, fresh),
                _ => true,
            }
        }),
{
    lemma_stays_in_exchange(a, b, shared_root, happened);
    let x = ordered_all(opened(a, b, shared_root), happened);
    match next {
        Ordered::FirstGets { fresh } => {
            lemma_get_next(x.p.first, x.p.second, fresh, x.first_got, x.second_got);
        },
        Ordered::SecondGets { fresh } => {
            lemma_get_next(x.p.second, x.p.first, fresh, x.second_got, x.first_got);
        },
        _ => {},
    }
}

/// Whatever opens was sealed with its header bound in: it opens under the one key that we
/// keep or derive for it, with its first forty bytes as associated data. A change to the
/// header is a change to what the tag covers. What is shorter than a header is malformed.
pub proof fn law_headers_are_covered_by_the_tag(m: RatchetModel, wire: Seq<u8>, fresh: Seq<u8>)
    ensures
        ratchet::decrypt_step(m, wire, fresh) matches Ok((out, _)) ==> {
            let (key, nonce) = ratchet::cipher_keys(tried_key(m, wire));
            &&& wire.len() >= 40
            &&& crypto::chacha20poly1305_open(
                key,
                nonce,
                wire.subrange(0, 40),
                wire.subrange(40, wire.len() as int),
            ) == Some(out)
        },
        wire.len() < 40 <==> ratchet::decrypt_step(m, wire, fresh) == Err::<
            (Seq<u8>, RatchetModel),
            ratchet::ErrorKind,
        >(ratchet::ErrorKind::Malformed),
{
}

/// Opening a message on the chain that we receive on leaves our sending side as it is. Only
/// one on a new chain changes it: we go on with the secret that was drawn, on a new chain,
/// and remember how many messages the old one had. Our root key moves with it.
pub proof fn law_only_new_chains_turn_the_ratchet(m: RatchetModel, wire: Seq<u8>, fresh: Seq<u8>)
    requires
        ratchet::decrypt_step(m, wire, fresh) is Ok,
    ensures
        ({
            let after = ratchet::decrypt_step(m, wire, fresh)->Ok_0.1;
            let turns = ratchet::wants_fresh(m, wire);
            let (mid, ckr) = ratchet::root_step(m.rk, crypto::x25519_shared(m.dhs, wire.subrange(0, 32)));
            let (rk, cks) = ratchet::root_step(mid, crypto::x25519_shared(fresh, wire.subrange(0, 32)));
            &&& !turns ==> {
                &&& after.dhs == m.dhs && after.cks == m.cks && after.rk == m.rk
                &&& after.ns == m.ns && after.pn == m.pn && after.dhr == m.dhr
            }
            &&& turns ==> {
                &&& after.dhs == fresh && after.cks == Some(cks) && after.rk == rk
                &&& after.ns == 0 && after.pn == m.ns && after.dhr == Some(wire.subrange(0, 32))
                &&& after.ckr == Some(ratchet::chain_key(ckr, (ratchet::wire_n(wire) + 1) as nat))
            }
        }),
{
    bytes::lemma_be32(0, wire.subrange(36, 40));
}

/// Why a message is refused is told: it is out of order exactly where it is on the chain
/// of the peer's key that we know and that chain was never established, and it fails
/// authentication only where the one key that there is for it does not open it.
pub proof fn law_refusals_tell_why(m: RatchetModel, wire: Seq<u8>, fresh: Seq<u8>)
    ensures
        ratchet::decrypt_step(m, wire, fresh) == Err::<(Seq<u8>, RatchetModel), ratchet::ErrorKind>(
            ratchet::ErrorKind::OutOfOrder,
        ) <==> wire.len() >= 40 && !has_key_for(m, wire),
        ratchet::decrypt_step(m, wire, fresh) == Err::<(Seq<u8>, RatchetModel), ratchet::ErrorKind>(
            ratchet::ErrorKind::Decrypt,
        ) ==> has_key_for(m, wire) && stays_shut(m, wire),
        ratchet::decrypt_step(m, wire, fresh) is Err ==> {
            let e = ratchet::decrypt_step(m, wire, fresh)->Err_0;
            ||| e == ratchet::ErrorKind::Malformed
            ||| e == ratchet::ErrorKind::OutOfOrder
            ||| e == ratchet::ErrorKind::TooManySkipped
            ||| e == ratchet::ErrorKind::Decrypt
        },
{
}

} // verus!
