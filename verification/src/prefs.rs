//! What has to outlive a reinstallation: who this device is, and which hub it
//! belongs to.
use vstd::prelude::*;
use vstd::string::*;

use crate::hexa;

verus! {

/// The preferences.
#[derive(Debug, PartialEq)]
pub struct Prefs {
    /// Who this device is. The hub knows it by this id.
    pub device_id: String,
    pub hub_address: String,
    pub hub_word: String,
    pub hub_name: String,
}

/// The preferences, as contracts see them.
pub struct PrefsModel {
    pub device_id: Seq<char>,
    pub hub_address: Seq<char>,
    pub hub_word: Seq<char>,
    pub hub_name: Seq<char>,
}

impl View for Prefs {
    type V = PrefsModel;

    open spec fn view(&self) -> PrefsModel {
        PrefsModel {
            device_id: self.device_id@,
            hub_address: self.hub_address@,
            hub_word: self.hub_word@,
            hub_name: self.hub_name@,
        }
    }
}

/// Preferences with nothing in them.
pub open spec fn no_prefs() -> PrefsModel {
    PrefsModel {
        device_id: Seq::empty(),
        hub_address: Seq::empty(),
        hub_word: Seq::empty(),
        hub_name: Seq::empty(),
    }
}

impl Default for Prefs {
    fn default() -> (r: Self)
        ensures
            r@ == no_prefs(),
    {
        Prefs {
            device_id: String::new(),
            hub_address: String::new(),
            hub_word: String::new(),
            hub_name: String::new(),
        }
    }
}

impl Clone for Prefs {
    fn clone(&self) -> (r: Self)
        ensures
            r@ == self@,
    {
        Prefs {
            device_id: self.device_id.clone(),
            hub_address: self.hub_address.clone(),
            hub_word: self.hub_word.clone(),
            hub_name: self.hub_name.clone(),
        }
    }
}

/// What was kept, or nothing where nothing readable was.
pub open spec fn kept(stored: Option<Prefs>) -> PrefsModel {
    match stored {
        Some(p) => p@,
        None => no_prefs(),
    }
}

/// The preferences with an id for this device: the one that it has, or `minted`
/// where it has none.
pub open spec fn identified(p: PrefsModel, minted: Seq<char>) -> PrefsModel {
    if p.device_id.len() == 0 {
        PrefsModel { device_id: minted, ..p }
    } else {
        p
    }
}

/// The preferences with a hub.
pub open spec fn with_hub(p: PrefsModel, address: Seq<char>, word: Seq<char>, name: Seq<char>) -> PrefsModel {
    PrefsModel { hub_address: address, hub_word: word, hub_name: name, ..p }
}

/// Whether `id` is an id as `new_conversation_id` makes them.
pub open spec fn is_minted(id: Seq<char>) -> bool {
    exists|b: Seq<u8>| b.len() == 16 && id == #[trigger] hexa::hex_text(b)
}

/// Sees to it that the device has an id, with `minted` for one that has none.
/// The second part of the result is whether something is new and has to be
/// written out.
pub fn load_with(stored: Option<Prefs>, minted: String) -> (r: (Prefs, bool))
    ensures
        r.0@ == identified(kept(stored), minted@),
        r.1 == (kept(stored).device_id.len() == 0),
{
    let mut prefs = match stored {
        Some(p) => p,
        None => Prefs::default(),
    };
    if prefs.device_id.as_str().is_empty() {
        prefs.device_id = minted;
        (prefs, true)
    } else {
        (prefs, false)
    }
}

/// The preferences as they were kept, with an id for this device. The second
/// part of the result is whether the id is new and has to be written out.
pub fn load(stored: Option<Prefs>) -> (r: (Prefs, bool))
    ensures
        r.1 == (kept(stored).device_id.len() == 0),
        !r.1 ==> r.0@ == kept(stored),
        r.0@ == identified(kept(stored), r.0@.device_id),
        r.1 ==> r.0@ == (PrefsModel { device_id: r.0@.device_id, ..kept(stored) }) && is_minted(r.0@.device_id),
{
    load_with(stored, crate::new_conversation_id())
}

/// The preferences with a hub; the id of the device stays.
pub fn save_hub(prefs: Prefs, address: &str, word: &str, name: &str) -> (r: Prefs)
    ensures
        r@ == with_hub(prefs@, address@, word@, name@),
{
    let mut prefs = prefs;
    prefs.hub_address = address.to_owned();
    prefs.hub_word = word.to_owned();
    prefs.hub_name = name.to_owned();
    prefs
}

/// The preferences without a hub; the id of the device stays.
pub fn clear_hub(prefs: Prefs) -> (r: Prefs)
    ensures
        r@ == with_hub(prefs@, Seq::empty(), Seq::empty(), Seq::empty()),
{
    let mut prefs = prefs;
    prefs.hub_address = String::new();
    prefs.hub_word = String::new();
    prefs.hub_name = String::new();
    prefs
}

/// A device keeps its id: once it has one, loading, joining a hub and leaving
/// it change nothing about it.
pub proof fn law_device_id_is_stable(
    p: PrefsModel,
    minted: Seq<char>,
    later: Seq<char>,
    address: Seq<char>,
    word: Seq<char>,
    name: Seq<char>,
)
    requires
        minted.len() > 0,
    ensures
        ({
            let first = identified(p, minted);
            &&& first.device_id.len() > 0
            &&& identified(first, later) == first
            &&& with_hub(first, address, word, name).device_id == first.device_id
            &&& identified(with_hub(first, address, word, name), later) == with_hub(first, address, word, name)
        }),
{
}

/// Joining a hub is remembered as it was said, leaving it forgets it, and neither forgets
/// who the device is.
pub proof fn law_the_hub_is_remembered(p: PrefsModel, address: Seq<char>, word: Seq<char>, name: Seq<char>)
    ensures
        ({
            let joined = with_hub(p, address, word, name);
            let gone = with_hub(joined, Seq::empty(), Seq::empty(), Seq::empty());
            &&& joined.hub_address == address && joined.hub_word == word && joined.hub_name == name
            &&& joined.device_id == p.device_id
            &&& gone.hub_address.len() == 0 && gone.hub_word.len() == 0 && gone.hub_name.len() == 0
            &&& gone.device_id == p.device_id
        }),
{
}

/// What was kept is used as it was; only a device without an id gets one, and then that
/// one. Nothing else changes with it.
pub proof fn law_what_was_kept_is_used(stored: Prefs, minted: Seq<char>)
    ensures
        kept(Some(stored)) == stored@,
        kept(None) == no_prefs(),
        stored@.device_id.len() > 0 ==> identified(kept(Some(stored)), minted) == stored@,
        stored@.device_id.len() == 0 ==> identified(kept(Some(stored)), minted).device_id == minted,
        identified(kept(Some(stored)), minted).hub_address == stored@.hub_address,
        identified(kept(Some(stored)), minted).hub_word == stored@.hub_word,
        identified(kept(Some(stored)), minted).hub_name == stored@.hub_name,
        no_prefs().device_id.len() == 0 && no_prefs().hub_address.len() == 0 && no_prefs().hub_word.len() == 0
            && no_prefs().hub_name.len() == 0,
{
}

} // verus!
