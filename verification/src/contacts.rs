//! The address book: whom we know, and where they are. Code words are not kept.
use vstd::prelude::*;
use vstd::string::*;

verus! {

/// A saved peer.
#[derive(Debug, PartialEq)]
pub struct Contact {
    /// Where the peer is reached.
    pub address: String,
    /// The fingerprint that it has to have, if known.
    pub fingerprint: Option<String>,
}

/// A saved peer, as contracts see it.
pub struct ContactModel {
    pub address: Seq<char>,
    pub fingerprint: Option<Seq<char>>,
}

impl View for Contact {
    type V = ContactModel;

    open spec fn view(&self) -> ContactModel {
        ContactModel {
            address: self.address@,
            fingerprint: match self.fingerprint {
                Some(fp) => Some(fp@),
                None => None,
            },
        }
    }
}

impl Clone for Contact {
    fn clone(&self) -> (r: Self)
        ensures
            r@ == self@,
    {
        let fingerprint = match &self.fingerprint {
            Some(fp) => Some(fp.clone()),
            None => None,
        };
        Contact { address: self.address.clone(), fingerprint }
    }
}

} // verus!
