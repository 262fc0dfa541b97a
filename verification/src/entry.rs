//! A configured zone entry: the zone name, the upstream server that resolves
//! queries under it, and an optional address translation for its answers.

use vstd::prelude::*;
use crate::nat_rule::DnxNatEntry;
use crate::trie::TreeSortable;

verus! {

/// One configured zone. The server address is an IPv4 address as a 32-bit
/// integer in network order. Immutable after construction; identified by its
/// zone name.
#[derive(Debug)]
pub struct DnxEntry {
    pub zone: String,
    pub server: u32,
    pub nat: Option<DnxNatEntry>,
}

impl DnxEntry {
    /// The translation this entry applies to an answer address: its rule's
    /// translation, or the identity when it has none.
    pub open spec fn spec_translate(self, ip: u32) -> u32 {
        match self.nat {
            None => ip,
            Some(rule) => rule.spec_translate(ip),
        }
    }

    pub fn translate(&self, ip: u32) -> (r: u32)
        ensures
            r == self.spec_translate(ip),
    {
        match &self.nat {
            None => ip,
            Some(rule) => rule.translate(ip),
        }
    }
}

impl TreeSortable for DnxEntry {
    /// An entry stands in the tree at its zone name's label path.
    open spec fn path_spec(&self) -> Seq<Seq<u8>> {
        self.zone.path_spec()
    }

    fn get_path(&self) -> (r: Vec<Vec<u8>>)
        ensures
            r.deep_view() == self.path_spec(),
    {
        self.zone.get_path()
    }
}

} // verus!
