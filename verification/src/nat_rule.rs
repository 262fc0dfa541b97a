//! Network-address translation for a single IPv4 network remap.
//!
//! A rule holds an original network, a translated network, and a mask, all as
//! 32-bit addresses in network order. An address matches the rule when its
//! masked bits equal the masked original network; translation substitutes the
//! masked bits with the translated network's bits and preserves the host bits.

use vstd::prelude::*;

verus! {

/// One IPv4 network remap: addresses in `ip_original`'s network (under
/// `mask`) are moved to the corresponding address in `ip_translation`'s
/// network.
#[derive(Clone, Copy, Debug, PartialEq, Eq, Structural)]
pub struct DnxNatEntry {
    pub ip_original: u32,
    pub ip_translation: u32,
    pub mask: u32,
}

impl DnxNatEntry {
    /// An address is eligible for translation when its network bits equal the
    /// original network's bits.
    pub open spec fn spec_matches(self, ip: u32) -> bool {
        ip & self.mask == self.ip_original & self.mask
    }

    /// Translation preserves the host bits and substitutes the network bits
    /// with the translated network's; a non-matching address is unchanged.
    pub open spec fn spec_translate(self, ip: u32) -> u32 {
        if self.spec_matches(ip) {
            (ip & !self.mask) | (self.ip_translation & self.mask)
        } else {
            ip
        }
    }

    pub fn matches(&self, ip: u32) -> (r: bool)
        ensures
            r == self.spec_matches(ip),
    {
        (ip & self.mask) == (self.ip_original & self.mask)
    }

    pub fn translate(&self, ip: u32) -> (r: u32)
        ensures
            r == self.spec_translate(ip),
    {
        if !self.matches(ip) {
            return ip;
        }
        (ip & !self.mask) | (self.ip_translation & self.mask)
    }
}

/// Translation is a pure function of the rule and the address, and applying
/// it twice gives the same address as applying it once, provided the
/// translated network does not itself match the rule. (When it does, a
/// translated address is eligible again and may be moved a second time.)
pub proof fn lemma_translate_idempotent(rule: DnxNatEntry, ip: u32)
    requires
        !rule.spec_matches(rule.ip_translation),
    ensures
        rule.spec_translate(rule.spec_translate(ip)) == rule.spec_translate(ip),
{
    let m = rule.mask;
    let o = rule.ip_original;
    let t = rule.ip_translation;
    if rule.spec_matches(ip) {
        assert(((ip & !m) | (t & m)) & m == t & m) by (bit_vector);
        assert(t & m != o & m ==> ((ip & !m) | (t & m)) & m != o & m);
    }
}

} // verus!
