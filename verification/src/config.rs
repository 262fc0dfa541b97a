//! The gateway's configuration record: the zone entries, the listen ports,
//! and the default upstream used when no zone matches a query.

use vstd::prelude::*;
use vstd::string::StringExecFns;
use crate::entry::DnxEntry;
use crate::nat_rule::DnxNatEntry;

verus! {

/// An IPv4 address from its four dotted-quad bytes, as a 32-bit integer in
/// network order.
pub open spec fn ipv4_spec(a: u8, b: u8, c: u8, d: u8) -> u32 {
    ((a as u32) * 0x1000000 + (b as u32) * 0x10000 + (c as u32) * 0x100 + (d as u32)) as u32
}

pub fn ipv4(a: u8, b: u8, c: u8, d: u8) -> (r: u32)
    ensures
        r == ipv4_spec(a, b, c, d),
{
    (a as u32) * 0x1000000 + (b as u32) * 0x10000 + (c as u32) * 0x100 + (d as u32)
}

/// A validated configuration record, produced by the host's loader.
#[derive(Debug)]
pub struct DnxConfig {
    pub zones: Vec<DnxEntry>,
    pub tcp_port: u16,
    pub udp_port: u16,
    pub default_server: u32,
}

impl Default for DnxConfig {
    /// No zones, DNS on both ports, and 1.1.1.1 as the default upstream.
    fn default() -> (c: Self)
        ensures
            c.zones@.len() == 0,
            c.tcp_port == 53,
            c.udp_port == 53,
            c.default_server == ipv4_spec(1, 1, 1, 1),
    {
        DnxConfig { zones: Vec::new(), tcp_port: 53, udp_port: 53, default_server: ipv4(1, 1, 1, 1) }
    }
}

/// The configuration the gateway falls back to when none can be loaded: the
/// defaults plus one example zone routed to a private server, whose answers
/// are remapped onto another private network.
pub fn fallback_config() -> (c: DnxConfig)
    ensures
        c.tcp_port == 53,
        c.udp_port == 53,
        c.default_server == ipv4_spec(1, 1, 1, 1),
        c.zones@.len() == 1,
        c.zones@[0].zone@ == "example.com"@,
        c.zones@[0].server == ipv4_spec(192, 168, 0, 1),
        c.zones@[0].nat == Some(
            DnxNatEntry {
                ip_original: ipv4_spec(192, 168, 0, 0),
                ip_translation: ipv4_spec(10, 0, 0, 0),
                mask: ipv4_spec(255, 255, 0, 0),
            },
        ),
{
    let mut c = DnxConfig::default();
    c.zones.push(
        DnxEntry {
            zone: String::from_str("example.com"),
            server: ipv4(192, 168, 0, 1),
            nat: Some(
                DnxNatEntry {
                    ip_original: ipv4(192, 168, 0, 0),
                    ip_translation: ipv4(10, 0, 0, 0),
                    mask: ipv4(255, 255, 0, 0),
                },
            ),
        },
    );
    c
}

} // verus!
