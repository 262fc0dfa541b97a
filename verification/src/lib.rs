//! A DNS forwarding gateway core: routes queries to upstream servers by the
//! longest registered zone suffix of the queried name, caches one resolver
//! handle per zone, and rewrites IPv4 answer records through configured
//! network-address translations.

pub mod cache;
pub mod config;
pub mod domain;
pub mod entry;
pub mod nat_rule;
pub mod pipeline;
pub mod trie;
