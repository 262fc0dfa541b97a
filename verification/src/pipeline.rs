//! The request pipeline's decisions, as pure steps over plain values. The
//! host drives them in order for each incoming query: classify the request's
//! operation, route the queried name to a zone entry, obtain a resolver for
//! that entry, forward the query, and turn the upstream's outcome into the
//! response to send. Forwarding and sending are the host's I/O; every
//! decision between them is made here.

use vstd::prelude::*;
use vstd::string::StringExecFns;
use crate::config::DnxConfig;
use crate::entry::DnxEntry;
use crate::trie::Tree;
use crate::trie::TreeSortable;

verus! {

broadcast use vstd::std_specs::vec::group_vec_axioms, vstd::seq::group_seq_axioms;

/// The record type number of an IPv4 address record.
pub const RECORD_TYPE_A: u16 = 1;

/// An answer record's data, as the rewriter reads it: an IPv4 address for an
/// address record, anything else opaque and passed through untouched.
#[derive(Debug, PartialEq)]
pub enum RecordPayload {
    A { addr: u32 },
    Other,
}

/// One answer record from the upstream. Only the payload of an `A`-typed
/// record is interpreted; name, type, class and time-to-live ride along and
/// are preserved by rewriting.
#[derive(Debug, PartialEq)]
pub struct DnsRecord {
    pub name: String,
    pub record_type: u16,
    pub dns_class: u16,
    pub ttl: u32,
    pub data: Option<RecordPayload>,
}

/// Response codes the gateway itself produces.
#[derive(Debug, PartialEq, Eq, Structural, Clone, Copy)]
pub enum DnxResponseCode {
    NoError,
    NotImplemented,
    ServerFailure,
}

/// The operation class of an incoming request: a standard query, or
/// anything else.
#[derive(Debug, PartialEq, Eq, Structural, Clone, Copy)]
pub enum DnxOpCode {
    Query,
    Other,
}

/// The reply the host sends back: a response code and the answer records.
/// No authority or additional sections are ever produced.
#[derive(Debug)]
pub struct DnxResponse {
    pub code: DnxResponseCode,
    pub answers: Vec<DnsRecord>,
}

/// What the upstream forward came back with: answer records, or any failure
/// (timeout, refusal, network error).
#[derive(Debug)]
pub enum UpstreamOutcome {
    Answered(Vec<DnsRecord>),
    Failed,
}

/// How one answer record is rewritten for a zone entry: a well-formed
/// `A` record has its address translated by the entry and keeps its name,
/// type, class and time-to-live; every other record — including an `A`-typed
/// record whose payload is missing or not an address — passes through
/// unchanged.
pub open spec fn spec_rewrite_record(e: DnxEntry, r: DnsRecord) -> DnsRecord {
    match r.data {
        Some(RecordPayload::A { addr }) => {
            if r.record_type == RECORD_TYPE_A {
                DnsRecord {
                    name: r.name,
                    record_type: r.record_type,
                    dns_class: r.dns_class,
                    ttl: r.ttl,
                    data: Some(RecordPayload::A { addr: e.spec_translate(addr) }),
                }
            } else {
                r
            }
        },
        _ => r,
    }
}

/// Rewrites the upstream's answer records for the routed entry, in order.
pub fn rewrite_records(entry: &DnxEntry, records: Vec<DnsRecord>) -> (r: Vec<DnsRecord>)
    ensures
        r@.len() == records@.len(),
        forall|i: int|
            0 <= i < records@.len() ==> r@[i] == spec_rewrite_record(*entry, records@[i]),
{
    let mut out: Vec<DnsRecord> = Vec::new();
    let mut rest = records;
    while rest.len() > 0
        invariant
            out@.len() + rest@.len() == records@.len(),
            rest@ =~= records@.skip(out@.len() as int),
            forall|i: int|
                0 <= i < out@.len() ==> out@[i] == spec_rewrite_record(*entry, records@[i]),
        decreases rest@.len(),
    {
        let rec = rest.remove(0);
        proof {
            assert(rec == records@[out@.len() as int]);
            assert(rest@ =~= records@.skip(out@.len() as int + 1));
        }
        let is_a = rec.record_type == RECORD_TYPE_A;
        let addr_opt: Option<u32> = match &rec.data {
            Some(RecordPayload::A { addr }) => Some(*addr),
            _ => None,
        };
        let transformed = match addr_opt {
            Some(a) => {
                if is_a {
                    DnsRecord {
                        name: rec.name,
                        record_type: rec.record_type,
                        dns_class: rec.dns_class,
                        ttl: rec.ttl,
                        data: Some(RecordPayload::A { addr: entry.translate(a) }),
                    }
                } else {
                    rec
                }
            },
            None => rec,
        };
        out.push(transformed);
    }
    out
}

/// The first pipeline decision. A standard query proceeds down the
/// pipeline; any other operation is answered at once with `NotImplemented`
/// and no records.
pub fn respond_to_request_op(op: &DnxOpCode) -> (r: Option<DnxResponse>)
    ensures
        match op {
            DnxOpCode::Query => r is None,
            DnxOpCode::Other => r matches Some(resp) && resp.code == DnxResponseCode::NotImplemented
                && resp.answers@.len() == 0,
        },
{
    match op {
        DnxOpCode::Query => None,
        DnxOpCode::Other => Some(
            DnxResponse { code: DnxResponseCode::NotImplemented, answers: Vec::new() },
        ),
    }
}

/// The terminal pipeline decision. An upstream failure is answered with
/// `ServerFailure` and no records; a successful lookup is answered with the
/// records rewritten for the routed entry, in their upstream order.
pub fn respond_to_upstream(entry: &DnxEntry, outcome: UpstreamOutcome) -> (r: DnxResponse)
    ensures
        match outcome {
            UpstreamOutcome::Failed => r.code == DnxResponseCode::ServerFailure && r.answers@.len()
                == 0,
            UpstreamOutcome::Answered(recs) => r.code == DnxResponseCode::NoError && r.answers@.len()
                == recs@.len() && (forall|i: int|
                0 <= i < recs@.len() ==> r.answers@[i] == spec_rewrite_record(*entry, recs@[i])),
        },
{
    match outcome {
        UpstreamOutcome::Failed => DnxResponse {
            code: DnxResponseCode::ServerFailure,
            answers: Vec::new(),
        },
        UpstreamOutcome::Answered(records) => DnxResponse {
            code: DnxResponseCode::NoError,
            answers: rewrite_records(entry, records),
        },
    }
}

/// The zone entries of a configuration, as the tree map they build up in
/// order: the last entry for a label path wins.
pub open spec fn zones_map(entries: Seq<DnxEntry>) -> Map<Seq<Seq<u8>>, DnxEntry>
    decreases entries.len(),
{
    if entries.len() == 0 {
        Map::empty()
    } else {
        zones_map(entries.drop_last()).insert(entries.last().path_spec(), entries.last())
    }
}

/// The routing context built once at startup and shared, read-only, by all
/// request handlers: the zone tree and the default entry used when no zone
/// matches.
pub struct DnxRequestHandler {
    tree: Tree<DnxEntry>,
    default_server: DnxEntry,
}

impl DnxRequestHandler {
    /// The registered zones, as a map from label paths to entries.
    pub closed spec fn zones(self) -> Map<Seq<Seq<u8>>, DnxEntry> {
        self.tree@
    }

    /// The entry used when no registered zone suffixes the queried name: no
    /// zone name, no translation, the configured default upstream.
    pub closed spec fn default_entry(self) -> DnxEntry {
        self.default_server
    }

    pub closed spec fn wf(self) -> bool {
        self.tree.wf()
    }

    /// Where a query for the given label path is routed: the tree's
    /// longest-suffix match, or the default entry when the walk finds
    /// nothing.
    pub open spec fn spec_route(self, path: Seq<Seq<u8>>) -> DnxEntry {
        match self.tree_find(path) {
            Some(e) => e,
            None => self.default_entry(),
        }
    }

    /// The tree's answer for a label path (see `Tree::find`).
    pub closed spec fn tree_find(self, path: Seq<Seq<u8>>) -> Option<DnxEntry> {
        self.tree.spec_find(path)
    }

    /// Builds the routing context from a validated configuration: every zone
    /// entry is placed in the tree in order, and the default entry takes the
    /// configured default upstream.
    pub fn from_config(config: DnxConfig) -> (h: Self)
        ensures
            h.wf(),
            h.zones() == zones_map(config.zones@),
            h.default_entry().zone@ == Seq::<char>::empty(),
            h.default_entry().server == config.default_server,
            h.default_entry().nat is None,
    {
        let mut tree = Tree::<DnxEntry>::new();
        let mut rest = config.zones;
        let ghost all = rest@;
        let total = rest.len();
        let mut i: usize = 0;
        proof {
            assert(all.take(0) =~= Seq::<DnxEntry>::empty());
            assert(rest@ =~= all.skip(0));
        }
        while rest.len() > 0
            invariant
                tree.wf(),
                i <= all.len(),
                all.len() == total,
                rest@ =~= all.skip(i as int),
                tree@ == zones_map(all.take(i as int)),
            decreases rest@.len(),
        {
            let entry = rest.remove(0);
            proof {
                assert((i as int) < all.len());
                assert(entry == all[i as int]);
                assert(rest@ =~= all.skip(i as int + 1));
                assert(all.take(i as int + 1).drop_last() =~= all.take(i as int));
                assert(all.take(i as int + 1).last() == all[i as int]);
            }
            tree.insert(entry);
            i += 1;
        }
        proof {
            assert(all.take(all.len() as int) =~= all);
        }
        DnxRequestHandler {
            tree,
            default_server: DnxEntry {
                zone: String::new(),
                server: config.default_server,
                nat: None,
            },
        }
    }

    /// Routes a queried name: the entry of the longest registered zone
    /// suffix reachable along the name's labels, or the default entry.
    pub fn route<'a>(&'a self, name: &String) -> (e: &'a DnxEntry)
        ensures
            *e == self.spec_route(name.path_spec()),
    {
        match self.tree.find(name) {
            Some(e) => e,
            None => &self.default_server,
        }
    }
}

} // verus!
