use dnx::cache::ResolverCache;
use dnx::config::ipv4;
use dnx::config::fallback_config;
use dnx::config::DnxConfig;
use dnx::entry::DnxEntry;
use dnx::nat_rule::DnxNatEntry;
use dnx::pipeline::respond_to_request_op;
use dnx::pipeline::respond_to_upstream;
use dnx::pipeline::rewrite_records;
use dnx::pipeline::DnsRecord;
use dnx::pipeline::DnxOpCode;
use dnx::pipeline::DnxRequestHandler;
use dnx::pipeline::DnxResponse;
use dnx::pipeline::DnxResponseCode;
use dnx::pipeline::RecordPayload;
use dnx::pipeline::UpstreamOutcome;
use dnx::pipeline::RECORD_TYPE_A;

fn example_entry() -> DnxEntry {
    DnxEntry {
        zone: "example.com".to_string(),
        server: ipv4(192, 168, 0, 1),
        nat: Some(DnxNatEntry {
            ip_original: ipv4(192, 168, 0, 0),
            ip_translation: ipv4(10, 0, 0, 0),
            mask: ipv4(255, 255, 0, 0),
        }),
    }
}

fn example_handler() -> DnxRequestHandler {
    let config = DnxConfig {
        zones: vec![example_entry()],
        tcp_port: 53,
        udp_port: 53,
        default_server: ipv4(1, 1, 1, 1),
    };
    DnxRequestHandler::from_config(config)
}

fn a_record(name: &str, addr: u32) -> DnsRecord {
    DnsRecord {
        name: name.to_string(),
        record_type: RECORD_TYPE_A,
        dns_class: 1,
        ttl: 300,
        data: Some(RecordPayload::A { addr }),
    }
}

#[test]
fn test_scenario_routed_zone_and_translation() {
    let handler = example_handler();
    let entry = handler.route(&"foo.example.com".to_string());
    assert_eq!(entry.server, ipv4(192, 168, 0, 1));
    assert_eq!(entry.translate(ipv4(192, 168, 1, 1)), ipv4(10, 0, 1, 1));
    assert_eq!(entry.translate(ipv4(10, 0, 0, 1)), ipv4(10, 0, 0, 1));
}

#[test]
fn test_scenario_unregistered_zone_falls_back_to_default() {
    let handler = example_handler();
    let entry = handler.route(&"other.org".to_string());
    assert_eq!(entry.zone, "".to_string());
    assert_eq!(entry.server, ipv4(1, 1, 1, 1));
    assert!(entry.nat.is_none());
}

#[test]
fn test_scenario_non_query_is_not_implemented() {
    let resp: DnxResponse =
        respond_to_request_op(&DnxOpCode::Other).expect("non-query must be answered at once");
    assert_eq!(resp.code, DnxResponseCode::NotImplemented);
    assert!(resp.answers.is_empty());
    assert!(respond_to_request_op(&DnxOpCode::Query).is_none());
}

#[test]
fn test_scenario_upstream_failure_is_server_failure() {
    let entry = example_entry();
    let resp = respond_to_upstream(&entry, UpstreamOutcome::Failed);
    assert_eq!(resp.code, DnxResponseCode::ServerFailure);
    assert!(resp.answers.is_empty());
}

#[test]
fn test_scenario_only_a_records_are_rewritten() {
    let entry = example_entry();
    let txt = DnsRecord {
        name: "foo.example.com".to_string(),
        record_type: 16,
        dns_class: 1,
        ttl: 60,
        data: Some(RecordPayload::Other),
    };
    let records = vec![a_record("foo.example.com", ipv4(192, 168, 1, 1)), txt];
    let resp = respond_to_upstream(&entry, UpstreamOutcome::Answered(records));
    assert_eq!(resp.code, DnxResponseCode::NoError);
    assert_eq!(resp.answers.len(), 2);
    assert_eq!(resp.answers[0], a_record("foo.example.com", ipv4(10, 0, 1, 1)));
    let expected_txt = DnsRecord {
        name: "foo.example.com".to_string(),
        record_type: 16,
        dns_class: 1,
        ttl: 60,
        data: Some(RecordPayload::Other),
    };
    assert_eq!(resp.answers[1], expected_txt);
}

#[test]
fn test_rewrite_preserves_header_fields_and_order() {
    let entry = example_entry();
    let records = vec![
        a_record("a.example.com", ipv4(192, 168, 0, 10)),
        a_record("b.example.com", ipv4(8, 8, 8, 8)),
    ];
    let out = rewrite_records(&entry, records);
    assert_eq!(out.len(), 2);
    assert_eq!(out[0].name, "a.example.com".to_string());
    assert_eq!(out[0].record_type, RECORD_TYPE_A);
    assert_eq!(out[0].dns_class, 1);
    assert_eq!(out[0].ttl, 300);
    assert_eq!(out[0].data, Some(RecordPayload::A { addr: ipv4(10, 0, 0, 10) }));
    // 8.8.8.8 does not match the rule, so it rides through unchanged.
    assert_eq!(out[1], a_record("b.example.com", ipv4(8, 8, 8, 8)));
}

#[test]
fn test_rewrite_passes_malformed_a_record_through() {
    // An A-typed record without address data is handed on unchanged rather
    // than aborting the pipeline.
    let entry = example_entry();
    let malformed = DnsRecord {
        name: "odd.example.com".to_string(),
        record_type: RECORD_TYPE_A,
        dns_class: 1,
        ttl: 30,
        data: None,
    };
    let out = rewrite_records(&entry, vec![malformed]);
    assert_eq!(out.len(), 1);
    assert_eq!(out[0].data, None);
    assert_eq!(out[0].name, "odd.example.com".to_string());
}

#[test]
fn test_default_config_and_fallback() {
    let d = DnxConfig::default();
    assert_eq!(d.tcp_port, 53);
    assert_eq!(d.udp_port, 53);
    assert_eq!(d.default_server, ipv4(1, 1, 1, 1));
    assert!(d.zones.is_empty());

    let f = fallback_config();
    assert_eq!(f.zones.len(), 1);
    assert_eq!(f.zones[0].zone, "example.com".to_string());
    assert_eq!(f.zones[0].server, ipv4(192, 168, 0, 1));
    let rule = f.zones[0].nat.as_ref().expect("fallback zone has a translation");
    assert_eq!(rule.ip_original, ipv4(192, 168, 0, 0));
    assert_eq!(rule.ip_translation, ipv4(10, 0, 0, 0));
    assert_eq!(rule.mask, ipv4(255, 255, 0, 0));
}

#[test]
fn test_resolver_cache_reuses_first_handle() {
    let mut cache: ResolverCache<u64> = ResolverCache::new();
    let zone = "example.com".to_string();
    assert!(cache.lookup(&zone).is_none());

    cache.insert_if_absent(&zone, 41);
    assert_eq!(cache.lookup(&zone), Some(&41));

    // A racing second construction loses: the stored handle stays.
    cache.insert_if_absent(&zone, 99);
    assert_eq!(cache.lookup(&zone), Some(&41));

    let other = "other.org".to_string();
    assert!(cache.lookup(&other).is_none());
    cache.insert_if_absent(&other, 7);
    assert_eq!(cache.lookup(&other), Some(&7));
    assert_eq!(cache.lookup(&zone), Some(&41));
}

#[test]
fn test_later_zone_entry_wins_routing() {
    let mut zones = vec![example_entry()];
    zones.push(DnxEntry { zone: "example.com".to_string(), server: ipv4(4, 4, 4, 4), nat: None });
    let config =
        DnxConfig { zones, tcp_port: 53, udp_port: 53, default_server: ipv4(1, 1, 1, 1) };
    let handler = DnxRequestHandler::from_config(config);
    let entry = handler.route(&"foo.example.com".to_string());
    assert_eq!(entry.server, ipv4(4, 4, 4, 4));
}
