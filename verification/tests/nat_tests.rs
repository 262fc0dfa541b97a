use dnx::config::ipv4;
use dnx::entry::DnxEntry;
use dnx::nat_rule::DnxNatEntry;

#[test]
fn test_dnx_nat_entry_matches() {
    let nat_entry = DnxNatEntry {
        ip_original: ipv4(192, 168, 0, 0),
        ip_translation: ipv4(10, 0, 0, 0),
        mask: ipv4(255, 255, 0, 0),
    };

    assert!(nat_entry.matches(ipv4(192, 168, 1, 1)));
    assert!(!nat_entry.matches(ipv4(10, 0, 0, 1)));
}

#[test]
fn test_dnx_nat_entry_translate() {
    let nat_entry = DnxNatEntry {
        ip_original: ipv4(192, 168, 0, 0),
        ip_translation: ipv4(10, 0, 0, 0),
        mask: ipv4(255, 255, 0, 0),
    };

    assert_eq!(nat_entry.translate(ipv4(192, 168, 1, 1)), ipv4(10, 0, 1, 1));
    assert_eq!(nat_entry.translate(ipv4(10, 0, 0, 1)), ipv4(10, 0, 0, 1));
}

#[test]
fn test_dnx_entry_translate() {
    let dnx_entry = DnxEntry {
        zone: "example.com".to_string(),
        server: ipv4(192, 168, 0, 1),
        nat: Some(DnxNatEntry {
            ip_original: ipv4(192, 168, 0, 0),
            ip_translation: ipv4(10, 0, 0, 0),
            mask: ipv4(255, 255, 0, 0),
        }),
    };

    assert_eq!(dnx_entry.translate(ipv4(192, 168, 1, 1)), ipv4(10, 0, 1, 1));
    assert_eq!(dnx_entry.translate(ipv4(10, 0, 0, 1)), ipv4(10, 0, 0, 1));
}

#[test]
fn test_entry_without_nat_is_identity() {
    let entry = DnxEntry {
        zone: "plain.org".to_string(),
        server: ipv4(9, 9, 9, 9),
        nat: None,
    };
    assert_eq!(entry.translate(ipv4(192, 168, 1, 1)), ipv4(192, 168, 1, 1));
}

#[test]
fn test_translate_is_idempotent_when_translation_misses_rule() {
    // 10.0.0.0/16 does not match the 192.168.0.0/16 rule, so a second
    // application changes nothing.
    let rule = DnxNatEntry {
        ip_original: ipv4(192, 168, 0, 0),
        ip_translation: ipv4(10, 0, 0, 0),
        mask: ipv4(255, 255, 0, 0),
    };
    assert!(!rule.matches(rule.ip_translation));
    let once = rule.translate(ipv4(192, 168, 77, 5));
    assert_eq!(rule.translate(once), once);
}

#[test]
fn test_translate_preserves_host_bits() {
    let rule = DnxNatEntry {
        ip_original: ipv4(172, 16, 0, 0),
        ip_translation: ipv4(10, 99, 0, 0),
        mask: ipv4(255, 255, 0, 0),
    };
    assert_eq!(rule.translate(ipv4(172, 16, 200, 31)), ipv4(10, 99, 200, 31));
}
