use dnx::config::ipv4;
use dnx::entry::DnxEntry;
use dnx::trie::Tree;
use dnx::trie::TreeSortable;

fn entry(zone: &str, server: u32) -> DnxEntry {
    DnxEntry { zone: zone.to_string(), server, nat: None }
}

#[test]
fn test_get_path_splits_on_dots() {
    let path = "foo.example.com".to_string().get_path();
    assert_eq!(path, vec![b"foo".to_vec(), b"example".to_vec(), b"com".to_vec()]);
}

#[test]
fn test_get_path_of_empty_name_is_empty() {
    let path = "".to_string().get_path();
    assert_eq!(path.len(), 0);
}

#[test]
fn test_get_path_folds_ascii_case() {
    let path = "FOO.Example.COM".to_string().get_path();
    assert_eq!(path, vec![b"foo".to_vec(), b"example".to_vec(), b"com".to_vec()]);
}

#[test]
fn test_get_path_trailing_dot_yields_empty_label() {
    let path = "a.".to_string().get_path();
    assert_eq!(path, vec![b"a".to_vec(), b"".to_vec()]);
}

#[test]
fn test_find_exact_and_deeper_names() {
    let mut tree: Tree<DnxEntry> = Tree::new();
    tree.insert(entry("example.com", ipv4(192, 168, 0, 1)));

    let hit = tree.find(&"example.com".to_string()).expect("exact zone should match");
    assert_eq!(hit.server, ipv4(192, 168, 0, 1));

    let hit = tree.find(&"foo.example.com".to_string()).expect("subdomain should match");
    assert_eq!(hit.server, ipv4(192, 168, 0, 1));

    let hit = tree.find(&"a.b.foo.example.com".to_string()).expect("deep subdomain should match");
    assert_eq!(hit.server, ipv4(192, 168, 0, 1));
}

#[test]
fn test_find_prefers_longest_registered_suffix() {
    let mut tree: Tree<DnxEntry> = Tree::new();
    tree.insert(entry("com", ipv4(1, 0, 0, 1)));
    tree.insert(entry("example.com", ipv4(1, 0, 0, 2)));

    assert_eq!(tree.find(&"example.com".to_string()).unwrap().server, ipv4(1, 0, 0, 2));
    assert_eq!(tree.find(&"x.example.com".to_string()).unwrap().server, ipv4(1, 0, 0, 2));
    assert_eq!(tree.find(&"other.com".to_string()).unwrap().server, ipv4(1, 0, 0, 1));
}

#[test]
fn test_find_misses_unrelated_name() {
    let mut tree: Tree<DnxEntry> = Tree::new();
    tree.insert(entry("example.com", ipv4(192, 168, 0, 1)));
    assert!(tree.find(&"other.org".to_string()).is_none());
    assert!(tree.find(&"com".to_string()).is_none());
}

#[test]
fn test_find_reaches_zone_past_unregistered_intermediate() {
    // a.b.c is registered, b.c is not: a query below a.b.c must still match
    // a.b.c rather than die at the unregistered intermediate level.
    let mut tree: Tree<DnxEntry> = Tree::new();
    tree.insert(entry("a.b.c", ipv4(5, 5, 5, 5)));
    assert_eq!(tree.find(&"x.a.b.c".to_string()).unwrap().server, ipv4(5, 5, 5, 5));
    assert!(tree.find(&"x.c".to_string()).is_none());
    assert!(tree.find(&"b.c".to_string()).is_none());
}

#[test]
fn test_find_walk_stops_at_deepest_existing_node() {
    // The walk descends through existing nodes and does not back up to a
    // shorter registered suffix: with b and a.x.b registered, y.x.b dies at
    // the valueless x node.
    let mut tree: Tree<DnxEntry> = Tree::new();
    tree.insert(entry("b", ipv4(7, 0, 0, 1)));
    tree.insert(entry("a.x.b", ipv4(7, 0, 0, 2)));
    assert!(tree.find(&"y.x.b".to_string()).is_none());
    assert_eq!(tree.find(&"y.b".to_string()).unwrap().server, ipv4(7, 0, 0, 1));
}

#[test]
fn test_get_is_exact_only() {
    let mut tree: Tree<DnxEntry> = Tree::new();
    tree.insert(entry("example.com", ipv4(192, 168, 0, 1)));

    assert_eq!(tree.get(&"example.com".to_string()).unwrap().server, ipv4(192, 168, 0, 1));
    assert!(tree.get(&"foo.example.com".to_string()).is_none());
    assert!(tree.get(&"com".to_string()).is_none());
    assert!(tree.get(&"other.org".to_string()).is_none());
}

#[test]
fn test_get_is_case_insensitive() {
    let mut tree: Tree<DnxEntry> = Tree::new();
    tree.insert(entry("Example.COM", ipv4(8, 8, 8, 8)));
    assert_eq!(tree.get(&"eXample.com".to_string()).unwrap().server, ipv4(8, 8, 8, 8));
}

#[test]
fn test_insert_overwrites_and_returns_prior() {
    let mut tree: Tree<DnxEntry> = Tree::new();
    assert!(tree.insert(entry("example.com", ipv4(1, 1, 1, 1))).is_none());
    let prior = tree.insert(entry("example.com", ipv4(2, 2, 2, 2))).expect("prior entry returned");
    assert_eq!(prior.server, ipv4(1, 1, 1, 1));
    assert_eq!(tree.get(&"example.com".to_string()).unwrap().server, ipv4(2, 2, 2, 2));
}

#[test]
fn test_apex_entry_matches_empty_name_only() {
    let mut tree: Tree<DnxEntry> = Tree::new();
    tree.insert(entry("", ipv4(3, 3, 3, 3)));
    assert_eq!(tree.find(&"".to_string()).unwrap().server, ipv4(3, 3, 3, 3));
    assert_eq!(tree.get(&"".to_string()).unwrap().server, ipv4(3, 3, 3, 3));
    assert!(tree.get(&"anything.net".to_string()).is_none());
}

#[test]
fn test_get_path_single_dot_is_two_empty_labels() {
    let path = ".".to_string().get_path();
    assert_eq!(path, vec![b"".to_vec(), b"".to_vec()]);
}

#[test]
fn test_get_path_keeps_empty_middle_label() {
    let path = "a..b".to_string().get_path();
    assert_eq!(path, vec![b"a".to_vec(), b"".to_vec(), b"b".to_vec()]);
}
