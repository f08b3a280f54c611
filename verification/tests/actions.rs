use std::collections::HashSet;
use vaayu::actions::{actions, find, lookup_of, matching, resolve, Lookup, Resolved};

#[test]
fn no_duplicate_default_keys() {
    let mut seen = HashSet::new();
    for a in actions() {
        assert!(
            seen.insert(a.keys),
            "duplicate leader binding ,{} (action {})",
            a.keys,
            a.id
        );
    }
}

#[test]
fn no_duplicate_ids() {
    let mut seen = HashSet::new();
    for a in actions() {
        assert!(seen.insert(a.id), "duplicate action id {}", a.id);
    }
}

#[test]
fn dispatch_exact_and_prefix_and_nomatch() {
    let table = actions();
    assert!(matches!(lookup_of(resolve(&table, "h")), Lookup::Ran));
    assert!(matches!(lookup_of(resolve(&table, "r")), Lookup::Prefix));
    assert!(matches!(lookup_of(resolve(&table, "xyz")), Lookup::NoMatch));
}

#[test]
fn exact_match_names_the_action() {
    let table = actions();
    match resolve(&table, "w") {
        Resolved::Exact(i) => assert_eq!(table[i].id, "file.write"),
        _ => panic!("w must match exactly"),
    }
    assert_eq!(find(&table, "file.quit").map(|a| a.keys), Some("q"));
    assert!(find(&table, "no.such").is_none());
}

#[test]
fn matching_excludes_exact_and_unrelated() {
    let table = actions();
    let m = matching(&table, "f");
    let keys: Vec<_> = m.iter().map(|a| a.keys).collect();
    assert!(keys.contains(&"fr"));
    assert!(keys.contains(&"ff"));
    assert!(!keys.contains(&"w"));
}

#[test]
fn matching_is_sorted_by_keys_and_drops_the_exact_sequence() {
    let table = actions();
    let m = matching(&table, "l");
    let keys: Vec<_> = m.iter().map(|a| a.keys).collect();
    let mut sorted = keys.clone();
    sorted.sort();
    assert_eq!(keys, sorted);
    assert_eq!(keys.len(), 14);
    assert!(matching(&table, "w").is_empty());
    assert_eq!(matching(&table, "").len(), table.len());
}
