use vaayu::files::{from_uri, uri};

#[test]
fn absolute_path_becomes_a_file_uri() {
    assert_eq!(uri("/tmp/foo.txt"), "file:///tmp/foo.txt");
    assert_eq!(uri("/"), "file:///");
}

#[test]
fn uri_percent_encodes_its_path() {
    assert_eq!(uri("/a b/c#d.rs"), "file:///a%20b/c%23d.rs");
}

#[test]
fn file_uri_gives_back_its_path() {
    assert_eq!(from_uri("file:///etc/passwd"), Some("/etc/passwd".to_string()));
    assert_eq!(from_uri("file://localhost/etc/hosts"), Some("/etc/hosts".to_string()));
    assert_eq!(from_uri("file:///a%20b/c%23d.rs"), Some("/a b/c#d.rs".to_string()));
}

#[test]
fn uri_round_trips_through_from_uri() {
    let path = "/home/me/src/lib.rs";
    assert_eq!(from_uri(&uri(path)), Some(path.to_string()));
}

#[test]
fn other_uris_have_no_path() {
    assert_eq!(from_uri("not a uri"), None);
    assert_eq!(from_uri("file://example.com/x"), None);
    assert_eq!(from_uri("https://example.com/x"), None);
}
