use store_overlay::closure::{parse_closure, split_lines, strip_prefix};
use store_overlay::error::StoreError;
use store_overlay::view::{join_path, listed_in_mount_table, ViewLayout};

fn sorted(v: Vec<String>) -> Vec<String> {
    let mut v = v;
    v.sort();
    v
}

#[test]
fn splits_lines() {
    assert_eq!(split_lines("a\nb\r\nc"), vec!["a", "b", "c"]);
    assert_eq!(split_lines("a\n\nb\n"), vec!["a", "", "b"]);
    assert!(split_lines("").is_empty());
    assert_eq!(split_lines("\n"), vec![""]);
    assert_eq!(split_lines("a\r\nb\r"), vec!["a", "b\r"]);
}

#[test]
fn strips_prefix() {
    assert_eq!(strip_prefix("/nix/store/abc-hello", "/nix/store/"), Some("abc-hello".to_string()));
    assert_eq!(strip_prefix("/nix/stor", "/nix/store/"), None);
    assert_eq!(strip_prefix("/usr/lib/x", "/nix/store/"), None);
    assert_eq!(strip_prefix("/nix/store/", "/nix/store/"), Some(String::new()));
}

#[test]
fn parses_closure_output() {
    let out = "/nix/store/aaa-glibc\n/nix/store/bbb-hello\n/nix/store/aaa-glibc\n";
    let set = parse_closure(out, "/nix/store/").unwrap();
    assert_eq!(sorted(set.to_vec()), vec!["aaa-glibc", "bbb-hello"]);
    let empty = parse_closure("", "/nix/store/").unwrap();
    assert!(empty.is_empty());
}

#[test]
fn rejects_unprefixed_line() {
    let out = "/nix/store/aaa-glibc\nerror: path not valid\n";
    assert_eq!(
        parse_closure(out, "/nix/store/").unwrap_err(),
        StoreError::Resolution("error: path not valid".to_string())
    );
}

#[test]
fn finds_path_in_mount_table() {
    let table = b"overlay on /var/lib/container-stores/x/merged type overlay (ro)\n";
    assert!(listed_in_mount_table(table, b"/var/lib/container-stores/x/merged"));
    assert!(!listed_in_mount_table(table, b"/var/lib/container-stores/y/merged"));
    assert!(!listed_in_mount_table(b"short", b"longer than table"));
    assert!(listed_in_mount_table(b"abc", b"abc"));
    assert!(listed_in_mount_table(b"xxabc", b"abc"));
}

#[test]
fn joins_paths() {
    assert_eq!(join_path("/var/lib", "x"), "/var/lib/x");
    assert_eq!(join_path("/var/lib/", "x"), "/var/lib/x");
    assert_eq!(join_path("/nix/store", ""), "/nix/store/");
}

#[test]
fn view_layout_paths() {
    let l = ViewLayout::new("/var/lib/container-stores", "web", "/nix/store");
    assert_eq!(l.base, "/var/lib/container-stores/web");
    assert_eq!(l.mask_dir(), "/var/lib/container-stores/web/upper");
    assert_eq!(l.merged_dir(), "/var/lib/container-stores/web/merged");
    assert_eq!(l.work_dir(), "/var/lib/container-stores/web/work");
    assert_eq!(l.store_prefix(), "/nix/store/");
    assert_eq!(l.marker_path("abc-hello"), "/var/lib/container-stores/web/upper/abc-hello");
    assert_eq!(
        l.lower_layers(),
        "lowerdir=/var/lib/container-stores/web/upper:/nix/store"
    );
}
