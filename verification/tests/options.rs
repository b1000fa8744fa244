use activitywatch::options::{
    legacy_database, parse_custom_static, parse_port, runs_testing, uses_legacy_import,
};

#[test]
fn static_paths_are_read() {
    let map = parse_custom_static("watcher1=/path,watcher2=/path2");
    assert_eq!(map.entries.len(), 2);
    assert_eq!(map.get("watcher1"), Some(&"/path".to_string()));
    assert_eq!(map.get("watcher2"), Some(&"/path2".to_string()));
    // The last one wins, and what follows a second sign is left out.
    let map = parse_custom_static("a=1,a=2=3,=");
    assert_eq!(map.get("a"), Some(&"2".to_string()));
    assert_eq!(map.get(""), Some(&String::new()));
}

#[test]
fn ports_are_read() {
    assert_eq!(parse_port("5600"), Some(5600));
    assert_eq!(parse_port("+80"), Some(80));
    assert_eq!(parse_port("65535"), Some(65535));
    assert_eq!(parse_port("65536"), None);
    assert_eq!(parse_port(" 80"), None);
    assert_eq!(parse_port(""), None);
    assert_eq!(parse_port("+"), None);
    assert_eq!(parse_port("-1"), None);
}

#[test]
fn options_decide_what_the_server_does() {
    assert!(runs_testing(true, false));
    assert!(runs_testing(false, true));
    assert!(!runs_testing(false, false));
    assert!(uses_legacy_import(false, false));
    assert!(!uses_legacy_import(true, false));
    assert!(!uses_legacy_import(false, true));
    assert_eq!(legacy_database(true), "sqlite-testing.db");
    assert_eq!(legacy_database(false), "sqlite.db");
}
