use std::path::PathBuf;

use activitywatch::config::{
    config_from_entries, config_from_file, config_path, load_config, parse_config, ClientConfig,
    Seconds, TomlEntry, TomlSection, TomlValue,
};

fn seconds(n: f64) -> Seconds {
    Seconds { bits: n.to_bits() }
}

#[test]
fn empty_file_gives_defaults() {
    assert_eq!(
        parse_config("", false).unwrap(),
        ClientConfig::default_for(false)
    );
    assert_eq!(
        parse_config("", true).unwrap(),
        ClientConfig {
            hostname: "127.0.0.1".to_string(),
            port: 5666,
            commit_interval: seconds(5.0)
        }
    );
}

#[test]
fn python_default_file_parses() {
    let raw = r#"
[server]
hostname = "127.0.0.1"
port = "5600"

[client]
commit_interval = 10

[server-testing]
hostname = "127.0.0.1"
port = "5666"

[client-testing]
commit_interval = 5
"#;
    assert_eq!(
        parse_config(raw, false).unwrap(),
        ClientConfig::default_for(false)
    );
    assert_eq!(
        parse_config(raw, true).unwrap(),
        ClientConfig::default_for(true)
    );
}

#[test]
fn partial_file_overrides_only_what_it_sets() {
    let raw = "[server]\nport = 5700\n[client]\ncommit_interval = 2.5\n[server-testing]\nhostname = \"10.0.0.2\"\n";
    assert_eq!(
        parse_config(raw, false).unwrap(),
        ClientConfig {
            hostname: "127.0.0.1".to_string(),
            port: 5700,
            commit_interval: seconds(2.5)
        }
    );
    assert_eq!(
        parse_config(raw, true).unwrap(),
        ClientConfig {
            hostname: "10.0.0.2".to_string(),
            port: 5666,
            commit_interval: seconds(5.0)
        }
    );
}

#[test]
fn invalid_values_are_errors() {
    assert!(parse_config("[server]\nport = \"http\"\n", false).is_err());
    assert!(parse_config("[server]\nport = 70000\n", false).is_err());
    assert!(parse_config("server = 1\n", false).is_err());
    assert!(parse_config("[client]\ncommit_interval = \"soon\"\n", false).is_err());
    assert!(parse_config("[client]\ncommit_interval = -1\n", false).is_err());
    assert!(parse_config("[client]\ncommit_interval = nan\n", false).is_err());
    assert!(parse_config("[client]\ncommit_interval = inf\n", false).is_err());
    assert_eq!(
        parse_config("[client]\ncommit_interval = 0\n", false)
            .unwrap()
            .commit_interval,
        seconds(0.0)
    );
    assert!(parse_config("not toml", false).is_err());
}

#[test]
fn config_path_is_under_activitywatch() {
    let path: PathBuf = config_path(false).iter().collect();
    assert!(path.ends_with("activitywatch/aw-client/aw-client.toml"));
    let path: PathBuf = config_path(true).iter().collect();
    assert!(path.ends_with("activitywatch/activitywatch/aw-client/aw-client.toml"));
}

#[test]
fn errors_name_the_section_and_the_value() {
    let error = |raw: &str, testing: bool| parse_config(raw, testing).unwrap_err();
    assert_eq!(error("server = 1", false), "[server] must be a table");
    assert_eq!(error("client = []", false), "[client] must be a table");
    assert_eq!(
        error("[server-testing]\nhostname = 1", true),
        "[server-testing] hostname must be a string"
    );
    assert_eq!(
        error("[server]\nport = 65536", false),
        "[server] port must be a port number"
    );
    assert_eq!(
        error("[server]\nport = 1.5", false),
        "[server] port must be a port number"
    );
    assert_eq!(
        error("[client]\ncommit_interval = true", false),
        "[client] commit_interval must be a number"
    );
    assert_eq!(
        error("[client-testing]\ncommit_interval = -0.5", true),
        "[client-testing] commit_interval must be a non-negative number of seconds"
    );
    assert_eq!(
        error("[client]\ncommit_interval = -inf", false),
        "[client] commit_interval must be a non-negative number of seconds"
    );
}

#[test]
fn ports_may_be_texts() {
    let port = |raw: &str| parse_config(raw, false).unwrap().port;
    assert_eq!(port("[server]\nport = \" 5700 \""), 5700);
    assert_eq!(port("[server]\nport = \"+80\""), 80);
    assert_eq!(port("[server]\nport = 0"), 0);
    assert!(parse_config("[server]\nport = \"65536\"", false).is_err());
    assert!(parse_config("[server]\nport = \"\"", false).is_err());
}

#[test]
fn a_negative_zero_is_no_negative_number() {
    let config = parse_config("[client]\ncommit_interval = -0.0", false).unwrap();
    assert_eq!(config.commit_interval, seconds(-0.0));
}

#[test]
fn entries_make_up_a_configuration() {
    let config = config_from_entries(
        TomlEntry::Text("host".to_string()),
        TomlEntry::Integer(65535),
        TomlEntry::NoKey,
        true,
    )
    .unwrap();
    assert_eq!(config.hostname, "host");
    assert_eq!(config.port, 65535);
    assert_eq!(config.commit_interval, seconds(5.0));
    let error = config_from_entries(
        TomlEntry::NotATable,
        TomlEntry::Other,
        TomlEntry::Other,
        false,
    );
    assert_eq!(error.unwrap_err(), "[server] must be a table");
}

#[test]
fn a_broken_configuration_gives_the_defaults() {
    assert_eq!(load_config(None, true), ClientConfig::default_for(true));
    assert_eq!(load_config(Some("not toml"), false), ClientConfig::default_for(false));
    assert_eq!(load_config(Some("[server]\nport = 1"), false).port, 1);
}

#[test]
fn a_file_makes_up_a_configuration() {
    let table = |values: Vec<(&str, TomlValue)>| {
        TomlSection::Table(values.into_iter().map(|(k, v)| (k.to_string(), v)).collect())
    };
    let file = vec![
        (
            "server".to_string(),
            table(vec![
                ("hostname", TomlValue::Text("host".to_string())),
                ("port", TomlValue::Integer(1)),
            ]),
        ),
        (
            "client".to_string(),
            table(vec![("commit_interval", TomlValue::Fraction(2.5f64.to_bits()))]),
        ),
        ("client-testing".to_string(), TomlSection::NotATable),
    ];
    let config = config_from_file(Ok(file), false).unwrap();
    assert_eq!((config.hostname.as_str(), config.port), ("host", 1));
    assert_eq!(config.commit_interval, seconds(2.5));
    let file = vec![("client-testing".to_string(), TomlSection::NotATable)];
    assert_eq!(
        config_from_file(Ok(file), true).unwrap_err(),
        "[client-testing] must be a table"
    );
    assert_eq!(config_from_file(Err("no".to_string()), true).unwrap_err(), "no");
}

#[test]
fn intervals_compare_as_numbers() {
    let interval = |text: &str| {
        parse_config(&format!("[client]\ncommit_interval = {text}"), false)
            .unwrap()
    };
    assert_eq!(interval("10.0"), interval("10"));
    assert_eq!(interval("10"), ClientConfig::default_for(false));
    assert_eq!(interval("-0.0"), interval("0"));
    assert_ne!(interval("10.5"), interval("10"));
    assert_ne!(seconds(f64::NAN), seconds(f64::NAN));
    for n in [
        0,
        1,
        2,
        3,
        5,
        10,
        1000,
        4_503_599_627_370_495,
        4_503_599_627_370_496,
        9_007_199_254_740_991,
        9_007_199_254_740_992,
        9_007_199_254_740_993,
        9_007_199_254_740_995,
        18_014_398_509_481_983,
        18_014_398_509_481_986,
        18_014_398_509_481_990,
        1_234_567_890_123_456_789,
        i64::MAX - 512,
        i64::MAX - 511,
        i64::MAX,
    ] {
        assert_eq!(Seconds::whole(n as u64).bits, (n as f64).to_bits(), "{n}");
        assert_eq!(interval(&n.to_string()).commit_interval.bits, (n as f64).to_bits());
    }
}
