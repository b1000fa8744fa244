use activitywatch::classes::{
    classes_from_settings_json, default_classes, get_classes, setting_client_name,
};
use activitywatch::json::{Json, JsonMap};

fn text(value: &str) -> Json {
    Json::Text(value.to_string())
}

fn object(entries: Vec<(&str, Json)>) -> Json {
    let mut map = JsonMap::new();
    for (name, value) in entries {
        map.insert(name.to_string(), value);
    }
    Json::Object(map)
}

#[test]
fn get_classes_uses_server_setting_and_falls_back_to_defaults() {
    let default_names: Vec<_> = default_classes().into_iter().map(|(name, _)| name).collect();
    // [{"name":["Work","Rust"],"rule":{"type":"regex","regex":"cargo"}}]
    let setting = Json::Array(vec![object(vec![
        ("name", Json::Array(vec![text("Work"), text("Rust")])),
        ("rule", object(vec![("type", text("regex")), ("regex", text("cargo"))])),
    ])]);
    let classes = get_classes(Some(&setting));
    assert_eq!(classes.len(), 1);
    assert_eq!(classes[0].0, vec!["Work", "Rust"]);
    assert_eq!(classes[0].1.regex, "cargo");

    let unset: Vec<_> = get_classes(Some(&Json::Null)).into_iter().map(|(n, _)| n).collect();
    assert_eq!(unset, default_names);

    let failed: Vec<_> = get_classes(None).into_iter().map(|(n, _)| n).collect();
    assert_eq!(failed, default_names);
}

#[test]
fn the_default_classes_are_in_order() {
    let classes = default_classes();
    assert_eq!(classes.len(), 13);
    assert_eq!(classes[0].0, vec!["Work"]);
    assert_eq!(classes[0].1.regex, "Google Docs|libreoffice|ReText");
    assert_eq!(classes[2].0, vec!["Work", "Programming", "ActivityWatch"]);
    assert!(classes[2].1.ignore_case);
    assert_eq!(classes[12].0, vec!["Comms", "Email"]);
    assert!(classes.iter().all(|(_, rule)| rule.spec_type == "regex"));
    assert_eq!(classes.iter().filter(|(_, rule)| rule.ignore_case).count(), 3);
}

#[test]
fn classes_may_be_given_as_lists() {
    let setting = Json::Array(vec![Json::Array(vec![
        Json::Array(vec![text("Work")]),
        Json::Array(vec![text("regex"), text("x"), Json::Bool(true)]),
    ])]);
    let classes = classes_from_settings_json(&setting);
    assert_eq!(classes.len(), 1);
    assert_eq!(classes[0].0, vec!["Work"]);
    assert!(classes[0].1.ignore_case);
    assert!(classes_from_settings_json(&Json::Array(vec![])).is_empty());
}

#[test]
fn one_class_that_cannot_be_read_gives_the_defaults() {
    let good = object(vec![
        ("name", Json::Array(vec![text("Work")])),
        ("rule", object(vec![("type", text("regex")), ("regex", text("x"))])),
    ]);
    let no_regex = object(vec![
        ("name", Json::Array(vec![text("Work")])),
        ("rule", object(vec![("type", text("none"))])),
    ]);
    let bad_case = object(vec![
        ("name", Json::Array(vec![text("Work")])),
        (
            "rule",
            object(vec![
                ("type", text("regex")),
                ("regex", text("x")),
                ("ignore_case", Json::Null),
            ]),
        ),
    ]);
    for bad in [no_regex, bad_case, text("x"), Json::Bool(true)] {
        let setting = Json::Array(vec![good.clone(), bad]);
        assert_eq!(classes_from_settings_json(&setting).len(), 13);
    }
}

#[test]
fn setting_clients_are_named_by_a_number() {
    assert_eq!(setting_client_name(10000), "get-setting-10000");
    assert_eq!(setting_client_name(0), "get-setting-0");
}
