use cc_switch::host::{HostEnv, Platform};
use cc_switch::json::JsonValue;
use cc_switch::vscode_settings::{
    check_vscode_config_status, get_default_cursor_settings_path, get_default_path_for_ide,
    get_default_vscode_settings_path, get_default_windsurf_settings_path, get_vscode_settings_path,
    ide_kind, settings_path_under, updated_settings, updated_settings_text, cleared_settings_text, check_settings_text, cleared_settings, with_claude_env_vars, without_claude_env_vars, IdeKind, IdeSettings,
    VscodeConfigStatus,
};

const KEY: &str = "claudeCode.environmentVariables";

fn s(v: &str) -> JsonValue {
    JsonValue::Str(v.to_string())
}

fn entry(name: &str, value: &str) -> JsonValue {
    JsonValue::Object(vec![("name".to_string(), s(name)), ("value".to_string(), s(value))])
}

fn member<'a>(v: &'a JsonValue, key: &str) -> Option<&'a JsonValue> {
    match v {
        JsonValue::Object(m) => m.iter().find(|(k, _)| k == key).map(|(_, v)| v),
        _ => None,
    }
}

fn text(v: Option<&JsonValue>) -> Option<&str> {
    match v {
        Some(JsonValue::Str(s)) => Some(s.as_str()),
        _ => None,
    }
}

fn names(v: &JsonValue) -> Vec<String> {
    match member(v, KEY) {
        Some(JsonValue::Array(a)) => a.iter().map(|e| text(member(e, "name")).unwrap_or("").to_string()).collect(),
        _ => vec![],
    }
}

fn sample_settings() -> JsonValue {
    JsonValue::Object(vec![
        ("editor.fontSize".to_string(), JsonValue::Number("14".to_string())),
        (
            KEY.to_string(),
            JsonValue::Array(vec![
                entry("ANTHROPIC_AUTH_TOKEN", "old"),
                entry("HTTPS_PROXY", "http://p"),
                entry("ANTHROPIC_BASE_URL", "https://old"),
            ]),
        ),
        ("files.autoSave".to_string(), s("off")),
    ])
}

fn host(platform: Platform) -> HostEnv {
    HostEnv { platform, appdata: Some("C:\\Users\\a\\AppData\\Roaming".to_string()) }
}

#[test]
fn update_keeps_other_members_and_entries() {
    let after = with_claude_env_vars(sample_settings(), "sk-new", "https://api.new").unwrap();
    assert_eq!(names(&after), vec!["HTTPS_PROXY", "ANTHROPIC_AUTH_TOKEN", "ANTHROPIC_BASE_URL"]);
    assert!(matches!(member(&after, "editor.fontSize"), Some(JsonValue::Number(n)) if n == "14"));
    assert_eq!(text(member(&after, "files.autoSave")), Some("off"));
    if let Some(JsonValue::Array(a)) = member(&after, KEY) {
        assert_eq!(text(member(&a[1], "value")), Some("sk-new"));
        assert_eq!(text(member(&a[2], "value")), Some("https://api.new"));
    } else {
        panic!("no environment block");
    }
}

#[test]
fn update_adds_a_missing_block() {
    let after = with_claude_env_vars(JsonValue::Object(vec![]), "t", "u").unwrap();
    assert_eq!(names(&after), vec!["ANTHROPIC_AUTH_TOKEN", "ANTHROPIC_BASE_URL"]);
    assert!(with_claude_env_vars(JsonValue::Array(vec![]), "t", "u").is_none());
}

#[test]
fn clear_removes_only_the_block() {
    let after = without_claude_env_vars(sample_settings());
    assert!(member(&after, KEY).is_none());
    assert_eq!(text(member(&after, "files.autoSave")), Some("off"));
    assert!(matches!(without_claude_env_vars(JsonValue::Null), JsonValue::Null));
}

#[test]
fn status_variants() {
    let doc = Some(sample_settings());
    assert!(matches!(check_vscode_config_status(false, &doc, true, 15721, "", ""), VscodeConfigStatus::IntegrationDisabled));
    assert!(matches!(check_vscode_config_status(true, &None, true, 15721, "", ""), VscodeConfigStatus::NotFound));
    let empty = Some(JsonValue::Object(vec![]));
    assert!(matches!(check_vscode_config_status(true, &empty, true, 15721, "", ""), VscodeConfigStatus::NotFound));
    match check_vscode_config_status(true, &doc, false, 15721, "old", "https://other") {
        VscodeConfigStatus::Mismatch { current_base_url, vscode_base_url } => {
            assert_eq!(current_base_url, "https://other");
            assert_eq!(vscode_base_url, "https://old");
        },
        other => panic!("unexpected {other:?}"),
    }
    assert!(matches!(check_vscode_config_status(true, &doc, false, 15721, "old", "https://old"), VscodeConfigStatus::Matched));
    assert!(matches!(check_vscode_config_status(true, &doc, false, 15721, "", ""), VscodeConfigStatus::Matched));
    let proxied = with_claude_env_vars(sample_settings(), "proxy-placeholder", "http://127.0.0.1:15721");
    match check_vscode_config_status(true, &proxied, false, 15721, "", "https://x") {
        VscodeConfigStatus::ProxyNotRunning { base_url } => assert_eq!(base_url, "http://127.0.0.1:15721"),
        other => panic!("unexpected {other:?}"),
    }
    assert!(matches!(check_vscode_config_status(true, &proxied, true, 15721, "", "https://x"), VscodeConfigStatus::Matched));
    // the proxy address alone marks the proxy mode
    let by_url = with_claude_env_vars(sample_settings(), "sk", "http://127.0.0.1:8080");
    assert!(matches!(check_vscode_config_status(true, &by_url, false, 8080, "", ""), VscodeConfigStatus::ProxyNotRunning { .. }));
}

#[test]
fn check_after_update_matches() {
    let after = with_claude_env_vars(sample_settings(), "sk-1", "https://api.example.com");
    assert!(matches!(check_vscode_config_status(true, &after, false, 1, "sk-1", "https://api.example.com"), VscodeConfigStatus::Matched));
    let cleared = Some(without_claude_env_vars(after.unwrap()));
    assert!(matches!(check_vscode_config_status(true, &cleared, true, 1, "", "x"), VscodeConfigStatus::NotFound));
}

#[test]
fn default_paths_per_platform() {
    assert_eq!(
        settings_path_under(Platform::Other, IdeKind::Vscode, Some("/home/a".to_string()), None).unwrap(),
        vec!["/home/a", ".config", "Code", "User", "settings.json"]
    );
    assert_eq!(
        settings_path_under(Platform::MacOs, IdeKind::Cursor, Some("/Users/a".to_string()), None).unwrap(),
        vec!["/Users/a", "Library", "Application Support", "Cursor", "User", "settings.json"]
    );
    assert_eq!(
        settings_path_under(Platform::Windows, IdeKind::Windsurf, Some("/home/a".to_string()), Some("C:\\A".to_string())).unwrap(),
        vec!["C:\\A", "Windsurf", "User", "settings.json"]
    );
    assert!(settings_path_under(Platform::Windows, IdeKind::Vscode, Some("/h".to_string()), None).is_none());
    assert!(settings_path_under(Platform::Other, IdeKind::Vscode, None, Some("x".to_string())).is_none());
}

#[test]
fn default_paths_for_each_editor() {
    let w = host(Platform::Windows);
    assert_eq!(get_default_vscode_settings_path(&w).unwrap(), vec!["C:\\Users\\a\\AppData\\Roaming", "Code", "User", "settings.json"]);
    assert_eq!(get_default_cursor_settings_path(&w).unwrap()[1], "Cursor");
    assert_eq!(get_default_windsurf_settings_path(&w).unwrap()[1], "Windsurf");
    assert_eq!(get_default_path_for_ide("cursor", &w).unwrap()[1], "Cursor");
    assert_eq!(get_default_path_for_ide("something", &w).unwrap()[1], "Code");
    let linux = get_default_path_for_ide("windsurf", &host(Platform::Other));
    if let Some(p) = linux {
        assert_eq!(&p[1..], &[".config", "Windsurf", "User", "settings.json"]);
    }
    assert!(matches!(ide_kind("windsurf"), IdeKind::Windsurf));
    assert!(matches!(ide_kind("Cursor"), IdeKind::Vscode));
}

#[test]
fn custom_settings_path_wins() {
    let w = host(Platform::Windows);
    let custom = IdeSettings {
        vscode_settings_path: Some(" D:\\cfg\\settings.json".to_string()),
        ide_type: Some("cursor".to_string()),
        enable_claude_plugin_integration: true,
    };
    assert_eq!(get_vscode_settings_path(&custom, &w).unwrap(), vec![" D:\\cfg\\settings.json"]);
    let blank = IdeSettings { vscode_settings_path: Some("  ".to_string()), ide_type: Some("cursor".to_string()), enable_claude_plugin_integration: true };
    assert_eq!(get_vscode_settings_path(&blank, &w).unwrap()[1], "Cursor");
    let unset = IdeSettings { vscode_settings_path: None, ide_type: None, enable_claude_plugin_integration: false };
    assert_eq!(get_vscode_settings_path(&unset, &w).unwrap()[1], "Code");
}

#[test]
fn changed_key_with_same_url_is_a_mismatch() {
    let doc = Some(JsonValue::Object(vec![(
        KEY.to_string(),
        JsonValue::Array(vec![
            entry("ANTHROPIC_AUTH_TOKEN", "sk-old"),
            entry("ANTHROPIC_BASE_URL", "https://a.example"),
        ]),
    )]));
    let status = check_vscode_config_status(true, &doc, false, 15721, "sk-new", "https://a.example");
    assert!(matches!(status, VscodeConfigStatus::Mismatch { .. }));
    assert!(matches!(
        check_vscode_config_status(true, &doc, false, 15721, "sk-old", "https://a.example"),
        VscodeConfigStatus::Matched
    ));
}

fn same(a: &JsonValue, b: &JsonValue) -> bool {
    match (a, b) {
        (JsonValue::Null, JsonValue::Null) => true,
        (JsonValue::Bool(x), JsonValue::Bool(y)) => x == y,
        (JsonValue::Number(x), JsonValue::Number(y)) => x == y,
        (JsonValue::Str(x), JsonValue::Str(y)) => x == y,
        (JsonValue::Array(x), JsonValue::Array(y)) => x.len() == y.len() && x.iter().zip(y).all(|(p, q)| same(p, q)),
        (JsonValue::Object(x), JsonValue::Object(y)) => {
            x.len() == y.len() && x.iter().zip(y).all(|(p, q)| p.0 == q.0 && same(&p.1, &q.1))
        },
        _ => false,
    }
}

#[test]
fn second_identical_update_changes_nothing() {
    let once = with_claude_env_vars(sample_settings(), "sk-1", "https://api.example.com").unwrap();
    let again = with_claude_env_vars(sample_settings(), "sk-1", "https://api.example.com").unwrap();
    let twice = with_claude_env_vars(again, "sk-1", "https://api.example.com").unwrap();
    assert!(same(&once, &twice));
    assert_eq!(names(&twice), vec!["HTTPS_PROXY", "ANTHROPIC_AUTH_TOKEN", "ANTHROPIC_BASE_URL"]);
}

#[test]
fn unparsable_settings_are_left_alone() {
    assert!(updated_settings(None, "t", "u").is_none());
    assert!(cleared_settings(None).is_none());
    assert!(updated_settings(Some(JsonValue::Array(vec![])), "t", "u").is_none());
    let updated = updated_settings(Some(sample_settings()), "t", "u").unwrap();
    assert_eq!(names(&updated), vec!["HTTPS_PROXY", "ANTHROPIC_AUTH_TOKEN", "ANTHROPIC_BASE_URL"]);
    let cleared = cleared_settings(Some(sample_settings())).unwrap();
    assert!(member(&cleared, KEY).is_none());
    assert_eq!(text(member(&cleared, "files.autoSave")), Some("off"));
}

fn keys(v: &JsonValue) -> Vec<String> {
    match v {
        JsonValue::Object(m) => m.iter().map(|(k, _)| k.clone()).collect(),
        _ => vec![],
    }
}

#[test]
fn settings_text_is_parsed_and_updated() {
    let doc = r#"{"editor.fontSize": 14, "claudeCode.environmentVariables": [{"name": "HTTPS_PROXY", "value": "http://p"}, {"name": "ANTHROPIC_AUTH_TOKEN", "value": "old"}], "files.autoSave": "off"}"#;
    let after = updated_settings_text(doc, "sk-new", "https://api.new").unwrap();
    assert_eq!(names(&after), vec!["HTTPS_PROXY", "ANTHROPIC_AUTH_TOKEN", "ANTHROPIC_BASE_URL"]);
    assert_eq!(text(member(&after, "files.autoSave")), Some("off"));
    assert!(matches!(member(&after, "editor.fontSize"), Some(JsonValue::Number(n)) if n == "14"));
    // not JSON, or not an object: left alone
    assert!(updated_settings_text("{ // comment\n }", "t", "u").is_none());
    assert!(updated_settings_text("[1, 2]", "t", "u").is_none());
    assert!(cleared_settings_text("not json").is_none());
    let cleared = cleared_settings_text(doc).unwrap();
    assert!(member(&cleared, KEY).is_none());
    assert_eq!(keys(&cleared).len(), 2);
}

#[test]
fn each_key_occurs_once_after_an_update() {
    // a key repeated in the text is kept once, as serde_json reads it
    let after = updated_settings_text(r#"{"a": 1, "a": 2, "b": 3}"#, "t", "u").unwrap();
    let mut ks = keys(&after);
    let n = ks.len();
    ks.sort();
    ks.dedup();
    assert_eq!(ks.len(), n);
    assert_eq!(n, 3);
}

#[test]
fn settings_text_is_checked() {
    let doc = r#"{"claudeCode.environmentVariables": [{"name": "ANTHROPIC_AUTH_TOKEN", "value": "sk-old"}, {"name": "ANTHROPIC_BASE_URL", "value": "https://a.example"}]}"#;
    let some = Some(doc.to_string());
    assert!(matches!(check_settings_text(true, &some, false, 15721, "sk-old", "https://a.example"), VscodeConfigStatus::Matched));
    assert!(matches!(check_settings_text(true, &some, false, 15721, "sk-new", "https://a.example"), VscodeConfigStatus::Mismatch { .. }));
    assert!(matches!(check_settings_text(true, &Some("oops".to_string()), false, 1, "", ""), VscodeConfigStatus::NotFound));
    assert!(matches!(check_settings_text(true, &None, false, 1, "", ""), VscodeConfigStatus::NotFound));
    assert!(matches!(check_settings_text(false, &some, false, 1, "", ""), VscodeConfigStatus::IntegrationDisabled));
}
