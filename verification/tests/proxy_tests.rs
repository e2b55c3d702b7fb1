use cc_switch::cli_proxy::{cli_proxy_action, follows_outbound_proxy, CliProxyAction, CliProxyConfig, CliProxyMode};
use cc_switch::global_proxy::{
    detected_proxies, invalid_proxy_error, next_probe, proxy_test_targets, status_check_targets, prepare_proxy_test, effective_proxy_status, get_upstream_proxy_status, next_sync_step,
    proxy_ports, proxy_test_result, proxy_url_setting, sync_proxy_result, SyncStep,
};
use cc_switch::json::JsonValue;
use cc_switch::plugin::{provider_credentials, vscode_sync_credentials, vscode_sync_plan};
use cc_switch::vscode_settings::{check_vscode_config_status, with_claude_env_vars, VscodeConfigStatus};

#[test]
fn blank_proxy_url_means_direct() {
    assert_eq!(proxy_url_setting("  "), None);
    assert_eq!(proxy_url_setting(""), None);
    assert_eq!(proxy_url_setting(" http://u:p@h:1 ").as_deref(), Some(" http://u:p@h:1 "));
}

#[test]
fn upstream_status_follows_the_url() {
    let s = get_upstream_proxy_status(Some("http://h:1".to_string()));
    assert!(s.enabled);
    assert_eq!(s.proxy_url.as_deref(), Some("http://h:1"));
    assert!(!get_upstream_proxy_status(None).enabled);
}

#[test]
fn proxy_test_outcomes() {
    assert_eq!(prepare_proxy_test(" \t").unwrap_err(), "Proxy URL is empty");
    assert_eq!(prepare_proxy_test("").unwrap_err(), "Proxy URL is empty");
    assert!(prepare_proxy_test("socks5://h:1").is_ok());
    assert!(prepare_proxy_test("http://127.0.0.1:7890").is_ok());
    let ok = proxy_test_result(&vec![Err("timeout".to_string()), Ok(())], 120);
    assert!(ok.success);
    assert_eq!(ok.latency_ms, 120);
    assert_eq!(ok.error, None);
    let bad = proxy_test_result(&vec![Err("a".to_string()), Err("b".to_string())], 30);
    assert!(!bad.success);
    assert_eq!(bad.error.as_deref(), Some("b"));
    let none = proxy_test_result(&vec![], 0);
    assert_eq!(none.error.as_deref(), Some("All test targets failed"));
}

#[test]
fn effective_status() {
    let s = effective_proxy_status(Some("http://h:1".to_string()), &vec![Ok(())], 5);
    assert_eq!(s.source, "explicit");
    assert!(s.reachable);
    assert_eq!(s.error, None);
    let s = effective_proxy_status(None, &vec![Err("x".to_string()), Err("y".to_string())], 9);
    assert_eq!(s.source, "system");
    assert!(!s.reachable);
    assert_eq!(s.error.as_deref(), Some("y"));
    assert_eq!(s.latency_ms, 9);
}

#[test]
fn local_proxy_detection() {
    assert_eq!(proxy_ports().len(), 8);
    let mut open = vec![false; 8];
    open[0] = true;
    open[2] = true;
    open[7] = true;
    let found = detected_proxies(&open);
    let urls: Vec<&str> = found.iter().map(|d| d.url.as_str()).collect();
    assert_eq!(urls, vec!["http://127.0.0.1:7890", "socks5://127.0.0.1:7890", "socks5://127.0.0.1:1080", "http://127.0.0.1:10809"]);
    assert_eq!(found[1].proxy_type, "socks5");
    assert_eq!(found[3].port, 10809);
    assert!(detected_proxies(&vec![false; 8]).is_empty());
}

#[test]
fn system_proxy_sync_steps() {
    assert!(matches!(next_sync_step(0, &vec![]), SyncStep::DirectNoProxyFound));
    assert!(matches!(next_sync_step(2, &vec![]), SyncStep::Test(0)));
    assert!(matches!(next_sync_step(2, &vec![false]), SyncStep::Test(1)));
    assert!(matches!(next_sync_step(2, &vec![false, true]), SyncStep::UseProxy(1)));
    assert!(matches!(next_sync_step(2, &vec![false, false]), SyncStep::DirectNoneReachable));
    assert!(sync_proxy_result(&SyncStep::Test(0), None).is_none());
    let r = sync_proxy_result(&SyncStep::UseProxy(0), Some("http://127.0.0.1:7890".to_string())).unwrap();
    assert_eq!(r.action, "proxy");
    assert_eq!(r.proxy_url.as_deref(), Some("http://127.0.0.1:7890"));
    let r = sync_proxy_result(&SyncStep::DirectNoneReachable, None).unwrap();
    assert_eq!(r.action, "direct");
    assert_eq!(r.message.as_deref(), Some("Found local proxies but none reachable"));
    let r = sync_proxy_result(&SyncStep::DirectNoProxyFound, None).unwrap();
    assert_eq!(r.message, None);
}

#[test]
fn cli_proxy_follows_the_mode() {
    let outbound = Some("http://o:1".to_string());
    let cfg = |mode, url: Option<&str>| CliProxyConfig { mode, independent_url: url.map(|u| u.to_string()) };
    assert!(matches!(cli_proxy_action(&cfg(CliProxyMode::Disabled, Some("http://i:2")), &outbound), CliProxyAction::ClearProxy));
    assert!(matches!(cli_proxy_action(&cfg(CliProxyMode::SyncOutbound, None), &outbound), CliProxyAction::UseProxy(ref u) if u == "http://o:1"));
    assert!(matches!(cli_proxy_action(&cfg(CliProxyMode::SyncOutbound, None), &Some(String::new())), CliProxyAction::ClearProxy));
    assert!(matches!(cli_proxy_action(&cfg(CliProxyMode::SyncOutbound, None), &None), CliProxyAction::ClearProxy));
    assert!(matches!(cli_proxy_action(&cfg(CliProxyMode::Independent, Some("http://i:2")), &outbound), CliProxyAction::UseProxy(ref u) if u == "http://i:2"));
    assert!(matches!(cli_proxy_action(&cfg(CliProxyMode::Independent, Some("")), &outbound), CliProxyAction::ClearProxy));
    assert!(follows_outbound_proxy(CliProxyMode::SyncOutbound));
    assert!(!follows_outbound_proxy(CliProxyMode::Independent));
}

#[test]
fn credentials_for_the_editor() {
    let cfg = JsonValue::Object(vec![(
        "env".to_string(),
        JsonValue::Object(vec![
            ("ANTHROPIC_AUTH_TOKEN".to_string(), JsonValue::Str("sk-1".to_string())),
            ("ANTHROPIC_BASE_URL".to_string(), JsonValue::Str("https://api.x".to_string())),
        ]),
    )]);
    assert_eq!(provider_credentials(&cfg), ("sk-1".to_string(), "https://api.x".to_string()));
    assert_eq!(provider_credentials(&JsonValue::Object(vec![])), (String::new(), String::new()));
    assert_eq!(vscode_sync_credentials(false, 15721, &cfg), ("sk-1".to_string(), "https://api.x".to_string()));
    assert_eq!(
        vscode_sync_credentials(true, 15721, &cfg),
        ("proxy-placeholder".to_string(), "http://127.0.0.1:15721".to_string())
    );
    assert_eq!(vscode_sync_credentials(true, 0, &cfg).1, "http://127.0.0.1:0");
}

#[test]
fn synced_editor_checks_out() {
    let provider = JsonValue::Object(vec![(
        "env".to_string(),
        JsonValue::Object(vec![
            ("ANTHROPIC_AUTH_TOKEN".to_string(), JsonValue::Str("sk-9".to_string())),
            ("ANTHROPIC_BASE_URL".to_string(), JsonValue::Str("https://api.y".to_string())),
        ]),
    )]);
    let editor = JsonValue::Object(vec![("workbench.colorTheme".to_string(), JsonValue::Str("Dark".to_string()))]);
    // proxy takeover, proxy running
    let (t, u) = vscode_sync_credentials(true, 15721, &provider);
    let synced = with_claude_env_vars(editor, &t, &u);
    assert!(matches!(check_vscode_config_status(true, &synced, true, 15721, "sk-9", "https://api.y"), VscodeConfigStatus::Matched));
    // direct mode
    let (t, u) = vscode_sync_credentials(false, 15721, &provider);
    let synced = with_claude_env_vars(synced.unwrap(), &t, &u);
    assert!(matches!(check_vscode_config_status(true, &synced, false, 15721, "sk-9", "https://api.y"), VscodeConfigStatus::Matched));
}

#[test]
fn rejected_proxy_url_is_reported_with_the_parser_message() {
    let err = prepare_proxy_test("not a url").unwrap_err();
    assert!(err.starts_with("Invalid proxy URL: "));
    assert!(err.len() > "Invalid proxy URL: ".len());
    assert_ne!(err, "Invalid proxy URL: not a url");
    assert_eq!(invalid_proxy_error("bad"), "Invalid proxy URL: bad");
}

#[test]
fn probing_stops_at_the_first_success() {
    assert_eq!(proxy_test_targets(), vec!["https://httpbin.org/get", "https://www.google.com", "https://api.anthropic.com"]);
    assert_eq!(status_check_targets(), vec!["https://api.anthropic.com", "https://httpbin.org/get"]);
    assert_eq!(next_probe(3, &vec![]), Some(0));
    assert_eq!(next_probe(3, &vec![Err("t".to_string())]), Some(1));
    assert_eq!(next_probe(3, &vec![Err("t".to_string()), Ok(())]), None);
    assert_eq!(next_probe(2, &vec![Err("a".to_string()), Err("b".to_string())]), None);
}

#[test]
fn syncing_the_editor_needs_the_integration_and_a_provider() {
    let provider = Some(JsonValue::Object(vec![(
        "env".to_string(),
        JsonValue::Object(vec![("ANTHROPIC_AUTH_TOKEN".to_string(), JsonValue::Str("sk".to_string()))]),
    )]));
    assert!(vscode_sync_plan(false, false, 15721, &provider).is_none());
    assert!(vscode_sync_plan(true, false, 15721, &None).is_none());
    assert_eq!(vscode_sync_plan(true, false, 15721, &provider), Some(("sk".to_string(), String::new())));
    assert_eq!(
        vscode_sync_plan(true, true, 15721, &provider),
        Some(("proxy-placeholder".to_string(), "http://127.0.0.1:15721".to_string()))
    );
}

#[test]
fn the_prepared_proxy_is_the_one_for_the_url() {
    let p = prepare_proxy_test("http://127.0.0.1:7890").unwrap();
    let shown = format!("{p:?}");
    assert!(shown.contains("127.0.0.1") && shown.contains("7890"));
    let q = prepare_proxy_test("socks5://10.1.2.3").unwrap();
    assert!(format!("{q:?}").contains("10.1.2.3"));
}
