use cc_switch::env_manager::{
    backup_dir_under, backup_file_name, backup_timestamp, backup_timestamp_at, plan_backup_at,
    whole_seconds_as_i64, env_proxy_value, next_deletion_step, DeletionStep, cli_proxy_summary, delete_failure_message, get_backup_dir,
    pip_conf_path, pip_conf_without_proxy, pip_proxy_config, plan_backup, plan_env_deletion,
    plan_env_restore, proxy_env_assignments, remove_var_assignments, restored_file_content,
    shell_rc_paths, shell_rc_with_proxy, shell_rc_without_proxy, EnvConflict, EnvEdit,
};
use cc_switch::host::Platform;

fn conflict(source_type: &str, source_path: &str) -> EnvConflict {
    EnvConflict {
        var_name: "ANTHROPIC_API_KEY".to_string(),
        var_value: "sk-test".to_string(),
        source_type: source_type.to_string(),
        source_path: source_path.to_string(),
    }
}

#[test]
fn test_backup_dir_creation() {
    let backup_dir = get_backup_dir();
    assert!(backup_dir.is_ok());
}

#[test]
fn backup_dir_is_below_home() {
    let dir = backup_dir_under(Some("/home/alice".to_string())).unwrap();
    assert_eq!(dir, vec!["/home/alice", ".cc-switch", "backups"]);
    assert_eq!(backup_dir_under(None).unwrap_err(), "无法获取用户主目录");
}

#[test]
fn backup_names_carry_the_timestamp() {
    assert_eq!(backup_file_name("20240102_030405"), "env-backup-20240102_030405.json");
    let plan = plan_backup().unwrap();
    assert_eq!(plan.file_name, format!("env-backup-{}.json", plan.timestamp));
    assert_eq!(plan.timestamp.len(), 15);
    assert_eq!(plan.dir[1], ".cc-switch");
}

#[test]
fn deletion_failure_names_the_backup() {
    assert_eq!(
        delete_failure_message("denied", "/b/x.json"),
        "删除环境变量失败: denied. 备份已保存到: /b/x.json"
    );
}

#[test]
fn removing_a_variable_drops_its_assignments() {
    let content = "export PATH=/bin\nexport ANTHROPIC_API_KEY=sk-1\n  ANTHROPIC_API_KEY = x\n# ANTHROPIC_API_KEY\nANTHROPIC_API_KEY_2=y\n";
    assert_eq!(
        remove_var_assignments(content, "ANTHROPIC_API_KEY"),
        "export PATH=/bin\n# ANTHROPIC_API_KEY\nANTHROPIC_API_KEY_2=y"
    );
    assert_eq!(remove_var_assignments("", "X"), "");
    assert_eq!(remove_var_assignments("a\r\nX=1\r\nb", "X"), "a\nb");
}

#[test]
fn restoring_appends_an_export() {
    assert_eq!(restored_file_content("export A=1", "KEY", "v a l"), "export A=1\nexport KEY=v a l");
    // the restored line is an assignment, so deleting the variable again takes it out
    let restored = restored_file_content("export A=1\n", "KEY", "v");
    assert_eq!(remove_var_assignments(&restored, "KEY"), "export A=1\n");
}

#[test]
fn deletion_plans() {
    let r = plan_env_deletion(Platform::Other, &conflict("file", "/home/a/.zshrc:12")).unwrap();
    assert!(matches!(r, EnvEdit::File(ref f) if f == "/home/a/.zshrc"));
    assert_eq!(plan_env_deletion(Platform::MacOs, &conflict("file", "/home/a/.zshrc")).unwrap_err(), "无效的文件路径格式");
    assert!(matches!(plan_env_deletion(Platform::Other, &conflict("system", "env")).unwrap(), EnvEdit::Nothing));
    assert_eq!(plan_env_deletion(Platform::Other, &conflict("registry", "x")).unwrap_err(), "未知的环境变量来源类型: registry");
    assert!(matches!(
        plan_env_deletion(Platform::Windows, &conflict("system", "HKEY_CURRENT_USER\\Environment")).unwrap(),
        EnvEdit::UserRegistry
    ));
    assert!(matches!(
        plan_env_deletion(Platform::Windows, &conflict("system", "HKEY_LOCAL_MACHINE\\SYSTEM")).unwrap(),
        EnvEdit::MachineRegistry
    ));
    assert!(matches!(plan_env_deletion(Platform::Windows, &conflict("system", "elsewhere")).unwrap(), EnvEdit::Nothing));
    assert_eq!(
        plan_env_deletion(Platform::Windows, &conflict("file", "a:1")).unwrap_err(),
        "Windows 系统不应该有文件类型的环境变量"
    );
    assert_eq!(plan_env_deletion(Platform::Windows, &conflict("other", "a")).unwrap_err(), "未知的环境变量来源类型: other");
}

#[test]
fn restore_plans() {
    let r = plan_env_restore(Platform::Other, &conflict("file", "/home/a/.bashrc:3")).unwrap();
    assert!(matches!(r, EnvEdit::File(ref f) if f == "/home/a/.bashrc"));
    let r = plan_env_restore(Platform::Other, &conflict("file", "/home/a/.bashrc")).unwrap();
    assert!(matches!(r, EnvEdit::File(ref f) if f == "/home/a/.bashrc"));
    assert_eq!(plan_env_restore(Platform::Other, &conflict("system", "x")).unwrap_err(), "无法恢复类型为 system 的环境变量");
    assert!(matches!(
        plan_env_restore(Platform::Windows, &conflict("system", "HKEY_CURRENT_USER\\Environment")).unwrap(),
        EnvEdit::UserRegistry
    ));
    assert_eq!(plan_env_restore(Platform::Windows, &conflict("file", "a:1")).unwrap_err(), "无法恢复类型为 file 的环境变量");
}

#[test]
fn proxy_assignments_cover_six_variables() {
    let a = proxy_env_assignments("http://127.0.0.1:7890");
    let names: Vec<&str> = a.iter().map(|p| p.0.as_str()).collect();
    assert_eq!(names, vec!["HTTP_PROXY", "http_proxy", "HTTPS_PROXY", "https_proxy", "NO_PROXY", "no_proxy"]);
    assert_eq!(a[3].1, "http://127.0.0.1:7890");
    assert_eq!(a[4].1, "localhost,127.0.0.1");
}

#[test]
fn shell_rc_gets_fresh_exports() {
    let content = "alias ll='ls -l'\nexport HTTP_PROXY=old\n  export no_proxy=x\n";
    assert_eq!(
        shell_rc_with_proxy(content, "http://p:1"),
        "alias ll='ls -l'\nexport HTTP_PROXY=http://p:1\nexport http_proxy=http://p:1\nexport HTTPS_PROXY=http://p:1\nexport https_proxy=http://p:1\nexport NO_PROXY=localhost,127.0.0.1\nexport no_proxy=localhost,127.0.0.1"
    );
    assert_eq!(
        shell_rc_with_proxy("", "u"),
        "\nexport HTTP_PROXY=u\nexport http_proxy=u\nexport HTTPS_PROXY=u\nexport https_proxy=u\nexport NO_PROXY=localhost,127.0.0.1\nexport no_proxy=localhost,127.0.0.1"
    );
}

#[test]
fn clearing_undoes_setting() {
    let set = shell_rc_with_proxy("export PATH=/bin\n", "http://p:1");
    assert_eq!(shell_rc_without_proxy(&set), "export PATH=/bin");
    assert_eq!(shell_rc_without_proxy("a\n export https_proxy=1\nexport FOO=1\nexport HTTP_PROXYX=2"), "a\nexport FOO=1\nexport HTTP_PROXYX=2");
}

#[test]
fn shell_and_pip_files() {
    assert_eq!(shell_rc_paths("/home/a"), vec!["/home/a/.bashrc", "/home/a/.zshrc", "/home/a/.profile"]);
    assert_eq!(pip_conf_path(Platform::Windows, "C:\\Users\\a"), vec!["C:\\Users\\a", "pip", "pip.ini"]);
    assert_eq!(pip_conf_path(Platform::Other, "/home/a"), vec!["/home/a", ".config", "pip", "pip.conf"]);
}

#[test]
fn pip_proxy_config_round_trip() {
    let conf = pip_proxy_config("http://127.0.0.1:7890");
    assert_eq!(conf, "[global]\nproxy = http://127.0.0.1:7890\n");
    assert_eq!(pip_conf_without_proxy(&conf), "[global]");
    assert_eq!(pip_conf_without_proxy("[global]\n  proxy=1\nindex-url = x\n"), "[global]\nindex-url = x");
    let summary = cli_proxy_summary(&None, &None, &None, &Some(conf));
    assert_eq!(summary.as_deref(), Some("pip: http://127.0.0.1:7890"));
}

#[test]
fn proxy_summary_lists_each_source() {
    let s = cli_proxy_summary(
        &Some("http://e:1".to_string()),
        &Some("  http://g:2\n".to_string()),
        &Some("null\n".to_string()),
        &Some("[global]\nproxy = a=b\nproxyx=\nproxy\n".to_string()),
    );
    assert_eq!(s.as_deref(), Some("ENV: http://e:1 | Git: http://g:2 | pip: a"));
    let s = cli_proxy_summary(&None, &Some("".to_string()), &Some("http://n:3".to_string()), &None);
    assert_eq!(s.as_deref(), Some("npm: http://n:3"));
    assert_eq!(cli_proxy_summary(&None, &Some(" ".to_string()), &Some("undefined".to_string()), &Some("".to_string())), None);
}

#[test]
fn setting_the_proxy_twice_is_setting_it_once() {
    let content = "alias ll='ls -l'\nexport HTTP_PROXY=old\n  export no_proxy=x\nexport PATH=/bin\n";
    let once = shell_rc_with_proxy(content, "http://127.0.0.1:7890");
    let twice = shell_rc_with_proxy(&once, "http://127.0.0.1:7890");
    assert_eq!(twice, once);
    assert_eq!(once.matches("export NO_PROXY=localhost,127.0.0.1").count(), 1);
    let from_empty = shell_rc_with_proxy("", "u");
    assert_eq!(shell_rc_with_proxy(&from_empty, "u"), from_empty);
}

#[test]
fn clearing_after_setting_is_clearing_alone() {
    let content = "export PATH=/bin\nexport https_proxy=old\nalias g=git\n";
    let set = shell_rc_with_proxy(content, "socks5://h:1080");
    assert_eq!(shell_rc_without_proxy(&set), shell_rc_without_proxy(content));
    assert_eq!(shell_rc_without_proxy(&shell_rc_with_proxy("", "u")), shell_rc_without_proxy(""));
}

#[test]
fn restoring_brings_back_the_exact_export_line() {
    let restored = restored_file_content("export A=1\n", "ANTHROPIC_API_KEY", "sk-test");
    assert_eq!(restored.lines().last(), Some("export ANTHROPIC_API_KEY=sk-test"));
    assert!(restored.lines().any(|l| l == "export ANTHROPIC_API_KEY=sk-test"));
}

#[test]
fn backup_timestamp_has_the_file_name_shape() {
    let t = backup_timestamp().unwrap();
    assert_eq!(t.len(), 15);
    assert_eq!(&t[8..9], "_");
    assert!(t.chars().enumerate().all(|(i, c)| i == 8 || c.is_ascii_digit()));
}

#[test]
fn backup_timestamps_of_given_times() {
    assert_eq!(backup_timestamp_at(0).as_deref(), Some("19700101_000000"));
    assert_eq!(backup_timestamp_at(1431648000).as_deref(), Some("20150515_000000"));
    assert_eq!(backup_timestamp_at(1704164645).as_deref(), Some("20240102_030405"));
    assert_eq!(backup_timestamp_at(i64::MAX), None);
    assert_eq!(whole_seconds_as_i64(42), Some(42));
    assert_eq!(whole_seconds_as_i64(u64::MAX), None);
    assert_eq!(whole_seconds_as_i64(i64::MAX as u64), Some(i64::MAX));
}

#[test]
fn backup_plans_for_given_home_and_time() {
    let plan = plan_backup_at(Some("/home/a".to_string()), Some(1704164645)).unwrap();
    assert_eq!(plan.dir, vec!["/home/a", ".cc-switch", "backups"]);
    assert_eq!(plan.timestamp, "20240102_030405");
    assert_eq!(plan.file_name, "env-backup-20240102_030405.json");
    assert_eq!(plan_backup_at(None, Some(0)).unwrap_err(), "无法获取用户主目录");
    assert_eq!(plan_backup_at(Some("/h".to_string()), None).unwrap_err(), "无法获取当前时间");
    assert_eq!(plan_backup_at(Some("/h".to_string()), Some(i64::MAX)).unwrap_err(), "无法获取当前时间");
}

#[test]
fn setting_twice_with_carriage_returns() {
    for (content, url) in [("", "http://h:1\r"), ("a\r", "u"), ("a\r\r\r\r\r\r\nb", "u\r\r")] {
        let once = shell_rc_with_proxy(content, url);
        assert_eq!(shell_rc_with_proxy(&once, url), once);
    }
    // a line ending in seven carriage returns loses one more on each setting
    let content = "a\r\r\r\r\r\r\r\n";
    let once = shell_rc_with_proxy(content, "u");
    assert_ne!(shell_rc_with_proxy(&once, "u"), once);
}

#[test]
fn clearing_after_setting_with_carriage_returns_in_the_url() {
    for (content, url) in [("", "http://h:1\r"), ("export PATH=/bin\nexport HTTP_PROXY=x\r", "u\r")] {
        let set = shell_rc_with_proxy(content, url);
        assert_eq!(shell_rc_without_proxy(&set), shell_rc_without_proxy(content));
    }
    // a kept line ending in a carriage return loses it
    let set = shell_rc_with_proxy("a\r", "u");
    assert_ne!(shell_rc_without_proxy(&set), shell_rc_without_proxy("a\r"));
}

#[test]
fn upper_case_proxy_variable_wins() {
    assert_eq!(env_proxy_value(Some("A".to_string()), Some("b".to_string())).as_deref(), Some("A"));
    assert_eq!(env_proxy_value(None, Some("b".to_string())).as_deref(), Some("b"));
    assert_eq!(env_proxy_value(None, None), None);
}

#[test]
fn deletion_stops_at_the_first_failure() {
    assert!(matches!(next_deletion_step(2, &vec![], "/b.json"), DeletionStep::Delete(0)));
    assert!(matches!(next_deletion_step(2, &vec![Ok(())], "/b.json"), DeletionStep::Delete(1)));
    assert!(matches!(next_deletion_step(2, &vec![Ok(()), Ok(())], "/b.json"), DeletionStep::Done));
    match next_deletion_step(2, &vec![Err("denied".to_string())], "/b.json") {
        DeletionStep::Failed(m) => assert_eq!(m, "删除环境变量失败: denied. 备份已保存到: /b.json"),
        other => panic!("unexpected {other:?}"),
    }
}

#[test]
fn summary_after_setting_lists_git_and_pip() {
    let url = "http://127.0.0.1:7890";
    let summary = cli_proxy_summary(&None, &Some(format!("{url}\n")), &None, &Some(pip_proxy_config(url))).unwrap();
    let parts: Vec<&str> = summary.split(" | ").collect();
    assert!(parts.contains(&"Git: http://127.0.0.1:7890"));
    assert!(parts.contains(&"pip: http://127.0.0.1:7890"));
}

#[test]
fn backup_timestamps_cover_chrono_range() {
    assert!(backup_timestamp_at(8210266876799).is_some());
    assert_eq!(backup_timestamp_at(8210266876800), None);
    assert!(backup_timestamp_at(-8334601228800).is_some());
    assert_eq!(backup_timestamp_at(-8334601228801), None);
    assert_eq!(backup_timestamp_at(253402300800).as_deref(), Some("+100000101_000000"));
    assert!(plan_backup_at(Some("/h".to_string()), Some(253402300800)).is_ok());
}

#[test]
fn url_with_a_final_newline_sets_and_clears_like_one_without() {
    for url in ["a\n", "\n", "http://h:1\r\n"] {
        let content = "export PATH=/bin\nexport HTTP_PROXY=old\n";
        let once = shell_rc_with_proxy(content, url);
        assert_eq!(shell_rc_with_proxy(&once, url), once);
        assert_eq!(shell_rc_without_proxy(&once), shell_rc_without_proxy(content));
    }
    // a newline followed by other text leaves that text behind each time
    let once = shell_rc_with_proxy("", "a\nb");
    assert_ne!(shell_rc_with_proxy(&once, "a\nb"), once);
}

#[test]
fn restoring_several_variables_into_one_file() {
    let mut content = "export PATH=/bin\n".to_string();
    let vars = [("A_KEY", "1"), ("B_KEY", "two words"), ("C_KEY", "")];
    for (n, v) in vars {
        content = restored_file_content(&content, n, v);
    }
    let lines: Vec<&str> = content.lines().collect();
    assert_eq!(&lines[lines.len() - 3..], &["export A_KEY=1", "export B_KEY=two words", "export C_KEY="]);
}
