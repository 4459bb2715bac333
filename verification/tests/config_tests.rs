use gitferry::config::{
    config_path, config_path_for, default_scan_candidates, downloads_dir_for, join, keep_flagged, AccountStatus,
    Config, Settings,
};
use gitferry::logging::{logs_dir, logs_dir_for};

#[test]
fn default_settings_skip_missing_roots() {
    let settings = Settings::default();
    assert!(settings
        .scan_roots
        .iter()
        .all(|p| std::path::Path::new(p).is_dir()));
    assert_eq!(settings.max_depth, 4);
}

#[test]
fn config_path_contains_app_dir() {
    assert!(config_path().ends_with("gitferry/config.json"));
}

#[test]
fn default_settings_values() {
    let s = Settings::default();
    assert_eq!(s.sync_interval_mins, 10);
    assert_eq!(s.concurrency, 2);
    let c = Config::default();
    assert!(c.repos.is_empty());
    assert!(!c.setup_done);
    assert_eq!(c.accounts.github.status, AccountStatus::Unconfigured);
    assert_eq!(c.accounts.gitee.status, AccountStatus::Unconfigured);
    assert!(c.accounts.github.login.is_none());
}

#[test]
fn paths_join_like_the_platform() {
    assert_eq!(
        config_path_for(Some("/home/u/.config".to_string())),
        "/home/u/.config/gitferry/config.json"
    );
    assert_eq!(config_path_for(None), "./gitferry/config.json");
    assert_eq!(join("/a/", "b"), "/a/b");
    assert_eq!(join("/a", "/b"), "/b");
    assert_eq!(join("", "b"), "b");
    assert_eq!(
        logs_dir_for(Some("/Users/me".to_string())),
        "/Users/me/Library/Logs/gitferry"
    );
    assert_eq!(logs_dir_for(None), "./Library/Logs/gitferry");
    assert!(logs_dir().ends_with("Library/Logs/gitferry"));
}

#[test]
fn default_candidates_in_order() {
    let c = default_scan_candidates("/h");
    assert_eq!(
        c,
        vec![
            "/h/Projects".to_string(),
            "/h/dev".to_string(),
            "/h/code".to_string(),
            "/h/Documents".to_string(),
            "/h/Downloads".to_string()
        ]
    );
    assert_eq!(downloads_dir_for("/h/"), "/h/Downloads");
    let kept = keep_flagged(&c, &vec![false, true, false, true, false]);
    assert_eq!(kept, vec!["/h/dev".to_string(), "/h/Documents".to_string()]);
}
