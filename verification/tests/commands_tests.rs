use gitferry::auth::{Platform, VerifyOutcome};
use gitferry::commands::{
    apply_token_check, ensure_enabled, find_entry, mark_account_invalid, merge_scanned, payload, set_account,
    set_repo_config, set_repo_mirror, set_repos_config, RepoConfigInput, ScannedRepo,
};
use gitferry::config::{
    Account, AccountStatus, Config, Direction, HostKind, RemoteInfo, RepoEntry, RepoKind,
};
use gitferry::error::FerryError;

fn remote(name: &str, host: HostKind) -> RemoteInfo {
    RemoteInfo {
        name: name.to_string(),
        url: String::new(),
        host,
    }
}

fn entry(path: &str, enabled: bool, direction: Direction, mirror: bool) -> RepoEntry {
    RepoEntry {
        path: path.to_string(),
        enabled,
        direction,
        remotes: vec![remote("origin", HostKind::Github)],
        kind: RepoKind::GithubOnly,
        mirror_delete: mirror,
    }
}

fn config_with(repos: Vec<RepoEntry>) -> Config {
    let mut c = Config::default();
    c.repos = repos;
    c
}

fn message(e: FerryError) -> String {
    match e {
        FerryError::Message(m) => m,
        other => panic!("unexpected {:?}", other),
    }
}

#[test]
fn scan_merge_keeps_options_and_unscanned_repos() {
    let existing = vec![
        entry("/old", true, Direction::GithubToGitee, false),
        entry("/kept", true, Direction::GiteeToGithub, true),
    ];
    let scanned = vec![
        ScannedRepo {
            path: "/new".to_string(),
            remotes: vec![remote("g", HostKind::Gitee)],
        },
        ScannedRepo {
            path: "/kept".to_string(),
            remotes: vec![remote("o", HostKind::Github), remote("g", HostKind::Gitee)],
        },
    ];
    let merged = merge_scanned(&existing, &scanned);
    let paths: Vec<&str> = merged.iter().map(|e| e.path.as_str()).collect();
    assert_eq!(paths, vec!["/new", "/kept", "/old"]);
    assert!(!merged[0].enabled);
    assert_eq!(merged[0].direction, Direction::Both);
    assert_eq!(merged[0].kind, RepoKind::GiteeOnly);
    assert!(merged[1].enabled);
    assert_eq!(merged[1].direction, Direction::GiteeToGithub);
    assert!(merged[1].mirror_delete);
    assert_eq!(merged[1].kind, RepoKind::Both);
    assert_eq!(merged[1].remotes.len(), 2);
    assert_eq!(merged[2].direction, Direction::GithubToGitee);
}

#[test]
fn repo_options_change_only_the_named_repo() {
    let mut c = config_with(vec![
        entry("/a", false, Direction::Both, false),
        entry("/b", false, Direction::Both, true),
    ]);
    set_repo_config(&mut c, "/b", true, Direction::GiteeToGithub).unwrap();
    assert!(!c.repos[0].enabled);
    assert!(c.repos[1].enabled);
    assert_eq!(c.repos[1].direction, Direction::GiteeToGithub);
    assert!(c.repos[1].mirror_delete);
    let e = set_repo_config(&mut c, "/zzz", true, Direction::Both).unwrap_err();
    assert_eq!(message(e), "仓库未收录：/zzz");
}

#[test]
fn batch_options_stop_at_the_first_unknown_repo() {
    let mut c = config_with(vec![
        entry("/a", false, Direction::Both, false),
        entry("/b", false, Direction::Both, false),
    ]);
    let items = vec![
        RepoConfigInput {
            path: "/a".to_string(),
            enabled: true,
            direction: Direction::GithubToGitee,
        },
        RepoConfigInput {
            path: "/x".to_string(),
            enabled: true,
            direction: Direction::Both,
        },
        RepoConfigInput {
            path: "/b".to_string(),
            enabled: true,
            direction: Direction::Both,
        },
    ];
    let e = set_repos_config(&mut c, &items).unwrap_err();
    assert_eq!(message(e), "仓库未收录：/x");
    assert!(c.repos[0].enabled);
    assert!(!c.repos[1].enabled);
    let rest = vec![RepoConfigInput {
        path: "/b".to_string(),
        enabled: true,
        direction: Direction::Both,
    }];
    assert!(set_repos_config(&mut c, &rest).is_ok());
    assert!(c.repos[1].enabled);
}

#[test]
fn looking_up_repos_for_a_sync() {
    let c = config_with(vec![entry("/a", false, Direction::Both, false)]);
    let found = find_entry(&c, "/a").unwrap();
    assert_eq!(found.path, "/a");
    let e = find_entry(&c, "/b").unwrap_err();
    assert_eq!(
        message(e),
        "仓库未收录：/b。请先执行一次扫描，或检查仓库路径。"
    );
    let e = ensure_enabled(&found, "/a").unwrap_err();
    assert_eq!(
        message(e),
        "仓库未启用同步：/a。请先在仓库列表打开同步开关。"
    );
    let on = entry("/a", true, Direction::Both, false);
    assert!(ensure_enabled(&on, "/a").is_ok());
}

#[test]
fn accounts_are_recorded_per_platform() {
    let mut c = Config::default();
    set_account(
        &mut c,
        Platform::Gitee,
        Account {
            status: AccountStatus::Connected,
            login: Some("me".to_string()),
        },
    );
    assert_eq!(c.accounts.gitee.status, AccountStatus::Connected);
    assert_eq!(c.accounts.github.status, AccountStatus::Unconfigured);
    mark_account_invalid(&mut c, Platform::Gitee);
    assert_eq!(c.accounts.gitee.status, AccountStatus::Invalid);
    assert_eq!(c.accounts.gitee.login, Some("me".to_string()));
    let p = payload(&c);
    assert_eq!(p.accounts.gitee.status, AccountStatus::Invalid);
    assert!(!p.setup_done);
    assert_eq!(p.settings.max_depth, 4);
}

#[test]
fn mirror_mode_is_set_per_repo() {
    let mut c = config_with(vec![
        entry("/a", true, Direction::Both, false),
        entry("/b", true, Direction::GithubToGitee, false),
    ]);
    set_repo_mirror(&mut c, "/b", true).unwrap();
    assert!(!c.repos[0].mirror_delete);
    assert!(c.repos[1].mirror_delete);
    assert!(c.repos[1].enabled);
    assert_eq!(c.repos[1].direction, Direction::GithubToGitee);
    let e = set_repo_mirror(&mut c, "/nope", true).unwrap_err();
    assert_eq!(message(e), "仓库未收录：/nope");
}

#[test]
fn lookups_compare_paths_not_text() {
    let mut c = config_with(vec![entry("/x/repo", false, Direction::Both, false)]);
    assert!(set_repo_config(&mut c, "/x/repo/", true, Direction::GiteeToGithub).is_ok());
    assert!(c.repos[0].enabled);
    assert_eq!(c.repos[0].direction, Direction::GiteeToGithub);
    assert_eq!(c.repos[0].path, "/x/repo");
    assert!(set_repo_mirror(&mut c, "/x/./repo", true).is_ok());
    assert!(c.repos[0].mirror_delete);
    assert_eq!(find_entry(&c, "/x//repo").unwrap().path, "/x/repo");
    assert!(find_entry(&c, "/x/repo2").is_err());
    let merged = merge_scanned(
        &c.repos,
        &vec![ScannedRepo {
            path: "/x/repo/".to_string(),
            remotes: vec![remote("o", HostKind::Github)],
        }],
    );
    assert_eq!(merged.len(), 1);
    assert_eq!(merged[0].path, "/x/repo/");
    assert!(merged[0].enabled);
    assert!(merged[0].mirror_delete);
}

#[test]
fn only_a_refused_token_invalidates_its_account() {
    let mut c = config_with(vec![]);
    let connected = || Account {
        status: AccountStatus::Connected,
        login: Some("me".to_string()),
    };
    set_account(&mut c, Platform::Github, connected());
    set_account(&mut c, Platform::Gitee, connected());
    assert!(!apply_token_check(
        &mut c,
        Platform::Github,
        &VerifyOutcome::Connected("me".to_string())
    ));
    assert!(!apply_token_check(
        &mut c,
        Platform::Github,
        &VerifyOutcome::Unexpected("HTTP 500".to_string())
    ));
    assert_eq!(c.accounts.github.status, AccountStatus::Connected);
    assert!(apply_token_check(&mut c, Platform::Gitee, &VerifyOutcome::Unauthorized));
    assert_eq!(c.accounts.gitee.status, AccountStatus::Invalid);
    assert_eq!(c.accounts.gitee.login, Some("me".to_string()));
    assert_eq!(c.accounts.github.status, AccountStatus::Connected);
}
