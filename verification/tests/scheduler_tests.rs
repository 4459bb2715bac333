use gitferry::auth::Platform;
use gitferry::config::{
    Account, AccountStatus, Accounts, Direction, HostKind, RemoteInfo, RepoEntry, RepoKind,
};
use gitferry::scheduler::{
    accounts_to_verify, backoff_multiplier, is_due, select_repos, should_retry, update_schedules,
    RepoSchedule, ScheduleTable, Scheduler, BACKOFF_MULTIPLIER, BACKOFF_THRESHOLD,
};
use gitferry::state::SyncTable;
use gitferry::sync::{RepoSyncResult, RepoSyncState, SyncStatus};

fn entry(path: &str, enabled: bool, kind: RepoKind) -> RepoEntry {
    RepoEntry {
        path: path.to_string(),
        enabled,
        direction: Direction::Both,
        remotes: vec![RemoteInfo {
            name: "origin".into(),
            url: "git@github.com:a/b.git".into(),
            host: HostKind::Github,
        }],
        kind,
        mirror_delete: false,
    }
}

fn state(status: SyncStatus) -> RepoSyncState {
    RepoSyncState {
        status,
        ..Default::default()
    }
}

#[test]
fn backoff_multiplier_boundaries() {
    assert_eq!(backoff_multiplier(0), 1);
    assert_eq!(backoff_multiplier(1), 1);
    assert_eq!(backoff_multiplier(2), 1);
    assert_eq!(backoff_multiplier(BACKOFF_THRESHOLD), BACKOFF_MULTIPLIER);
    assert_eq!(backoff_multiplier(10), 3);
}

#[test]
fn is_due_cases() {
    assert!(is_due(&RepoSchedule::default(), 10, 0));
    let ran = RepoSchedule {
        fail_streak: 0,
        last_attempt: Some(1_000),
    };
    assert!(!is_due(&ran, 10, 1_599));
    assert!(is_due(&ran, 10, 1_600));
    let failing = RepoSchedule {
        fail_streak: 3,
        last_attempt: Some(1_000),
    };
    assert!(!is_due(&failing, 10, 2_799));
    assert!(is_due(&failing, 10, 2_800));
}

#[test]
fn select_repos_filters() {
    let entries = vec![
        entry("/a", true, RepoKind::Both),
        entry("/b", false, RepoKind::Both),
        entry("/c", true, RepoKind::Neither),
    ];
    let mut states = SyncTable::new();
    let mut schedules = ScheduleTable::new();
    states.insert("/a".to_string(), state(SyncStatus::Conflict));
    assert!(select_repos(&entries, &states, &schedules, 60, 10, true).is_empty());
    assert!(select_repos(&entries, &states, &schedules, 60, 10, false).is_empty());

    states.insert("/a".to_string(), state(SyncStatus::Error));
    schedules.insert(
        "/a".to_string(),
        RepoSchedule {
            fail_streak: 5,
            last_attempt: Some(0),
        },
    );
    assert!(select_repos(&entries, &states, &schedules, 60, 10, true).is_empty());
    assert_eq!(
        select_repos(&entries, &states, &schedules, 60, 10, false).len(),
        1
    );
    assert_eq!(
        select_repos(&entries, &states, &schedules, 1_801, 10, true).len(),
        1
    );

    states.insert("/a".to_string(), state(SyncStatus::Missing));
    assert!(select_repos(&entries, &states, &schedules, 10_000, 10, true).is_empty());
    states.insert("/a".to_string(), state(SyncStatus::Syncing));
    assert!(select_repos(&entries, &states, &schedules, 10_000, 10, true).is_empty());

    states.remove("/a");
    schedules.remove("/a");
    assert_eq!(
        select_repos(&entries, &states, &schedules, 0, 10, false).len(),
        1
    );
    assert_eq!(
        select_repos(&entries, &states, &schedules, 0, 10, true).len(),
        1
    );
}

#[test]
fn is_due_far_apart_times_do_not_overflow() {
    let s = RepoSchedule {
        fail_streak: 7,
        last_attempt: Some(i64::MAX - 10),
    };
    assert!(!is_due(&s, u32::MAX, i64::MAX));
    let t = RepoSchedule {
        fail_streak: 0,
        last_attempt: Some(i64::MIN),
    };
    assert!(is_due(&t, 10, 0));
}

#[test]
fn due_stays_due_as_time_passes() {
    let s = RepoSchedule {
        fail_streak: 1,
        last_attempt: Some(500),
    };
    assert!(is_due(&s, 1, 560));
    assert!(is_due(&s, 1, 561));
    assert!(is_due(&s, 1, 100_000));
}

#[test]
fn manual_selection_includes_the_automatic_one() {
    let entries = vec![
        entry("/a", true, RepoKind::Both),
        entry("/b", true, RepoKind::GithubOnly),
    ];
    let states = SyncTable::new();
    let mut schedules = ScheduleTable::new();
    schedules.insert(
        "/b".to_string(),
        RepoSchedule {
            fail_streak: 0,
            last_attempt: Some(100),
        },
    );
    let auto = select_repos(&entries, &states, &schedules, 200, 10, true);
    let manual = select_repos(&entries, &states, &schedules, 200, 10, false);
    assert_eq!(auto.len(), 1);
    assert_eq!(auto[0].path, "/a");
    assert_eq!(manual.len(), 2);
    assert_eq!(manual[0].path, "/a");
    assert_eq!(manual[1].path, "/b");
}

#[test]
fn schedules_follow_results() {
    let mut schedules = ScheduleTable::new();
    let results = vec![
        RepoSyncResult {
            path: "/ok".to_string(),
            state: state(SyncStatus::Synced),
        },
        RepoSyncResult {
            path: "/bad".to_string(),
            state: state(SyncStatus::Error),
        },
        RepoSyncResult {
            path: "/split".to_string(),
            state: state(SyncStatus::Conflict),
        },
    ];
    schedules.insert(
        "/ok".to_string(),
        RepoSchedule {
            fail_streak: 4,
            last_attempt: Some(1),
        },
    );
    schedules.insert(
        "/split".to_string(),
        RepoSchedule {
            fail_streak: 2,
            last_attempt: Some(1),
        },
    );
    update_schedules(&mut schedules, &results, 900);
    assert_eq!(
        schedules.get("/ok"),
        RepoSchedule {
            fail_streak: 0,
            last_attempt: Some(900)
        }
    );
    assert_eq!(
        schedules.get("/bad"),
        RepoSchedule {
            fail_streak: 1,
            last_attempt: Some(900)
        }
    );
    assert_eq!(
        schedules.get("/split"),
        RepoSchedule {
            fail_streak: 2,
            last_attempt: Some(900)
        }
    );
    update_schedules(&mut schedules, &results[1..].to_vec(), 1_000);
    assert_eq!(schedules.get("/bad").fail_streak, 2);
    assert_eq!(schedules.get("/unknown"), RepoSchedule::default());
}

#[test]
fn retry_only_errors_once() {
    assert!(should_retry(SyncStatus::Error, 1));
    assert!(!should_retry(SyncStatus::Error, 2));
    assert!(!should_retry(SyncStatus::Conflict, 1));
    assert!(!should_retry(SyncStatus::Synced, 1));
    assert!(!should_retry(SyncStatus::Missing, 1));
}

#[test]
fn rounds_exclude_each_other_and_tokens_are_checked_every_six_hours() {
    let mut s = Scheduler::default();
    assert!(s.try_begin_round());
    assert!(!s.try_begin_round());
    s.end_round();
    assert!(s.try_begin_round());

    assert!(s.token_check_due(1_000));
    assert!(!s.token_check_due(1_000 + 6 * 3600 - 1));
    assert!(s.token_check_due(1_000 + 6 * 3600));
    assert_eq!(s.last_token_verify, Some(1_000 + 6 * 3600));
}

#[test]
fn only_connected_accounts_are_rechecked() {
    let accounts = Accounts {
        github: Account {
            status: AccountStatus::Connected,
            login: Some("me".into()),
        },
        gitee: Account {
            status: AccountStatus::Invalid,
            login: None,
        },
    };
    assert_eq!(accounts_to_verify(&accounts), vec![Platform::Github]);
    let none = Accounts::default();
    assert!(accounts_to_verify(&none).is_empty());
}

#[test]
fn schedules_are_found_by_path() {
    let mut schedules = ScheduleTable::new();
    schedules.insert(
        "/a/".to_string(),
        RepoSchedule {
            fail_streak: 2,
            last_attempt: Some(7),
        },
    );
    assert_eq!(schedules.get("/a").fail_streak, 2);
    let results = vec![RepoSyncResult {
        path: "/a".to_string(),
        state: state(SyncStatus::Error),
    }];
    update_schedules(&mut schedules, &results, 100);
    assert_eq!(
        schedules.get("/./a"),
        RepoSchedule {
            fail_streak: 3,
            last_attempt: Some(100),
        }
    );
    schedules.remove("/a");
    assert_eq!(schedules.get("/a/"), RepoSchedule::default());
    let entries = vec![entry("/b", true, RepoKind::Both)];
    let mut states = SyncTable::new();
    states.insert("/b/".to_string(), state(SyncStatus::Missing));
    assert!(select_repos(&entries, &states, &schedules, 60, 10, false).is_empty());
}

#[test]
fn a_round_updates_only_the_repositories_it_synced() {
    let mut schedules = ScheduleTable::new();
    let old = RepoSchedule {
        fail_streak: 4,
        last_attempt: Some(1),
    };
    schedules.insert("/a".to_string(), old);
    schedules.insert("/b".to_string(), old);
    schedules.insert("/c".to_string(), old);
    let results = vec![
        RepoSyncResult {
            path: "/a".to_string(),
            state: state(SyncStatus::Synced),
        },
        RepoSyncResult {
            path: "/b/".to_string(),
            state: state(SyncStatus::Error),
        },
        RepoSyncResult {
            path: "/d".to_string(),
            state: state(SyncStatus::Conflict),
        },
    ];
    update_schedules(&mut schedules, &results, 50);
    assert_eq!(
        schedules.get("/a"),
        RepoSchedule {
            fail_streak: 0,
            last_attempt: Some(50),
        }
    );
    assert_eq!(
        schedules.get("/b"),
        RepoSchedule {
            fail_streak: 5,
            last_attempt: Some(50),
        }
    );
    assert_eq!(schedules.get("/c"), old);
    assert_eq!(
        schedules.get("/d"),
        RepoSchedule {
            fail_streak: 0,
            last_attempt: Some(50),
        }
    );
}
