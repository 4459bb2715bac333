use gitferry::state::{
    failed_state, mark_all_syncing, mark_syncing, pending_conflicts, record_all, results_for, SyncTable,
};
use gitferry::sync::{RefConflict, RefKind, RepoSyncResult, RepoSyncState, SyncStatus};
use gitferry::error::FerryError;

#[test]
fn syncing_keeps_last_time_and_conflicts() {
    let mut t = SyncTable::new();
    t.insert(
        "/a".to_string(),
        RepoSyncState {
            status: SyncStatus::Conflict,
            last_synced: Some(5),
            pushed_refs: 3,
            deleted_refs: 1,
            error: Some("x".to_string()),
            conflicts: vec![RefConflict {
                kind: RefKind::Tag,
                name: "v1".to_string(),
                github_sha: "a".to_string(),
                gitee_sha: "b".to_string(),
            }],
        },
    );
    mark_syncing(&mut t, "/a");
    mark_syncing(&mut t, "/b");
    let a = t.get("/a").unwrap();
    assert_eq!(a.status, SyncStatus::Syncing);
    assert_eq!(a.last_synced, Some(5));
    assert_eq!(a.pushed_refs, 0);
    assert_eq!(a.deleted_refs, 0);
    assert!(a.error.is_none());
    assert_eq!(a.conflicts.len(), 1);
    let b = t.get("/b").unwrap();
    assert_eq!(b.status, SyncStatus::Syncing);
    assert!(b.conflicts.is_empty());
    assert_eq!(t.len(), 2);
}

#[test]
fn reports_and_pending_conflicts() {
    let mut t = SyncTable::new();
    t.insert(
        "/a".to_string(),
        RepoSyncState {
            status: SyncStatus::Conflict,
            conflicts: vec![RefConflict {
                kind: RefKind::Branch,
                name: "m".to_string(),
                github_sha: "1".to_string(),
                gitee_sha: "2".to_string(),
            }],
            ..Default::default()
        },
    );
    let r = results_for(&t, &vec!["/a".to_string(), "/none".to_string()]);
    assert_eq!(r.len(), 2);
    assert_eq!(r[0].state.status, SyncStatus::Conflict);
    assert_eq!(r[1].path, "/none");
    assert_eq!(r[1].state.status, SyncStatus::Pending);
    assert_eq!(pending_conflicts(&t, "/a").unwrap().len(), 1);
    match pending_conflicts(&t, "/none") {
        Err(FerryError::Message(m)) => assert_eq!(
            m,
            "仓库当前没有待裁决的冲突：/none。请先执行同步刷新冲突列表。"
        ),
        other => panic!("unexpected {:?}", other),
    }
    let all = t.results();
    assert_eq!(all.len(), 1);
    assert_eq!(all[0].path, "/a");
    t.remove("/a");
    assert_eq!(t.len(), 0);
    assert!(t.get("/a").is_none());
}

#[test]
fn states_are_found_by_path() {
    let mut t = SyncTable::new();
    mark_syncing(&mut t, "/a/");
    assert_eq!(t.get("/a").unwrap().status, SyncStatus::Syncing);
    t.insert("/a".to_string(), RepoSyncState::default());
    assert_eq!(t.len(), 1);
    assert_eq!(t.get("/a/").unwrap().status, SyncStatus::Pending);
    assert_eq!(t.results()[0].path, "/a/");
    t.remove("/./a");
    assert_eq!(t.len(), 0);
}

#[test]
fn a_failure_keeps_only_the_conflicts_it_is_given() {
    let s = failed_state(
        "boom".to_string(),
        vec![RefConflict {
            kind: RefKind::Branch,
            name: "main".to_string(),
            github_sha: "a".to_string(),
            gitee_sha: "b".to_string(),
        }],
    );
    assert_eq!(s.status, SyncStatus::Error);
    assert_eq!(s.error, Some("boom".to_string()));
    assert_eq!(s.last_synced, None);
    assert_eq!(s.pushed_refs, 0);
    assert_eq!(s.deleted_refs, 0);
    assert_eq!(s.conflicts.len(), 1);
    assert_eq!(s.conflicts[0].name, "main");
    let s = failed_state("x".to_string(), vec![]);
    assert!(s.conflicts.is_empty());
}

#[test]
fn a_full_sync_leaves_untaken_repositories_alone() {
    let mut t = SyncTable::new();
    let conflict = RepoSyncState {
        status: SyncStatus::Conflict,
        last_synced: Some(3),
        ..Default::default()
    };
    t.insert("/c".to_string(), conflict);
    t.insert("/a".to_string(), RepoSyncState::default());
    let taken = vec!["/a".to_string(), "/b".to_string()];
    mark_all_syncing(&mut t, &taken);
    assert_eq!(t.get("/a").unwrap().status, SyncStatus::Syncing);
    assert_eq!(t.get("/b").unwrap().status, SyncStatus::Syncing);
    record_all(
        &mut t,
        &vec![
            RepoSyncResult {
                path: "/a".to_string(),
                state: failed_state("x".to_string(), vec![]),
            },
            RepoSyncResult {
                path: "/b".to_string(),
                state: RepoSyncState {
                    status: SyncStatus::Synced,
                    ..Default::default()
                },
            },
        ],
    );
    let c = t.get("/c").unwrap();
    assert_eq!(c.status, SyncStatus::Conflict);
    assert_eq!(c.last_synced, Some(3));
    assert_eq!(t.get("/a").unwrap().status, SyncStatus::Error);
    assert_eq!(t.get("/b").unwrap().status, SyncStatus::Synced);
    let reported = results_for(&t, &vec!["/c".to_string(), "/d".to_string()]);
    assert_eq!(reported[0].state.status, SyncStatus::Conflict);
    assert_eq!(reported[1].state.status, SyncStatus::Pending);
}
