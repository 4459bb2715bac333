use gitferry::state::SyncTable;
use gitferry::sync::{RepoSyncState, SyncStatus};
use gitferry::tray::{aggregate, counts, status_line, tooltip_for, TrayStatus};

fn state(status: SyncStatus) -> RepoSyncState {
    RepoSyncState {
        status,
        ..Default::default()
    }
}

#[test]
fn aggregate_priorities() {
    let mut map = SyncTable::new();
    assert_eq!(aggregate(&map), TrayStatus::Idle);
    map.insert("/a".to_string(), state(SyncStatus::Synced));
    assert_eq!(aggregate(&map), TrayStatus::Idle);
    map.insert("/b".to_string(), state(SyncStatus::Missing));
    assert_eq!(aggregate(&map), TrayStatus::Error);
    map.insert("/c".to_string(), state(SyncStatus::Conflict));
    assert_eq!(aggregate(&map), TrayStatus::Conflict);
    map.insert("/d".to_string(), state(SyncStatus::Syncing));
    assert_eq!(aggregate(&map), TrayStatus::Syncing);
}

#[test]
fn counts_include_missing() {
    let mut map = SyncTable::new();
    map.insert("/a".to_string(), state(SyncStatus::Conflict));
    map.insert("/b".to_string(), state(SyncStatus::Missing));
    map.insert("/c".to_string(), state(SyncStatus::Error));
    map.insert("/d".to_string(), state(SyncStatus::Synced));
    assert_eq!(counts(&map), (1, 2));
}

#[test]
fn lines_and_tooltips() {
    assert_eq!(status_line(TrayStatus::Idle, 0, 0), "就绪");
    assert_eq!(status_line(TrayStatus::Syncing, 1, 2), "同步中…");
    assert_eq!(status_line(TrayStatus::Conflict, 2, 0), "2 个冲突待处理");
    assert_eq!(status_line(TrayStatus::Error, 0, 1), "1 个出错");
    assert_eq!(tooltip_for(TrayStatus::Idle, 0, 0), "GitFerry · 就绪");
    assert_eq!(
        tooltip_for(TrayStatus::Conflict, 2, 3),
        "GitFerry · 2 个冲突待处理"
    );
    assert_eq!(tooltip_for(TrayStatus::Error, 0, 1), "GitFerry · 1 个出错");
}

#[test]
fn counts_follow_the_latest_state_and_big_numbers_print() {
    let mut map = SyncTable::new();
    map.insert("/a".to_string(), state(SyncStatus::Conflict));
    map.insert("/a".to_string(), state(SyncStatus::Pending));
    assert_eq!(counts(&map), (0, 0));
    assert_eq!(aggregate(&map), TrayStatus::Idle);
    assert_eq!(
        status_line(TrayStatus::Error, 0, 4_000_000_000),
        "4000000000 个出错"
    );
    assert_eq!(status_line(TrayStatus::Conflict, 10, 0), "10 个冲突待处理");
}
