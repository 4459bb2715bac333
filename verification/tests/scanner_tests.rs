use gitferry::scanner::{root_walk_depth, scan_action, walk_depth, RepoList, ScanAction};

#[test]
fn walk_actions() {
    assert_eq!(
        scan_action(".git", true, 3),
        ScanAction::Repo { skip_dir: true }
    );
    assert_eq!(
        scan_action(".git", false, 2),
        ScanAction::Repo { skip_dir: false }
    );
    assert_eq!(scan_action("node_modules", true, 1), ScanAction::SkipDir);
    assert_eq!(scan_action("vendor", true, 2), ScanAction::SkipDir);
    assert_eq!(scan_action(".hidden", true, 1), ScanAction::SkipDir);
    assert_eq!(scan_action(".hidden", true, 0), ScanAction::Continue);
    assert_eq!(scan_action("vendor", false, 1), ScanAction::Continue);
    assert_eq!(scan_action("src", true, 1), ScanAction::Continue);
    assert_eq!(scan_action("", true, 1), ScanAction::Continue);
}

#[test]
fn walk_depth_counts_the_git_entry() {
    assert_eq!(walk_depth(4), 5);
    assert_eq!(walk_depth(0), 1);
}

#[test]
fn dedupes_and_keeps_scan_order() {
    let mut l = RepoList::new();
    l.insert_git_entry("/r/b/.git");
    l.insert_git_entry("/r/a/.git");
    l.insert_git_entry("/r/b/.git");
    l.insert("/r/a".to_string());
    l.insert_git_entry("/");
    assert_eq!(
        l.into_roots(),
        vec!["/r/b".to_string(), "/r/a".to_string()]
    );
}

#[test]
fn dedupes_the_same_path_written_twice() {
    let mut l = RepoList::new();
    l.insert_git_entry("/r/b/.git");
    l.insert("/r/b/".to_string());
    l.insert_git_entry("/r/./b/.git");
    l.insert("/r/c".to_string());
    assert_eq!(l.into_roots(), vec!["/r/b".to_string(), "/r/c".to_string()]);
}

#[test]
fn downloads_is_scanned_shallowly() {
    assert_eq!(root_walk_depth("/h/Downloads", Some("/h/Downloads"), 4), 2);
    assert_eq!(root_walk_depth("/h/Downloads/", Some("/h/Downloads"), 4), 2);
    assert_eq!(root_walk_depth("/h/Downloads", Some("/h/Downloads"), 0), 1);
    assert_eq!(root_walk_depth("/h/code", Some("/h/Downloads"), 4), 5);
    assert_eq!(root_walk_depth("/h/code", None, 4), 5);
}
