use gitferry::config::{Direction, HostKind, RemoteInfo, RepoEntry, RepoKind};
use gitferry::engine::{fast_forward, FastForward, Step, SyncEngine};
use gitferry::sync::{GitExit, GitOutcome, RefKind, RepoSyncState, SyncStatus};

fn exited(code: i32, stdout: &str, stderr: &str) -> GitOutcome {
    GitOutcome::Exited(GitExit {
        code: Some(code),
        stdout: stdout.to_string(),
        stderr: stderr.to_string(),
    })
}

fn remote(name: &str, host: HostKind) -> RemoteInfo {
    RemoteInfo {
        name: name.to_string(),
        url: String::new(),
        host,
    }
}

fn entry(direction: Direction, mirror_delete: bool) -> RepoEntry {
    RepoEntry {
        path: "/work/repo".to_string(),
        enabled: true,
        direction,
        remotes: vec![
            remote("origin", HostKind::Github),
            remote("agent-gitee", HostKind::Gitee),
        ],
        kind: RepoKind::Both,
        mirror_delete,
    }
}

/// Runs the engine against `git`, a stand-in for the real command, and
/// returns the final state with every command asked for.
fn drive(
    entry: &RepoEntry,
    root_is_dir: bool,
    mut git: impl FnMut(&[String]) -> GitOutcome,
) -> (RepoSyncState, Vec<Vec<String>>) {
    let (mut engine, mut step) = SyncEngine::start(entry, root_is_dir);
    let mut log = Vec::new();
    loop {
        match step {
            Step::Done(s) => return (s, log),
            Step::Finish => return (engine.finish(1_234), log),
            Step::Run(args) => {
                assert!(!args.iter().any(|a| a == "--force"), "a forced push: {:?}", args);
                log.push(args.clone());
                let out = git(args.as_slice());
                step = engine.resume(out);
            }
        }
        assert!(log.len() < 1_000, "the engine keeps asking");
    }
}

fn joined(log: &[Vec<String>]) -> Vec<String> {
    log.iter().map(|a| a.join(" ")).collect()
}

/// A stand-in repository: the local branch `main`, remote-tracking branches
/// and tags per remote, and which commit contains which.
struct World {
    local: Option<&'static str>,
    branches: Vec<(&'static str, &'static str, &'static str)>,
    tags: Vec<(&'static str, &'static str)>,
    ancestors: Vec<(&'static str, &'static str)>,
}

impl World {
    fn answer(&self, a: &[String]) -> GitOutcome {
        let a: Vec<&str> = a.iter().map(|s| s.as_str()).collect();
        match a.as_slice() {
            ["fetch", _, "--prune"] => exited(0, "", ""),
            ["branch", "--show-current"] => exited(0, "main\n", ""),
            ["rev-parse", "refs/heads/main"] => match self.local {
                Some(c) => exited(0, &format!("{c}\n"), ""),
                None => exited(128, "", "fatal: bad revision"),
            },
            ["rev-parse", r] => {
                let found = self
                    .branches
                    .iter()
                    .find(|(rm, b, _)| *r == format!("refs/remotes/{rm}/{b}"));
                match found {
                    Some((_, _, c)) => exited(0, &format!("{c}\n"), ""),
                    None => exited(128, "", "fatal: ambiguous argument"),
                }
            }
            ["for-each-ref", pattern, _] => {
                let mut out = String::new();
                for (rm, b, c) in &self.branches {
                    if *pattern == format!("refs/remotes/{rm}/") {
                        out.push_str(&format!("{rm}/{b} {c}\n"));
                    }
                }
                exited(0, &out, "")
            }
            ["ls-remote", "--tags", rm] => {
                let mut out = String::new();
                for (r, line) in &self.tags {
                    if r == rm {
                        out.push_str(line);
                        out.push('\n');
                    }
                }
                exited(0, &out, "")
            }
            ["merge-base", "--is-ancestor", x, y] => {
                if x == y || self.ancestors.contains(&(*x, *y)) {
                    exited(0, "", "")
                } else {
                    exited(1, "", "")
                }
            }
            ["push", ..] | ["pull", ..] => exited(0, "", ""),
            _ => exited(128, "", "unexpected command"),
        }
    }
}

#[test]
fn missing_repo_path_reports_missing() {
    let e = RepoEntry {
        path: "/nowhere/gone".to_string(),
        enabled: true,
        direction: Direction::Both,
        remotes: Vec::new(),
        kind: RepoKind::Neither,
        mirror_delete: false,
    };
    let (state, log) = drive(&e, false, |_| exited(0, "", ""));
    assert_eq!(state.status, SyncStatus::Missing);
    assert!(state.error.is_none());
    assert!(log.is_empty());
}

#[test]
fn missing_remote_is_an_error_before_any_command() {
    let mut e = entry(Direction::Both, false);
    e.remotes.truncate(1);
    let (state, log) = drive(&e, true, |_| exited(0, "", ""));
    assert_eq!(state.status, SyncStatus::Error);
    assert_eq!(
        state.error,
        Some("该仓库没有 gitee remote，无法按当前方向同步".to_string())
    );
    assert!(log.is_empty());
    e.remotes.clear();
    let (state, _) = drive(&e, true, |_| exited(0, "", ""));
    assert_eq!(
        state.error,
        Some("该仓库没有 github、gitee remote，无法按当前方向同步".to_string())
    );
}

#[test]
fn dst_behind_fast_forwards() {
    let w = World {
        local: Some("c2"),
        branches: vec![("origin", "main", "c2"), ("agent-gitee", "main", "c1")],
        tags: vec![],
        ancestors: vec![("c1", "c2")],
    };
    let (state, log) = drive(&entry(Direction::GithubToGitee, false), true, |a| w.answer(a));
    let cmds = joined(&log);
    assert_eq!(state.status, SyncStatus::Synced);
    assert_eq!(state.last_synced, Some(1_234));
    assert_eq!(state.pushed_refs, 1);
    assert!(cmds.contains(&"push agent-gitee c2:refs/heads/main".to_string()));
    assert_eq!(cmds[0], "fetch origin --prune");
    assert_eq!(cmds[1], "fetch agent-gitee --prune");
}

#[test]
fn dst_missing_branch_gets_created() {
    let w = World {
        local: Some("c1"),
        branches: vec![
            ("origin", "main", "c1"),
            ("origin", "feature", "f1"),
            ("agent-gitee", "main", "c1"),
        ],
        tags: vec![],
        ancestors: vec![],
    };
    let (state, log) = drive(&entry(Direction::GithubToGitee, false), true, |a| w.answer(a));
    let cmds = joined(&log);
    assert_eq!(state.status, SyncStatus::Synced);
    assert_eq!(state.pushed_refs, 1);
    assert!(cmds.contains(&"push agent-gitee f1:refs/heads/feature".to_string()));
    assert!(!cmds.iter().any(|c| c.starts_with("merge-base")));
}

#[test]
fn src_ancestor_of_dst_skips_push() {
    let w = World {
        local: Some("c2"),
        branches: vec![("origin", "main", "c1"), ("agent-gitee", "main", "c2")],
        tags: vec![],
        ancestors: vec![("c1", "c2")],
    };
    let (state, log) = drive(&entry(Direction::GithubToGitee, false), true, |a| w.answer(a));
    let cmds = joined(&log);
    assert_eq!(state.status, SyncStatus::Synced);
    assert!(!cmds.iter().any(|c| c.starts_with("push agent-gitee")));
    // the local branch is ahead of github: it is pushed there first
    assert!(cmds.contains(&"push origin refs/heads/main:refs/heads/main".to_string()));
}

#[test]
fn diverged_branch_reports_conflict_without_touching_ends() {
    let w = World {
        local: None,
        branches: vec![
            ("origin", "feature", "aaaaaaa111"),
            ("agent-gitee", "feature", "bbbbbbb222"),
        ],
        tags: vec![],
        ancestors: vec![],
    };
    let (state, log) = drive(&entry(Direction::Both, false), true, |a| w.answer(a));
    let cmds = joined(&log);
    assert_eq!(state.status, SyncStatus::Conflict);
    assert_eq!(state.conflicts.len(), 1);
    assert_eq!(state.conflicts[0].kind, RefKind::Branch);
    assert_eq!(state.conflicts[0].name, "feature");
    assert_eq!(state.conflicts[0].github_sha, "aaaaaaa");
    assert_eq!(state.conflicts[0].gitee_sha, "bbbbbbb");
    assert!(!cmds.iter().any(|c| c.starts_with("push")));
    assert_eq!(state.last_synced, None);
}

#[test]
fn missing_tag_pushed_and_drifted_tag_rejected() {
    let w = World {
        local: None,
        branches: vec![],
        tags: vec![
            ("origin", "t1\trefs/tags/v1.0"),
            ("origin", "t2\trefs/tags/v2"),
            ("origin", "p2\trefs/tags/v2^{}"),
            ("agent-gitee", "x2\trefs/tags/v2"),
            ("agent-gitee", "q2\trefs/tags/v2^{}"),
        ],
        ancestors: vec![],
    };
    let (state, log) = drive(&entry(Direction::GithubToGitee, false), true, |a| w.answer(a));
    let cmds = joined(&log);
    assert!(cmds.contains(&"push agent-gitee t1:refs/tags/v1.0".to_string()));
    assert!(!cmds.iter().any(|c| c.contains("refs/tags/v2")));
    assert_eq!(state.status, SyncStatus::Conflict);
    assert_eq!(state.pushed_refs, 1);
    assert_eq!(state.conflicts.len(), 1);
    assert_eq!(state.conflicts[0].kind, RefKind::Tag);
    assert_eq!(state.conflicts[0].github_sha, "t2");
    assert_eq!(state.conflicts[0].gitee_sha, "x2");
}

#[test]
fn local_ahead_pushes_and_local_behind_pulls_ff_only() {
    let ahead = World {
        local: Some("c2"),
        branches: vec![("origin", "main", "c1"), ("agent-gitee", "main", "c1")],
        tags: vec![],
        ancestors: vec![("c1", "c2")],
    };
    let (_, log) = drive(&entry(Direction::GithubToGitee, false), true, |a| ahead.answer(a));
    let cmds = joined(&log);
    assert!(cmds.contains(&"push origin refs/heads/main:refs/heads/main".to_string()));
    assert!(!cmds.iter().any(|c| c.starts_with("pull")));

    let behind = World {
        local: Some("c1"),
        branches: vec![("origin", "main", "c2"), ("agent-gitee", "main", "c2")],
        tags: vec![],
        ancestors: vec![("c1", "c2")],
    };
    let (state, log) = drive(&entry(Direction::GithubToGitee, false), true, |a| behind.answer(a));
    let cmds = joined(&log);
    assert!(cmds.contains(&"pull --ff-only origin refs/heads/main".to_string()));
    assert!(!cmds.iter().any(|c| c.starts_with("push")));
    assert_eq!(state.status, SyncStatus::Synced);
}

#[test]
fn direction_github_to_gitee_never_pushes_back_to_github() {
    let w = World {
        local: Some("c1"),
        branches: vec![
            ("origin", "main", "c1"),
            ("agent-gitee", "main", "c2"),
            ("agent-gitee", "extra", "e1"),
        ],
        tags: vec![("agent-gitee", "z\trefs/tags/only-gitee")],
        ancestors: vec![("c1", "c2")],
    };
    let (state, log) = drive(&entry(Direction::GithubToGitee, false), true, |a| w.answer(a));
    let cmds = joined(&log);
    assert!(!cmds.iter().any(|c| c.starts_with("push origin")));
    assert!(!cmds.iter().any(|c| c.contains("--delete")));
    assert_eq!(state.status, SyncStatus::Synced);
}

#[test]
fn mirror_delete_propagates_branch_and_tag_deletion() {
    let w = World {
        local: None,
        branches: vec![
            ("origin", "main", "c1"),
            ("agent-gitee", "main", "c1"),
            ("agent-gitee", "feature", "f1"),
        ],
        tags: vec![("agent-gitee", "t\trefs/tags/v1")],
        ancestors: vec![],
    };
    let (state, log) = drive(&entry(Direction::GithubToGitee, true), true, |a| w.answer(a));
    let cmds = joined(&log);
    assert!(cmds.contains(&"push agent-gitee --delete refs/heads/feature".to_string()));
    assert!(cmds.contains(&"push agent-gitee --delete refs/tags/v1".to_string()));
    assert_eq!(state.deleted_refs, 2);
    assert_eq!(state.status, SyncStatus::Synced);

    let (state, log) = drive(&entry(Direction::GithubToGitee, false), true, |a| w.answer(a));
    assert!(!joined(&log).iter().any(|c| c.contains("--delete")));
    assert_eq!(state.deleted_refs, 0);
}

#[test]
fn failed_fetch_ends_the_sync() {
    let (state, log) = drive(&entry(Direction::Both, false), true, |a| {
        if a[0] == "fetch" {
            exited(128, "", "fatal: unable to access: Could not resolve host: github.com")
        } else {
            exited(0, "", "")
        }
    });
    assert_eq!(log.len(), 1);
    assert_eq!(state.status, SyncStatus::Error);
    assert_eq!(
        state.error,
        Some("origin 操作失败：网络不可达，请检查网络后重试。".to_string())
    );
}

#[test]
fn rejected_push_becomes_a_conflict() {
    let w = World {
        local: None,
        branches: vec![("origin", "main", "c2"), ("agent-gitee", "main", "c1")],
        tags: vec![],
        ancestors: vec![("c1", "c2")],
    };
    let (state, _) = drive(&entry(Direction::GithubToGitee, false), true, |a| {
        if a[0] == "push" {
            exited(1, "", " ! [rejected]        c2 -> main (fetch first)")
        } else {
            w.answer(a)
        }
    });
    assert_eq!(state.status, SyncStatus::Conflict);
    assert_eq!(state.conflicts.len(), 1);
    assert_eq!(state.conflicts[0].github_sha, "c2");
    assert_eq!(state.conflicts[0].gitee_sha, "c1");
    assert_eq!(state.pushed_refs, 0);
}

#[test]
fn fast_forward_answers() {
    assert_eq!(fast_forward(Some(true), None), FastForward::Ahead);
    assert_eq!(fast_forward(Some(true), Some(true)), FastForward::Ahead);
    assert_eq!(fast_forward(None, Some(true)), FastForward::Behind);
    assert_eq!(fast_forward(Some(false), Some(false)), FastForward::Diverged);
    assert_eq!(fast_forward(None, Some(false)), FastForward::Unknown);
}

#[test]
fn detached_head_skips_the_local_branch() {
    let w = World {
        local: Some("c1"),
        branches: vec![("origin", "main", "c2"), ("agent-gitee", "main", "c2")],
        tags: vec![],
        ancestors: vec![],
    };
    let (state, log) = drive(&entry(Direction::Both, false), true, |a| {
        if a[0] == "branch" {
            exited(0, "\n", "")
        } else {
            w.answer(a)
        }
    });
    let cmds = joined(&log);
    assert!(!cmds.iter().any(|c| c.starts_with("rev-parse")));
    assert!(!cmds.iter().any(|c| c.starts_with("pull")));
    assert_eq!(state.status, SyncStatus::Synced);
    assert_eq!(
        cmds[2..4].to_vec(),
        vec![
            "branch --show-current".to_string(),
            "for-each-ref refs/remotes/origin/ --format=%(refname:short) %(objectname)".to_string()
        ]
    );
}

#[test]
fn a_failed_listing_ends_only_its_round() {
    let w = World {
        local: None,
        branches: vec![("origin", "x", "c1")],
        tags: vec![],
        ancestors: vec![],
    };
    let mut failed_once = false;
    let (state, log) = drive(&entry(Direction::Both, false), true, |a| {
        if a[0] == "for-each-ref" && a[1] == "refs/remotes/origin/" && !failed_once {
            failed_once = true;
            exited(128, "", "fatal: something odd")
        } else {
            w.answer(a)
        }
    });
    let cmds = joined(&log);
    assert_eq!(state.status, SyncStatus::Error);
    assert_eq!(
        state.error,
        Some("origin 操作失败：fatal: something odd".to_string())
    );
    // the first round stops at once; the second (gitee to github) still runs
    assert_eq!(
        cmds,
        vec![
            "fetch origin --prune",
            "fetch agent-gitee --prune",
            "branch --show-current",
            "rev-parse refs/heads/main",
            "for-each-ref refs/remotes/origin/ --format=%(refname:short) %(objectname)",
            "for-each-ref refs/remotes/agent-gitee/ --format=%(refname:short) %(objectname)",
            "for-each-ref refs/remotes/origin/ --format=%(refname:short) %(objectname)",
            "ls-remote --tags agent-gitee",
            "ls-remote --tags origin",
        ]
    );
}
