use gitferry::config::{Direction, HostKind, RemoteInfo, RepoEntry, RepoKind};
use gitferry::error::FerryError;
use gitferry::resolve::{force_push_done, resolve_conflicts};
use gitferry::sync::{ConflictSide, GitExit, GitOutcome, RefConflict, RefKind};

fn entry(remotes: Vec<(&str, HostKind)>) -> RepoEntry {
    RepoEntry {
        path: "/w".to_string(),
        enabled: true,
        direction: Direction::Both,
        remotes: remotes
            .into_iter()
            .map(|(n, h)| RemoteInfo {
                name: n.to_string(),
                url: String::new(),
                host: h,
            })
            .collect(),
        kind: RepoKind::Both,
        mirror_delete: false,
    }
}

fn conflicts() -> Vec<RefConflict> {
    vec![
        RefConflict {
            kind: RefKind::Branch,
            name: "feature".to_string(),
            github_sha: "aaaaaaa".to_string(),
            gitee_sha: "bbbbbbb".to_string(),
        },
        RefConflict {
            kind: RefKind::Tag,
            name: "v1".to_string(),
            github_sha: "ccccccc".to_string(),
            gitee_sha: "ddddddd".to_string(),
        },
    ]
}

fn message(e: FerryError) -> String {
    match e {
        FerryError::Message(m) => m,
        other => panic!("unexpected {:?}", other),
    }
}

#[test]
fn resolve_conflict_force_aligns_chosen_side() {
    let e = entry(vec![("origin", HostKind::Github), ("agent-gitee", HostKind::Gitee)]);
    let plan = resolve_conflicts(&e, &conflicts(), ConflictSide::Github, true).unwrap();
    assert_eq!(plan.len(), 2);
    assert_eq!(plan[0].remote, "agent-gitee");
    assert_eq!(
        plan[0].args,
        vec!["push", "--force", "agent-gitee", "aaaaaaa:refs/heads/feature"]
    );
    assert_eq!(
        plan[1].args,
        vec!["push", "--force", "agent-gitee", "ccccccc:refs/tags/v1"]
    );
    let plan = resolve_conflicts(&e, &conflicts(), ConflictSide::Gitee, true).unwrap();
    assert_eq!(plan[0].remote, "origin");
    assert_eq!(
        plan[0].args,
        vec!["push", "--force", "origin", "bbbbbbb:refs/heads/feature"]
    );
    assert_eq!(
        plan[1].args,
        vec!["push", "--force", "origin", "ddddddd:refs/tags/v1"]
    );
}

#[test]
fn resolution_is_refused_without_root_or_remotes() {
    let e = entry(vec![("origin", HostKind::Github), ("agent-gitee", HostKind::Gitee)]);
    assert_eq!(
        message(resolve_conflicts(&e, &conflicts(), ConflictSide::Github, false).unwrap_err()),
        "仓库路径不存在：/w，无法裁决冲突"
    );
    let only_gitee = entry(vec![("g", HostKind::Gitee)]);
    assert_eq!(
        message(
            resolve_conflicts(&only_gitee, &conflicts(), ConflictSide::Github, true).unwrap_err()
        ),
        "该仓库没有 github remote，无法裁决冲突。请重新扫描后再试。"
    );
    let only_github = entry(vec![("o", HostKind::Github)]);
    assert_eq!(
        message(
            resolve_conflicts(&only_github, &conflicts(), ConflictSide::Gitee, true).unwrap_err()
        ),
        "该仓库没有 gitee remote，无法裁决冲突。请重新扫描后再试。"
    );
    assert!(resolve_conflicts(&e, &[], ConflictSide::Gitee, true)
        .unwrap()
        .is_empty());
}

#[test]
fn forced_push_outcomes() {
    let ok = GitOutcome::Exited(GitExit {
        code: Some(0),
        stdout: String::new(),
        stderr: String::new(),
    });
    assert_eq!(force_push_done(2, "origin", &ok).unwrap(), 3);
    assert_eq!(force_push_done(u32::MAX, "origin", &ok).unwrap(), u32::MAX);
    let bad = GitOutcome::Exited(GitExit {
        code: Some(1),
        stdout: String::new(),
        stderr: "fatal: Authentication failed".to_string(),
    });
    assert_eq!(
        message(force_push_done(0, "origin", &bad).unwrap_err()),
        "origin 操作失败：git 凭据不可用。请在终端对该仓库执行一次 git fetch/push 保存凭据，或在设置页配置 PAT。"
    );
    let none = GitOutcome::NotStarted("not found".to_string());
    assert_eq!(
        message(force_push_done(0, "origin", &none).unwrap_err()),
        "git 命令启动失败：not found。请确认系统已安装 git。"
    );
}
