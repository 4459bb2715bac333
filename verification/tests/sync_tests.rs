use gitferry::config::Direction;
use gitferry::sync::{
    ancestry, classify_git_error, fetch_error, finish, parse_remote_branches, parse_remote_tags,
    rounds_for, short_sha, stderr_tail, trimmed_stdout, Acc, GitExit, GitOutcome, RefKind,
    Round, Side, SyncStatus,
};

fn exited(code: i32, stdout: &str, stderr: &str) -> GitOutcome {
    GitOutcome::Exited(GitExit {
        code: Some(code),
        stdout: stdout.to_string(),
        stderr: stderr.to_string(),
    })
}

#[test]
fn classifies_git_errors_to_actionable_messages() {
    let auth = classify_git_error(
        "github",
        "fatal: Authentication failed for 'https://github.com/owner/repo.git/'",
    );
    assert!(auth.contains("凭据不可用"));
    assert!(auth.contains("github"));
    assert!(auth.contains("PAT"));

    let net = classify_git_error(
        "gitee",
        "fatal: unable to access 'https://gitee.com/': Could not resolve host: gitee.com",
    );
    assert!(net.contains("网络不可达"));

    let other = classify_git_error("gitee", "warning: a\nfatal: bad object refs/heads/x");
    assert!(other.contains("gitee 操作失败"));
    assert!(other.contains("bad object"));
}

#[test]
fn error_messages_exactly() {
    assert_eq!(
        classify_git_error("gitee", "warning: a\nfatal: bad object refs/heads/x"),
        "gitee 操作失败：warning: a；fatal: bad object refs/heads/x"
    );
    assert_eq!(
        classify_git_error("github", "ssh: Connection refused"),
        "github 操作失败：网络不可达，请检查网络后重试。"
    );
    assert_eq!(
        classify_git_error("o", "Permission denied (publickey)."),
        "o 操作失败：git 凭据不可用。请在终端对该仓库执行一次 git fetch/push 保存凭据，或在设置页配置 PAT。"
    );
}

#[test]
fn stderr_tail_keeps_last_three_lines_and_cuts_long_ones() {
    assert_eq!(stderr_tail("a\n\n  b  \nc\r\nd\n"), "b；c；d");
    assert_eq!(stderr_tail(""), "");
    let long: String = std::iter::repeat('x').take(205).collect();
    let expected = format!("{}…", "x".repeat(200));
    assert_eq!(stderr_tail(&long), expected);
}

#[test]
fn short_shas() {
    assert_eq!(short_sha("0123456789abcdef"), "0123456");
    assert_eq!(short_sha("abc"), "abc");
}

#[test]
fn branch_listing() {
    let out = "github/main 111\n  github/HEAD 111\ngithub/feat/x 222\ngitee/other 333\ngithub/ 444\ngithub/a/HEAD 555\nnosha\ngithub/main 999\n";
    let b = parse_remote_branches("github", out);
    assert_eq!(
        b,
        vec![
            ("main".to_string(), "999".to_string()),
            ("feat/x".to_string(), "222".to_string())
        ]
    );
}

#[test]
fn tag_listing_peels_annotated_tags() {
    let out = "aaa\trefs/tags/v1\nbbb\trefs/tags/v2\nccc\trefs/tags/v2^{}\nddd\trefs/heads/main\nonlyone\n";
    let t = parse_remote_tags(out);
    assert_eq!(t.len(), 2);
    assert_eq!(t[0].0, "v1");
    assert_eq!(t[0].1.ref_sha, "aaa");
    assert_eq!(t[0].1.peeled, "aaa");
    assert_eq!(t[1].0, "v2");
    assert_eq!(t[1].1.ref_sha, "bbb");
    assert_eq!(t[1].1.peeled, "ccc");
    let u = parse_remote_tags("ccc refs/tags/v3^{}\n");
    assert_eq!(u.len(), 1);
    assert_eq!(u[0].1.ref_sha, "ccc");
    assert_eq!(u[0].1.peeled, "ccc");
}

#[test]
fn rounds_by_direction() {
    let g2e = Round {
        src: Side::Github,
        dst: Side::Gitee,
    };
    let e2g = Round {
        src: Side::Gitee,
        dst: Side::Github,
    };
    assert_eq!(rounds_for(Direction::GithubToGitee), vec![g2e]);
    assert_eq!(rounds_for(Direction::GiteeToGithub), vec![e2g]);
    assert_eq!(rounds_for(Direction::Both), vec![g2e, e2g]);
}

#[test]
fn outcomes_are_read_by_exit_code() {
    assert_eq!(ancestry(&exited(0, "", "")), Some(true));
    assert_eq!(ancestry(&exited(1, "", "")), Some(false));
    assert_eq!(ancestry(&exited(128, "", "")), None);
    assert_eq!(ancestry(&GitOutcome::NotStarted("x".into())), None);
    assert_eq!(trimmed_stdout(&exited(0, " main \n", "")), Some("main".to_string()));
    assert_eq!(trimmed_stdout(&exited(1, "main", "")), None);
    assert_eq!(fetch_error("github", &exited(0, "", "")), None);
    assert_eq!(
        fetch_error("github", &GitOutcome::NotStarted("No such file".into())),
        Some("git 命令启动失败：No such file。请确认系统已安装 git。".to_string())
    );
}

#[test]
fn finish_prefers_conflict_over_error() {
    let mut acc = Acc::new();
    let s = finish(acc, 77);
    assert_eq!(s.status, SyncStatus::Synced);
    assert_eq!(s.last_synced, Some(77));
    assert!(s.error.is_none());

    acc = Acc::new();
    acc.note_error("e1".into());
    acc.note_error("e2".into());
    let s = finish(acc, 77);
    assert_eq!(s.status, SyncStatus::Error);
    assert_eq!(s.last_synced, None);
    assert_eq!(s.error, Some("e1；e2".to_string()));

    acc = Acc::new();
    acc.note_error("e1".into());
    acc.add_conflict(RefKind::Branch, "main", Side::Gitee, "1111111111", "2222222222");
    acc.add_conflict(RefKind::Branch, "main", Side::Github, "3", "4");
    let s = finish(acc, 77);
    assert_eq!(s.status, SyncStatus::Conflict);
    assert_eq!(s.last_synced, None);
    assert_eq!(s.conflicts.len(), 1);
    assert_eq!(s.conflicts[0].github_sha, "2222222");
    assert_eq!(s.conflicts[0].gitee_sha, "1111111");

    acc = Acc::new();
    acc.mark_local_diverged("github", "main");
    acc.mark_local_diverged("github", "main");
    let s = finish(acc, 77);
    assert_eq!(s.status, SyncStatus::Conflict);
    assert_eq!(
        s.error,
        Some("本地分支 main 与 github 分叉，请手动合并后重试".to_string())
    );
}
