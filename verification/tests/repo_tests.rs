use gitferry::config::{HostKind, RemoteInfo, RepoKind};
use gitferry::repo::{
    classify_url, config_file_for, gitdir_for, inspect_repo, inspect_with, kind_for, parse_git_config,
    parse_section_remote_name, url_host, DotGit,
};

fn info(url: &str) -> HostKind {
    classify_url(url)
}

fn remote(name: &str, host: HostKind) -> RemoteInfo {
    RemoteInfo {
        name: name.to_string(),
        url: String::new(),
        host,
    }
}

#[test]
fn classifies_common_url_forms() {
    assert_eq!(info("git@github.com:owner/repo.git"), HostKind::Github);
    assert_eq!(info("https://github.com/owner/repo.git"), HostKind::Github);
    assert_eq!(info("https://user@github.com/owner/repo"), HostKind::Github);
    assert_eq!(
        info("ssh://git@ssh.github.com:443/owner/repo.git"),
        HostKind::Github
    );
    assert_eq!(info("git@gitee.com:owner/repo.git"), HostKind::Gitee);
    assert_eq!(info("https://gitee.com/owner/repo"), HostKind::Gitee);
    assert_eq!(info("https://gitlab.com/owner/repo.git"), HostKind::Other);
    assert_eq!(info("/local/path/only"), HostKind::Other);
    assert_eq!(info(""), HostKind::Other);
}

#[test]
fn url_host_handles_ports_and_users() {
    assert_eq!(url_host("https://github.com/a/b"), Some("github.com"));
    assert_eq!(
        url_host("https://user@github.com:8443/a/b"),
        Some("github.com")
    );
    assert_eq!(url_host("ssh://git@github.com/a/b"), Some("github.com"));
    assert_eq!(
        url_host("git@gitee.com:22/owner/repo.git"),
        Some("gitee.com")
    );
    assert_eq!(url_host("file:///tmp/x"), None);
}

#[test]
fn url_host_edge_cases() {
    assert_eq!(url_host("git://gitee.com?x"), Some("gitee.com"));
    assert_eq!(url_host("http://a@b@host.io#frag"), Some("host.io"));
    assert_eq!(url_host("https://"), Some(""));
    assert_eq!(url_host("@:path"), None);
    assert_eq!(url_host("user@host"), Some("host"));
    assert_eq!(info("https://github.com.evil.io/x"), HostKind::Other);
    assert_eq!(info("https://api.gitee.com/x"), HostKind::Gitee);
    assert_eq!(info("https://notgithub.com/x"), HostKind::Other);
}

#[test]
fn parses_config_with_remotes_and_ignores_others() {
    let raw = r#"
[core]
    repositoryformatversion = 0
[remote "origin"]
    url = git@github.com:owner/repo.git
    fetch = +refs/heads/*:refs/remotes/origin/*
[remote "gitee"]
    url = https://gitee.com/owner/repo.git ; trailing comment
[branch "main"]
    remote = origin
"#;
    let remotes = parse_git_config(raw);
    assert_eq!(remotes.len(), 2);
    assert_eq!(remotes[0].name, "origin");
    assert_eq!(remotes[0].host, HostKind::Github);
    assert_eq!(remotes[1].name, "gitee");
    assert_eq!(remotes[1].host, HostKind::Gitee);
    assert_eq!(kind_for(&remotes), RepoKind::Both);
}

#[test]
fn config_parsing_details() {
    let raw = "# comment\n[remote 'up']\r\n  url=git@gitee.com:o/r.git\n  url = https://github.com/o/r\n; note\n[remote \"\"]\nurl = https://github.com/x/y\n[remote]\nurl = git@github.com:z/z.git\n";
    let remotes = parse_git_config(raw);
    assert_eq!(remotes.len(), 2);
    assert_eq!(remotes[0].name, "up");
    assert_eq!(remotes[0].url, "git@gitee.com:o/r.git");
    assert_eq!(remotes[0].host, HostKind::Gitee);
    assert_eq!(remotes[1].name, "up");
    assert_eq!(remotes[1].url, "https://github.com/o/r");
    assert_eq!(remotes[1].host, HostKind::Github);
    assert!(parse_git_config("").is_empty());
    assert!(parse_git_config("url = git@github.com:a/b.git\n").is_empty());
}

#[test]
fn section_names() {
    assert_eq!(
        parse_section_remote_name("[remote \"origin\"]"),
        Some("origin".to_string())
    );
    assert_eq!(
        parse_section_remote_name("[[remote 'x']]"),
        Some("x".to_string())
    );
    assert_eq!(parse_section_remote_name("[branch \"main\"]"), None);
    assert_eq!(parse_section_remote_name("[remote \"\"]"), None);
}

#[test]
fn gitdir_supports_worktree_file() {
    let real_gitdir = "/tmp/gf/main/.git/worktrees/wt";
    let dot_git = DotGit::File(format!("gitdir: {}\n", real_gitdir));
    assert_eq!(
        gitdir_for("/tmp/gf/wt", &dot_git),
        Some(real_gitdir.to_string())
    );
}

#[test]
fn gitdir_other_shapes() {
    assert_eq!(
        gitdir_for("/r", &DotGit::Dir),
        Some("/r/.git".to_string())
    );
    assert_eq!(
        gitdir_for("/r", &DotGit::File("gitdir: ../main/.git\n".to_string())),
        Some("/r/../main/.git".to_string())
    );
    assert_eq!(
        gitdir_for("/r", &DotGit::File("not a pointer".to_string())),
        None
    );
    assert_eq!(gitdir_for("/r", &DotGit::Absent), None);
}

#[test]
fn missing_git_dir_yields_empty() {
    assert!(inspect_repo(None).is_empty());
    assert_eq!(kind_for(&[]), RepoKind::Neither);
}

#[test]
fn kinds_from_hosts() {
    assert_eq!(
        kind_for(&[remote("a", HostKind::Github)]),
        RepoKind::GithubOnly
    );
    assert_eq!(
        kind_for(&[remote("a", HostKind::Other), remote("b", HostKind::Gitee)]),
        RepoKind::GiteeOnly
    );
    assert_eq!(
        kind_for(&[remote("a", HostKind::Gitee), remote("b", HostKind::Github)]),
        RepoKind::Both
    );
    assert_eq!(kind_for(&[remote("a", HostKind::Other)]), RepoKind::Neither);
    let remotes = inspect_repo(Some("[remote \"o\"]\nurl = git@github.com:a/b.git\n"));
    assert_eq!(remotes.len(), 1);
    assert_eq!(remotes[0].host, HostKind::Github);
}

#[test]
fn remotes_come_from_the_config_in_the_git_directory() {
    assert_eq!(
        config_file_for("/r", &DotGit::Dir),
        Some("/r/.git/config".to_string())
    );
    assert_eq!(
        config_file_for("/r", &DotGit::File("gitdir: /m/.git/worktrees/w\n".to_string())),
        Some("/m/.git/worktrees/w/config".to_string())
    );
    assert_eq!(config_file_for("/r", &DotGit::Absent), None);
    let text = "[remote \"o\"]\nurl = git@github.com:a/b.git\n";
    assert_eq!(inspect_with("/r", &DotGit::Dir, Some(text)).len(), 1);
    assert!(inspect_with("/r", &DotGit::Dir, None).is_empty());
    assert!(inspect_with("/r", &DotGit::Absent, Some(text)).is_empty());
    assert!(inspect_with("/r", &DotGit::File("nothing".to_string()), Some(text)).is_empty());
}
