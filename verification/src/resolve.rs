//! Resolving conflicts after the user has chosen the authoritative side: the
//! only place where a push is forced, and only towards the other side.
use vstd::prelude::*;

use crate::config::{strings_view, RepoEntry};
use crate::error::FerryError;
use crate::sync::{
    classify_git_error, conflicts_view, first_remote_on, git_error_message, opt_text, spawn_error_message,
    spawn_message, ConflictSide, GitOutcome, RefConflict, RefConflictView, RefKind, Side,
};
use crate::text::push_str;

verus! {

broadcast use vstd::string::group_string_axioms;

/// One forced push: the remote it goes to and the git arguments.
#[derive(Debug)]
pub struct ForcePush {
    pub remote: String,
    pub args: Vec<String>,
}

/// The ref a conflict is on.
pub open spec fn conflict_target(c: RefConflictView) -> Seq<char> {
    match c.kind {
        RefKind::Branch => "refs/heads/"@ + c.name,
        RefKind::Tag => "refs/tags/"@ + c.name,
    }
}

/// The forced push that makes the other side follow `side` on conflict `c`:
/// the authoritative side's sha, pushed to the other side's remote.
pub open spec fn force_push_args(
    c: RefConflictView,
    side: ConflictSide,
    github: Seq<char>,
    gitee: Seq<char>,
) -> Seq<Seq<char>> {
    let (sha, dst) = match side {
        ConflictSide::Github => (c.github_sha, gitee),
        ConflictSide::Gitee => (c.gitee_sha, github),
    };
    seq!["push"@, "--force"@, dst, sha + ":"@ + conflict_target(c)]
}

pub open spec fn missing_root_message(root: Seq<char>) -> Seq<char> {
    "仓库路径不存在："@ + root + "，无法裁决冲突"@
}

pub open spec fn missing_side_message(github: bool) -> Seq<char> {
    if github {
        "该仓库没有 github remote，无法裁决冲突。请重新扫描后再试。"@
    } else {
        "该仓库没有 gitee remote，无法裁决冲突。请重新扫描后再试。"@
    }
}

fn message(parts_a: &str, parts_b: &str, parts_c: &str) -> (e: FerryError)
    ensures
        e == FerryError::Message(e->Message_0),
        e->Message_0@ == parts_a@ + parts_b@ + parts_c@,
{
    let mut m = String::new();
    push_str(&mut m, parts_a);
    push_str(&mut m, parts_b);
    push_str(&mut m, parts_c);
    assert(m@ =~= parts_a@ + parts_b@ + parts_c@);
    FerryError::Message(m)
}

fn message1(a: &str) -> (e: FerryError)
    ensures
        e == FerryError::Message(e->Message_0),
        e->Message_0@ == a@,
{
    let mut m = String::new();
    push_str(&mut m, a);
    assert(m@ =~= a@);
    FerryError::Message(m)
}

/// The forced pushes that settle `conflicts` in favour of `side`, one per
/// conflict, in order. Refused when the repository's root is not a
/// directory, or when it lacks a github or a gitee remote.
pub fn resolve_conflicts(
    entry: &RepoEntry,
    conflicts: &[RefConflict],
    side: ConflictSide,
    root_is_dir: bool,
) -> (r: Result<Vec<ForcePush>, FerryError>)
    ensures
        !root_is_dir ==> (r matches Err(FerryError::Message(m)) && m@ == missing_root_message(
            entry@.path,
        )),
        root_is_dir ==> match (
            first_remote_on(entry@.remotes, Side::Github.host()),
            first_remote_on(entry@.remotes, Side::Gitee.host()),
        ) {
            (None, _) => (r matches Err(FerryError::Message(m)) && m@ == missing_side_message(true)),
            (Some(_), None) => (r matches Err(FerryError::Message(m)) && m@ == missing_side_message(
                false,
            )),
            (Some(gh), Some(ge)) => (r matches Ok(plan) && plan@.len() == conflicts@.len() && forall|
                i: int,
            |
                0 <= i < plan@.len() ==> {
                    &&& #[trigger] plan@[i].remote@ == match side {
                        ConflictSide::Github => ge,
                        ConflictSide::Gitee => gh,
                    }
                    &&& strings_view(plan@[i].args@) == force_push_args(
                        conflicts@[i]@,
                        side,
                        gh,
                        ge,
                    )
                }),
        },
{
    if !root_is_dir {
        return Err(message("仓库路径不存在：", entry.path.as_str(), "，无法裁决冲突"));
    }
    let github = match crate::sync::remote_for(&entry.remotes, Side::Github) {
        Some(g) => g,
        None => {
            return Err(message1("该仓库没有 github remote，无法裁决冲突。请重新扫描后再试。"));
        },
    };
    let gitee = match crate::sync::remote_for(&entry.remotes, Side::Gitee) {
        Some(g) => g,
        None => {
            return Err(message1("该仓库没有 gitee remote，无法裁决冲突。请重新扫描后再试。"));
        },
    };
    let mut plan: Vec<ForcePush> = Vec::new();
    let mut i: usize = 0;
    while i < conflicts.len()
        invariant
            i <= conflicts.len(),
            plan@.len() == i,
            opt_text(Some(github)) == first_remote_on(entry@.remotes, Side::Github.host()),
            opt_text(Some(gitee)) == first_remote_on(entry@.remotes, Side::Gitee.host()),
            forall|k: int|
                0 <= k < i ==> {
                    &&& #[trigger] plan@[k].remote@ == match side {
                        ConflictSide::Github => gitee@,
                        ConflictSide::Gitee => github@,
                    }
                    &&& strings_view(plan@[k].args@) == force_push_args(
                        conflicts@[k]@,
                        side,
                        github@,
                        gitee@,
                    )
                },
        decreases conflicts.len() - i,
    {
        let c = &conflicts[i];
        let (sha, dst) = match side {
            ConflictSide::Github => (&c.github_sha, &gitee),
            ConflictSide::Gitee => (&c.gitee_sha, &github),
        };
        let mut target = String::new();
        match c.kind {
            RefKind::Branch => push_str(&mut target, "refs/heads/"),
            RefKind::Tag => push_str(&mut target, "refs/tags/"),
        }
        push_str(&mut target, c.name.as_str());
        let mut refspec = String::new();
        push_str(&mut refspec, sha.as_str());
        push_str(&mut refspec, ":");
        push_str(&mut refspec, target.as_str());
        let mut push = String::new();
        push_str(&mut push, "push");
        let mut force = String::new();
        push_str(&mut force, "--force");
        let mut args: Vec<String> = Vec::new();
        args.push(push);
        args.push(force);
        args.push(dst.clone());
        args.push(refspec);
        proof {
            assert(strings_view(args@) =~= force_push_args(
                conflicts@[i as int]@,
                side,
                github@,
                gitee@,
            ));
        }
        plan.push(ForcePush { remote: dst.clone(), args });
        i = i + 1;
    }
    assert(first_remote_on(entry@.remotes, Side::Github.host()) == Some(github@));
    assert(first_remote_on(entry@.remotes, Side::Gitee.host()) == Some(gitee@));
    assert(plan@.len() == conflicts@.len());
    let r: Result<Vec<ForcePush>, FerryError> = Ok(plan);
    assert(r matches Ok(p) && p@.len() == conflicts@.len());
    r
}

/// What a forced push adds: one more push when it succeeded, otherwise the
/// error that stops the resolution.
pub open spec fn force_push_result(pushed: u32, remote: Seq<char>, o: GitOutcome) -> Result<
    u32,
    Seq<char>,
> {
    match o {
        GitOutcome::NotStarted(e) => Err(spawn_message(e@)),
        GitOutcome::Exited(x) => if x.code == Some(0i32) {
            Ok(
                if pushed < u32::MAX {
                    (pushed + 1) as u32
                } else {
                    pushed
                },
            )
        } else {
            Err(git_error_message(remote, x.stderr@))
        },
    }
}

/// Reads the outcome of one forced push.
pub fn force_push_done(pushed: u32, remote: &str, o: &GitOutcome) -> (r: Result<u32, FerryError>)
    ensures
        match force_push_result(pushed, remote@, *o) {
            Ok(n) => r == Ok::<u32, FerryError>(n),
            Err(m) => (r matches Err(FerryError::Message(e)) && e@ == m),
        },
{
    match o {
        GitOutcome::NotStarted(e) => Err(FerryError::Message(spawn_error_message(e.as_str()))),
        GitOutcome::Exited(x) => {
            if x.code == Some(0i32) {
                Ok(pushed.saturating_add(1))
            } else {
                Err(FerryError::Message(classify_git_error(remote, x.stderr.as_str())))
            }
        },
    }
}

} // verus!
