//! The sync engine for one repository, as a state machine: it asks for one
//! git command at a time, reads its outcome, and decides the next one.
//!
//! The order of work: fetch both remotes; compare the checked-out branch
//! with the source remote of each round (push when ahead, `pull --ff-only`
//! when behind, a conflict when diverged); then, round by round, carry
//! branches and tags from the source to the destination by fast-forward
//! only, record diverged branches and drifted tags as conflicts, and in
//! mirror mode delete on the destination what the source no longer has.
use vstd::prelude::*;

use crate::config::{Direction, RepoEntry, RepoEntryView};
use crate::sync::{
    after_delete, after_local_push, after_pull, after_push, ancestry, ancestry_of,
    fetch_error, fetch_failure, finish, finished, first_remote_on, has_conflict, key_index, local_diverged, opt_text,
    pairs_view, parse_remote_branches, parse_remote_tags, remote_branches_of, remote_for,
    remote_tags_of, rounds_for, rounds_of, stdout_of,
    tags_view, trimmed_stdout, with_conflict, with_error, Acc, AccView, GitOutcome, RefKind,
    RefConflictView, RepoSyncState, RepoSyncStateView, Round, Side, SyncStatus, TagRef, TagRefView,
};
use crate::text::{has_infix, has_prefix, push_str};

verus! {

broadcast use vstd::string::group_string_axioms;

/// What the engine needs next.
#[derive(Debug)]
pub enum Step {
    /// Run `git` with these arguments in the repository and report back.
    Run(Vec<String>),
    /// The work is done: sum it up with `SyncEngine::finish`.
    Finish,
    /// The sync ended before any git command: this is its state.
    Done(RepoSyncState),
}

/// Where the engine stands: which command's outcome it waits for.
#[derive(Debug, Clone, Copy, PartialEq, Eq, Structural)]
pub enum Phase {
    Fetch(usize),
    CurrentBranch,
    LocalSha,
    LocalRemote(usize),
    LocalAnc1(usize),
    LocalAnc2(usize, Option<bool>),
    LocalPush(usize),
    LocalPull(usize),
    SrcBranches(usize),
    DstBranches(usize),
    BranchAnc1(usize, usize),
    BranchAnc2(usize, usize, Option<bool>),
    BranchPush(usize, usize, bool),
    DeleteBranch(usize, usize),
    SrcTags(usize),
    DstTags(usize),
    TagPush(usize, usize),
    DeleteTag(usize, usize),
    Finished,
}

/// Two ancestry answers about a pair of refs `(dst, src)`: whether `dst` is an
/// ancestor of `src`, and whether `src` is an ancestor of `dst`.
#[derive(Debug, Clone, Copy, PartialEq, Eq, Structural)]
pub enum FastForward {
    /// `src` contains `dst`: `dst` can be fast-forwarded.
    Ahead,
    /// `dst` contains `src`: nothing to carry.
    Behind,
    /// Neither contains the other.
    Diverged,
    /// git could not tell.
    Unknown,
}

pub open spec fn fast_forward_of(dst_in_src: Option<bool>, src_in_dst: Option<bool>) -> FastForward {
    match (dst_in_src, src_in_dst) {
        (Some(true), _) => FastForward::Ahead,
        (_, Some(true)) => FastForward::Behind,
        (Some(false), Some(false)) => FastForward::Diverged,
        _ => FastForward::Unknown,
    }
}

/// What two ancestry answers say about carrying `src` over `dst`.
pub fn fast_forward(dst_in_src: Option<bool>, src_in_dst: Option<bool>) -> (r: FastForward)
    ensures
        r == fast_forward_of(dst_in_src, src_in_dst),
{
    match (dst_in_src, src_in_dst) {
        (Some(true), _) => FastForward::Ahead,
        (_, Some(true)) => FastForward::Behind,
        (Some(false), Some(false)) => FastForward::Diverged,
        _ => FastForward::Unknown,
    }
}

// ---------------------------------------------------------------------------
// The commands the engine may issue
// ---------------------------------------------------------------------------

/// What fixes the engine's choices: the remote of each platform, the rounds,
/// and whether mirror mode is on.
pub struct EngineConfig {
    pub github: Seq<char>,
    pub gitee: Seq<char>,
    pub rounds: Seq<Round>,
    pub mirror_delete: bool,
}

/// The configuration a repository entry gives, when it has both remotes.
pub open spec fn config_of(e: RepoEntryView, github: Seq<char>, gitee: Seq<char>) -> EngineConfig {
    EngineConfig {
        github,
        gitee,
        rounds: rounds_of(e.direction),
        mirror_delete: e.mirror_delete,
    }
}

pub open spec fn remote_of(c: EngineConfig, s: Side) -> Seq<char> {
    match s {
        Side::Github => c.github,
        Side::Gitee => c.gitee,
    }
}

/// `r` is the remote of the destination of some round.
pub open spec fn is_dst_remote(c: EngineConfig, r: Seq<char>) -> bool {
    exists|i: int| 0 <= i < c.rounds.len() && remote_of(c, #[trigger] c.rounds[i].dst) == r
}

/// `r` is the remote of the source of some round.
pub open spec fn is_src_remote(c: EngineConfig, r: Seq<char>) -> bool {
    exists|i: int| 0 <= i < c.rounds.len() && remote_of(c, #[trigger] c.rounds[i].src) == r
}

/// `t` names a branch or a tag.
pub open spec fn is_branch_or_tag(t: Seq<char>) -> bool {
    has_prefix(t, "refs/heads/"@) || has_prefix(t, "refs/tags/"@)
}

/// `x` is the refspec `<sha>:<target>` for a branch or tag target: an
/// explicit, non-forced update of exactly that ref.
pub open spec fn ref_update(x: Seq<char>, sha: Seq<char>, target: Seq<char>) -> bool {
    x == sha + ":"@ + target && is_branch_or_tag(target)
}

/// `x` is the refspec that pushes local branch `b` to the same branch.
pub open spec fn branch_update(x: Seq<char>, b: Seq<char>) -> bool {
    x == "refs/heads/"@ + b + ":refs/heads/"@ + b
}

/// Every git command the engine may ask for. Reading commands aside, it
/// pushes only explicit refspecs, without `--force`: ref updates to the
/// destination of a round, the local branch to the source of a round, and,
/// in mirror mode only, deletions of a branch or tag on a destination; it
/// pulls only with `--ff-only` from the source of a round.
pub open spec fn allowed_git(c: EngineConfig, a: Seq<Seq<char>>) -> bool {
    ||| a.len() == 3 && a[0] == "fetch"@ && (a[1] == c.github || a[1] == c.gitee) && a[2]
        == "--prune"@
    ||| a.len() == 2 && a[0] == "branch"@ && a[1] == "--show-current"@
    ||| a.len() == 2 && a[0] == "rev-parse"@
    ||| a.len() == 4 && a[0] == "merge-base"@ && a[1] == "--is-ancestor"@
    ||| a.len() == 3 && a[0] == "for-each-ref"@ && a[2] == "--format=%(refname:short) %(objectname)"@
    ||| a.len() == 3 && a[0] == "ls-remote"@ && a[1] == "--tags"@ && (is_src_remote(c, a[2])
        || is_dst_remote(c, a[2]))
    ||| a.len() == 3 && a[0] == "push"@ && is_dst_remote(c, a[1]) && exists|sha: Seq<char>, t: Seq<char>|
        #[trigger] ref_update(a[2], sha, t)
    ||| a.len() == 3 && a[0] == "push"@ && is_src_remote(c, a[1]) && exists|b: Seq<char>|
        #[trigger] branch_update(a[2], b)
    ||| a.len() == 4 && a[0] == "pull"@ && a[1] == "--ff-only"@ && is_src_remote(c, a[2])
        && has_prefix(a[3], "refs/heads/"@)
    ||| c.mirror_delete && a.len() == 4 && a[0] == "push"@ && is_dst_remote(c, a[1]) && a[2]
        == "--delete"@ && is_branch_or_tag(a[3])
}

/// The values of a list of arguments.
pub open spec fn args_view(a: Seq<String>) -> Seq<Seq<char>> {
    a.map_values(|s: String| s@)
}

/// A step is safe under `c` when any command it asks for is allowed.
pub open spec fn step_allowed(c: EngineConfig, s: Step) -> bool {
    match s {
        Step::Run(a) => allowed_git(c, args_view(a@)),
        _ => true,
    }
}

proof fn lemma_reveal_commands()
    ensures
        "fetch"@ == seq!['f', 'e', 't', 'c', 'h'],
        "branch"@ == seq!['b', 'r', 'a', 'n', 'c', 'h'],
        "rev-parse"@ == seq!['r', 'e', 'v', '-', 'p', 'a', 'r', 's', 'e'],
        "merge-base"@ == seq!['m', 'e', 'r', 'g', 'e', '-', 'b', 'a', 's', 'e'],
        "for-each-ref"@ == seq!['f', 'o', 'r', '-', 'e', 'a', 'c', 'h', '-', 'r', 'e', 'f'],
        "ls-remote"@ == seq!['l', 's', '-', 'r', 'e', 'm', 'o', 't', 'e'],
        "push"@ == seq!['p', 'u', 's', 'h'],
        "pull"@ == seq!['p', 'u', 'l', 'l'],
        "--force"@.len() == 7,
        "refs/heads/"@.len() == 11,
        "refs/tags/"@.len() == 10,
{
    reveal_strlit("fetch");
    reveal_strlit("branch");
    reveal_strlit("rev-parse");
    reveal_strlit("merge-base");
    reveal_strlit("for-each-ref");
    reveal_strlit("ls-remote");
    reveal_strlit("push");
    reveal_strlit("pull");
    reveal_strlit("--force");
    reveal_strlit("refs/heads/");
    reveal_strlit("refs/tags/");
}

/// The pushes the engine may ask for: a ref update of a round's destination,
/// the local branch to a round's source, or (in mirror mode) a deletion on a
/// round's destination.
proof fn lemma_push_forms(c: EngineConfig, a: Seq<Seq<char>>)
    requires
        allowed_git(c, a),
        a.len() >= 1,
        a[0] == "push"@,
    ensures
        ({
            ||| a.len() == 3 && is_dst_remote(c, a[1]) && exists|sha: Seq<char>, t: Seq<char>|
                #[trigger] ref_update(a[2], sha, t)
            ||| a.len() == 3 && is_src_remote(c, a[1]) && exists|b: Seq<char>|
                #[trigger] branch_update(a[2], b)
            ||| c.mirror_delete && a.len() == 4 && is_dst_remote(c, a[1]) && a[2] == "--delete"@
                && is_branch_or_tag(a[3])
        }),
{
    lemma_reveal_commands();
    assert(a[0][1] == 'u');
}

/// With a one-way direction, the only push the engine may send to the
/// source platform's remote is the checked-out branch pushed to its own name
/// (when the local clone is ahead): no ref of the source is updated from the
/// other side, and none is deleted.
pub proof fn lemma_one_way_spares_source(d: Direction, c: EngineConfig, a: Seq<Seq<char>>)
    requires
        d != Direction::Both,
        c.rounds == rounds_of(d),
        c.github != c.gitee,
        allowed_git(c, a),
        a.len() >= 2,
        a[0] == "push"@,
        a[1] == remote_of(c, c.rounds[0].src),
    ensures
        a.len() == 3,
        exists|b: Seq<char>| #[trigger] branch_update(a[2], b),
{
    lemma_push_forms(c, a);
    if is_dst_remote(c, a[1]) {
        let i = choose|i: int| 0 <= i < c.rounds.len() && remote_of(c, #[trigger] c.rounds[i].dst) == a[1];
        assert(i == 0);
    }
}

/// Without mirror mode the engine deletes nothing: every push it may ask
/// for is a single explicit refspec.
pub proof fn lemma_no_deletion_without_mirror(c: EngineConfig, a: Seq<Seq<char>>)
    requires
        !c.mirror_delete,
        allowed_git(c, a),
        a.len() >= 1,
        a[0] == "push"@,
    ensures
        a.len() == 3,
{
    lemma_push_forms(c, a);
}

/// A push or pull the engine may ask for never carries `--force` (as long as
/// no remote is itself called `--force`): refs are only updated by explicit
/// refspecs, and pulls are fast-forward only.
pub proof fn lemma_never_forced(c: EngineConfig, a: Seq<Seq<char>>)
    requires
        allowed_git(c, a),
        a.len() >= 1,
        a[0] == "push"@ || a[0] == "pull"@,
        c.github != "--force"@,
        c.gitee != "--force"@,
    ensures
        forall|i: int| 0 <= i < a.len() ==> a[i] != "--force"@,
        a[0] == "pull"@ ==> a[1] == "--ff-only"@,
{
    lemma_reveal_commands();
    assert(a[0][1] == 'u');
    if a[0] == "pull"@ {
        assert(a[0][2] == 'l');
        assert(a.len() == 4 && a[1] == "--ff-only"@ && is_src_remote(c, a[2]) && has_prefix(a[3], "refs/heads/"@));
        let j = choose|j: int| 0 <= j < c.rounds.len() && remote_of(c, #[trigger] c.rounds[j].src) == a[2];
        assert(a[2] != "--force"@);
        assert(a[3].len() >= 11);
        reveal_strlit("--ff-only");
        assert(a[1].len() == 9);
    } else {
        lemma_push_forms(c, a);
        if is_dst_remote(c, a[1]) {
            let j = choose|j: int| 0 <= j < c.rounds.len() && remote_of(c, #[trigger] c.rounds[j].dst) == a[1];
        }
        if is_src_remote(c, a[1]) {
            let j = choose|j: int| 0 <= j < c.rounds.len() && remote_of(c, #[trigger] c.rounds[j].src) == a[1];
        }
        assert(a[1] != "--force"@);
        if a.len() == 3 {
            if exists|sha: Seq<char>, t: Seq<char>| #[trigger] ref_update(a[2], sha, t) {
                let (sha, t) = choose|sha: Seq<char>, t: Seq<char>| #[trigger] ref_update(a[2], sha, t);
                assert(a[2].len() >= 10);
            } else {
                let b = choose|b: Seq<char>| #[trigger] branch_update(a[2], b);
                assert(a[2].len() >= 11);
            }
        } else {
            reveal_strlit("--delete");
            assert(a[2].len() == 8);
            assert(a[3].len() >= 10);
        }
    }
}

// ---------------------------------------------------------------------------
// The commands, one by one
// ---------------------------------------------------------------------------

/// The remote of the source of round `r`.
pub open spec fn src_remote(c: EngineConfig, r: int) -> Seq<char> {
    remote_of(c, c.rounds[r].src)
}

/// The remote of the destination of round `r`.
pub open spec fn dst_remote(c: EngineConfig, r: int) -> Seq<char> {
    remote_of(c, c.rounds[r].dst)
}

/// Where branches or tags live.
pub open spec fn ref_prefix(branch: bool) -> Seq<char> {
    if branch {
        "refs/heads/"@
    } else {
        "refs/tags/"@
    }
}

/// `git fetch <remote> --prune`.
pub open spec fn fetch_cmd(remote: Seq<char>) -> Seq<Seq<char>> {
    seq!["fetch"@, remote, "--prune"@]
}

/// `git branch --show-current`.
pub open spec fn current_branch_cmd() -> Seq<Seq<char>> {
    seq!["branch"@, "--show-current"@]
}

/// `git rev-parse refs/heads/<b>`.
pub open spec fn local_sha_cmd(b: Seq<char>) -> Seq<Seq<char>> {
    seq!["rev-parse"@, "refs/heads/"@ + b]
}

/// `git rev-parse refs/remotes/<remote>/<b>`.
pub open spec fn remote_sha_cmd(remote: Seq<char>, b: Seq<char>) -> Seq<Seq<char>> {
    seq!["rev-parse"@, "refs/remotes/"@ + remote + "/"@ + b]
}

/// `git merge-base --is-ancestor <x> <y>`: whether `x` is an ancestor of `y`.
pub open spec fn ancestry_cmd(x: Seq<char>, y: Seq<char>) -> Seq<Seq<char>> {
    seq!["merge-base"@, "--is-ancestor"@, x, y]
}

/// The listing of the remote-tracking branches of `remote`.
pub open spec fn list_branches_cmd(remote: Seq<char>) -> Seq<Seq<char>> {
    seq!["for-each-ref"@, "refs/remotes/"@ + remote + "/"@, "--format=%(refname:short) %(objectname)"@]
}

/// The listing of the tags of `remote`.
pub open spec fn list_tags_cmd(remote: Seq<char>) -> Seq<Seq<char>> {
    seq!["ls-remote"@, "--tags"@, remote]
}

/// `git push <remote> <sha>:refs/{heads,tags}/<name>`.
pub open spec fn push_ref_cmd(remote: Seq<char>, sha: Seq<char>, branch: bool, name: Seq<char>) -> Seq<
    Seq<char>,
> {
    seq!["push"@, remote, sha + ":"@ + (ref_prefix(branch) + name)]
}

/// `git push <remote> refs/heads/<b>:refs/heads/<b>`.
pub open spec fn push_local_cmd(remote: Seq<char>, b: Seq<char>) -> Seq<Seq<char>> {
    seq!["push"@, remote, "refs/heads/"@ + b + ":refs/heads/"@ + b]
}

/// `git pull --ff-only <remote> refs/heads/<b>`.
pub open spec fn pull_cmd(remote: Seq<char>, b: Seq<char>) -> Seq<Seq<char>> {
    seq!["pull"@, "--ff-only"@, remote, "refs/heads/"@ + b]
}

/// `git push <remote> --delete refs/{heads,tags}/<name>`.
pub open spec fn delete_cmd(remote: Seq<char>, branch: bool, name: Seq<char>) -> Seq<Seq<char>> {
    seq!["push"@, remote, "--delete"@, ref_prefix(branch) + name]
}

/// The step runs exactly `cmd`.
pub open spec fn runs(s: Step, cmd: Seq<Seq<char>>) -> bool {
    s matches Step::Run(a) && args_view(a@) == cmd
}

// ---------------------------------------------------------------------------
// Which ref comes next
// ---------------------------------------------------------------------------

/// Source branch `k` needs work: the destination lacks it, or has it at
/// another sha.
pub open spec fn branch_needs_work(
    src: Seq<(Seq<char>, Seq<char>)>,
    dst: Seq<(Seq<char>, Seq<char>)>,
    k: int,
) -> bool {
    key_index(dst, src[k].0) < 0 || dst[key_index(dst, src[k].0)].1 != src[k].1
}

/// The first source branch from `i` on that needs work (the length when none).
pub open spec fn next_branch_work(
    src: Seq<(Seq<char>, Seq<char>)>,
    dst: Seq<(Seq<char>, Seq<char>)>,
    i: int,
) -> int
    decreases src.len() - i,
{
    if i >= src.len() {
        src.len() as int
    } else if branch_needs_work(src, dst, i) {
        i
    } else {
        next_branch_work(src, dst, i + 1)
    }
}

/// The first entry of `other` from `j` on whose name `keep` lacks (the
/// length when none).
pub open spec fn next_stale<V, W>(keep: Seq<(Seq<char>, V)>, other: Seq<(Seq<char>, W)>, j: int) -> int
    decreases other.len() - j,
{
    if j >= other.len() {
        other.len() as int
    } else if key_index(keep, other[j].0) < 0 {
        j
    } else {
        next_stale(keep, other, j + 1)
    }
}

/// The walk over the source tags from `i` on: tags pointing at the same
/// commit on both sides are passed, a tag pointing elsewhere is recorded as
/// a conflict and passed, and the walk stops at the first tag the
/// destination lacks. The tally after the walk, and where it stopped (the
/// length when it reached the end).
pub open spec fn tag_walk(
    t: AccView,
    src: Seq<(Seq<char>, TagRefView)>,
    dst: Seq<(Seq<char>, TagRefView)>,
    i: int,
    src_side: Side,
) -> (AccView, int)
    decreases src.len() - i,
{
    if i >= src.len() {
        (t, src.len() as int)
    } else {
        let j = key_index(dst, src[i].0);
        if j < 0 {
            (t, i)
        } else if dst[j].1.peeled == src[i].1.peeled {
            tag_walk(t, src, dst, i + 1, src_side)
        } else {
            tag_walk(
                with_conflict(t, RefKind::Tag, src[i].0, src_side, src[i].1.ref_sha, dst[j].1.ref_sha),
                src,
                dst,
                i + 1,
                src_side,
            )
        }
    }
}

// ---------------------------------------------------------------------------
// Where the engine goes next
// ---------------------------------------------------------------------------

/// The same local branch, sha and sides.
pub open spec fn same_local(a: EngineView, b: EngineView) -> bool {
    &&& a.branch == b.branch
    &&& a.local_sha == b.local_sha
    &&& a.sides == b.sides
}

/// Nothing but the phase, the ref under comparison and the tally differs.
pub open spec fn same_data(a: EngineView, b: EngineView) -> bool {
    &&& a.config == b.config
    &&& same_local(a, b)
    &&& a.src_branches == b.src_branches
    &&& a.dst_branches == b.dst_branches
    &&& a.src_tags == b.src_tags
    &&& a.dst_tags == b.dst_tags
}

/// The same ref under comparison.
pub open spec fn same_cur(a: EngineView, b: EngineView) -> bool {
    &&& a.cur_name == b.cur_name
    &&& a.cur_src == b.cur_src
    &&& a.cur_dst == b.cur_dst
}

/// Round `r` begins (listing the source's branches), or the sync is over
/// after the last round.
pub open spec fn at_round(e: EngineView, r: int, s: Step) -> bool {
    if r < e.config.rounds.len() {
        &&& e.phase matches Phase::SrcBranches(q) && q == r
        &&& runs(s, list_branches_cmd(src_remote(e.config, r)))
    } else {
        e.phase == Phase::Finished && s is Finish
    }
}

/// The local branch is compared with the remote of side `k`, or the rounds
/// begin when all sides are done.
pub open spec fn at_local(e: EngineView, k: int, s: Step) -> bool {
    if k < e.sides.len() {
        &&& e.phase matches Phase::LocalRemote(q) && q == k
        &&& runs(s, remote_sha_cmd(remote_of(e.config, e.sides[k]), e.branch))
    } else {
        at_round(e, 0, s)
    }
}

/// In round `r`, the first source branch from `i` on that needs work is
/// taken up: pushed when the destination lacks it, otherwise compared; when
/// none is left, the deletions follow.
pub open spec fn at_branches(e: EngineView, r: int, i: int, s: Step) -> bool {
    let k = next_branch_work(e.src_branches, e.dst_branches, i);
    if k < e.src_branches.len() {
        let name = e.src_branches[k].0;
        let sha = e.src_branches[k].1;
        let j = key_index(e.dst_branches, name);
        &&& e.cur_name == name
        &&& e.cur_src == sha
        &&& if j < 0 {
            &&& e.phase matches Phase::BranchPush(q, p, false) && q == r && p == k
            &&& runs(s, push_ref_cmd(dst_remote(e.config, r), sha, true, name))
        } else {
            &&& e.cur_dst == e.dst_branches[j].1
            &&& e.phase matches Phase::BranchAnc1(q, p) && q == r && p == k
            &&& runs(s, ancestry_cmd(e.dst_branches[j].1, sha))
        }
    } else {
        at_delete_branches(e, r, 0, s)
    }
}

/// In mirror mode, the first destination branch from `j` on that the source
/// lacks is deleted; otherwise the tags of round `r` follow.
pub open spec fn at_delete_branches(e: EngineView, r: int, j: int, s: Step) -> bool {
    let k = next_stale(e.src_branches, e.dst_branches, j);
    if e.config.mirror_delete && k < e.dst_branches.len() {
        &&& e.phase matches Phase::DeleteBranch(q, p) && q == r && p == k
        &&& runs(s, delete_cmd(dst_remote(e.config, r), true, e.dst_branches[k].0))
    } else {
        &&& e.phase matches Phase::SrcTags(q) && q == r
        &&& runs(s, list_tags_cmd(src_remote(e.config, r)))
    }
}

/// In round `r`, the tags from `i` on are walked from tally `t`; the first
/// tag the destination lacks is pushed; when none is left, the deletions
/// follow.
pub open spec fn at_tags(t: AccView, e: EngineView, r: int, i: int, s: Step) -> bool {
    let w = tag_walk(t, e.src_tags, e.dst_tags, i, e.config.rounds[r].src);
    let k = w.1;
    &&& e.tally == w.0
    &&& if k < e.src_tags.len() {
        &&& e.cur_name == e.src_tags[k].0
        &&& e.cur_src == e.src_tags[k].1.ref_sha
        &&& e.phase matches Phase::TagPush(q, p) && q == r && p == k
        &&& runs(s, push_ref_cmd(dst_remote(e.config, r), e.src_tags[k].1.ref_sha, false, e.src_tags[k].0))
    } else {
        at_delete_tags(e, r, 0, s)
    }
}

/// In mirror mode, the first destination tag from `j` on that the source
/// lacks is deleted; otherwise the next round follows.
pub open spec fn at_delete_tags(e: EngineView, r: int, j: int, s: Step) -> bool {
    let k = next_stale(e.src_tags, e.dst_tags, j);
    if e.config.mirror_delete && k < e.dst_tags.len() {
        &&& e.phase matches Phase::DeleteTag(q, p) && q == r && p == k
        &&& runs(s, delete_cmd(dst_remote(e.config, r), false, e.dst_tags[k].0))
    } else {
        at_round(e, r + 1, s)
    }
}

/// The phases of the branch part of a round.
pub open spec fn is_branch_phase(p: Phase) -> bool {
    ||| p is SrcBranches
    ||| p is DstBranches
    ||| p is BranchAnc1
    ||| p is BranchAnc2
    ||| p is BranchPush
    ||| p is DeleteBranch
}

/// The phases of the tag part of a round.
pub open spec fn is_tag_phase(p: Phase) -> bool {
    ||| p is SrcTags
    ||| p is DstTags
    ||| p is TagPush
    ||| p is DeleteTag
}

/// What a command printed on its standard output.
pub open spec fn raw_stdout(o: GitOutcome) -> Seq<char> {
    match o {
        GitOutcome::Exited(x) => x.stdout@,
        GitOutcome::NotStarted(_) => seq![],
    }
}

/// What reading the outcome `o` of the command that phase `a.phase` waits
/// for does: the engine goes from `a` to `b` and asks for `s`.
///
/// A failed fetch ends the sync; a failed listing ends the round. The local
/// branch, when there is one, is compared with the source of each round:
/// pushed when ahead, pulled with `--ff-only` when behind, a divergence when
/// neither contains the other. In each round every source branch the
/// destination lacks is pushed, one it has at an ancestor is fast-forwarded,
/// a diverged one is a conflict; tags the destination lacks are pushed, tags
/// pointing elsewhere are conflicts; in mirror mode what the source lacks is
/// deleted on the destination. Each outcome is tallied as `after_push`,
/// `after_delete`, `after_local_push` and `after_pull` say.
pub open spec fn resumed(a: EngineView, o: GitOutcome, b: EngineView, s: Step) -> bool {
    let c = a.config;
    match a.phase {
        Phase::Fetch(k) => {
            let remote = if k == 0 {
                c.github
            } else {
                c.gitee
            };
            &&& same_data(a, b)
            &&& match fetch_failure(remote, o) {
                Some(m) => b.tally == with_error(a.tally, m) && b.phase == Phase::Finished && s is Finish,
                None => {
                    &&& b.tally == a.tally
                    &&& if k == 0 {
                        b.phase == Phase::Fetch(1) && runs(s, fetch_cmd(c.gitee))
                    } else {
                        b.phase == Phase::CurrentBranch && runs(s, current_branch_cmd())
                    }
                },
            }
        },
        Phase::CurrentBranch => {
            &&& b.tally == a.tally
            &&& match stdout_of(o) {
                Some(name) if name.len() > 0 => {
                    &&& b.config == a.config
                    &&& b.branch == name
                    &&& b.phase == Phase::LocalSha
                    &&& runs(s, local_sha_cmd(name))
                },
                _ => same_data(a, b) && at_round(b, 0, s),
            }
        },
        Phase::LocalSha => {
            &&& b.tally == a.tally
            &&& match stdout_of(o) {
                Some(sha) => {
                    &&& b.config == a.config
                    &&& b.branch == a.branch
                    &&& b.local_sha == sha
                    &&& b.sides == local_sides(c.rounds)
                    &&& at_local(b, 0, s)
                },
                None => same_data(a, b) && at_round(b, 0, s),
            }
        },
        Phase::LocalRemote(k) => {
            let remote = remote_of(c, a.sides[k as int]);
            &&& same_data(a, b)
            &&& b.tally == a.tally
            &&& match stdout_of(o) {
                None => b.phase == Phase::LocalPush(k) && runs(s, push_local_cmd(remote, a.branch)),
                Some(rt) => if rt == a.local_sha {
                    at_local(b, k + 1, s)
                } else {
                    &&& b.cur_dst == rt
                    &&& b.phase == Phase::LocalAnc1(k)
                    &&& runs(s, ancestry_cmd(rt, a.local_sha))
                },
            }
        },
        Phase::LocalAnc1(k) => {
            &&& same_data(a, b)
            &&& b.tally == a.tally
            &&& b.cur_dst == a.cur_dst
            &&& b.phase == Phase::LocalAnc2(k, ancestry_of(o))
            &&& runs(s, ancestry_cmd(a.local_sha, a.cur_dst))
        },
        Phase::LocalAnc2(k, first) => {
            let remote = remote_of(c, a.sides[k as int]);
            &&& same_data(a, b)
            &&& match fast_forward_of(first, ancestry_of(o)) {
                FastForward::Ahead => {
                    &&& b.tally == a.tally
                    &&& b.phase == Phase::LocalPush(k)
                    &&& runs(s, push_local_cmd(remote, a.branch))
                },
                FastForward::Behind => {
                    &&& b.tally == a.tally
                    &&& b.phase == Phase::LocalPull(k)
                    &&& runs(s, pull_cmd(remote, a.branch))
                },
                FastForward::Diverged => b.tally == local_diverged(a.tally, remote, a.branch) && at_local(
                    b,
                    k + 1,
                    s,
                ),
                FastForward::Unknown => b.tally == a.tally && at_local(b, k + 1, s),
            }
        },
        Phase::LocalPush(k) => {
            &&& same_data(a, b)
            &&& b.tally == after_local_push(a.tally, remote_of(c, a.sides[k as int]), a.branch, o)
            &&& at_local(b, k + 1, s)
        },
        Phase::LocalPull(k) => {
            &&& same_data(a, b)
            &&& b.tally == after_pull(a.tally, remote_of(c, a.sides[k as int]), a.branch, o)
            &&& at_local(b, k + 1, s)
        },
        Phase::SrcBranches(r) => match fetch_failure(src_remote(c, r as int), o) {
            Some(m) => same_data(a, b) && b.tally == with_error(a.tally, m) && at_round(b, r + 1, s),
            None => {
                &&& b.config == a.config
                &&& same_local(a, b)
                &&& b.tally == a.tally
                &&& b.src_branches == remote_branches_of(src_remote(c, r as int), raw_stdout(o))
                &&& b.phase == Phase::DstBranches(r)
                &&& runs(s, list_branches_cmd(dst_remote(c, r as int)))
            },
        },
        Phase::DstBranches(r) => match fetch_failure(dst_remote(c, r as int), o) {
            Some(m) => same_data(a, b) && b.tally == with_error(a.tally, m) && at_round(b, r + 1, s),
            None => {
                &&& b.config == a.config
                &&& same_local(a, b)
                &&& b.tally == a.tally
                &&& b.src_branches == a.src_branches
                &&& b.dst_branches == remote_branches_of(dst_remote(c, r as int), raw_stdout(o))
                &&& at_branches(b, r as int, 0, s)
            },
        },
        Phase::BranchAnc1(r, i) => {
            &&& same_data(a, b)
            &&& same_cur(a, b)
            &&& b.tally == a.tally
            &&& b.phase == Phase::BranchAnc2(r, i, ancestry_of(o))
            &&& runs(s, ancestry_cmd(a.cur_src, a.cur_dst))
        },
        Phase::BranchAnc2(r, i, first) => {
            &&& same_data(a, b)
            &&& match fast_forward_of(first, ancestry_of(o)) {
                FastForward::Ahead => {
                    &&& same_cur(a, b)
                    &&& b.tally == a.tally
                    &&& b.phase == Phase::BranchPush(r, i, true)
                    &&& runs(s, push_ref_cmd(dst_remote(c, r as int), a.cur_src, true, a.cur_name))
                },
                FastForward::Diverged => {
                    &&& b.tally == with_conflict(
                        a.tally,
                        RefKind::Branch,
                        a.cur_name,
                        c.rounds[r as int].src,
                        a.cur_src,
                        a.cur_dst,
                    )
                    &&& at_branches(b, r as int, i + 1, s)
                },
                _ => b.tally == a.tally && at_branches(b, r as int, i + 1, s),
            }
        },
        Phase::BranchPush(r, i, known) => {
            &&& same_data(a, b)
            &&& b.tally == after_push(
                a.tally,
                dst_remote(c, r as int),
                a.cur_src,
                RefKind::Branch,
                a.cur_name,
                c.rounds[r as int].src,
                if known {
                    Some(a.cur_dst)
                } else {
                    None
                },
                o,
            )
            &&& at_branches(b, r as int, i + 1, s)
        },
        Phase::DeleteBranch(r, j) => {
            &&& same_data(a, b)
            &&& b.tally == after_delete(a.tally, dst_remote(c, r as int), o)
            &&& at_delete_branches(b, r as int, j + 1, s)
        },
        Phase::SrcTags(r) => match fetch_failure(src_remote(c, r as int), o) {
            Some(m) => same_data(a, b) && b.tally == with_error(a.tally, m) && at_round(b, r + 1, s),
            None => {
                &&& b.config == a.config
                &&& same_local(a, b)
                &&& b.tally == a.tally
                &&& b.src_branches == a.src_branches
                &&& b.dst_branches == a.dst_branches
                &&& b.src_tags == remote_tags_of(raw_stdout(o))
                &&& b.phase == Phase::DstTags(r)
                &&& runs(s, list_tags_cmd(dst_remote(c, r as int)))
            },
        },
        Phase::DstTags(r) => match fetch_failure(dst_remote(c, r as int), o) {
            Some(m) => same_data(a, b) && b.tally == with_error(a.tally, m) && at_round(b, r + 1, s),
            None => {
                &&& b.config == a.config
                &&& same_local(a, b)
                &&& b.src_branches == a.src_branches
                &&& b.dst_branches == a.dst_branches
                &&& b.src_tags == a.src_tags
                &&& b.dst_tags == remote_tags_of(raw_stdout(o))
                &&& at_tags(a.tally, b, r as int, 0, s)
            },
        },
        Phase::TagPush(r, i) => {
            &&& same_data(a, b)
            &&& at_tags(
                after_push(
                    a.tally,
                    dst_remote(c, r as int),
                    a.cur_src,
                    RefKind::Tag,
                    a.cur_name,
                    c.rounds[r as int].src,
                    None,
                    o,
                ),
                b,
                r as int,
                i + 1,
                s,
            )
        },
        Phase::DeleteTag(r, j) => {
            &&& same_data(a, b)
            &&& b.tally == after_delete(a.tally, dst_remote(c, r as int), o)
            &&& at_delete_tags(b, r as int, j + 1, s)
        },
        Phase::Finished => b == a && s is Finish,
    }
}

// ---------------------------------------------------------------------------
// What every step keeps
// ---------------------------------------------------------------------------

/// No two conflicts are on the same ref.
pub open spec fn conflicts_unique(cs: Seq<RefConflictView>) -> bool {
    forall|i: int, j: int|
        0 <= i < j < cs.len() ==> !(cs[i].kind == cs[j].kind && cs[i].name == cs[j].name)
}

/// The tally keeps what the laws of a step need: no deletion counted, and
/// conflicts that stay one per ref.
pub open spec fn keeps_tally(a: AccView, b: AccView) -> bool {
    &&& b.deleted == a.deleted
    &&& conflicts_unique(a.conflicts) ==> conflicts_unique(b.conflicts)
}

proof fn lemma_with_conflict_keeps(
    a: AccView,
    kind: RefKind,
    name: Seq<char>,
    side: Side,
    x: Seq<char>,
    y: Seq<char>,
)
    ensures
        keeps_tally(a, with_conflict(a, kind, name, side, x, y)),
{
    if !has_conflict(a.conflicts, kind, name) {
        let b = with_conflict(a, kind, name, side, x, y);
        if conflicts_unique(a.conflicts) {
            assert forall|i: int, j: int|
                0 <= i < j < b.conflicts.len() implies !(b.conflicts[i].kind == b.conflicts[j].kind
                && b.conflicts[i].name == b.conflicts[j].name) by {
                if j == a.conflicts.len() {
                    assert(b.conflicts[i] == a.conflicts[i]);
                    if a.conflicts[i].kind == kind && a.conflicts[i].name == name {
                        assert(has_conflict(a.conflicts, kind, name));
                    }
                } else {
                    assert(b.conflicts[i] == a.conflicts[i]);
                    assert(b.conflicts[j] == a.conflicts[j]);
                }
            }
        }
    }
}

proof fn lemma_after_push_keeps(
    a: AccView,
    remote: Seq<char>,
    sha: Seq<char>,
    kind: RefKind,
    name: Seq<char>,
    side: Side,
    known: Option<Seq<char>>,
    o: GitOutcome,
)
    ensures
        keeps_tally(a, after_push(a, remote, sha, kind, name, side, known, o)),
{
    match o {
        GitOutcome::Exited(x) => {
            if x.code != Some(0i32) && has_infix(x.stderr@, "[rejected]"@) && kind == RefKind::Branch {
                match known {
                    Some(d) => lemma_with_conflict_keeps(a, kind, name, side, sha, d),
                    None => {},
                }
            }
        },
        GitOutcome::NotStarted(_) => {},
    }
}

proof fn lemma_tag_walk_keeps(
    t: AccView,
    src: Seq<(Seq<char>, TagRefView)>,
    dst: Seq<(Seq<char>, TagRefView)>,
    i: int,
    side: Side,
)
    ensures
        keeps_tally(t, tag_walk(t, src, dst, i, side).0),
    decreases src.len() - i,
{
    if i < src.len() {
        let j = key_index(dst, src[i].0);
        if j >= 0 {
            if dst[j].1.peeled == src[i].1.peeled {
                lemma_tag_walk_keeps(t, src, dst, i + 1, side);
            } else {
                let t2 = with_conflict(t, RefKind::Tag, src[i].0, side, src[i].1.ref_sha, dst[j].1.ref_sha);
                lemma_with_conflict_keeps(t, RefKind::Tag, src[i].0, side, src[i].1.ref_sha, dst[j].1.ref_sha);
                lemma_tag_walk_keeps(t2, src, dst, i + 1, side);
            }
        }
    }
}

/// What one step does to the tally: conflicts stay one per ref, and outside
/// the deletion phases (which mirror mode alone reaches) no deletion is
/// counted. So without mirror mode a sync reports no deleted ref, and its
/// conflicts never name a ref twice.
pub proof fn lemma_resume_keeps_tally(a: EngineView, o: GitOutcome, b: EngineView, s: Step)
    requires
        resumed(a, o, b, s),
    ensures
        !(a.phase is DeleteBranch || a.phase is DeleteTag) ==> b.tally.deleted == a.tally.deleted,
        conflicts_unique(a.tally.conflicts) ==> conflicts_unique(b.tally.conflicts),
{
    let c = a.config;
    match a.phase {
        Phase::BranchAnc2(r, i, first) => {
            lemma_with_conflict_keeps(a.tally, RefKind::Branch, a.cur_name, c.rounds[r as int].src, a.cur_src, a.cur_dst);
        },
        Phase::BranchPush(r, i, known) => {
            lemma_after_push_keeps(
                a.tally,
                dst_remote(c, r as int),
                a.cur_src,
                RefKind::Branch,
                a.cur_name,
                c.rounds[r as int].src,
                if known {
                    Some(a.cur_dst)
                } else {
                    None
                },
                o,
            );
        },
        Phase::DstTags(r) => {
            lemma_tag_walk_keeps(a.tally, b.src_tags, b.dst_tags, 0, c.rounds[r as int].src);
        },
        Phase::TagPush(r, i) => {
            let t = after_push(a.tally, dst_remote(c, r as int), a.cur_src, RefKind::Tag, a.cur_name, c.rounds[r as int].src, None, o);
            lemma_after_push_keeps(a.tally, dst_remote(c, r as int), a.cur_src, RefKind::Tag, a.cur_name, c.rounds[r as int].src, None, o);
            lemma_tag_walk_keeps(t, b.src_tags, b.dst_tags, i + 1, c.rounds[r as int].src);
        },
        Phase::DeleteBranch(..) | Phase::DeleteTag(..) => {
            assert(conflicts_unique(a.tally.conflicts) ==> conflicts_unique(b.tally.conflicts));
        },
        _ => {},
    }
}

/// A step never changes the engine's configuration, and it reaches a
/// deletion phase only in mirror mode.
pub proof fn lemma_resume_keeps_config(a: EngineView, o: GitOutcome, b: EngineView, s: Step)
    requires
        resumed(a, o, b, s),
    ensures
        b.config == a.config,
        (b.phase is DeleteBranch || b.phase is DeleteTag) ==> b.config.mirror_delete,
{
}

/// The engine goes from `es[0]` to `es.last()` by reading the outcomes `os`
/// in turn, asking for the steps `ss` on the way.
pub open spec fn is_run(es: Seq<EngineView>, os: Seq<GitOutcome>, ss: Seq<Step>) -> bool {
    &&& es.len() == os.len() + 1
    &&& ss.len() == os.len()
    &&& forall|i: int| 0 <= i < os.len() ==> resumed(es[i], #[trigger] os[i], es[i + 1], ss[i])
}

proof fn lemma_run_prefix(es: Seq<EngineView>, os: Seq<GitOutcome>, ss: Seq<Step>, k: int)
    requires
        is_run(es, os, ss),
        0 <= k <= os.len(),
        !es[0].config.mirror_delete,
        !(es[0].phase is DeleteBranch || es[0].phase is DeleteTag),
    ensures
        es[k].config == es[0].config,
        !(es[k].phase is DeleteBranch || es[k].phase is DeleteTag),
        es[k].tally.deleted == es[0].tally.deleted,
        conflicts_unique(es[0].tally.conflicts) ==> conflicts_unique(es[k].tally.conflicts),
    decreases k,
{
    if k > 0 {
        lemma_run_prefix(es, os, ss, k - 1);
        assert(resumed(es[k - 1], os[k - 1], es[k], ss[k - 1]));
        lemma_resume_keeps_config(es[k - 1], os[k - 1], es[k], ss[k - 1]);
        lemma_resume_keeps_tally(es[k - 1], os[k - 1], es[k], ss[k - 1]);
    }
}

/// Without mirror mode a whole sync deletes nothing and names each
/// conflicting ref once: every run of the engine from a state outside the
/// deletion phases keeps its configuration and its count of deleted refs,
/// keeps its conflicts one per ref, and so ends in a result (see
/// `finished`) that reports as many deleted refs as at the start (none,
/// from `SyncEngine::start`).
pub proof fn lemma_run_without_mirror(es: Seq<EngineView>, os: Seq<GitOutcome>, ss: Seq<Step>, now: i64)
    requires
        is_run(es, os, ss),
        !es[0].config.mirror_delete,
        !(es[0].phase is DeleteBranch || es[0].phase is DeleteTag),
    ensures
        es.last().config == es[0].config,
        es.last().tally.deleted == es[0].tally.deleted,
        conflicts_unique(es[0].tally.conflicts) ==> conflicts_unique(es.last().tally.conflicts),
        finished(es.last().tally, now).deleted_refs == es[0].tally.deleted,
        conflicts_unique(es[0].tally.conflicts) ==> conflicts_unique(
            finished(es.last().tally, now).conflicts,
        ),
{
    lemma_run_prefix(es, os, ss, os.len() as int);
}

/// A step that touches no ref but by a fast-forward or an explicit refspec:
/// a push it asks for is one explicit refspec (no deletion), a pull is
/// `--ff-only`, and neither carries `--force`.
pub open spec fn spares_refs(s: Step) -> bool {
    match s {
        Step::Run(a) => {
            let x = args_view(a@);
            &&& x.len() >= 1 && x[0] == "push"@ ==> x.len() == 3 && forall|j: int|
                0 <= j < x.len() ==> x[j] != "--force"@
            &&& x.len() >= 1 && x[0] == "pull"@ ==> x[1] == "--ff-only"@ && forall|j: int|
                0 <= j < x.len() ==> x[j] != "--force"@
        },
        _ => true,
    }
}

/// Without mirror mode a whole sync leaves every ref in place or moves it
/// forward, as far as the commands it asks for decide: in a run whose steps
/// are allowed (as `SyncEngine::resume` ensures of each step it gives, and
/// `SyncEngine::start` of the first), every push is a single explicit
/// refspec, never a deletion, every pull is `--ff-only`, nothing is forced,
/// and the result reports no more deleted refs than at the start (none from
/// `start`). Whether a push moves a ref forward is then git's own rule
/// against non-fast-forward updates.
pub proof fn lemma_run_spares_refs(es: Seq<EngineView>, os: Seq<GitOutcome>, ss: Seq<Step>, now: i64)
    requires
        is_run(es, os, ss),
        forall|i: int| 0 <= i < ss.len() ==> step_allowed(es[i + 1].config, #[trigger] ss[i]),
        !es[0].config.mirror_delete,
        !(es[0].phase is DeleteBranch || es[0].phase is DeleteTag),
        es[0].config.github != "--force"@,
        es[0].config.gitee != "--force"@,
    ensures
        forall|i: int| 0 <= i < ss.len() ==> spares_refs(#[trigger] ss[i]),
        finished(es.last().tally, now).deleted_refs == es[0].tally.deleted,
{
    lemma_run_without_mirror(es, os, ss, now);
    assert forall|i: int| 0 <= i < ss.len() implies spares_refs(#[trigger] ss[i]) by {
        lemma_run_prefix(es, os, ss, i + 1);
        let c = es[i + 1].config;
        match ss[i] {
            Step::Run(a) => {
                let x = args_view(a@);
                assert(allowed_git(c, x));
                if x.len() >= 1 && x[0] == "push"@ {
                    lemma_no_deletion_without_mirror(c, x);
                    lemma_never_forced(c, x);
                }
                if x.len() >= 1 && x[0] == "pull"@ {
                    lemma_never_forced(c, x);
                }
            },
            _ => {},
        }
    }
}

/// A local branch the source remote lacks is published: when the remote of
/// the side under comparison has no remote-tracking ref for the checked-out
/// branch (its `rev-parse` fails), the next command is the push of the local
/// branch to its own name on that remote.
pub proof fn lemma_missing_remote_branch_is_pushed(a: EngineView, o: GitOutcome, b: EngineView, s: Step)
    requires
        resumed(a, o, b, s),
        a.phase is LocalRemote,
        stdout_of(o) is None,
    ensures
        b.phase == Phase::LocalPush(a.phase->LocalRemote_0),
        runs(
            s,
            seq![
                "push"@,
                remote_of(a.config, a.sides[a.phase->LocalRemote_0 as int]),
                "refs/heads/"@ + a.branch + ":refs/heads/"@ + a.branch,
            ],
        ),
        b.tally == a.tally,
{
    assert(push_local_cmd(remote_of(a.config, a.sides[a.phase->LocalRemote_0 as int]), a.branch)
        =~= seq![
        "push"@,
        remote_of(a.config, a.sides[a.phase->LocalRemote_0 as int]),
        "refs/heads/"@ + a.branch + ":refs/heads/"@ + a.branch,
    ]);
}

/// The local branch against one source remote, once both ancestry answers
/// are in: when the remote's branch is an ancestor of the local one (the
/// local branch is ahead) the local branch is pushed to it; otherwise, when
/// the local branch is an ancestor of the remote's (behind), it is pulled
/// with `--ff-only`; when neither contains the other the sync records a
/// divergence.
pub proof fn lemma_local_comparison(a: EngineView, o: GitOutcome, b: EngineView, s: Step)
    requires
        resumed(a, o, b, s),
        a.phase is LocalAnc2,
    ensures
        a.phase->LocalAnc2_1 == Some(true) ==> runs(
            s,
            seq![
                "push"@,
                remote_of(a.config, a.sides[a.phase->LocalAnc2_0 as int]),
                "refs/heads/"@ + a.branch + ":refs/heads/"@ + a.branch,
            ],
        ),
        a.phase->LocalAnc2_1 != Some(true) && ancestry_of(o) == Some(true) ==> runs(
            s,
            seq![
                "pull"@,
                "--ff-only"@,
                remote_of(a.config, a.sides[a.phase->LocalAnc2_0 as int]),
                "refs/heads/"@ + a.branch,
            ],
        ),
        a.phase->LocalAnc2_1 == Some(false) && ancestry_of(o) == Some(false) ==> b.tally.diverged,
{
    let remote = remote_of(a.config, a.sides[a.phase->LocalAnc2_0 as int]);
    assert(push_local_cmd(remote, a.branch) =~= seq![
        "push"@,
        remote,
        "refs/heads/"@ + a.branch + ":refs/heads/"@ + a.branch,
    ]);
    assert(pull_cmd(remote, a.branch) =~= seq!["pull"@, "--ff-only"@, remote, "refs/heads/"@ + a.branch]);
}

/// A source branch against the destination's, once both ancestry answers
/// are in: when the destination's branch is an ancestor of the source's it
/// is fast-forwarded by pushing the source's commit to it; when neither
/// contains the other the branch is recorded as a conflict and nothing is
/// counted as pushed.
pub proof fn lemma_branch_comparison(a: EngineView, o: GitOutcome, b: EngineView, s: Step)
    requires
        resumed(a, o, b, s),
        a.phase is BranchAnc2,
    ensures
        a.phase->BranchAnc2_2 == Some(true) ==> runs(
            s,
            seq![
                "push"@,
                remote_of(a.config, a.config.rounds[a.phase->BranchAnc2_0 as int].dst),
                a.cur_src + ":"@ + ("refs/heads/"@ + a.cur_name),
            ],
        ),
        a.phase->BranchAnc2_2 == Some(false) && ancestry_of(o) == Some(false) ==> (exists|i: int|
            0 <= i < b.tally.conflicts.len() && #[trigger] b.tally.conflicts[i].kind == RefKind::Branch
                && b.tally.conflicts[i].name == a.cur_name) && b.tally.pushed == a.tally.pushed,
{
    let r = a.phase->BranchAnc2_0;
    assert(push_ref_cmd(dst_remote(a.config, r as int), a.cur_src, true, a.cur_name) =~= seq![
        "push"@,
        remote_of(a.config, a.config.rounds[r as int].dst),
        a.cur_src + ":"@ + ("refs/heads/"@ + a.cur_name),
    ]);
    if a.phase->BranchAnc2_2 == Some(false) && ancestry_of(o) == Some(false) {
        let t = a.tally;
        if !has_conflict(t.conflicts, RefKind::Branch, a.cur_name) {
            let c = b.tally.conflicts;
            assert(c[c.len() - 1].kind == RefKind::Branch && c[c.len() - 1].name == a.cur_name);
        }
    }
}

/// A failed fetch ends the sync: when the fetch of either platform's
/// remote does not start or exits non-zero, the engine records one error
/// and asks for nothing more; when it succeeds, the GitHub fetch is followed
/// by the Gitee fetch.
pub proof fn lemma_failed_fetch_ends_sync(a: EngineView, o: GitOutcome, b: EngineView, s: Step)
    requires
        resumed(a, o, b, s),
        a.phase is Fetch,
    ensures
        (o is NotStarted || o->Exited_0.code != Some(0i32)) ==> s is Finish && b.phase == Phase::Finished
            && b.tally.errors.len() == a.tally.errors.len() + 1 && b.tally.pushed == a.tally.pushed,
        o is Exited && o->Exited_0.code == Some(0i32) && a.phase->Fetch_0 == 0 ==> runs(
            s,
            seq!["fetch"@, a.config.gitee, "--prune"@],
        ),
{
}

/// When the remote's branch is already at the local branch's commit,
/// nothing is pushed or pulled for it: the next command only reads (the
/// next side's branch, or the first round's listing), or the sync ends.
pub proof fn lemma_local_in_step_untouched(a: EngineView, o: GitOutcome, b: EngineView, s: Step)
    requires
        resumed(a, o, b, s),
        a.phase is LocalRemote,
        stdout_of(o) == Some(a.local_sha),
    ensures
        b.tally == a.tally,
        s matches Step::Run(x) ==> args_view(x@)[0] != "push"@ && args_view(x@)[0] != "pull"@,
{
    lemma_reveal_commands();
    reveal_strlit("rev-parse");
    reveal_strlit("for-each-ref");
    assert("rev-parse"@[0] != "push"@[0]);
    assert("for-each-ref"@[0] != "push"@[0]);
    assert("rev-parse"@[1] != "pull"@[1]);
    assert("for-each-ref"@[0] != "pull"@[0]);
}

/// The local branch is compared with the source of every round: the sides
/// cover each round's source, and hold nothing else, each once.
pub proof fn lemma_local_sides_cover(rounds: Seq<Round>)
    ensures
        forall|i: int| 0 <= i < rounds.len() ==> local_sides(rounds).contains(#[trigger] rounds[i].src),
        forall|k: int|
            0 <= k < local_sides(rounds).len() ==> exists|i: int|
                0 <= i < rounds.len() && #[trigger] local_sides(rounds)[k] == rounds[i].src,
        forall|k: int, l: int|
            0 <= k < l < local_sides(rounds).len() ==> local_sides(rounds)[k] != local_sides(rounds)[l],
    decreases rounds.len(),
{
    if rounds.len() > 0 {
        let r = rounds.drop_last();
        lemma_local_sides_cover(r);
        let s0 = local_sides(r);
        let s1 = local_sides(rounds);
        assert forall|i: int| 0 <= i < rounds.len() implies s1.contains(#[trigger] rounds[i].src) by {
            if i < rounds.len() - 1 {
                assert(r[i] == rounds[i]);
                assert(s0.contains(r[i].src));
                let k = choose|k: int| 0 <= k < s0.len() && s0[k] == r[i].src;
                assert(s1[k] == s0[k]);
            } else if !s0.contains(rounds.last().src) {
                assert(s1[s0.len() as int] == rounds[i].src);
            }
        }
        assert forall|k: int| 0 <= k < s1.len() implies exists|i: int|
            0 <= i < rounds.len() && #[trigger] s1[k] == rounds[i].src by {
            if k < s0.len() {
                assert(s1[k] == s0[k]);
                let i = choose|i: int| 0 <= i < r.len() && #[trigger] s0[k] == r[i].src;
                assert(r[i] == rounds[i]);
            } else {
                assert(s1[k] == rounds[rounds.len() - 1].src);
            }
        }
        assert forall|k: int, l: int| 0 <= k < l < s1.len() implies s1[k] != s1[l] by {
            if l == s0.len() {
                assert(s1[k] == s0[k]);
                assert(s1[l] == rounds.last().src);
                if s0[k] == rounds.last().src {
                    assert(s0.contains(rounds.last().src));
                }
            } else {
                assert(s1[k] == s0[k]);
                assert(s1[l] == s0[l]);
            }
        }
    }
}

/// Once the local branch is known, the engine compares it with the remote
/// of every round's source: the sides it walks through cover them all.
pub proof fn lemma_local_branch_meets_every_source(a: EngineView, o: GitOutcome, b: EngineView, s: Step)
    requires
        resumed(a, o, b, s),
        a.phase == Phase::LocalSha,
        stdout_of(o) is Some,
    ensures
        forall|i: int| 0 <= i < a.config.rounds.len() ==> b.sides.contains(#[trigger] a.config.rounds[i].src),
{
    lemma_local_sides_cover(a.config.rounds);
}

/// A sync's result obeys the reporting rule: it is synced, in conflict, in
/// error or missing; it has a sync time exactly when synced; a synced one
/// has no error and no conflict; one in error says why; one with conflicts
/// is in conflict; and no ref is named by two conflicts.
pub open spec fn well_reported(r: RepoSyncStateView) -> bool {
    &&& (r.status == SyncStatus::Synced || r.status == SyncStatus::Conflict || r.status
        == SyncStatus::Error || r.status == SyncStatus::Missing)
    &&& (r.last_synced is Some <==> r.status == SyncStatus::Synced)
    &&& r.status == SyncStatus::Synced ==> r.error is None && r.conflicts.len() == 0
    &&& r.status == SyncStatus::Error ==> r.error is Some
    &&& r.conflicts.len() > 0 ==> r.status == SyncStatus::Conflict
    &&& conflicts_unique(r.conflicts)
}

proof fn lemma_run_keeps_unique(es: Seq<EngineView>, os: Seq<GitOutcome>, ss: Seq<Step>, k: int)
    requires
        is_run(es, os, ss),
        0 <= k <= os.len(),
        conflicts_unique(es[0].tally.conflicts),
    ensures
        conflicts_unique(es[k].tally.conflicts),
    decreases k,
{
    if k > 0 {
        lemma_run_keeps_unique(es, os, ss, k - 1);
        assert(resumed(es[k - 1], os[k - 1], es[k], ss[k - 1]));
        lemma_resume_keeps_tally(es[k - 1], os[k - 1], es[k], ss[k - 1]);
    }
}

/// The reporting rule of a whole sync: a sync that `SyncEngine::start`
/// ends at once reports a well-formed result (see its contract), and every
/// run of the engine from a state whose conflicts name no ref twice (as
/// `start` leaves it, with none) ends, whatever git answered, in a result
/// that obeys the rule.
pub proof fn lemma_run_reports_well(es: Seq<EngineView>, os: Seq<GitOutcome>, ss: Seq<Step>, now: i64)
    requires
        is_run(es, os, ss),
        conflicts_unique(es[0].tally.conflicts),
    ensures
        well_reported(finished(es.last().tally, now)),
        finished(es.last().tally, now).status != SyncStatus::Missing,
{
    lemma_run_keeps_unique(es, os, ss, os.len() as int);
}

// ---------------------------------------------------------------------------
// Progress
// ---------------------------------------------------------------------------

/// The bounds that every state of the engine keeps: one or two rounds, and
/// every position within its list.
pub open spec fn engine_wf(e: EngineView) -> bool {
    &&& 1 <= e.config.rounds.len() <= 2
    &&& match e.phase {
        Phase::Fetch(k) => k < 2,
        Phase::LocalRemote(k) | Phase::LocalAnc1(k) | Phase::LocalAnc2(k, _) | Phase::LocalPush(k)
        | Phase::LocalPull(k) => k < e.sides.len(),
        Phase::SrcBranches(r) | Phase::DstBranches(r) | Phase::SrcTags(r) | Phase::DstTags(r) => r
            < e.config.rounds.len(),
        Phase::BranchAnc1(r, i) | Phase::BranchAnc2(r, i, _) | Phase::BranchPush(r, i, _) => r
            < e.config.rounds.len() && i < e.src_branches.len(),
        Phase::DeleteBranch(r, j) => r < e.config.rounds.len() && j < e.dst_branches.len(),
        Phase::TagPush(r, i) => r < e.config.rounds.len() && i < e.src_tags.len(),
        Phase::DeleteTag(r, j) => r < e.config.rounds.len() && j < e.dst_tags.len(),
        Phase::CurrentBranch | Phase::LocalSha | Phase::Finished => true,
    }
}

/// How far the engine still has to go: a stage, counted down through the
/// fetches, the local branch and each part of each round, and the work left
/// within that stage.
pub open spec fn progress(e: EngineView) -> (int, int) {
    let n = e.sides.len() as int;
    match e.phase {
        Phase::Fetch(k) => (200 - k, 0),
        Phase::CurrentBranch => (190, 0),
        Phase::LocalSha => (189, 0),
        Phase::LocalRemote(k) => (180, 10 * (n - k)),
        Phase::LocalAnc1(k) => (180, 10 * (n - k) - 1),
        Phase::LocalAnc2(k, _) => (180, 10 * (n - k) - 2),
        Phase::LocalPush(k) | Phase::LocalPull(k) => (180, 10 * (n - k) - 3),
        Phase::SrcBranches(r) => (100 - 10 * r, 0),
        Phase::DstBranches(r) => (99 - 10 * r, 0),
        Phase::BranchAnc1(r, i) => (98 - 10 * r, 3 * (e.src_branches.len() - i)),
        Phase::BranchAnc2(r, i, _) => (98 - 10 * r, 3 * (e.src_branches.len() - i) - 1),
        Phase::BranchPush(r, i, _) => (98 - 10 * r, 3 * (e.src_branches.len() - i) - 2),
        Phase::DeleteBranch(r, j) => (97 - 10 * r, e.dst_branches.len() - j),
        Phase::SrcTags(r) => (96 - 10 * r, 0),
        Phase::DstTags(r) => (95 - 10 * r, 0),
        Phase::TagPush(r, i) => (94 - 10 * r, e.src_tags.len() - i),
        Phase::DeleteTag(r, j) => (93 - 10 * r, e.dst_tags.len() - j),
        Phase::Finished => (0, 0),
    }
}

/// `x` comes strictly before `y` in the order of the measure: an earlier
/// stage, or the same stage with less work left.
pub open spec fn below(x: (int, int), y: (int, int)) -> bool {
    ||| 0 <= x.0 < y.0
    ||| x.0 == y.0 && 0 <= x.1 < y.1
}

proof fn lemma_next_branch_work_from(
    src: Seq<(Seq<char>, Seq<char>)>,
    dst: Seq<(Seq<char>, Seq<char>)>,
    i: int,
)
    requires
        0 <= i <= src.len(),
    ensures
        i <= next_branch_work(src, dst, i) <= src.len(),
    decreases src.len() - i,
{
    if i < src.len() && !branch_needs_work(src, dst, i) {
        lemma_next_branch_work_from(src, dst, i + 1);
    }
}

proof fn lemma_next_stale_from<V, W>(keep: Seq<(Seq<char>, V)>, other: Seq<(Seq<char>, W)>, j: int)
    requires
        0 <= j <= other.len(),
    ensures
        j <= next_stale(keep, other, j) <= other.len(),
    decreases other.len() - j,
{
    if j < other.len() && key_index(keep, other[j].0) >= 0 {
        lemma_next_stale_from(keep, other, j + 1);
    }
}

proof fn lemma_tag_walk_from(
    t: AccView,
    src: Seq<(Seq<char>, TagRefView)>,
    dst: Seq<(Seq<char>, TagRefView)>,
    i: int,
    side: Side,
)
    requires
        0 <= i <= src.len(),
    ensures
        i <= tag_walk(t, src, dst, i, side).1 <= src.len(),
    decreases src.len() - i,
{
    if i < src.len() {
        let j = key_index(dst, src[i].0);
        if j >= 0 {
            if dst[j].1.peeled == src[i].1.peeled {
                lemma_tag_walk_from(t, src, dst, i + 1, side);
            } else {
                lemma_tag_walk_from(
                    with_conflict(t, RefKind::Tag, src[i].0, side, src[i].1.ref_sha, dst[j].1.ref_sha),
                    src,
                    dst,
                    i + 1,
                    side,
                );
            }
        }
    }
}

/// Where a round that begins with a command leaves the measure.
proof fn lemma_at_round_progress(e: EngineView, r: int, s: Step)
    requires
        at_round(e, r, s),
        s is Run,
        0 <= r,
    ensures
        progress(e) == (100 - 10 * r, 0int),
{
}

proof fn lemma_at_local_progress(e: EngineView, k: int, s: Step)
    requires
        at_local(e, k, s),
        s is Run,
        0 <= k <= e.sides.len(),
    ensures
        progress(e) == (if k < e.sides.len() {
            (180int, 10 * (e.sides.len() - k))
        } else {
            (100int, 0int)
        }),
{
}

proof fn lemma_at_delete_tags_progress(e: EngineView, r: int, j: int, s: Step)
    requires
        at_delete_tags(e, r, j, s),
        s is Run,
        0 <= r <= 1,
        0 <= j <= e.dst_tags.len(),
    ensures
        below(progress(e), (93 - 10 * r, e.dst_tags.len() - j + 1)),
{
    lemma_next_stale_from(e.src_tags, e.dst_tags, j);
}

proof fn lemma_at_tags_progress(t: AccView, e: EngineView, r: int, i: int, s: Step)
    requires
        at_tags(t, e, r, i, s),
        s is Run,
        0 <= r < e.config.rounds.len(),
        0 <= r <= 1,
        0 <= i <= e.src_tags.len(),
    ensures
        below(progress(e), (94 - 10 * r, e.src_tags.len() - i + 1)),
{
    lemma_tag_walk_from(t, e.src_tags, e.dst_tags, i, e.config.rounds[r].src);
    let k = tag_walk(t, e.src_tags, e.dst_tags, i, e.config.rounds[r].src).1;
    if k >= e.src_tags.len() {
        lemma_at_delete_tags_progress(e, r, 0, s);
    }
}

proof fn lemma_at_delete_branches_progress(e: EngineView, r: int, j: int, s: Step)
    requires
        at_delete_branches(e, r, j, s),
        s is Run,
        0 <= r <= 1,
        0 <= j <= e.dst_branches.len(),
    ensures
        below(progress(e), (97 - 10 * r, e.dst_branches.len() - j + 1)),
{
    lemma_next_stale_from(e.src_branches, e.dst_branches, j);
}

proof fn lemma_at_branches_progress(e: EngineView, r: int, i: int, s: Step)
    requires
        at_branches(e, r, i, s),
        s is Run,
        0 <= r <= 1,
        0 <= i <= e.src_branches.len(),
    ensures
        below(progress(e), (98 - 10 * r, 3 * (e.src_branches.len() - i) + 1)),
{
    lemma_next_branch_work_from(e.src_branches, e.dst_branches, i);
    let k = next_branch_work(e.src_branches, e.dst_branches, i);
    if k >= e.src_branches.len() {
        lemma_at_delete_branches_progress(e, r, 0, s);
    }
}

/// Each command the engine asks for brings the sync closer to its end: the
/// measure `progress` goes down at every step, so a sync asks for finitely
/// many commands and then finishes.
pub proof fn lemma_resume_progresses(a: EngineView, o: GitOutcome, b: EngineView, s: Step)
    requires
        engine_wf(a),
        engine_wf(b),
        resumed(a, o, b, s),
        s is Run,
    ensures
        below(progress(b), progress(a)),
{
    let c = a.config;
    match a.phase {
        Phase::CurrentBranch => {
            match stdout_of(o) {
                Some(name) => {
                    if name.len() == 0 {
                        lemma_at_round_progress(b, 0, s);
                                } else {
                        assert(b.phase == Phase::LocalSha);
                        assert(progress(b) == (189int, 0int));
                        assert(progress(a) == (190int, 0int));
                                }
                },
                None => {
                    lemma_at_round_progress(b, 0, s);
                        },
            }
        },
        Phase::LocalSha => {
            if stdout_of(o) is Some {
                lemma_at_local_progress(b, 0, s);
            } else {
                lemma_at_round_progress(b, 0, s);
            }
        },
        Phase::LocalRemote(k) => {
            if !(b.phase is LocalPush) && !(b.phase is LocalAnc1) {
                lemma_at_local_progress(b, k + 1, s);
            }
        },
        Phase::LocalAnc2(k, first) => {
            let ff = fast_forward_of(first, ancestry_of(o));
            if ff != FastForward::Ahead && ff != FastForward::Behind {
                lemma_at_local_progress(b, k + 1, s);
            }
        },
        Phase::LocalPush(k) | Phase::LocalPull(k) => {
            lemma_at_local_progress(b, k + 1, s);
        },
        Phase::SrcBranches(r) | Phase::SrcTags(r) => {
            if !(b.phase is DstBranches) && !(b.phase is DstTags) {
                lemma_at_round_progress(b, r + 1, s);
            }
        },
        Phase::DstBranches(r) => {
            if fetch_failure(dst_remote(c, r as int), o) is Some {
                lemma_at_round_progress(b, r + 1, s);
            } else {
                lemma_at_branches_progress(b, r as int, 0, s);
            }
        },
        Phase::BranchAnc2(r, i, first) => {
            if fast_forward_of(first, ancestry_of(o)) != FastForward::Ahead {
                lemma_at_branches_progress(b, r as int, i + 1, s);
            }
        },
        Phase::BranchPush(r, i, _) => {
            lemma_at_branches_progress(b, r as int, i + 1, s);
        },
        Phase::DeleteBranch(r, j) => {
            lemma_at_delete_branches_progress(b, r as int, j + 1, s);
        },
        Phase::DstTags(r) => {
            if fetch_failure(dst_remote(c, r as int), o) is Some {
                lemma_at_round_progress(b, r + 1, s);
            } else {
                lemma_at_tags_progress(a.tally, b, r as int, 0, s);
            }
        },
        Phase::TagPush(r, i) => {
            lemma_at_tags_progress(
                after_push(
                    a.tally,
                    dst_remote(c, r as int),
                    a.cur_src,
                    RefKind::Tag,
                    a.cur_name,
                    c.rounds[r as int].src,
                    None,
                    o,
                ),
                b,
                r as int,
                i + 1,
                s,
            );
        },
        Phase::DeleteTag(r, j) => {
            lemma_at_delete_tags_progress(b, r as int, j + 1, s);
        },
        _ => {},
    }
}

// ---------------------------------------------------------------------------
// The engine
// ---------------------------------------------------------------------------

pub struct SyncEngine {
    github: String,
    gitee: String,
    rounds: Vec<Round>,
    mirror_delete: bool,
    acc: Acc,
    phase: Phase,
    /// The checked-out branch and its sha.
    branch: String,
    local_sha: String,
    /// The platforms whose remote the local branch is compared with.
    sides: Vec<Side>,
    /// The ref under comparison: its name and both shas.
    cur_name: String,
    cur_src: String,
    cur_dst: String,
    src_branches: Vec<(String, String)>,
    dst_branches: Vec<(String, String)>,
    src_tags: Vec<(String, TagRef)>,
    dst_tags: Vec<(String, TagRef)>,
}

/// The engine's state as a value.
pub struct EngineView {
    /// The remotes, rounds and mirror mode.
    pub config: EngineConfig,
    /// What the sync has found and done so far.
    pub tally: AccView,
    /// The command whose outcome the engine waits for.
    pub phase: Phase,
    /// The checked-out branch and its sha.
    pub branch: Seq<char>,
    pub local_sha: Seq<char>,
    /// The platforms whose remote the local branch is compared with.
    pub sides: Seq<Side>,
    /// The ref under comparison: its name, its source sha and its
    /// destination sha.
    pub cur_name: Seq<char>,
    pub cur_src: Seq<char>,
    pub cur_dst: Seq<char>,
    /// The branches and tags of the source and destination of the current
    /// round.
    pub src_branches: Seq<(Seq<char>, Seq<char>)>,
    pub dst_branches: Seq<(Seq<char>, Seq<char>)>,
    pub src_tags: Seq<(Seq<char>, TagRefView)>,
    pub dst_tags: Seq<(Seq<char>, TagRefView)>,
}

impl View for SyncEngine {
    type V = EngineView;

    closed spec fn view(&self) -> EngineView {
        EngineView {
            config: EngineConfig {
                github: self.github@,
                gitee: self.gitee@,
                rounds: self.rounds@,
                mirror_delete: self.mirror_delete,
            },
            tally: self.acc@,
            phase: self.phase,
            branch: self.branch@,
            local_sha: self.local_sha@,
            sides: self.sides@,
            cur_name: self.cur_name@,
            cur_src: self.cur_src@,
            cur_dst: self.cur_dst@,
            src_branches: pairs_view(self.src_branches@),
            dst_branches: pairs_view(self.dst_branches@),
            src_tags: tags_view(self.src_tags@),
            dst_tags: tags_view(self.dst_tags@),
        }
    }
}

impl SyncEngine {
    /// The engine's fixed configuration.
    pub open spec fn config(&self) -> EngineConfig {
        self@.config
    }

    /// What the sync has found and done so far.
    pub open spec fn tally(&self) -> AccView {
        self@.tally
    }

    /// The command whose outcome the engine waits for.
    pub open spec fn phase(&self) -> Phase {
        self@.phase
    }

    /// The engine's internal consistency.
    pub closed spec fn wf(&self) -> bool {
        &&& 1 <= self.rounds@.len() <= 2
        &&& sides_ok(self.sides@, self.rounds@)
        &&& (self.phase is DeleteBranch || self.phase is DeleteTag) ==> self.mirror_delete
        &&& match self.phase {
            Phase::Fetch(k) => k < 2,
            Phase::LocalRemote(k) | Phase::LocalAnc1(k) | Phase::LocalAnc2(k, _)
            | Phase::LocalPush(k) | Phase::LocalPull(k) => k < self.sides@.len(),
            Phase::SrcBranches(r) | Phase::DstBranches(r) | Phase::SrcTags(r)
            | Phase::DstTags(r) => r < self.rounds@.len(),
            Phase::BranchAnc1(r, i) | Phase::BranchAnc2(r, i, _) | Phase::BranchPush(r, i, _) => r
                < self.rounds@.len() && i < self.src_branches@.len(),
            Phase::DeleteBranch(r, j) => r < self.rounds@.len() && j < self.dst_branches@.len(),
            Phase::TagPush(r, i) => r < self.rounds@.len() && i < self.src_tags@.len(),
            Phase::DeleteTag(r, j) => r < self.rounds@.len() && j < self.dst_tags@.len(),
            _ => true,
        }
    }

    fn remote(&self, side: Side) -> (r: &String)
        ensures
            r@ == remote_of(self.config(), side),
    {
        match side {
            Side::Github => &self.github,
            Side::Gitee => &self.gitee,
        }
    }
}

/// Every side is the source of some round.
pub open spec fn sides_ok(sides: Seq<Side>, rounds: Seq<Round>) -> bool {
    forall|k: int| 0 <= k < sides.len() ==> exists|i: int|
        0 <= i < rounds.len() && #[trigger] sides[k] == rounds[i].src
}

/// The message for a repository that lacks the remote of a platform.
pub open spec fn missing_remote_message(github: bool, gitee: bool) -> Seq<char> {
    "该仓库没有 "@ + (if !github && !gitee {
        "github、gitee"@
    } else if !github {
        "github"@
    } else {
        "gitee"@
    }) + " remote，无法按当前方向同步"@
}

/// A string holding the text `s`.
fn text(s: &str) -> (r: String)
    ensures
        r@ == s@,
{
    let mut r = String::new();
    push_str(&mut r, s);
    assert(Seq::<char>::empty() + s@ =~= s@);
    r
}

/// The text `a` followed by `b`.
fn text2(a: &str, b: &str) -> (r: String)
    ensures
        r@ == a@ + b@,
{
    let mut r = String::new();
    push_str(&mut r, a);
    push_str(&mut r, b);
    assert(Seq::<char>::empty() + a@ =~= a@);
    r
}

/// The text `a`, `b`, `c` in turn.
fn text3(a: &str, b: &str, c: &str) -> (r: String)
    ensures
        r@ == a@ + b@ + c@,
{
    let mut r = String::new();
    push_str(&mut r, a);
    push_str(&mut r, b);
    push_str(&mut r, c);
    assert(Seq::<char>::empty() + a@ =~= a@);
    r
}

/// The text `a`, `b`, `c`, `d` in turn.
fn text4(a: &str, b: &str, c: &str, d: &str) -> (r: String)
    ensures
        r@ == a@ + b@ + c@ + d@,
{
    let mut r = String::new();
    push_str(&mut r, a);
    push_str(&mut r, b);
    push_str(&mut r, c);
    push_str(&mut r, d);
    assert(Seq::<char>::empty() + a@ =~= a@);
    r
}

proof fn lemma_has_prefix(p: Seq<char>, n: Seq<char>)
    ensures
        has_prefix(p + n, p),
{
    assert((p + n).take(p.len() as int) =~= p);
}

/// The arguments `push <remote> <sha>:<target-prefix><name>`.
fn push_ref_args(remote: &String, sha: &str, branch: bool, name: &str) -> (a: Vec<String>)
    ensures
        args_view(a@) == push_ref_cmd(remote@, sha@, branch, name@),
        args_view(a@).len() == 3,
        args_view(a@)[0] == "push"@,
        args_view(a@)[1] == remote@,
        ref_update(
            args_view(a@)[2],
            sha@,
            (if branch {
                "refs/heads/"@
            } else {
                "refs/tags/"@
            }) + name@,
        ),
{
    let prefix = if branch {
        "refs/heads/"
    } else {
        "refs/tags/"
    };
    let target = text2(prefix, name);
    let mut spec_arg = text2(sha, ":");
    push_str(&mut spec_arg, target.as_str());
    let mut a: Vec<String> = Vec::new();
    a.push(text("push"));
    a.push(remote.clone());
    a.push(spec_arg);
    proof {
        lemma_has_prefix(prefix@, name@);
        reveal_strlit("push");
        assert(args_view(a@) =~= push_ref_cmd(remote@, sha@, branch, name@));
    }
    a
}

/// The arguments `push <remote> refs/heads/<b>:refs/heads/<b>`.
fn push_local_args(remote: &String, b: &str) -> (a: Vec<String>)
    ensures
        args_view(a@) == push_local_cmd(remote@, b@),
        args_view(a@).len() == 3,
        args_view(a@)[0] == "push"@,
        args_view(a@)[1] == remote@,
        branch_update(args_view(a@)[2], b@),
{
    let mut x = text4("refs/heads/", b, ":refs/heads/", b);
    let mut a: Vec<String> = Vec::new();
    a.push(text("push"));
    a.push(remote.clone());
    a.push(x);
    proof {
        reveal_strlit("push");
        assert(args_view(a@) =~= push_local_cmd(remote@, b@));
    }
    a
}

/// The arguments `push <remote> --delete <prefix><name>`.
fn push_delete_args(remote: &String, branch: bool, name: &str) -> (a: Vec<String>)
    ensures
        args_view(a@) == delete_cmd(remote@, branch, name@),
        args_view(a@).len() == 4,
        args_view(a@)[0] == "push"@,
        args_view(a@)[1] == remote@,
        args_view(a@)[2] == "--delete"@,
        is_branch_or_tag(args_view(a@)[3]),
{
    let prefix = if branch {
        "refs/heads/"
    } else {
        "refs/tags/"
    };
    let target = text2(prefix, name);
    let mut a: Vec<String> = Vec::new();
    a.push(text("push"));
    a.push(remote.clone());
    a.push(text("--delete"));
    a.push(target);
    proof {
        lemma_has_prefix(prefix@, name@);
        reveal_strlit("push");
        reveal_strlit("--delete");
        assert(args_view(a@) =~= delete_cmd(remote@, branch, name@));
    }
    a
}

/// The arguments `<a> <b>`.
fn args2(x: String, y: String) -> (a: Vec<String>)
    ensures
        args_view(a@) == seq![x@, y@],
{
    let mut a: Vec<String> = Vec::new();
    a.push(x);
    a.push(y);
    assert(args_view(a@) =~= seq![x@, y@]);
    a
}

/// The arguments `<a> <b> <c>`.
fn args3(x: String, y: String, z: String) -> (a: Vec<String>)
    ensures
        args_view(a@) == seq![x@, y@, z@],
{
    let mut a: Vec<String> = Vec::new();
    a.push(x);
    a.push(y);
    a.push(z);
    assert(args_view(a@) =~= seq![x@, y@, z@]);
    a
}

/// The arguments `<a> <b> <c> <d>`.
fn args4(x: String, y: String, z: String, w: String) -> (a: Vec<String>)
    ensures
        args_view(a@) == seq![x@, y@, z@, w@],
{
    let mut a: Vec<String> = Vec::new();
    a.push(x);
    a.push(y);
    a.push(z);
    a.push(w);
    assert(args_view(a@) =~= seq![x@, y@, z@, w@]);
    a
}

impl SyncEngine {
    /// Starts syncing a repository. A root that is not a directory ends as
    /// missing; a repository without both a github and a gitee remote ends in
    /// error; otherwise the engine asks to fetch the github remote.
    pub fn start(entry: &RepoEntry, root_is_dir: bool) -> (r: (SyncEngine, Step))
        ensures
            r.0.wf(),
            step_allowed(r.0.config(), r.1),
            r.1 matches Step::Done(s) ==> well_reported(s@),
            !root_is_dir ==> (r.1 matches Step::Done(s) && s@.status == SyncStatus::Missing
                && s@.error is None && s@.conflicts.len() == 0 && s@.pushed_refs == 0
                && s@.deleted_refs == 0 && s@.last_synced is None),
            root_is_dir ==> match (
                first_remote_on(entry@.remotes, Side::Github.host()),
                first_remote_on(entry@.remotes, Side::Gitee.host()),
            ) {
                (Some(gh), Some(ge)) => {
                    &&& r.0.config() == config_of(entry@, gh, ge)
                    &&& r.0.phase() == Phase::Fetch(0)
                    &&& runs(r.1, fetch_cmd(gh))
                    &&& r.0.tally().errors.len() == 0 && r.0.tally().conflicts.len() == 0
                    &&& r.0.tally().pushed == 0 && r.0.tally().deleted == 0
                    &&& !r.0.tally().diverged
                },
                (gh, ge) => (r.1 matches Step::Done(s) && s@.status == SyncStatus::Error
                    && s@.error == Some(missing_remote_message(gh is Some, ge is Some))
                    && s@.conflicts.len() == 0 && s@.pushed_refs == 0 && s@.deleted_refs == 0
                    && s@.last_synced is None),
            },
    {
        let github = remote_for(&entry.remotes, Side::Github);
        let gitee = remote_for(&entry.remotes, Side::Gitee);
        let rounds = rounds_for(entry.direction);
        let mut engine = SyncEngine {
            github: String::new(),
            gitee: String::new(),
            rounds,
            mirror_delete: entry.mirror_delete,
            acc: Acc::new(),
            phase: Phase::Finished,
            branch: String::new(),
            local_sha: String::new(),
            sides: Vec::new(),
            cur_name: String::new(),
            cur_src: String::new(),
            cur_dst: String::new(),
            src_branches: Vec::new(),
            dst_branches: Vec::new(),
            src_tags: Vec::new(),
            dst_tags: Vec::new(),
        };
        if !root_is_dir {
            let s = RepoSyncState::with_status(SyncStatus::Missing, None);
            return (engine, Step::Done(s));
        }
        match (github, gitee) {
            (Some(gh), Some(ge)) => {
                engine.github = gh;
                engine.gitee = ge;
                engine.phase = Phase::Fetch(0);
                let a = args3(text("fetch"), engine.github.clone(), text("--prune"));
                proof {
                    reveal_strlit("fetch");
                }
                (engine, Step::Run(a))
            },
            (gh, ge) => {
                let has_gh = gh.is_some();
                let has_ge = ge.is_some();
                let what = if !has_gh && !has_ge {
                    "github、gitee"
                } else if !has_gh {
                    "github"
                } else {
                    "gitee"
                };
                let mut m = text2("该仓库没有 ", what);
                push_str(&mut m, " remote，无法按当前方向同步");
                let s = RepoSyncState::with_status(SyncStatus::Error, Some(m));
                (engine, Step::Done(s))
            },
        }
    }
}

/// `b` keeps everything `a` had found: counts only rise, conflicts and
/// errors are only appended to, and a divergence stays.
pub open spec fn grows(a: AccView, b: AccView) -> bool {
    &&& a.pushed <= b.pushed
    &&& a.deleted <= b.deleted
    &&& a.conflicts.len() <= b.conflicts.len()
    &&& b.conflicts.take(a.conflicts.len() as int) == a.conflicts
    &&& a.errors.len() <= b.errors.len()
    &&& b.errors.take(a.errors.len() as int) == a.errors
    &&& a.diverged ==> b.diverged
}

proof fn lemma_grows_refl(a: AccView)
    ensures
        grows(a, a),
{
    assert(a.conflicts.take(a.conflicts.len() as int) =~= a.conflicts);
    assert(a.errors.take(a.errors.len() as int) =~= a.errors);
}

proof fn lemma_grows_trans(a: AccView, b: AccView, c: AccView)
    requires
        grows(a, b),
        grows(b, c),
    ensures
        grows(a, c),
{
    assert(c.conflicts.take(a.conflicts.len() as int) =~= c.conflicts.take(
        b.conflicts.len() as int,
    ).take(a.conflicts.len() as int));
    assert(c.errors.take(a.errors.len() as int) =~= c.errors.take(b.errors.len() as int).take(
        a.errors.len() as int,
    ));
}

proof fn lemma_grows_error(a: AccView, m: Seq<char>)
    ensures
        grows(a, with_error(a, m)),
{
    lemma_grows_refl(a);
    assert(a.errors.push(m).take(a.errors.len() as int) =~= a.errors);
}

proof fn lemma_grows_conflict(
    a: AccView,
    kind: RefKind,
    name: Seq<char>,
    src_side: Side,
    src_sha: Seq<char>,
    dst_sha: Seq<char>,
)
    ensures
        grows(a, with_conflict(a, kind, name, src_side, src_sha, dst_sha)),
{
    lemma_grows_refl(a);
    let b = with_conflict(a, kind, name, src_side, src_sha, dst_sha);
    if b.conflicts.len() > a.conflicts.len() {
        assert(b.conflicts.take(a.conflicts.len() as int) =~= a.conflicts);
    }
}

proof fn lemma_grows_local_diverged(a: AccView, remote: Seq<char>, branch: Seq<char>)
    ensures
        grows(a, crate::sync::local_diverged(a, remote, branch)),
{
    lemma_grows_refl(a);
    let m = crate::sync::local_diverged_message(remote, branch);
    assert(a.errors.push(m).take(a.errors.len() as int) =~= a.errors);
}

proof fn lemma_grows_count(a: AccView, stderr: Seq<char>)
    ensures
        grows(a, crate::sync::count_push(a, stderr)),
{
    lemma_grows_refl(a);
}

proof fn lemma_grows_after_local_push(a: AccView, remote: Seq<char>, branch: Seq<char>, o: GitOutcome)
    ensures
        grows(a, after_local_push(a, remote, branch, o)),
{
    match o {
        GitOutcome::NotStarted(e) => lemma_grows_error(a, crate::sync::spawn_message(e@)),
        GitOutcome::Exited(x) => {
            lemma_grows_count(a, x.stderr@);
            lemma_grows_local_diverged(a, remote, branch);
            lemma_grows_error(a, crate::sync::git_error_message(remote, x.stderr@));
        },
    }
}

proof fn lemma_grows_after_pull(a: AccView, remote: Seq<char>, branch: Seq<char>, o: GitOutcome)
    ensures
        grows(a, after_pull(a, remote, branch, o)),
{
    lemma_grows_refl(a);
    match o {
        GitOutcome::NotStarted(e) => lemma_grows_error(a, crate::sync::spawn_message(e@)),
        GitOutcome::Exited(x) => {
            lemma_grows_local_diverged(a, remote, branch);
            lemma_grows_error(a, crate::sync::git_error_message(remote, x.stderr@));
        },
    }
}

proof fn lemma_grows_after_push(
    a: AccView,
    remote: Seq<char>,
    sha: Seq<char>,
    kind: RefKind,
    name: Seq<char>,
    src_side: Side,
    dst_sha: Option<Seq<char>>,
    o: GitOutcome,
)
    ensures
        grows(a, after_push(a, remote, sha, kind, name, src_side, dst_sha, o)),
{
    match o {
        GitOutcome::NotStarted(e) => lemma_grows_error(a, crate::sync::spawn_message(e@)),
        GitOutcome::Exited(x) => {
            lemma_grows_count(a, x.stderr@);
            lemma_grows_error(a, crate::sync::git_error_message(remote, x.stderr@));
            lemma_grows_error(a, crate::sync::rejected_message(remote, name));
            match dst_sha {
                Some(d) => lemma_grows_conflict(a, kind, name, src_side, sha, d),
                None => {},
            }
        },
    }
}

proof fn lemma_grows_after_delete(a: AccView, remote: Seq<char>, o: GitOutcome)
    ensures
        grows(a, after_delete(a, remote, o)),
{
    lemma_grows_refl(a);
    match o {
        GitOutcome::NotStarted(e) => lemma_grows_error(a, crate::sync::spawn_message(e@)),
        GitOutcome::Exited(x) => {
            lemma_grows_error(a, crate::sync::git_error_message(remote, x.stderr@));
        },
    }
}

impl SyncEngine {
    proof fn lemma_dst_remote(&self, r: int)
        requires
            0 <= r < self.rounds@.len(),
        ensures
            is_dst_remote(self.config(), remote_of(self.config(), self.rounds@[r].dst)),
            is_src_remote(self.config(), remote_of(self.config(), self.rounds@[r].src)),
    {
        assert(self.config().rounds[r] == self.rounds@[r]);
    }

    /// Begins round `r`, or finishes after the last one.
    fn start_round(&mut self, r: usize) -> (s: Step)
        requires
            old(self).wf(),
            r <= old(self).rounds@.len(),
        ensures
            final(self).wf(),
            same_data(old(self)@, final(self)@),
            final(self).tally() == old(self).tally(),
            at_round(final(self)@, r as int, s),
            step_allowed(final(self).config(), s),
    {
        if r < self.rounds.len() {
            let src = self.rounds[r].src;
            let remote = self.remote(src).clone();
            let pattern = text3("refs/remotes/", remote.as_str(), "/");
            let a = args3(
                text("for-each-ref"),
                pattern,
                text("--format=%(refname:short) %(objectname)"),
            );
            self.phase = Phase::SrcBranches(r);
            proof {
                reveal_strlit("for-each-ref");
                assert(args_view(a@) =~= list_branches_cmd(src_remote(self.config(), r as int)));
            }
            Step::Run(a)
        } else {
            self.phase = Phase::Finished;
            Step::Finish
        }
    }

    /// Compares the local branch with the remote of side `k`, or moves on to
    /// the rounds when all sides are done.
    fn seek_local(&mut self, k: usize) -> (s: Step)
        requires
            old(self).wf(),
            k <= old(self).sides@.len(),
        ensures
            final(self).wf(),
            same_data(old(self)@, final(self)@),
            final(self).tally() == old(self).tally(),
            at_local(final(self)@, k as int, s),
            step_allowed(final(self).config(), s),
    {
        if k < self.sides.len() {
            let side = self.sides[k];
            let remote = self.remote(side).clone();
            let target = text4("refs/remotes/", remote.as_str(), "/", self.branch.as_str());
            let a = args2(text("rev-parse"), target);
            self.phase = Phase::LocalRemote(k);
            proof {
                reveal_strlit("rev-parse");
                assert(args_view(a@) =~= remote_sha_cmd(remote_of(self.config(), side), self.branch@));
            }
            Step::Run(a)
        } else {
            self.start_round(0)
        }
    }
}

impl SyncEngine {
    /// Looks for the next source branch from index `from` on that needs work in
    /// round `r`; then deletions (mirror mode) and tags follow.
    fn seek_branch(&mut self, r: usize, from: usize) -> (s: Step)
        requires
            old(self).wf(),
            r < old(self).rounds@.len(),
            from <= old(self).src_branches@.len(),
        ensures
            final(self).wf(),
            same_data(old(self)@, final(self)@),
            final(self).tally() == old(self).tally(),
            at_branches(final(self)@, r as int, from as int, s),
            step_allowed(final(self).config(), s),
    {
        let k = self.next_branch_index(from);
        if k < self.src_branches.len() {
            let name = self.src_branches[k].0.clone();
            let sha = self.src_branches[k].1.clone();
            let ghost src = self@.src_branches;
            let ghost dstl = self@.dst_branches;
            let ghost nv = name@;
            let ghost sv = sha@;
            assert(src[k as int] == (nv, sv));
            let dst_side = self.rounds[r].dst;
            match crate::sync::find_pair(&self.dst_branches, &name) {
                None => {
                    let dst = self.remote(dst_side).clone();
                    let a = push_ref_args(&dst, sha.as_str(), true, name.as_str());
                    self.cur_name = name;
                    self.cur_src = sha;
                    self.phase = Phase::BranchPush(r, k, false);
                    proof {
                        self.lemma_dst_remote(r as int);
                        reveal_strlit("push");
                        let args = args_view(a@);
                        assert(ref_update(args[2], sv, "refs/heads/"@ + nv));
                    }
                    Step::Run(a)
                },
                Some(j) => {
                    let d = self.dst_branches[j].1.clone();
                    assert(dstl[j as int].1 == d@);
                    let a = args4(text("merge-base"), text("--is-ancestor"), d.clone(), sha.clone());
                    self.cur_name = name;
                    self.cur_src = sha;
                    self.cur_dst = d;
                    self.phase = Phase::BranchAnc1(r, k);
                    proof {
                        reveal_strlit("merge-base");
                    }
                    Step::Run(a)
                },
            }
        } else {
            self.seek_delete_branch(r, 0)
        }
    }

    /// The first source branch from `from` on that needs work.
    fn next_branch_index(&self, from: usize) -> (k: usize)
        requires
            from <= self@.src_branches.len(),
        ensures
            k == next_branch_work(self@.src_branches, self@.dst_branches, from as int),
            k <= self@.src_branches.len(),
    {
        let ghost src = self@.src_branches;
        let ghost dstl = self@.dst_branches;
        let mut i = from;
        while i < self.src_branches.len()
            invariant
                from <= i <= self.src_branches@.len(),
                src == self@.src_branches,
                dstl == self@.dst_branches,
                src.len() == self.src_branches@.len(),
                next_branch_work(src, dstl, from as int) == next_branch_work(src, dstl, i as int),
            decreases self.src_branches@.len() - i,
        {
            let ghost nv = self.src_branches@[i as int].0@;
            let ghost sv = self.src_branches@[i as int].1@;
            assert(src[i as int] == (nv, sv));
            match crate::sync::find_pair(&self.dst_branches, &self.src_branches[i].0) {
                None => {
                    assert(branch_needs_work(src, dstl, i as int));
                    return i;
                },
                Some(j) => {
                    assert(dstl[j as int].1 == self.dst_branches@[j as int].1@);
                    if self.dst_branches[j].1 == self.src_branches[i].1 {
                        assert(!branch_needs_work(src, dstl, i as int));
                    } else {
                        assert(branch_needs_work(src, dstl, i as int));
                        return i;
                    }
                },
            }
            i = i + 1;
        }
        i
    }

    /// In mirror mode, looks for the next destination branch from index `from`
    /// on that the source no longer has; then the tags of round `r` follow.
    fn seek_delete_branch(&mut self, r: usize, from: usize) -> (s: Step)
        requires
            old(self).wf(),
            r < old(self).rounds@.len(),
            from <= old(self).dst_branches@.len(),
        ensures
            final(self).wf(),
            same_data(old(self)@, final(self)@),
            final(self).tally() == old(self).tally(),
            at_delete_branches(final(self)@, r as int, from as int, s),
            step_allowed(final(self).config(), s),
    {
        let k = if self.mirror_delete {
            self.next_stale_branch(from)
        } else {
            self.dst_branches.len()
        };
        if self.mirror_delete && k < self.dst_branches.len() {
            let name = self.dst_branches[k].0.clone();
            let dst_side = self.rounds[r].dst;
            let dst = self.remote(dst_side).clone();
            let a = push_delete_args(&dst, true, name.as_str());
            self.phase = Phase::DeleteBranch(r, k);
            proof {
                self.lemma_dst_remote(r as int);
                reveal_strlit("push");
                reveal_strlit("--delete");
            }
            Step::Run(a)
        } else {
            let src_side = self.rounds[r].src;
            let src = self.remote(src_side).clone();
            let a = args3(text("ls-remote"), text("--tags"), src);
            self.phase = Phase::SrcTags(r);
            proof {
                self.lemma_dst_remote(r as int);
                reveal_strlit("ls-remote");
                reveal_strlit("--tags");
            }
            Step::Run(a)
        }
    }

    /// The first destination branch from `from` on that the source lacks.
    fn next_stale_branch(&self, from: usize) -> (k: usize)
        requires
            from <= self@.dst_branches.len(),
        ensures
            k == next_stale(self@.src_branches, self@.dst_branches, from as int),
            k <= self@.dst_branches.len(),
    {
        let ghost keep = self@.src_branches;
        let ghost other = self@.dst_branches;
        let mut j = from;
        while j < self.dst_branches.len()
            invariant
                from <= j <= self.dst_branches@.len(),
                keep == self@.src_branches,
                other == self@.dst_branches,
                other.len() == self.dst_branches@.len(),
                next_stale(keep, other, from as int) == next_stale(keep, other, j as int),
            decreases self.dst_branches@.len() - j,
        {
            assert(other[j as int].0 == self.dst_branches@[j as int].0@);
            if crate::sync::find_pair(&self.src_branches, &self.dst_branches[j].0).is_none() {
                return j;
            }
            j = j + 1;
        }
        j
    }

    /// Looks for the next source tag from index `from` on that needs work in
    /// round `r`: a missing tag is pushed, a tag pointing elsewhere is a
    /// conflict; then deletions (mirror mode) follow.
    fn seek_tag(&mut self, r: usize, from: usize) -> (s: Step)
        requires
            old(self).wf(),
            r < old(self).rounds@.len(),
            from <= old(self).src_tags@.len(),
        ensures
            final(self).wf(),
            same_data(old(self)@, final(self)@),
            grows(old(self).tally(), final(self).tally()),
            at_tags(old(self).tally(), final(self)@, r as int, from as int, s),
            step_allowed(final(self).config(), s),
    {
        let ghost i0 = from as int;
        let ghost side = self@.config.rounds[r as int].src;
        let mut i = from;
        let mut stop = false;
        proof {
            lemma_grows_refl(self.tally());
        }
        while !stop && i < self.src_tags.len()
            invariant
                self.wf(),
                r < self.rounds@.len(),
                i <= self.src_tags@.len(),
                side == self@.config.rounds[r as int].src,
                same_data(old(self)@, self@),
                grows(old(self).tally(), self.tally()),
                stop ==> i < self@.src_tags.len() && key_index(self@.dst_tags, self@.src_tags[i as int].0) < 0,
                tag_walk(old(self).tally(), self@.src_tags, self@.dst_tags, i0, side) == tag_walk(
                    self.tally(),
                    self@.src_tags,
                    self@.dst_tags,
                    i as int,
                    side,
                ),
            decreases self.src_tags@.len() - i + (if stop { 0int } else { 1int }),
        {
            let key = crate::text::chars_of(self.src_tags[i].0.as_str());
            assert(self@.src_tags[i as int].0 == key@);
            match crate::sync::find_tag(&self.dst_tags, &key) {
                None => {
                    stop = true;
                },
                Some(j) => {
                    let src_peeled = self.src_tags[i].1.peeled.clone();
                    if self.dst_tags[j].1.peeled == src_peeled {
                    } else {
                        let name = self.src_tags[i].0.clone();
                        let src_ref = self.src_tags[i].1.ref_sha.clone();
                        let dst_ref = self.dst_tags[j].1.ref_sha.clone();
                        let round = self.rounds[r];
                        let ghost before = self.tally();
                        self.acc.add_conflict(
                            RefKind::Tag,
                            name.as_str(),
                            round.src,
                            src_ref.as_str(),
                            dst_ref.as_str(),
                        );
                        proof {
                            lemma_grows_conflict(before, RefKind::Tag, name@, round.src, src_ref@, dst_ref@);
                            lemma_grows_trans(old(self).tally(), before, self.tally());
                        }
                    }
                    i = i + 1;
                },
            }
        }
        if stop {
            let name = self.src_tags[i].0.clone();
            let src_ref = self.src_tags[i].1.ref_sha.clone();
            let round = self.rounds[r];
            let dst = self.remote(round.dst).clone();
            let a = push_ref_args(&dst, src_ref.as_str(), false, name.as_str());
            self.cur_name = name;
            self.cur_src = src_ref;
            self.phase = Phase::TagPush(r, i);
            proof {
                self.lemma_dst_remote(r as int);
                reveal_strlit("push");
                let args = args_view(a@);
                assert(ref_update(args[2], self.cur_src@, "refs/tags/"@ + self.cur_name@));
            }
            Step::Run(a)
        } else {
            self.seek_delete_tag(r, 0)
        }
    }

    /// In mirror mode, looks for the next destination tag from index `from` on
    /// that the source no longer has; then the next round follows.
    fn seek_delete_tag(&mut self, r: usize, from: usize) -> (s: Step)
        requires
            old(self).wf(),
            r < old(self).rounds@.len(),
            from <= old(self).dst_tags@.len(),
        ensures
            final(self).wf(),
            same_data(old(self)@, final(self)@),
            final(self).tally() == old(self).tally(),
            at_delete_tags(final(self)@, r as int, from as int, s),
            step_allowed(final(self).config(), s),
    {
        let k = if self.mirror_delete {
            self.next_stale_tag(from)
        } else {
            self.dst_tags.len()
        };
        if self.mirror_delete && k < self.dst_tags.len() {
            let name = self.dst_tags[k].0.clone();
            let dst_side = self.rounds[r].dst;
            let dst = self.remote(dst_side).clone();
            let a = push_delete_args(&dst, false, name.as_str());
            self.phase = Phase::DeleteTag(r, k);
            proof {
                self.lemma_dst_remote(r as int);
                reveal_strlit("push");
                reveal_strlit("--delete");
            }
            Step::Run(a)
        } else {
            self.start_round(r + 1)
        }
    }

    /// The first destination tag from `from` on that the source lacks.
    fn next_stale_tag(&self, from: usize) -> (k: usize)
        requires
            from <= self@.dst_tags.len(),
        ensures
            k == next_stale(self@.src_tags, self@.dst_tags, from as int),
            k <= self@.dst_tags.len(),
    {
        let ghost keep = self@.src_tags;
        let ghost other = self@.dst_tags;
        let mut j = from;
        while j < self.dst_tags.len()
            invariant
                from <= j <= self.dst_tags@.len(),
                keep == self@.src_tags,
                other == self@.dst_tags,
                other.len() == self.dst_tags@.len(),
                next_stale(keep, other, from as int) == next_stale(keep, other, j as int),
            decreases self.dst_tags@.len() - j,
        {
            let key = crate::text::chars_of(self.dst_tags[j].0.as_str());
            assert(other[j as int].0 == key@);
            if crate::sync::find_tag(&self.src_tags, &key).is_none() {
                return j;
            }
            j = j + 1;
        }
        j
    }
}

/// The platforms whose remote the local branch is compared with: the
/// sources of the rounds, each once, in order.
pub open spec fn local_sides(rounds: Seq<Round>) -> Seq<Side>
    decreases rounds.len(),
{
    if rounds.len() == 0 {
        seq![]
    } else {
        let s = local_sides(rounds.drop_last());
        if s.contains(rounds.last().src) {
            s
        } else {
            s.push(rounds.last().src)
        }
    }
}

fn sides_for(rounds: &Vec<Round>) -> (s: Vec<Side>)
    ensures
        s@ == local_sides(rounds@),
        sides_ok(s@, rounds@),
{
    let mut s: Vec<Side> = Vec::new();
    let mut i: usize = 0;
    while i < rounds.len()
        invariant
            i <= rounds.len(),
            s@ == local_sides(rounds@.take(i as int)),
            sides_ok(s@, rounds@),
        decreases rounds.len() - i,
    {
        proof {
            assert(rounds@.take(i + 1).drop_last() =~= rounds@.take(i as int));
            assert(rounds@.take(i + 1).last() == rounds@[i as int]);
        }
        let src = rounds[i].src;
        let mut seen = false;
        let mut k: usize = 0;
        while k < s.len()
            invariant
                k <= s.len(),
                seen == exists|m: int| 0 <= m < k && s@[m] == src,
            decreases s.len() - k,
        {
            if s[k] == src {
                seen = true;
            }
            k = k + 1;
        }
        if !seen {
            s.push(src);
            proof {
                assert forall|q: int| 0 <= q < s@.len() implies exists|m: int|
                    0 <= m < rounds@.len() && #[trigger] s@[q] == rounds@[m].src by {
                    if q == s@.len() - 1 {
                        assert(s@[q] == rounds@[i as int].src);
                    }
                }
            }
        } else {
            assert(local_sides(rounds@.take(i as int)).contains(src));
        }
        i = i + 1;
    }
    assert(rounds@.take(rounds.len() as int) =~= rounds@);
    s
}

impl SyncEngine {
    /// Reads the outcome of the command the engine asked for and says what
    /// comes next.
    pub fn resume(&mut self, o: GitOutcome) -> (s: Step)
        requires
            old(self).wf(),
        ensures
            final(self).wf(),
            final(self).config() == old(self).config(),
            grows(old(self).tally(), final(self).tally()),
            step_allowed(final(self).config(), s),
            resumed(old(self)@, o, final(self)@, s),
            s is Run ==> below(progress(final(self)@), progress(old(self)@)),
            !old(self).config().mirror_delete ==> final(self).tally().deleted == old(self).tally().deleted,
            conflicts_unique(old(self).tally().conflicts) ==> conflicts_unique(final(self).tally().conflicts),
    {
        let ghost before = self@;
        let ghost outcome = o;
        proof {
            self.lemma_engine_wf();
            assert((before.phase is DeleteBranch || before.phase is DeleteTag) ==> before.config.mirror_delete);
        }
        let s = match self.phase {
            Phase::SrcBranches(_) | Phase::DstBranches(_) | Phase::BranchAnc1(_, _)
            | Phase::BranchAnc2(_, _, _) | Phase::BranchPush(_, _, _) | Phase::DeleteBranch(_, _) => {
                self.resume_branch(o)
            },
            Phase::SrcTags(_) | Phase::DstTags(_) | Phase::TagPush(_, _) | Phase::DeleteTag(_, _) => {
                self.resume_tag(o)
            },
            Phase::Finished => {
                proof {
                    lemma_grows_refl(self.tally());
                }
                Step::Finish
            },
            _ => self.resume_local(o),
        };
        proof {
            self.lemma_engine_wf();
            if s is Run {
                lemma_resume_progresses(before, outcome, self@, s);
            }
            lemma_resume_keeps_tally(before, outcome, self@, s);
        }
        s
    }

    /// The bounds of `wf` hold of the engine's view.
    proof fn lemma_engine_wf(&self)
        requires
            self.wf(),
        ensures
            engine_wf(self@),
    {
    }

    fn resume_local(&mut self, o: GitOutcome) -> (s: Step)
        requires
            old(self).wf(),
            !is_branch_phase(old(self).phase()),
            !is_tag_phase(old(self).phase()),
            old(self).phase() != Phase::Finished,
        ensures
            final(self).wf(),
            final(self).config() == old(self).config(),
            grows(old(self).tally(), final(self).tally()),
            step_allowed(final(self).config(), s),
            resumed(old(self)@, o, final(self)@, s),
    {
        let ghost t0 = self.tally();
        proof {
            lemma_grows_refl(t0);
        }
        match self.phase {
            Phase::Fetch(k) => {
                let side = if k == 0 {
                    Side::Github
                } else {
                    Side::Gitee
                };
                let remote = self.remote(side).clone();
                match fetch_error(remote.as_str(), &o) {
                    Some(m) => {
                        self.acc.note_error(m);
                        proof {
                            lemma_grows_error(t0, m@);
                        }
                        self.phase = Phase::Finished;
                        Step::Finish
                    },
                    None => {
                        if k == 0 {
                            let a = args3(text("fetch"), self.gitee.clone(), text("--prune"));
                            self.phase = Phase::Fetch(1);
                            proof {
                                reveal_strlit("fetch");
                            }
                            Step::Run(a)
                        } else {
                            let a = args2(text("branch"), text("--show-current"));
                            self.phase = Phase::CurrentBranch;
                            proof {
                                reveal_strlit("branch");
                                reveal_strlit("--show-current");
                            }
                            Step::Run(a)
                        }
                    },
                }
            },
            Phase::CurrentBranch => {
                match trimmed_stdout(&o) {
                    Some(b) => {
                        if b.as_str().is_empty() {
                            self.start_round(0)
                        } else {
                            let target = text2("refs/heads/", b.as_str());
                            self.branch = b;
                            let a = args2(text("rev-parse"), target);
                            self.phase = Phase::LocalSha;
                            proof {
                                reveal_strlit("rev-parse");
                            }
                            Step::Run(a)
                        }
                    },
                    None => self.start_round(0),
                }
            },
            Phase::LocalSha => {
                match trimmed_stdout(&o) {
                    Some(sha) => {
                        self.local_sha = sha;
                        self.sides = sides_for(&self.rounds);
                        self.seek_local(0)
                    },
                    None => self.start_round(0),
                }
            },
            Phase::LocalRemote(k) => {
                let bound = self.sides.len();
                assert(k < bound);
                let side = self.sides[k];
                let remote = self.remote(side).clone();
                proof {
                    self.lemma_side_src(k as int);
                }
                match trimmed_stdout(&o) {
                    None => {
                        let a = push_local_args(&remote, self.branch.as_str());
                        self.phase = Phase::LocalPush(k);
                        proof {
                            reveal_strlit("push");
                        }
                        Step::Run(a)
                    },
                    Some(rt) => {
                        if rt == self.local_sha {
                            self.seek_local(k + 1)
                        } else {
                            let a = args4(
                                text("merge-base"),
                                text("--is-ancestor"),
                                rt.clone(),
                                self.local_sha.clone(),
                            );
                            self.cur_dst = rt;
                            self.phase = Phase::LocalAnc1(k);
                            proof {
                                reveal_strlit("merge-base");
                            }
                            Step::Run(a)
                        }
                    },
                }
            },
            Phase::LocalAnc1(k) => {
                let a1 = ancestry(&o);
                let a = args4(
                    text("merge-base"),
                    text("--is-ancestor"),
                    self.local_sha.clone(),
                    self.cur_dst.clone(),
                );
                self.phase = Phase::LocalAnc2(k, a1);
                proof {
                    reveal_strlit("merge-base");
                }
                Step::Run(a)
            },
            Phase::LocalAnc2(k, a1) => {
                let bound = self.sides.len();
                assert(k < bound);
                let a2 = ancestry(&o);
                let side = self.sides[k];
                let remote = self.remote(side).clone();
                proof {
                    self.lemma_side_src(k as int);
                }
                match fast_forward(a1, a2) {
                    FastForward::Ahead => {
                        let a = push_local_args(&remote, self.branch.as_str());
                        self.phase = Phase::LocalPush(k);
                        proof {
                            reveal_strlit("push");
                        }
                        Step::Run(a)
                    },
                    FastForward::Behind => {
                        let target = text2("refs/heads/", self.branch.as_str());
                        let a = args4(text("pull"), text("--ff-only"), remote, target);
                        self.phase = Phase::LocalPull(k);
                        proof {
                            reveal_strlit("pull");
                            reveal_strlit("--ff-only");
                            lemma_has_prefix("refs/heads/"@, self.branch@);
                        }
                        Step::Run(a)
                    },
                    FastForward::Diverged => {
                        self.acc.mark_local_diverged(remote.as_str(), self.branch.as_str());
                        proof {
                            lemma_grows_local_diverged(t0, remote@, self.branch@);
                        }
                        let ghost t1 = self.tally();
                        let st = self.seek_local(k + 1);
                        st
                    },
                    FastForward::Unknown => self.seek_local(k + 1),
                }
            },
            Phase::LocalPush(k) => {
                let bound = self.sides.len();
                assert(k < bound);
                let side = self.sides[k];
                let remote = self.remote(side).clone();
                self.acc.local_push_done(remote.as_str(), self.branch.as_str(), &o);
                proof {
                    lemma_grows_after_local_push(t0, remote@, self.branch@, o);
                }
                self.seek_local(k + 1)
            },
            Phase::LocalPull(k) => {
                let bound = self.sides.len();
                assert(k < bound);
                let side = self.sides[k];
                let remote = self.remote(side).clone();
                self.acc.pull_done(remote.as_str(), self.branch.as_str(), &o);
                proof {
                    lemma_grows_after_pull(t0, remote@, self.branch@, o);
                }
                self.seek_local(k + 1)
            },
            _ => {
                self.phase = Phase::Finished;
                Step::Finish
            },
        }
    }

    #[verifier::rlimit(40)]
    fn resume_branch(&mut self, o: GitOutcome) -> (s: Step)
        requires
            old(self).wf(),
            is_branch_phase(old(self).phase()),
        ensures
            final(self).wf(),
            final(self).config() == old(self).config(),
            grows(old(self).tally(), final(self).tally()),
            step_allowed(final(self).config(), s),
            resumed(old(self)@, o, final(self)@, s),
    {
        let ghost t0 = self.tally();
        proof {
            lemma_grows_refl(t0);
        }
        match self.phase {
            Phase::SrcBranches(r) => {
                let round = self.rounds[r];
                let src = self.remote(round.src).clone();
                match fetch_error(src.as_str(), &o) {
                    Some(m) => {
                        self.acc.note_error(m);
                        proof {
                            lemma_grows_error(t0, m@);
                        }
                        self.start_round(r + 1)
                    },
                    None => {
                        match &o {
                            GitOutcome::Exited(x) => {
                                self.src_branches = parse_remote_branches(
                                    src.as_str(),
                                    x.stdout.as_str(),
                                );
                            },
                            GitOutcome::NotStarted(_) => {},
                        }
                        let dst = self.remote(round.dst).clone();
                        let pattern = text3("refs/remotes/", dst.as_str(), "/");
                        let a = args3(
                            text("for-each-ref"),
                            pattern,
                            text("--format=%(refname:short) %(objectname)"),
                        );
                        self.phase = Phase::DstBranches(r);
                        proof {
                            reveal_strlit("for-each-ref");
                        }
                        Step::Run(a)
                    },
                }
            },
            Phase::DstBranches(r) => {
                let round = self.rounds[r];
                let dst = self.remote(round.dst).clone();
                match fetch_error(dst.as_str(), &o) {
                    Some(m) => {
                        self.acc.note_error(m);
                        proof {
                            lemma_grows_error(t0, m@);
                        }
                        self.start_round(r + 1)
                    },
                    None => {
                        match &o {
                            GitOutcome::Exited(x) => {
                                self.dst_branches = parse_remote_branches(
                                    dst.as_str(),
                                    x.stdout.as_str(),
                                );
                            },
                            GitOutcome::NotStarted(_) => {},
                        }
                        self.seek_branch(r, 0)
                    },
                }
            },
            Phase::BranchAnc1(r, i) => {
                let a1 = ancestry(&o);
                let a = args4(
                    text("merge-base"),
                    text("--is-ancestor"),
                    self.cur_src.clone(),
                    self.cur_dst.clone(),
                );
                self.phase = Phase::BranchAnc2(r, i, a1);
                proof {
                    reveal_strlit("merge-base");
                }
                Step::Run(a)
            },
            Phase::BranchAnc2(r, i, a1) => {
                let bound = self.src_branches.len();
                assert(i < bound);
                let a2 = ancestry(&o);
                let round = self.rounds[r];
                match fast_forward(a1, a2) {
                    FastForward::Ahead => {
                        let dst = self.remote(round.dst).clone();
                        let a = push_ref_args(&dst, self.cur_src.as_str(), true, self.cur_name.as_str());
                        self.phase = Phase::BranchPush(r, i, true);
                        proof {
                            self.lemma_dst_remote(r as int);
                            reveal_strlit("push");
                            let args = args_view(a@);
                            assert(ref_update(args[2], self.cur_src@, "refs/heads/"@ + self.cur_name@));
                        }
                        Step::Run(a)
                    },
                    FastForward::Diverged => {
                        let name = self.cur_name.clone();
                        let src_sha = self.cur_src.clone();
                        let dst_sha = self.cur_dst.clone();
                        self.acc.add_conflict(
                            RefKind::Branch,
                            name.as_str(),
                            round.src,
                            src_sha.as_str(),
                            dst_sha.as_str(),
                        );
                        proof {
                            lemma_grows_conflict(t0, RefKind::Branch, name@, round.src, src_sha@, dst_sha@);
                        }
                        self.seek_branch(r, i + 1)
                    },
                    _ => self.seek_branch(r, i + 1),
                }
            },
            Phase::BranchPush(r, i, has_dst) => {
                let bound = self.src_branches.len();
                assert(i < bound);
                let round = self.rounds[r];
                let dst = self.remote(round.dst).clone();
                let name = self.cur_name.clone();
                let src_sha = self.cur_src.clone();
                let dst_sha = self.cur_dst.clone();
                let known = if has_dst {
                    Some(dst_sha.as_str())
                } else {
                    None
                };
                self.acc.push_done(
                    dst.as_str(),
                    src_sha.as_str(),
                    RefKind::Branch,
                    name.as_str(),
                    round.src,
                    known,
                    &o,
                );
                proof {
                    lemma_grows_after_push(
                        t0,
                        dst@,
                        src_sha@,
                        RefKind::Branch,
                        name@,
                        round.src,
                        match known {
                            Some(d) => Some(d@),
                            None => None,
                        },
                        o,
                    );
                }
                self.seek_branch(r, i + 1)
            },
            Phase::DeleteBranch(r, j) => {
                let bound = self.dst_branches.len();
                assert(j < bound);
                let round = self.rounds[r];
                let dst = self.remote(round.dst).clone();
                self.acc.delete_done(dst.as_str(), &o);
                proof {
                    lemma_grows_after_delete(t0, dst@, o);
                }
                self.seek_delete_branch(r, j + 1)
            },
            _ => {
                self.phase = Phase::Finished;
                Step::Finish
            },
        }
    }

    fn resume_tag(&mut self, o: GitOutcome) -> (s: Step)
        requires
            old(self).wf(),
            is_tag_phase(old(self).phase()),
        ensures
            final(self).wf(),
            final(self).config() == old(self).config(),
            grows(old(self).tally(), final(self).tally()),
            step_allowed(final(self).config(), s),
            resumed(old(self)@, o, final(self)@, s),
    {
        let ghost t0 = self.tally();
        proof {
            lemma_grows_refl(t0);
        }
        match self.phase {
            Phase::SrcTags(r) => {
                let round = self.rounds[r];
                let src = self.remote(round.src).clone();
                match fetch_error(src.as_str(), &o) {
                    Some(m) => {
                        self.acc.note_error(m);
                        proof {
                            lemma_grows_error(t0, m@);
                        }
                        self.start_round(r + 1)
                    },
                    None => {
                        match &o {
                            GitOutcome::Exited(x) => {
                                self.src_tags = parse_remote_tags(x.stdout.as_str());
                            },
                            GitOutcome::NotStarted(_) => {},
                        }
                        let dst = self.remote(round.dst).clone();
                        let a = args3(text("ls-remote"), text("--tags"), dst);
                        self.phase = Phase::DstTags(r);
                        proof {
                            self.lemma_dst_remote(r as int);
                            reveal_strlit("ls-remote");
                            reveal_strlit("--tags");
                        }
                        Step::Run(a)
                    },
                }
            },
            Phase::DstTags(r) => {
                let round = self.rounds[r];
                let dst = self.remote(round.dst).clone();
                match fetch_error(dst.as_str(), &o) {
                    Some(m) => {
                        self.acc.note_error(m);
                        proof {
                            lemma_grows_error(t0, m@);
                        }
                        self.start_round(r + 1)
                    },
                    None => {
                        match &o {
                            GitOutcome::Exited(x) => {
                                self.dst_tags = parse_remote_tags(x.stdout.as_str());
                            },
                            GitOutcome::NotStarted(_) => {},
                        }
                        self.seek_tag(r, 0)
                    },
                }
            },
            Phase::TagPush(r, i) => {
                let bound = self.src_tags.len();
                assert(i < bound);
                let round = self.rounds[r];
                let dst = self.remote(round.dst).clone();
                let name = self.cur_name.clone();
                let src_sha = self.cur_src.clone();
                self.acc.push_done(
                    dst.as_str(),
                    src_sha.as_str(),
                    RefKind::Tag,
                    name.as_str(),
                    round.src,
                    None,
                    &o,
                );
                proof {
                    lemma_grows_after_push(t0, dst@, src_sha@, RefKind::Tag, name@, round.src, None, o);
                }
                let ghost t1 = self.tally();
                let st = self.seek_tag(r, i + 1);
                proof {
                    lemma_grows_trans(t0, t1, self.tally());
                }
                st
            },
            Phase::DeleteTag(r, j) => {
                let bound = self.dst_tags.len();
                assert(j < bound);
                let round = self.rounds[r];
                let dst = self.remote(round.dst).clone();
                self.acc.delete_done(dst.as_str(), &o);
                proof {
                    lemma_grows_after_delete(t0, dst@, o);
                }
                self.seek_delete_tag(r, j + 1)
            },
            _ => {
                self.phase = Phase::Finished;
                Step::Finish
            },
        }
    }

    proof fn lemma_side_src(&self, k: int)
        requires
            self.wf(),
            0 <= k < self.sides@.len(),
        ensures
            is_src_remote(self.config(), remote_of(self.config(), self.sides@[k])),
    {
        let i = choose|i: int| 0 <= i < self.rounds@.len() && self.sides@[k] == self.rounds@[i].src;
        assert(self.config().rounds[i].src == self.sides@[k]);
    }

    /// Sums up the sync at time `now`.
    pub fn finish(self, now: i64) -> (r: RepoSyncState)
        ensures
            r@ == finished(self.tally(), now),
    {
        finish(self.acc, now)
    }
}

} // verus!
