//! The sync model and its decisions: per-repository state, ref conflicts,
//! the directions a repository is synced in, what to do with a ref given the
//! two ends, and how git's output is read and reported.
use vstd::prelude::*;

use crate::config::{remotes_view, Direction, HostKind, RemoteInfo, RemoteInfoView};
use crate::text::{
    chars_of, first_token, has_infix, has_prefix, has_suffix, last_char_pos, join_strings, join_with, lines, lines_of, push_chars, push_str, slice,
    str_contains, string_of, trim, trim_chars,
};

verus! {

broadcast use vstd::string::group_string_axioms;

// ---------------------------------------------------------------------------
// Types
// ---------------------------------------------------------------------------

/// A repository's sync status: pending, then syncing, then synced, conflict,
/// error or missing.
#[derive(Debug, Clone, Copy, PartialEq, Eq, Structural)]
pub enum SyncStatus {
    Pending,
    Syncing,
    Synced,
    Conflict,
    Error,
    Missing,
}

impl Default for SyncStatus {
    fn default() -> (r: SyncStatus)
        ensures
            r == SyncStatus::Pending,
    {
        SyncStatus::Pending
    }
}

/// What kind of ref a conflict is on.
#[derive(Debug, Clone, Copy, PartialEq, Eq, Structural)]
pub enum RefKind {
    Branch,
    Tag,
}

/// An unresolved conflict on one ref (a diverged branch or a drifted tag),
/// with the short sha each platform has for it.
#[derive(Debug)]
pub struct RefConflict {
    pub kind: RefKind,
    pub name: String,
    pub github_sha: String,
    pub gitee_sha: String,
}

pub struct RefConflictView {
    pub kind: RefKind,
    pub name: Seq<char>,
    pub github_sha: Seq<char>,
    pub gitee_sha: Seq<char>,
}

impl View for RefConflict {
    type V = RefConflictView;

    open spec fn view(&self) -> RefConflictView {
        RefConflictView {
            kind: self.kind,
            name: self.name@,
            github_sha: self.github_sha@,
            gitee_sha: self.gitee_sha@,
        }
    }
}

impl Clone for RefConflict {
    fn clone(&self) -> (r: Self)
        ensures
            r@ == self@,
    {
        RefConflict {
            kind: self.kind,
            name: self.name.clone(),
            github_sha: self.github_sha.clone(),
            gitee_sha: self.gitee_sha.clone(),
        }
    }
}

/// The values of a list of conflicts.
pub open spec fn conflicts_view(v: Seq<RefConflict>) -> Seq<RefConflictView> {
    v.map_values(|c: RefConflict| c@)
}

/// A copy of a list of conflicts.
pub fn clone_conflicts(v: &Vec<RefConflict>) -> (r: Vec<RefConflict>)
    ensures
        conflicts_view(r@) == conflicts_view(v@),
{
    let r = v.clone();
    proof {
        assert forall|i: int| 0 <= i < r@.len() implies #[trigger] r@[i]@ == v@[i]@ by {
            assert(cloned::<RefConflict>(v[i], r[i]));
        }
        assert(conflicts_view(r@) =~= conflicts_view(v@));
    }
    r
}

/// One repository's sync state (kept in memory only).
#[derive(Debug)]
pub struct RepoSyncState {
    pub status: SyncStatus,
    pub last_synced: Option<i64>,
    pub pushed_refs: u32,
    /// Refs deleted in mirror mode during the sync.
    pub deleted_refs: u32,
    pub error: Option<String>,
    pub conflicts: Vec<RefConflict>,
}

pub struct RepoSyncStateView {
    pub status: SyncStatus,
    pub last_synced: Option<i64>,
    pub pushed_refs: u32,
    pub deleted_refs: u32,
    pub error: Option<Seq<char>>,
    pub conflicts: Seq<RefConflictView>,
}

/// The value of an optional string.
pub open spec fn opt_text(o: Option<String>) -> Option<Seq<char>> {
    match o {
        Some(s) => Some(s@),
        None => None,
    }
}

impl View for RepoSyncState {
    type V = RepoSyncStateView;

    open spec fn view(&self) -> RepoSyncStateView {
        RepoSyncStateView {
            status: self.status,
            last_synced: self.last_synced,
            pushed_refs: self.pushed_refs,
            deleted_refs: self.deleted_refs,
            error: opt_text(self.error),
            conflicts: conflicts_view(self.conflicts@),
        }
    }
}

impl Clone for RepoSyncState {
    fn clone(&self) -> (r: Self)
        ensures
            r@ == self@,
    {
        RepoSyncState {
            status: self.status,
            last_synced: self.last_synced,
            pushed_refs: self.pushed_refs,
            deleted_refs: self.deleted_refs,
            error: match &self.error {
                Some(e) => Some(e.clone()),
                None => None,
            },
            conflicts: clone_conflicts(&self.conflicts),
        }
    }
}

impl Default for RepoSyncState {
    /// Pending, never synced, nothing pushed or deleted, no error, no conflicts.
    fn default() -> (r: RepoSyncState)
        ensures
            r.status == SyncStatus::Pending,
            r.last_synced is None,
            r.pushed_refs == 0,
            r.deleted_refs == 0,
            r.error is None,
            r.conflicts@.len() == 0,
    {
        RepoSyncState {
            status: SyncStatus::Pending,
            last_synced: None,
            pushed_refs: 0,
            deleted_refs: 0,
            error: None,
            conflicts: Vec::new(),
        }
    }
}

impl RepoSyncState {
    /// A state with the given status and error and nothing else.
    pub fn with_status(status: SyncStatus, error: Option<String>) -> (r: RepoSyncState)
        ensures
            r.status == status,
            r.last_synced is None,
            r.pushed_refs == 0,
            r.deleted_refs == 0,
            opt_text(r.error) == opt_text(error),
            r.conflicts@.len() == 0,
    {
        RepoSyncState {
            status,
            last_synced: None,
            pushed_refs: 0,
            deleted_refs: 0,
            error,
            conflicts: Vec::new(),
        }
    }
}

/// One repository's state as reported to the user, by path.
#[derive(Debug)]
pub struct RepoSyncResult {
    pub path: String,
    pub state: RepoSyncState,
}

impl Clone for RepoSyncResult {
    fn clone(&self) -> (r: Self)
        ensures
            r.path@ == self.path@,
            r.state@ == self.state@,
    {
        RepoSyncResult { path: self.path.clone(), state: self.state.clone() }
    }
}

/// The side the user chose as authoritative when resolving conflicts.
#[derive(Debug, Clone, Copy, PartialEq, Eq, Structural)]
pub enum ConflictSide {
    Github,
    Gitee,
}

/// One of the two platforms.
#[derive(Debug, Clone, Copy, PartialEq, Eq, Structural)]
pub enum Side {
    Github,
    Gitee,
}

impl Side {
    /// The host kind of the platform.
    pub open spec fn host(self) -> HostKind {
        match self {
            Side::Github => HostKind::Github,
            Side::Gitee => HostKind::Gitee,
        }
    }
}

/// One sync direction: refs where `src` is ahead are carried to `dst`.
#[derive(Debug, Clone, Copy, PartialEq, Eq, Structural)]
pub struct Round {
    pub src: Side,
    pub dst: Side,
}

/// The rounds a direction syncs in, in order.
pub open spec fn rounds_of(d: Direction) -> Seq<Round> {
    match d {
        Direction::GithubToGitee => seq![Round { src: Side::Github, dst: Side::Gitee }],
        Direction::GiteeToGithub => seq![Round { src: Side::Gitee, dst: Side::Github }],
        Direction::Both => seq![
            Round { src: Side::Github, dst: Side::Gitee },
            Round { src: Side::Gitee, dst: Side::Github },
        ],
    }
}

/// The rounds of a direction.
pub fn rounds_for(direction: Direction) -> (r: Vec<Round>)
    ensures
        r@ == rounds_of(direction),
{
    let mut r: Vec<Round> = Vec::new();
    match direction {
        Direction::GithubToGitee => {
            r.push(Round { src: Side::Github, dst: Side::Gitee });
        },
        Direction::GiteeToGithub => {
            r.push(Round { src: Side::Gitee, dst: Side::Github });
        },
        Direction::Both => {
            r.push(Round { src: Side::Github, dst: Side::Gitee });
            r.push(Round { src: Side::Gitee, dst: Side::Github });
        },
    }
    assert(r@ =~= rounds_of(direction));
    r
}

/// The name of the first remote hosted on `k`, if any.
pub open spec fn first_remote_on(remotes: Seq<RemoteInfoView>, k: HostKind) -> Option<Seq<char>>
    decreases remotes.len(),
{
    if remotes.len() == 0 {
        None
    } else if remotes[0].host == k {
        Some(remotes[0].name)
    } else {
        first_remote_on(remotes.drop_first(), k)
    }
}

/// The remote a repository reaches platform `side` through: the first one
/// hosted there.
pub fn remote_for(remotes: &[RemoteInfo], side: Side) -> (r: Option<String>)
    ensures
        opt_text(r) == first_remote_on(remotes_view(remotes@), side.host()),
{
    let host = match side {
        Side::Github => HostKind::Github,
        Side::Gitee => HostKind::Gitee,
    };
    let ghost all = remotes_view(remotes@);
    let mut i: usize = 0;
    assert(all.skip(0) =~= all);
    while i < remotes.len()
        invariant
            i <= remotes.len(),
            all == remotes_view(remotes@),
            host == side.host(),
            first_remote_on(all.skip(i as int), host) == first_remote_on(all, host),
        decreases remotes.len() - i,
    {
        assert(all.skip(i as int)[0] == remotes@[i as int]@);
        if remotes[i].host == host {
            return Some(remotes[i].name.clone());
        }
        assert(all.skip(i as int).drop_first() =~= all.skip(i + 1));
        i = i + 1;
    }
    assert(all.skip(i as int).len() == 0);
    None
}

// ---------------------------------------------------------------------------
// Reading git's output
// ---------------------------------------------------------------------------

/// The first seven characters of a sha (all of it when shorter).
pub open spec fn short_sha_of(sha: Seq<char>) -> Seq<char> {
    if sha.len() <= 7 {
        sha
    } else {
        sha.take(7)
    }
}

/// The short form of a sha.
pub fn short_sha(sha: &str) -> (r: String)
    ensures
        r@ == short_sha_of(sha@),
{
    let v = chars_of(sha);
    let n = if v.len() <= 7 {
        v.len()
    } else {
        7
    };
    let s = slice(&v, 0, n);
    proof {
        if v@.len() <= 7 {
            assert(s@ =~= v@);
        } else {
            assert(s@ =~= v@.take(7));
        }
    }
    string_of(&s)
}

/// The trimmed non-blank lines among `ls`.
pub open spec fn nonblank(ls: Seq<Seq<char>>) -> Seq<Seq<char>>
    decreases ls.len(),
{
    if ls.len() == 0 {
        seq![]
    } else {
        let rest = nonblank(ls.drop_last());
        if trim(ls.last()).len() == 0 {
            rest
        } else {
            rest.push(trim(ls.last()))
        }
    }
}

/// A line cut to 200 characters, marked with `…` when cut.
pub open spec fn clip_line(l: Seq<char>) -> Seq<char> {
    if l.len() > 200 {
        l.take(200) + "…"@
    } else {
        l
    }
}

/// The last (up to three) non-blank lines of `s`, each trimmed and cut to
/// 200 characters, joined by `；`.
pub open spec fn tail_of(s: Seq<char>) -> Seq<char> {
    let ls = nonblank(lines(s));
    let start = if ls.len() >= 3 {
        ls.len() - 3
    } else {
        0
    };
    join_with(ls.skip(start).map_values(|x: Seq<char>| clip_line(x)), "；"@)
}

/// An excerpt of git's error output: its last non-blank lines.
pub fn stderr_tail(stderr: &str) -> (r: String)
    ensures
        r@ == tail_of(stderr@),
{
    let v = chars_of(stderr);
    let ls = lines_of(&v);
    let ghost lv = ls@.map_values(|l: Vec<char>| l@);
    let mut kept: Vec<Vec<char>> = Vec::new();
    let mut i: usize = 0;
    while i < ls.len()
        invariant
            i <= ls.len(),
            lv == ls@.map_values(|l: Vec<char>| l@),
            kept@.map_values(|l: Vec<char>| l@) == nonblank(lv.take(i as int)),
        decreases ls.len() - i,
    {
        proof {
            assert(lv.take(i + 1).drop_last() =~= lv.take(i as int));
            assert(lv.take(i + 1).last() == ls@[i as int]@);
        }
        let t = trim_chars(&ls[i]);
        if t.len() > 0 {
            let ghost before = kept@.map_values(|l: Vec<char>| l@);
            kept.push(t);
            assert(kept@.map_values(|l: Vec<char>| l@) =~= before.push(t@));
        }
        i = i + 1;
    }
    assert(lv.take(ls.len() as int) =~= lv);
    let ghost kv = kept@.map_values(|l: Vec<char>| l@);
    let start = if kept.len() >= 3 {
        kept.len() - 3
    } else {
        0
    };
    let mut parts: Vec<String> = Vec::new();
    let mut j: usize = start;
    while j < kept.len()
        invariant
            start <= j <= kept.len(),
            kv == kept@.map_values(|l: Vec<char>| l@),
            parts@.map_values(|s: String| s@) == kv.subrange(start as int, j as int).map_values(
                |x: Seq<char>| clip_line(x),
            ),
        decreases kept.len() - j,
    {
        let l = &kept[j];
        let piece = if l.len() > 200 {
            let cut = slice(l, 0, 200);
            let mut p = string_of(&cut);
            push_str(&mut p, "…");
            proof {
                assert(cut@ =~= l@.take(200));
            }
            assert(p@ == clip_line(l@));
            p
        } else {
            let p = string_of(l);
            assert(p@ == clip_line(l@));
            p
        };
        assert(piece@ == clip_line(l@));
        let ghost before = parts@.map_values(|s: String| s@);
        parts.push(piece);
        proof {
            assert(kv[j as int] == kept@[j as int]@);
            assert(parts@.map_values(|s: String| s@) =~= before.push(piece@));
            assert(kv.subrange(start as int, j + 1).map_values(|x: Seq<char>| clip_line(x))
                =~= kv.subrange(start as int, j as int).map_values(|x: Seq<char>| clip_line(x)).push(
                clip_line(kv[j as int]),
            ));
        }
        j = j + 1;
    }
    assert(kv.subrange(start as int, kept.len() as int) =~= kv.skip(start as int));
    join_strings(&parts, "；")
}

/// Signs in git's error output that credentials are missing.
pub open spec fn auth_failure(s: Seq<char>) -> bool {
    ||| has_infix(s, "Authentication failed"@)
    ||| has_infix(s, "could not read Username"@)
    ||| has_infix(s, "Permission denied (publickey)"@)
    ||| has_infix(s, "terminal prompts disabled"@)
}

/// Signs in git's error output that the network is unreachable.
pub open spec fn network_failure(s: Seq<char>) -> bool {
    ||| has_infix(s, "Could not resolve host"@)
    ||| has_infix(s, "timed out"@)
    ||| has_infix(s, "Connection"@)
}

/// The message shown for a failed git operation on `remote`: credentials,
/// network, or an excerpt of git's own output.
pub open spec fn git_error_message(remote: Seq<char>, stderr: Seq<char>) -> Seq<char> {
    if auth_failure(stderr) {
        remote
            + " 操作失败：git 凭据不可用。请在终端对该仓库执行一次 git fetch/push 保存凭据，或在设置页配置 PAT。"@
    } else if network_failure(stderr) {
        remote + " 操作失败：网络不可达，请检查网络后重试。"@
    } else {
        remote + " 操作失败："@ + tail_of(stderr)
    }
}

/// Turns git's error output into a message the user can act on.
pub fn classify_git_error(remote: &str, stderr: &str) -> (r: String)
    ensures
        r@ == git_error_message(remote@, stderr@),
{
    let v = chars_of(stderr);
    let auth = str_contains(&v, "Authentication failed") || str_contains(
        &v,
        "could not read Username",
    ) || str_contains(&v, "Permission denied (publickey)") || str_contains(
        &v,
        "terminal prompts disabled",
    );
    let mut r = String::new();
    push_str(&mut r, remote);
    if auth {
        push_str(
            &mut r,
            " 操作失败：git 凭据不可用。请在终端对该仓库执行一次 git fetch/push 保存凭据，或在设置页配置 PAT。",
        );
        assert(Seq::<char>::empty() + remote@ =~= remote@);
        return r;
    }
    let net = str_contains(&v, "Could not resolve host") || str_contains(&v, "timed out")
        || str_contains(&v, "Connection");
    if net {
        push_str(&mut r, " 操作失败：网络不可达，请检查网络后重试。");
        assert(Seq::<char>::empty() + remote@ =~= remote@);
        return r;
    }
    push_str(&mut r, " 操作失败：");
    let tail = stderr_tail(stderr);
    push_str(&mut r, tail.as_str());
    assert(Seq::<char>::empty() + remote@ =~= remote@);
    r
}

// ---------------------------------------------------------------------------
// Ref listings
// ---------------------------------------------------------------------------

/// Index of the first entry of `m` with key `k`, or -1.
pub open spec fn key_index<V>(m: Seq<(Seq<char>, V)>, k: Seq<char>) -> int
    decreases m.len(),
{
    if m.len() == 0 {
        -1
    } else if m.last().0 == k && key_index(m.drop_last(), k) < 0 {
        m.len() - 1
    } else {
        key_index(m.drop_last(), k)
    }
}

/// No key occurs twice in `m`.
pub open spec fn keys_unique<V>(m: Seq<(Seq<char>, V)>) -> bool {
    forall|i: int, j: int| 0 <= i < j < m.len() ==> m[i].0 != m[j].0
}

/// `m` with key `k` set to `v`: in place when `k` is there, at the end otherwise.
pub open spec fn put<V>(m: Seq<(Seq<char>, V)>, k: Seq<char>, v: V) -> Seq<(Seq<char>, V)> {
    if key_index(m, k) < 0 {
        m.push((k, v))
    } else {
        m.update(key_index(m, k), (k, v))
    }
}

pub(crate) proof fn lemma_key_index<V>(m: Seq<(Seq<char>, V)>, k: Seq<char>, i: int)
    requires
        -1 <= i < m.len(),
        i >= 0 ==> m[i].0 == k,
        forall|j: int| 0 <= j < m.len() && (i < 0 || j < i) ==> m[j].0 != k,
    ensures
        key_index(m, k) == i,
    decreases m.len(),
{
    if m.len() > 0 {
        if i == m.len() - 1 {
            lemma_key_index(m.drop_last(), k, -1);
        } else {
            lemma_key_index(m.drop_last(), k, i);
        }
    }
}

/// The values of a list of text pairs.
pub open spec fn pairs_view(v: Seq<(String, String)>) -> Seq<(Seq<char>, Seq<char>)> {
    v.map_values(|p: (String, String)| (p.0@, p.1@))
}

/// Position of key `k` in a list of text pairs.
pub fn find_pair(m: &Vec<(String, String)>, k: &String) -> (r: Option<usize>)
    ensures
        match r {
            Some(i) => i < m.len() && key_index(pairs_view(m@), k@) == i,
            None => key_index(pairs_view(m@), k@) == -1,
        },
{
    let ghost mv = pairs_view(m@);
    let mut i: usize = 0;
    while i < m.len()
        invariant
            i <= m.len(),
            mv == pairs_view(m@),
            forall|j: int| 0 <= j < i ==> mv[j].0 != k@,
        decreases m.len() - i,
    {
        if m[i].0 == *k {
            proof {
                lemma_key_index(mv, k@, i as int);
            }
            return Some(i);
        }
        i = i + 1;
    }
    proof {
        lemma_key_index(mv, k@, -1);
    }
    None
}

/// The branch named by one line of `git for-each-ref --format='%(refname:short)
/// %(objectname)'` for the remote whose refs start with `prefix`: the text
/// before the last space minus the prefix, and the sha after it; `HEAD` and
/// empty names are skipped.
pub open spec fn branch_line(prefix: Seq<char>, line: Seq<char>) -> Option<(Seq<char>, Seq<char>)> {
    let l = trim(line);
    let sp = last_char_pos(l, ' ');
    if sp < 0 {
        None
    } else {
        let short = l.take(sp);
        let sha = l.skip(sp + 1);
        if !has_prefix(short, prefix) {
            None
        } else {
            let name = short.skip(prefix.len() as int);
            if name.len() == 0 || name == "HEAD"@ || has_suffix(name, "/HEAD"@) {
                None
            } else {
                Some((name, sha))
            }
        }
    }
}

/// The branches listed by the lines `ls`, later lines overriding earlier ones.
pub open spec fn branches_in(prefix: Seq<char>, ls: Seq<Seq<char>>) -> Seq<(Seq<char>, Seq<char>)>
    decreases ls.len(),
{
    if ls.len() == 0 {
        seq![]
    } else {
        let m = branches_in(prefix, ls.drop_last());
        match branch_line(prefix, ls.last()) {
            Some((n, sha)) => put(m, n, sha),
            None => m,
        }
    }
}

/// The remote branches (name, sha) listed in `stdout` for `remote`.
pub open spec fn remote_branches_of(remote: Seq<char>, stdout: Seq<char>) -> Seq<
    (Seq<char>, Seq<char>),
> {
    branches_in(remote + "/"@, lines(stdout))
}

proof fn lemma_put_unique<V>(m: Seq<(Seq<char>, V)>, k: Seq<char>, v: V)
    requires
        keys_unique(m),
    ensures
        keys_unique(put(m, k, v)),
{
    if key_index(m, k) < 0 {
        assert forall|j: int| 0 <= j < m.len() implies m[j].0 != k by {
            if m[j].0 == k {
                lemma_key_index_found(m, k, j);
            }
        }
    } else {
        lemma_key_index_range(m, k);
    }
}

proof fn lemma_key_index_range<V>(m: Seq<(Seq<char>, V)>, k: Seq<char>)
    ensures
        -1 <= key_index(m, k) < m.len(),
        key_index(m, k) >= 0 ==> m[key_index(m, k)].0 == k,
    decreases m.len(),
{
    if m.len() > 0 {
        lemma_key_index_range(m.drop_last(), k);
    }
}

proof fn lemma_key_index_found<V>(m: Seq<(Seq<char>, V)>, k: Seq<char>, j: int)
    requires
        0 <= j < m.len(),
        m[j].0 == k,
    ensures
        0 <= key_index(m, k) <= j,
    decreases m.len(),
{
    if j < m.len() - 1 {
        lemma_key_index_found(m.drop_last(), k, j);
    } else {
        lemma_key_index_range(m.drop_last(), k);
    }
}

proof fn lemma_branches_unique(prefix: Seq<char>, ls: Seq<Seq<char>>)
    ensures
        keys_unique(branches_in(prefix, ls)),
    decreases ls.len(),
{
    if ls.len() > 0 {
        lemma_branches_unique(prefix, ls.drop_last());
        let m = branches_in(prefix, ls.drop_last());
        match branch_line(prefix, ls.last()) {
            Some((n, sha)) => lemma_put_unique(m, n, sha),
            None => {},
        }
    }
}

/// Sets key `k` to `v` in a list of text pairs.
fn put_pair(m: &mut Vec<(String, String)>, k: String, v: String)
    ensures
        pairs_view(final(m)@) == put(pairs_view(old(m)@), k@, v@),
{
    let ghost kv = k@;
    let ghost vv = v@;
    match find_pair(m, &k) {
        Some(i) => {
            m.set(i, (k, v));
            proof {
                assert(pairs_view(m@) =~= pairs_view(old(m)@).update(i as int, (kv, vv)));
            }
        },
        None => {
            m.push((k, v));
            proof {
                assert(pairs_view(m@) =~= pairs_view(old(m)@).push((kv, vv)));
            }
        },
    }
}

/// Reads the branch listing of `remote` (`git for-each-ref` output).
pub fn parse_remote_branches(remote: &str, stdout: &str) -> (r: Vec<(String, String)>)
    ensures
        pairs_view(r@) == remote_branches_of(remote@, stdout@),
        keys_unique(pairs_view(r@)),
{
    let mut prefix = String::new();
    push_str(&mut prefix, remote);
    push_str(&mut prefix, "/");
    assert(prefix@ =~= remote@ + "/"@);
    let pv = chars_of(prefix.as_str());
    let headv = chars_of("/HEAD");
    let v = chars_of(stdout);
    let ls = lines_of(&v);
    let ghost lv = ls@.map_values(|l: Vec<char>| l@);
    let mut m: Vec<(String, String)> = Vec::new();
    let mut i: usize = 0;
    assert(pairs_view(m@) =~= branches_in(prefix@, lv.take(0)));
    while i < ls.len()
        invariant
            i <= ls.len(),
            lv == ls@.map_values(|l: Vec<char>| l@),
            pv@ == prefix@,
            headv@ == "/HEAD"@,
            pairs_view(m@) == branches_in(prefix@, lv.take(i as int)),
        decreases ls.len() - i,
    {
        proof {
            assert(lv.take(i + 1).drop_last() =~= lv.take(i as int));
            assert(lv.take(i + 1).last() == ls@[i as int]@);
        }
        let l = trim_chars(&ls[i]);
        match crate::text::rfind_char(&l, ' ') {
            None => {},
            Some(sp) => {
                let short = slice(&l, 0, sp);
                let sha = slice(&l, sp + 1, l.len());
                proof {
                    assert(short@ =~= l@.take(sp as int));
                    assert(sha@ =~= l@.skip(sp + 1));
                }
                if crate::text::starts_with(&short, &pv) {
                    let name = slice(&short, pv.len(), short.len());
                    proof {
                        assert(name@ =~= short@.skip(pv@.len() as int));
                        reveal_strlit("HEAD");
                    }
                    if !(name.len() == 0 || crate::text::eq_str(&name, "HEAD")
                        || crate::text::ends_with(&name, &headv)) {
                        put_pair(&mut m, string_of(&name), string_of(&sha));
                    }
                }
            },
        }
        i = i + 1;
    }
    assert(lv.take(ls.len() as int) =~= lv);
    proof {
        lemma_branches_unique(prefix@, lv);
    }
    m
}

/// A remote tag: `ref_sha` is what `refs/tags/<name>` points at (the tag
/// object for an annotated tag), `peeled` the commit it resolves to.
#[derive(Debug)]
pub struct TagRef {
    pub ref_sha: String,
    pub peeled: String,
}

pub struct TagRefView {
    pub ref_sha: Seq<char>,
    pub peeled: Seq<char>,
}

/// The values of a tag listing.
pub open spec fn tags_view(v: Seq<(String, TagRef)>) -> Seq<(Seq<char>, TagRefView)> {
    v.map_values(|p: (String, TagRef)| (p.0@, TagRefView { ref_sha: p.1.ref_sha@, peeled: p.1.peeled@ }))
}

/// The sha and tag name on one line of `git ls-remote --tags`: its first
/// two whitespace-separated fields, the second under `refs/tags/`.
pub open spec fn tag_line(line: Seq<char>) -> Option<(Seq<char>, Seq<char>)> {
    match first_token(line) {
        None => None,
        Some((sha, rest)) => match first_token(rest) {
            None => None,
            Some((refname, _)) => if has_prefix(refname, "refs/tags/"@) {
                Some((sha, refname.skip(10)))
            } else {
                None
            },
        },
    }
}

/// One tag line applied to a listing: a peeled line (`<name>^{}`) sets the
/// commit of `<name>` (adding the tag when it is not there yet); a plain line
/// adds the tag unless it is there already.
pub open spec fn tag_step(m: Seq<(Seq<char>, TagRefView)>, sha: Seq<char>, name: Seq<char>) -> Seq<
    (Seq<char>, TagRefView),
> {
    if has_suffix(name, "^{}"@) {
        let base = name.take(name.len() - 3);
        let i = key_index(m, base);
        if i < 0 {
            m.push((base, TagRefView { ref_sha: sha, peeled: sha }))
        } else {
            m.update(i, (base, TagRefView { ref_sha: m[i].1.ref_sha, peeled: sha }))
        }
    } else if key_index(m, name) < 0 {
        m.push((name, TagRefView { ref_sha: sha, peeled: sha }))
    } else {
        m
    }
}

/// The tags listed by the lines `ls`.
pub open spec fn tags_in(ls: Seq<Seq<char>>) -> Seq<(Seq<char>, TagRefView)>
    decreases ls.len(),
{
    if ls.len() == 0 {
        seq![]
    } else {
        let m = tags_in(ls.drop_last());
        match tag_line(ls.last()) {
            Some((sha, name)) => tag_step(m, sha, name),
            None => m,
        }
    }
}

/// The tags that `git ls-remote --tags` printed.
pub open spec fn remote_tags_of(stdout: Seq<char>) -> Seq<(Seq<char>, TagRefView)> {
    tags_in(lines(stdout))
}

pub fn find_tag(m: &Vec<(String, TagRef)>, k: &Vec<char>) -> (r: Option<usize>)
    ensures
        match r {
            Some(i) => i < m.len() && key_index(tags_view(m@), k@) == i,
            None => key_index(tags_view(m@), k@) == -1,
        },
{
    let ghost mv = tags_view(m@);
    let mut i: usize = 0;
    while i < m.len()
        invariant
            i <= m.len(),
            mv == tags_view(m@),
            forall|j: int| 0 <= j < i ==> mv[j].0 != k@,
        decreases m.len() - i,
    {
        let key = chars_of(m[i].0.as_str());
        if crate::text::chars_eq(&key, k) {
            proof {
                lemma_key_index(mv, k@, i as int);
            }
            return Some(i);
        }
        i = i + 1;
    }
    proof {
        lemma_key_index(mv, k@, -1);
    }
    None
}

proof fn lemma_tags_unique(ls: Seq<Seq<char>>)
    ensures
        keys_unique(tags_in(ls)),
    decreases ls.len(),
{
    if ls.len() > 0 {
        lemma_tags_unique(ls.drop_last());
        let m = tags_in(ls.drop_last());
        match tag_line(ls.last()) {
            Some((sha, name)) => {
                if has_suffix(name, "^{}"@) {
                    let base = name.take(name.len() - 3);
                    lemma_put_unique(m, base, TagRefView { ref_sha: sha, peeled: sha });
                    lemma_key_index_range(m, base);
                    if key_index(m, base) >= 0 {
                        let i = key_index(m, base);
                        lemma_put_unique(m, base, TagRefView { ref_sha: m[i].1.ref_sha, peeled: sha });
                    }
                } else {
                    lemma_put_unique(m, name, TagRefView { ref_sha: sha, peeled: sha });
                }
            },
            None => {},
        }
    }
}

/// Reads the tags of a remote (`git ls-remote --tags` output).
pub fn parse_remote_tags(stdout: &str) -> (r: Vec<(String, TagRef)>)
    ensures
        tags_view(r@) == remote_tags_of(stdout@),
        keys_unique(tags_view(r@)),
{
    let v = chars_of(stdout);
    let ls = lines_of(&v);
    let ghost lv = ls@.map_values(|l: Vec<char>| l@);
    let prefix = chars_of("refs/tags/");
    let peel = chars_of("^{}");
    let mut m: Vec<(String, TagRef)> = Vec::new();
    let mut i: usize = 0;
    assert(tags_view(m@) =~= tags_in(lv.take(0)));
    while i < ls.len()
        invariant
            i <= ls.len(),
            lv == ls@.map_values(|l: Vec<char>| l@),
            prefix@ == "refs/tags/"@,
            peel@ == "^{}"@,
            tags_view(m@) == tags_in(lv.take(i as int)),
        decreases ls.len() - i,
    {
        proof {
            assert(lv.take(i + 1).drop_last() =~= lv.take(i as int));
            assert(lv.take(i + 1).last() == ls@[i as int]@);
            reveal_strlit("refs/tags/");
            reveal_strlit("^{}");
        }
        let ghost before = tags_view(m@);
        match crate::text::split_first_token(&ls[i]) {
            None => {},
            Some((sha, rest)) => {
                match crate::text::split_first_token(&rest) {
                    None => {},
                    Some((refname, _tail)) => {
                        if crate::text::starts_with(&refname, &prefix) {
                            let name = slice(&refname, 10, refname.len());
                            assert(name@ =~= refname@.skip(10));
                            if crate::text::ends_with(&name, &peel) {
                                let base = slice(&name, 0, name.len() - 3);
                                assert(base@ =~= name@.take(name@.len() - 3));
                                match find_tag(&m, &base) {
                                    Some(j) => {
                                        let old_ref = m[j].1.ref_sha.clone();
                                        let entry = (
                                            string_of(&base),
                                            TagRef { ref_sha: old_ref, peeled: string_of(&sha) },
                                        );
                                        m.set(j, entry);
                                        proof {
                                            assert(tags_view(m@) =~= tag_step(before, sha@, name@));
                                        }
                                    },
                                    None => {
                                        m.push(
                                            (
                                                string_of(&base),
                                                TagRef {
                                                    ref_sha: string_of(&sha),
                                                    peeled: string_of(&sha),
                                                },
                                            ),
                                        );
                                        proof {
                                            assert(tags_view(m@) =~= tag_step(before, sha@, name@));
                                        }
                                    },
                                }
                            } else {
                                match find_tag(&m, &name) {
                                    Some(_) => {},
                                    None => {
                                        m.push(
                                            (
                                                string_of(&name),
                                                TagRef {
                                                    ref_sha: string_of(&sha),
                                                    peeled: string_of(&sha),
                                                },
                                            ),
                                        );
                                        proof {
                                            assert(tags_view(m@) =~= tag_step(before, sha@, name@));
                                        }
                                    },
                                }
                            }
                        }
                    },
                }
            },
        }
        i = i + 1;
    }
    assert(lv.take(ls.len() as int) =~= lv);
    proof {
        lemma_tags_unique(lv);
    }
    m
}

// ---------------------------------------------------------------------------
// The result of one git command, and what each one adds to a sync
// ---------------------------------------------------------------------------

/// How a git command that exited ended.
#[derive(Debug)]
pub struct GitExit {
    /// The exit code (none when a signal ended the process).
    pub code: Option<i32>,
    pub stdout: String,
    pub stderr: String,
}

/// The outcome of running a git command.
#[derive(Debug)]
pub enum GitOutcome {
    /// git could not be started; the system's reason.
    NotStarted(String),
    Exited(GitExit),
}

/// The command succeeded (exit code 0).
pub open spec fn succeeded(o: GitOutcome) -> bool {
    match o {
        GitOutcome::Exited(x) => x.code == Some(0i32),
        GitOutcome::NotStarted(_) => false,
    }
}

/// The message for a git that could not be started.
pub open spec fn spawn_message(e: Seq<char>) -> Seq<char> {
    "git 命令启动失败："@ + e + "。请确认系统已安装 git。"@
}

pub fn spawn_error_message(e: &str) -> (r: String)
    ensures
        r@ == spawn_message(e@),
{
    let mut r = String::new();
    push_str(&mut r, "git 命令启动失败：");
    push_str(&mut r, e);
    push_str(&mut r, "。请确认系统已安装 git。");
    assert(Seq::<char>::empty() + "git 命令启动失败："@ =~= "git 命令启动失败："@);
    r
}

/// What a failed fetch of `remote` reports, or none when it succeeded.
pub open spec fn fetch_failure(remote: Seq<char>, o: GitOutcome) -> Option<Seq<char>> {
    match o {
        GitOutcome::NotStarted(e) => Some(spawn_message(e@)),
        GitOutcome::Exited(x) => if x.code == Some(0i32) {
            None
        } else {
            Some(git_error_message(remote, x.stderr@))
        },
    }
}

/// What a failed fetch of `remote` reports.
pub fn fetch_error(remote: &str, o: &GitOutcome) -> (r: Option<String>)
    ensures
        opt_text(r) == fetch_failure(remote@, *o),
{
    match o {
        GitOutcome::NotStarted(e) => Some(spawn_error_message(e.as_str())),
        GitOutcome::Exited(x) => {
            if x.code == Some(0i32) {
                None
            } else {
                Some(classify_git_error(remote, x.stderr.as_str()))
            }
        },
    }
}

/// What `git merge-base --is-ancestor` answered: exit 0 is yes, exit 1 is
/// no, anything else is unknown.
pub open spec fn ancestry_of(o: GitOutcome) -> Option<bool> {
    match o {
        GitOutcome::Exited(x) => if x.code == Some(0i32) {
            Some(true)
        } else if x.code == Some(1i32) {
            Some(false)
        } else {
            None
        },
        GitOutcome::NotStarted(_) => None,
    }
}

pub fn ancestry(o: &GitOutcome) -> (r: Option<bool>)
    ensures
        r == ancestry_of(*o),
{
    match o {
        GitOutcome::Exited(x) => {
            if x.code == Some(0i32) {
                Some(true)
            } else if x.code == Some(1i32) {
                Some(false)
            } else {
                None
            }
        },
        GitOutcome::NotStarted(_) => None,
    }
}

/// The trimmed output of a git command that succeeded.
pub open spec fn stdout_of(o: GitOutcome) -> Option<Seq<char>> {
    match o {
        GitOutcome::Exited(x) => if x.code == Some(0i32) {
            Some(trim(x.stdout@))
        } else {
            None
        },
        GitOutcome::NotStarted(_) => None,
    }
}

pub fn trimmed_stdout(o: &GitOutcome) -> (r: Option<String>)
    ensures
        opt_text(r) == stdout_of(*o),
{
    match o {
        GitOutcome::Exited(x) => {
            if x.code == Some(0i32) {
                let v = chars_of(x.stdout.as_str());
                let t = trim_chars(&v);
                Some(string_of(&t))
            } else {
                None
            }
        },
        GitOutcome::NotStarted(_) => None,
    }
}

/// The tally of one sync run.
#[derive(Debug)]
pub struct Acc {
    pub pushed: u32,
    /// Refs deleted in mirror mode.
    pub deleted: u32,
    pub conflicts: Vec<RefConflict>,
    pub errors: Vec<String>,
    /// The local branch has diverged from a remote: the repository is in
    /// conflict, but no entry of `conflicts` can settle it.
    pub diverged: bool,
}

pub struct AccView {
    pub pushed: u32,
    pub deleted: u32,
    pub conflicts: Seq<RefConflictView>,
    pub errors: Seq<Seq<char>>,
    pub diverged: bool,
}

impl View for Acc {
    type V = AccView;

    open spec fn view(&self) -> AccView {
        AccView {
            pushed: self.pushed,
            deleted: self.deleted,
            conflicts: conflicts_view(self.conflicts@),
            errors: self.errors@.map_values(|e: String| e@),
            diverged: self.diverged,
        }
    }
}

/// `n + 1`, held at the largest value.
pub open spec fn plus_one(n: u32) -> u32 {
    if n < u32::MAX {
        (n + 1) as u32
    } else {
        n
    }
}

pub open spec fn with_error(a: AccView, m: Seq<char>) -> AccView {
    AccView { errors: a.errors.push(m), ..a }
}

/// A successful push counts unless git reported nothing to do.
pub open spec fn count_push(a: AccView, stderr: Seq<char>) -> AccView {
    if has_infix(stderr, "Everything up-to-date"@) {
        a
    } else {
        AccView { pushed: plus_one(a.pushed), ..a }
    }
}

pub open spec fn local_diverged_message(remote: Seq<char>, branch: Seq<char>) -> Seq<char> {
    "本地分支 "@ + branch + " 与 "@ + remote + " 分叉，请手动合并后重试"@
}

/// The local branch has diverged from `remote`: conflict, with the message
/// recorded once.
pub open spec fn local_diverged(a: AccView, remote: Seq<char>, branch: Seq<char>) -> AccView {
    let m = local_diverged_message(remote, branch);
    AccView {
        diverged: true,
        errors: if a.errors.contains(m) {
            a.errors
        } else {
            a.errors.push(m)
        },
        ..a
    }
}

/// Some conflict already stands on the ref.
pub open spec fn has_conflict(cs: Seq<RefConflictView>, kind: RefKind, name: Seq<char>) -> bool {
    exists|i: int| 0 <= i < cs.len() && #[trigger] cs[i].kind == kind && cs[i].name == name
}

/// A conflict on a ref recorded once per ref, the shas assigned to the
/// platforms by the side that was the source.
pub open spec fn with_conflict(
    a: AccView,
    kind: RefKind,
    name: Seq<char>,
    src_side: Side,
    src_sha: Seq<char>,
    dst_sha: Seq<char>,
) -> AccView {
    if has_conflict(a.conflicts, kind, name) {
        a
    } else {
        let (gh, ge) = match src_side {
            Side::Github => (src_sha, dst_sha),
            Side::Gitee => (dst_sha, src_sha),
        };
        AccView {
            conflicts: a.conflicts.push(
                RefConflictView {
                    kind,
                    name,
                    github_sha: short_sha_of(gh),
                    gitee_sha: short_sha_of(ge),
                },
            ),
            ..a
        }
    }
}

pub open spec fn rejected_message(remote: Seq<char>, name: Seq<char>) -> Seq<char> {
    remote + " 的 "@ + name + " push 被拒：远端已变化，请重新同步"@
}

/// What pushing the local branch to `remote` adds.
pub open spec fn after_local_push(a: AccView, remote: Seq<char>, branch: Seq<char>, o: GitOutcome) -> AccView {
    match o {
        GitOutcome::NotStarted(e) => with_error(a, spawn_message(e@)),
        GitOutcome::Exited(x) => if x.code == Some(0i32) {
            count_push(a, x.stderr@)
        } else if has_infix(x.stderr@, "[rejected]"@) {
            local_diverged(a, remote, branch)
        } else {
            with_error(a, git_error_message(remote, x.stderr@))
        },
    }
}

/// What `git pull --ff-only` from `remote` adds.
pub open spec fn after_pull(a: AccView, remote: Seq<char>, branch: Seq<char>, o: GitOutcome) -> AccView {
    match o {
        GitOutcome::NotStarted(e) => with_error(a, spawn_message(e@)),
        GitOutcome::Exited(x) => if x.code == Some(0i32) {
            a
        } else if has_infix(x.stderr@, "Not possible to fast-forward"@) {
            local_diverged(a, remote, branch)
        } else {
            with_error(a, git_error_message(remote, x.stderr@))
        },
    }
}

/// What pushing `sha` to a ref of `remote` adds. A push rejected because the
/// remote moved since the fetch is a conflict on a branch whose destination
/// sha was known, and otherwise a divergence to sync again.
pub open spec fn after_push(
    a: AccView,
    remote: Seq<char>,
    sha: Seq<char>,
    kind: RefKind,
    name: Seq<char>,
    src_side: Side,
    dst_sha: Option<Seq<char>>,
    o: GitOutcome,
) -> AccView {
    match o {
        GitOutcome::NotStarted(e) => with_error(a, spawn_message(e@)),
        GitOutcome::Exited(x) => if x.code == Some(0i32) {
            count_push(a, x.stderr@)
        } else if has_infix(x.stderr@, "[rejected]"@) && kind == RefKind::Branch {
            match dst_sha {
                Some(d) => with_conflict(a, kind, name, src_side, sha, d),
                None => AccView {
                    diverged: true,
                    errors: a.errors.push(rejected_message(remote, name)),
                    ..a
                },
            }
        } else {
            with_error(a, git_error_message(remote, x.stderr@))
        },
    }
}

/// What deleting a ref of `remote` adds.
pub open spec fn after_delete(a: AccView, remote: Seq<char>, o: GitOutcome) -> AccView {
    match o {
        GitOutcome::NotStarted(e) => with_error(a, spawn_message(e@)),
        GitOutcome::Exited(x) => if x.code == Some(0i32) {
            AccView { deleted: plus_one(a.deleted), ..a }
        } else {
            with_error(a, git_error_message(remote, x.stderr@))
        },
    }
}

impl Acc {
    /// Nothing pushed, deleted or found yet.
    pub fn new() -> (r: Acc)
        ensures
            r@.pushed == 0,
            r@.deleted == 0,
            r@.conflicts.len() == 0,
            r@.errors.len() == 0,
            !r@.diverged,
    {
        Acc { pushed: 0, deleted: 0, conflicts: Vec::new(), errors: Vec::new(), diverged: false }
    }

    pub fn note_error(&mut self, m: String)
        ensures
            final(self)@ == with_error(old(self)@, m@),
    {
        let ghost e = m@;
        self.errors.push(m);
        assert(self@.errors =~= old(self)@.errors.push(e));
    }

    fn count_pushed(&mut self, stderr: &str)
        ensures
            final(self)@ == count_push(old(self)@, stderr@),
    {
        let v = chars_of(stderr);
        if !str_contains(&v, "Everything up-to-date") {
            self.pushed = self.pushed.saturating_add(1);
        }
        assert(self@.errors =~= old(self)@.errors);
    }

    /// Records that the local branch diverged from `remote`.
    pub fn mark_local_diverged(&mut self, remote: &str, branch: &str)
        ensures
            final(self)@ == local_diverged(old(self)@, remote@, branch@),
    {
        self.diverged = true;
        let mut m = String::new();
        push_str(&mut m, "本地分支 ");
        push_str(&mut m, branch);
        push_str(&mut m, " 与 ");
        push_str(&mut m, remote);
        push_str(&mut m, " 分叉，请手动合并后重试");
        assert(m@ =~= local_diverged_message(remote@, branch@));
        let ghost ev = self@.errors;
        let mut found = false;
        let mut i: usize = 0;
        while i < self.errors.len()
            invariant
                i <= self.errors.len(),
                ev == self.errors@.map_values(|e: String| e@),
                found == exists|j: int| 0 <= j < i && ev[j] == m@,
            decreases self.errors.len() - i,
        {
            assert(ev[i as int] == self.errors@[i as int]@);
            if self.errors[i] == m {
                found = true;
            }
            assert(found == exists|j: int| 0 <= j < i + 1 && ev[j] == m@);
            i = i + 1;
        }
        if !found {
            self.errors.push(m);
            assert(self@.errors =~= ev.push(local_diverged_message(remote@, branch@)));
        } else {
            assert(ev.contains(local_diverged_message(remote@, branch@)));
        }
    }

    /// Records a conflict on a ref, once per ref.
    pub fn add_conflict(
        &mut self,
        kind: RefKind,
        name: &str,
        src_side: Side,
        src_sha: &str,
        dst_sha: &str,
    )
        ensures
            final(self)@ == with_conflict(old(self)@, kind, name@, src_side, src_sha@, dst_sha@),
    {
        let nv = chars_of(name);
        let ghost cs = self@.conflicts;
        let mut i: usize = 0;
        while i < self.conflicts.len()
            invariant
                i <= self.conflicts.len(),
                cs == conflicts_view(self.conflicts@),
                nv@ == name@,
                forall|j: int| 0 <= j < i ==> !(cs[j].kind == kind && cs[j].name == name@),
            decreases self.conflicts.len() - i,
        {
            let cn = chars_of(self.conflicts[i].name.as_str());
            if self.conflicts[i].kind == kind && crate::text::chars_eq(&cn, &nv) {
                assert(cs[i as int].kind == kind && cs[i as int].name == name@);
                return;
            }
            i = i + 1;
        }
        let (gh, ge) = match src_side {
            Side::Github => (src_sha, dst_sha),
            Side::Gitee => (dst_sha, src_sha),
        };
        let c = RefConflict {
            kind,
            name: string_of(&nv),
            github_sha: short_sha(gh),
            gitee_sha: short_sha(ge),
        };
        let ghost cv = c@;
        self.conflicts.push(c);
        assert(self@.conflicts =~= cs.push(cv));
    }

    /// Adds the outcome of pushing the local branch to `remote`.
    pub fn local_push_done(&mut self, remote: &str, branch: &str, o: &GitOutcome)
        ensures
            final(self)@ == after_local_push(old(self)@, remote@, branch@, *o),
    {
        match o {
            GitOutcome::NotStarted(e) => self.note_error(spawn_error_message(e.as_str())),
            GitOutcome::Exited(x) => {
                if x.code == Some(0i32) {
                    self.count_pushed(x.stderr.as_str());
                } else {
                    let v = chars_of(x.stderr.as_str());
                    if str_contains(&v, "[rejected]") {
                        self.mark_local_diverged(remote, branch);
                    } else {
                        self.note_error(classify_git_error(remote, x.stderr.as_str()));
                    }
                }
            },
        }
    }

    /// Adds the outcome of `git pull --ff-only` from `remote`.
    pub fn pull_done(&mut self, remote: &str, branch: &str, o: &GitOutcome)
        ensures
            final(self)@ == after_pull(old(self)@, remote@, branch@, *o),
    {
        match o {
            GitOutcome::NotStarted(e) => self.note_error(spawn_error_message(e.as_str())),
            GitOutcome::Exited(x) => {
                if x.code == Some(0i32) {
                } else {
                    let v = chars_of(x.stderr.as_str());
                    if str_contains(&v, "Not possible to fast-forward") {
                        self.mark_local_diverged(remote, branch);
                    } else {
                        self.note_error(classify_git_error(remote, x.stderr.as_str()));
                    }
                }
            },
        }
    }

    /// Adds the outcome of pushing `sha` to a ref of `remote`.
    pub fn push_done(
        &mut self,
        remote: &str,
        sha: &str,
        kind: RefKind,
        name: &str,
        src_side: Side,
        dst_sha: Option<&str>,
        o: &GitOutcome,
    )
        ensures
            final(self)@ == after_push(
                old(self)@,
                remote@,
                sha@,
                kind,
                name@,
                src_side,
                match dst_sha {
                    Some(d) => Some(d@),
                    None => None,
                },
                *o,
            ),
    {
        match o {
            GitOutcome::NotStarted(e) => self.note_error(spawn_error_message(e.as_str())),
            GitOutcome::Exited(x) => {
                if x.code == Some(0i32) {
                    self.count_pushed(x.stderr.as_str());
                } else {
                    let v = chars_of(x.stderr.as_str());
                    if str_contains(&v, "[rejected]") && kind == RefKind::Branch {
                        match dst_sha {
                            Some(d) => self.add_conflict(kind, name, src_side, sha, d),
                            None => {
                                self.diverged = true;
                                let mut m = String::new();
                                push_str(&mut m, remote);
                                push_str(&mut m, " 的 ");
                                push_str(&mut m, name);
                                push_str(&mut m, " push 被拒：远端已变化，请重新同步");
                                assert(m@ =~= rejected_message(remote@, name@));
                                let ghost ev = self@.errors;
                                self.errors.push(m);
                                assert(self@.errors =~= ev.push(rejected_message(remote@, name@)));
                            },
                        }
                    } else {
                        self.note_error(classify_git_error(remote, x.stderr.as_str()));
                    }
                }
            },
        }
    }

    /// Adds the outcome of deleting a ref of `remote`.
    pub fn delete_done(&mut self, remote: &str, o: &GitOutcome)
        ensures
            final(self)@ == after_delete(old(self)@, remote@, *o),
    {
        match o {
            GitOutcome::NotStarted(e) => self.note_error(spawn_error_message(e.as_str())),
            GitOutcome::Exited(x) => {
                if x.code == Some(0i32) {
                    self.deleted = self.deleted.saturating_add(1);
                    assert(self@.errors =~= old(self)@.errors);
                } else {
                    self.note_error(classify_git_error(remote, x.stderr.as_str()));
                }
            },
        }
    }
}

/// The status a sync ends in: conflict over error, synced only when clean.
pub open spec fn final_status(a: AccView) -> SyncStatus {
    if a.conflicts.len() > 0 || a.diverged {
        SyncStatus::Conflict
    } else if a.errors.len() > 0 {
        SyncStatus::Error
    } else {
        SyncStatus::Synced
    }
}

/// The state a sync ends in at time `now`.
pub open spec fn finished(a: AccView, now: i64) -> RepoSyncStateView {
    RepoSyncStateView {
        status: final_status(a),
        last_synced: if final_status(a) == SyncStatus::Synced {
            Some(now)
        } else {
            None
        },
        pushed_refs: a.pushed,
        deleted_refs: a.deleted,
        error: if a.errors.len() == 0 {
            None
        } else {
            Some(join_with(a.errors, "；"@))
        },
        conflicts: a.conflicts,
    }
}

/// A sync ends synced exactly when it found no conflict, no divergence and
/// no error; a conflict outranks an error; only a synced repository gets a
/// sync time.
pub proof fn lemma_finish_status(a: AccView, now: i64)
    ensures
        (finished(a, now).status == SyncStatus::Synced) == (a.conflicts.len() == 0 && !a.diverged
            && a.errors.len() == 0),
        (a.conflicts.len() > 0 || a.diverged) ==> finished(a, now).status == SyncStatus::Conflict,
        (a.conflicts.len() == 0 && !a.diverged && a.errors.len() > 0) ==> finished(a, now).status
            == SyncStatus::Error,
        (finished(a, now).last_synced is Some) == (finished(a, now).status == SyncStatus::Synced),
        finished(a, now).status == SyncStatus::Synced ==> finished(a, now).last_synced == Some(now),
        (finished(a, now).error is None) == (a.errors.len() == 0),
        finished(a, now).conflicts == a.conflicts,
{
}

/// Sums up a sync run finishing at `now`.
pub fn finish(acc: Acc, now: i64) -> (r: RepoSyncState)
    ensures
        r@ == finished(acc@, now),
{
    let status = if acc.conflicts.len() > 0 || acc.diverged {
        SyncStatus::Conflict
    } else if acc.errors.len() > 0 {
        SyncStatus::Error
    } else {
        SyncStatus::Synced
    };
    let last_synced = if status == SyncStatus::Synced {
        Some(now)
    } else {
        None
    };
    let error = if acc.errors.len() == 0 {
        None
    } else {
        Some(join_strings(&acc.errors, "；"))
    };
    RepoSyncState {
        status,
        last_synced,
        pushed_refs: acc.pushed,
        deleted_refs: acc.deleted,
        error,
        conflicts: acc.conflicts,
    }
}

} // verus!
