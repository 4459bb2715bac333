//! Configuration model: repositories, their remotes and sync direction,
//! scan settings and platform accounts, and the paths the app keeps them at.
use vstd::prelude::*;

use crate::text::{chars_of, has_infix, has_prefix, has_suffix, push_chars, push_str, string_of};

verus! {

#[derive(Debug, Clone, Copy, PartialEq, Eq, Structural)]
pub enum Direction {
    GithubToGitee,
    GiteeToGithub,
    Both,
}

#[derive(Debug, Clone, Copy, PartialEq, Eq, Structural)]
pub enum HostKind {
    Github,
    Gitee,
    Other,
}

#[derive(Debug, Clone, Copy, PartialEq, Eq, Structural)]
pub enum RepoKind {
    GithubOnly,
    GiteeOnly,
    Both,
    /// Neither platform among the remotes.
    Neither,
}

#[derive(Debug)]
pub struct RemoteInfo {
    pub name: String,
    pub url: String,
    pub host: HostKind,
}

/// A remote as a value: its name, its URL and the platform of its host.
pub struct RemoteInfoView {
    pub name: Seq<char>,
    pub url: Seq<char>,
    pub host: HostKind,
}

impl View for RemoteInfo {
    type V = RemoteInfoView;

    open spec fn view(&self) -> RemoteInfoView {
        RemoteInfoView { name: self.name@, url: self.url@, host: self.host }
    }
}

impl Clone for RemoteInfo {
    fn clone(&self) -> (r: Self)
        ensures
            r@ == self@,
    {
        RemoteInfo { name: self.name.clone(), url: self.url.clone(), host: self.host }
    }
}

/// The values of a list of remotes.
pub open spec fn remotes_view(v: Seq<RemoteInfo>) -> Seq<RemoteInfoView> {
    v.map_values(|r: RemoteInfo| r@)
}

#[derive(Debug)]
pub struct RepoEntry {
    /// The repository's root directory.
    pub path: String,
    pub enabled: bool,
    pub direction: Direction,
    pub remotes: Vec<RemoteInfo>,
    pub kind: RepoKind,
    /// Mirror mode: deletions of branches and tags are carried to the other side.
    pub mirror_delete: bool,
}

pub struct RepoEntryView {
    pub path: Seq<char>,
    pub enabled: bool,
    pub direction: Direction,
    pub remotes: Seq<RemoteInfoView>,
    pub kind: RepoKind,
    pub mirror_delete: bool,
}

impl View for RepoEntry {
    type V = RepoEntryView;

    open spec fn view(&self) -> RepoEntryView {
        RepoEntryView {
            path: self.path@,
            enabled: self.enabled,
            direction: self.direction,
            remotes: remotes_view(self.remotes@),
            kind: self.kind,
            mirror_delete: self.mirror_delete,
        }
    }
}

/// A copy of a list of remotes.
pub fn clone_remotes(v: &Vec<RemoteInfo>) -> (r: Vec<RemoteInfo>)
    ensures
        remotes_view(r@) == remotes_view(v@),
{
    let r = v.clone();
    proof {
        assert forall|i: int| 0 <= i < r@.len() implies #[trigger] r@[i]@ == v@[i]@ by {
            assert(cloned::<RemoteInfo>(v[i], r[i]));
        }
        assert(remotes_view(r@) =~= remotes_view(v@));
    }
    r
}

impl Clone for RepoEntry {
    fn clone(&self) -> (r: Self)
        ensures
            r@ == self@,
    {
        RepoEntry {
            path: self.path.clone(),
            enabled: self.enabled,
            direction: self.direction,
            remotes: clone_remotes(&self.remotes),
            kind: self.kind,
            mirror_delete: self.mirror_delete,
        }
    }
}

// ---------------------------------------------------------------------------
// Paths
// ---------------------------------------------------------------------------

/// `base` joined with `rel` as `Path::join` joins them on Unix: an absolute
/// `rel` replaces `base`; otherwise a `/` separates them unless `base` is
/// empty or already ends with one.
pub open spec fn join_path(base: Seq<char>, rel: Seq<char>) -> Seq<char> {
    if rel.len() > 0 && rel[0] == '/' {
        rel
    } else if base.len() == 0 {
        rel
    } else if base.last() == '/' {
        base + rel
    } else {
        base + seq!['/'] + rel
    }
}

pub fn join(base: &str, rel: &str) -> (r: String)
    ensures
        r@ == join_path(base@, rel@),
{
    let b = chars_of(base);
    let t = chars_of(rel);
    if t.len() > 0 && t[0] == '/' {
        return string_of(&t);
    }
    let mut s = string_of(&b);
    if b.len() > 0 && b[b.len() - 1] != '/' {
        push_str(&mut s, "/");
        proof {
            reveal_strlit("/");
        }
    }
    push_chars(&mut s, &t);
    proof {
        if b@.len() > 0 {
            assert(b@.last() == b@[b@.len() - 1]);
        }
    }
    s
}

/// Whether two different texts name the same path to `std::path::Path`'s
/// `==` on the platform the library is built for.
pub uninterp spec fn path_eq_of(a: Seq<char>, b: Seq<char>) -> bool;

/// A path written in one way only: not empty, no `\` or `:`, no doubled
/// or trailing `/`, and no `.` component. Its components are then exactly
/// its `/`-separated parts, after a leading `/` for the root.
pub open spec fn plain_path(p: Seq<char>) -> bool {
    &&& p.len() > 0
    &&& !p.contains('\\')
    &&& !p.contains(':')
    &&& p.last() != '/'
    &&& !has_infix(p, "//"@)
    &&& !has_infix(p, "/./"@)
    &&& !has_prefix(p, "./"@)
    &&& !has_suffix(p, "/."@)
    &&& p != "."@
}

/// Whether `a` and `b` name the same path: the same text, or, when one of
/// them is not a plain path, texts that `std::path::Path`'s `==` takes for
/// the same path.
pub open spec fn same_path_of(a: Seq<char>, b: Seq<char>) -> bool {
    a == b || (!(plain_path(a) && plain_path(b)) && path_eq_of(a, b))
}

/// Whether `a` and `b` are the same path, from `==` on `std::path::Path`,
/// which compares paths component by component (so a trailing `/`, a
/// doubled `/` or an inner `.` make no difference). The contract claims
/// that equal text is the same path and that two different plain paths
/// (whose components are their `/`-separated parts) are not; the answer for
/// other texts is named `path_eq_of`, and how they are split into
/// components is not restated.
#[verifier::external_body]
pub(crate) fn same_path(a: &str, b: &str) -> (r: bool)
    ensures
        r == (a@ == b@ || (!(plain_path(a@) && plain_path(b@)) && path_eq_of(a@, b@))),
{
    std::path::Path::new(a) == std::path::Path::new(b)
}

/// Index of the first entry of `m` whose path is the same path as `p`, or -1.
pub open spec fn path_index<V>(m: Seq<(Seq<char>, V)>, p: Seq<char>) -> int
    decreases m.len(),
{
    if m.len() == 0 {
        -1
    } else if same_path_of(m.last().0, p) && path_index(m.drop_last(), p) < 0 {
        m.len() - 1
    } else {
        path_index(m.drop_last(), p)
    }
}

/// `m` with path `p` set to `v`: in place (the path stored first is kept)
/// when the same path is there, at the end otherwise.
pub open spec fn put_path<V>(m: Seq<(Seq<char>, V)>, p: Seq<char>, v: V) -> Seq<(Seq<char>, V)> {
    let i = path_index(m, p);
    if i < 0 {
        m.push((p, v))
    } else {
        m.update(i, (m[i].0, v))
    }
}

pub(crate) proof fn lemma_path_index<V>(m: Seq<(Seq<char>, V)>, p: Seq<char>, i: int)
    requires
        -1 <= i < m.len(),
        i >= 0 ==> same_path_of(m[i].0, p),
        forall|j: int| 0 <= j < m.len() && (i < 0 || j < i) ==> !same_path_of(#[trigger] m[j].0, p),
    ensures
        path_index(m, p) == i,
    decreases m.len(),
{
    if m.len() > 0 {
        if i == m.len() - 1 {
            lemma_path_index(m.drop_last(), p, -1);
        } else {
            lemma_path_index(m.drop_last(), p, i);
        }
    }
}

pub(crate) proof fn lemma_path_index_bounds<V>(m: Seq<(Seq<char>, V)>, p: Seq<char>)
    ensures
        -1 <= path_index(m, p) < m.len(),
        path_index(m, p) >= 0 ==> same_path_of(m[path_index(m, p)].0, p),
    decreases m.len(),
{
    if m.len() > 0 {
        lemma_path_index_bounds(m.drop_last(), p);
    }
}

/// Adding an entry at the end leaves a path found before where it was, and
/// finds a path found nowhere before at the new entry when it is the same
/// path as the new entry's.
pub(crate) proof fn lemma_path_index_push<V>(m: Seq<(Seq<char>, V)>, kv: (Seq<char>, V), p: Seq<char>)
    ensures
        path_index(m, p) >= 0 ==> path_index(m.push(kv), p) == path_index(m, p),
        path_index(m, p) < 0 ==> path_index(m.push(kv), p) == (if same_path_of(kv.0, p) {
            m.len() as int
        } else {
            -1
        }),
{
    lemma_path_index_bounds(m, p);
    assert(m.push(kv).drop_last() =~= m);
    assert(m.push(kv).last() == kv);
}

/// Lists with the same paths in the same order find a path at the same
/// place.
pub(crate) proof fn lemma_path_index_same_keys<V>(a: Seq<(Seq<char>, V)>, b: Seq<(Seq<char>, V)>, p: Seq<char>)
    requires
        a.len() == b.len(),
        forall|k: int| 0 <= k < a.len() ==> #[trigger] a[k].0 == b[k].0,
    ensures
        path_index(a, p) == path_index(b, p),
    decreases a.len(),
{
    if a.len() > 0 {
        lemma_path_index_same_keys(a.drop_last(), b.drop_last(), p);
    }
}

/// `m` comes from `t` by setting paths among `ps`: the entries of `t` keep
/// their paths and order at the front, the entries added after them are at
/// paths among `ps`, and an entry of `t` whose path is none of `ps` is as it
/// was.
pub open spec fn kept_apart<V>(t: Seq<(Seq<char>, V)>, m: Seq<(Seq<char>, V)>, ps: Seq<Seq<char>>) -> bool {
    &&& m.len() >= t.len()
    &&& forall|k: int| 0 <= k < t.len() ==> #[trigger] m[k].0 == t[k].0
    &&& forall|k: int| t.len() <= k < m.len() ==> ps.contains(#[trigger] m[k].0)
    &&& forall|k: int|
        0 <= k < t.len() && (forall|j: int| 0 <= j < ps.len() ==> !same_path_of(t[k].0, #[trigger] ps[j]))
            ==> #[trigger] m[k] == t[k]
}

/// A path is apart from the paths `ps` set on `t`: it is the same path as
/// none of them, and no path of `t` is the same path as it and one of them.
pub open spec fn path_apart<V>(t: Seq<(Seq<char>, V)>, q: Seq<char>, ps: Seq<Seq<char>>) -> bool {
    &&& forall|j: int| 0 <= j < ps.len() ==> !same_path_of(#[trigger] ps[j], q)
    &&& forall|k: int, j: int|
        0 <= k < t.len() && 0 <= j < ps.len() ==> !(same_path_of(#[trigger] t[k].0, q) && same_path_of(
            t[k].0,
            #[trigger] ps[j],
        ))
}

pub(crate) proof fn lemma_kept_apart_refl<V>(t: Seq<(Seq<char>, V)>)
    ensures
        kept_apart(t, t, seq![]),
{
}

/// Setting one more path keeps `kept_apart`.
pub(crate) proof fn lemma_kept_apart_put<V>(
    t: Seq<(Seq<char>, V)>,
    m: Seq<(Seq<char>, V)>,
    ps: Seq<Seq<char>>,
    p: Seq<char>,
    v: V,
)
    requires
        kept_apart(t, m, ps),
    ensures
        kept_apart(t, put_path(m, p, v), ps.push(p)),
{
    let m2 = put_path(m, p, v);
    let qs = ps.push(p);
    lemma_path_index_bounds(m, p);
    let i = path_index(m, p);
    assert forall|k: int| t.len() <= k < m2.len() implies qs.contains(#[trigger] m2[k].0) by {
        if k < m.len() {
            assert(ps.contains(m[k].0));
            let j = choose|j: int| 0 <= j < ps.len() && ps[j] == m[k].0;
            assert(m2[k].0 == m[k].0);
            assert(qs[j] == ps[j]);
        } else {
            assert(m2[k].0 == qs[ps.len() as int]);
        }
    }
    assert forall|k: int|
        0 <= k < t.len() && (forall|j: int| 0 <= j < qs.len() ==> !same_path_of(t[k].0, #[trigger] qs[j]))
            implies #[trigger] m2[k] == t[k] by {
        assert forall|j: int| 0 <= j < ps.len() implies !same_path_of(t[k].0, #[trigger] ps[j]) by {
            assert(qs[j] == ps[j]);
        }
        assert(!same_path_of(t[k].0, qs[ps.len() as int]));
        assert(m[k] == t[k]);
    }
    assert forall|k: int| 0 <= k < t.len() implies #[trigger] m2[k].0 == t[k].0 by {
        assert(m[k].0 == t[k].0);
    }
    assert(m2.len() >= m.len());
}

/// A path apart from the paths set is found where it was, with what it had.
pub(crate) proof fn lemma_kept_apart_finds<V>(
    t: Seq<(Seq<char>, V)>,
    m: Seq<(Seq<char>, V)>,
    ps: Seq<Seq<char>>,
    q: Seq<char>,
)
    requires
        kept_apart(t, m, ps),
        path_apart(t, q, ps),
    ensures
        path_index(m, q) == path_index(t, q),
        path_index(t, q) >= 0 ==> m[path_index(t, q)] == t[path_index(t, q)],
{
    lemma_path_index_bounds(t, q);
    let i = path_index(t, q);
    if i >= 0 {
        assert(same_path_of(t[i].0, q));
        assert forall|j: int| 0 <= j < ps.len() implies !same_path_of(t[i].0, #[trigger] ps[j]) by {}
        assert(m[i] == t[i]);
        assert forall|j: int| 0 <= j < m.len() && j < i implies !same_path_of(#[trigger] m[j].0, q) by {
            assert(m[j].0 == t[j].0);
            if same_path_of(t[j].0, q) {
                lemma_path_index_first(t, q, j);
            }
        }
        lemma_path_index(m, q, i);
    } else {
        assert forall|j: int| 0 <= j < m.len() implies !same_path_of(#[trigger] m[j].0, q) by {
            if j < t.len() {
                assert(m[j].0 == t[j].0);
                if same_path_of(t[j].0, q) {
                    lemma_path_index_first(t, q, j);
                }
            } else {
                assert(ps.contains(m[j].0));
                let l = choose|l: int| 0 <= l < ps.len() && ps[l] == m[j].0;
            }
        }
        lemma_path_index(m, q, -1);
    }
}

/// A path that matches entry `j` is found at `j` or before.
pub(crate) proof fn lemma_path_index_first<V>(m: Seq<(Seq<char>, V)>, p: Seq<char>, j: int)
    requires
        0 <= j < m.len(),
        same_path_of(m[j].0, p),
    ensures
        0 <= path_index(m, p) <= j,
    decreases m.len(),
{
    if j < m.len() - 1 {
        lemma_path_index_first(m.drop_last(), p, j);
    } else {
        lemma_path_index_bounds(m.drop_last(), p);
    }
}

/// The user's home directory, from `dirs::home_dir`, as text. It depends on
/// the environment and the user database, so nothing is claimed of it.
#[verifier::external_body]
pub(crate) fn home_dir() -> (r: Option<String>) {
    match dirs::home_dir() {
        Some(p) => Some(p.to_string_lossy().into_owned()),
        None => None,
    }
}

/// The platform's configuration directory, from `dirs::config_dir`, as text.
/// It depends on the environment, so nothing is claimed of it.
#[verifier::external_body]
fn config_dir() -> (r: Option<String>) {
    match dirs::config_dir() {
        Some(p) => Some(p.to_string_lossy().into_owned()),
        None => None,
    }
}

/// Whether `p` names an existing directory at the time of the call, from
/// `std::path::Path::is_dir`. What is on disk is not modeled, so nothing is
/// claimed of the answer.
#[verifier::external_body]
pub(crate) fn is_dir(p: &str) -> (r: bool) {
    std::path::Path::new(p).is_dir()
}

/// Where the configuration file lives: `gitferry/config.json` under the
/// platform's configuration directory, or under `.` when there is none.
pub open spec fn config_path_in(dir: Option<Seq<char>>) -> Seq<char> {
    join_path(
        match dir {
            Some(d) => d,
            None => "."@,
        },
        "gitferry/config.json"@,
    )
}

/// The configuration file's path for a given configuration directory.
pub fn config_path_for(dir: Option<String>) -> (r: String)
    ensures
        r@ == config_path_in(opt_view(dir)),
{
    match dir {
        Some(d) => join(d.as_str(), "gitferry/config.json"),
        None => join(".", "gitferry/config.json"),
    }
}

/// The configuration file's path.
pub fn config_path() -> (r: String)
    ensures
        exists|d: Option<Seq<char>>| r@ == config_path_in(d),
{
    let d = config_dir();
    let ghost dv = opt_view(d);
    let r = config_path_for(d);
    assert(r@ == config_path_in(dv));
    r
}

// ---------------------------------------------------------------------------
// Settings and accounts
// ---------------------------------------------------------------------------

#[derive(Debug)]
pub struct Settings {
    pub scan_roots: Vec<String>,
    pub max_depth: u32,
    pub sync_interval_mins: u32,
    pub concurrency: u32,
}

pub struct SettingsView {
    pub scan_roots: Seq<Seq<char>>,
    pub max_depth: u32,
    pub sync_interval_mins: u32,
    pub concurrency: u32,
}

/// The values of a list of strings.
pub open spec fn strings_view(v: Seq<String>) -> Seq<Seq<char>> {
    v.map_values(|s: String| s@)
}

impl View for Settings {
    type V = SettingsView;

    open spec fn view(&self) -> SettingsView {
        SettingsView {
            scan_roots: strings_view(self.scan_roots@),
            max_depth: self.max_depth,
            sync_interval_mins: self.sync_interval_mins,
            concurrency: self.concurrency,
        }
    }
}

/// A copy of a list of strings.
pub fn clone_strings(v: &Vec<String>) -> (r: Vec<String>)
    ensures
        strings_view(r@) == strings_view(v@),
{
    let r = v.clone();
    proof {
        assert forall|i: int| 0 <= i < r@.len() implies #[trigger] r@[i]@ == v@[i]@ by {
            assert(cloned::<String>(v[i], r[i]));
        }
        assert(strings_view(r@) =~= strings_view(v@));
    }
    r
}

impl Clone for Settings {
    fn clone(&self) -> (r: Self)
        ensures
            r@ == self@,
    {
        Settings {
            scan_roots: clone_strings(&self.scan_roots),
            max_depth: self.max_depth,
            sync_interval_mins: self.sync_interval_mins,
            concurrency: self.concurrency,
        }
    }
}

/// The folders under the home directory that are scanned unless the user
/// chooses others, in this order (`Downloads` only shallowly, see
/// `scanner::root_walk_depth`).
pub open spec fn default_root_names() -> Seq<Seq<char>> {
    seq!["Projects"@, "dev"@, "code"@, "Documents"@, "Downloads"@]
}

/// The default scan folders under the home directory `home`.
pub open spec fn default_candidates(home: Seq<char>) -> Seq<Seq<char>> {
    default_root_names().map_values(|n: Seq<char>| join_path(home, n))
}

/// The downloads folder under the home directory `home`, which is scanned
/// only shallowly.
pub fn downloads_dir_for(home: &str) -> (r: String)
    ensures
        r@ == join_path(home@, "Downloads"@),
{
    join(home, "Downloads")
}

/// The default scan folders under `home`, existing or not.
pub fn default_scan_candidates(home: &str) -> (r: Vec<String>)
    ensures
        strings_view(r@) == default_candidates(home@),
{
    let mut r: Vec<String> = Vec::new();
    r.push(join(home, "Projects"));
    r.push(join(home, "dev"));
    r.push(join(home, "code"));
    r.push(join(home, "Documents"));
    r.push(downloads_dir_for(home));
    proof {
        assert(strings_view(r@) =~= default_candidates(home@));
    }
    r
}

/// `sub` keeps some of the items of `all`, in their order.
pub open spec fn is_subsequence(sub: Seq<Seq<char>>, all: Seq<Seq<char>>) -> bool {
    exists|idx: Seq<int>| #[trigger] picks(sub, all, idx)
}

/// `sub[k]` is `all[idx[k]]` for increasing indices `idx`.
pub open spec fn picks(sub: Seq<Seq<char>>, all: Seq<Seq<char>>, idx: Seq<int>) -> bool {
    &&& idx.len() == sub.len()
    &&& forall|k: int| 0 <= k < idx.len() ==> 0 <= #[trigger] idx[k] < all.len()
    &&& forall|k: int, l: int| 0 <= k < l < idx.len() ==> idx[k] < idx[l]
    &&& forall|k: int| 0 <= k < idx.len() ==> sub[k] == all[#[trigger] idx[k]]
}

/// The items of `all` whose flag in `keep` is set, in order.
pub open spec fn filter_by(all: Seq<Seq<char>>, keep: Seq<bool>) -> Seq<Seq<char>>
    decreases all.len(),
{
    if all.len() == 0 || keep.len() == 0 {
        seq![]
    } else {
        let rest = filter_by(all.drop_last(), keep.drop_last());
        if all.len() == keep.len() && keep.last() {
            rest.push(all.last())
        } else if all.len() == keep.len() {
            rest
        } else {
            seq![]
        }
    }
}

/// The items of `all` whose flag in `keep` is set.
pub fn keep_flagged(all: &Vec<String>, keep: &Vec<bool>) -> (r: Vec<String>)
    requires
        all.len() == keep.len(),
    ensures
        strings_view(r@) == filter_by(strings_view(all@), keep@),
{
    let mut r: Vec<String> = Vec::new();
    let mut i: usize = 0;
    while i < all.len()
        invariant
            all.len() == keep.len(),
            i <= all.len(),
            strings_view(r@) == filter_by(
                strings_view(all@).take(i as int),
                keep@.take(i as int),
            ),
        decreases all.len() - i,
    {
        proof {
            let a = strings_view(all@).take(i + 1);
            let k = keep@.take(i + 1);
            assert(a.drop_last() =~= strings_view(all@).take(i as int));
            assert(k.drop_last() =~= keep@.take(i as int));
        }
        if keep[i] {
            r.push(all[i].clone());
            proof {
                assert(strings_view(r@) =~= filter_by(
                    strings_view(all@).take(i as int),
                    keep@.take(i as int),
                ).push(all@[i as int]@));
            }
        }
        i = i + 1;
    }
    proof {
        assert(strings_view(all@).take(all.len() as int) =~= strings_view(all@));
        assert(keep@.take(all.len() as int) =~= keep@);
    }
    r
}

impl Settings {
    /// Default settings whose scan roots are the given folders: depth 4,
    /// a sync every 10 minutes, two repositories at a time.
    pub fn with_roots(scan_roots: Vec<String>) -> (r: Settings)
        ensures
            r.scan_roots@ == scan_roots@,
            r.max_depth == 4,
            r.sync_interval_mins == 10,
            r.concurrency == 2,
    {
        Settings { scan_roots, max_depth: 4, sync_interval_mins: 10, concurrency: 2 }
    }
}

impl Default for Settings {
    /// The default settings: of `~/Projects`, `~/dev`, `~/code`,
    /// `~/Documents` and `~/Downloads`, those that exist at the time of the call are the scan
    /// roots (none when there is no home directory).
    fn default() -> (r: Settings)
        ensures
            r.max_depth == 4,
            r.sync_interval_mins == 10,
            r.concurrency == 2,
            exists|home: Seq<char>|
                #[trigger] is_subsequence(r@.scan_roots, default_candidates(home)),
    {
        let home = home_dir();
        match home {
            Some(h) => {
                let cands = default_scan_candidates(h.as_str());
                let mut keep: Vec<bool> = Vec::new();
                let mut i: usize = 0;
                while i < cands.len()
                    invariant
                        i <= cands.len(),
                        keep.len() == i,
                    decreases cands.len() - i,
                {
                    keep.push(is_dir(cands[i].as_str()));
                    i = i + 1;
                }
                let roots = keep_flagged(&cands, &keep);
                proof {
                    lemma_filter_is_subsequence(strings_view(cands@), keep@);
                    assert(is_subsequence(strings_view(roots@), default_candidates(h@)));
                }
                let r = Settings::with_roots(roots);
                assert(is_subsequence(r@.scan_roots, default_candidates(h@)));
                r
            },
            None => {
                let roots: Vec<String> = Vec::new();
                proof {
                    let idx: Seq<int> = seq![];
                    assert(strings_view(roots@) =~= seq![]);
                    assert(picks(strings_view(roots@), default_candidates(seq![]), idx));
                    assert(is_subsequence(strings_view(roots@), default_candidates(seq![])));
                }
                let r = Settings::with_roots(roots);
                assert(is_subsequence(r@.scan_roots, default_candidates(seq![])));
                r
            },
        }
    }
}

/// What `filter_by` keeps is a subsequence of what it was given.
proof fn lemma_filter_is_subsequence(all: Seq<Seq<char>>, keep: Seq<bool>)
    requires
        all.len() == keep.len(),
    ensures
        is_subsequence(filter_by(all, keep), all),
    decreases all.len(),
{
    if all.len() == 0 {
        let idx: Seq<int> = seq![];
        assert(filter_by(all, keep) =~= seq![]);
        assert(picks(filter_by(all, keep), all, idx));
    } else {
        let pa = all.drop_last();
        let pk = keep.drop_last();
        lemma_filter_is_subsequence(pa, pk);
        let sub = filter_by(pa, pk);
        let idx = choose|idx: Seq<int>| picks(sub, pa, idx);
        if keep.last() {
            let idx2 = idx.push(all.len() - 1);
            let s2 = sub.push(all.last());
            assert forall|k: int| 0 <= k < idx2.len() implies s2[k] == all[#[trigger] idx2[k]] by {
                if k < idx.len() {
                    assert(idx2[k] == idx[k]);
                    assert(pa[idx[k]] == all[idx[k]]);
                }
            }
            assert(picks(s2, all, idx2));
            assert(filter_by(all, keep) == s2);
        } else {
            assert forall|k: int| 0 <= k < idx.len() implies sub[k] == all[#[trigger] idx[k]] by {
                assert(pa[idx[k]] == all[idx[k]]);
            }
            assert(picks(sub, all, idx));
            assert(filter_by(all, keep) == sub);
        }
    }
}

#[derive(Debug, Clone, Copy, PartialEq, Eq, Structural)]
pub enum AccountStatus {
    Unconfigured,
    Connected,
    Invalid,
}

#[derive(Debug)]
pub struct Account {
    pub status: AccountStatus,
    pub login: Option<String>,
}

pub struct AccountView {
    pub status: AccountStatus,
    pub login: Option<Seq<char>>,
}

/// The value of an optional string.
pub open spec fn opt_view(o: Option<String>) -> Option<Seq<char>> {
    match o {
        Some(s) => Some(s@),
        None => None,
    }
}

/// A copy of an optional string.
pub fn clone_opt(o: &Option<String>) -> (r: Option<String>)
    ensures
        opt_view(r) == opt_view(*o),
{
    match o {
        Some(s) => Some(s.clone()),
        None => None,
    }
}

impl View for Account {
    type V = AccountView;

    open spec fn view(&self) -> AccountView {
        AccountView { status: self.status, login: opt_view(self.login) }
    }
}

impl Clone for Account {
    fn clone(&self) -> (r: Self)
        ensures
            r@ == self@,
    {
        Account { status: self.status, login: clone_opt(&self.login) }
    }
}

impl Default for Account {
    /// An account that has not been set up.
    fn default() -> (r: Account)
        ensures
            r.status == AccountStatus::Unconfigured,
            r.login is None,
    {
        Account { status: AccountStatus::Unconfigured, login: None }
    }
}

#[derive(Debug)]
pub struct Accounts {
    pub github: Account,
    pub gitee: Account,
}

pub struct AccountsView {
    pub github: AccountView,
    pub gitee: AccountView,
}

impl View for Accounts {
    type V = AccountsView;

    open spec fn view(&self) -> AccountsView {
        AccountsView { github: self.github@, gitee: self.gitee@ }
    }
}

impl Clone for Accounts {
    fn clone(&self) -> (r: Self)
        ensures
            r@ == self@,
    {
        Accounts { github: self.github.clone(), gitee: self.gitee.clone() }
    }
}

impl Default for Accounts {
    /// Both accounts not set up.
    fn default() -> (r: Accounts)
        ensures
            r.github.status == AccountStatus::Unconfigured,
            r.github.login is None,
            r.gitee.status == AccountStatus::Unconfigured,
            r.gitee.login is None,
    {
        Accounts { github: Account::default(), gitee: Account::default() }
    }
}

#[derive(Debug)]
pub struct Config {
    pub settings: Settings,
    pub repos: Vec<RepoEntry>,
    pub accounts: Accounts,
    pub setup_done: bool,
}

/// The values of a list of repositories.
pub open spec fn repos_view(v: Seq<RepoEntry>) -> Seq<RepoEntryView> {
    v.map_values(|r: RepoEntry| r@)
}

/// A copy of a list of repositories.
pub fn clone_repos(v: &Vec<RepoEntry>) -> (r: Vec<RepoEntry>)
    ensures
        repos_view(r@) == repos_view(v@),
{
    let r = v.clone();
    proof {
        assert forall|i: int| 0 <= i < r@.len() implies #[trigger] r@[i]@ == v@[i]@ by {
            assert(cloned::<RepoEntry>(v[i], r[i]));
        }
        assert(repos_view(r@) =~= repos_view(v@));
    }
    r
}

impl Default for Config {
    /// Default settings, no repositories, no accounts, setup not done.
    fn default() -> (r: Config)
        ensures
            r.settings.max_depth == 4,
            r.settings.sync_interval_mins == 10,
            r.settings.concurrency == 2,
            r.repos@.len() == 0,
            r.accounts.github.status == AccountStatus::Unconfigured,
            r.accounts.gitee.status == AccountStatus::Unconfigured,
            !r.setup_done,
    {
        Config {
            settings: Settings::default(),
            repos: Vec::new(),
            accounts: Accounts::default(),
            setup_done: false,
        }
    }
}

} // verus!
