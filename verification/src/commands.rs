//! The configuration changes behind the app's commands: merging a scan into
//! the repository list, setting a repository's options, looking one up, and
//! recording accounts.
use vstd::prelude::*;

use crate::auth::{Platform, VerifyOutcome};
use crate::config::{
    clone_remotes, clone_repos, remotes_view, Account, AccountStatus, AccountView, Accounts,
    AccountsView, Config, Direction, RemoteInfo, RemoteInfoView, RepoEntry, RepoEntryView,
    RepoKind, Settings, SettingsView, repos_view, same_path, same_path_of,
};
use crate::error::FerryError;
use crate::repo::{kind_for, kind_of};
use crate::text::push_str;

verus! {

broadcast use vstd::string::group_string_axioms;

/// One repository's options as the app sends them.
#[derive(Debug)]
pub struct RepoConfigInput {
    pub path: String,
    pub enabled: bool,
    pub direction: Direction,
}

/// Everything the app shows at start.
#[derive(Debug)]
pub struct AppStatePayload {
    pub settings: Settings,
    pub repos: Vec<RepoEntry>,
    pub accounts: Accounts,
    pub setup_done: bool,
}

/// The app state of a configuration.
pub fn payload(config: &Config) -> (r: AppStatePayload)
    ensures
        r.settings@ == config.settings@,
        repos_view(r.repos@) == repos_view(config.repos@),
        r.accounts@ == config.accounts@,
        r.setup_done == config.setup_done,
{
    AppStatePayload {
        settings: config.settings.clone(),
        repos: clone_repos(&config.repos),
        accounts: config.accounts.clone(),
        setup_done: config.setup_done,
    }
}

/// Index of the first repository of `es` at the same path as `path`, or -1.
pub open spec fn repo_index(es: Seq<RepoEntryView>, path: Seq<char>) -> int
    decreases es.len(),
{
    if es.len() == 0 {
        -1
    } else if same_path_of(es[0].path, path) {
        0
    } else {
        let r = repo_index(es.drop_first(), path);
        if r < 0 {
            -1
        } else {
            r + 1
        }
    }
}

proof fn lemma_repo_index(es: Seq<RepoEntryView>, path: Seq<char>, i: int)
    requires
        -1 <= i < es.len(),
        i >= 0 ==> same_path_of(es[i].path, path),
        forall|j: int| 0 <= j < es.len() && (i < 0 || j < i) ==> !same_path_of(#[trigger] es[j].path, path),
    ensures
        repo_index(es, path) == i,
    decreases es.len(),
{
    if es.len() > 0 && i != 0 {
        lemma_repo_index(es.drop_first(), path, if i < 0 { -1 } else { i - 1 });
    }
}

proof fn lemma_repo_index_bounds(es: Seq<RepoEntryView>, path: Seq<char>)
    ensures
        -1 <= repo_index(es, path) < es.len(),
        repo_index(es, path) >= 0 ==> same_path_of(es[repo_index(es, path)].path, path),
    decreases es.len(),
{
    if es.len() > 0 {
        lemma_repo_index_bounds(es.drop_first(), path);
    }
}

/// Position of the first repository at the same path as `path`.
fn find_repo(repos: &Vec<RepoEntry>, path: &str) -> (r: Option<usize>)
    ensures
        match r {
            Some(i) => i < repos@.len() && repo_index(repos_view(repos@), path@) == i,
            None => repo_index(repos_view(repos@), path@) == -1,
        },
{
    let ghost es = repos_view(repos@);
    let mut i: usize = 0;
    while i < repos.len()
        invariant
            i <= repos.len(),
            es == repos_view(repos@),
            forall|j: int| 0 <= j < i ==> !same_path_of(#[trigger] es[j].path, path@),
        decreases repos.len() - i,
    {
        assert(es[i as int] == repos@[i as int]@);
        if same_path(repos[i].path.as_str(), path) {
            proof {
                lemma_repo_index(es, path@, i as int);
            }
            return Some(i);
        }
        i = i + 1;
    }
    proof {
        lemma_repo_index(es, path@, -1);
    }
    None
}

/// The entry a scan gives for a repository found at `path` with `remotes`:
/// its kind from the remotes; enabled, direction and mirror mode kept from
/// the first configured entry at that path, or off, both ways and off for a
/// new one.
pub open spec fn scanned_entry(
    existing: Seq<RepoEntryView>,
    path: Seq<char>,
    remotes: Seq<RemoteInfoView>,
) -> RepoEntryView {
    let i = repo_index(existing, path);
    if 0 <= i < existing.len() {
        RepoEntryView {
            path,
            enabled: existing[i].enabled,
            direction: existing[i].direction,
            remotes,
            kind: kind_of(remotes),
            mirror_delete: existing[i].mirror_delete,
        }
    } else {
        RepoEntryView {
            path,
            enabled: false,
            direction: Direction::Both,
            remotes,
            kind: kind_of(remotes),
            mirror_delete: false,
        }
    }
}

/// Some entry of `es` is at the same path as `path`.
pub open spec fn has_path(es: Seq<RepoEntryView>, path: Seq<char>) -> bool {
    exists|i: int| 0 <= i < es.len() && same_path_of(#[trigger] es[i].path, path)
}


/// `merged` followed by the entries of `olds` whose path it does not hold
/// yet (as the same path), in order (each added entry counts for the ones
/// after it).
pub open spec fn keep_unscanned(merged: Seq<RepoEntryView>, olds: Seq<RepoEntryView>) -> Seq<
    RepoEntryView,
>
    decreases olds.len(),
{
    if olds.len() == 0 {
        merged
    } else {
        let m = keep_unscanned(merged, olds.drop_last());
        if has_path(m, olds.last().path) {
            m
        } else {
            m.push(olds.last())
        }
    }
}

/// A scanned repository: its root and its remotes.
pub struct ScannedRepo {
    pub path: String,
    pub remotes: Vec<RemoteInfo>,
}

/// The repository list after a scan: the scanned repositories in scan order
/// (see `scanned_entry`), then the configured ones the scan did not find.
pub open spec fn merged_repos(existing: Seq<RepoEntryView>, scanned: Seq<ScannedRepo>) -> Seq<
    RepoEntryView,
> {
    keep_unscanned(
        scanned.map_values(
            |s: ScannedRepo| scanned_entry(existing, s.path@, remotes_view(s.remotes@)),
        ),
        existing,
    )
}

fn has_repo_path(es: &Vec<RepoEntry>, path: &str) -> (b: bool)
    ensures
        b == has_path(repos_view(es@), path@),
{
    match find_repo(es, path) {
        Some(i) => {
            assert(same_path_of(repos_view(es@)[i as int].path, path@)) by {
                lemma_repo_index_found(repos_view(es@), path@);
            }
            true
        },
        None => {
            proof {
                if has_path(repos_view(es@), path@) {
                    let j = choose|j: int|
                        0 <= j < repos_view(es@).len() && same_path_of(
                            #[trigger] repos_view(es@)[j].path,
                            path@,
                        );
                    lemma_repo_index_some(repos_view(es@), path@, j);
                }
            }
            false
        },
    }
}

proof fn lemma_repo_index_found(es: Seq<RepoEntryView>, path: Seq<char>)
    requires
        0 <= repo_index(es, path),
    ensures
        repo_index(es, path) < es.len(),
        same_path_of(es[repo_index(es, path)].path, path),
    decreases es.len(),
{
    if es.len() > 0 && !same_path_of(es[0].path, path) {
        lemma_repo_index_found(es.drop_first(), path);
    }
}

proof fn lemma_repo_index_some(es: Seq<RepoEntryView>, path: Seq<char>, j: int)
    requires
        0 <= j < es.len(),
        same_path_of(es[j].path, path),
    ensures
        0 <= repo_index(es, path),
    decreases es.len(),
{
    if !same_path_of(es[0].path, path) {
        lemma_repo_index_some(es.drop_first(), path, j - 1);
    }
}

proof fn lemma_keep_unscanned(merged: Seq<RepoEntryView>, olds: Seq<RepoEntryView>)
    ensures
        keep_unscanned(merged, olds).len() >= merged.len(),
        keep_unscanned(merged, olds).take(merged.len() as int) == merged,
        forall|i: int| 0 <= i < olds.len() ==> has_path(keep_unscanned(merged, olds), #[trigger] olds[i].path),
    decreases olds.len(),
{
    if olds.len() > 0 {
        let rest = olds.drop_last();
        lemma_keep_unscanned(merged, rest);
        let m = keep_unscanned(merged, rest);
        let r = keep_unscanned(merged, olds);
        assert forall|i: int| 0 <= i < olds.len() implies has_path(r, #[trigger] olds[i].path) by {
            if i < olds.len() - 1 {
                assert(olds[i] == rest[i]);
                assert(has_path(m, rest[i].path));
                let k = choose|k: int| 0 <= k < m.len() && same_path_of(#[trigger] m[k].path, rest[i].path);
                if !has_path(m, olds.last().path) {
                    assert(r[k] == m[k]);
                }
            } else if !has_path(m, olds.last().path) {
                assert(r[m.len() as int] == olds.last());
            } else {
                let k = choose|k: int| 0 <= k < m.len() && same_path_of(#[trigger] m[k].path, olds.last().path);
                assert(r[k] == m[k]);
            }
        }
        if !has_path(m, olds.last().path) {
            assert(r.take(merged.len() as int) =~= m.take(merged.len() as int));
        }
    } else {
        assert(merged.take(merged.len() as int) =~= merged);
    }
}

/// A scan never drops a repository: after the merge, every configured
/// repository is still listed (one the scan did not find keeps its entry),
/// and every repository the scan found is listed.
pub proof fn lemma_scan_keeps_every_repo(existing: Seq<RepoEntryView>, scanned: Seq<ScannedRepo>)
    ensures
        forall|i: int|
            0 <= i < existing.len() ==> has_path(merged_repos(existing, scanned), #[trigger] existing[i].path),
        forall|i: int|
            0 <= i < scanned.len() ==> has_path(merged_repos(existing, scanned), #[trigger] scanned[i].path@),
{
    let sv = scanned.map_values(
        |s: ScannedRepo| scanned_entry(existing, s.path@, remotes_view(s.remotes@)),
    );
    lemma_keep_unscanned(sv, existing);
    let r = merged_repos(existing, scanned);
    assert forall|i: int| 0 <= i < scanned.len() implies has_path(r, #[trigger] scanned[i].path@) by {
        assert(r.take(sv.len() as int)[i] == sv[i]);
        assert(r[i] == sv[i]);
        assert(r[i].path == scanned[i].path@);
    }
}

/// The repository list after a scan found `scanned`.
pub fn merge_scanned(existing: &Vec<RepoEntry>, scanned: &Vec<ScannedRepo>) -> (r: Vec<RepoEntry>)
    ensures
        repos_view(r@) == merged_repos(repos_view(existing@), scanned@),
{
    let ghost ex = repos_view(existing@);
    let ghost sv = scanned@.map_values(
        |s: ScannedRepo| scanned_entry(ex, s.path@, remotes_view(s.remotes@)),
    );
    let mut merged: Vec<RepoEntry> = Vec::new();
    let mut i: usize = 0;
    while i < scanned.len()
        invariant
            i <= scanned.len(),
            ex == repos_view(existing@),
            sv == scanned@.map_values(
                |s: ScannedRepo| scanned_entry(ex, s.path@, remotes_view(s.remotes@)),
            ),
            repos_view(merged@) == sv.take(i as int),
        decreases scanned.len() - i,
    {
        let s = &scanned[i];
        let remotes = clone_remotes(&s.remotes);
        let kind = kind_for(remotes.as_slice());
        let entry = match find_repo(existing, s.path.as_str()) {
            Some(j) => {
                assert(ex[j as int] == existing@[j as int]@);
                RepoEntry {
                    path: s.path.clone(),
                    enabled: existing[j].enabled,
                    direction: existing[j].direction,
                    remotes,
                    kind,
                    mirror_delete: existing[j].mirror_delete,
                }
            },
            None => RepoEntry {
                path: s.path.clone(),
                enabled: false,
                direction: Direction::Both,
                remotes,
                kind,
                mirror_delete: false,
            },
        };
        let ghost before = repos_view(merged@);
        proof {
            assert(entry@ == sv[i as int]);
        }
        merged.push(entry);
        assert(repos_view(merged@) =~= sv.take(i + 1)) by {
            assert(repos_view(merged@) =~= before.push(sv[i as int]));
        }
        i = i + 1;
    }
    assert(sv.take(scanned.len() as int) =~= sv);
    let mut k: usize = 0;
    assert(ex.take(0) =~= Seq::<RepoEntryView>::empty());
    while k < existing.len()
        invariant
            k <= existing.len(),
            ex == repos_view(existing@),
            repos_view(merged@) == keep_unscanned(sv, ex.take(k as int)),
        decreases existing.len() - k,
    {
        proof {
            assert(ex.take(k + 1).drop_last() =~= ex.take(k as int));
            assert(ex.take(k + 1).last() == existing@[k as int]@);
        }
        if !has_repo_path(&merged, existing[k].path.as_str()) {
            let ghost before = repos_view(merged@);
            let e = existing[k].clone();
            merged.push(e);
            assert(repos_view(merged@) =~= before.push(existing@[k as int]@));
        }
        k = k + 1;
    }
    assert(ex.take(existing.len() as int) =~= ex);
    merged
}

/// The error for a path that is not among the repositories.
pub open spec fn unknown_repo_message(path: Seq<char>) -> Seq<char> {
    "仓库未收录："@ + path
}

/// Sets enabled and direction of the first repository at `path`; an error
/// when there is none.
pub fn set_repo_config(config: &mut Config, path: &str, enabled: bool, direction: Direction) -> (r:
    Result<(), FerryError>)
    ensures
        repo_index(repos_view(old(config).repos@), path@) < 0 ==> (r matches Err(
            FerryError::Message(m),
        ) && m@ == unknown_repo_message(path@) && repos_view(final(config).repos@) == repos_view(
            old(config).repos@,
        )),
        repo_index(repos_view(old(config).repos@), path@) >= 0 ==> (r is Ok && repos_view(
            final(config).repos@,
        ) == repos_view(old(config).repos@).update(
            repo_index(repos_view(old(config).repos@), path@),
            (RepoEntryView {
                enabled,
                direction,
                ..repos_view(old(config).repos@)[repo_index(repos_view(old(config).repos@), path@)]
            }),
        )),
        final(config).settings@ == old(config).settings@,
        final(config).accounts@ == old(config).accounts@,
        final(config).setup_done == old(config).setup_done,
{
    match find_repo(&config.repos, path) {
        Some(i) => {
            let ghost before = repos_view(config.repos@);
            let mut e = config.repos[i].clone();
            e.enabled = enabled;
            e.direction = direction;
            let ghost ev = e@;
            config.repos.set(i, e);
            assert(repos_view(config.repos@) =~= before.update(i as int, ev));
            Ok(())
        },
        None => {
            let mut m = String::new();
            push_str(&mut m, "仓库未收录：");
            push_str(&mut m, path);
            assert(m@ =~= unknown_repo_message(path@));
            Err(FerryError::Message(m))
        },
    }
}

/// Turns mirror mode on or off for the first repository at `path`; an error
/// when there is none.
pub fn set_repo_mirror(config: &mut Config, path: &str, mirror_delete: bool) -> (r: Result<(), FerryError>)
    ensures
        repo_index(repos_view(old(config).repos@), path@) < 0 ==> (r matches Err(
            FerryError::Message(m),
        ) && m@ == unknown_repo_message(path@) && repos_view(final(config).repos@) == repos_view(
            old(config).repos@,
        )),
        repo_index(repos_view(old(config).repos@), path@) >= 0 ==> (r is Ok && repos_view(
            final(config).repos@,
        ) == repos_view(old(config).repos@).update(
            repo_index(repos_view(old(config).repos@), path@),
            (RepoEntryView {
                mirror_delete,
                ..repos_view(old(config).repos@)[repo_index(repos_view(old(config).repos@), path@)]
            }),
        )),
        final(config).settings@ == old(config).settings@,
        final(config).accounts@ == old(config).accounts@,
        final(config).setup_done == old(config).setup_done,
{
    match find_repo(&config.repos, path) {
        Some(i) => {
            let ghost before = repos_view(config.repos@);
            let mut e = config.repos[i].clone();
            e.mirror_delete = mirror_delete;
            let ghost ev = e@;
            config.repos.set(i, e);
            assert(repos_view(config.repos@) =~= before.update(i as int, ev));
            Ok(())
        },
        None => {
            let mut m = String::new();
            push_str(&mut m, "仓库未收录：");
            push_str(&mut m, path);
            assert(m@ =~= unknown_repo_message(path@));
            Err(FerryError::Message(m))
        },
    }
}

/// The options `(path, enabled, direction)` of a list of inputs.
pub open spec fn inputs_view(items: Seq<RepoConfigInput>) -> Seq<(Seq<char>, bool, Direction)> {
    items.map_values(|x: RepoConfigInput| (x.path@, x.enabled, x.direction))
}

/// `es` with enabled and direction set on the first entry at `path`, when
/// there is one.
pub open spec fn with_options(es: Seq<RepoEntryView>, path: Seq<char>, enabled: bool, direction: Direction) -> Seq<
    RepoEntryView,
> {
    let k = repo_index(es, path);
    if k >= 0 {
        es.update(k, RepoEntryView { enabled, direction, ..es[k] })
    } else {
        es
    }
}

/// `es` with the options of `items` set in turn.
pub open spec fn with_all_options(es: Seq<RepoEntryView>, items: Seq<(Seq<char>, bool, Direction)>) -> Seq<
    RepoEntryView,
>
    decreases items.len(),
{
    if items.len() == 0 {
        es
    } else {
        let last = items.last();
        with_options(with_all_options(es, items.drop_last()), last.0, last.1, last.2)
    }
}

/// The first input from `i` on whose path is not among `es` (the length when
/// there is none).
pub open spec fn first_unknown(es: Seq<RepoEntryView>, items: Seq<(Seq<char>, bool, Direction)>, i: int) -> int
    decreases items.len() - i,
{
    if i >= items.len() {
        items.len() as int
    } else if repo_index(es, items[i].0) < 0 {
        i
    } else {
        first_unknown(es, items, i + 1)
    }
}

/// Sets the options of several repositories in turn; stops with an error at
/// the first path that is not among the repositories (the ones before it
/// are set).
pub fn set_repos_config(config: &mut Config, items: &Vec<RepoConfigInput>) -> (r: Result<(), FerryError>)
    ensures
        r is Ok ==> forall|i: int|
            0 <= i < items@.len() ==> #[trigger] repo_index(
                repos_view(old(config).repos@),
                items@[i].path@,
            ) >= 0,
        first_unknown(repos_view(old(config).repos@), inputs_view(items@), 0) == items@.len() ==> (r is Ok
            && repos_view(final(config).repos@) == with_all_options(
            repos_view(old(config).repos@),
            inputs_view(items@),
        )),
        first_unknown(repos_view(old(config).repos@), inputs_view(items@), 0) < items@.len() ==> (r matches Err(
            FerryError::Message(m),
        ) && m@ == unknown_repo_message(
            items@[first_unknown(repos_view(old(config).repos@), inputs_view(items@), 0)].path@,
        ) && repos_view(final(config).repos@) == with_all_options(
            repos_view(old(config).repos@),
            inputs_view(items@).take(first_unknown(repos_view(old(config).repos@), inputs_view(items@), 0)),
        )),
        repos_view(final(config).repos@).len() == repos_view(old(config).repos@).len(),
        final(config).settings@ == old(config).settings@,
        final(config).accounts@ == old(config).accounts@,
        final(config).setup_done == old(config).setup_done,
{
    let ghost olds = repos_view(config.repos@);
    let ghost iv = inputs_view(items@);
    let mut i: usize = 0;
    let mut err: Option<FerryError> = None;
    assert(iv.take(0) =~= Seq::<(Seq<char>, bool, Direction)>::empty());
    while err.is_none() && i < items.len()
        invariant
            i <= items.len(),
            olds == repos_view(old(config).repos@),
            iv == inputs_view(items@),
            iv.len() == items@.len(),
            repos_view(config.repos@).len() == olds.len(),
            forall|j: int| 0 <= j < repos_view(config.repos@).len() ==> #[trigger] repos_view(config.repos@)[j].path
                == olds[j].path,
            forall|j: int| 0 <= j < i ==> #[trigger] repo_index(olds, items@[j].path@) >= 0,
            repos_view(config.repos@) == with_all_options(olds, iv.take(i as int)),
            err is None ==> first_unknown(olds, iv, 0) == first_unknown(olds, iv, i as int),
            err is Some ==> (i < items@.len() && first_unknown(olds, iv, 0) == i && (err matches Some(
                FerryError::Message(m),
            ) && m@ == unknown_repo_message(items@[i as int].path@))),
            config.settings@ == old(config).settings@,
            config.accounts@ == old(config).accounts@,
            config.setup_done == old(config).setup_done,
        decreases items.len() - i + (if err is None { 1int } else { 0int }),
    {
        let ghost before = repos_view(config.repos@);
        let res = set_repo_config(config, items[i].path.as_str(), items[i].enabled, items[i].direction);
        proof {
            assert(iv[i as int] == (items@[i as int].path@, items@[i as int].enabled, items@[i as int].direction));
            lemma_same_paths_index(before, olds, items@[i as int].path@);
        }
        match res {
            Ok(()) => {
                proof {
                    let k = repo_index(before, items@[i as int].path@);
                    lemma_repo_index_bounds(before, items@[i as int].path@);
                    assert(repos_view(config.repos@).len() == before.len());
                    assert forall|j: int| 0 <= j < repos_view(config.repos@).len() implies #[trigger] repos_view(
                        config.repos@,
                    )[j].path == olds[j].path by {
                        if j == k {
                        } else {
                        }
                    }
                    assert(iv.take(i + 1).drop_last() =~= iv.take(i as int));
                    assert(iv.take(i + 1).last() == iv[i as int]);
                    assert(repos_view(config.repos@) == with_all_options(olds, iv.take(i + 1)));
                }
                i = i + 1;
            },
            Err(e) => {
                err = Some(e);
            },
        }
    }
    match err {
        Some(e) => Err(e),
        None => {
            assert(iv.take(items.len() as int) =~= iv);
            Ok(())
        },
    }
}

proof fn lemma_same_paths_index(a: Seq<RepoEntryView>, b: Seq<RepoEntryView>, path: Seq<char>)
    requires
        a.len() == b.len(),
        forall|j: int| 0 <= j < a.len() ==> a[j].path == b[j].path,
    ensures
        repo_index(a, path) == repo_index(b, path),
    decreases a.len(),
{
    if a.len() > 0 {
        lemma_same_paths_index(a.drop_first(), b.drop_first(), path);
    }
}

/// The error for a path that is not among the repositories, when looking it
/// up for a sync.
pub open spec fn not_found_message(path: Seq<char>) -> Seq<char> {
    "仓库未收录："@ + path + "。请先执行一次扫描，或检查仓库路径。"@
}

/// The first repository at `path`; an error when there is none.
pub fn find_entry(config: &Config, path: &str) -> (r: Result<RepoEntry, FerryError>)
    ensures
        match r {
            Ok(e) => {
                let i = repo_index(repos_view(config.repos@), path@);
                0 <= i < config.repos@.len() && e@ == config.repos@[i]@
            },
            Err(e) => repo_index(repos_view(config.repos@), path@) < 0 && (e matches FerryError::Message(
                m,
            ) && m@ == not_found_message(path@)),
        },
{
    match find_repo(&config.repos, path) {
        Some(i) => Ok(config.repos[i].clone()),
        None => {
            let mut m = String::new();
            push_str(&mut m, "仓库未收录：");
            push_str(&mut m, path);
            push_str(&mut m, "。请先执行一次扫描，或检查仓库路径。");
            assert(m@ =~= not_found_message(path@));
            Err(FerryError::Message(m))
        },
    }
}

/// The error for a repository whose sync is off.
pub open spec fn disabled_message(path: Seq<char>) -> Seq<char> {
    "仓库未启用同步："@ + path + "。请先在仓库列表打开同步开关。"@
}

/// Ok when the repository's sync is on.
pub fn ensure_enabled(entry: &RepoEntry, path: &str) -> (r: Result<(), FerryError>)
    ensures
        entry.enabled ==> r is Ok,
        !entry.enabled ==> (r matches Err(FerryError::Message(m)) && m@ == disabled_message(path@)),
{
    if entry.enabled {
        Ok(())
    } else {
        let mut m = String::new();
        push_str(&mut m, "仓库未启用同步：");
        push_str(&mut m, path);
        push_str(&mut m, "。请先在仓库列表打开同步开关。");
        assert(m@ =~= disabled_message(path@));
        Err(FerryError::Message(m))
    }
}

/// Records the account of `platform`.
pub fn set_account(config: &mut Config, platform: Platform, account: Account)
    ensures
        platform == Platform::Github ==> final(config).accounts@ == (AccountsView {
            github: account@,
            ..old(config).accounts@
        }),
        platform == Platform::Gitee ==> final(config).accounts@ == (AccountsView {
            gitee: account@,
            ..old(config).accounts@
        }),
        repos_view(final(config).repos@) == repos_view(old(config).repos@),
        final(config).settings@ == old(config).settings@,
        final(config).setup_done == old(config).setup_done,
{
    match platform {
        Platform::Github => config.accounts.github = account,
        Platform::Gitee => config.accounts.gitee = account,
    }
}

/// Marks the account of `platform` as holding a token the platform refused.
pub fn mark_account_invalid(config: &mut Config, platform: Platform)
    ensures
        platform == Platform::Github ==> final(config).accounts@ == (AccountsView {
            github: (AccountView { status: AccountStatus::Invalid, ..old(config).accounts@.github }),
            ..old(config).accounts@
        }),
        platform == Platform::Gitee ==> final(config).accounts@ == (AccountsView {
            gitee: (AccountView { status: AccountStatus::Invalid, ..old(config).accounts@.gitee }),
            ..old(config).accounts@
        }),
        repos_view(final(config).repos@) == repos_view(old(config).repos@),
        final(config).settings@ == old(config).settings@,
        final(config).setup_done == old(config).setup_done,
{
    match platform {
        Platform::Github => config.accounts.github.status = AccountStatus::Invalid,
        Platform::Gitee => config.accounts.gitee.status = AccountStatus::Invalid,
    }
}

/// What the answer `outcome` of a token check for `platform` does to the
/// configuration: a refused token marks the account invalid (and the answer
/// is true: the configuration is to be saved); a login or an unexpected
/// answer changes nothing.
pub fn apply_token_check(config: &mut Config, platform: Platform, outcome: &VerifyOutcome) -> (changed: bool)
    ensures
        changed == (outcome@ is Unauthorized),
        changed && platform == Platform::Github ==> final(config).accounts@ == (AccountsView {
            github: (AccountView { status: AccountStatus::Invalid, ..old(config).accounts@.github }),
            ..old(config).accounts@
        }),
        changed && platform == Platform::Gitee ==> final(config).accounts@ == (AccountsView {
            gitee: (AccountView { status: AccountStatus::Invalid, ..old(config).accounts@.gitee }),
            ..old(config).accounts@
        }),
        !changed ==> final(config).accounts@ == old(config).accounts@,
        repos_view(final(config).repos@) == repos_view(old(config).repos@),
        final(config).settings@ == old(config).settings@,
        final(config).setup_done == old(config).setup_done,
{
    match outcome {
        VerifyOutcome::Unauthorized => {
            mark_account_invalid(config, platform);
            true
        },
        _ => false,
    }
}

} // verus!
