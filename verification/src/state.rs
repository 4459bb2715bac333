//! The runtime sync states of all repositories, by path (kept in memory
//! only), and the state changes that the commands make to them.
use vstd::prelude::*;

use crate::config::{
    kept_apart, lemma_kept_apart_finds, lemma_kept_apart_put, lemma_path_index,
    lemma_path_index_bounds, path_apart,
    path_index, put_path, same_path, same_path_of, strings_view,
};
use crate::error::FerryError;
use crate::sync::{
    clone_conflicts, conflicts_view, opt_text, RefConflict, RefConflictView, RepoSyncResult,
    RepoSyncState, RepoSyncStateView, SyncStatus,
};
use crate::text::push_str;

verus! {

broadcast use vstd::string::group_string_axioms;

/// The sync state of each repository, by path.
#[derive(Debug)]
pub struct SyncTable {
    entries: Vec<RepoSyncResult>,
}

/// The value of one table entry.
pub open spec fn entry_view(e: RepoSyncResult) -> (Seq<char>, RepoSyncStateView) {
    (e.path@, e.state@)
}

impl View for SyncTable {
    type V = Seq<(Seq<char>, RepoSyncStateView)>;

    closed spec fn view(&self) -> Seq<(Seq<char>, RepoSyncStateView)> {
        self.entries@.map_values(|e: RepoSyncResult| entry_view(e))
    }
}

/// The state recorded for the same path as `path`, if any.
pub open spec fn state_at(t: Seq<(Seq<char>, RepoSyncStateView)>, path: Seq<char>) -> Option<
    RepoSyncStateView,
> {
    let i = path_index(t, path);
    if 0 <= i < t.len() {
        Some(t[i].1)
    } else {
        None
    }
}

impl SyncTable {
    /// No state recorded.
    pub fn new() -> (r: SyncTable)
        ensures
            r@.len() == 0,
    {
        let r = SyncTable { entries: Vec::new() };
        assert(r@ =~= Seq::<(Seq<char>, RepoSyncStateView)>::empty());
        r
    }

    fn find(&self, path: &str) -> (r: Option<usize>)
        ensures
            match r {
                Some(i) => i < self@.len() && path_index(self@, path@) == i,
                None => path_index(self@, path@) == -1,
            },
    {
        let ghost t = self@;
        let mut i: usize = 0;
        while i < self.entries.len()
            invariant
                i <= self.entries.len(),
                t == self@,
                t.len() == self.entries@.len(),
                forall|j: int| 0 <= j < i ==> !same_path_of(#[trigger] t[j].0, path@),
            decreases self.entries.len() - i,
        {
            assert(t[i as int] == entry_view(self.entries@[i as int]));
            if same_path(self.entries[i].path.as_str(), path) {
                proof {
                    lemma_path_index(t, path@, i as int);
                }
                return Some(i);
            }
            i = i + 1;
        }
        proof {
            lemma_path_index(t, path@, -1);
        }
        None
    }

    /// The state recorded for the same path as `path`.
    pub fn get(&self, path: &str) -> (r: Option<&RepoSyncState>)
        ensures
            match r {
                Some(s) => state_at(self@, path@) == Some(s@),
                None => state_at(self@, path@) is None,
            },
    {
        match self.find(path) {
            Some(i) => {
                assert(self@[i as int] == entry_view(self.entries@[i as int]));
                Some(&self.entries[i].state)
            },
            None => None,
        }
    }

    /// Records `state` for `path`, replacing what was recorded for the same
    /// path (whose text is kept).
    pub fn insert(&mut self, path: String, state: RepoSyncState)
        ensures
            final(self)@ == put_path(old(self)@, path@, state@),
    {
        let ghost kv = (path@, state@);
        match self.find(path.as_str()) {
            Some(i) => {
                let kept = self.entries[i].path.clone();
                assert(self@[i as int] == entry_view(self.entries@[i as int]));
                let ghost kv2 = (kept@, state@);
                self.entries.set(i, RepoSyncResult { path: kept, state });
                assert(self@ =~= old(self)@.update(i as int, kv2));
            },
            None => {
                self.entries.push(RepoSyncResult { path, state });
                assert(self@ =~= old(self)@.push(kv));
            },
        }
    }

    /// Forgets the state recorded for the same path as `path`.
    pub fn remove(&mut self, path: &str)
        ensures
            path_index(old(self)@, path@) < 0 ==> final(self)@ == old(self)@,
            path_index(old(self)@, path@) >= 0 ==> final(self)@ == old(self)@.remove(
                path_index(old(self)@, path@),
            ),
    {
        match self.find(path) {
            Some(i) => {
                self.entries.remove(i);
                assert(self@ =~= old(self)@.remove(i as int));
            },
            None => {},
        }
    }

    /// Every recorded state, with its path, in the order first recorded.
    pub fn results(&self) -> (r: Vec<RepoSyncResult>)
        ensures
            r@.map_values(|e: RepoSyncResult| entry_view(e)) == self@,
    {
        let mut r: Vec<RepoSyncResult> = Vec::new();
        let mut i: usize = 0;
        while i < self.entries.len()
            invariant
                i <= self.entries.len(),
                r@.map_values(|e: RepoSyncResult| entry_view(e)) == self@.take(i as int),
            decreases self.entries.len() - i,
        {
            let e = self.entries[i].clone();
            let ghost ev = entry_view(e);
            let ghost before = r@.map_values(|e: RepoSyncResult| entry_view(e));
            r.push(e);
            proof {
                assert(self@[i as int] == entry_view(self.entries@[i as int]));
                assert(ev == self@[i as int]);
                assert(r@.map_values(|e: RepoSyncResult| entry_view(e)) =~= before.push(ev));
                assert(r@.map_values(|e: RepoSyncResult| entry_view(e)) =~= self@.take(i + 1));
            }
            i = i + 1;
        }
        assert(self@.take(self.entries.len() as int) =~= self@);
        r
    }

    /// How many repositories have a recorded state.
    pub fn len(&self) -> (n: usize)
        ensures
            n == self@.len(),
    {
        self.entries.len()
    }

    /// The status recorded at position `i`.
    pub fn status_at(&self, i: usize) -> (s: SyncStatus)
        requires
            i < self@.len(),
        ensures
            s == self@[i as int].1.status,
    {
        assert(self@[i as int] == entry_view(self.entries@[i as int]));
        self.entries[i].state.status
    }
}

/// The state a repository shows while it syncs: the last sync time and the
/// unresolved conflicts are kept; counts and the last error are cleared.
pub open spec fn syncing_from(prev: Option<RepoSyncStateView>) -> RepoSyncStateView {
    RepoSyncStateView {
        status: SyncStatus::Syncing,
        last_synced: match prev {
            Some(p) => p.last_synced,
            None => None,
        },
        pushed_refs: 0,
        deleted_refs: 0,
        error: None,
        conflicts: match prev {
            Some(p) => p.conflicts,
            None => seq![],
        },
    }
}

/// Puts the repository at `path` into the syncing state.
pub fn mark_syncing(table: &mut SyncTable, path: &str)
    ensures
        final(table)@ == put_path(old(table)@, path@, syncing_from(state_at(old(table)@, path@))),
{
    let (last_synced, conflicts) = match table.get(path) {
        Some(prev) => (prev.last_synced, clone_conflicts(&prev.conflicts)),
        None => (None, Vec::new()),
    };
    let ghost cv = conflicts_view(conflicts@);
    let state = RepoSyncState {
        status: SyncStatus::Syncing,
        last_synced,
        pushed_refs: 0,
        deleted_refs: 0,
        error: None,
        conflicts,
    };
    proof {
        match state_at(table@, path@) {
            Some(p) => {},
            None => {
                assert(cv =~= Seq::<RefConflictView>::empty());
            },
        }
        assert(state@ == syncing_from(state_at(table@, path@)));
    }
    let mut p = String::new();
    push_str(&mut p, path);
    assert(p@ =~= path@);
    table.insert(p, state);
}

/// The table after putting each of `ps` in turn into the syncing state.
pub open spec fn marked_all(t: Seq<(Seq<char>, RepoSyncStateView)>, ps: Seq<Seq<char>>) -> Seq<
    (Seq<char>, RepoSyncStateView),
>
    decreases ps.len(),
{
    if ps.len() == 0 {
        t
    } else {
        let m = marked_all(t, ps.drop_last());
        put_path(m, ps.last(), syncing_from(state_at(m, ps.last())))
    }
}

/// The table after recording each of the states `rs`, by path, in turn.
pub open spec fn recorded_all(
    t: Seq<(Seq<char>, RepoSyncStateView)>,
    rs: Seq<(Seq<char>, RepoSyncStateView)>,
) -> Seq<(Seq<char>, RepoSyncStateView)>
    decreases rs.len(),
{
    if rs.len() == 0 {
        t
    } else {
        put_path(recorded_all(t, rs.drop_last()), rs.last().0, rs.last().1)
    }
}

/// The paths of a list of recorded states.
pub open spec fn paths_of(rs: Seq<(Seq<char>, RepoSyncStateView)>) -> Seq<Seq<char>> {
    rs.map_values(|r: (Seq<char>, RepoSyncStateView)| r.0)
}

/// Puts each of `paths` into the syncing state, in turn.
pub fn mark_all_syncing(table: &mut SyncTable, paths: &Vec<String>)
    ensures
        final(table)@ == marked_all(old(table)@, strings_view(paths@)),
{
    let ghost ps = strings_view(paths@);
    let mut i: usize = 0;
    assert(ps.take(0) =~= Seq::<Seq<char>>::empty());
    while i < paths.len()
        invariant
            i <= paths.len(),
            ps == strings_view(paths@),
            table@ == marked_all(old(table)@, ps.take(i as int)),
        decreases paths.len() - i,
    {
        proof {
            assert(ps.take(i + 1).drop_last() =~= ps.take(i as int));
            assert(ps.take(i + 1).last() == paths@[i as int]@);
        }
        mark_syncing(table, paths[i].as_str());
        i = i + 1;
    }
    assert(ps.take(paths.len() as int) =~= ps);
}

/// Records each of `results`, by path, in turn.
pub fn record_all(table: &mut SyncTable, results: &Vec<RepoSyncResult>)
    ensures
        final(table)@ == recorded_all(old(table)@, results@.map_values(|r: RepoSyncResult| entry_view(r))),
{
    let ghost rs = results@.map_values(|r: RepoSyncResult| entry_view(r));
    let mut i: usize = 0;
    assert(rs.take(0) =~= Seq::<(Seq<char>, RepoSyncStateView)>::empty());
    while i < results.len()
        invariant
            i <= results.len(),
            rs == results@.map_values(|r: RepoSyncResult| entry_view(r)),
            table@ == recorded_all(old(table)@, rs.take(i as int)),
        decreases results.len() - i,
    {
        proof {
            assert(rs.take(i + 1).drop_last() =~= rs.take(i as int));
            assert(rs.take(i + 1).last() == entry_view(results@[i as int]));
        }
        let r = results[i].clone();
        table.insert(r.path, r.state);
        i = i + 1;
    }
    assert(rs.take(results.len() as int) =~= rs);
}

proof fn lemma_marked_keeps(
    t0: Seq<(Seq<char>, RepoSyncStateView)>,
    m: Seq<(Seq<char>, RepoSyncStateView)>,
    qs: Seq<Seq<char>>,
    ps: Seq<Seq<char>>,
)
    requires
        kept_apart(t0, m, qs),
    ensures
        kept_apart(t0, marked_all(m, ps), qs + ps),
    decreases ps.len(),
{
    if ps.len() == 0 {
        assert(qs + ps =~= qs);
    } else {
        lemma_marked_keeps(t0, m, qs, ps.drop_last());
        let m1 = marked_all(m, ps.drop_last());
        lemma_kept_apart_put(t0, m1, qs + ps.drop_last(), ps.last(), syncing_from(state_at(m1, ps.last())));
        assert((qs + ps.drop_last()).push(ps.last()) =~= qs + ps);
    }
}

proof fn lemma_recorded_keeps(
    t0: Seq<(Seq<char>, RepoSyncStateView)>,
    m: Seq<(Seq<char>, RepoSyncStateView)>,
    qs: Seq<Seq<char>>,
    rs: Seq<(Seq<char>, RepoSyncStateView)>,
)
    requires
        kept_apart(t0, m, qs),
    ensures
        kept_apart(t0, recorded_all(m, rs), qs + paths_of(rs)),
    decreases rs.len(),
{
    if rs.len() == 0 {
        assert(qs + paths_of(rs) =~= qs);
    } else {
        lemma_recorded_keeps(t0, m, qs, rs.drop_last());
        lemma_kept_apart_put(t0, recorded_all(m, rs.drop_last()), qs + paths_of(rs.drop_last()), rs.last().0, rs.last().1);
        assert((qs + paths_of(rs.drop_last())).push(rs.last().0) =~= qs + paths_of(rs));
    }
}

/// A sync of all repositories leaves alone every repository it does not
/// take: after the taken paths are put into the syncing state and the
/// results of their syncs (for taken paths) are recorded, a path apart from
/// all of them has the state it had (and is reported as before).
pub proof fn lemma_sync_all_spares_others(
    t: Seq<(Seq<char>, RepoSyncStateView)>,
    taken: Seq<Seq<char>>,
    rs: Seq<(Seq<char>, RepoSyncStateView)>,
    q: Seq<char>,
)
    requires
        forall|j: int| 0 <= j < rs.len() ==> taken.contains(#[trigger] rs[j].0),
        path_apart(t, q, taken),
    ensures
        state_at(recorded_all(marked_all(t, taken), rs), q) == state_at(t, q),
        reported_state(recorded_all(marked_all(t, taken), rs), q) == reported_state(t, q),
{
    assert(kept_apart(t, t, Seq::<Seq<char>>::empty()));
    lemma_marked_keeps(t, t, Seq::<Seq<char>>::empty(), taken);
    assert(Seq::<Seq<char>>::empty() + taken =~= taken);
    lemma_recorded_keeps(t, marked_all(t, taken), taken, rs);
    let all = taken + paths_of(rs);
    assert forall|j: int| 0 <= j < all.len() implies #[trigger] taken.contains(all[j]) by {
        if j >= taken.len() {
            assert(all[j] == rs[j - taken.len()].0);
            assert(taken.contains(rs[j - taken.len()].0));
        } else {
            assert(taken[j] == all[j]);
        }
    }
    assert(path_apart(t, q, all)) by {
        assert forall|j: int| 0 <= j < all.len() implies !same_path_of(#[trigger] all[j], q) by {
            assert(taken.contains(all[j]));
            let l = choose|l: int| 0 <= l < taken.len() && taken[l] == all[j];
        }
        assert forall|k: int, j: int|
            0 <= k < t.len() && 0 <= j < all.len() implies !(same_path_of(#[trigger] t[k].0, q) && same_path_of(
                t[k].0,
                #[trigger] all[j],
            )) by {
            assert(taken.contains(all[j]));
            let l = choose|l: int| 0 <= l < taken.len() && taken[l] == all[j];
        }
    }
    lemma_kept_apart_finds(t, recorded_all(marked_all(t, taken), rs), all, q);
    lemma_path_index_bounds(t, q);
}

/// The state a repository shows when its sync, or the resolution of its
/// conflicts, failed with `message`: an error with that message that keeps
/// `conflicts` (the ones waiting to be resolved, after a failed resolution;
/// none otherwise); never synced, nothing pushed or deleted.
pub open spec fn failure_state(message: Seq<char>, conflicts: Seq<RefConflictView>) -> RepoSyncStateView {
    RepoSyncStateView {
        status: SyncStatus::Error,
        last_synced: None,
        pushed_refs: 0,
        deleted_refs: 0,
        error: Some(message),
        conflicts,
    }
}

/// The state after a failure with `message`, keeping `conflicts`.
pub fn failed_state(message: String, conflicts: Vec<RefConflict>) -> (r: RepoSyncState)
    ensures
        r@ == failure_state(message@, conflicts_view(conflicts@)),
{
    RepoSyncState {
        status: SyncStatus::Error,
        last_synced: None,
        pushed_refs: 0,
        deleted_refs: 0,
        error: Some(message),
        conflicts,
    }
}

/// The state of `path` as reported after a sync of all repositories: the
/// recorded one, or pending when none is recorded.
pub open spec fn reported_state(t: Seq<(Seq<char>, RepoSyncStateView)>, path: Seq<char>) -> RepoSyncStateView {
    match state_at(t, path) {
        Some(s) => s,
        None => RepoSyncStateView {
            status: SyncStatus::Pending,
            last_synced: None,
            pushed_refs: 0,
            deleted_refs: 0,
            error: None,
            conflicts: seq![],
        },
    }
}

/// The state of each of `paths`, in order.
pub fn results_for(table: &SyncTable, paths: &Vec<String>) -> (r: Vec<RepoSyncResult>)
    ensures
        r@.len() == paths@.len(),
        forall|i: int|
            0 <= i < paths@.len() ==> #[trigger] r@[i].path@ == paths@[i]@ && r@[i].state@
                == reported_state(table@, paths@[i]@),
{
    let mut r: Vec<RepoSyncResult> = Vec::new();
    let mut i: usize = 0;
    while i < paths.len()
        invariant
            i <= paths.len(),
            r@.len() == i,
            forall|k: int|
                0 <= k < i ==> #[trigger] r@[k].path@ == paths@[k]@ && r@[k].state@
                    == reported_state(table@, paths@[k]@),
        decreases paths.len() - i,
    {
        let state = match table.get(paths[i].as_str()) {
            Some(s) => s.clone(),
            None => {
                let d = RepoSyncState::default();
                assert(d@.conflicts =~= seq![]);
                d
            },
        };
        r.push(RepoSyncResult { path: paths[i].clone(), state });
        i = i + 1;
    }
    r
}

/// The unresolved conflicts of the repository at `path`; an error when there
/// are none to resolve.
pub fn pending_conflicts(table: &SyncTable, path: &str) -> (r: Result<Vec<RefConflict>, FerryError>)
    ensures
        match r {
            Ok(cs) => state_at(table@, path@) matches Some(s) && s.conflicts.len() > 0
                && conflicts_view(cs@) == s.conflicts,
            Err(e) => !(state_at(table@, path@) matches Some(s) && s.conflicts.len() > 0) && e
                == FerryError::Message(e->Message_0) && e->Message_0@ == "仓库当前没有待裁决的冲突："@
                + path@ + "。请先执行同步刷新冲突列表。"@,
        },
{
    match table.get(path) {
        Some(existing) => {
            if existing.conflicts.len() > 0 {
                return Ok(clone_conflicts(&existing.conflicts));
            }
        },
        None => {},
    }
    let mut m = String::new();
    push_str(&mut m, "仓库当前没有待裁决的冲突：");
    push_str(&mut m, path);
    push_str(&mut m, "。请先执行同步刷新冲突列表。");
    assert(m@ =~= "仓库当前没有待裁决的冲突："@ + path@ + "。请先执行同步刷新冲突列表。"@);
    Err(FerryError::Message(m))
}

} // verus!
