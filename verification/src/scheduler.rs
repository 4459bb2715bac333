//! Scheduling: which repositories a round of automatic (or manual) sync
//! takes, when a repository is due again, back-off after repeated failures,
//! and how a round's results update each repository's schedule.
use vstd::prelude::*;

use crate::config::{
    lemma_path_index, lemma_path_index_bounds, lemma_path_index_push, lemma_path_index_same_keys,
    path_index, put_path, repos_view, same_path, same_path_of, AccountStatus, Accounts, RepoEntry,
    RepoEntryView, RepoKind,
};
use crate::auth::Platform;
use crate::state::{state_at, SyncTable};
use crate::sync::{RepoSyncResult, RepoSyncStateView, SyncStatus};

verus! {

/// Delay before the first round after start-up, in seconds.
pub const FIRST_ROUND_DELAY_SECS: u64 = 30;

/// How often a sync that ends in error is retried within a round.
pub const RETRY_TIMES: u32 = 1;

/// Consecutive failures after which a repository backs off.
pub const BACKOFF_THRESHOLD: u32 = 3;

/// How many intervals a backed-off repository waits.
pub const BACKOFF_MULTIPLIER: u32 = 3;

/// How often platform tokens are checked, in minutes.
pub const TOKEN_VERIFY_INTERVAL_MINS: u32 = 360;

/// One repository's schedule (in memory only).
#[derive(Debug, Clone, Copy, PartialEq, Eq, Structural)]
pub struct RepoSchedule {
    /// Consecutive failed syncs: reset by a synced one, untouched by a
    /// conflict or a missing repository.
    pub fail_streak: u32,
    /// When the last sync was tried (unix seconds).
    pub last_attempt: Option<i64>,
}

impl Default for RepoSchedule {
    /// Never tried, no failures.
    fn default() -> (r: RepoSchedule)
        ensures
            r.fail_streak == 0,
            r.last_attempt is None,
    {
        RepoSchedule { fail_streak: 0, last_attempt: None }
    }
}

/// The interval multiplier after `fail_streak` consecutive failures.
pub open spec fn multiplier_for(fail_streak: u32) -> u32 {
    if fail_streak >= BACKOFF_THRESHOLD {
        BACKOFF_MULTIPLIER
    } else {
        1
    }
}

/// The interval multiplier after `fail_streak` consecutive failures.
pub fn backoff_multiplier(fail_streak: u32) -> (r: u32)
    ensures
        r == multiplier_for(fail_streak),
{
    if fail_streak >= BACKOFF_THRESHOLD {
        BACKOFF_MULTIPLIER
    } else {
        1
    }
}

/// Due: never tried, or `now` has reached the last try plus the interval
/// times the back-off multiplier.
pub open spec fn due(s: RepoSchedule, interval_mins: u32, now: i64) -> bool {
    match s.last_attempt {
        None => true,
        Some(last) => now >= last + (interval_mins * 60) * multiplier_for(s.fail_streak),
    }
}

/// Whether a repository with schedule `schedule` is due at `now`.
pub fn is_due(schedule: &RepoSchedule, interval_mins: u32, now: i64) -> (r: bool)
    ensures
        r == due(*schedule, interval_mins, now),
{
    match schedule.last_attempt {
        None => true,
        Some(last) => {
            let m = backoff_multiplier(schedule.fail_streak);
            let base = (interval_mins as i128) * 60;
            assert(0 <= base * (m as i128) <= base * 3) by (nonlinear_arith)
                requires
                    0 <= base,
                    1 <= m <= 3,
            ;
            let step = base * (m as i128);
            (now as i128) >= (last as i128) + step
        },
    }
}

/// The schedules of all repositories, by path.
#[derive(Debug)]
pub struct ScheduleTable {
    entries: Vec<(String, RepoSchedule)>,
}

impl View for ScheduleTable {
    type V = Seq<(Seq<char>, RepoSchedule)>;

    closed spec fn view(&self) -> Seq<(Seq<char>, RepoSchedule)> {
        self.entries@.map_values(|e: (String, RepoSchedule)| (e.0@, e.1))
    }
}

/// The schedule of `path`: the one recorded for the same path, or a fresh
/// one.
pub open spec fn schedule_at(t: Seq<(Seq<char>, RepoSchedule)>, path: Seq<char>) -> RepoSchedule {
    let i = path_index(t, path);
    if 0 <= i < t.len() {
        t[i].1
    } else {
        RepoSchedule { fail_streak: 0, last_attempt: None }
    }
}

impl ScheduleTable {
    pub fn new() -> (r: ScheduleTable)
        ensures
            r@.len() == 0,
    {
        let r = ScheduleTable { entries: Vec::new() };
        assert(r@ =~= Seq::<(Seq<char>, RepoSchedule)>::empty());
        r
    }

    fn find(&self, path: &str) -> (r: Option<usize>)
        ensures
            match r {
                Some(i) => i < self@.len() && path_index(self@, path@) == i,
                None => path_index(self@, path@) == -1,
            },
    {
        let ghost t = self@;
        let mut i: usize = 0;
        while i < self.entries.len()
            invariant
                i <= self.entries.len(),
                t == self@,
                t.len() == self.entries@.len(),
                forall|j: int| 0 <= j < i ==> !same_path_of(#[trigger] t[j].0, path@),
            decreases self.entries.len() - i,
        {
            if same_path(self.entries[i].0.as_str(), path) {
                proof {
                    lemma_path_index(t, path@, i as int);
                }
                return Some(i);
            }
            i = i + 1;
        }
        proof {
            lemma_path_index(t, path@, -1);
        }
        None
    }

    /// The schedule of `path` (a fresh one when none is recorded).
    pub fn get(&self, path: &str) -> (r: RepoSchedule)
        ensures
            r == schedule_at(self@, path@),
    {
        match self.find(path) {
            Some(i) => self.entries[i].1,
            None => RepoSchedule::default(),
        }
    }

    /// Records `s` as the schedule of `path`, replacing the one recorded for
    /// the same path (whose text is kept).
    pub fn insert(&mut self, path: String, s: RepoSchedule)
        ensures
            final(self)@ == put_path(old(self)@, path@, s),
    {
        let ghost kv = (path@, s);
        match self.find(path.as_str()) {
            Some(i) => {
                let kept = self.entries[i].0.clone();
                let ghost kv2 = (kept@, s);
                self.entries.set(i, (kept, s));
                assert(self@ =~= old(self)@.update(i as int, kv2));
            },
            None => {
                self.entries.push((path, s));
                assert(self@ =~= old(self)@.push(kv));
            },
        }
    }

    /// Removes the schedule recorded for the same path as `path`.
    pub fn remove(&mut self, path: &str)
        ensures
            path_index(old(self)@, path@) < 0 ==> final(self)@ == old(self)@,
            path_index(old(self)@, path@) >= 0 ==> final(self)@ == old(self)@.remove(
                path_index(old(self)@, path@),
            ),
    {
        match self.find(path) {
            Some(i) => {
                self.entries.remove(i);
                assert(self@ =~= old(self)@.remove(i as int));
            },
            None => {},
        }
    }
}

/// A repository that a round takes: enabled, with a platform among its
/// remotes, not in conflict, missing or already syncing (no recorded state
/// counts as pending), and, when the back-off is respected, due.
pub open spec fn selectable(
    e: RepoEntryView,
    states: Seq<(Seq<char>, RepoSyncStateView)>,
    schedules: Seq<(Seq<char>, RepoSchedule)>,
    now: i64,
    interval_mins: u32,
    respect_backoff: bool,
) -> bool {
    &&& e.enabled
    &&& e.kind != RepoKind::Neither
    &&& !(state_at(states, e.path) matches Some(s) && (s.status == SyncStatus::Conflict || s.status
        == SyncStatus::Missing || s.status == SyncStatus::Syncing))
    &&& respect_backoff ==> due(schedule_at(schedules, e.path), interval_mins, now)
}

/// The repositories of `es` that a round takes, in order.
pub open spec fn selected(
    es: Seq<RepoEntryView>,
    states: Seq<(Seq<char>, RepoSyncStateView)>,
    schedules: Seq<(Seq<char>, RepoSchedule)>,
    now: i64,
    interval_mins: u32,
    respect_backoff: bool,
) -> Seq<RepoEntryView>
    decreases es.len(),
{
    if es.len() == 0 {
        seq![]
    } else {
        let rest = selected(es.drop_last(), states, schedules, now, interval_mins, respect_backoff);
        if selectable(es.last(), states, schedules, now, interval_mins, respect_backoff) {
            rest.push(es.last())
        } else {
            rest
        }
    }
}

/// A repository that is due stays due as time goes on.
pub proof fn lemma_due_stays_due(s: RepoSchedule, interval_mins: u32, t1: i64, t2: i64)
    requires
        due(s, interval_mins, t1),
        t1 <= t2,
    ensures
        due(s, interval_mins, t2),
{
}

/// After `BACKOFF_THRESHOLD` failures in a row a repository waits
/// `BACKOFF_MULTIPLIER` intervals; before that, one.
pub proof fn lemma_backoff_wait(s: RepoSchedule, interval_mins: u32, last: i64, now: i64)
    requires
        s.last_attempt == Some(last),
    ensures
        s.fail_streak >= BACKOFF_THRESHOLD ==> (due(s, interval_mins, now) <==> now >= last + 3 * (
        interval_mins * 60)),
        s.fail_streak < BACKOFF_THRESHOLD ==> (due(s, interval_mins, now) <==> now >= last + interval_mins
            * 60),
{
    let x: int = interval_mins * 60;
    assert(x * 3 == 3 * x && x * 1 == x) by (nonlinear_arith);
    assert(multiplier_for(s.fail_streak) == (if s.fail_streak >= 3 { 3u32 } else { 1u32 }));
}

/// A round takes only repositories it was given, each one enabled, with a
/// platform among its remotes, not in conflict, missing or already syncing,
/// and, for an automatic round, due.
pub proof fn lemma_selected_are_selectable(
    es: Seq<RepoEntryView>,
    states: Seq<(Seq<char>, RepoSyncStateView)>,
    schedules: Seq<(Seq<char>, RepoSchedule)>,
    now: i64,
    interval_mins: u32,
    respect_backoff: bool,
)
    ensures
        forall|x: RepoEntryView|
            #[trigger] selected(es, states, schedules, now, interval_mins, respect_backoff).contains(x)
                ==> es.contains(x) && selectable(x, states, schedules, now, interval_mins, respect_backoff),
    decreases es.len(),
{
    if es.len() > 0 {
        let rest = es.drop_last();
        lemma_selected_are_selectable(rest, states, schedules, now, interval_mins, respect_backoff);
        let r = selected(rest, states, schedules, now, interval_mins, respect_backoff);
        let t = selected(es, states, schedules, now, interval_mins, respect_backoff);
        assert forall|x: RepoEntryView| #[trigger] t.contains(x) implies es.contains(x) && selectable(
            x,
            states,
            schedules,
            now,
            interval_mins,
            respect_backoff,
        ) by {
            let i = choose|i: int| 0 <= i < t.len() && t[i] == x;
            if i < r.len() {
                assert(r[i] == x);
                assert(r.contains(x));
                let j = choose|j: int| 0 <= j < rest.len() && rest[j] == x;
                assert(es[j] == x);
            } else {
                assert(x == es.last());
                assert(es[es.len() - 1] == x);
            }
        }
    }
}

/// A manual round takes every repository an automatic round at the same
/// moment takes: the two differ only in the back-off, which a manual round
/// ignores.
pub proof fn lemma_manual_covers_automatic(
    es: Seq<RepoEntryView>,
    states: Seq<(Seq<char>, RepoSyncStateView)>,
    schedules: Seq<(Seq<char>, RepoSchedule)>,
    now: i64,
    interval_mins: u32,
)
    ensures
        forall|x: RepoEntryView|
            selected(es, states, schedules, now, interval_mins, true).contains(x) ==> #[trigger] selected(
                es,
                states,
                schedules,
                now,
                interval_mins,
                false,
            ).contains(x),
    decreases es.len(),
{
    if es.len() > 0 {
        lemma_manual_covers_automatic(es.drop_last(), states, schedules, now, interval_mins);
        let a = selected(es.drop_last(), states, schedules, now, interval_mins, true);
        let m = selected(es.drop_last(), states, schedules, now, interval_mins, false);
        assert forall|x: RepoEntryView|
            selected(es, states, schedules, now, interval_mins, true).contains(x) implies #[trigger] selected(
                es,
                states,
                schedules,
                now,
                interval_mins,
                false,
            ).contains(x) by {
            let sa = selected(es, states, schedules, now, interval_mins, true);
            let sm = selected(es, states, schedules, now, interval_mins, false);
            let i = choose|i: int| 0 <= i < sa.len() && sa[i] == x;
            if i < a.len() {
                assert(a[i] == x);
                assert(a.contains(x));
                assert(m.contains(x));
                let j = choose|j: int| 0 <= j < m.len() && m[j] == x;
                if selectable(es.last(), states, schedules, now, interval_mins, false) {
                    assert(sm[j] == x);
                } else {
                    assert(sm[j] == x);
                }
            } else {
                assert(x == es.last());
                assert(sm[sm.len() - 1] == x);
            }
        }
    }
}

/// The repositories a round syncs.
pub fn select_repos(
    entries: &[RepoEntry],
    states: &SyncTable,
    schedules: &ScheduleTable,
    now: i64,
    interval_mins: u32,
    respect_backoff: bool,
) -> (r: Vec<RepoEntry>)
    ensures
        repos_view(r@) == selected(
            repos_view(entries@),
            states@,
            schedules@,
            now,
            interval_mins,
            respect_backoff,
        ),
{
    let ghost es = repos_view(entries@);
    let mut r: Vec<RepoEntry> = Vec::new();
    let mut i: usize = 0;
    while i < entries.len()
        invariant
            i <= entries.len(),
            es == repos_view(entries@),
            repos_view(r@) == selected(
                es.take(i as int),
                states@,
                schedules@,
                now,
                interval_mins,
                respect_backoff,
            ),
        decreases entries.len() - i,
    {
        proof {
            assert(es.take(i + 1).drop_last() =~= es.take(i as int));
            assert(es.take(i + 1).last() == entries@[i as int]@);
        }
        let e = &entries[i];
        let mut take = e.enabled && e.kind != RepoKind::Neither;
        if take {
            match states.get(e.path.as_str()) {
                Some(s) => {
                    if s.status == SyncStatus::Conflict || s.status == SyncStatus::Missing
                        || s.status == SyncStatus::Syncing {
                        take = false;
                    }
                },
                None => {},
            }
        }
        if take && respect_backoff {
            let sched = schedules.get(e.path.as_str());
            take = is_due(&sched, interval_mins, now);
        }
        if take {
            let ghost before = repos_view(r@);
            let c = e.clone();
            r.push(c);
            assert(repos_view(r@) =~= before.push(entries@[i as int]@));
        }
        i = i + 1;
    }
    assert(es.take(entries.len() as int) =~= es);
    r
}

/// A repository's schedule after a sync that ended with `status` at `now`:
/// synced clears the failures, error adds one, anything else only records
/// the time.
pub open spec fn next_schedule(s: RepoSchedule, status: SyncStatus, now: i64) -> RepoSchedule {
    match status {
        SyncStatus::Synced => RepoSchedule { fail_streak: 0, last_attempt: Some(now) },
        SyncStatus::Error => RepoSchedule {
            fail_streak: if s.fail_streak < u32::MAX {
                (s.fail_streak + 1) as u32
            } else {
                s.fail_streak
            },
            last_attempt: Some(now),
        },
        _ => RepoSchedule { last_attempt: Some(now), ..s },
    }
}

/// The schedules after the results `rs` of a round at `now`, applied in order.
pub open spec fn schedules_after(
    t: Seq<(Seq<char>, RepoSchedule)>,
    rs: Seq<(Seq<char>, SyncStatus)>,
    now: i64,
) -> Seq<(Seq<char>, RepoSchedule)>
    decreases rs.len(),
{
    if rs.len() == 0 {
        t
    } else {
        let t1 = schedules_after(t, rs.drop_last(), now);
        let (p, st) = rs.last();
        put_path(t1, p, next_schedule(schedule_at(t1, p), st, now))
    }
}

/// Updates the schedules with the results of a round at `now`.
pub fn update_schedules(schedules: &mut ScheduleTable, results: &Vec<RepoSyncResult>, now: i64)
    ensures
        final(schedules)@ == schedules_after(
            old(schedules)@,
            results@.map_values(|r: RepoSyncResult| (r.path@, r.state.status)),
            now,
        ),
{
    let ghost rs = results@.map_values(|r: RepoSyncResult| (r.path@, r.state.status));
    let mut i: usize = 0;
    assert(rs.take(0) =~= Seq::<(Seq<char>, SyncStatus)>::empty());
    while i < results.len()
        invariant
            i <= results.len(),
            rs == results@.map_values(|r: RepoSyncResult| (r.path@, r.state.status)),
            schedules@ == schedules_after(old(schedules)@, rs.take(i as int), now),
        decreases results.len() - i,
    {
        proof {
            assert(rs.take(i + 1).drop_last() =~= rs.take(i as int));
            assert(rs.take(i + 1).last() == rs[i as int]);
        }
        let path = &results[i].path;
        let prev = schedules.get(path.as_str());
        let next = match results[i].state.status {
            SyncStatus::Synced => RepoSchedule { fail_streak: 0, last_attempt: Some(now) },
            SyncStatus::Error => RepoSchedule {
                fail_streak: prev.fail_streak.saturating_add(1),
                last_attempt: Some(now),
            },
            _ => RepoSchedule { fail_streak: prev.fail_streak, last_attempt: Some(now) },
        };
        schedules.insert(path.clone(), next);
        i = i + 1;
    }
    assert(rs.take(results.len() as int) =~= rs);
}

/// After a round at `now`, every repository the round synced is recorded as
/// tried at `now`; the schedules recorded before keep their paths and their
/// order, and one whose path is none of the synced repositories' paths is
/// unchanged.
pub proof fn lemma_round_schedules(
    t: Seq<(Seq<char>, RepoSchedule)>,
    rs: Seq<(Seq<char>, SyncStatus)>,
    now: i64,
)
    ensures
        schedules_after(t, rs, now).len() >= t.len(),
        forall|k: int| 0 <= k < t.len() ==> #[trigger] schedules_after(t, rs, now)[k].0 == t[k].0,
        forall|i: int|
            0 <= i < rs.len() ==> (#[trigger] schedule_at(schedules_after(t, rs, now), rs[i].0)).last_attempt
                == Some(now),
        forall|k: int|
            0 <= k < t.len() && (forall|j: int| 0 <= j < rs.len() ==> !same_path_of(t[k].0, #[trigger] rs[j].0))
                ==> #[trigger] schedules_after(t, rs, now)[k] == t[k],
    decreases rs.len(),
{
    if rs.len() > 0 {
        let rest = rs.drop_last();
        lemma_round_schedules(t, rest, now);
        let t1 = schedules_after(t, rest, now);
        let p = rs.last().0;
        let v = next_schedule(schedule_at(t1, p), rs.last().1, now);
        let t2 = schedules_after(t, rs, now);
        assert(t2 == put_path(t1, p, v));
        lemma_path_index_bounds(t1, p);
        let m = path_index(t1, p);
        if m >= 0 {
            assert(t2.len() == t1.len());
            assert forall|k: int| 0 <= k < t1.len() implies #[trigger] t2[k].0 == t1[k].0 by {}
            lemma_path_index_same_keys(t1, t2, p);
        } else {
            lemma_path_index_push(t1, (p, v), p);
            assert forall|k: int| 0 <= k < t1.len() implies #[trigger] t2[k] == t1[k] by {}
        }
        assert forall|k: int| 0 <= k < t.len() implies #[trigger] t2[k].0 == t[k].0 by {
            assert(t1[k].0 == t[k].0);
        }
        assert forall|i: int| 0 <= i < rs.len() implies (#[trigger] schedule_at(t2, rs[i].0)).last_attempt
            == Some(now) by {
            let q = rs[i].0;
            if i < rs.len() - 1 {
                assert(rest[i] == rs[i]);
                assert(schedule_at(t1, rest[i].0).last_attempt == Some(now));
            }
            lemma_path_index_bounds(t1, q);
            if m >= 0 {
                lemma_path_index_same_keys(t1, t2, q);
            } else {
                lemma_path_index_push(t1, (p, v), q);
            }
        }
        assert forall|k: int|
            0 <= k < t.len() && (forall|j: int| 0 <= j < rs.len() ==> !same_path_of(t[k].0, #[trigger] rs[j].0))
                implies #[trigger] t2[k] == t[k] by {
            assert forall|j: int| 0 <= j < rest.len() implies !same_path_of(t[k].0, #[trigger] rest[j].0) by {
                assert(rest[j] == rs[j]);
            }
            assert(t1[k] == t[k]);
            assert(!same_path_of(t[k].0, rs[rs.len() - 1].0));
        }
    }
}

/// The results `rs` of a round name different repositories: no two of them
/// are the same path, and no path recorded in `t` is the same path as two
/// of them.
pub open spec fn results_apart(t: Seq<(Seq<char>, RepoSchedule)>, rs: Seq<(Seq<char>, SyncStatus)>) -> bool {
    &&& forall|i: int, j: int|
        0 <= i < rs.len() && 0 <= j < rs.len() && i != j ==> !same_path_of(#[trigger] rs[i].0, #[trigger] rs[j].0)
    &&& forall|k: int, i: int, j: int|
        0 <= k < t.len() && 0 <= i < rs.len() && 0 <= j < rs.len() && i != j ==> !(same_path_of(
            #[trigger] t[k].0,
            #[trigger] rs[i].0,
        ) && same_path_of(t[k].0, #[trigger] rs[j].0))
}

proof fn lemma_round_prefix(
    t: Seq<(Seq<char>, RepoSchedule)>,
    rs: Seq<(Seq<char>, SyncStatus)>,
    now: i64,
    n: int,
)
    requires
        results_apart(t, rs),
        0 <= n <= rs.len(),
    ensures
        schedules_after(t, rs.take(n), now).len() >= t.len(),
        forall|k: int| 0 <= k < t.len() ==> #[trigger] schedules_after(t, rs.take(n), now)[k].0 == t[k].0,
        forall|k: int|
            t.len() <= k < schedules_after(t, rs.take(n), now).len() ==> exists|j: int|
                0 <= j < n && #[trigger] schedules_after(t, rs.take(n), now)[k].0 == #[trigger] rs[j].0,
        forall|i: int|
            0 <= i < n ==> #[trigger] schedule_at(schedules_after(t, rs.take(n), now), rs[i].0) == next_schedule(
                schedule_at(t, rs[i].0),
                rs[i].1,
                now,
            ),
        forall|i: int|
            n <= i < rs.len() ==> #[trigger] schedule_at(schedules_after(t, rs.take(n), now), rs[i].0)
                == schedule_at(t, rs[i].0),
    decreases n,
{
    if n == 0 {
        assert(rs.take(0) =~= Seq::<(Seq<char>, SyncStatus)>::empty());
    } else {
        let n1 = n - 1;
        lemma_round_prefix(t, rs, now, n1);
        let t1 = schedules_after(t, rs.take(n1), now);
        let t2 = schedules_after(t, rs.take(n), now);
        let p = rs[n1].0;
        assert(rs.take(n).drop_last() =~= rs.take(n1));
        assert(rs.take(n).last() == rs[n1]);
        let v = next_schedule(schedule_at(t1, p), rs[n1].1, now);
        assert(t2 == put_path(t1, p, v));
        assert(schedule_at(t1, p) == schedule_at(t, p));
        lemma_path_index_bounds(t1, p);
        let m = path_index(t1, p);
        // The entry for `p` belongs to no other result.
        assert forall|i: int| 0 <= i < rs.len() && i != n1 && m >= 0 implies !same_path_of(
            t1[m].0,
            #[trigger] rs[i].0,
        ) by {
            if m < t.len() {
                assert(t1[m].0 == t[m].0);
                assert(same_path_of(t[m].0, rs[n1].0));
            } else {
                let j = choose|j: int| 0 <= j < n1 && #[trigger] t1[m].0 == #[trigger] rs[j].0;
                assert(same_path_of(rs[j].0, rs[n1].0));
            }
        }
        if m >= 0 {
            assert(t2.len() == t1.len());
            assert forall|k: int| 0 <= k < t1.len() implies #[trigger] t2[k].0 == t1[k].0 by {}
        } else {
            assert forall|k: int| 0 <= k < t1.len() implies #[trigger] t2[k] == t1[k] by {}
        }
        assert forall|k: int| 0 <= k < t.len() implies #[trigger] t2[k].0 == t[k].0 by {
            assert(t1[k].0 == t[k].0);
        }
        assert forall|k: int| t.len() <= k < t2.len() implies exists|j: int|
            0 <= j < n && #[trigger] t2[k].0 == #[trigger] rs[j].0 by {
            if k < t1.len() {
                assert(t2[k].0 == t1[k].0);
                let j = choose|j: int| 0 <= j < n1 && #[trigger] t1[k].0 == #[trigger] rs[j].0;
                assert(t2[k].0 == rs[j].0);
            } else {
                assert(t2[k].0 == rs[n1].0);
            }
        }
        assert forall|i: int| 0 <= i < rs.len() implies #[trigger] schedule_at(t2, rs[i].0) == (if i
            < n {
            next_schedule(schedule_at(t, rs[i].0), rs[i].1, now)
        } else {
            schedule_at(t, rs[i].0)
        }) by {
            let q = rs[i].0;
            lemma_path_index_bounds(t1, q);
            if m >= 0 {
                lemma_path_index_same_keys(t1, t2, q);
            } else {
                lemma_path_index_push(t1, (p, v), q);
            }
            if i == n1 {
            } else {
                if i < n1 {
                    assert(schedule_at(t1, q) == next_schedule(schedule_at(t, rs[i].0), rs[i].1, now));
                } else {
                    assert(schedule_at(t1, q) == schedule_at(t, rs[i].0));
                }
                if m >= 0 && path_index(t1, q) == m {
                    assert(!same_path_of(t1[m].0, rs[i].0));
                }
                if m < 0 {
                    assert(!same_path_of(rs[n1].0, rs[i].0));
                }
            }
        }
    }
}

/// When the results of a round name different repositories, each one's
/// schedule after the round is the one `next_schedule` gives from its
/// schedule before: tried at `now`, its failures cleared when it synced,
/// one more when it failed, and kept otherwise.
pub proof fn lemma_round_streaks(
    t: Seq<(Seq<char>, RepoSchedule)>,
    rs: Seq<(Seq<char>, SyncStatus)>,
    now: i64,
)
    requires
        results_apart(t, rs),
    ensures
        forall|i: int|
            0 <= i < rs.len() ==> #[trigger] schedule_at(schedules_after(t, rs, now), rs[i].0) == next_schedule(
                schedule_at(t, rs[i].0),
                rs[i].1,
                now,
            ),
{
    lemma_round_prefix(t, rs, now, rs.len() as int);
    assert(rs.take(rs.len() as int) =~= rs);
}

/// A scheduling round: it takes the repositories of `es` that `selected`
/// gives, syncs them, and their results `rs` (one per taken repository, in
/// order) update the schedules `t`. A round that takes nothing leaves the
/// schedules as they were. Otherwise it takes only selectable repositories
/// of `es`; every taken one is recorded as tried at `now`, with its failures
/// as `next_schedule` says when the results are apart; and a recorded
/// schedule whose path is none of the taken ones' is unchanged.
pub proof fn lemma_round(
    es: Seq<RepoEntryView>,
    states: Seq<(Seq<char>, RepoSyncStateView)>,
    t: Seq<(Seq<char>, RepoSchedule)>,
    now: i64,
    interval_mins: u32,
    respect_backoff: bool,
    rs: Seq<(Seq<char>, SyncStatus)>,
)
    requires
        rs.len() == selected(es, states, t, now, interval_mins, respect_backoff).len(),
        forall|i: int|
            0 <= i < rs.len() ==> #[trigger] rs[i].0 == selected(es, states, t, now, interval_mins, respect_backoff)[i].path,
    ensures
        selected(es, states, t, now, interval_mins, respect_backoff).len() == 0 ==> schedules_after(t, rs, now) == t,
        forall|i: int|
            0 <= i < rs.len() ==> es.contains(#[trigger] selected(es, states, t, now, interval_mins, respect_backoff)[i])
                && selectable(selected(es, states, t, now, interval_mins, respect_backoff)[i], states, t, now, interval_mins, respect_backoff),
        forall|i: int|
            0 <= i < rs.len() ==> (#[trigger] schedule_at(schedules_after(t, rs, now), rs[i].0)).last_attempt
                == Some(now),
        results_apart(t, rs) ==> forall|i: int|
            0 <= i < rs.len() ==> #[trigger] schedule_at(schedules_after(t, rs, now), rs[i].0) == next_schedule(
                schedule_at(t, rs[i].0),
                rs[i].1,
                now,
            ),
        forall|k: int|
            0 <= k < t.len() && (forall|j: int| 0 <= j < rs.len() ==> !same_path_of(t[k].0, #[trigger] rs[j].0))
                ==> #[trigger] schedules_after(t, rs, now)[k] == t[k],
{
    let sel = selected(es, states, t, now, interval_mins, respect_backoff);
    lemma_selected_are_selectable(es, states, t, now, interval_mins, respect_backoff);
    assert forall|i: int| 0 <= i < rs.len() implies es.contains(#[trigger] sel[i]) && selectable(
        sel[i],
        states,
        t,
        now,
        interval_mins,
        respect_backoff,
    ) by {
        assert(sel.contains(sel[i]));
    }
    lemma_round_schedules(t, rs, now);
    if results_apart(t, rs) {
        lemma_round_streaks(t, rs, now);
    }
}

/// Whether a sync that ended with `status` after `attempts` tries is tried
/// again: only an error, and only `RETRY_TIMES` times.
pub open spec fn retry_wanted(status: SyncStatus, attempts: u32) -> bool {
    status == SyncStatus::Error && attempts <= RETRY_TIMES
}

/// Whether to sync once more after `attempts` tries ended in `status`.
pub fn should_retry(status: SyncStatus, attempts: u32) -> (r: bool)
    ensures
        r == retry_wanted(status, attempts),
{
    status == SyncStatus::Error && attempts <= RETRY_TIMES
}

/// `sts` are the outcomes of the tries of one sync with retries: after each
/// try but the last another was wanted, after the last none.
pub open spec fn retry_tries(sts: Seq<SyncStatus>) -> bool {
    &&& sts.len() >= 1
    &&& sts.len() <= u32::MAX
    &&& forall|i: int| 0 <= i < sts.len() - 1 ==> retry_wanted(#[trigger] sts[i], (i + 1) as u32)
    &&& !retry_wanted(sts.last(), sts.len() as u32)
}

/// A sync is tried again only after an error, and only once: a first try
/// that does not end in error is the only one, and one that does is
/// followed by exactly one more, whose outcome stands.
pub proof fn lemma_retry_once(sts: Seq<SyncStatus>)
    requires
        retry_tries(sts),
    ensures
        sts[0] != SyncStatus::Error ==> sts.len() == 1,
        sts[0] == SyncStatus::Error ==> sts.len() == 2,
{
    if sts.len() > 2 {
        assert(retry_wanted(sts[1], 2));
    }
    if sts.len() >= 2 {
        assert(retry_wanted(sts[0], 1));
    }
}

/// The platforms whose tokens are checked: those of connected accounts,
/// GitHub first.
pub open spec fn platforms_to_verify(github: AccountStatus, gitee: AccountStatus) -> Seq<Platform> {
    if github == AccountStatus::Connected && gitee == AccountStatus::Connected {
        seq![Platform::Github, Platform::Gitee]
    } else if github == AccountStatus::Connected {
        seq![Platform::Github]
    } else if gitee == AccountStatus::Connected {
        seq![Platform::Gitee]
    } else {
        seq![]
    }
}

/// The platforms whose tokens a check covers.
pub fn accounts_to_verify(accounts: &Accounts) -> (r: Vec<Platform>)
    ensures
        r@ == platforms_to_verify(accounts.github.status, accounts.gitee.status),
{
    let mut r: Vec<Platform> = Vec::new();
    if accounts.github.status == AccountStatus::Connected {
        r.push(Platform::Github);
    }
    if accounts.gitee.status == AccountStatus::Connected {
        r.push(Platform::Gitee);
    }
    assert(r@ =~= platforms_to_verify(accounts.github.status, accounts.gitee.status));
    r
}

/// Whether tokens are to be checked at `now` when they were last checked at
/// `last`: never checked, or the interval has passed.
pub open spec fn token_check_due_at(last: Option<i64>, now: i64) -> bool {
    match last {
        None => true,
        Some(t) => now - t >= TOKEN_VERIFY_INTERVAL_MINS * 60,
    }
}

/// Tokens are checked at most once in six hours: after a check at `t1`,
/// whatever it found, the next is due at `t2` exactly when six hours have
/// passed; and a check is due at once when none was made.
pub proof fn lemma_token_window(t1: i64, t2: i64)
    ensures
        token_check_due_at(Some(t1), t2) <==> t2 - t1 >= 6 * 60 * 60,
        token_check_due_at(None, t2),
{
}

/// The scheduler's shared state: the schedules, whether a round is running
/// (automatic and manual rounds exclude each other), and when tokens were
/// last checked.
#[derive(Debug)]
pub struct Scheduler {
    pub schedules: ScheduleTable,
    pub round_busy: bool,
    /// Unix seconds of the last token check.
    pub last_token_verify: Option<i64>,
}

impl Default for Scheduler {
    /// No schedules, idle, tokens never checked.
    fn default() -> (r: Scheduler)
        ensures
            r.schedules@.len() == 0,
            !r.round_busy,
            r.last_token_verify is None,
    {
        Scheduler { schedules: ScheduleTable::new(), round_busy: false, last_token_verify: None }
    }
}

impl Scheduler {
    /// Claims the right to run a round; false when one is running.
    pub fn try_begin_round(&mut self) -> (r: bool)
        ensures
            r == !old(self).round_busy,
            final(self).round_busy,
            final(self).schedules@ == old(self).schedules@,
            final(self).last_token_verify == old(self).last_token_verify,
    {
        if self.round_busy {
            false
        } else {
            self.round_busy = true;
            true
        }
    }

    /// Releases the round.
    pub fn end_round(&mut self)
        ensures
            !final(self).round_busy,
            final(self).schedules@ == old(self).schedules@,
            final(self).last_token_verify == old(self).last_token_verify,
    {
        self.round_busy = false;
    }

    /// Whether tokens are to be checked at `now`: when never checked, or
    /// when the interval has passed since the last check; a check that is
    /// due is recorded as done at `now`, whatever its result.
    pub fn token_check_due(&mut self, now: i64) -> (r: bool)
        ensures
            r == token_check_due_at(old(self).last_token_verify, now),
            final(self).last_token_verify == if r {
                Some(now)
            } else {
                old(self).last_token_verify
            },
            final(self).schedules@ == old(self).schedules@,
            final(self).round_busy == old(self).round_busy,
    {
        match self.last_token_verify {
            Some(t) => {
                if (now as i128) - (t as i128) < (TOKEN_VERIFY_INTERVAL_MINS as i128) * 60 {
                    return false;
                }
            },
            None => {},
        }
        self.last_token_verify = Some(now);
        true
    }
}

} // verus!
