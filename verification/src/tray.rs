//! What the menu bar shows: one status for all repositories, with counts.
use vstd::prelude::*;

use crate::state::SyncTable;
use crate::sync::{RepoSyncStateView, SyncStatus};
use crate::text::{decimal, push_decimal, push_str};

verus! {

broadcast use vstd::string::group_string_axioms;

/// The menu bar's overall status.
#[derive(Debug, Clone, Copy, PartialEq, Eq, Structural)]
pub enum TrayStatus {
    Idle,
    Syncing,
    Conflict,
    Error,
}

/// Some repository has status `st`.
pub open spec fn any_with(t: Seq<(Seq<char>, RepoSyncStateView)>, st: SyncStatus) -> bool {
    exists|i: int| 0 <= i < t.len() && #[trigger] t[i].1.status == st
}

/// The overall status: syncing over conflict over error (a missing
/// repository counts as an error), idle otherwise.
pub open spec fn aggregate_of(t: Seq<(Seq<char>, RepoSyncStateView)>) -> TrayStatus {
    if any_with(t, SyncStatus::Syncing) {
        TrayStatus::Syncing
    } else if any_with(t, SyncStatus::Conflict) {
        TrayStatus::Conflict
    } else if any_with(t, SyncStatus::Error) || any_with(t, SyncStatus::Missing) {
        TrayStatus::Error
    } else {
        TrayStatus::Idle
    }
}

/// The overall status of all repositories.
pub fn aggregate(table: &SyncTable) -> (r: TrayStatus)
    ensures
        r == aggregate_of(table@),
{
    let mut has_conflict = false;
    let mut has_error = false;
    let mut i: usize = 0;
    let n = table.len();
    while i < n
        invariant
            n == table@.len(),
            i <= n,
            forall|j: int| 0 <= j < i ==> table@[j].1.status != SyncStatus::Syncing,
            has_conflict == exists|j: int|
                0 <= j < i && #[trigger] table@[j].1.status == SyncStatus::Conflict,
            has_error == exists|j: int|
                0 <= j < i && (#[trigger] table@[j].1.status == SyncStatus::Error
                    || table@[j].1.status == SyncStatus::Missing),
        decreases n - i,
    {
        let st = table.status_at(i);
        match st {
            SyncStatus::Syncing => {
                assert(any_with(table@, SyncStatus::Syncing));
                return TrayStatus::Syncing;
            },
            SyncStatus::Conflict => {
                has_conflict = true;
            },
            SyncStatus::Error | SyncStatus::Missing => {
                has_error = true;
            },
            _ => {},
        }
        i = i + 1;
    }
    proof {
        if has_error && !any_with(table@, SyncStatus::Error) {
            let j = choose|j: int|
                0 <= j < i && (#[trigger] table@[j].1.status == SyncStatus::Error
                    || table@[j].1.status == SyncStatus::Missing);
            assert(table@[j].1.status == SyncStatus::Missing);
        }
    }
    if has_conflict {
        TrayStatus::Conflict
    } else if has_error {
        TrayStatus::Error
    } else {
        TrayStatus::Idle
    }
}

/// What the menu bar shows, by the statuses of the repositories: syncing
/// while any repository syncs; otherwise in conflict while any is in
/// conflict; otherwise in error as soon as any failed or went missing; and
/// idle exactly when every repository is synced or pending.
pub proof fn lemma_tray_status(t: Seq<(Seq<char>, RepoSyncStateView)>)
    ensures
        (exists|i: int| 0 <= i < t.len() && #[trigger] t[i].1.status == SyncStatus::Syncing)
            ==> aggregate_of(t) == TrayStatus::Syncing,
        (forall|i: int| 0 <= i < t.len() ==> #[trigger] t[i].1.status != SyncStatus::Syncing) && (exists|i: int|
            0 <= i < t.len() && #[trigger] t[i].1.status == SyncStatus::Conflict) ==> aggregate_of(t)
            == TrayStatus::Conflict,
        (forall|i: int|
            0 <= i < t.len() ==> #[trigger] t[i].1.status != SyncStatus::Syncing && t[i].1.status
                != SyncStatus::Conflict) && (exists|i: int|
            0 <= i < t.len() && (#[trigger] t[i].1.status == SyncStatus::Error || t[i].1.status
                == SyncStatus::Missing)) ==> aggregate_of(t) == TrayStatus::Error,
        aggregate_of(t) == TrayStatus::Idle <==> (forall|i: int|
            0 <= i < t.len() ==> #[trigger] t[i].1.status == SyncStatus::Synced || t[i].1.status
                == SyncStatus::Pending),
{
    if (forall|i: int|
        0 <= i < t.len() ==> #[trigger] t[i].1.status != SyncStatus::Syncing && t[i].1.status
            != SyncStatus::Conflict) && (exists|i: int|
        0 <= i < t.len() && (#[trigger] t[i].1.status == SyncStatus::Error || t[i].1.status
            == SyncStatus::Missing)) {
        let i = choose|i: int|
            0 <= i < t.len() && (#[trigger] t[i].1.status == SyncStatus::Error || t[i].1.status
                == SyncStatus::Missing);
        assert(!any_with(t, SyncStatus::Syncing));
        assert(!any_with(t, SyncStatus::Conflict));
        if t[i].1.status == SyncStatus::Error {
            assert(any_with(t, SyncStatus::Error));
        } else {
            assert(any_with(t, SyncStatus::Missing));
        }
    }
    if aggregate_of(t) == TrayStatus::Idle {
        assert forall|i: int| 0 <= i < t.len() implies #[trigger] t[i].1.status == SyncStatus::Synced
            || t[i].1.status == SyncStatus::Pending by {
            let st = t[i].1.status;
            if st == SyncStatus::Syncing {
                assert(any_with(t, SyncStatus::Syncing));
            } else if st == SyncStatus::Conflict {
                assert(any_with(t, SyncStatus::Conflict));
            } else if st == SyncStatus::Error {
                assert(any_with(t, SyncStatus::Error));
            } else if st == SyncStatus::Missing {
                assert(any_with(t, SyncStatus::Missing));
            }
        }
    }
}

/// How many repositories are in conflict.
pub open spec fn conflict_count(t: Seq<(Seq<char>, RepoSyncStateView)>) -> nat
    decreases t.len(),
{
    if t.len() == 0 {
        0
    } else {
        conflict_count(t.drop_last()) + if t.last().1.status == SyncStatus::Conflict {
            1nat
        } else {
            0nat
        }
    }
}

/// How many repositories are in error or missing.
pub open spec fn error_count(t: Seq<(Seq<char>, RepoSyncStateView)>) -> nat
    decreases t.len(),
{
    if t.len() == 0 {
        0
    } else {
        error_count(t.drop_last()) + if t.last().1.status == SyncStatus::Error || t.last().1.status
            == SyncStatus::Missing {
            1nat
        } else {
            0nat
        }
    }
}

/// The counts add up over a table split in two, and a single repository
/// counts once as in conflict exactly when it is in conflict, and once as
/// in error exactly when it failed or is missing.
pub proof fn lemma_counts_add(t1: Seq<(Seq<char>, RepoSyncStateView)>, t2: Seq<(Seq<char>, RepoSyncStateView)>)
    ensures
        conflict_count(t1 + t2) == conflict_count(t1) + conflict_count(t2),
        error_count(t1 + t2) == error_count(t1) + error_count(t2),
        t2.len() == 1 ==> (conflict_count(t2) == if t2[0].1.status == SyncStatus::Conflict {
            1nat
        } else {
            0nat
        }),
        t2.len() == 1 ==> (error_count(t2) == if t2[0].1.status == SyncStatus::Error || t2[0].1.status
            == SyncStatus::Missing {
            1nat
        } else {
            0nat
        }),
    decreases t2.len(),
{
    if t2.len() > 0 {
        lemma_counts_add(t1, t2.drop_last());
        assert((t1 + t2).drop_last() =~= t1 + t2.drop_last());
        assert((t1 + t2).last() == t2.last());
    } else {
        assert(t1 + t2 =~= t1);
    }
    if t2.len() == 1 {
        assert(t2.drop_last() =~= Seq::<(Seq<char>, RepoSyncStateView)>::empty());
    }
}

/// Some repository is counted in conflict exactly when one is in conflict,
/// and in error exactly when one failed or is missing; no repository is
/// counted twice.
pub proof fn lemma_counts_law(t: Seq<(Seq<char>, RepoSyncStateView)>)
    ensures
        conflict_count(t) > 0 <==> exists|i: int| 0 <= i < t.len() && #[trigger] t[i].1.status == SyncStatus::Conflict,
        error_count(t) > 0 <==> exists|i: int|
            0 <= i < t.len() && (#[trigger] t[i].1.status == SyncStatus::Error || t[i].1.status
                == SyncStatus::Missing),
        conflict_count(t) + error_count(t) <= t.len(),
    decreases t.len(),
{
    if t.len() > 0 {
        let r = t.drop_last();
        lemma_counts_law(r);
        if exists|i: int| 0 <= i < r.len() && #[trigger] r[i].1.status == SyncStatus::Conflict {
            let i = choose|i: int| 0 <= i < r.len() && #[trigger] r[i].1.status == SyncStatus::Conflict;
            assert(t[i] == r[i]);
        }
        if exists|i: int|
            0 <= i < r.len() && (#[trigger] r[i].1.status == SyncStatus::Error || r[i].1.status
                == SyncStatus::Missing) {
            let i = choose|i: int|
                0 <= i < r.len() && (#[trigger] r[i].1.status == SyncStatus::Error || r[i].1.status
                    == SyncStatus::Missing);
            assert(t[i] == r[i]);
        }
        if exists|i: int| 0 <= i < t.len() && #[trigger] t[i].1.status == SyncStatus::Conflict {
            let i = choose|i: int| 0 <= i < t.len() && #[trigger] t[i].1.status == SyncStatus::Conflict;
            if i < r.len() {
                assert(r[i] == t[i]);
            }
        }
        if exists|i: int|
            0 <= i < t.len() && (#[trigger] t[i].1.status == SyncStatus::Error || t[i].1.status
                == SyncStatus::Missing) {
            let i = choose|i: int|
                0 <= i < t.len() && (#[trigger] t[i].1.status == SyncStatus::Error || t[i].1.status
                    == SyncStatus::Missing);
            if i < r.len() {
                assert(r[i] == t[i]);
            }
        }
    }
}

/// `n`, held at the largest `u32`.
pub open spec fn capped(n: nat) -> u32 {
    if n < u32::MAX {
        n as u32
    } else {
        u32::MAX
    }
}

/// The number of repositories in conflict, and of those in error or missing.
pub fn counts(table: &SyncTable) -> (r: (u32, u32))
    ensures
        r.0 == capped(conflict_count(table@)),
        r.1 == capped(error_count(table@)),
{
    let mut conflict: u32 = 0;
    let mut error: u32 = 0;
    let mut i: usize = 0;
    let n = table.len();
    while i < n
        invariant
            n == table@.len(),
            i <= n,
            conflict == capped(conflict_count(table@.take(i as int))),
            error == capped(error_count(table@.take(i as int))),
        decreases n - i,
    {
        proof {
            assert(table@.take(i + 1).drop_last() =~= table@.take(i as int));
            assert(table@.take(i + 1).last() == table@[i as int]);
        }
        match table.status_at(i) {
            SyncStatus::Conflict => {
                conflict = conflict.saturating_add(1);
            },
            SyncStatus::Error | SyncStatus::Missing => {
                error = error.saturating_add(1);
            },
            _ => {},
        }
        i = i + 1;
    }
    assert(table@.take(n as int) =~= table@);
    (conflict, error)
}

/// The status line of the menu.
pub open spec fn status_text(status: TrayStatus, conflict_n: u32, error_n: u32) -> Seq<char> {
    match status {
        TrayStatus::Idle => "就绪"@,
        TrayStatus::Syncing => "同步中…"@,
        TrayStatus::Conflict => decimal(conflict_n as nat) + " 个冲突待处理"@,
        TrayStatus::Error => decimal(error_n as nat) + " 个出错"@,
    }
}

/// The status line of the menu.
pub fn status_line(status: TrayStatus, conflict_n: u32, error_n: u32) -> (r: String)
    ensures
        r@ == status_text(status, conflict_n, error_n),
{
    let mut r = String::new();
    match status {
        TrayStatus::Idle => push_str(&mut r, "就绪"),
        TrayStatus::Syncing => push_str(&mut r, "同步中…"),
        TrayStatus::Conflict => {
            push_decimal(&mut r, conflict_n as u64);
            push_str(&mut r, " 个冲突待处理");
        },
        TrayStatus::Error => {
            push_decimal(&mut r, error_n as u64);
            push_str(&mut r, " 个出错");
        },
    }
    assert(r@ =~= status_text(status, conflict_n, error_n));
    r
}

/// The tooltip: the app's name and the status line.
pub fn tooltip_for(status: TrayStatus, conflict_n: u32, error_n: u32) -> (r: String)
    ensures
        r@ == "GitFerry · "@ + status_text(status, conflict_n, error_n),
{
    let mut r = String::new();
    push_str(&mut r, "GitFerry · ");
    let line = status_line(status, conflict_n, error_n);
    push_str(&mut r, line.as_str());
    assert(r@ =~= "GitFerry · "@ + status_text(status, conflict_n, error_n));
    r
}

} // verus!
