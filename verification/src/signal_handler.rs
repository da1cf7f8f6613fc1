//! The signal-driven lifecycle reconciler: the pid table that maps child
//! pids back to unit ids, and the state transitions a reaped child causes —
//! stopped or failed according to how it exited, with the restart decision
//! the configured policy dictates. The blocking signal wait and `waitpid`
//! loop live in the surrounding binary.

use vstd::prelude::*;
use crate::scheduler;
use crate::units::{InternalId, RestartPolicy, ServiceStatus, UnitTable};

verus! {

/// The pid table: which supervised child pid belongs to which unit id.
/// Guarded by its own token, never locked together with the unit table.
pub struct PidTable {
    pub entries: Vec<(u32, InternalId)>,
}

impl PidTable {
    /// Each pid appears at most once.
    pub open spec fn wf(&self) -> bool {
        forall|i: int, j: int|
            0 <= i < j < self.entries@.len() ==> (#[trigger] self.entries@[i]).0
                != (#[trigger] self.entries@[j]).0
    }

    pub open spec fn has_pid(&self, pid: u32) -> bool {
        exists|i: int| 0 <= i < self.entries@.len() && (#[trigger] self.entries@[i]).0 == pid
    }

    pub open spec fn maps(&self, pid: u32, id: InternalId) -> bool {
        exists|i: int| 0 <= i < self.entries@.len() && #[trigger] self.entries@[i] == (pid, id)
    }

    pub fn new() -> (r: PidTable)
        ensures
            r.entries@.len() == 0,
            r.wf(),
    {
        PidTable { entries: Vec::new() }
    }

    /// Record a freshly spawned child.
    pub fn insert(&mut self, pid: u32, id: InternalId)
        requires
            old(self).wf(),
            !old(self).has_pid(pid),
        ensures
            final(self).wf(),
            final(self).entries@ == old(self).entries@.push((pid, id)),
            final(self).maps(pid, id),
    {
        self.entries.push((pid, id));
        proof {
            assert(final(self).entries@[final(self).entries@.len() - 1] == (pid, id));
            assert forall|i: int, j: int|
                0 <= i < j < self.entries@.len() implies (#[trigger] self.entries@[i]).0
                != (#[trigger] self.entries@[j]).0 by {
                if j == self.entries@.len() - 1 {
                    if self.entries@[i].0 == pid {
                        assert(old(self).entries@[i].0 == pid);
                    }
                }
            }
        }
    }

    /// Look up and remove the entry of a reaped pid. Returns the unit id the
    /// pid belonged to, or nothing for an unknown pid (which leaves the
    /// table unchanged).
    pub fn remove(&mut self, pid: u32) -> (r: Option<InternalId>)
        requires
            old(self).wf(),
        ensures
            final(self).wf(),
            match r {
                Some(id) => {
                    &&& old(self).maps(pid, id)
                    &&& !final(self).has_pid(pid)
                    &&& forall|p2: u32, id2: InternalId|
                        p2 != pid ==> #[trigger] final(self).maps(p2, id2) == old(self).maps(
                            p2,
                            id2,
                        )
                },
                None => {
                    &&& !old(self).has_pid(pid)
                    &&& final(self).entries@ == old(self).entries@
                },
            },
    {
        let n = self.entries.len();
        let mut i: usize = 0;
        while i < n
            invariant
                n == self.entries@.len(),
                i <= n,
                self.wf(),
                self.entries@ == old(self).entries@,
                forall|j: int| 0 <= j < i ==> (#[trigger] self.entries@[j]).0 != pid,
            decreases n - i,
        {
            if self.entries[i].0 == pid {
                let ghost pre = self.entries@;
                let e = self.entries.remove(i);
                proof {
                    assert(pre[i as int] == e);
                    assert forall|q: int|
                        0 <= q < self.entries@.len() implies #[trigger] self.entries@[q] == (
                    if q < i {
                        pre[q]
                    } else {
                        pre[q + 1]
                    }) by {}
                    assert forall|a: int, b: int|
                        0 <= a < b < self.entries@.len() implies (#[trigger] self.entries@[a]).0
                        != (#[trigger] self.entries@[b]).0 by {
                        let a0: int = if a < i { a } else { a + 1 };
                        let b0: int = if b < i { b } else { b + 1 };
                        assert(self.entries@[a] == pre[a0] && self.entries@[b] == pre[b0]);
                    }
                    if final(self).has_pid(pid) {
                        let q = choose|q: int|
                            0 <= q < self.entries@.len() && (#[trigger] self.entries@[q]).0 == pid;
                        let q0: int = if q < i { q } else { q + 1 };
                        assert(pre[q0].0 == pid && pre[i as int].0 == pid);
                        assert(false);
                    }
                    assert forall|p2: u32, id2: InternalId|
                        p2 != pid implies #[trigger] final(self).maps(p2, id2) == old(self).maps(
                        p2,
                        id2,
                    ) by {
                        if final(self).maps(p2, id2) {
                            let q = choose|q: int|
                                0 <= q < self.entries@.len() && #[trigger] self.entries@[q] == (
                                p2,
                                id2,
                                );
                            let q0: int = if q < i { q } else { q + 1 };
                            assert(pre[q0] == (p2, id2));
                        }
                        if old(self).maps(p2, id2) {
                            let q0 = choose|q0: int|
                                0 <= q0 < pre.len() && #[trigger] pre[q0] == (p2, id2);
                            assert(pre[q0].0 == p2);
                            assert(q0 != i);
                            let q: int = if q0 < i { q0 } else { q0 - 1 };
                            assert(self.entries@[q] == pre[q0]);
                            assert(final(self).maps(p2, id2));
                        }
                    }
                }
                return Some(e.1);
            }
            i += 1;
        }
        proof {
            if old(self).has_pid(pid) {
                let j = choose|j: int|
                    0 <= j < old(self).entries@.len() && (#[trigger] old(self).entries@[j]).0
                        == pid;
                assert(self.entries@[j].0 == pid);
                assert(false);
            }
        }
        None
    }
}

/// Whether a reaped child's termination counts as a clean exit: a normal
/// exit with code 0. A non-zero exit code or death by signal is abnormal.
pub fn exit_is_clean(exit_code: Option<i32>) -> (r: bool)
    ensures
        r == (exit_code == Some(0i32)),
{
    match exit_code {
        Some(c) => c == 0,
        None => false,
    }
}

/// The restart decision the policy dictates for a termination.
pub open spec fn restart_due(policy: RestartPolicy, clean: bool) -> bool {
    match policy {
        RestartPolicy::Never => false,
        RestartPolicy::OnFailure => !clean,
        RestartPolicy::Always => true,
    }
}

/// Reconcile one reaped child with the unit table: the service at table
/// index `i` becomes `Stopped` on a clean exit and `Failed` otherwise, its
/// pid is cleared, and the policy decides whether the caller should respawn
/// it. On an abnormal exit the caller must then propagate failure
/// (`scheduler::fail_requires_dependents`).
pub fn reconcile_exit(t: &mut UnitTable, i: usize, clean: bool) -> (restart: bool)
    requires
        old(t).ids_sorted(),
        i < old(t).units@.len(),
        old(t).units@[i as int].is_service(),
    ensures
        final(t).units@ == old(t).units@.update(
            i as int,
            UnitTable::exited_unit(old(t).units@[i as int], clean),
        ),
        final(t).ids_sorted(),
        old(t).wf() ==> final(t).wf(),
        final(t).units@[i as int].service().status == (if clean {
            ServiceStatus::Stopped
        } else {
            ServiceStatus::Failed
        }),
        final(t).units@[i as int].service().pid is None,
        restart == restart_due(old(t).units@[i as int].service().restart, clean),
    {
    let restart = match &t.units[i].specialized {
        crate::units::UnitSpecialized::Service(s) => {
            match s.restart {
                RestartPolicy::Never => false,
                RestartPolicy::OnFailure => !clean,
                RestartPolicy::Always => true,
            }
        },
        _ => false,
    };
    t.mark_exited(i, clean);
    restart
}

/// Respawn path for a restarted service: the unit at table index `i`, known
/// stopped or failed, was forked again as `pid` and becomes `Starting` (when
/// it signals readiness) or `Running`. The socket units it is activated by
/// keep their descriptors, so the restarted child sees the same sockets.
pub fn respawn_service(t: &mut UnitTable, i: usize, pid: u32)
    requires
        old(t).ids_sorted(),
        i < old(t).units@.len(),
        old(t).units@[i as int].is_service(),
    ensures
        final(t).units@ == old(t).units@.update(
            i as int,
            UnitTable::spawned_unit(old(t).units@[i as int], pid),
        ),
        final(t).ids_sorted(),
        old(t).wf() ==> final(t).wf(),
        final(t).units@[i as int].service().pid == Some(pid),
        final(t).units@[i as int].wf(),
{
    t.mark_spawned(i, pid);
}

/// Handle one reaped child end to end: drop its pid-table entry, reconcile
/// the exit, and propagate failure to `requires` dependents if it was
/// abnormal. Returns the affected unit id and whether the policy asks for a
/// respawn; an unknown pid (no entry, or an id that names no service)
/// changes the unit table only by the failure propagation it may owe.
pub fn handle_child_exit(
    t: &mut UnitTable,
    pids: &mut PidTable,
    pid: u32,
    exit_code: Option<i32>,
) -> (r: Option<(InternalId, bool)>)
    requires
        old(t).ids_sorted(),
        old(pids).wf(),
    ensures
        final(t).ids_sorted(),
        old(t).wf() ==> final(t).wf(),
        final(pids).wf(),
        !final(pids).has_pid(pid),
        scheduler::failed_closed(*final(t)) || (r matches Some(p) && p.1),
        match r {
            Some(p) => {
                &&& old(pids).maps(pid, p.0)
                &&& exists|i: int|
                    0 <= i < old(t).units@.len() && (#[trigger] old(t).units@[i]).id == p.0
                        && old(t).units@[i].is_service() && p.1 == restart_due(
                        old(t).units@[i].service().restart,
                        exit_code == Some(0i32),
                    ) && scheduler::only_failures_added_seq(
                        old(t).units@.update(
                            i,
                            UnitTable::exited_unit(old(t).units@[i], exit_code == Some(0i32)),
                        ),
                        final(t).units@,
                    )
            },
            None => forall|id: InternalId|
                old(pids).maps(pid, id) ==> !crate::resolver::is_service_id(*old(t), id),
        },
{
    let clean = exit_is_clean(exit_code);
    let id = match pids.remove(pid) {
        None => {
            proof {
                assert forall|id2: InternalId|
                    old(pids).maps(pid, id2) implies !crate::resolver::is_service_id(
                    *old(t),
                    id2,
                ) by {
                    if old(pids).maps(pid, id2) {
                        let k = choose|k: int|
                            0 <= k < old(pids).entries@.len() && #[trigger] old(
                                pids,
                            ).entries@[k] == (pid, id2);
                        assert(old(pids).entries@[k].0 == pid);
                        assert(old(pids).has_pid(pid));
                        assert(false);
                    }
                }
            }
            scheduler::fail_requires_dependents(t);
            return None;
        },
        Some(id) => id,
    };
    proof {
        assert forall|id2: InternalId| old(pids).maps(pid, id2) implies id2 == id by {
            let k = choose|k: int|
                0 <= k < old(pids).entries@.len() && #[trigger] old(pids).entries@[k] == (
                pid,
                id2,
                );
            let k2 = choose|k2: int|
                0 <= k2 < old(pids).entries@.len() && #[trigger] old(pids).entries@[k2] == (
                pid,
                id,
                );
            assert(old(pids).entries@[k].0 == pid && old(pids).entries@[k2].0 == pid);
            if k != k2 {
                assert(false);
            }
        }
    }
    let i = match t.find_index(id) {
        None => {
            proof {
                if crate::resolver::is_service_id(*t, id) {
                    assert(t.has_id(id));
                }
            }
            scheduler::fail_requires_dependents(t);
            return None;
        },
        Some(i) => i,
    };
    let is_srvc = match &t.units[i].specialized {
        crate::units::UnitSpecialized::Service(_) => true,
        _ => false,
    };
    if !is_srvc {
        proof {
            if crate::resolver::is_service_id(*t, id) {
                let w = choose|w: int|
                    0 <= w < t.units@.len() && (#[trigger] t.units@[w]).id == id
                        && t.units@[w].is_service();
                if w < i {
                    assert(t.units@[w].id < t.units@[i as int].id);
                }
                if w > i {
                    assert(t.units@[i as int].id < t.units@[w].id);
                }
                assert(false);
            }
        }
        scheduler::fail_requires_dependents(t);
        return None;
    }
    let ghost t_before = *t;
    let restart = reconcile_exit(t, i, clean);
    let ghost t_mid = *t;
    if !restart {
        scheduler::fail_requires_dependents(t);
    }
    proof {
        assert(t_before == *old(t));
        assert(t_mid.units@ == old(t).units@.update(
            i as int,
            UnitTable::exited_unit(old(t).units@[i as int], clean),
        ));
        if restart {
            assert(scheduler::only_failures_added_seq(t_mid.units@, final(t).units@)) by {
                assert(forall|x: int|
                    0 <= x < t_mid.units@.len() ==> (#[trigger] final(t).units@[x])
                        == t_mid.units@[x]);
            }
        }
        assert(old(t).units@[i as int].id == id);
    }
    Some((id, restart))
}

} // verus!
