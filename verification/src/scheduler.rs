//! The startup scheduler: tracks which services are pending, which units are
//! completed, and the observed start order, while the surrounding binary
//! forks the children (possibly many at a time on a worker pool). The start
//! order it admits is always a linear extension of the `after` relation, and
//! a failed `requires` predecessor drags all its dependents down with it.

use vstd::prelude::*;
use crate::resolver;
use crate::resolver::{
    after_contains, after_ok, is_service_id, linear_extension, pending_has_id, pending_has_index,
    pending_indices_ok, unit_ready,
};
use crate::units::{InternalId, ServiceStatus, UnitTable};

verus! {

/// Two tables of the same shape: same length, ids, `after` sets and kinds.
/// Status changes preserve the shape.
pub open spec fn same_shape(t1: UnitTable, t2: UnitTable) -> bool {
    &&& t1.units@.len() == t2.units@.len()
    &&& forall|i: int|
        0 <= i < t1.units@.len() ==> (#[trigger] t2.units@[i]).id == t1.units@[i].id
            && t2.units@[i].dependencies.after@ == t1.units@[i].dependencies.after@
            && (t2.units@[i].is_service() <==> t1.units@[i].is_service())
}

/// The resolver's shape-level notions do not see statuses: they carry over
/// between tables of the same shape.
pub proof fn lemma_same_shape(t1: UnitTable, t2: UnitTable)
    requires
        same_shape(t1, t2),
    ensures
        forall|id: InternalId, d: InternalId| #[trigger]
            after_contains(t1, id, d) == after_contains(t2, id, d),
        forall|id: InternalId| #[trigger] is_service_id(t1, id) == is_service_id(t2, id),
        forall|pend: Seq<usize>, d: InternalId|
            pending_indices_ok(t1, pend) ==> #[trigger] pending_has_id(t1, pend, d)
                == pending_has_id(t2, pend, d),
        forall|pend: Seq<usize>| #[trigger]
            pending_indices_ok(t1, pend) == pending_indices_ok(t2, pend),
        t1.ids_sorted() == t2.ids_sorted(),
        forall|order: Seq<InternalId>| #[trigger]
            linear_extension(t1, order) == linear_extension(t2, order),
{
    assert forall|id: InternalId, d: InternalId| #[trigger] after_contains(t1, id, d)
        == after_contains(t2, id, d) by {
        if after_contains(t1, id, d) {
            let i = choose|i: int|
                0 <= i < t1.units@.len() && (#[trigger] t1.units@[i]).id == id
                    && t1.units@[i].dependencies.after@.contains(d);
            assert(t2.units@[i].id == id && t2.units@[i].dependencies.after@.contains(d));
        }
        if after_contains(t2, id, d) {
            let i = choose|i: int|
                0 <= i < t2.units@.len() && (#[trigger] t2.units@[i]).id == id
                    && t2.units@[i].dependencies.after@.contains(d);
            assert(t1.units@[i].id == id && t1.units@[i].dependencies.after@.contains(d));
        }
    }
    assert forall|id: InternalId| #[trigger] is_service_id(t1, id) == is_service_id(t2, id) by {
        if is_service_id(t1, id) {
            let i = choose|i: int|
                0 <= i < t1.units@.len() && (#[trigger] t1.units@[i]).id == id
                    && t1.units@[i].is_service();
            assert(t2.units@[i].id == id && t2.units@[i].is_service());
        }
        if is_service_id(t2, id) {
            let i = choose|i: int|
                0 <= i < t2.units@.len() && (#[trigger] t2.units@[i]).id == id
                    && t2.units@[i].is_service();
            assert(t1.units@[i].id == id && t1.units@[i].is_service());
        }
    }
    assert forall|pend: Seq<usize>, d: InternalId|
        pending_indices_ok(t1, pend) implies #[trigger] pending_has_id(t1, pend, d)
        == pending_has_id(t2, pend, d) by {
        if pending_has_id(t1, pend, d) {
            let p = choose|p: int|
                0 <= p < pend.len() && t1.units@[#[trigger] pend[p] as int].id == d;
            assert(t2.units@[pend[p] as int].id == d);
        }
        if pending_has_id(t2, pend, d) {
            let p = choose|p: int|
                0 <= p < pend.len() && t2.units@[#[trigger] pend[p] as int].id == d;
            assert(t1.units@[pend[p] as int].id == d);
        }
    }
    assert forall|pend: Seq<usize>| #[trigger] pending_indices_ok(t1, pend) == pending_indices_ok(
        t2,
        pend,
    ) by {
        if pending_indices_ok(t1, pend) {
            assert forall|p: int| 0 <= p < pend.len() implies (#[trigger] pend[p])
                < t2.units@.len() && t2.units@[pend[p] as int].is_service() by {
                assert(t1.units@[pend[p] as int].is_service());
            }
        }
        if pending_indices_ok(t2, pend) {
            assert forall|p: int| 0 <= p < pend.len() implies (#[trigger] pend[p])
                < t1.units@.len() && t1.units@[pend[p] as int].is_service() by {
                assert(t2.units@[pend[p] as int].is_service());
            }
        }
    }
    assert forall|i: int, j: int| 0 <= i < j < t1.units@.len() implies (t1.units@[i].id
        < t1.units@[j].id <==> t2.units@[i].id < t2.units@[j].id) by {}
    assert(t1.ids_sorted() == t2.ids_sorted());
    assert forall|order: Seq<InternalId>| #[trigger] linear_extension(t1, order)
        == linear_extension(t2, order) by {
        if linear_extension(t1, order) {
            assert forall|j: int, k: int|
                0 <= j < order.len() && 0 <= k < order.len() && #[trigger] after_contains(
                    t2,
                    order[k],
                    order[j],
                ) implies j < k by {
                assert(after_contains(t1, order[k], order[j]));
            }
        }
        if linear_extension(t2, order) {
            assert forall|j: int, k: int|
                0 <= j < order.len() && 0 <= k < order.len() && #[trigger] after_contains(
                    t1,
                    order[k],
                    order[j],
                ) implies j < k by {
                assert(after_contains(t2, order[k], order[j]));
            }
        }
    }
}

/// The startup scheduler's bookkeeping: the table indices of the services
/// that were not yet submitted for start, the ids of the units counted as
/// completed (sockets and targets from the outset, services once their start
/// attempt returned), and the ids of the services that started, in the order
/// their starts were observed.
pub struct Scheduler {
    pub pending: Vec<usize>,
    pub completed: Vec<InternalId>,
    pub started_order: Vec<InternalId>,
}

impl Scheduler {
    /// The scheduler's invariant against the table it drives. Among other
    /// things the observed start order is a linear extension of the `after`
    /// relation — no service starts before an `after` predecessor that
    /// itself starts.
    pub open spec fn wf(&self, t: UnitTable) -> bool {
        &&& pending_indices_ok(t, self.pending@)
        &&& forall|p: int, q: int|
            0 <= p < q < self.pending@.len() ==> self.pending@[p] < self.pending@[q]
        &&& forall|k: int|
            0 <= k < self.started_order@.len() ==> is_service_id(
                t,
                #[trigger] self.started_order@[k],
            ) && !pending_has_id(t, self.pending@, self.started_order@[k])
        &&& self.started_order@.no_duplicates()
        &&& forall|k: int|
            0 <= k < self.started_order@.len() ==> self.completed@.contains(
                #[trigger] self.started_order@[k],
            )
        &&& forall|p: int|
            0 <= p < self.pending@.len() ==> !self.completed@.contains(
                t.units@[#[trigger] self.pending@[p] as int].id,
            )
        &&& forall|k: int, d: InternalId|
            0 <= k < self.started_order@.len() && #[trigger] after_contains(
                t,
                self.started_order@[k],
                d,
            ) ==> !pending_has_id(t, self.pending@, d)
        &&& linear_extension(t, self.started_order@)
    }

    /// A fresh scheduler over a freshly loaded table: every service pending,
    /// sockets and targets pre-completed, nothing started.
    pub fn new(t: &UnitTable) -> (r: Scheduler)
        requires
            t.ids_sorted(),
        ensures
            r.wf(*t),
            r.started_order@.len() == 0,
            forall|j: int|
                0 <= j < t.units@.len() && (#[trigger] t.units@[j]).is_service()
                    ==> pending_has_index(r.pending@, j),
            forall|j: int|
                0 <= j < t.units@.len() && !(#[trigger] t.units@[j]).is_service()
                    ==> r.completed@.contains(t.units@[j].id),
            forall|id: InternalId|
                #[trigger] r.completed@.contains(id) ==> exists|j: int|
                    0 <= j < t.units@.len() && (#[trigger] t.units@[j]).id == id
                        && !t.units@[j].is_service(),
    {
        let n = t.units.len();
        let mut pending: Vec<usize> = Vec::new();
        let mut completed: Vec<InternalId> = Vec::new();
        let mut i: usize = 0;
        while i < n
            invariant
                n == t.units@.len(),
                i <= n,
                t.ids_sorted(),
                pending_indices_ok(*t, pending@),
                forall|p: int, q: int| 0 <= p < q < pending@.len() ==> pending@[p] < pending@[q],
                forall|p: int| 0 <= p < pending@.len() ==> #[trigger] pending@[p] < i,
                forall|j: int|
                    0 <= j < i && t.units@[j].is_service() ==> pending_has_index(pending@, j),
                forall|id: InternalId|
                    #[trigger] completed@.contains(id) ==> exists|j: int|
                        0 <= j < i && (#[trigger] t.units@[j]).id == id
                            && !t.units@[j].is_service(),
                forall|j: int|
                    0 <= j < i && !(#[trigger] t.units@[j]).is_service() ==> completed@.contains(
                        t.units@[j].id,
                    ),
            decreases n - i,
        {
            let is_srvc = match &t.units[i].specialized {
                crate::units::UnitSpecialized::Service(_) => true,
                _ => false,
            };
            let ghost pend0 = pending@;
            let ghost comp0 = completed@;
            if is_srvc {
                pending.push(i);
            } else {
                completed.push(t.units[i].id);
            }
            proof {
                assert forall|j: int|
                    0 <= j < i + 1 && t.units@[j].is_service() implies pending_has_index(
                    pending@,
                    j,
                ) by {
                    if j < i {
                        assert(pending_has_index(pend0, j));
                        let q = choose|q: int|
                            0 <= q < pend0.len() && (#[trigger] pend0[q]) as int == j;
                        assert(pending@[q] as int == j);
                    } else {
                        assert(pending@[pending@.len() - 1] == i as usize);
                    }
                }
                assert forall|id: InternalId| #[trigger] completed@.contains(id) implies exists|
                    j: int,
                |
                    0 <= j < i + 1 && (#[trigger] t.units@[j]).id == id
                        && !t.units@[j].is_service() by {
                    let q = choose|q: int| 0 <= q < completed@.len() && completed@[q] == id;
                    if q < comp0.len() {
                        assert(comp0.contains(id));
                    } else {
                        assert(!t.units@[i as int].is_service());
                        assert(t.units@[i as int].id == id);
                    }
                }
                assert forall|j: int|
                    0 <= j < i + 1 && !(#[trigger] t.units@[j]).is_service()
                        implies completed@.contains(t.units@[j].id) by {
                    if j < i {
                        let q = choose|q: int| 0 <= q < comp0.len() && comp0[q] == t.units@[j].id;
                        assert(completed@[q] == t.units@[j].id);
                    } else {
                        assert(completed@[completed@.len() - 1] == t.units@[j].id);
                    }
                }
            }
            i += 1;
        }
        let r = Scheduler { pending, completed, started_order: Vec::new() };
        proof {
            assert forall|p: int|
                0 <= p < r.pending@.len() implies !r.completed@.contains(
                t.units@[#[trigger] r.pending@[p] as int].id,
            ) by {
                if r.completed@.contains(t.units@[r.pending@[p] as int].id) {
                    let j = choose|j: int|
                        0 <= j < n && (#[trigger] t.units@[j]).id == t.units@[r.pending@[p] as int].id
                            && !t.units@[j].is_service();
                    let ip = r.pending@[p] as int;
                    if j < ip {
                        assert(t.units@[j].id < t.units@[ip].id);
                    }
                    if j > ip {
                        assert(t.units@[ip].id < t.units@[j].id);
                    }
                    assert(t.units@[ip].is_service());
                    assert(false);
                }
            }
        }
        r
    }

    /// The table indices of the pending units that are ready to start now:
    /// `after` predecessors completed, `requires` predecessors satisfied.
    /// Ascending ids, as pending is kept in table order.
    pub fn ready_indices(&self, t: &UnitTable) -> (r: Vec<usize>)
        requires
            t.ids_sorted(),
            self.wf(*t),
        ensures
            forall|x: int|
                0 <= x < r@.len() ==> pending_has_index(self.pending@, #[trigger] r@[x] as int)
                    && r@[x] < t.units@.len() && unit_ready(*t, r@[x] as int, self.completed@),
            forall|p: int|
                0 <= p < self.pending@.len() && unit_ready(
                    *t,
                    self.pending@[p] as int,
                    self.completed@,
                ) ==> r@.contains(#[trigger] self.pending@[p]),
            forall|x: int, y: int| 0 <= x < y < r@.len() ==> r@[x] < r@[y],
    {
        let m = self.pending.len();
        let mut r: Vec<usize> = Vec::new();
        let mut p: usize = 0;
        while p < m
            invariant
                m == self.pending@.len(),
                p <= m,
                t.ids_sorted(),
                pending_indices_ok(*t, self.pending@),
                forall|a: int, b: int|
                    0 <= a < b < self.pending@.len() ==> self.pending@[a] < self.pending@[b],
                forall|x: int|
                    0 <= x < r@.len() ==> pending_has_index(self.pending@, #[trigger] r@[x] as int)
                        && r@[x] < t.units@.len() && unit_ready(*t, r@[x] as int, self.completed@),
                forall|q: int|
                    0 <= q < p && unit_ready(*t, self.pending@[q] as int, self.completed@)
                        ==> r@.contains(#[trigger] self.pending@[q]),
                forall|x: int|
                    0 <= x < r@.len() ==> exists|q: int|
                        0 <= q < p && #[trigger] r@[x] == self.pending@[q],
                forall|x: int, y: int| 0 <= x < y < r@.len() ==> r@[x] < r@[y],
            decreases m - p,
        {
            let i = self.pending[p];
            let ghost r0 = r@;
            if resolver::check_unit_ready(t, i, &self.completed) {
                r.push(i);
                proof {
                    assert(self.pending@[p as int] == i);
                    assert(pending_has_index(self.pending@, i as int));
                    assert(r@[r@.len() - 1] == i);
                    assert forall|x: int|
                        0 <= x < r@.len() implies pending_has_index(
                        self.pending@,
                        #[trigger] r@[x] as int,
                    ) && r@[x] < t.units@.len() && unit_ready(*t, r@[x] as int, self.completed@) by {
                        if x < r0.len() {
                            assert(r@[x] == r0[x]);
                        }
                    }
                    assert forall|x: int|
                        0 <= x < r@.len() implies exists|q: int|
                            0 <= q < p + 1 && #[trigger] r@[x] == self.pending@[q] by {
                        if x < r0.len() {
                            assert(r@[x] == r0[x]);
                            let q = choose|q: int| 0 <= q < p && r0[x] == self.pending@[q];
                            assert(r@[x] == self.pending@[q]);
                        } else {
                            assert(r@[x] == self.pending@[p as int]);
                        }
                    }
                    assert forall|x: int, y: int| 0 <= x < y < r@.len() implies r@[x] < r@[y] by {
                        if y < r0.len() {
                            assert(r0[x] < r0[y]);
                        } else {
                            assert(r@[x] == r0[x]);
                            let q = choose|q: int| 0 <= q < p && r0[x] == self.pending@[q];
                            assert(self.pending@[q] < self.pending@[p as int]);
                        }
                    }
                }
            }
            proof {
                assert forall|q: int|
                    0 <= q < p + 1 && unit_ready(*t, self.pending@[q] as int, self.completed@)
                        implies r@.contains(#[trigger] self.pending@[q]) by {
                    if q < p {
                        assert(r0.contains(self.pending@[q]));
                        let w = choose|w: int| 0 <= w < r0.len() && r0[w] == self.pending@[q];
                        assert(r@[w] == self.pending@[q]);
                    } else {
                        assert(r@[r@.len() - 1] == self.pending@[q]);
                    }
                }
            }
            p += 1;
        }
        r
    }
}

impl Scheduler {
    /// Record that the service at table index `i` was spawned as pid `pid`:
    /// it leaves the pending set, joins the completed set, and its start is
    /// appended to the observed start order. The caller obtained `i` from
    /// `ready_indices`, which gives the readiness requirement.
    pub fn note_spawn_success(&mut self, t: &mut UnitTable, i: usize, pid: u32)
        requires
            old(t).ids_sorted(),
            old(self).wf(*old(t)),
            i < old(t).units@.len(),
            old(t).units@[i as int].is_service(),
            pending_has_index(old(self).pending@, i as int),
            after_ok(*old(t), i as int, old(self).completed@),
        ensures
            final(t).units@ == old(t).units@.update(
                i as int,
                UnitTable::spawned_unit(old(t).units@[i as int], pid),
            ),
            final(t).ids_sorted(),
            old(t).wf() ==> final(t).wf(),
            final(self).wf(*final(t)),
            final(self).started_order@ == old(self).started_order@.push(
                old(t).units@[i as int].id,
            ),
            final(self).pending@.len() == old(self).pending@.len() - 1,
            forall|j: int|
                pending_has_index(final(self).pending@, j) ==> j != i && pending_has_index(
                    old(self).pending@,
                    j,
                ),
            forall|j: int|
                pending_has_index(old(self).pending@, j) && j != i ==> pending_has_index(
                    final(self).pending@,
                    j,
                ),
    {
        let ghost t_old = *t;
        let ghost pend_before = self.pending@;
        let ghost comp_before = self.completed@;
        let ghost ord_before = self.started_order@;
        let p = self.position_of(i);
        self.pending.remove(p);
        let id = t.units[i].id;
        t.mark_spawned(i, pid);
        self.started_order.push(id);
        self.completed.push(id);
        proof {
            lemma_scheduler_start_step(
                t_old,
                *t,
                pend_before,
                comp_before,
                ord_before,
                p as int,
                i as int,
                id,
                self.pending@,
                self.completed@,
                self.started_order@,
            );
        }
    }

    /// Record that spawning the service at table index `i` failed: it leaves
    /// the pending set marked failed and joins the completed set, so that the
    /// startup loop can go on; the start order does not record it. Dependents
    /// are dragged down separately (`fail_requires_dependents`).
    pub fn note_spawn_failure(&mut self, t: &mut UnitTable, i: usize)
        requires
            old(t).ids_sorted(),
            old(self).wf(*old(t)),
            i < old(t).units@.len(),
            old(t).units@[i as int].is_service(),
            pending_has_index(old(self).pending@, i as int),
        ensures
            final(t).units@ == old(t).units@.update(
                i as int,
                UnitTable::failed_unit(old(t).units@[i as int]),
            ),
            final(t).ids_sorted(),
            old(t).wf() ==> final(t).wf(),
            final(self).wf(*final(t)),
            final(self).started_order@ == old(self).started_order@,
            final(self).pending@.len() == old(self).pending@.len() - 1,
            forall|j: int|
                pending_has_index(final(self).pending@, j) ==> j != i && pending_has_index(
                    old(self).pending@,
                    j,
                ),
            forall|j: int|
                pending_has_index(old(self).pending@, j) && j != i ==> pending_has_index(
                    final(self).pending@,
                    j,
                ),
    {
        let ghost t_old = *t;
        let ghost pend_before = self.pending@;
        let ghost comp_before = self.completed@;
        let ghost ord_before = self.started_order@;
        let p = self.position_of(i);
        self.pending.remove(p);
        let id = t.units[i].id;
        t.mark_failed(i);
        self.completed.push(id);
        proof {
            lemma_scheduler_fail_step(
                t_old,
                *t,
                pend_before,
                comp_before,
                ord_before,
                p as int,
                i as int,
                id,
                self.pending@,
                self.completed@,
            );
        }
    }

    /// Position of table index `i` in the pending vector.
    fn position_of(&self, i: usize) -> (p: usize)
        requires
            pending_has_index(self.pending@, i as int),
        ensures
            p < self.pending@.len(),
            self.pending@[p as int] == i,
    {
        let m = self.pending.len();
        let mut p: usize = 0;
        while p < m
            invariant
                m == self.pending@.len(),
                p <= m,
                pending_has_index(self.pending@, i as int),
                forall|q: int| 0 <= q < p ==> self.pending@[q] != i,
            decreases m - p,
        {
            if self.pending[p] == i {
                return p;
            }
            p += 1;
        }
        proof {
            let q = choose|q: int|
                0 <= q < self.pending@.len() && (#[trigger] self.pending@[q]) as int == i as int;
            assert(false);
        }
        0
    }
}

/// The bookkeeping of a successful start preserves the scheduler invariant;
/// in particular the start order stays a linear extension.
#[verifier::rlimit(80)]
proof fn lemma_scheduler_start_step(
    t_old: UnitTable,
    t_new: UnitTable,
    pend_before: Seq<usize>,
    comp_before: Seq<InternalId>,
    ord_before: Seq<InternalId>,
    p: int,
    i: int,
    id: InternalId,
    pend_after: Seq<usize>,
    comp_after: Seq<InternalId>,
    ord_after: Seq<InternalId>,
)
    requires
        t_old.ids_sorted(),
        0 <= i < t_old.units@.len(),
        t_old.units@[i].is_service(),
        t_old.units@[i].id == id,
        pending_indices_ok(t_old, pend_before),
        forall|a: int, b: int| 0 <= a < b < pend_before.len() ==> pend_before[a] < pend_before[b],
        forall|k: int|
            0 <= k < ord_before.len() ==> is_service_id(t_old, #[trigger] ord_before[k])
                && !pending_has_id(t_old, pend_before, ord_before[k]),
        ord_before.no_duplicates(),
        forall|k: int|
            0 <= k < ord_before.len() ==> comp_before.contains(#[trigger] ord_before[k]),
        forall|q: int|
            0 <= q < pend_before.len() ==> !comp_before.contains(
                t_old.units@[#[trigger] pend_before[q] as int].id,
            ),
        forall|k: int, d: InternalId|
            0 <= k < ord_before.len() && #[trigger] after_contains(t_old, ord_before[k], d)
                ==> !pending_has_id(t_old, pend_before, d),
        linear_extension(t_old, ord_before),
        0 <= p < pend_before.len(),
        pend_before[p] as int == i,
        after_ok(t_old, i, comp_before),
        same_shape(t_old, t_new),
        pend_after == pend_before.remove(p),
        comp_after == comp_before.push(id),
        ord_after == ord_before.push(id),
    ensures
        pending_indices_ok(t_new, pend_after),
        forall|a: int, b: int| 0 <= a < b < pend_after.len() ==> pend_after[a] < pend_after[b],
        forall|k: int|
            0 <= k < ord_after.len() ==> is_service_id(t_new, #[trigger] ord_after[k])
                && !pending_has_id(t_new, pend_after, ord_after[k]),
        ord_after.no_duplicates(),
        forall|k: int| 0 <= k < ord_after.len() ==> comp_after.contains(#[trigger] ord_after[k]),
        forall|q: int|
            0 <= q < pend_after.len() ==> !comp_after.contains(
                t_new.units@[#[trigger] pend_after[q] as int].id,
            ),
        forall|k: int, d: InternalId|
            0 <= k < ord_after.len() && #[trigger] after_contains(t_new, ord_after[k], d)
                ==> !pending_has_id(t_new, pend_after, d),
        linear_extension(t_new, ord_after),
        forall|j: int| pending_has_index(pend_after, j) ==> j != i && pending_has_index(
            pend_before,
            j,
        ),
        forall|j: int|
            pending_has_index(pend_before, j) && j != i ==> pending_has_index(pend_after, j),
{
    lemma_same_shape(t_old, t_new);
    assert(pend_before[p] == i as usize);
    assert forall|q: int|
        0 <= q < pend_after.len() implies pend_after[q] == (if q < p {
        pend_before[q]
    } else {
        pend_before[q + 1]
    }) by {}
    assert(pending_indices_ok(t_old, pend_after));
    assert forall|d: InternalId|
        #[trigger] pending_has_id(t_old, pend_after, d) implies pending_has_id(
        t_old,
        pend_before,
        d,
    ) by {
        let q = choose|q: int|
            0 <= q < pend_after.len() && t_old.units@[#[trigger] pend_after[q] as int].id == d;
        let q0: int = if q < p { q } else { q + 1 };
        assert(t_old.units@[pend_before[q0] as int].id == d);
    }
    // every after-predecessor of the started unit is already completed
    assert forall|d: InternalId|
        #[trigger] after_contains(t_old, id, d) implies comp_before.contains(d) by {
        let j = choose|j: int|
            0 <= j < t_old.units@.len() && (#[trigger] t_old.units@[j]).id == id
                && t_old.units@[j].dependencies.after@.contains(d);
        if j < i {
            assert(t_old.units@[j].id < t_old.units@[i].id);
        }
        if j > i {
            assert(t_old.units@[i].id < t_old.units@[j].id);
        }
        assert(j == i);
    }
    assert(!comp_before.contains(id));
    // the removed position was the only pending entry with this id
    assert forall|q: int|
        0 <= q < pend_after.len() implies t_old.units@[#[trigger] pend_after[q] as int].id
            != id by {
        let q0: int = if q < p { q } else { q + 1 };
        assert(pend_after[q] == pend_before[q0]);
        if pend_before[q0] as int != i {
            if (pend_before[q0] as int) < i {
                assert(t_old.units@[pend_before[q0] as int].id < t_old.units@[i].id);
            } else {
                assert(t_old.units@[i].id < t_old.units@[pend_before[q0] as int].id);
            }
        } else {
            if q0 < p {
                assert(pend_before[q0] < pend_before[p]);
            } else {
                assert(pend_before[p] < pend_before[q0]);
            }
        }
    }
    assert(!pending_has_id(t_old, pend_after, id));
    assert(ord_after[ord_after.len() - 1] == id);
    assert(comp_after[comp_after.len() - 1] == id);
    assert(forall|k: int| 0 <= k < ord_before.len() ==> ord_after[k] == ord_before[k]);
    assert(forall|k: int| 0 <= k < comp_before.len() ==> comp_after[k] == comp_before[k]);
    assert forall|x: InternalId| comp_before.contains(x) implies comp_after.contains(x) by {
        let q = choose|q: int| 0 <= q < comp_before.len() && comp_before[q] == x;
        assert(comp_after[q] == x);
    }
    assert forall|x: InternalId|
        #[trigger] comp_after.contains(x) implies x == id || comp_before.contains(x) by {
        let q = choose|q: int| 0 <= q < comp_after.len() && comp_after[q] == x;
        if q < comp_before.len() {
            assert(comp_before[q] == x);
        }
    }
    assert(is_service_id(t_old, id));
    assert forall|k: int|
        0 <= k < ord_after.len() implies is_service_id(t_new, #[trigger] ord_after[k])
            && !pending_has_id(t_new, pend_after, ord_after[k]) by {
        if k < ord_before.len() {
            assert(is_service_id(t_old, ord_before[k]));
            assert(!pending_has_id(t_old, pend_before, ord_before[k]));
            assert(!pending_has_id(t_old, pend_after, ord_before[k]));
        } else {
            assert(!pending_has_id(t_old, pend_after, id));
        }
        assert(pending_has_id(t_old, pend_after, ord_after[k]) == pending_has_id(
            t_new,
            pend_after,
            ord_after[k],
        ));
    }
    assert forall|a: int, b: int| 0 <= a < b < ord_after.len() implies ord_after[a]
        != ord_after[b] by {
        if b == ord_after.len() - 1 {
            if ord_before[a] == id {
                assert(pending_has_id(t_old, pend_before, id));
                assert(!pending_has_id(t_old, pend_before, ord_before[a]));
            }
        } else {
            assert(ord_before[a] != ord_before[b]);
        }
    }
    assert(ord_after.no_duplicates());
    assert forall|k: int| 0 <= k < ord_after.len() implies comp_after.contains(
        #[trigger] ord_after[k],
    ) by {
        if k < ord_before.len() {
            assert(comp_before.contains(ord_before[k]));
        }
    }
    assert forall|q: int|
        0 <= q < pend_after.len() implies !comp_after.contains(
        t_new.units@[#[trigger] pend_after[q] as int].id,
    ) by {
        let did = t_old.units@[pend_after[q] as int].id;
        assert(t_new.units@[pend_after[q] as int].id == did);
        let q0: int = if q < p { q } else { q + 1 };
        assert(pend_after[q] == pend_before[q0]);
        assert(!comp_before.contains(did));
        assert(did != id);
    }
    assert forall|k: int, d: InternalId|
        0 <= k < ord_after.len() && #[trigger] after_contains(t_new, ord_after[k], d)
            implies !pending_has_id(t_new, pend_after, d) by {
        assert(after_contains(t_old, ord_after[k], d));
        if k < ord_after.len() - 1 {
            assert(after_contains(t_old, ord_before[k], d));
            assert(!pending_has_id(t_old, pend_before, d));
            assert(!pending_has_id(t_old, pend_after, d));
        } else {
            if pending_has_id(t_old, pend_after, d) {
                assert(pending_has_id(t_old, pend_before, d));
                let q = choose|q: int|
                    0 <= q < pend_before.len()
                        && t_old.units@[#[trigger] pend_before[q] as int].id == d;
                assert(comp_before.contains(d));
                assert(!comp_before.contains(t_old.units@[pend_before[q] as int].id));
            }
        }
        assert(pending_has_id(t_old, pend_after, d) == pending_has_id(t_new, pend_after, d));
    }
    assert forall|j: int, k: int|
        0 <= j < ord_after.len() && 0 <= k < ord_after.len() && #[trigger] after_contains(
            t_new,
            ord_after[k],
            ord_after[j],
        ) implies j < k by {
        assert(after_contains(t_old, ord_after[k], ord_after[j]));
        if k < ord_after.len() - 1 {
            if j < ord_after.len() - 1 {
                assert(after_contains(t_old, ord_before[k], ord_before[j]));
            } else {
                assert(after_contains(t_old, ord_before[k], id));
                assert(!pending_has_id(t_old, pend_before, id));
                assert(pending_has_id(t_old, pend_before, id));
                assert(false);
            }
        } else {
            if j == k {
                assert(after_contains(t_old, id, id));
                assert(comp_before.contains(id));
                assert(false);
            }
        }
    }
    assert(linear_extension(t_new, ord_after));
    assert forall|j: int| pending_has_index(pend_after, j) implies j != i && pending_has_index(
        pend_before,
        j,
    ) by {
        let q = choose|q: int| 0 <= q < pend_after.len() && (#[trigger] pend_after[q]) as int == j;
        let q0: int = if q < p { q } else { q + 1 };
        assert(pend_before[q0] as int == j);
        if j == i {
            assert(t_old.units@[pend_after[q] as int].id == id);
        }
    }
    assert forall|j: int|
        pending_has_index(pend_before, j) && j != i implies pending_has_index(pend_after, j) by {
        let q0 = choose|q0: int|
            0 <= q0 < pend_before.len() && (#[trigger] pend_before[q0]) as int == j;
        if q0 == p {
            assert(j == i);
        } else {
            let q1: int = if q0 < p { q0 } else { q0 - 1 };
            assert(pend_after[q1] == pend_before[q0]);
        }
    }
}

/// The bookkeeping of a failed spawn preserves the scheduler invariant.
#[verifier::rlimit(80)]
proof fn lemma_scheduler_fail_step(
    t_old: UnitTable,
    t_new: UnitTable,
    pend_before: Seq<usize>,
    comp_before: Seq<InternalId>,
    ord_before: Seq<InternalId>,
    p: int,
    i: int,
    id: InternalId,
    pend_after: Seq<usize>,
    comp_after: Seq<InternalId>,
)
    requires
        t_old.ids_sorted(),
        0 <= i < t_old.units@.len(),
        t_old.units@[i].is_service(),
        t_old.units@[i].id == id,
        pending_indices_ok(t_old, pend_before),
        forall|a: int, b: int| 0 <= a < b < pend_before.len() ==> pend_before[a] < pend_before[b],
        forall|k: int|
            0 <= k < ord_before.len() ==> is_service_id(t_old, #[trigger] ord_before[k])
                && !pending_has_id(t_old, pend_before, ord_before[k]),
        ord_before.no_duplicates(),
        forall|k: int|
            0 <= k < ord_before.len() ==> comp_before.contains(#[trigger] ord_before[k]),
        forall|q: int|
            0 <= q < pend_before.len() ==> !comp_before.contains(
                t_old.units@[#[trigger] pend_before[q] as int].id,
            ),
        forall|k: int, d: InternalId|
            0 <= k < ord_before.len() && #[trigger] after_contains(t_old, ord_before[k], d)
                ==> !pending_has_id(t_old, pend_before, d),
        linear_extension(t_old, ord_before),
        0 <= p < pend_before.len(),
        pend_before[p] as int == i,
        same_shape(t_old, t_new),
        pend_after == pend_before.remove(p),
        comp_after == comp_before.push(id),
    ensures
        pending_indices_ok(t_new, pend_after),
        forall|a: int, b: int| 0 <= a < b < pend_after.len() ==> pend_after[a] < pend_after[b],
        forall|k: int|
            0 <= k < ord_before.len() ==> is_service_id(t_new, #[trigger] ord_before[k])
                && !pending_has_id(t_new, pend_after, ord_before[k]),
        forall|k: int| 0 <= k < ord_before.len() ==> comp_after.contains(#[trigger] ord_before[k]),
        forall|q: int|
            0 <= q < pend_after.len() ==> !comp_after.contains(
                t_new.units@[#[trigger] pend_after[q] as int].id,
            ),
        forall|k: int, d: InternalId|
            0 <= k < ord_before.len() && #[trigger] after_contains(t_new, ord_before[k], d)
                ==> !pending_has_id(t_new, pend_after, d),
        linear_extension(t_new, ord_before),
        forall|j: int| pending_has_index(pend_after, j) ==> j != i && pending_has_index(
            pend_before,
            j,
        ),
        forall|j: int|
            pending_has_index(pend_before, j) && j != i ==> pending_has_index(pend_after, j),
{
    lemma_same_shape(t_old, t_new);
    assert(pend_before[p] == i as usize);
    assert forall|q: int|
        0 <= q < pend_after.len() implies pend_after[q] == (if q < p {
        pend_before[q]
    } else {
        pend_before[q + 1]
    }) by {}
    assert(pending_indices_ok(t_old, pend_after));
    assert forall|d: InternalId|
        #[trigger] pending_has_id(t_old, pend_after, d) implies pending_has_id(
        t_old,
        pend_before,
        d,
    ) by {
        let q = choose|q: int|
            0 <= q < pend_after.len() && t_old.units@[#[trigger] pend_after[q] as int].id == d;
        let q0: int = if q < p { q } else { q + 1 };
        assert(t_old.units@[pend_before[q0] as int].id == d);
    }
    assert forall|q: int|
        0 <= q < pend_after.len() implies t_old.units@[#[trigger] pend_after[q] as int].id
            != id by {
        let q0: int = if q < p { q } else { q + 1 };
        assert(pend_after[q] == pend_before[q0]);
        if pend_before[q0] as int != i {
            if (pend_before[q0] as int) < i {
                assert(t_old.units@[pend_before[q0] as int].id < t_old.units@[i].id);
            } else {
                assert(t_old.units@[i].id < t_old.units@[pend_before[q0] as int].id);
            }
        } else {
            if q0 < p {
                assert(pend_before[q0] < pend_before[p]);
            } else {
                assert(pend_before[p] < pend_before[q0]);
            }
        }
    }
    assert(forall|k: int| 0 <= k < comp_before.len() ==> comp_after[k] == comp_before[k]);
    assert forall|x: InternalId| comp_before.contains(x) implies comp_after.contains(x) by {
        let q = choose|q: int| 0 <= q < comp_before.len() && comp_before[q] == x;
        assert(comp_after[q] == x);
    }
    assert forall|k: int|
        0 <= k < ord_before.len() implies is_service_id(t_new, #[trigger] ord_before[k])
            && !pending_has_id(t_new, pend_after, ord_before[k]) by {
        assert(is_service_id(t_old, ord_before[k]));
        assert(!pending_has_id(t_old, pend_before, ord_before[k]));
        assert(!pending_has_id(t_old, pend_after, ord_before[k]));
        assert(pending_has_id(t_old, pend_after, ord_before[k]) == pending_has_id(
            t_new,
            pend_after,
            ord_before[k],
        ));
    }
    assert forall|q: int|
        0 <= q < pend_after.len() implies !comp_after.contains(
        t_new.units@[#[trigger] pend_after[q] as int].id,
    ) by {
        let did = t_old.units@[pend_after[q] as int].id;
        assert(t_new.units@[pend_after[q] as int].id == did);
        let q0: int = if q < p { q } else { q + 1 };
        assert(pend_after[q] == pend_before[q0]);
        assert(!comp_before.contains(did));
        assert(did != id);
        assert forall|x: int| 0 <= x < comp_after.len() implies comp_after[x] != did by {
            if x < comp_before.len() {
                assert(!comp_before.contains(did));
            }
        }
    }
    assert forall|k: int, d: InternalId|
        0 <= k < ord_before.len() && #[trigger] after_contains(t_new, ord_before[k], d)
            implies !pending_has_id(t_new, pend_after, d) by {
        assert(after_contains(t_old, ord_before[k], d));
        assert(!pending_has_id(t_old, pend_before, d));
        assert(!pending_has_id(t_old, pend_after, d));
        assert(pending_has_id(t_old, pend_after, d) == pending_has_id(t_new, pend_after, d));
    }
    assert forall|j: int, k: int|
        0 <= j < ord_before.len() && 0 <= k < ord_before.len() && #[trigger] after_contains(
            t_new,
            ord_before[k],
            ord_before[j],
        ) implies j < k by {
        assert(after_contains(t_old, ord_before[k], ord_before[j]));
    }
    assert(linear_extension(t_new, ord_before));
    assert forall|j: int| pending_has_index(pend_after, j) implies j != i && pending_has_index(
        pend_before,
        j,
    ) by {
        let q = choose|q: int| 0 <= q < pend_after.len() && (#[trigger] pend_after[q]) as int == j;
        let q0: int = if q < p { q } else { q + 1 };
        assert(pend_before[q0] as int == j);
        if j == i {
            assert(t_old.units@[pend_after[q] as int].id == id);
        }
    }
    assert forall|j: int|
        pending_has_index(pend_before, j) && j != i implies pending_has_index(pend_after, j) by {
        let q0 = choose|q0: int| 0 <= q0 < pend_before.len() && (#[trigger] pend_before[q0]) as int == j;
        if q0 == p {
            assert(j == i);
        } else {
            let q1: int = if q0 < p { q0 } else { q0 - 1 };
            assert(pend_after[q1] == pend_before[q0]);
        }
    }
}

/// The observed start order of any scheduler state is a linear extension
/// of the `after` relation: a unit never starts before an `after`
/// predecessor that itself starts.
pub proof fn lemma_started_order_linear_extension(s: Scheduler, t: UnitTable)
    requires
        s.wf(t),
    ensures
        linear_extension(t, s.started_order@),
        forall|j: int, k: int|
            0 <= j < s.started_order@.len() && 0 <= k < s.started_order@.len()
                && #[trigger] after_contains(t, s.started_order@[k], s.started_order@[j])
                ==> j < k,
{
}

/// A failed `requires` predecessor never leaves a dependent running: once
/// failure has propagated, every dependent is failed, and failed is not
/// running.
pub proof fn lemma_failed_dependent_never_running(t: UnitTable, x: int, y: int)
    requires
        failed_closed(t),
        0 <= x < t.units@.len(),
        0 <= y < t.units@.len(),
        t.units@[x].is_service(),
        t.units@[x].dependencies.requires@.contains(t.units@[y].id),
        is_failed(t.units@[y]),
    ensures
        t.units@[x].service().status == ServiceStatus::Failed,
        t.units@[x].service().status != ServiceStatus::Running,
{
}

/// A failed service unit.
pub open spec fn is_failed(u: crate::units::Unit) -> bool {
    u.is_service() && u.service().status == ServiceStatus::Failed
}

/// Failure has propagated: a service whose `requires` lists a failed unit is
/// itself failed — so no dependent of a failed `requires` predecessor is
/// ever `Running`.
pub open spec fn failed_closed(t: UnitTable) -> bool {
    forall|x: int, y: int|
        0 <= x < t.units@.len() && 0 <= y < t.units@.len() && (#[trigger] t.units@[x]).is_service()
            && t.units@[x].dependencies.requires@.contains((#[trigger] t.units@[y]).id)
            && is_failed(t.units@[y]) ==> is_failed(t.units@[x])
}

/// Whether the unit at index `x` is a non-failed service with a failed
/// `requires` predecessor.
pub open spec fn cascade_due(t: UnitTable, x: int) -> bool {
    &&& t.units@[x].is_service()
    &&& !is_failed(t.units@[x])
    &&& exists|y: int|
        0 <= y < t.units@.len() && t.units@[x].dependencies.requires@.contains(
            (#[trigger] t.units@[y]).id,
        ) && is_failed(t.units@[y])
}

/// How many units are not failed services.
pub open spec fn count_unfailed(s: Seq<crate::units::Unit>) -> nat
    decreases s.len(),
{
    if s.len() == 0 {
        0
    } else {
        count_unfailed(s.drop_last()) + (if is_failed(s.last()) {
            0nat
        } else {
            1nat
        })
    }
}

/// Failing units never raises the count of unfailed ones.
proof fn lemma_count_unfailed_mono(a: Seq<crate::units::Unit>, b: Seq<crate::units::Unit>)
    requires
        a.len() == b.len(),
        forall|x: int| 0 <= x < a.len() && is_failed(#[trigger] a[x]) ==> is_failed(b[x]),
    ensures
        count_unfailed(b) <= count_unfailed(a),
    decreases a.len(),
{
    if a.len() > 0 {
        assert(forall|x: int|
            0 <= x < a.drop_last().len() && is_failed(#[trigger] a.drop_last()[x]) ==> is_failed(
                b.drop_last()[x],
            ));
        lemma_count_unfailed_mono(a.drop_last(), b.drop_last());
        if is_failed(a.last()) {
            assert(is_failed(b[a.len() - 1]));
        }
    }
}

/// Failing one more unit strictly lowers the count of unfailed ones.
proof fn lemma_count_unfailed_strict(
    a: Seq<crate::units::Unit>,
    b: Seq<crate::units::Unit>,
    w: int,
)
    requires
        a.len() == b.len(),
        forall|x: int| 0 <= x < a.len() && is_failed(#[trigger] a[x]) ==> is_failed(b[x]),
        0 <= w < a.len(),
        !is_failed(a[w]),
        is_failed(b[w]),
    ensures
        count_unfailed(b) < count_unfailed(a),
    decreases a.len(),
{
    assert(forall|x: int|
        0 <= x < a.drop_last().len() && is_failed(#[trigger] a.drop_last()[x]) ==> is_failed(
            b.drop_last()[x],
        ));
    if w == a.len() - 1 {
        lemma_count_unfailed_mono(a.drop_last(), b.drop_last());
        assert(!is_failed(a.last()));
        assert(is_failed(b.last()));
    } else {
        lemma_count_unfailed_strict(a.drop_last(), b.drop_last(), w);
        if is_failed(a.last()) {
            assert(is_failed(b[a.len() - 1]));
        }
    }
}

/// Whether the service at index `x` has a failed `requires` predecessor.
fn check_cascade_due(t: &UnitTable, x: usize) -> (r: bool)
    requires
        t.ids_sorted(),
        x < t.units@.len(),
    ensures
        r == cascade_due(*t, x as int),
{
    let is_unfailed_service = match &t.units[x].specialized {
        crate::units::UnitSpecialized::Service(s) => !(s.status == ServiceStatus::Failed),
        _ => false,
    };
    proof {
        assert(is_unfailed_service == (t.units@[x as int].is_service() && !is_failed(
            t.units@[x as int],
        )));
    }
    if !is_unfailed_service {
        return false;
    }
    let reqs = &t.units[x].dependencies.requires;
    let m = reqs.len();
    let mut k: usize = 0;
    while k < m
        invariant
            m == reqs@.len(),
            k <= m,
            t.ids_sorted(),
            x < t.units@.len(),
            t.units@[x as int].is_service(),
            !is_failed(t.units@[x as int]),
            reqs@ == t.units@[x as int].dependencies.requires@,
            forall|q: int|
                0 <= q < k ==> forall|y: int|
                    0 <= y < t.units@.len() && (#[trigger] t.units@[y]).id == #[trigger] reqs@[q]
                        ==> !is_failed(t.units@[y]),
        decreases m - k,
    {
        let d = reqs[k];
        match t.find_index(d) {
            Some(y) => {
                let failed = match &t.units[y].specialized {
                    crate::units::UnitSpecialized::Service(s) => s.status == ServiceStatus::Failed,
                    _ => false,
                };
                if failed {
                    proof {
                        assert(t.units@[x as int].dependencies.requires@.contains(reqs@[k as int]));
                        assert(t.units@[y as int].id == reqs@[k as int]);
                        assert(is_failed(t.units@[y as int]));
                    }
                    return true;
                }
                proof {
                    assert forall|y2: int|
                        0 <= y2 < t.units@.len() && (#[trigger] t.units@[y2]).id == reqs@[k as int]
                            implies !is_failed(t.units@[y2]) by {
                        if y2 < y {
                            assert(t.units@[y2].id < t.units@[y as int].id);
                        }
                        if y2 > y {
                            assert(t.units@[y as int].id < t.units@[y2].id);
                        }
                    }
                }
            },
            None => {
                proof {
                    assert forall|y2: int|
                        0 <= y2 < t.units@.len() && (#[trigger] t.units@[y2]).id == reqs@[k as int]
                            implies !is_failed(t.units@[y2]) by {
                        assert(t.has_id(reqs@[k as int]));
                    }
                }
            },
        }
        k += 1;
    }
    proof {
        if cascade_due(*t, x as int) {
            let y = choose|y: int|
                0 <= y < t.units@.len() && t.units@[x as int].dependencies.requires@.contains(
                    (#[trigger] t.units@[y]).id,
                ) && is_failed(t.units@[y]);
            let q = choose|q: int| 0 <= q < reqs@.len() && reqs@[q] == t.units@[y].id;
            assert(!is_failed(t.units@[y]));
            assert(false);
        }
    }
    false
}

/// Statuses relate the tables before and after a cascade: every unit is kept
/// as it was or is a service marked failed.
pub open spec fn only_failures_added_seq(
    s_old: Seq<crate::units::Unit>,
    s_new: Seq<crate::units::Unit>,
) -> bool {
    &&& s_new.len() == s_old.len()
    &&& forall|x: int|
        0 <= x < s_old.len() ==> (#[trigger] s_new[x]) == s_old[x] || (s_old[x].is_service()
            && s_new[x] == UnitTable::failed_unit(s_old[x]))
}

pub open spec fn only_failures_added(t_old: UnitTable, t_new: UnitTable) -> bool {
    only_failures_added_seq(t_old.units@, t_new.units@)
}

/// Failure can be traced back through `requires` edges: within `fuel`
/// steps, following some `requires` predecessor each time, a failed unit is
/// reached.
pub open spec fn requires_failure_reaches(t: UnitTable, x: int, fuel: nat) -> bool
    decreases fuel,
{
    if is_failed(t.units@[x]) {
        true
    } else if fuel == 0 {
        false
    } else {
        exists|y: int|
            0 <= y < t.units@.len() && t.units@[x].dependencies.requires@.contains(
                (#[trigger] t.units@[y]).id,
            ) && requires_failure_reaches(t, y, (fuel - 1) as nat)
    }
}

/// Propagate failure through the `requires` relation to a fixpoint: every
/// service that (transitively) requires a failed unit is marked failed, and
/// nothing else changes. Afterwards a failed `requires` predecessor implies
/// all its dependents are failed — none of them can be `Running`.
pub fn fail_requires_dependents(t: &mut UnitTable)
    requires
        old(t).ids_sorted(),
    ensures
        final(t).ids_sorted(),
        old(t).wf() ==> final(t).wf(),
        only_failures_added(*old(t), *final(t)),
        failed_closed(*final(t)),
        // dependents only, no bystanders: every unit failed afterwards can
        // trace its failure back through `requires` edges in the pre-state
        forall|x: int|
            0 <= x < old(t).units@.len() && is_failed(#[trigger] final(t).units@[x])
                ==> exists|k: nat| requires_failure_reaches(*old(t), x, k),
{
    let ghost t_entry = *t;
    let n = t.units.len();
    proof {
        assert forall|x: int|
            0 <= x < n && is_failed(#[trigger] t.units@[x]) implies exists|k: nat|
            requires_failure_reaches(t_entry, x, k) by {
            assert(requires_failure_reaches(t_entry, x, 0));
        }
    }
    loop
        invariant
            t_entry == *old(t),
            n == t.units@.len(),
            t.ids_sorted(),
            t_entry.wf() ==> t.wf(),
            only_failures_added(t_entry, *t),
            forall|x: int|
                0 <= x < n && is_failed(#[trigger] t.units@[x]) ==> exists|k: nat|
                    requires_failure_reaches(t_entry, x, k),
        decreases count_unfailed(t.units@),
    {
        let ghost t_pass = *t;
        let mut changed = false;
        let ghost witness: int = 0int;
        let mut x: usize = 0;
        while x < n
            invariant
                t_entry == *old(t),
                n == t.units@.len(),
                x <= n,
                t.ids_sorted(),
                t_entry.wf() ==> t.wf(),
                only_failures_added(t_entry, *t),
                forall|x2: int|
                    0 <= x2 < n && is_failed(#[trigger] t.units@[x2]) ==> exists|k: nat|
                        requires_failure_reaches(t_entry, x2, k),
                forall|y: int|
                    0 <= y < n && is_failed(#[trigger] t_pass.units@[y]) ==> is_failed(
                        t.units@[y],
                    ),
                !changed ==> t.units@ == t_pass.units@,
                !changed ==> forall|y: int| 0 <= y < x ==> !cascade_due(*t, y),
                changed ==> 0 <= witness < n && !is_failed(t_pass.units@[witness]) && is_failed(
                    t.units@[witness],
                ),
            decreases n - x,
        {
            if check_cascade_due(t, x) {
                let ghost t_before = *t;
                t.mark_failed(x);
                changed = true;
                proof {
                    witness = x as int;
                    assert(is_failed(t.units@[x as int]));
                    // the fresh failure is traceable: the predecessor that
                    // forced it was failed already, hence itself traceable
                    let y = choose|y: int|
                        0 <= y < t_before.units@.len()
                            && t_before.units@[x as int].dependencies.requires@.contains(
                            (#[trigger] t_before.units@[y]).id,
                        ) && is_failed(t_before.units@[y]);
                    let k = choose|k: nat| requires_failure_reaches(t_entry, y, k);
                    assert(t_before.units@[x as int].dependencies
                        == t_entry.units@[x as int].dependencies);
                    assert(t_before.units@[y].id == t_entry.units@[y].id);
                    assert(t_entry.units@[x as int].dependencies.requires@.contains(
                        t_entry.units@[y].id,
                    ));
                    assert(requires_failure_reaches(t_entry, x as int, k + 1));
                    assert forall|x2: int|
                        0 <= x2 < n && is_failed(#[trigger] t.units@[x2]) implies exists|k2: nat|
                        requires_failure_reaches(t_entry, x2, k2) by {
                        if x2 == x as int {
                            assert(requires_failure_reaches(t_entry, x as int, k + 1));
                        } else {
                            assert(is_failed(t_before.units@[x2]));
                        }
                    }
                    assert forall|y: int|
                        0 <= y < n implies ((#[trigger] t.units@[y]) == t_entry.units@[y] || (
                        t_entry.units@[y].is_service() && t.units@[y] == UnitTable::failed_unit(
                            t_entry.units@[y],
                        ))) by {
                        if y != x {
                            assert(t.units@[y] == t_before.units@[y]);
                        } else {
                            if t_before.units@[y] == t_entry.units@[y] {
                            } else {
                                assert(t_before.units@[y] == UnitTable::failed_unit(
                                    t_entry.units@[y],
                                ));
                                assert(t.units@[y] == UnitTable::failed_unit(
                                    UnitTable::failed_unit(t_entry.units@[y]),
                                ));
                            }
                        }
                    }
                }
            }
            x += 1;
        }
        if !changed {
            proof {
                assert forall|x2: int, y: int|
                    0 <= x2 < t.units@.len() && 0 <= y < t.units@.len()
                        && (#[trigger] t.units@[x2]).is_service()
                        && t.units@[x2].dependencies.requires@.contains(
                        (#[trigger] t.units@[y]).id,
                    ) && is_failed(t.units@[y]) implies is_failed(t.units@[x2]) by {
                    if !is_failed(t.units@[x2]) {
                        assert(cascade_due(*t, x2));
                        assert(!cascade_due(*t, x2));
                    }
                }
            }
            return ;
        }
        proof {
            lemma_count_unfailed_strict(t_pass.units@, t.units@, witness);
        }
    }
}

impl Scheduler {
    /// Mark every still-pending service failed: the startup loop found no
    /// ready unit though services remain, so the remainder has unsatisfiable
    /// dependencies.
    pub fn mark_unsatisfiable(&mut self, t: &mut UnitTable)
        requires
            old(t).ids_sorted(),
            old(self).wf(*old(t)),
        ensures
            final(t).ids_sorted(),
            old(t).wf() ==> final(t).wf(),
            final(self).wf(*final(t)),
            final(self).pending@.len() == 0,
            final(self).started_order@ == old(self).started_order@,
            forall|j: int|
                pending_has_index(old(self).pending@, j) ==> is_failed(final(t).units@[j]),
            forall|j: int|
                0 <= j < old(t).units@.len() && !pending_has_index(old(self).pending@, j)
                    ==> final(t).units@[j] == old(t).units@[j],
    {
        let ghost t0 = *t;
        let ghost pend0 = self.pending@;
        loop
            invariant
                t0 == *old(t),
                pend0 == old(self).pending@,
                pending_indices_ok(t0, pend0),
                t.ids_sorted(),
                t0.wf() ==> t.wf(),
                self.wf(*t),
                t.units@.len() == t0.units@.len(),
                self.started_order@ == old(self).started_order@,
                forall|j: int|
                    pending_has_index(self.pending@, j) ==> pending_has_index(pend0, j),
                forall|j: int|
                    pending_has_index(pend0, j) && !pending_has_index(self.pending@, j)
                        ==> is_failed(t.units@[j]),
                forall|j: int|
                    0 <= j < t0.units@.len() && !pending_has_index(pend0, j) ==> t.units@[j]
                        == t0.units@[j],
            decreases self.pending@.len(),
        {
            if self.pending.len() == 0 {
                return ;
            }
            let i = self.pending[0];
            proof {
                assert(self.pending@[0] == i);
                assert(pending_has_index(self.pending@, i as int));
            }
            let ghost t_before = *t;
            let ghost pend_before = self.pending@;
            self.note_spawn_failure(t, i);
            proof {
                assert(t.units@[i as int] == UnitTable::failed_unit(t_before.units@[i as int]));
                assert(is_failed(t.units@[i as int]));
                assert forall|j: int|
                    pending_has_index(pend0, j) && !pending_has_index(self.pending@, j)
                        implies is_failed(t.units@[j]) by {
                    let q = choose|q: int| 0 <= q < pend0.len() && (#[trigger] pend0[q]) as int == j;
                    assert(pend0[q] < t0.units@.len());
                    assert(0 <= j < t0.units@.len());
                    if j == i as int {
                        assert(is_failed(t.units@[i as int]));
                    } else {
                        assert(!pending_has_index(pend_before, j));
                        assert(is_failed(t_before.units@[j]));
                        assert(t.units@[j] == t_before.units@[j]);
                    }
                }
            }
        }
    }
}

} // verus!
