//! The dependency resolver: which pending units may start given the
//! completed set and the statuses of their `requires` predecessors, and the
//! load-time topological walk that orders the services and rejects cycles.

use vstd::prelude::*;
use crate::units::{InternalId, ServiceStatus, Unit, UnitTable};

verus! {

/// Whether `id` names a Service unit of the table.
pub open spec fn is_service_id(t: UnitTable, id: InternalId) -> bool {
    exists|i: int|
        0 <= i < t.units@.len() && (#[trigger] t.units@[i]).id == id && t.units@[i].is_service()
}

/// Whether the unit named `id` lists `d` in its `after` set.
pub open spec fn after_contains(t: UnitTable, id: InternalId, d: InternalId) -> bool {
    exists|i: int|
        0 <= i < t.units@.len() && (#[trigger] t.units@[i]).id == id
            && t.units@[i].dependencies.after@.contains(d)
}

/// A `requires` predecessor is satisfied when it reached `Running` (service),
/// was bound (socket), or is an inert target.
pub open spec fn unit_pred_ok(u: Unit) -> bool {
    &&& u.is_service() ==> u.service().status == ServiceStatus::Running
    &&& u.is_socket() ==> u.socket().opened
}

/// Whether the unit named `d` exists and satisfies a dependent's `requires`.
pub open spec fn pred_satisfied(t: UnitTable, d: InternalId) -> bool {
    exists|i: int|
        0 <= i < t.units@.len() && (#[trigger] t.units@[i]).id == d && unit_pred_ok(t.units@[i])
}

/// Every `after` predecessor of the unit at index `i` is in the completed
/// set.
pub open spec fn after_ok(t: UnitTable, i: int, completed: Seq<InternalId>) -> bool {
    forall|d: InternalId| t.units@[i].dependencies.after@.contains(d) ==> completed.contains(d)
}

/// The readiness condition of the unit at index `i`: every `after`
/// predecessor is in the completed set and every `requires` predecessor has
/// reached its satisfied state.
pub open spec fn unit_ready(t: UnitTable, i: int, completed: Seq<InternalId>) -> bool {
    &&& after_ok(t, i, completed)
    &&& forall|d: InternalId|
        t.units@[i].dependencies.requires@.contains(d) ==> pred_satisfied(t, d)
}

/// Whether every `after` predecessor of the unit at index `i` is completed.
pub fn check_after_ok(t: &UnitTable, i: usize, completed: &Vec<InternalId>) -> (r: bool)
    requires
        i < t.units@.len(),
    ensures
        r == after_ok(*t, i as int, completed@),
{
    let after = &t.units[i].dependencies.after;
    let n = after.len();
    let mut k: usize = 0;
    while k < n
        invariant
            n == after@.len(),
            k <= n,
            after@ == t.units@[i as int].dependencies.after@,
            forall|j: int| 0 <= j < k ==> completed@.contains(#[trigger] after@[j]),
        decreases n - k,
    {
        if !contains_id(completed, after[k]) {
            proof {
                assert(t.units@[i as int].dependencies.after@.contains(after@[k as int]));
            }
            return false;
        }
        k += 1;
    }
    proof {
        assert forall|d: InternalId|
            t.units@[i as int].dependencies.after@.contains(d) implies completed@.contains(d) by {
            let j = choose|j: int| 0 <= j < after@.len() && after@[j] == d;
            assert(completed@.contains(after@[j]));
        }
    }
    true
}

/// Whether `v` holds `x`.
pub fn contains_id(v: &Vec<InternalId>, x: InternalId) -> (r: bool)
    ensures
        r == v@.contains(x),
{
    let n = v.len();
    let mut i: usize = 0;
    while i < n
        invariant
            n == v@.len(),
            i <= n,
            forall|j: int| 0 <= j < i ==> v@[j] != x,
        decreases n - i,
    {
        if v[i] == x {
            return true;
        }
        i += 1;
    }
    false
}

/// Whether the unit named `d` exists and satisfies a dependent's `requires`.
fn check_pred_satisfied(t: &UnitTable, d: InternalId) -> (r: bool)
    requires
        t.ids_sorted(),
    ensures
        r == pred_satisfied(*t, d),
{
    match t.find_index(d) {
        None => {
            proof {
                if pred_satisfied(*t, d) {
                    assert(t.has_id(d));
                }
            }
            false
        },
        Some(i) => {
            let ok = match &t.units[i].specialized {
                crate::units::UnitSpecialized::Service(s) => s.status == ServiceStatus::Running,
                crate::units::UnitSpecialized::Socket(sc) => sc.opened,
                crate::units::UnitSpecialized::Target => true,
            };
            proof {
                assert(unit_pred_ok(t.units@[i as int]) == ok);
                if ok {
                    assert(pred_satisfied(*t, d));
                } else {
                    if pred_satisfied(*t, d) {
                        let k = choose|k: int|
                            0 <= k < t.units@.len() && (#[trigger] t.units@[k]).id == d
                                && unit_pred_ok(t.units@[k]);
                        if k < i {
                            assert(t.units@[k].id < t.units@[i as int].id);
                        }
                        if k > i {
                            assert(t.units@[i as int].id < t.units@[k].id);
                        }
                        assert(k == i);
                        assert(false);
                    }
                }
            }
            ok
        },
    }
}

/// Whether the unit at index `i` is ready to start.
pub fn check_unit_ready(t: &UnitTable, i: usize, completed: &Vec<InternalId>) -> (r: bool)
    requires
        t.ids_sorted(),
        i < t.units@.len(),
    ensures
        r == unit_ready(*t, i as int, completed@),
{
    if !check_after_ok(t, i, completed) {
        return false;
    }
    let reqs = &t.units[i].dependencies.requires;
    let m = reqs.len();
    let mut k2: usize = 0;
    while k2 < m
        invariant
            m == reqs@.len(),
            k2 <= m,
            t.ids_sorted(),
            reqs@ == t.units@[i as int].dependencies.requires@,
            i < t.units@.len(),
            forall|d: InternalId|
                t.units@[i as int].dependencies.after@.contains(d) ==> completed@.contains(d),
            forall|j: int| 0 <= j < k2 ==> pred_satisfied(*t, #[trigger] reqs@[j]),
        decreases m - k2,
    {
        if !check_pred_satisfied(t, reqs[k2]) {
            proof {
                assert(t.units@[i as int].dependencies.requires@.contains(reqs@[k2 as int]));
            }
            return false;
        }
        k2 += 1;
    }
    proof {
        assert forall|d: InternalId|
            t.units@[i as int].dependencies.requires@.contains(d) implies pred_satisfied(
            *t,
            d,
        ) by {
            let j = choose|j: int| 0 <= j < reqs@.len() && reqs@[j] == d;
            assert(pred_satisfied(*t, reqs@[j]));
        }
    }
    true
}

/// Whenever a unit says it comes before another, the other lists it in its
/// `after` set: the mirrored direction is folded into the one direction
/// scheduling reads.
pub open spec fn before_mirrored(t: UnitTable) -> bool {
    forall|i: int, j: int|
        0 <= i < t.units@.len() && 0 <= j < t.units@.len()
            && (#[trigger] t.units@[i]).dependencies.before@.contains((#[trigger] t.units@[j]).id)
            ==> t.units@[j].dependencies.after@.contains(t.units@[i].id)
}

/// Everything but the `after` sets is kept between two tables.
pub open spec fn shape_but_after_kept(t0: UnitTable, t1: UnitTable) -> bool {
    &&& t1.units@.len() == t0.units@.len()
    &&& forall|k: int|
        0 <= k < t0.units@.len() ==> (#[trigger] t1.units@[k]).id == t0.units@[k].id
            && t1.units@[k].conf == t0.units@[k].conf && t1.units@[k].specialized
            == t0.units@[k].specialized && t1.units@[k].dependencies.before
            == t0.units@[k].dependencies.before && t1.units@[k].dependencies.requires
            == t0.units@[k].dependencies.requires && t1.units@[k].dependencies.wants
            == t0.units@[k].dependencies.wants
}

/// Some unit of `t0` carries the id `e` and declares itself before the
/// unit at index `k`.
pub open spec fn before_edge_of(t0: UnitTable, k: int, e: InternalId) -> bool {
    exists|a: int|
        0 <= a < t0.units@.len() && (#[trigger] t0.units@[a]).id == e
            && t0.units@[a].dependencies.before@.contains(t0.units@[k].id)
}

/// Every `after` entry of `t1` that `t0` lacks mirrors a `before` edge of
/// `t0`: normalisation adds nothing of its own invention.
pub open spec fn added_after_mirrors_before(t0: UnitTable, t1: UnitTable) -> bool {
    forall|k: int, e: InternalId|
        0 <= k < t0.units@.len() && #[trigger] t1.units@[k].dependencies.after@.contains(e)
            && !t0.units@[k].dependencies.after@.contains(e) ==> before_edge_of(t0, k, e)
}

/// The `after` sets of `t1` hold everything those of `t0` hold.
pub open spec fn after_grown(t0: UnitTable, t1: UnitTable) -> bool {
    forall|k: int, d: InternalId|
        0 <= k < t0.units@.len() && #[trigger] t0.units@[k].dependencies.after@.contains(d)
            ==> t1.units@[k].dependencies.after@.contains(d)
}

/// The mirror property, restricted to the `before` entries already walked:
/// every unit up to `i`, and of unit `i` the first `k` entries.
pub open spec fn mirrored_upto(t: UnitTable, i: int, k: int) -> bool {
    forall|a: int, x: int, j: int|
        #![trigger t.units@[a].dependencies.before@[x], t.units@[j].id]
        0 <= a < t.units@.len() && 0 <= j < t.units@.len() && 0 <= x
            < t.units@[a].dependencies.before@.len() && (a < i || (a == i && x < k))
            && t.units@[j].id == t.units@[a].dependencies.before@[x]
            ==> t.units@[j].dependencies.after@.contains(t.units@[a].id)
}

/// Normalise the mirrored `before` relation into `after`: after this pass,
/// whenever a unit says it comes before another, the other's `after` set
/// lists it, and the resolver reads `after` alone. Nothing else changes,
/// and no existing `after` entry is lost.
pub fn normalize_before(t: &mut UnitTable)
    requires
        old(t).ids_sorted(),
    ensures
        final(t).ids_sorted(),
        old(t).wf() ==> final(t).wf(),
        shape_but_after_kept(*old(t), *final(t)),
        after_grown(*old(t), *final(t)),
        added_after_mirrors_before(*old(t), *final(t)),
        before_mirrored(*final(t)),
{
    let n = t.len();
    let mut i: usize = 0;
    while i < n
        invariant
            n == t.units@.len(),
            i <= n,
            t.ids_sorted(),
            old(t).wf() ==> t.wf(),
            shape_but_after_kept(*old(t), *t),
            after_grown(*old(t), *t),
            added_after_mirrors_before(*old(t), *t),
            mirrored_upto(*t, i as int, 0),
        decreases n - i,
    {
        let m = t.units[i].dependencies.before.len();
        let mut k: usize = 0;
        while k < m
            invariant
                n == t.units@.len(),
                i < n,
                m == t.units@[i as int].dependencies.before@.len(),
                k <= m,
                t.ids_sorted(),
                old(t).wf() ==> t.wf(),
                shape_but_after_kept(*old(t), *t),
                after_grown(*old(t), *t),
                added_after_mirrors_before(*old(t), *t),
                mirrored_upto(*t, i as int, k as int),
            decreases m - k,
        {
            let d = t.units[i].dependencies.before[k];
            let me = t.units[i].id;
            let ghost t_pre = *t;
            match t.find_index(d) {
                Some(j) => {
                    if !contains_id(&t.units[j].dependencies.after, me) {
                        t.add_after_dep(j, me);
                        proof {
                            lemma_after_push_keeps(t_pre, *t, j as int, me);
                            assert(t_pre.units@[i as int].dependencies.before@[k as int] == d);
                            assert(t_pre.units@[j as int].id == d);
                            assert forall|k2: int, e: InternalId|
                                0 <= k2 < old(t).units@.len()
                                    && #[trigger] t.units@[k2].dependencies.after@.contains(e)
                                    && !old(t).units@[k2].dependencies.after@.contains(e)
                                    implies before_edge_of(*old(t), k2, e) by {
                                if k2 == j as int {
                                    let q = choose|q: int|
                                        0 <= q < t.units@[k2].dependencies.after@.len()
                                            && t.units@[k2].dependencies.after@[q] == e;
                                    if q < t_pre.units@[k2].dependencies.after@.len() {
                                        assert(t_pre.units@[k2].dependencies.after@[q] == e);
                                        assert(t_pre.units@[k2].dependencies.after@.contains(e));
                                    } else {
                                        assert(e == me);
                                        assert(old(t).units@[i as int].id == me);
                                        assert(old(t).units@[i as int].dependencies.before@[
                                            k as int] == d);
                                        assert(old(t).units@[j as int].id == d);
                                        assert(old(t).units@[i as int].dependencies.before@
                                            .contains(old(t).units@[k2].id));
                                    }
                                } else {
                                    assert(t.units@[k2].dependencies.after@
                                        == t_pre.units@[k2].dependencies.after@);
                                    assert(t_pre.units@[k2].dependencies.after@.contains(e));
                                }
                            }
                        }
                    }
                    proof {
                        assert(t.units@[j as int].dependencies.after@.contains(me));
                        assert forall|a: int, x: int, j2: int|
                            #![trigger t.units@[a].dependencies.before@[x], t.units@[j2].id]
                            0 <= a < t.units@.len() && 0 <= j2 < t.units@.len() && 0 <= x
                                < t.units@[a].dependencies.before@.len() && (a
                                < i as int || (a == i as int && x < k + 1))
                                && t.units@[j2].id
                                == t.units@[a].dependencies.before@[x]
                                implies t.units@[j2].dependencies.after@.contains(
                            t.units@[a].id,
                        ) by {
                            if a == i as int && x == k as int {
                                if j2 < j as int {
                                    assert(t.units@[j2].id < t.units@[j as int].id);
                                }
                                if j2 > j as int {
                                    assert(t.units@[j as int].id < t.units@[j2].id);
                                }
                            } else {
                                assert(mirrored_upto(t_pre, i as int, k as int));
                                assert(t_pre.units@[j2].dependencies.after@.contains(
                                    t_pre.units@[a].id,
                                ));
                            }
                        }
                    }
                },
                None => {
                    proof {
                        assert forall|a: int, x: int, j2: int|
                            #![trigger t.units@[a].dependencies.before@[x], t.units@[j2].id]
                            0 <= a < t.units@.len() && 0 <= j2 < t.units@.len() && 0 <= x
                                < t.units@[a].dependencies.before@.len() && (a
                                < i as int || (a == i as int && x < k + 1))
                                && t.units@[j2].id
                                == t.units@[a].dependencies.before@[x]
                                implies t.units@[j2].dependencies.after@.contains(
                            t.units@[a].id,
                        ) by {
                            if a == i as int && x == k as int {
                                assert(t.has_id(d));
                            }
                        }
                    }
                },
            }
            k += 1;
        }
        proof {
            assert(mirrored_upto(*t, i + 1, 0));
        }
        i += 1;
    }
    proof {
        assert forall|a: int, j: int|
            0 <= a < t.units@.len() && 0 <= j < t.units@.len()
                && (#[trigger] t.units@[a]).dependencies.before@.contains(
                (#[trigger] t.units@[j]).id,
            ) implies t.units@[j].dependencies.after@.contains(t.units@[a].id) by {
            let x = choose|x: int|
                0 <= x < t.units@[a].dependencies.before@.len()
                    && t.units@[a].dependencies.before@[x] == t.units@[j].id;
            assert(mirrored_upto(*t, n as int, 0));
        }
    }
}

/// Pushing one id onto one unit's `after` set keeps everything else, keeps
/// the sorted ids and the unit invariants, only grows `after`, and keeps
/// every mirror fact already established.
proof fn lemma_after_push_keeps(t0: UnitTable, t1: UnitTable, j: int, me: InternalId)
    requires
        0 <= j < t0.units@.len(),
        t1.units@.len() == t0.units@.len(),
        forall|k: int| 0 <= k < t0.units@.len() && k != j ==> t1.units@[k] == t0.units@[k],
        t1.units@[j].id == t0.units@[j].id,
        t1.units@[j].conf == t0.units@[j].conf,
        t1.units@[j].specialized == t0.units@[j].specialized,
        t1.units@[j].dependencies.after@ == t0.units@[j].dependencies.after@.push(me),
        t1.units@[j].dependencies.before == t0.units@[j].dependencies.before,
        t1.units@[j].dependencies.requires == t0.units@[j].dependencies.requires,
        t1.units@[j].dependencies.wants == t0.units@[j].dependencies.wants,
    ensures
        shape_but_after_kept(t0, t1),
        after_grown(t0, t1),
        t1.units@[j].dependencies.after@.contains(me),
{
    assert forall|k: int, d: InternalId|
        0 <= k < t0.units@.len() && #[trigger] t0.units@[k].dependencies.after@.contains(d)
            implies t1.units@[k].dependencies.after@.contains(d) by {
        if k == j {
            let q = choose|q: int|
                0 <= q < t0.units@[j].dependencies.after@.len()
                    && t0.units@[j].dependencies.after@[q] == d;
            assert(t1.units@[j].dependencies.after@[q] == d);
        }
    }
    assert(t1.units@[j].dependencies.after@[t1.units@[j].dependencies.after@.len() - 1] == me);
}

/// Whether some pending table index carries the id `d`.
pub open spec fn pending_has_id(t: UnitTable, pending: Seq<usize>, d: InternalId) -> bool {
    exists|p: int|
        0 <= p < pending.len() && t.units@[#[trigger] pending[p] as int].id == d
}

/// Whether some pending entry is the table index `j`.
pub open spec fn pending_has_index(pending: Seq<usize>, j: int) -> bool {
    exists|p: int| 0 <= p < pending.len() && (#[trigger] pending[p]) as int == j
}

/// Every pending entry is the table index of a service.
pub open spec fn pending_indices_ok(t: UnitTable, pending: Seq<usize>) -> bool {
    forall|p: int|
        0 <= p < pending.len() ==> (#[trigger] pending[p]) < t.units@.len()
            && t.units@[pending[p] as int].is_service()
}

/// The start order is a linear extension of the `after` relation: a unit
/// never starts before an `after` predecessor that itself starts.
pub open spec fn linear_extension(t: UnitTable, order: Seq<InternalId>) -> bool {
    forall|j: int, k: int|
        0 <= j < order.len() && 0 <= k < order.len() && #[trigger] after_contains(t, order[k], order[j]) ==> j < k
}

/// A non-empty set of services none of which can ever become ready: each has
/// an `after` predecessor that is itself in the set or names no unit — the
/// witness of a dependency cycle or of a dangling reference.
pub open spec fn stuck_element(t: UnitTable, rem: Seq<InternalId>, j: int) -> bool {
    exists|d: InternalId|
        after_contains(t, rem[j], d) && (rem.contains(d) || !t.has_id(d))
}

pub open spec fn stuck_set(t: UnitTable, rem: Seq<InternalId>) -> bool {
    &&& rem.len() > 0
    &&& forall|j: int| 0 <= j < rem.len() ==> is_service_id(t, #[trigger] rem[j])
    &&& forall|j: int| 0 <= j < rem.len() ==> #[trigger] stuck_element(t, rem, j)
}

/// Index into `pending` of the first entry whose `after` set is completed.
fn find_ready(t: &UnitTable, pending: &Vec<usize>, completed: &Vec<InternalId>) -> (r: Option<
    usize,
>)
    requires
        pending_indices_ok(*t, pending@),
    ensures
        match r {
            Some(p) => p < pending@.len() && after_ok(*t, pending@[p as int] as int, completed@),
            None => forall|q: int|
                0 <= q < pending@.len() ==> !after_ok(*t, #[trigger] pending@[q] as int, completed@),
        },
{
    let m = pending.len();
    let mut p: usize = 0;
    while p < m
        invariant
            m == pending@.len(),
            p <= m,
            pending_indices_ok(*t, pending@),
            forall|q: int| 0 <= q < p ==> !after_ok(*t, #[trigger] pending@[q] as int, completed@),
        decreases m - p,
    {
        if check_after_ok(t, pending[p], completed) {
            return Some(p);
        }
        p += 1;
    }
    None
}

/// The load-time topological walk over the `after` relation. On success the
/// returned sequence lists every service exactly once, ordered so that each
/// comes after all its `after` predecessors — the order a sequential startup
/// would observe. Otherwise it returns the non-empty set of services that can
/// never become ready: each has an `after` predecessor that is itself stuck
/// or names no unit — a dependency cycle or a dangling reference.
#[verifier::rlimit(80)]
pub fn startup_order(t: &UnitTable) -> (r: Result<Vec<InternalId>, Vec<InternalId>>)
    requires
        t.ids_sorted(),
    ensures
        match r {
            Ok(order) => {
                &&& order@.no_duplicates()
                &&& forall|id: InternalId|
                    #[trigger] order@.contains(id) <==> is_service_id(*t, id)
                &&& linear_extension(*t, order@)
            },
            Err(rem) => stuck_set(*t, rem@),
        },
{
    let n = t.units.len();
    let mut pending: Vec<usize> = Vec::new();
    let mut completed: Vec<InternalId> = Vec::new();
    let mut order: Vec<InternalId> = Vec::new();
    let mut i: usize = 0;
    while i < n
        invariant
            n == t.units@.len(),
            i <= n,
            t.ids_sorted(),
            pending_indices_ok(*t, pending@),
            forall|p: int, q: int| 0 <= p < q < pending@.len() ==> pending@[p] < pending@[q],
            forall|p: int| 0 <= p < pending@.len() ==> #[trigger] pending@[p] < i,
            forall|j: int|
                0 <= j < i && t.units@[j].is_service() ==> pending_has_index(pending@, j),
            forall|id: InternalId|
                #[trigger] completed@.contains(id) ==> exists|j: int|
                    0 <= j < i && (#[trigger] t.units@[j]).id == id && !t.units@[j].is_service(),
            forall|j: int|
                0 <= j < i && !(#[trigger] t.units@[j]).is_service() ==> completed@.contains(
                    t.units@[j].id,
                ),
        decreases n - i,
    {
        let is_srvc = match &t.units[i].specialized {
            crate::units::UnitSpecialized::Service(_) => true,
            _ => false,
        };
        let ghost pend0 = pending@;
        let ghost comp0 = completed@;
        if is_srvc {
            pending.push(i);
        } else {
            completed.push(t.units[i].id);
        }
        proof {
            assert forall|j: int|
                0 <= j < i + 1 && t.units@[j].is_service() implies pending_has_index(
                pending@,
                j,
            ) by {
                if j < i {
                    assert(pending_has_index(pend0, j));
                    let q = choose|q: int| 0 <= q < pend0.len() && (#[trigger] pend0[q]) as int == j;
                    assert(pending@[q] as int == j);
                } else {
                    assert(pending@[pending@.len() - 1] == i as usize);
                }
            }
            assert forall|id: InternalId| #[trigger] completed@.contains(id) implies exists|j: int|
                0 <= j < i + 1 && (#[trigger] t.units@[j]).id == id
                    && !t.units@[j].is_service() by {
                let q = choose|q: int| 0 <= q < completed@.len() && completed@[q] == id;
                if q < comp0.len() {
                    assert(comp0.contains(id));
                } else {
                    assert(!t.units@[i as int].is_service());
                    assert(t.units@[i as int].id == id);
                }
            }
            assert forall|j: int|
                0 <= j < i + 1 && !(#[trigger] t.units@[j]).is_service()
                    implies completed@.contains(t.units@[j].id) by {
                if j < i {
                    let q = choose|q: int| 0 <= q < comp0.len() && comp0[q] == t.units@[j].id;
                    assert(completed@[q] == t.units@[j].id);
                } else {
                    assert(completed@[completed@.len() - 1] == t.units@[j].id);
                }
            }
        }
        i += 1;
    }
    loop
        invariant
            t.ids_sorted(),
            pending_indices_ok(*t, pending@),
            forall|p: int, q: int| 0 <= p < q < pending@.len() ==> pending@[p] < pending@[q],
            // every service is either already ordered or still pending
            forall|j: int|
                0 <= j < t.units@.len() && (#[trigger] t.units@[j]).is_service() ==> (
                order@.contains(t.units@[j].id) || pending_has_index(pending@, j)),
            // ordered ids are service ids and never still pending
            forall|k: int|
                0 <= k < order@.len() ==> is_service_id(*t, #[trigger] order@[k])
                    && !pending_has_id(*t, pending@, order@[k]),
            order@.no_duplicates(),
            // the completed set holds exactly the non-services and the ordered ids
            forall|id: InternalId|
                #[trigger] completed@.contains(id) ==> (exists|j: int|
                    0 <= j < t.units@.len() && (#[trigger] t.units@[j]).id == id
                        && !t.units@[j].is_service()) || order@.contains(id),
            forall|j: int|
                0 <= j < t.units@.len() && !(#[trigger] t.units@[j]).is_service()
                    ==> completed@.contains(t.units@[j].id),
            forall|k: int|
                0 <= k < order@.len() ==> completed@.contains(#[trigger] order@[k]),
            // nothing pending is completed
            forall|p: int|
                0 <= p < pending@.len() ==> !completed@.contains(
                    t.units@[#[trigger] pending@[p] as int].id,
                ),
            // no ordered unit waits on a pending id
            forall|k: int, d: InternalId|
                0 <= k < order@.len() && #[trigger] after_contains(*t, order@[k], d)
                    ==> !pending_has_id(*t, pending@, d),
            linear_extension(*t, order@),
        decreases pending@.len(),
    {
        if pending.len() == 0 {
            proof {
                assert forall|id: InternalId|
                    #[trigger] order@.contains(id) <==> is_service_id(*t, id) by {
                    if is_service_id(*t, id) {
                        let j = choose|j: int|
                            0 <= j < t.units@.len() && (#[trigger] t.units@[j]).id == id
                                && t.units@[j].is_service();
                        assert(order@.contains(t.units@[j].id) || pending_has_index(pending@, j));
                    }
                }
            }
            return Ok(order);
        }
        let found = find_ready(t, &pending, &completed);
        match found {
            Some(p) => {
                let ghost pend_before = pending@;
                let ghost comp_before = completed@;
                let ghost ord_before = order@;
                let i = pending.remove(p);
                let id = t.units[i].id;
                let ghost pend_after = pending@;
                proof {
                    let t0 = *t;
                    assert(pend_before[p as int] == i);
                    assert(after_ok(t0, i as int, comp_before));
                    // entries surviving the removal, with their shift
                    assert forall|q: int|
                        0 <= q < pend_after.len() implies pend_after[q] == (if q < p {
                        pend_before[q]
                    } else {
                        pend_before[q + 1]
                    }) by {}
                    assert forall|d: InternalId|
                        #[trigger] pending_has_id(t0, pend_after, d) implies pending_has_id(
                        t0,
                        pend_before,
                        d,
                    ) by {
                        let q = choose|q: int|
                            0 <= q < pend_after.len() && t0.units@[#[trigger] pend_after[q] as int].id
                                == d;
                        let q0: int = if q < p { q } else { q + 1 };
                        assert(t0.units@[pend_before[q0] as int].id == d);
                    }
                    assert forall|j: int|
                        pending_has_index(pend_after, j) implies pending_has_index(
                        pend_before,
                        j,
                    ) by {
                        let q = choose|q: int|
                            0 <= q < pend_after.len() && pend_after[q] as int == j;
                        let q0: int = if q < p { q } else { q + 1 };
                        assert(pend_before[q0] as int == j);
                    }
                    // every after-predecessor of the started unit is completed
                    assert forall|d: InternalId|
                        #[trigger] after_contains(t0, id, d) implies comp_before.contains(d) by {
                        let j = choose|j: int|
                            0 <= j < t0.units@.len() && (#[trigger] t0.units@[j]).id == id
                                && t0.units@[j].dependencies.after@.contains(d);
                        if j < i {
                            assert(t0.units@[j].id < t0.units@[i as int].id);
                        }
                        if j > i {
                            assert(t0.units@[i as int].id < t0.units@[j].id);
                        }
                        assert(j == i);
                    }
                    // the started id was not completed, so no pending entry
                    // (before or after the removal) carries a completed id
                    assert(!comp_before.contains(id));
                    // the removed index was the only entry with this id
                    assert forall|q: int|
                        0 <= q < pend_after.len() implies t0.units@[#[trigger] pend_after[q] as int].id
                            != id by {
                        let q0: int = if q < p { q } else { q + 1 };
                        assert(pend_after[q] == pend_before[q0]);
                        if pend_before[q0] < i {
                            assert(t0.units@[pend_before[q0] as int].id < t0.units@[i as int].id);
                        }
                        if pend_before[q0] > i {
                            assert(t0.units@[i as int].id < t0.units@[pend_before[q0] as int].id);
                        }
                        if pend_before[q0] == i {
                            if q0 < p {
                                assert(pend_before[q0] < pend_before[p as int]);
                            } else {
                                assert(pend_before[p as int] < pend_before[q0]);
                            }
                        }
                    }
                    assert(!pending_has_id(t0, pend_after, id));
                }
                order.push(id);
                completed.push(id);
                proof {
                    let t0 = *t;
                    let ord1 = order@;
                    let comp1 = completed@;
                    assert(ord1 == ord_before.push(id));
                    assert(comp1 == comp_before.push(id));
                    assert(ord1[ord1.len() - 1] == id);
                    assert(comp1[comp1.len() - 1] == id);
                    assert(forall|k: int| 0 <= k < ord_before.len() ==> ord1[k] == ord_before[k]);
                    assert(forall|k: int| 0 <= k < comp_before.len() ==> comp1[k] == comp_before[k]);
                    assert forall|x: InternalId|
                        #[trigger] comp1.contains(x) implies x == id || comp_before.contains(x) by {
                        let q = choose|q: int| 0 <= q < comp1.len() && comp1[q] == x;
                        if q < comp_before.len() {
                            assert(comp_before[q] == x);
                        }
                    }
                    assert forall|x: InternalId|
                        comp_before.contains(x) implies comp1.contains(x) by {
                        let q = choose|q: int| 0 <= q < comp_before.len() && comp_before[q] == x;
                        assert(comp1[q] == x);
                    }
                    assert forall|x: InternalId|
                        ord_before.contains(x) implies ord1.contains(x) by {
                        let q = choose|q: int| 0 <= q < ord_before.len() && ord_before[q] == x;
                        assert(ord1[q] == x);
                    }
                    // coverage: every service is ordered or still pending
                    assert forall|j: int|
                        0 <= j < t0.units@.len() && (#[trigger] t0.units@[j]).is_service()
                            implies (ord1.contains(t0.units@[j].id) || pending_has_index(
                        pend_after,
                        j,
                    )) by {
                        if ord_before.contains(t0.units@[j].id) {
                        } else {
                            assert(pending_has_index(pend_before, j));
                            let q = choose|q: int|
                                0 <= q < pend_before.len() && pend_before[q] as int == j;
                            if q == p {
                                assert(j == i as int);
                                assert(ord1.contains(id));
                            } else {
                                let q1: int = if q < p { q } else { q - 1 };
                                assert(pend_after[q1] == pend_before[q]);
                                assert(pending_has_index(pend_after, j));
                            }
                        }
                    }
                    // the new entry is a service id
                    assert(is_service_id(t0, id));
                    // no ordered id is still pending
                    assert forall|k: int|
                        0 <= k < ord1.len() implies is_service_id(t0, #[trigger] ord1[k])
                            && !pending_has_id(t0, pend_after, ord1[k]) by {
                        if k < ord_before.len() {
                            assert(!pending_has_id(t0, pend_before, ord_before[k]));
                        }
                    }
                    // order stays duplicate-free: the new id was pending, the
                    // old entries were not
                    assert forall|a: int, b: int| 0 <= a < b < ord1.len() implies ord1[a]
                        != ord1[b] by {
                        if b == ord1.len() - 1 {
                            if ord_before[a] == id {
                                assert(pending_has_id(t0, pend_before, id));
                                assert(!pending_has_id(t0, pend_before, ord_before[a]));
                            }
                        } else {
                            assert(ord_before[a] != ord_before[b]);
                        }
                    }
                    assert(ord1.no_duplicates());
                    // pending ids stay un-completed
                    assert forall|q: int|
                        0 <= q < pend_after.len() implies !comp1.contains(
                        t0.units@[#[trigger] pend_after[q] as int].id,
                    ) by {
                        let did = t0.units@[pend_after[q] as int].id;
                        assert(pending_has_id(t0, pend_before, did));
                        let q0: int = if q < p { q } else { q + 1 };
                        assert(pend_after[q] == pend_before[q0]);
                        assert(!comp_before.contains(did));
                        assert(did != id);
                    }
                    // no ordered unit waits on a pending id
                    assert forall|k: int, d: InternalId|
                        0 <= k < ord1.len() && #[trigger] after_contains(t0, ord1[k], d)
                            implies !pending_has_id(t0, pend_after, d) by {
                        if k < ord1.len() - 1 {
                            assert(after_contains(t0, ord_before[k], d));
                            assert(!pending_has_id(t0, pend_before, d));
                        } else {
                            if pending_has_id(t0, pend_after, d) {
                                assert(pending_has_id(t0, pend_before, d));
                                let q = choose|q: int|
                                    0 <= q < pend_before.len()
                                        && t0.units@[#[trigger] pend_before[q] as int].id == d;
                                assert(comp_before.contains(d));
                                assert(!comp_before.contains(
                                    t0.units@[pend_before[q] as int].id,
                                ));
                            }
                        }
                    }
                    // the order stays a linear extension
                    assert forall|j: int, k: int|
                        0 <= j < ord1.len() && 0 <= k < ord1.len() && #[trigger] after_contains(
                            t0,
                            ord1[k],
                            ord1[j],
                        ) implies j < k by {
                        if k < ord1.len() - 1 {
                            if j < ord1.len() - 1 {
                                assert(after_contains(t0, ord_before[k], ord_before[j]));
                            } else {
                                assert(after_contains(t0, ord_before[k], id));
                                assert(!pending_has_id(t0, pend_before, id));
                                assert(false);
                            }
                        } else {
                            if j == k {
                                assert(after_contains(t0, id, id));
                                assert(comp_before.contains(id));
                                assert(false);
                            }
                        }
                    }
                }
            },
            None => {
                let mut rem: Vec<InternalId> = Vec::new();
                let k = pending.len();
                let mut q: usize = 0;
                while q < k
                    invariant
                        k == pending@.len(),
                        q <= k,
                        t.ids_sorted(),
                        pending_indices_ok(*t, pending@),
                        rem@.len() == q,
                        forall|x: int|
                            0 <= x < q ==> #[trigger] rem@[x] == t.units@[pending@[x] as int].id,
                    decreases k - q,
                {
                    rem.push(t.units[pending[q]].id);
                    q += 1;
                }
                proof {
                    assert forall|j: int|
                        0 <= j < rem@.len() implies is_service_id(*t, #[trigger] rem@[j]) by {
                        assert(t.units@[pending@[j] as int].is_service());
                    }
                    assert forall|j: int| 0 <= j < rem@.len() implies #[trigger] stuck_element(
                        *t,
                        rem@,
                        j,
                    ) by {
                        let i = pending@[j] as int;
                        assert(!after_ok(*t, i, completed@));
                        let d = choose|d: InternalId|
                            t.units@[i].dependencies.after@.contains(d) && !completed@.contains(d);
                        assert(after_contains(*t, rem@[j], d));
                        if t.has_id(d) {
                            let w = choose|w: int|
                                0 <= w < t.units@.len() && (#[trigger] t.units@[w]).id == d;
                            if !t.units@[w].is_service() {
                                assert(completed@.contains(d));
                                assert(false);
                            }
                            assert(order@.contains(d) || pending_has_index(pending@, w));
                            if order@.contains(d) {
                                assert(completed@.contains(d));
                                assert(false);
                            }
                            let pw = choose|pw: int|
                                0 <= pw < pending@.len() && pending@[pw] as int == w;
                            assert(rem@[pw] == t.units@[pending@[pw] as int].id);
                            assert(rem@[pw] == d);
                            assert(rem@.contains(d));
                        }
                        assert(stuck_element(*t, rem@, j));
                    }
                    assert(stuck_set(*t, rem@));
                }
                return Err(rem);
            },
        }
    }
}

} // verus!
