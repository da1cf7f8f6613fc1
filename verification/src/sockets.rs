//! Socket-activation bookkeeping. The surrounding binary binds the
//! listening endpoints at load time and records their descriptors in the
//! socket units (`UnitTable::mark_socket_opened`); this module computes the
//! descriptors a service inherits when it is activated — the `LISTEN_FDS`
//! contract hands the child that many descriptors, starting at number 3.

use vstd::prelude::*;
use crate::units::{InternalId, UnitTable};

verus! {

/// The listening descriptors of the socket unit named `id`; empty when no
/// socket unit carries that id.
pub open spec fn socket_fds_of(t: UnitTable, id: InternalId) -> Seq<i32> {
    if exists|i: int|
        0 <= i < t.units@.len() && (#[trigger] t.units@[i]).id == id && t.units@[i].is_socket() {
        let i = choose|i: int|
            0 <= i < t.units@.len() && (#[trigger] t.units@[i]).id == id
                && t.units@[i].is_socket();
        t.units@[i].socket().fds@
    } else {
        Seq::empty()
    }
}

/// The descriptors a service inherits: those of its activating socket
/// units, concatenated in declaration order.
pub open spec fn listen_fds_model(t: UnitTable, ids: Seq<InternalId>) -> Seq<i32>
    decreases ids.len(),
{
    if ids.len() == 0 {
        Seq::empty()
    } else {
        listen_fds_model(t, ids.drop_last()) + socket_fds_of(t, ids.last())
    }
}

/// Collect the descriptors the service at table index `si` is activated
/// by, in the order its `activated_by` list names the socket units. Their
/// count is the child's `LISTEN_FDS` value.
pub fn collect_listen_fds(t: &UnitTable, si: usize) -> (r: Vec<i32>)
    requires
        t.ids_sorted(),
        si < t.units@.len(),
        t.units@[si as int].is_service(),
    ensures
        r@ == listen_fds_model(*t, t.units@[si as int].service().activated_by@),
{
    let ids = match &t.units[si].specialized {
        crate::units::UnitSpecialized::Service(s) => &s.activated_by,
        _ => {
            proof {
                assert(false);
            }
            return Vec::new();
        },
    };
    let m = ids.len();
    let mut r: Vec<i32> = Vec::new();
    let mut k: usize = 0;
    while k < m
        invariant
            m == ids@.len(),
            t.ids_sorted(),
            si < t.units@.len(),
            t.units@[si as int].is_service(),
            ids@ == t.units@[si as int].service().activated_by@,
            k <= m,
            r@ == listen_fds_model(*t, ids@.subrange(0, k as int)),
        decreases m - k,
    {
        let id = ids[k];
        let ghost r0 = r@;
        match t.find_index(id) {
            Some(i) => {
                let fds = match &t.units[i].specialized {
                    crate::units::UnitSpecialized::Socket(sc) => Some(&sc.fds),
                    _ => None,
                };
                match fds {
                    Some(fds) => {
                        let flen = fds.len();
                        let mut x: usize = 0;
                        while x < flen
                            invariant
                                flen == fds@.len(),
                                x <= flen,
                                r@ == r0 + fds@.subrange(0, x as int),
                            decreases flen - x,
                        {
                            r.push(fds[x]);
                            proof {
                                assert(r@ =~= r0 + fds@.subrange(0, x + 1));
                            }
                            x += 1;
                        }
                        proof {
                            assert(fds@.subrange(0, flen as int) =~= fds@);
                            assert(t.units@[i as int].is_socket() && t.units@[i as int].id == id);
                            let w = choose|w: int|
                                0 <= w < t.units@.len() && (#[trigger] t.units@[w]).id == id
                                    && t.units@[w].is_socket();
                            if w < i {
                                assert(t.units@[w].id < t.units@[i as int].id);
                            }
                            if w > i {
                                assert(t.units@[i as int].id < t.units@[w].id);
                            }
                            assert(socket_fds_of(*t, id) == fds@);
                        }
                    },
                    None => {
                        proof {
                            if socket_fds_of(*t, id) != Seq::<i32>::empty() {
                                let w = choose|w: int|
                                    0 <= w < t.units@.len() && (#[trigger] t.units@[w]).id == id
                                        && t.units@[w].is_socket();
                                if w < i {
                                    assert(t.units@[w].id < t.units@[i as int].id);
                                }
                                if w > i {
                                    assert(t.units@[i as int].id < t.units@[w].id);
                                }
                                assert(false);
                            }
                        }
                    },
                }
            },
            None => {
                proof {
                    if socket_fds_of(*t, id) != Seq::<i32>::empty() {
                        let w = choose|w: int|
                            0 <= w < t.units@.len() && (#[trigger] t.units@[w]).id == id
                                && t.units@[w].is_socket();
                        assert(t.has_id(id));
                        assert(false);
                    }
                }
            },
        }
        proof {
            let pre = ids@.subrange(0, k as int);
            let cur = ids@.subrange(0, k + 1);
            assert(cur.drop_last() =~= pre);
            assert(cur.last() == ids@[k as int]);
            assert(r@ =~= r0 + socket_fds_of(*t, id));
        }
        k += 1;
    }
    proof {
        assert(ids@.subrange(0, m as int) =~= ids@);
    }
    r
}

} // verus!
