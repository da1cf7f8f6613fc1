//! The unit data model: services, sockets and targets, their dependency
//! record, and the process-wide unit table keyed by stable numeric id.

use vstd::prelude::*;

verus! {

/// Stable numeric identifier of a unit, assigned monotonically at load time
/// and never reused for the lifetime of the supervisor.
pub type InternalId = u64;

/// The lifecycle state of a service.
#[derive(PartialEq, Eq, Structural, Clone, Copy, Debug)]
pub enum ServiceStatus {
    NeverRan,
    Starting,
    Running,
    Stopped,
    Failed,
}

/// What to do when a supervised child terminates.
#[derive(PartialEq, Eq, Structural, Clone, Copy, Debug)]
pub enum RestartPolicy {
    Never,
    OnFailure,
    Always,
}

/// How a service's child process is launched.
pub struct ExecConfig {
    /// Path of the executable.
    pub cmd: String,
    /// Argument vector handed to the child.
    pub args: Vec<String>,
    /// Working directory, if one was configured.
    pub working_dir: Option<String>,
    /// Environment overlay applied on top of the supervisor's environment.
    pub env: Vec<(String, String)>,
}

/// The payload of a Service unit.
pub struct Service {
    pub exec_config: ExecConfig,
    /// Ids of the socket units whose descriptors activate this service.
    pub activated_by: Vec<InternalId>,
    pub restart: RestartPolicy,
    /// Whether the service signals readiness over the notify socket; when
    /// false it counts as running as soon as it was spawned.
    pub wants_notify: bool,
    pub status: ServiceStatus,
    /// Pid of the running child, when there is one.
    pub pid: Option<u32>,
    /// Read end of the duplicated child stdout pipe.
    pub stdout_dup: Option<i32>,
    /// Read end of the duplicated child stderr pipe.
    pub stderr_dup: Option<i32>,
    /// The datagram socket the child writes status notifications to.
    pub notifications: Option<i32>,
    /// Partial notification line carried over between reads.
    pub notifications_buffer: String,
    /// Free-form status strings reported by the child via `STATUS=`.
    pub status_msgs: Vec<String>,
}

impl Service {
    /// A service that was spawned and not yet reaped has a recorded pid;
    /// in particular `Running` implies the pid is set.
    pub open spec fn wf(&self) -> bool {
        (self.status == ServiceStatus::Starting || self.status == ServiceStatus::Running)
            ==> self.pid is Some
    }
}

/// A running service always has a recorded pid: the supervisor sets the pid
/// when it spawns the child and clears it only while leaving `Running`.
pub proof fn lemma_running_has_pid(s: Service)
    requires
        s.wf(),
        s.status == ServiceStatus::Running,
    ensures
        s.pid is Some,
{
}

/// The payload of a Socket unit: the listening descriptors it owns.
pub struct SocketConfig {
    /// Listening descriptors, opened at load time and held until shutdown.
    pub fds: Vec<i32>,
    /// True once every configured endpoint was bound.
    pub opened: bool,
}

/// The kind-specific payload of a unit.
pub enum UnitSpecialized {
    Service(Service),
    Socket(SocketConfig),
    Target,
}

/// The dependency record of a unit: four sets of unit ids.
pub struct Dependencies {
    pub after: Vec<InternalId>,
    pub before: Vec<InternalId>,
    pub requires: Vec<InternalId>,
    pub wants: Vec<InternalId>,
}

/// Shared, kind-independent configuration of a unit.
pub struct UnitConfig {
    pub name: String,
}

impl UnitConfig {
    pub fn name(&self) -> (r: &str)
        ensures
            r@ == self.name@,
    {
        self.name.as_str()
    }
}

/// The atomic managed entity.
pub struct Unit {
    pub id: InternalId,
    pub conf: UnitConfig,
    pub dependencies: Dependencies,
    pub specialized: UnitSpecialized,
}

impl Unit {
    pub open spec fn is_service(&self) -> bool {
        self.specialized is Service
    }

    pub open spec fn is_socket(&self) -> bool {
        self.specialized is Socket
    }

    /// The service payload; meaningful only when `is_service()`.
    pub open spec fn service(&self) -> Service
        recommends
            self.is_service(),
    {
        self.specialized->Service_0
    }

    pub open spec fn socket(&self) -> SocketConfig
        recommends
            self.is_socket(),
    {
        self.specialized->Socket_0
    }

    /// Whatever payload the unit has keeps its internal invariant.
    pub open spec fn wf(&self) -> bool {
        self.is_service() ==> self.service().wf()
    }
}

/// The process-wide registry of units. Ids are strictly ascending in table
/// order, which both makes them unique and makes iteration deterministic
/// (ascending id, as load-time assignment is monotone).
pub struct UnitTable {
    pub units: Vec<Unit>,
}

impl UnitTable {
    /// Ids strictly ascending along the table.
    pub open spec fn ids_sorted(&self) -> bool {
        forall|i: int, j: int|
            0 <= i < j < self.units@.len() ==> self.units@[i].id < self.units@[j].id
    }

    /// Table-wide well-formedness: sorted ids and per-unit invariants.
    pub open spec fn wf(&self) -> bool {
        &&& self.ids_sorted()
        &&& forall|i: int| 0 <= i < self.units@.len() ==> (#[trigger] self.units@[i]).wf()
    }

    /// Whether some unit carries this id.
    pub open spec fn has_id(&self, id: InternalId) -> bool {
        exists|i: int| 0 <= i < self.units@.len() && (#[trigger] self.units@[i]).id == id
    }

    pub fn new() -> (r: UnitTable)
        ensures
            r.units@.len() == 0,
            r.wf(),
    {
        UnitTable { units: Vec::new() }
    }

    pub fn len(&self) -> (r: usize)
        ensures
            r == self.units@.len(),
    {
        self.units.len()
    }

    /// Load-time insertion; ids are handed out monotonically, so the new
    /// unit's id exceeds every id already present.
    pub fn insert(&mut self, unit: Unit)
        requires
            old(self).ids_sorted(),
            forall|i: int|
                0 <= i < old(self).units@.len() ==> (#[trigger] old(self).units@[i]).id < unit.id,
        ensures
            final(self).units@ == old(self).units@.push(unit),
            final(self).ids_sorted(),
    {
        self.units.push(unit);
    }

    /// The unit at index `i` after its service was spawned as pid `pid`:
    /// starting when it signals readiness over the notify socket, running
    /// right away otherwise.
    pub open spec fn spawned_unit(u: Unit, pid: u32) -> Unit {
        Unit {
            specialized: UnitSpecialized::Service(
                Service {
                    status: if u.service().wants_notify {
                        ServiceStatus::Starting
                    } else {
                        ServiceStatus::Running
                    },
                    pid: Some(pid),
                    ..u.service()
                },
            ),
            ..u
        }
    }

    /// The unit after its child terminated: stopped on a clean exit, failed
    /// otherwise, and with no recorded pid either way.
    pub open spec fn exited_unit(u: Unit, clean: bool) -> Unit {
        Unit {
            specialized: UnitSpecialized::Service(
                Service {
                    status: if clean {
                        ServiceStatus::Stopped
                    } else {
                        ServiceStatus::Failed
                    },
                    pid: None,
                    ..u.service()
                },
            ),
            ..u
        }
    }

    /// The unit with its service marked failed.
    pub open spec fn failed_unit(u: Unit) -> Unit {
        Unit {
            specialized: UnitSpecialized::Service(
                Service { status: ServiceStatus::Failed, ..u.service() },
            ),
            ..u
        }
    }

    /// The unit with its socket bound to the given descriptors.
    pub open spec fn opened_unit(u: Unit, fds: Vec<i32>) -> Unit {
        Unit {
            specialized: UnitSpecialized::Socket(SocketConfig { fds, opened: true }),
            ..u
        }
    }

    /// Record that the service at index `i` was spawned as pid `pid`.
    pub fn mark_spawned(&mut self, i: usize, pid: u32)
        requires
            i < old(self).units@.len(),
            old(self).units@[i as int].is_service(),
        ensures
            final(self).units@ == old(self).units@.update(
                i as int,
                Self::spawned_unit(old(self).units@[i as int], pid),
            ),
            old(self).ids_sorted() ==> final(self).ids_sorted(),
            old(self).wf() ==> final(self).wf(),
    {
        let u = self.units.remove(i);
        let Unit { id, conf, dependencies, specialized } = u;
        let specialized = match specialized {
            UnitSpecialized::Service(srvc) => {
                let mut srvc = srvc;
                srvc.status = if srvc.wants_notify {
                    ServiceStatus::Starting
                } else {
                    ServiceStatus::Running
                };
                srvc.pid = Some(pid);
                UnitSpecialized::Service(srvc)
            },
            other => other,
        };
        self.units.insert(i, Unit { id, conf, dependencies, specialized });
        proof {
            assert(final(self).units@ =~= old(self).units@.update(
                i as int,
                Self::spawned_unit(old(self).units@[i as int], pid),
            ));
        }
    }

    /// Record that the child of the service at index `i` terminated.
    pub fn mark_exited(&mut self, i: usize, clean: bool)
        requires
            i < old(self).units@.len(),
            old(self).units@[i as int].is_service(),
        ensures
            final(self).units@ == old(self).units@.update(
                i as int,
                Self::exited_unit(old(self).units@[i as int], clean),
            ),
            old(self).ids_sorted() ==> final(self).ids_sorted(),
            old(self).wf() ==> final(self).wf(),
    {
        let u = self.units.remove(i);
        let Unit { id, conf, dependencies, specialized } = u;
        let specialized = match specialized {
            UnitSpecialized::Service(srvc) => {
                let mut srvc = srvc;
                srvc.status = if clean {
                    ServiceStatus::Stopped
                } else {
                    ServiceStatus::Failed
                };
                srvc.pid = None;
                UnitSpecialized::Service(srvc)
            },
            other => other,
        };
        self.units.insert(i, Unit { id, conf, dependencies, specialized });
        proof {
            assert(final(self).units@ =~= old(self).units@.update(
                i as int,
                Self::exited_unit(old(self).units@[i as int], clean),
            ));
        }
    }

    /// Mark the service at index `i` failed.
    pub fn mark_failed(&mut self, i: usize)
        requires
            i < old(self).units@.len(),
            old(self).units@[i as int].is_service(),
        ensures
            final(self).units@ == old(self).units@.update(
                i as int,
                Self::failed_unit(old(self).units@[i as int]),
            ),
            old(self).ids_sorted() ==> final(self).ids_sorted(),
            old(self).wf() ==> final(self).wf(),
    {
        let u = self.units.remove(i);
        let Unit { id, conf, dependencies, specialized } = u;
        let specialized = match specialized {
            UnitSpecialized::Service(srvc) => {
                let mut srvc = srvc;
                srvc.status = ServiceStatus::Failed;
                UnitSpecialized::Service(srvc)
            },
            other => other,
        };
        self.units.insert(i, Unit { id, conf, dependencies, specialized });
        proof {
            assert(final(self).units@ =~= old(self).units@.update(
                i as int,
                Self::failed_unit(old(self).units@[i as int]),
            ));
        }
    }

    /// Record the listening descriptors bound for the socket at index `i`.
    pub fn mark_socket_opened(&mut self, i: usize, fds: Vec<i32>)
        requires
            i < old(self).units@.len(),
            old(self).units@[i as int].is_socket(),
        ensures
            final(self).units@ == old(self).units@.update(
                i as int,
                Self::opened_unit(old(self).units@[i as int], fds),
            ),
            old(self).ids_sorted() ==> final(self).ids_sorted(),
            old(self).wf() ==> final(self).wf(),
    {
        let u = self.units.remove(i);
        let Unit { id, conf, dependencies, specialized: _ } = u;
        let specialized = UnitSpecialized::Socket(SocketConfig { fds, opened: true });
        self.units.insert(i, Unit { id, conf, dependencies, specialized });
        proof {
            assert(final(self).units@ =~= old(self).units@.update(
                i as int,
                Self::opened_unit(old(self).units@[i as int], fds),
            ));
        }
    }

    /// Add `d` to the `after` set of the unit at index `i`; everything else
    /// is kept as it is.
    pub fn add_after_dep(&mut self, i: usize, d: InternalId)
        requires
            i < old(self).units@.len(),
        ensures
            final(self).units@.len() == old(self).units@.len(),
            forall|k: int|
                0 <= k < old(self).units@.len() && k != i ==> final(self).units@[k] == old(
                    self,
                ).units@[k],
            final(self).units@[i as int].id == old(self).units@[i as int].id,
            final(self).units@[i as int].conf == old(self).units@[i as int].conf,
            final(self).units@[i as int].specialized == old(self).units@[i as int].specialized,
            final(self).units@[i as int].dependencies.after@ == old(
                self,
            ).units@[i as int].dependencies.after@.push(d),
            final(self).units@[i as int].dependencies.before == old(
                self,
            ).units@[i as int].dependencies.before,
            final(self).units@[i as int].dependencies.requires == old(
                self,
            ).units@[i as int].dependencies.requires,
            final(self).units@[i as int].dependencies.wants == old(
                self,
            ).units@[i as int].dependencies.wants,
            old(self).ids_sorted() ==> final(self).ids_sorted(),
            old(self).wf() ==> final(self).wf(),
    {
        let u = self.units.remove(i);
        let Unit { id, conf, dependencies, specialized } = u;
        let Dependencies { mut after, before, requires: reqs, wants } = dependencies;
        after.push(d);
        let dependencies = Dependencies { after, before, requires: reqs, wants };
        self.units.insert(i, Unit { id, conf, dependencies, specialized });
        proof {
            assert forall|k: int|
                0 <= k < old(self).units@.len() && k != i implies final(self).units@[k] == old(
                self,
            ).units@[k] by {}
        }
    }

    /// Index of the unit carrying `id`, if any.
    pub fn find_index(&self, id: InternalId) -> (r: Option<usize>)
        ensures
            match r {
                Some(i) => i < self.units@.len() && self.units@[i as int].id == id,
                None => !self.has_id(id),
            },
    {
        let n = self.units.len();
        let mut i: usize = 0;
        while i < n
            invariant
                n == self.units@.len(),
                i <= n,
                forall|j: int| 0 <= j < i ==> (#[trigger] self.units@[j]).id != id,
            decreases n - i,
        {
            if self.units[i].id == id {
                return Some(i);
            }
            i += 1;
        }
        None
    }
}

} // verus!
