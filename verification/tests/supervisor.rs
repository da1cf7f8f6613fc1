use rustysd::config::assemble_config;
use rustysd::multiplexer::{
    collect_stream_fds, format_output, notify_event_fd, output_prefix, reset_event_fd,
    EventCounter, StreamKind,
};
use rustysd::notification_handler::{
    handle_notification_message, handle_notifications_from_buffer, serialize_notification,
    Notification,
};
use rustysd::resolver::startup_order;
use rustysd::scheduler::{fail_requires_dependents, Scheduler};
use rustysd::signal_handler::{handle_child_exit, reconcile_exit, respawn_service, PidTable};
use rustysd::sockets::collect_listen_fds;
use rustysd::units::{
    Dependencies, ExecConfig, InternalId, RestartPolicy, Service, ServiceStatus, SocketConfig,
    Unit, UnitConfig, UnitSpecialized, UnitTable,
};

fn demo_service(wants_notify: bool) -> Service {
    Service {
        exec_config: ExecConfig {
            cmd: String::from("/bin/true"),
            args: Vec::new(),
            working_dir: None,
            env: Vec::new(),
        },
        activated_by: Vec::new(),
        restart: RestartPolicy::Never,
        wants_notify,
        status: ServiceStatus::NeverRan,
        pid: None,
        stdout_dup: None,
        stderr_dup: None,
        notifications: None,
        notifications_buffer: String::new(),
        status_msgs: Vec::new(),
    }
}

fn deps(after: Vec<InternalId>, requires: Vec<InternalId>) -> Dependencies {
    Dependencies {
        after,
        before: Vec::new(),
        requires,
        wants: Vec::new(),
    }
}

fn service_unit(id: InternalId, name: &str, after: Vec<InternalId>, requires: Vec<InternalId>) -> Unit {
    let mut s = demo_service(false);
    s.status = ServiceStatus::NeverRan;
    Unit {
        id,
        conf: UnitConfig { name: String::from(name) },
        dependencies: deps(after, requires),
        specialized: UnitSpecialized::Service(s),
    }
}

fn service_status(t: &UnitTable, id: InternalId) -> ServiceStatus {
    for u in t.units.iter() {
        if u.id == id {
            if let UnitSpecialized::Service(s) = &u.specialized {
                return s.status;
            }
            panic!("unit {} is not a service", id);
        }
    }
    panic!("no unit {}", id)
}

#[test]
fn ready_moves_starting_service_to_running() {
    let mut s = demo_service(true);
    s.status = ServiceStatus::Starting;
    s.pid = Some(42);
    handle_notification_message("READY=1", &mut s, "slow");
    assert_eq!(s.status, ServiceStatus::Running);
    assert!(s.status_msgs.is_empty());
}

#[test]
fn ready_key_without_value_still_counts() {
    let mut s = demo_service(true);
    s.status = ServiceStatus::Starting;
    s.pid = Some(42);
    handle_notification_message("READY", &mut s, "slow");
    assert_eq!(s.status, ServiceStatus::Running);
}

#[test]
fn status_value_is_appended_and_may_contain_equals() {
    let mut s = demo_service(true);
    handle_notification_message("STATUS=a=b", &mut s, "svc");
    assert_eq!(s.status_msgs, vec![String::from("a=b")]);
    assert_eq!(s.status, ServiceStatus::NeverRan);
}

#[test]
fn unknown_key_is_ignored() {
    let mut s = demo_service(true);
    s.status = ServiceStatus::Starting;
    s.pid = Some(1);
    handle_notification_message("FOO=bar", &mut s, "svc");
    assert_eq!(s.status, ServiceStatus::Starting);
    assert!(s.status_msgs.is_empty());
}

#[test]
fn ready_then_status_scenario() {
    // a service that emits READY=1 and then STATUS=ok ends up running with
    // the message recorded
    let mut s = demo_service(true);
    s.status = ServiceStatus::Starting;
    s.pid = Some(7);
    rustysd::multiplexer::feed_notification_chunk(&mut s, "READY=1\nSTATUS=ok\n", "slow");
    assert_eq!(s.status, ServiceStatus::Running);
    assert_eq!(s.status_msgs, vec![String::from("ok")]);
    assert_eq!(s.notifications_buffer, "");
}

#[test]
fn drain_is_a_no_op_without_newline() {
    let mut s = demo_service(true);
    s.notifications_buffer = String::from("STATUS=par");
    handle_notifications_from_buffer(&mut s, "svc");
    assert_eq!(s.notifications_buffer, "STATUS=par");
    assert!(s.status_msgs.is_empty());

    let mut e = demo_service(true);
    handle_notifications_from_buffer(&mut e, "svc");
    assert_eq!(e.notifications_buffer, "");
    assert_eq!(e.status, ServiceStatus::NeverRan);
}

#[test]
fn partial_line_is_completed_by_next_chunk() {
    // a datagram larger than one read arrives in pieces; the split line is
    // reassembled across reads
    let mut s = demo_service(true);
    let long: String = "x".repeat(600);
    rustysd::multiplexer::feed_notification_chunk(
        &mut s,
        &format!("STATUS={}", &long[..500]),
        "svc",
    );
    assert!(s.status_msgs.is_empty());
    rustysd::multiplexer::feed_notification_chunk(&mut s, &format!("{}\n", &long[500..]), "svc");
    assert_eq!(s.status_msgs.len(), 1);
    assert_eq!(s.status_msgs[0], long);
    assert_eq!(s.notifications_buffer, "");
}

#[test]
fn notification_round_trip() {
    let ready = serialize_notification(&Notification::Ready);
    assert_eq!(ready, "READY=1\n");
    let status = serialize_notification(&Notification::Status(String::from("foo")));
    assert_eq!(status, "STATUS=foo\n");

    let mut s = demo_service(true);
    s.status = ServiceStatus::Starting;
    s.pid = Some(3);
    rustysd::multiplexer::feed_notification_chunk(&mut s, &ready, "svc");
    rustysd::multiplexer::feed_notification_chunk(&mut s, &status, "svc");
    assert_eq!(s.status, ServiceStatus::Running);
    assert_eq!(s.status_msgs, vec![String::from("foo")]);
}

#[test]
fn stdout_prefixing() {
    let prefix = output_prefix("chatty", false);
    assert_eq!(prefix, b"[chatty] ".to_vec());
    let out = format_output(&prefix, &b"hello\nworld\n".to_vec());
    assert_eq!(out, b"[chatty] hello\n[chatty] world\n".to_vec());
}

#[test]
fn stderr_prefix_and_partial_line() {
    let prefix = output_prefix("svc", true);
    assert_eq!(prefix, b"[svc][STDERR] ".to_vec());
    // no trailing newline: the piece is flushed all the same
    let out = format_output(&prefix, &b"oops".to_vec());
    assert_eq!(out, b"[svc][STDERR] oops\n".to_vec());
    // empty pieces are dropped
    let out2 = format_output(&prefix, &b"\n\na\n".to_vec());
    assert_eq!(out2, b"[svc][STDERR] a\n".to_vec());
}

#[test]
fn non_ascii_name_is_prefixed_by_its_utf8_bytes() {
    let name = "caf\u{e9}";
    let prefix = output_prefix(name, false);
    let mut expected = Vec::new();
    expected.push(b'[');
    expected.extend_from_slice(name.as_bytes());
    expected.extend_from_slice(b"] ");
    assert_eq!(prefix, expected);
    let out = format_output(&prefix, &b"bonjour\n".to_vec());
    let mut line = expected.clone();
    line.extend_from_slice(b"bonjour\n");
    assert_eq!(out, line);
}

#[test]
fn line_as_long_as_the_read_buffer() {
    let prefix = output_prefix("big", false);
    let line = vec![b'z'; 512];
    let out = format_output(&prefix, &line);
    let mut expected = b"[big] ".to_vec();
    expected.extend_from_slice(&line);
    expected.push(b'\n');
    assert_eq!(out, expected);
}

#[test]
fn linear_chain_starts_in_order() {
    // A, B, C with B after A and C after B start as A, B, C
    let mut t = UnitTable::new();
    t.insert(service_unit(1, "A", vec![], vec![]));
    t.insert(service_unit(2, "B", vec![1], vec![]));
    t.insert(service_unit(3, "C", vec![2], vec![]));

    match startup_order(&t) {
        Ok(order) => assert_eq!(order, vec![1, 2, 3]),
        Err(_) => panic!("chain must be schedulable"),
    }

    let mut sched = Scheduler::new(&t);
    let mut pid = 100u32;
    let mut observed: Vec<InternalId> = Vec::new();
    loop {
        let ready = sched.ready_indices(&t);
        if ready.is_empty() {
            break;
        }
        for i in ready {
            observed.push(t.units[i].id);
            sched.note_spawn_success(&mut t, i, pid);
            pid += 1;
        }
    }
    assert_eq!(observed, vec![1, 2, 3]);
    assert_eq!(sched.started_order, vec![1, 2, 3]);
    assert_eq!(service_status(&t, 3), ServiceStatus::Running);
}

#[test]
fn diamond_respects_after_edges() {
    let mut t = UnitTable::new();
    t.insert(service_unit(1, "base", vec![], vec![]));
    t.insert(service_unit(2, "left", vec![1], vec![]));
    t.insert(service_unit(3, "right", vec![1], vec![]));
    t.insert(service_unit(4, "top", vec![2, 3], vec![]));
    let order = startup_order(&t).expect("acyclic");
    assert_eq!(order, vec![1, 2, 3, 4]);
}

#[test]
fn before_edges_are_folded_into_after() {
    // "early" declares itself before "late": after normalisation "late"
    // waits for it, so the start order is early, late
    let mut t = UnitTable::new();
    let mut early = service_unit(1, "early", vec![], vec![]);
    early.dependencies.before = vec![2];
    t.insert(early);
    t.insert(service_unit(2, "late", vec![], vec![]));
    rustysd::resolver::normalize_before(&mut t);
    assert_eq!(t.units[1].dependencies.after, vec![1]);
    let order = startup_order(&t).expect("acyclic");
    assert_eq!(order, vec![1, 2]);
}

#[test]
fn cycle_is_rejected_naming_both_units() {
    // X after Y and Y after X can never start
    let mut t = UnitTable::new();
    t.insert(service_unit(1, "X", vec![2], vec![]));
    t.insert(service_unit(2, "Y", vec![1], vec![]));
    match startup_order(&t) {
        Ok(_) => panic!("cycle must be rejected"),
        Err(rem) => {
            assert!(rem.contains(&1));
            assert!(rem.contains(&2));
        },
    }
}

#[test]
fn unsatisfiable_remainder_is_failed() {
    let mut t = UnitTable::new();
    t.insert(service_unit(1, "X", vec![2], vec![]));
    t.insert(service_unit(2, "Y", vec![1], vec![]));
    let mut sched = Scheduler::new(&t);
    assert!(sched.ready_indices(&t).is_empty());
    sched.mark_unsatisfiable(&mut t);
    assert_eq!(service_status(&t, 1), ServiceStatus::Failed);
    assert_eq!(service_status(&t, 2), ServiceStatus::Failed);
}

#[test]
fn socket_activation_passes_the_listening_fds() {
    let mut t = UnitTable::new();
    t.insert(Unit {
        id: 1,
        conf: UnitConfig { name: String::from("web.sock") },
        dependencies: deps(vec![], vec![]),
        specialized: UnitSpecialized::Socket(SocketConfig { fds: Vec::new(), opened: false }),
    });
    let mut web = demo_service(false);
    web.activated_by = vec![1];
    t.insert(Unit {
        id: 2,
        conf: UnitConfig { name: String::from("web") },
        dependencies: deps(vec![1], vec![1]),
        specialized: UnitSpecialized::Service(web),
    });
    t.mark_socket_opened(0, vec![5, 6]);
    let fds = collect_listen_fds(&t, 1);
    assert_eq!(fds, vec![5, 6]);

    // a socket predecessor satisfies `requires` once it is bound
    let sched = Scheduler::new(&t);
    let ready = sched.ready_indices(&t);
    assert_eq!(ready, vec![1usize]);
}

#[test]
fn requires_predecessor_must_be_running() {
    let mut t = UnitTable::new();
    t.insert(service_unit(1, "db", vec![], vec![]));
    t.insert(service_unit(2, "app", vec![], vec![1]));
    let mut sched = Scheduler::new(&t);
    // db not yet running: only db is ready
    let ready = sched.ready_indices(&t);
    assert_eq!(ready, vec![0usize]);
    sched.note_spawn_success(&mut t, 0, 11);
    let ready2 = sched.ready_indices(&t);
    assert_eq!(ready2, vec![1usize]);
}

#[test]
fn failed_requires_predecessor_fails_all_dependents() {
    // P-chain: c requires b, b requires a; a fails, so b and c fail and
    // none of them runs
    let mut t = UnitTable::new();
    t.insert(service_unit(1, "a", vec![], vec![]));
    t.insert(service_unit(2, "b", vec![], vec![1]));
    t.insert(service_unit(3, "c", vec![], vec![2]));
    let mut sched = Scheduler::new(&t);
    sched.note_spawn_failure(&mut t, 0);
    fail_requires_dependents(&mut t);
    assert_eq!(service_status(&t, 1), ServiceStatus::Failed);
    assert_eq!(service_status(&t, 2), ServiceStatus::Failed);
    assert_eq!(service_status(&t, 3), ServiceStatus::Failed);
}

#[test]
fn clean_exit_stops_abnormal_exit_fails() {
    let mut t = UnitTable::new();
    let mut s = demo_service(false);
    s.status = ServiceStatus::Running;
    s.pid = Some(9);
    t.insert(Unit {
        id: 1,
        conf: UnitConfig { name: String::from("one") },
        dependencies: deps(vec![], vec![]),
        specialized: UnitSpecialized::Service(s),
    });
    let restart = reconcile_exit(&mut t, 0, true);
    assert!(!restart);
    assert_eq!(service_status(&t, 1), ServiceStatus::Stopped);

    let mut t2 = UnitTable::new();
    let mut s2 = demo_service(false);
    s2.status = ServiceStatus::Running;
    s2.pid = Some(9);
    s2.restart = RestartPolicy::OnFailure;
    t2.insert(Unit {
        id: 1,
        conf: UnitConfig { name: String::from("flaky") },
        dependencies: deps(vec![], vec![]),
        specialized: UnitSpecialized::Service(s2),
    });
    let restart2 = reconcile_exit(&mut t2, 0, false);
    assert!(restart2);
    assert_eq!(service_status(&t2, 1), ServiceStatus::Failed);
}

#[test]
fn crash_restart_changes_the_pid() {
    // restart=on-failure: exit code 1 asks for one respawn, with a new pid
    let mut t = UnitTable::new();
    let mut s = demo_service(false);
    s.status = ServiceStatus::Running;
    s.pid = Some(7);
    s.restart = RestartPolicy::OnFailure;
    t.insert(Unit {
        id: 1,
        conf: UnitConfig { name: String::from("flaky") },
        dependencies: deps(vec![], vec![]),
        specialized: UnitSpecialized::Service(s),
    });
    let mut pids = PidTable::new();
    pids.insert(7, 1);
    let r = handle_child_exit(&mut t, &mut pids, 7, Some(1));
    assert_eq!(r, Some((1, true)));
    respawn_service(&mut t, 0, 8);
    assert_eq!(service_status(&t, 1), ServiceStatus::Running);
    if let UnitSpecialized::Service(s) = &t.units[0].specialized {
        assert_eq!(s.pid, Some(8));
    }
    // restart=never on the same exit would be terminal
    let r2 = handle_child_exit(&mut t, &mut pids, 99, Some(1));
    assert_eq!(r2, None);
}

#[test]
fn pid_table_maps_and_forgets() {
    let mut pids = PidTable::new();
    pids.insert(10, 1);
    pids.insert(11, 2);
    assert_eq!(pids.remove(10), Some(1));
    assert_eq!(pids.remove(10), None);
    assert_eq!(pids.remove(11), Some(2));
}

#[test]
fn snapshot_lists_only_registered_descriptors() {
    let mut t = UnitTable::new();
    let mut a = demo_service(false);
    a.notifications = Some(31);
    a.stdout_dup = Some(41);
    t.insert(Unit {
        id: 1,
        conf: UnitConfig { name: String::from("a") },
        dependencies: deps(vec![], vec![]),
        specialized: UnitSpecialized::Service(a),
    });
    let mut b = demo_service(false);
    b.stdout_dup = Some(42);
    t.insert(Unit {
        id: 2,
        conf: UnitConfig { name: String::from("b") },
        dependencies: deps(vec![], vec![]),
        specialized: UnitSpecialized::Service(b),
    });
    assert_eq!(collect_stream_fds(&t, StreamKind::Notify), vec![(31, 1)]);
    assert_eq!(collect_stream_fds(&t, StreamKind::Stdout), vec![(41, 1), (42, 2)]);
    assert_eq!(collect_stream_fds(&t, StreamKind::Stderr), vec![]);
}

#[test]
fn event_counter_reads_zero_after_drain() {
    let mut c = EventCounter::new();
    c.notify();
    c.notify();
    assert_eq!(c.drain(), 2);
    assert_eq!(c.count, 0);
    assert_eq!(c.drain(), 0);
}

#[test]
fn wakeup_descriptor_reads_zero_after_drain() {
    // a non-blocking eventfd: after the drain the counter is 0, so a read
    // reports nothing to read
    let fd = nix::sys::eventfd::eventfd(
        0,
        nix::sys::eventfd::EfdFlags::EFD_NONBLOCK | nix::sys::eventfd::EfdFlags::EFD_CLOEXEC,
    )
    .expect("eventfd");
    notify_event_fd(fd);
    let mut buf = [0u8; 8];
    let got = nix::unistd::read(fd, &mut buf).expect("counter must be non-zero after notify");
    assert_eq!(got, 8);
    assert_ne!(u64::from_ne_bytes(buf), 0);
    notify_event_fd(fd);
    reset_event_fd(fd);
    let empty = nix::unistd::read(fd, &mut buf);
    assert!(empty.is_err());
    let _ = nix::unistd::close(fd);
}

#[test]
fn config_defaults_and_overrides() {
    let (log, conf) = assemble_config(None, None, None);
    assert_eq!(log.log_dir, "./logs");
    assert_eq!(conf.notification_sockets_dir, "./notifications");
    assert_eq!(conf.unit_dirs, vec![String::from("./test_units")]);

    let (log2, conf2) = assemble_config(
        Some(String::from("/var/log/x")),
        Some(String::from("/run/notify")),
        Some(String::from("/etc/units")),
    );
    assert_eq!(log2.log_dir, "/var/log/x");
    assert_eq!(conf2.notification_sockets_dir, "/run/notify");
    assert_eq!(conf2.unit_dirs, vec![String::from("/etc/units")]);
}
